//! The abstract state of the staking engine and its transition functions.
//!
//! Every operation of the engine is specified here as a mathematical function
//! from states to states, together with an outcome function that says exactly
//! on which states the operation succeeds and which error it returns
//! otherwise. The executable engine's contracts tie each call to these
//! functions.

use vstd::prelude::*;
use crate::ledger::{can_transfer, can_withdraw, credited_amount, deposit_kept, zero_balances};

verus! {

/// Account that holds the distribution reserve, derived from the engine's
/// fixed identifier.
pub const POT_ACCOUNT: u64 = 0x70792f73696d706c;

/// Derivative balance given to the pot account at genesis.
pub const POT_ENDOWMENT: u128 = 1_000_000_000;

/// Reward paid to each staked account by the periodic distributor.
pub const DISTRIBUTION_REWARD: u128 = 777;

/// The distributor runs on every block height divisible by this cadence.
pub const DISTRIBUTION_CADENCE: u64 = 10;

/// Bonus percentage in force until governance changes it.
pub const DEFAULT_PERCENTAGE: u8 = 1;

/// Cooldown window in blocks in force until governance changes it.
pub const DEFAULT_BLOCK_TIME: u32 = 1;

/// Observable events, recorded in order of occurrence.
#[derive(Clone, Copy, Debug, PartialEq, Eq, Structural)]
pub enum Event {
    /// Collateral was locked by its owner: owner and amount.
    MainTokenStaked(u64, u128),
    /// Collateral was released to its owner: owner and amount.
    MainTokenUnstaked(u64, u128),
    /// Derivative balance was credited to an account: owner and amount.
    StakedTokenDeposited(u64, u128),
    /// Derivative balance moved between accounts: sender, recipient, amount.
    StakedTokenTransferred(u64, u64, u128),
    /// Derivative balance was withdrawn from an account: owner and amount.
    StakedTokenWithdrawn(u64, u128),
    /// Derivative balance was issued: amount requested from the ledger.
    StakedTokenIssued(u128),
    /// Derivative balance was burned: amount.
    StakedTokenBurned(u128),
}

/// Rejections reported to the caller. A rejected call has no effect.
#[derive(Clone, Copy, Debug, PartialEq, Eq, Structural)]
pub enum Error {
    /// The caller's free collateral balance is below the staked amount.
    NotEnoughMainToken,
    /// The caller's derivative balance is below the requested amount.
    NotEnoughStakedToken,
    /// The transfer recipient is the caller itself.
    TransferToSelf,
    /// The cooldown window has not elapsed since the last action.
    TooFastUnstake,
    /// The cooldown window has not elapsed since the last action.
    TooFastStake,
    /// The amount parameter is zero.
    ZeroAmount,
    /// Governance tried to set a bonus percentage above one hundred.
    PercentageTooHigh,
}

/// A delegation to the external proposal subsystem, handed back to the host
/// to perform. The engine only decides whether and with what arguments the
/// delegation happens.
#[derive(Clone, Copy, Debug, PartialEq, Eq)]
pub enum GovernanceCall {
    /// Propose on behalf of `who` with the given proposal hash and weight.
    Propose { who: u64, proposal: [u8; 32], weight: u128 },
    /// Vote on behalf of `who`, with the full weight on one side.
    Vote { who: u64, referendum: u32, in_favor: u128, against: u128 },
}

/// The abstract state of the engine: both ledgers, the stake positions with
/// their visiting order, the pool parameters, the clock, the event log, and
/// ghost counters of derivative units minted and burned since genesis.
#[verifier::ext_equal]
pub struct State {
    /// Free collateral balance of every account.
    pub main_free: Map<u64, u128>,
    /// Reserved collateral balance of every account.
    pub main_reserved: Map<u64, u128>,
    /// Total collateral issuance.
    pub main_issuance: u128,
    /// Existential deposit of the collateral token.
    pub main_ed: u128,
    /// Free derivative balance of every account.
    pub staked_free: Map<u64, u128>,
    /// Reserved derivative balance of every account; the engine never
    /// reserves derivative balance, so this stays empty.
    pub staked_reserved: Map<u64, u128>,
    /// Total derivative issuance.
    pub staked_issuance: u128,
    /// Existential deposit of the derivative token.
    pub staked_ed: u128,
    /// Block height of the last staking action of every staked account.
    pub positions: Map<u64, u64>,
    /// The staked accounts in the order the distributor visits them.
    pub staked_order: Seq<u64>,
    /// Bonus percentage, at most one hundred.
    pub percentage: u8,
    /// Cooldown window in blocks.
    pub block_to_unlock: u32,
    /// The current block height.
    pub block_number: u64,
    /// All events emitted so far.
    pub events: Seq<Event>,
    /// Derivative units minted by stakes since genesis.
    pub minted: int,
    /// Derivative units burned by unstakes since genesis.
    pub burned: int,
    /// Derivative issuance right after genesis.
    pub initial_staked_issuance: int,
}

impl State {
    /// State-level invariant: the pool parameters are in range and the
    /// derivative issuance accounts exactly for what was minted and burned
    /// on top of the genesis supply.
    pub open spec fn inv(self) -> bool {
        &&& self.percentage <= 100
        &&& self.minted >= 0
        &&& self.burned >= 0
        &&& self.initial_staked_issuance >= 0
        &&& self.staked_issuance as int == self.initial_staked_issuance + self.minted
            - self.burned
    }

    /// Whether the cooldown window has elapsed for `who`: an account with
    /// no position never staked, so the window is vacuously satisfied.
    pub open spec fn cooldown_elapsed(self, who: u64) -> bool {
        self.positions.dom().contains(who) ==> self.block_number as int >= self.positions[who]
            + self.block_to_unlock
    }

    /// Derivative units to issue for a stake of `amount`: the amount plus the
    /// flat bonus percentage value, saturating to the amount alone when the
    /// sum overflows.
    pub open spec fn issued_for(self, amount: u128) -> u128 {
        if amount + self.percentage <= u128::MAX {
            (amount + self.percentage) as u128
        } else {
            amount
        }
    }

    /// On which states a stake succeeds, and the error it is rejected with.
    pub open spec fn stake_outcome(self, who: u64, amount: u128) -> Result<(), Error> {
        if amount == 0 {
            Err(Error::ZeroAmount)
        } else if self.main_free[who] < amount {
            Err(Error::NotEnoughMainToken)
        } else if !self.cooldown_elapsed(who) {
            Err(Error::TooFastStake)
        } else {
            Ok(())
        }
    }

    /// The state after a successful stake: the collateral is reserved, the
    /// boosted derivative amount is issued and deposited (rolled back if the
    /// deposit cannot be kept), and the caller's position is recorded at the
    /// current height.
    pub open spec fn stake_applied(self, who: u64, amount: u128) -> State {
        let issued = self.issued_for(amount);
        let credited = credited_amount(self.staked_issuance, issued);
        let kept = deposit_kept(self.staked_free, self.staked_ed, who, credited);
        State {
            main_free: self.main_free.insert(who, (self.main_free[who] - amount) as u128),
            main_reserved: self.main_reserved.insert(
                who,
                (self.main_reserved[who] + amount) as u128,
            ),
            staked_free: if kept {
                self.staked_free.insert(who, (self.staked_free[who] + credited) as u128)
            } else {
                self.staked_free
            },
            staked_issuance: if kept {
                (self.staked_issuance + credited) as u128
            } else {
                self.staked_issuance
            },
            minted: if kept {
                self.minted + credited
            } else {
                self.minted
            },
            positions: self.positions.insert(who, self.block_number),
            staked_order: if self.positions.dom().contains(who) {
                self.staked_order
            } else {
                self.staked_order.push(who)
            },
            events: self.events + seq![
                Event::MainTokenStaked(who, amount),
                Event::StakedTokenIssued(issued),
                Event::StakedTokenDeposited(who, issued),
            ],
            ..self
        }
    }

    /// On which states an unstake succeeds, and the error it is rejected
    /// with. The derivative balance must cover the amount and stay at the
    /// existential deposit after the withdrawal.
    pub open spec fn unstake_outcome(self, who: u64, amount: u128) -> Result<(), Error> {
        if amount == 0 {
            Err(Error::ZeroAmount)
        } else if self.staked_free[who] < amount {
            Err(Error::NotEnoughStakedToken)
        } else if !self.cooldown_elapsed(who) {
            Err(Error::TooFastUnstake)
        } else if !can_withdraw(self.staked_free, self.staked_ed, who, amount) {
            Err(Error::NotEnoughStakedToken)
        } else {
            Ok(())
        }
    }

    /// The state after a successful unstake: the derivative amount is
    /// withdrawn and burned, the caller's entire remaining reserved
    /// collateral is released regardless of the amount burned, and the
    /// caller's position is deleted.
    pub open spec fn unstake_applied(self, who: u64, amount: u128) -> State {
        State {
            staked_free: self.staked_free.insert(who, (self.staked_free[who] - amount) as u128),
            staked_issuance: (self.staked_issuance - amount) as u128,
            burned: self.burned + amount,
            main_free: self.main_free.insert(
                who,
                (self.main_free[who] + self.main_reserved[who]) as u128,
            ),
            main_reserved: self.main_reserved.insert(who, 0u128),
            positions: self.positions.remove(who),
            staked_order: self.staked_order.remove_value(who),
            events: self.events + seq![
                Event::StakedTokenWithdrawn(who, amount),
                Event::StakedTokenBurned(amount),
                Event::MainTokenUnstaked(who, amount),
            ],
            ..self
        }
    }

    /// On which states a transfer succeeds, and the error it is rejected
    /// with. Both the sender's remaining and the recipient's resulting
    /// balance must respect the existential deposit.
    pub open spec fn transfer_outcome(self, who: u64, recv: u64, amount: u128) -> Result<
        (),
        Error,
    > {
        if who == recv {
            Err(Error::TransferToSelf)
        } else if self.staked_free[who] < amount {
            Err(Error::NotEnoughStakedToken)
        } else if amount == 0 {
            Err(Error::ZeroAmount)
        } else if !can_transfer(self.staked_free, self.staked_ed, who, recv, amount) {
            Err(Error::NotEnoughStakedToken)
        } else {
            Ok(())
        }
    }

    /// The state after a successful transfer.
    pub open spec fn transfer_applied(self, who: u64, recv: u64, amount: u128) -> State {
        State {
            staked_free: self.staked_free.insert(
                who,
                (self.staked_free[who] - amount) as u128,
            ).insert(recv, (self.staked_free[recv] + amount) as u128),
            events: self.events.push(Event::StakedTokenTransferred(who, recv, amount)),
            ..self
        }
    }

    /// On which values a bonus percentage change succeeds.
    pub open spec fn change_percentage_outcome(self, value: u8) -> Result<(), Error> {
        if value <= 100 {
            Ok(())
        } else {
            Err(Error::PercentageTooHigh)
        }
    }

    /// The state after a successful bonus percentage change.
    pub open spec fn with_percentage(self, value: u8) -> State {
        State { percentage: value, ..self }
    }

    /// The state after a cooldown window change, which never fails.
    pub open spec fn with_block_to_unlock(self, value: u32) -> State {
        State { block_to_unlock: value, ..self }
    }

    /// The state after the host moved the clock to `n`.
    pub open spec fn at_block(self, n: u64) -> State {
        State { block_number: n, ..self }
    }

    /// Total derivative balance of `who`, the weight available for
    /// governance.
    pub open spec fn staked_total(self, who: u64) -> int {
        self.staked_free[who] + self.staked_reserved[who]
    }

    /// On which states creating a proposal of the given weight succeeds.
    pub open spec fn proposal_outcome(self, who: u64, weight: u128) -> Result<(), Error> {
        if self.staked_total(who) >= weight {
            Ok(())
        } else {
            Err(Error::NotEnoughStakedToken)
        }
    }

    /// A whole stake call: the state it leaves and the result it returns.
    pub open spec fn stake_step(self, who: u64, amount: u128) -> (State, Result<(), Error>) {
        match self.stake_outcome(who, amount) {
            Ok(()) => (self.stake_applied(who, amount), Ok(())),
            Err(e) => (self, Err(e)),
        }
    }

    /// A whole unstake call: the state it leaves and the result it returns.
    pub open spec fn unstake_step(self, who: u64, amount: u128) -> (State, Result<(), Error>) {
        match self.unstake_outcome(who, amount) {
            Ok(()) => (self.unstake_applied(who, amount), Ok(())),
            Err(e) => (self, Err(e)),
        }
    }

    /// A whole transfer call: the state it leaves and the result it returns.
    pub open spec fn transfer_step(self, who: u64, recv: u64, amount: u128) -> (
        State,
        Result<(), Error>,
    ) {
        match self.transfer_outcome(who, recv, amount) {
            Ok(()) => (self.transfer_applied(who, recv, amount), Ok(())),
            Err(e) => (self, Err(e)),
        }
    }

    /// One distributor step: pay the fixed reward from the pot to `who`,
    /// provided the pot can afford it and `who` can receive it; a failed
    /// payment leaves no trace and does not disturb the remaining payments.
    pub open spec fn pay_reward(self, who: u64) -> State {
        if who != POT_ACCOUNT && can_transfer(
            self.staked_free,
            self.staked_ed,
            POT_ACCOUNT,
            who,
            DISTRIBUTION_REWARD,
        ) {
            State {
                staked_free: self.staked_free.insert(
                    POT_ACCOUNT,
                    (self.staked_free[POT_ACCOUNT] - DISTRIBUTION_REWARD) as u128,
                ).insert(who, (self.staked_free[who] + DISTRIBUTION_REWARD) as u128),
                events: self.events.push(
                    Event::StakedTokenTransferred(POT_ACCOUNT, who, DISTRIBUTION_REWARD),
                ),
                ..self
            }
        } else {
            self
        }
    }

    /// The distributor's pass over the staked accounts, in order.
    pub open spec fn pay_rewards(self, accts: Seq<u64>) -> State
        decreases accts.len(),
    {
        if accts.len() == 0 {
            self
        } else {
            self.pay_reward(accts[0]).pay_rewards(accts.drop_first())
        }
    }
}

/// Paying one more account continues the pass: visiting `accts` and then
/// `who` is the same as visiting `accts.push(who)`.
pub proof fn lemma_pay_rewards_snoc(s: State, accts: Seq<u64>, who: u64)
    ensures
        s.pay_rewards(accts.push(who)) == s.pay_rewards(accts).pay_reward(who),
    decreases accts.len(),
{
    let p = accts.push(who);
    if accts.len() == 0 {
        assert(p.drop_first() =~= Seq::<u64>::empty());
        assert(p[0] == who);
        assert(s.pay_rewards(p) == s.pay_reward(who).pay_rewards(p.drop_first()));
        assert(s.pay_reward(who).pay_rewards(p.drop_first()) == s.pay_reward(who));
        assert(s.pay_rewards(accts) == s);
    } else {
        assert(p.drop_first() =~= accts.drop_first().push(who));
        assert(p[0] == accts[0]);
        assert(s.pay_rewards(p) == s.pay_reward(accts[0]).pay_rewards(p.drop_first()));
        assert(s.pay_rewards(accts) == s.pay_reward(accts[0]).pay_rewards(accts.drop_first()));
        lemma_pay_rewards_snoc(s.pay_reward(accts[0]), accts.drop_first(), who);
    }
}

/// The distributor only moves derivative balance and emits events: every
/// other part of the state, including both issuances and the positions, is
/// untouched, and the invariant is preserved.
pub proof fn lemma_pay_rewards_frame(s: State, accts: Seq<u64>)
    ensures
        ({
            let r = s.pay_rewards(accts);
            &&& r.main_free == s.main_free
            &&& r.main_reserved == s.main_reserved
            &&& r.main_issuance == s.main_issuance
            &&& r.main_ed == s.main_ed
            &&& r.staked_reserved == s.staked_reserved
            &&& r.staked_issuance == s.staked_issuance
            &&& r.staked_ed == s.staked_ed
            &&& r.positions == s.positions
            &&& r.staked_order == s.staked_order
            &&& r.percentage == s.percentage
            &&& r.block_to_unlock == s.block_to_unlock
            &&& r.block_number == s.block_number
            &&& r.minted == s.minted
            &&& r.burned == s.burned
            &&& r.initial_staked_issuance == s.initial_staked_issuance
            &&& r.inv() == s.inv()
        }),
    decreases accts.len(),
{
    if accts.len() > 0 {
        lemma_pay_rewards_frame(s.pay_reward(accts[0]), accts.drop_first());
    }
}

/// One genesis deposit into a ledger given as its balances and issuance,
/// with the same issuing and existential-deposit rules as any other deposit.
pub open spec fn endow_one(l: (Map<u64, u128>, u128), ed: u128, e: (u64, u128)) -> (
    Map<u64, u128>,
    u128,
) {
    let credited = credited_amount(l.1, e.1);
    if deposit_kept(l.0, ed, e.0, credited) {
        (l.0.insert(e.0, (l.0[e.0] + credited) as u128), (l.1 + credited) as u128)
    } else {
        l
    }
}

/// Genesis endowment of one ledger: deposit each listed balance in turn.
/// Returns the balances and the issuance.
pub open spec fn endow_all(l: (Map<u64, u128>, u128), ed: u128, list: Seq<(u64, u128)>) -> (
    Map<u64, u128>,
    u128,
)
    decreases list.len(),
{
    if list.len() == 0 {
        l
    } else {
        endow_all(endow_one(l, ed, list[0]), ed, list.drop_first())
    }
}

/// The derivative ledger at genesis: the listed balances are deposited into
/// an empty ledger, and then the pot account's balance is raised to its
/// endowment if it is below it, adjusting the issuance to match; the raise
/// is skipped if the adjusted issuance would not fit the balance type.
pub open spec fn genesis_staked(ed: u128, list: Seq<(u64, u128)>) -> (Map<u64, u128>, u128) {
    let base = endow_all((zero_balances(), 0u128), ed, list);
    if base.0[POT_ACCOUNT] < POT_ENDOWMENT {
        if base.1 - base.0[POT_ACCOUNT] + POT_ENDOWMENT <= u128::MAX {
            (
                base.0.insert(POT_ACCOUNT, POT_ENDOWMENT),
                (base.1 - base.0[POT_ACCOUNT] + POT_ENDOWMENT) as u128,
            )
        } else {
            base
        }
    } else {
        base
    }
}

/// Endowing one more account continues the genesis pass.
pub proof fn lemma_endow_all_snoc(
    l: (Map<u64, u128>, u128),
    ed: u128,
    list: Seq<(u64, u128)>,
    e: (u64, u128),
)
    ensures
        endow_all(l, ed, list.push(e)) == endow_one(endow_all(l, ed, list), ed, e),
    decreases list.len(),
{
    let p = list.push(e);
    if list.len() == 0 {
        assert(p.drop_first() =~= Seq::<(u64, u128)>::empty());
        assert(p[0] == e);
        assert(endow_all(l, ed, p) == endow_all(endow_one(l, ed, e), ed, p.drop_first()));
        assert(endow_all(endow_one(l, ed, e), ed, p.drop_first()) == endow_one(l, ed, e));
        assert(endow_all(l, ed, list) == l);
    } else {
        assert(p.drop_first() =~= list.drop_first().push(e));
        assert(p[0] == list[0]);
        assert(endow_all(l, ed, p) == endow_all(endow_one(l, ed, list[0]), ed, p.drop_first()));
        assert(endow_all(l, ed, list) == endow_all(endow_one(l, ed, list[0]), ed, list.drop_first()));
        lemma_endow_all_snoc(endow_one(l, ed, list[0]), ed, list.drop_first(), e);
    }
}

} // verus!

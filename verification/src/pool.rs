//! The staking engine.
//!
//! The engine owns the collateral and derivative ledgers, the stake
//! positions, the pool parameters, the clock and the event log. Every
//! operation's contract ties its result to the outcome function of the
//! abstract state and, on success, ties the new state to the corresponding
//! transition function; a rejected call leaves the state untouched.
//!
//! Callers are assumed to be authenticated by the host: the governance
//! operations must only be invoked on behalf of the privileged authority,
//! and `on_finalize` once per block.

use vstd::prelude::*;
use crate::ledger::{TokenLedger, zero_balances, deposit_kept};
use crate::positions::PositionMap;
use crate::state::{
    State,
    Event,
    Error,
    GovernanceCall,
    POT_ACCOUNT,
    POT_ENDOWMENT,
    DISTRIBUTION_REWARD,
    DISTRIBUTION_CADENCE,
    DEFAULT_PERCENTAGE,
    DEFAULT_BLOCK_TIME,
    endow_all,
    endow_one,
    genesis_staked,
    lemma_endow_all_snoc,
    lemma_pay_rewards_frame,
    lemma_pay_rewards_snoc,
};

verus! {

/// Cooldown window in blocks in force until governance changes it.
#[allow(non_snake_case)]
pub fn DefaultBlockTime() -> (r: u32)
    ensures
        r == DEFAULT_BLOCK_TIME,
{
    DEFAULT_BLOCK_TIME
}

/// Bonus percentage in force until governance changes it.
#[allow(non_snake_case)]
pub fn DefaultPercentage() -> (r: u8)
    ensures
        r == DEFAULT_PERCENTAGE,
{
    DEFAULT_PERCENTAGE
}

/// Host-supplied configuration of the two ledgers.
pub struct Config {
    /// Existential deposit of the collateral token.
    pub main_existential_deposit: u128,
    /// Existential deposit of the derivative token.
    pub staked_existential_deposit: u128,
}

/// Initial balances of the two ledgers, deposited at genesis.
pub struct GenesisConfig {
    /// Collateral endowments, one entry per account.
    pub balances: Vec<(u64, u128)>,
    /// Derivative endowments, one entry per account.
    pub staked_balances: Vec<(u64, u128)>,
}

impl Default for GenesisConfig {
    /// A genesis with no endowments.
    fn default() -> (r: GenesisConfig)
        ensures
            r.balances@ == Seq::<(u64, u128)>::empty(),
            r.staked_balances@ == Seq::<(u64, u128)>::empty(),
    {
        GenesisConfig { balances: Vec::new(), staked_balances: Vec::new() }
    }
}

/// Deposits every listed endowment into the ledger, in order.
fn endow_ledger(l: &mut TokenLedger, list: &Vec<(u64, u128)>)
    requires
        old(l).wf(),
    ensures
        final(l).wf(),
        final(l).spec_ed() == old(l).spec_ed(),
        final(l).reserved_map() == old(l).reserved_map(),
        (final(l).free_map(), final(l).spec_issuance()) == endow_all(
            (old(l).free_map(), old(l).spec_issuance()),
            old(l).spec_ed(),
            list@,
        ),
{
    let ghost l0 = *l;
    let n = list.len();
    let mut i: usize = 0;
    while i < n
        invariant
            l.wf(),
            n == list@.len(),
            i <= n,
            l.spec_ed() == l0.spec_ed(),
            l.reserved_map() == l0.reserved_map(),
            (l.free_map(), l.spec_issuance()) == endow_all(
                (l0.free_map(), l0.spec_issuance()),
                l0.spec_ed(),
                list@.take(i as int),
            ),
        decreases n - i,
    {
        let e = list[i];
        let ghost pre = *l;
        let _credited = l.deposit_creating(e.0, e.1);
        proof {
            lemma_endow_all_snoc(
                (l0.free_map(), l0.spec_issuance()),
                l0.spec_ed(),
                list@.take(i as int),
                e,
            );
            assert(list@.take(i as int + 1) =~= list@.take(i as int).push(e));
            assert((l.free_map(), l.spec_issuance()) == endow_one(
                (pre.free_map(), pre.spec_issuance()),
                pre.spec_ed(),
                e,
            ));
        }
        i += 1;
    }
    proof {
        assert(list@.take(n as int) =~= list@);
    }
}

impl GenesisConfig {
    /// Builds the engine: both ledgers are endowed as listed, the pot
    /// account's derivative balance is raised to its endowment, no account
    /// is staked, the pool parameters hold their defaults, the clock is at
    /// zero and the event log is empty.
    pub fn build(self, config: Config) -> (p: Pallet)
        ensures
            p.wf(),
            (p@.main_free, p@.main_issuance) == endow_all(
                (zero_balances(), 0u128),
                config.main_existential_deposit,
                self.balances@,
            ),
            p@.main_reserved == zero_balances(),
            p@.main_ed == config.main_existential_deposit,
            (p@.staked_free, p@.staked_issuance) == genesis_staked(
                config.staked_existential_deposit,
                self.staked_balances@,
            ),
            p@.staked_reserved == zero_balances(),
            p@.staked_ed == config.staked_existential_deposit,
            p@.positions == Map::<u64, u64>::empty(),
            p@.staked_order == Seq::<u64>::empty(),
            p@.percentage == DEFAULT_PERCENTAGE,
            p@.block_to_unlock == DEFAULT_BLOCK_TIME,
            p@.block_number == 0,
            p@.events == Seq::<Event>::empty(),
            p@.minted == 0,
            p@.burned == 0,
            p@.initial_staked_issuance == p@.staked_issuance as int,
    {
        let mut main = TokenLedger::new(config.main_existential_deposit);
        endow_ledger(&mut main, &self.balances);
        let mut staked = TokenLedger::new(config.staked_existential_deposit);
        endow_ledger(&mut staked, &self.staked_balances);
        let pot_balance = staked.free_balance(POT_ACCOUNT);
        if pot_balance < POT_ENDOWMENT {
            let _applied = staked.set_free_balance(POT_ACCOUNT, POT_ENDOWMENT);
        }
        let p = Pallet {
            main,
            staked,
            positions: PositionMap::new(),
            percentage: DefaultPercentage(),
            block_to_unlock: DefaultBlockTime(),
            block_number: 0,
            events: Vec::new(),
            minted: Ghost(0int),
            burned: Ghost(0int),
            initial_staked_issuance: Ghost(staked.spec_issuance() as int),
        };
        p
    }
}

/// The staking engine: ledgers, positions, pool parameters, clock and
/// event log.
pub struct Pallet {
    main: TokenLedger,
    staked: TokenLedger,
    positions: PositionMap,
    percentage: u8,
    block_to_unlock: u32,
    block_number: u64,
    events: Vec<Event>,
    minted: Ghost<int>,
    burned: Ghost<int>,
    initial_staked_issuance: Ghost<int>,
}

impl View for Pallet {
    type V = State;

    closed spec fn view(&self) -> State {
        State {
            main_free: self.main.free_map(),
            main_reserved: self.main.reserved_map(),
            main_issuance: self.main.spec_issuance(),
            main_ed: self.main.spec_ed(),
            staked_free: self.staked.free_map(),
            staked_reserved: self.staked.reserved_map(),
            staked_issuance: self.staked.spec_issuance(),
            staked_ed: self.staked.spec_ed(),
            positions: self.positions.map_view(),
            staked_order: self.positions.key_seq(),
            percentage: self.percentage,
            block_to_unlock: self.block_to_unlock,
            block_number: self.block_number,
            events: self.events@,
            minted: self.minted@,
            burned: self.burned@,
            initial_staked_issuance: self.initial_staked_issuance@,
        }
    }
}

impl Pallet {
    /// Well-formedness: the ledgers' and the position record's own
    /// invariants, and the state-level invariant.
    pub closed spec fn wf(self) -> bool {
        &&& self.main.wf()
        &&& self.staked.wf()
        &&& self.positions.wf()
        &&& self@.inv()
    }

    /// A well-formed engine satisfies the state-level invariant.
    pub proof fn lemma_wf_implies_inv(self)
        requires
            self.wf(),
        ensures
            self@.inv(),
    {
    }

    /// In a well-formed engine, one account's balances never exceed the
    /// issuance of their token: each ledger's issuance is the sum of all
    /// its balances.
    pub proof fn lemma_balances_bounded(self, a: u64)
        requires
            self.wf(),
        ensures
            self@.staked_free[a] + self@.staked_reserved[a] <= self@.staked_issuance,
            self@.main_free[a] + self@.main_reserved[a] <= self@.main_issuance,
    {
        self.staked.lemma_total_le_issuance(a);
        self.main.lemma_total_le_issuance(a);
    }

    /// The pot account, derived from the engine's fixed identifier.
    pub fn account_id() -> (r: u64)
        ensures
            r == POT_ACCOUNT,
    {
        POT_ACCOUNT
    }

    /// The block height of `who`'s last staking action, if `who` is staked.
    pub fn staked_times(&self, who: u64) -> (r: Option<u64>)
        requires
            self.wf(),
        ensures
            r == if self@.positions.dom().contains(who) {
                Some(self@.positions[who])
            } else {
                None::<u64>
            },
    {
        self.positions.get(who)
    }

    /// The bonus percentage in force.
    pub fn percentage(&self) -> (r: u8)
        ensures
            r == self@.percentage,
    {
        self.percentage
    }

    /// The cooldown window in force, in blocks.
    pub fn block_to_unlock(&self) -> (r: u32)
        ensures
            r == self@.block_to_unlock,
    {
        self.block_to_unlock
    }

    /// The current block height.
    pub fn block_number(&self) -> (r: u64)
        ensures
            r == self@.block_number,
    {
        self.block_number
    }

    /// Moves the clock to `n`; the host calls this once per block.
    pub fn set_block_number(&mut self, n: u64)
        ensures
            final(self)@ == old(self)@.at_block(n),
            old(self).wf() ==> final(self).wf(),
    {
        self.block_number = n;
        proof {
            assert(self@ =~= old(self)@.at_block(n));
        }
    }

    /// The caller's free collateral balance.
    pub fn free_main_balance(&self, who: u64) -> (r: u128)
        requires
            self.wf(),
        ensures
            r == self@.main_free[who],
    {
        self.main.free_balance(who)
    }

    /// The caller's reserved collateral balance.
    pub fn reserved_main_balance(&self, who: u64) -> (r: u128)
        requires
            self.wf(),
        ensures
            r == self@.main_reserved[who],
    {
        self.main.reserved_balance(who)
    }

    /// The caller's free derivative balance.
    pub fn free_staked_balance(&self, who: u64) -> (r: u128)
        requires
            self.wf(),
        ensures
            r == self@.staked_free[who],
    {
        self.staked.free_balance(who)
    }

    /// Total derivative balance in existence.
    pub fn staked_issuance(&self) -> (r: u128)
        ensures
            r == self@.staked_issuance,
    {
        self.staked.issuance_value()
    }

    /// All events emitted so far, oldest first.
    pub fn events(&self) -> (r: &Vec<Event>)
        ensures
            r@ == self@.events,
    {
        &self.events
    }

    /// Locks `amount` of the caller's collateral and credits the boosted
    /// derivative amount in return, recording the action's height for the
    /// cooldown. Rejected without effect when the amount is zero, the free
    /// collateral balance is short, or the cooldown has not elapsed.
    pub fn stake(&mut self, who: u64, amount: u128) -> (r: Result<(), Error>)
        requires
            old(self).wf(),
        ensures
            final(self).wf(),
            r == old(self)@.stake_outcome(who, amount),
            r is Ok ==> final(self)@ == old(self)@.stake_applied(who, amount),
            r is Err ==> final(self)@ == old(self)@,
    {
        let ghost st0 = self@;
        if amount == 0 {
            return Err(Error::ZeroAmount);
        }
        let free = self.main.free_balance(who);
        if free < amount {
            return Err(Error::NotEnoughMainToken);
        }
        // An account with no position never staked: the cooldown is
        // vacuously satisfied.
        let cooled = match self.positions.get(who) {
            Some(last) => (self.block_number as u128) >= (last as u128) + (
            self.block_to_unlock as u128),
            None => true,
        };
        if !cooled {
            return Err(Error::TooFastStake);
        }

        // Lock the collateral; the balance check above makes this succeed.
        let _reserved = self.main.reserve(who, amount);
        self.events.push(Event::MainTokenStaked(who, amount));

        // Issue the staked amount plus the flat bonus percentage value,
        // saturating to the staked amount alone on overflow.
        let bonus = self.percentage as u128;
        let issued = if amount <= u128::MAX - bonus {
            amount + bonus
        } else {
            amount
        };
        let credited = self.staked.deposit_creating(who, issued);
        self.minted = Ghost(
            if deposit_kept(st0.staked_free, st0.staked_ed, who, credited) {
                st0.minted + credited
            } else {
                st0.minted
            },
        );
        self.events.push(Event::StakedTokenIssued(issued));
        self.events.push(Event::StakedTokenDeposited(who, issued));

        // Record the height of this action.
        let now = self.block_number;
        self.positions.insert(who, now);
        proof {
            assert(self@ =~= st0.stake_applied(who, amount));
        }
        Ok(())
    }

    /// Withdraws and burns `amount` of the caller's derivative balance,
    /// releases the caller's entire remaining reserved collateral, and
    /// deletes the caller's position. Rejected without effect when the
    /// amount is zero, the derivative balance is short or would fall below
    /// the existential deposit, or the cooldown has not elapsed.
    pub fn unstake(&mut self, who: u64, amount: u128) -> (r: Result<(), Error>)
        requires
            old(self).wf(),
        ensures
            final(self).wf(),
            r == old(self)@.unstake_outcome(who, amount),
            r is Ok ==> final(self)@ == old(self)@.unstake_applied(who, amount),
            r is Err ==> final(self)@ == old(self)@,
    {
        let ghost st0 = self@;
        if amount == 0 {
            return Err(Error::ZeroAmount);
        }
        let free = self.staked.free_balance(who);
        if free < amount {
            return Err(Error::NotEnoughStakedToken);
        }
        // An account with no position never staked: the cooldown is
        // vacuously satisfied.
        let cooled = match self.positions.get(who) {
            Some(last) => (self.block_number as u128) >= (last as u128) + (
            self.block_to_unlock as u128),
            None => true,
        };
        if !cooled {
            return Err(Error::TooFastUnstake);
        }

        // Withdraw and burn the derivative balance; this is the first
        // mutation, so a withdrawal refused by the ledger rejects the whole
        // call with no effect.
        let withdrawn = self.staked.withdraw(who, amount);
        if !withdrawn {
            return Err(Error::NotEnoughStakedToken);
        }
        self.burned = Ghost(st0.burned + amount);
        self.events.push(Event::StakedTokenWithdrawn(who, amount));
        self.events.push(Event::StakedTokenBurned(amount));

        // Release the caller's entire remaining collateral lock, regardless
        // of the amount burned: the lock is removed outright.
        let reserved = self.main.reserved_balance(who);
        let _remaining = self.main.unreserve(who, reserved);
        self.events.push(Event::MainTokenUnstaked(who, amount));

        // Forget the caller's position.
        self.positions.remove(who);
        proof {
            assert(self@ =~= st0.unstake_applied(who, amount));
        }
        Ok(())
    }

    /// Moves `amount` of the caller's derivative balance to `recv`.
    /// Rejected without effect when the recipient is the caller, the amount
    /// is zero, or the caller's balance is short, which includes leaving
    /// either account below the existential deposit.
    pub fn transfer(&mut self, who: u64, recv: u64, amount: u128) -> (r: Result<(), Error>)
        requires
            old(self).wf(),
        ensures
            final(self).wf(),
            r == old(self)@.transfer_outcome(who, recv, amount),
            r is Ok ==> final(self)@ == old(self)@.transfer_applied(who, recv, amount),
            r is Err ==> final(self)@ == old(self)@,
    {
        let ghost st0 = self@;
        if who == recv {
            return Err(Error::TransferToSelf);
        }
        let free = self.staked.free_balance(who);
        if free < amount {
            return Err(Error::NotEnoughStakedToken);
        }
        if amount == 0 {
            return Err(Error::ZeroAmount);
        }
        let moved = self.staked.transfer(who, recv, amount);
        if !moved {
            return Err(Error::NotEnoughStakedToken);
        }
        self.events.push(Event::StakedTokenTransferred(who, recv, amount));
        proof {
            assert(self@ =~= st0.transfer_applied(who, recv, amount));
        }
        Ok(())
    }

    /// Sets the bonus percentage; the host must ensure the caller is the
    /// privileged authority. Rejected without effect above one hundred.
    pub fn change_percentage(&mut self, percentage: u8) -> (r: Result<(), Error>)
        requires
            old(self).wf(),
        ensures
            final(self).wf(),
            r == old(self)@.change_percentage_outcome(percentage),
            r is Ok ==> final(self)@ == old(self)@.with_percentage(percentage),
            r is Err ==> final(self)@ == old(self)@,
    {
        if percentage > 100 {
            return Err(Error::PercentageTooHigh);
        }
        self.percentage = percentage;
        proof {
            assert(self@ =~= old(self)@.with_percentage(percentage));
        }
        Ok(())
    }

    /// Sets the cooldown window; the host must ensure the caller is the
    /// privileged authority. Never rejected.
    pub fn change_block_time(&mut self, block_time: u32) -> (r: Result<(), Error>)
        requires
            old(self).wf(),
        ensures
            final(self).wf(),
            r is Ok,
            final(self)@ == old(self)@.with_block_to_unlock(block_time),
    {
        self.block_to_unlock = block_time;
        proof {
            assert(self@ =~= old(self)@.with_block_to_unlock(block_time));
        }
        Ok(())
    }

    /// Decides a proposal delegation: succeeds when the caller's total
    /// derivative balance covers the weight, handing back the call for the
    /// host to forward to the proposal subsystem; the engine's own state is
    /// untouched.
    pub fn create_proposal(&self, who: u64, proposal: [u8; 32], weight: u128) -> (r: Result<
        GovernanceCall,
        Error,
    >)
        requires
            self.wf(),
        ensures
            r is Ok <==> self@.proposal_outcome(who, weight) is Ok,
            r is Ok ==> r == Ok::<GovernanceCall, Error>(
                (GovernanceCall::Propose { who, proposal, weight }),
            ),
            r is Err ==> r == Err::<GovernanceCall, Error>(Error::NotEnoughStakedToken),
    {
        let total = self.staked.total_balance(who);
        if total >= weight {
            Ok(GovernanceCall::Propose { who, proposal, weight })
        } else {
            Err(Error::NotEnoughStakedToken)
        }
    }

    /// A vote delegation with the full weight in favor; the proposal
    /// subsystem itself validates the weight against the caller's balance.
    pub fn vote_in_favor(&self, who: u64, referendum: u32, weight: u128) -> (r: GovernanceCall)
        ensures
            r == (GovernanceCall::Vote { who, referendum, in_favor: weight, against: 0u128 }),
    {
        GovernanceCall::Vote { who, referendum, in_favor: weight, against: 0 }
    }

    /// A vote delegation with the full weight against; the proposal
    /// subsystem itself validates the weight against the caller's balance.
    pub fn vote_in_disfavor(&self, who: u64, referendum: u32, weight: u128) -> (r: GovernanceCall)
        ensures
            r == (GovernanceCall::Vote { who, referendum, in_favor: 0u128, against: weight }),
    {
        GovernanceCall::Vote { who, referendum, in_favor: 0, against: weight }
    }

    /// The per-block hook. On every height divisible by the cadence it pays
    /// the fixed reward from the pot to every staked account in insertion
    /// order; a payment the ledger refuses is skipped without disturbing the
    /// rest. On other heights it does nothing.
    pub fn on_finalize(&mut self, n: u64)
        requires
            old(self).wf(),
        ensures
            final(self).wf(),
            n % DISTRIBUTION_CADENCE == 0 ==> final(self)@ == old(self)@.pay_rewards(
                old(self)@.staked_order,
            ),
            n % DISTRIBUTION_CADENCE != 0 ==> final(self)@ == old(self)@,
    {
        let ghost st0 = self@;
        if n % DISTRIBUTION_CADENCE == 0 {
            let count = self.positions.len();
            let mut i: usize = 0;
            while i < count
                invariant
                    self.wf(),
                    i <= count,
                    count == st0.staked_order.len(),
                    self@.positions == st0.positions,
                    self@.staked_order == st0.staked_order,
                    self@ == st0.pay_rewards(st0.staked_order.take(i as int)),
                decreases count - i,
            {
                let ghost prev = self@;
                let who = self.positions.key_at(i);
                // The pot never pays itself; any other payment the ledger
                // refuses is skipped and the pass goes on.
                if who != POT_ACCOUNT {
                    let paid = self.staked.transfer(POT_ACCOUNT, who, DISTRIBUTION_REWARD);
                    if paid {
                        self.events.push(
                            Event::StakedTokenTransferred(POT_ACCOUNT, who, DISTRIBUTION_REWARD),
                        );
                    }
                }
                proof {
                    assert(self@ =~= prev.pay_reward(who));
                    lemma_pay_rewards_snoc(st0, st0.staked_order.take(i as int), who);
                    assert(st0.staked_order.take(i as int + 1) =~= st0.staked_order.take(
                        i as int,
                    ).push(who));
                    lemma_pay_rewards_frame(st0, st0.staked_order.take(i as int + 1));
                }
                i += 1;
            }
            proof {
                assert(st0.staked_order.take(count as int) =~= st0.staked_order);
            }
        }
    }
}

} // verus!

//! Laws of the staking engine, stated over the abstract state and proved
//! from the transition functions that the engine's contracts are written
//! against.

use vstd::prelude::*;
use crate::ledger::{can_transfer, credited_amount, deposit_kept};
use crate::pool::Pallet;
use crate::state::{Error, Event, State, DISTRIBUTION_REWARD, POT_ACCOUNT};

verus! {

/// Rejections are idempotent: a rejected stake leaves the state unchanged,
/// so repeating the same call against the same state yields the same error
/// and again no state change.
pub proof fn lemma_stake_rejection_idempotent(s: State, who: u64, amount: u128)
    requires
        s.stake_step(who, amount).1 is Err,
    ensures
        s.stake_step(who, amount).0 == s,
        s.stake_step(who, amount).0.stake_step(who, amount) == s.stake_step(who, amount),
{
}

/// Rejections are idempotent: a rejected unstake leaves the state unchanged,
/// so repeating the same call against the same state yields the same error
/// and again no state change.
pub proof fn lemma_unstake_rejection_idempotent(s: State, who: u64, amount: u128)
    requires
        s.unstake_step(who, amount).1 is Err,
    ensures
        s.unstake_step(who, amount).0 == s,
        s.unstake_step(who, amount).0.unstake_step(who, amount) == s.unstake_step(who, amount),
{
}

/// Rejections are idempotent: a rejected transfer leaves the state
/// unchanged, so repeating the same call against the same state yields the
/// same error and again no state change. This covers the self-transfer, the
/// zero amount and the short balance alike.
pub proof fn lemma_transfer_rejection_idempotent(s: State, who: u64, recv: u64, amount: u128)
    requires
        s.transfer_step(who, recv, amount).1 is Err,
    ensures
        s.transfer_step(who, recv, amount).0 == s,
        s.transfer_step(who, recv, amount).0.transfer_step(who, recv, amount) == s.transfer_step(
            who,
            recv,
            amount,
        ),
{
}

/// Conservation of the derivative supply: the units burned by unstakes
/// never exceed the units minted by stakes plus the genesis supply. Every
/// operation of the engine ensures that the invariant still holds of the
/// state it leaves, so along any sequence of stake and unstake calls this
/// bound holds at every step.
pub proof fn lemma_conservation(s: State)
    requires
        s.inv(),
    ensures
        s.burned <= s.minted + s.initial_staked_issuance,
{
}

/// The distributor's pass pays each listed account exactly once, in order:
/// when the recipients are distinct, none of them is the pot, the pot's
/// balance covers one reward per recipient on top of its existential
/// deposit, and every recipient can receive the reward, then the pass
/// appends exactly one transfer event per recipient, credits each with the
/// reward, debits the pot by the rewards' sum, and touches no other
/// account's balance and no earlier event.
pub proof fn lemma_distribution_pays_each_staked_account(s: State, accts: Seq<u64>)
    requires
        accts.no_duplicates(),
        forall|i: int| 0 <= i < accts.len() ==> #[trigger] accts[i] != POT_ACCOUNT,
        s.staked_free[POT_ACCOUNT] >= s.staked_ed + accts.len() * DISTRIBUTION_REWARD,
        forall|i: int|
            0 <= i < accts.len() ==> s.staked_free[#[trigger] accts[i]] + DISTRIBUTION_REWARD
                >= s.staked_ed,
        forall|i: int|
            0 <= i < accts.len() ==> s.staked_free[#[trigger] accts[i]] + DISTRIBUTION_REWARD
                <= u128::MAX,
    ensures
        ({
            let t = s.pay_rewards(accts);
            &&& t.events.len() == s.events.len() + accts.len()
            &&& forall|i: int| 0 <= i < s.events.len() ==> #[trigger] t.events[i] == s.events[i]
            &&& forall|i: int|
                0 <= i < accts.len() ==> t.events[s.events.len() + i] == Event::StakedTokenTransferred(
                    POT_ACCOUNT,
                    #[trigger] accts[i],
                    DISTRIBUTION_REWARD,
                )
            &&& forall|i: int|
                0 <= i < accts.len() ==> t.staked_free[#[trigger] accts[i]] == s.staked_free[accts[i]]
                    + DISTRIBUTION_REWARD
            &&& forall|x: u64|
                x != POT_ACCOUNT && !accts.contains(x) ==> #[trigger] t.staked_free[x]
                    == s.staked_free[x]
            &&& t.staked_free[POT_ACCOUNT] == s.staked_free[POT_ACCOUNT] - accts.len()
                * DISTRIBUTION_REWARD
        }),
    decreases accts.len(),
{
    if accts.len() > 0 {
        let a0 = accts[0];
        assert(can_transfer(s.staked_free, s.staked_ed, POT_ACCOUNT, a0, DISTRIBUTION_REWARD));
        let s1 = s.pay_reward(a0);
        let rest = accts.drop_first();
        assert(forall|i: int| 0 <= i < rest.len() ==> #[trigger] rest[i] == accts[i + 1]);
        assert(rest.no_duplicates());
        assert(s1.staked_free[POT_ACCOUNT] == s.staked_free[POT_ACCOUNT] - DISTRIBUTION_REWARD);
        assert(forall|i: int|
            0 <= i < rest.len() ==> s1.staked_free[#[trigger] rest[i]] == s.staked_free[rest[i]]);
        lemma_distribution_pays_each_staked_account(s1, rest);
        let t = s1.pay_rewards(rest);
        assert(s.pay_rewards(accts) == t);
        assert forall|x: u64| x != POT_ACCOUNT && !accts.contains(x) implies #[trigger] t.staked_free[x]
            == s.staked_free[x] by {
            assert(!rest.contains(x));
        }
        assert forall|i: int| 0 <= i < accts.len() implies t.staked_free[#[trigger] accts[i]]
            == s.staked_free[accts[i]] + DISTRIBUTION_REWARD by {
            if i == 0 {
                assert(!rest.contains(a0));
            } else {
                assert(rest[i - 1] == accts[i]);
            }
        }
        assert forall|i: int|
            0 <= i < accts.len() implies t.events[s.events.len() + i]
            == Event::StakedTokenTransferred(POT_ACCOUNT, #[trigger] accts[i], DISTRIBUTION_REWARD) by {
            if i == 0 {
                assert(t.events[s.events.len() as int] == s1.events[s.events.len() as int]);
            } else {
                assert(rest[i - 1] == accts[i]);
                assert(t.events[s1.events.len() + (i - 1)] == Event::StakedTokenTransferred(
                    POT_ACCOUNT,
                    rest[i - 1],
                    DISTRIBUTION_REWARD,
                ));
            }
        }
    }
}

/// Issuance never undercuts redemption: a successful stake credits the
/// caller with at least as much derivative balance as the collateral it
/// locks, and grows the derivative issuance by at least as much, so the
/// caller leaves with enough derivative balance to burn for the newly
/// locked collateral. The bound holds whenever the bonus issuance is
/// spared its two documented fallbacks, which the last two premises state:
/// a saturated issuance mints only the remaining headroom, and a deposit
/// that cannot reach the existential deposit is rolled back while the
/// collateral is locked all the same — on such inputs (an issuance already
/// at the capacity of the balance type, say) less is credited than locked.
pub proof fn lemma_stake_covers_redemption(p: Pallet, who: u64, amount: u128)
    requires
        p.wf(),
        p@.stake_outcome(who, amount) is Ok,
        p@.staked_issuance + p@.issued_for(amount) <= u128::MAX,
        deposit_kept(
            p@.staked_free,
            p@.staked_ed,
            who,
            credited_amount(p@.staked_issuance, p@.issued_for(amount)),
        ),
    ensures
        ({
            let t = p@.stake_applied(who, amount);
            &&& t.staked_issuance >= p@.staked_issuance + amount
            &&& t.staked_free[who] >= p@.staked_free[who] + amount
            &&& t.main_reserved[who] == p@.main_reserved[who] + amount
        }),
{
    p.lemma_balances_bounded(who);
    let s = p@;
    assert(s.issued_for(amount) >= amount);
    assert(credited_amount(s.staked_issuance, s.issued_for(amount)) == s.issued_for(amount));
}

/// Cooldown monotonicity for a second stake: after a successful stake at
/// some height, a stake by the same account at any later height closer than
/// the cooldown window is rejected — with `TooFastStake` when amount and
/// balance are otherwise valid, among them the gap of exactly one block
/// less than the window — and one at or past the window succeeds on an
/// otherwise valid call.
pub proof fn lemma_cooldown_spacing_stake(s: State, who: u64, a1: u128, a2: u128, h2: u64)
    requires
        s.stake_outcome(who, a1) is Ok,
    ensures
        ({
            let s1 = s.stake_applied(who, a1).at_block(h2);
            &&& (h2 as int) < s.block_number + s1.block_to_unlock ==> s1.stake_outcome(
                who,
                a2,
            ) is Err
            &&& (h2 as int) < s.block_number + s1.block_to_unlock && a2 > 0
                && s1.main_free[who] >= a2 ==> s1.stake_outcome(who, a2) == Err::<(), Error>(
                Error::TooFastStake,
            )
            &&& (h2 as int) >= s.block_number + s1.block_to_unlock && a2 > 0
                && s1.main_free[who] >= a2 ==> s1.stake_outcome(who, a2) is Ok
        }),
{
    let s1 = s.stake_applied(who, a1).at_block(h2);
    assert(s1.positions.dom().contains(who));
    assert(s1.positions[who] == s.block_number);
}

/// Cooldown monotonicity for an unstake after a stake: after a successful
/// stake at some height, an unstake by the same account at any later height
/// closer than the cooldown window is rejected — with `TooFastUnstake` when
/// amount and balance are otherwise valid, among them the gap of exactly
/// one block less than the window — and one at or past the window succeeds
/// on an otherwise valid call.
pub proof fn lemma_cooldown_spacing_unstake(s: State, who: u64, a1: u128, a2: u128, h2: u64)
    requires
        s.stake_outcome(who, a1) is Ok,
    ensures
        ({
            let s1 = s.stake_applied(who, a1).at_block(h2);
            &&& (h2 as int) < s.block_number + s1.block_to_unlock ==> s1.unstake_outcome(
                who,
                a2,
            ) is Err
            &&& (h2 as int) < s.block_number + s1.block_to_unlock && a2 > 0
                && s1.staked_free[who] >= a2 ==> s1.unstake_outcome(who, a2) == Err::<(), Error>(
                Error::TooFastUnstake,
            )
            &&& (h2 as int) >= s.block_number + s1.block_to_unlock && a2 > 0
                && s1.staked_free[who] >= a2 && s1.staked_free[who] - a2 >= s1.staked_ed
                ==> s1.unstake_outcome(who, a2) is Ok
        }),
{
    let s1 = s.stake_applied(who, a1).at_block(h2);
    assert(s1.positions.dom().contains(who));
    assert(s1.positions[who] == s.block_number);
}

} // verus!

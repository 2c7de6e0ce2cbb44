//! Scenario and property checks on concrete values: bonus arithmetic,
//! cooldown spacing, rejection idempotence, conservation of the derivative
//! supply, and the periodic distribution tick.

use simple_pool::{
    Config, Error, Event, GenesisConfig, Pallet, DEFAULT_BLOCK_TIME, DEFAULT_PERCENTAGE,
    POT_ACCOUNT, POT_ENDOWMENT,
};

fn fresh_pool() -> Pallet {
    let genesis = GenesisConfig {
        balances: vec![(1u64, 512u128), (2, 512), (3, 512), (4, 512), (5, 512)],
        staked_balances: vec![(1u64, 2u128), (2, 2), (3, 2), (4, 2), (5, 2)],
    };
    let config = Config { main_existential_deposit: 512, staked_existential_deposit: 1 };
    let mut pool = genesis.build(config);
    pool.set_block_number(1);
    pool
}

#[test]
fn defaults_and_pot() {
    let pool = fresh_pool();
    assert_eq!(pool.percentage(), DEFAULT_PERCENTAGE);
    assert_eq!(pool.block_to_unlock(), DEFAULT_BLOCK_TIME);
    assert_eq!(simple_pool::DefaultPercentage(), 1);
    assert_eq!(simple_pool::DefaultBlockTime(), 1);
    assert_eq!(Pallet::account_id(), POT_ACCOUNT);
    assert_eq!(pool.free_staked_balance(POT_ACCOUNT), POT_ENDOWMENT);
    assert_eq!(pool.free_main_balance(1), 512);
    assert_eq!(pool.free_staked_balance(1), 2);
}

#[test]
fn stake_credits_flat_bonus() {
    // An account with a free collateral balance of 512 stakes 100 at height
    // 1 with a bonus percentage of 1: the credited derivative amount is 101
    // (the flat percentage value, not a proportion) and the position records
    // height 1.
    let mut pool = fresh_pool();
    assert!(pool.stake(1, 100).is_ok());
    assert_eq!(pool.free_staked_balance(1), 2 + 101);
    assert_eq!(pool.free_main_balance(1), 412);
    assert_eq!(pool.reserved_main_balance(1), 100);
    assert_eq!(pool.staked_times(1), Some(1));
    let events = pool.events();
    assert_eq!(events.len(), 3);
    assert_eq!(events[0], Event::MainTokenStaked(1, 100));
    assert_eq!(events[1], Event::StakedTokenIssued(101));
    assert_eq!(events[2], Event::StakedTokenDeposited(1, 101));
}

#[test]
fn unstake_in_same_block_is_too_fast() {
    // A stake at height 1 followed by an unstake at height 1 with a cooldown
    // of one block is rejected.
    let mut pool = fresh_pool();
    assert!(pool.stake(1, 42).is_ok());
    assert_eq!(pool.unstake(1, 42), Err(Error::TooFastUnstake));
}

#[test]
fn self_transfer_rejected_regardless_of_balance() {
    // An account with no stake and no balance at all transfers to itself:
    // the self-transfer check comes before any balance check.
    let mut pool = fresh_pool();
    assert_eq!(pool.transfer(9, 9, 1), Err(Error::TransferToSelf));
}

#[test]
fn transferred_derivative_cannot_be_unstaked() {
    // A stakes 42 and hands all 42 derivative units to B: A's unstake of 42
    // now fails for lack of derivative balance, while B can transfer 2 back.
    let mut pool = fresh_pool();
    assert!(pool.stake(1, 42).is_ok());
    assert!(pool.transfer(1, 2, 42).is_ok());
    pool.set_block_number(2);
    assert_eq!(pool.unstake(1, 42), Err(Error::NotEnoughStakedToken));
    assert!(pool.transfer(2, 1, 2).is_ok());
}

#[test]
fn distribution_tick_pays_every_staked_account() {
    // Three accounts hold positions and the pot is funded: the tick at a
    // height on the cadence emits exactly three transfer events from the
    // pot, in the order the accounts staked, and ticks just before and
    // after it emit none.
    let mut pool = fresh_pool();
    assert!(pool.stake(1, 10).is_ok());
    assert!(pool.stake(2, 10).is_ok());
    assert!(pool.stake(3, 10).is_ok());
    let before = pool.events().len();
    pool.on_finalize(99);
    assert_eq!(pool.events().len(), before);
    pool.on_finalize(100);
    let events = pool.events();
    assert_eq!(events.len(), before + 3);
    assert_eq!(events[before], Event::StakedTokenTransferred(POT_ACCOUNT, 1, 777));
    assert_eq!(events[before + 1], Event::StakedTokenTransferred(POT_ACCOUNT, 2, 777));
    assert_eq!(events[before + 2], Event::StakedTokenTransferred(POT_ACCOUNT, 3, 777));
    assert_eq!(pool.free_staked_balance(1), 2 + 11 + 777);
    assert_eq!(pool.free_staked_balance(POT_ACCOUNT), POT_ENDOWMENT - 3 * 777);
    let before = pool.events().len();
    pool.on_finalize(101);
    assert_eq!(pool.events().len(), before);
}

#[test]
fn distribution_pays_nobody_when_nobody_is_staked() {
    // After the only staker unstakes, a tick on the cadence visits no
    // account and emits nothing.
    let mut pool = fresh_pool();
    assert!(pool.stake(1, 10).is_ok());
    pool.set_block_number(2);
    assert!(pool.unstake(1, 5).is_ok());
    let before = pool.events().len();
    pool.on_finalize(10);
    assert_eq!(pool.events().len(), before);
}

#[test]
fn percentage_bounds() {
    // Setting the bonus percentage to 101 is rejected; 100 is accepted.
    let mut pool = fresh_pool();
    assert_eq!(pool.change_percentage(101), Err(Error::PercentageTooHigh));
    assert_eq!(pool.percentage(), DEFAULT_PERCENTAGE);
    assert!(pool.change_percentage(100).is_ok());
    assert_eq!(pool.percentage(), 100);
}

#[test]
fn change_block_time_is_unbounded() {
    let mut pool = fresh_pool();
    assert!(pool.change_block_time(1000).is_ok());
    assert_eq!(pool.block_to_unlock(), 1000);
    assert!(pool.change_block_time(0).is_ok());
    assert_eq!(pool.block_to_unlock(), 0);
}

#[test]
fn cooldown_gap_of_one_less_fails_gap_at_window_succeeds() {
    // With a cooldown of 2 blocks, a second action 1 block later is too
    // fast, and one exactly 2 blocks later goes through.
    let mut pool = fresh_pool();
    assert!(pool.change_block_time(2).is_ok());
    pool.set_block_number(3);
    assert!(pool.stake(1, 5).is_ok());
    pool.set_block_number(4);
    assert_eq!(pool.stake(1, 5), Err(Error::TooFastStake));
    assert_eq!(pool.unstake(1, 5), Err(Error::TooFastUnstake));
    pool.set_block_number(5);
    assert!(pool.stake(1, 5).is_ok());
}

#[test]
fn zero_amounts_rejected() {
    let mut pool = fresh_pool();
    assert_eq!(pool.stake(1, 0), Err(Error::ZeroAmount));
    assert_eq!(pool.unstake(1, 0), Err(Error::ZeroAmount));
    assert_eq!(pool.transfer(1, 2, 0), Err(Error::ZeroAmount));
}

#[test]
fn rejected_calls_leave_no_trace_and_repeat_identically() {
    // Repeating the same invalid call against the same state yields the
    // same error, and neither attempt changes balances or emits events.
    let mut pool = fresh_pool();
    assert_eq!(pool.stake(1, 1024), Err(Error::NotEnoughMainToken));
    assert_eq!(pool.free_main_balance(1), 512);
    assert_eq!(pool.events().len(), 0);
    assert_eq!(pool.stake(1, 1024), Err(Error::NotEnoughMainToken));
    assert_eq!(pool.free_main_balance(1), 512);
    assert_eq!(pool.events().len(), 0);
}

#[test]
fn derivative_supply_accounts_for_mints_and_burns() {
    // Genesis issues 2 to each of five accounts and tops the pot up to its
    // endowment. A stake of 100 mints 101; an unstake of 50 burns 50.
    let mut pool = fresh_pool();
    assert_eq!(pool.staked_issuance(), POT_ENDOWMENT + 10);
    assert!(pool.stake(1, 100).is_ok());
    assert_eq!(pool.staked_issuance(), POT_ENDOWMENT + 10 + 101);
    pool.set_block_number(2);
    assert!(pool.unstake(1, 50).is_ok());
    assert_eq!(pool.staked_issuance(), POT_ENDOWMENT + 10 + 101 - 50);
}

#[test]
fn unstake_releases_entire_lock_and_clears_position() {
    // Unstaking any nonzero amount removes the whole collateral lock, not
    // a proportional part: burning 40 of the 43 derivative units releases
    // all 42 locked units.
    let mut pool = fresh_pool();
    assert!(pool.stake(1, 42).is_ok());
    pool.set_block_number(2);
    assert!(pool.unstake(1, 40).is_ok());
    assert_eq!(pool.reserved_main_balance(1), 0);
    assert_eq!(pool.free_main_balance(1), 512);
    assert_eq!(pool.staked_times(1), None);
}

#[test]
fn first_action_needs_no_cooldown() {
    // An account with no position never staked, so the cooldown window is
    // vacuously satisfied even when it exceeds the current height; once a
    // position exists the window applies.
    let mut pool = fresh_pool();
    assert!(pool.change_block_time(1000).is_ok());
    assert!(pool.stake(1, 5).is_ok());
    pool.set_block_number(500);
    assert_eq!(pool.stake(1, 5), Err(Error::TooFastStake));
    // An unstake by a holder who never staked passes the cooldown too.
    assert!(pool.transfer(1, 2, 5).is_ok());
    assert!(pool.unstake(2, 1).is_ok());
}

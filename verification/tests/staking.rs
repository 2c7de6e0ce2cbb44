//! Exercises the staking engine's operations against a small genesis: five
//! accounts with a collateral balance of 512 and a derivative balance of 2
//! each, the default bonus percentage of 1 and the default cooldown of one
//! block, starting at block height 1.

use simple_pool::{Config, Error, GenesisConfig, GovernanceCall, Pallet};

fn new_test_ext() -> Pallet {
    let genesis = GenesisConfig {
        balances: vec![(1u64, 512u128), (2, 512), (3, 512), (4, 512), (5, 512)],
        staked_balances: vec![(1u64, 2u128), (2, 2), (3, 2), (4, 2), (5, 2)],
    };
    let config = Config { main_existential_deposit: 512, staked_existential_deposit: 1 };
    let mut pool = genesis.build(config);
    pool.set_block_number(1);
    pool
}

#[test]
fn stake_works() {
    let mut pool = new_test_ext();
    assert!(pool.stake(1, 1).is_ok());
}

#[test]
fn stake_too_much_tokens() {
    let mut pool = new_test_ext();
    assert_eq!(pool.stake(1, 1024), Err(Error::NotEnoughMainToken));
}

#[test]
fn restake_works() {
    let mut pool = new_test_ext();
    assert!(pool.stake(1, 1).is_ok());
    let block_number = pool.block_number();
    pool.set_block_number(block_number + 1);
    assert!(pool.stake(1, 1).is_ok());
    let block_number = pool.block_number();
    pool.set_block_number(block_number + 1);
    assert!(pool.unstake(1, 2).is_ok());
}

#[test]
fn unstake_works() {
    let mut pool = new_test_ext();
    assert!(pool.stake(1, 1).is_ok());
    let block_number = pool.block_number();
    pool.set_block_number(block_number + 3);
    assert!(pool.unstake(1, 1).is_ok());
}

#[test]
fn transfer_basic_test() {
    let mut pool = new_test_ext();
    assert!(pool.stake(1, 42).is_ok());
    assert!(pool.transfer(1, 2, 1).is_ok());
}

#[test]
fn transfer_works() {
    let mut pool = new_test_ext();
    assert_eq!(pool.transfer(2, 1, 2), Err(Error::NotEnoughStakedToken));
    assert!(pool.stake(1, 42).is_ok());
    assert!(pool.transfer(1, 2, 3).is_ok());
    assert!(pool.transfer(2, 1, 2).is_ok());
}

#[test]
fn complex_transfer_works() {
    let mut pool = new_test_ext();
    assert_eq!(pool.transfer(2, 1, 2), Err(Error::NotEnoughStakedToken));
    assert!(pool.stake(1, 42).is_ok());
    assert!(pool.transfer(1, 2, 42).is_ok());
    assert!(pool.transfer(2, 1, 2).is_ok());
    let block_number = pool.block_number();
    pool.set_block_number(block_number + 1);
    assert!(pool.unstake(2, 40).is_ok());
}

#[test]
fn transfer_to_self() {
    let mut pool = new_test_ext();
    assert_eq!(pool.transfer(1, 1, 1), Err(Error::TransferToSelf));
}

#[test]
fn transfer_too_much() {
    let mut pool = new_test_ext();
    assert_eq!(pool.transfer(1, 2, 1024), Err(Error::NotEnoughStakedToken));
}

#[test]
fn percentage_works() {
    let mut pool = new_test_ext();
    assert!(pool.stake(1, 100).is_ok());
    assert!(pool.transfer(1, 2, 101).is_ok());
}

#[test]
fn unstake_too_much_tokens() {
    let mut pool = new_test_ext();
    assert_eq!(pool.unstake(1, 1024), Err(Error::NotEnoughStakedToken));
}

#[test]
fn create_proposal_works() {
    let mut pool = new_test_ext();
    let hash = [0; 32];
    assert!(pool.stake(1, 42).is_ok());
    assert!(pool.create_proposal(1, hash, 1).is_ok());
}

#[test]
fn create_proposal_not_enough_tokens() {
    let pool = new_test_ext();
    let hash = [0; 32];
    assert_eq!(
        pool.create_proposal(1, hash, 1024),
        Err(Error::NotEnoughStakedToken)
    );
}

#[test]
fn change_percentage() {
    let mut pool = new_test_ext();
    assert!(pool.stake(1, 100).is_ok());
    assert!(pool.transfer(1, 2, 101).is_ok());
    assert_eq!(pool.transfer(1, 2, 102), Err(Error::NotEnoughStakedToken));
    assert!(pool.change_percentage(5).is_ok());
    let block_number = pool.block_number();
    pool.set_block_number(block_number + 1);
    assert!(pool.stake(1, 100).is_ok());
    assert!(pool.transfer(1, 2, 105).is_ok());
}

#[test]
fn create_proposal_returns_delegation() {
    let mut pool = new_test_ext();
    let hash = [7u8; 32];
    assert!(pool.stake(1, 42).is_ok());
    assert_eq!(
        pool.create_proposal(1, hash, 40),
        Ok(GovernanceCall::Propose { who: 1, proposal: hash, weight: 40 })
    );
}

#[test]
fn votes_split_the_weight_one_sided() {
    let pool = new_test_ext();
    assert_eq!(
        pool.vote_in_favor(1, 3, 25),
        GovernanceCall::Vote { who: 1, referendum: 3, in_favor: 25, against: 0 }
    );
    assert_eq!(
        pool.vote_in_disfavor(2, 3, 9),
        GovernanceCall::Vote { who: 2, referendum: 3, in_favor: 0, against: 9 }
    );
}

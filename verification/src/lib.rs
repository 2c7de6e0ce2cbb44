//! A collateralized staking engine.
//!
//! Account holders lock units of a collateral balance and receive units of a
//! derivative balance in return, boosted by a configurable bonus percentage.
//! Staking actions by one account must be spaced by a cooldown window, the
//! derivative balance can be transferred between accounts, and a periodic
//! distribution step pays a fixed reward from a pooled reserve account to
//! every staked account.

pub mod balance_map;
pub mod laws;
pub mod ledger;
pub mod pool;
pub mod positions;
pub mod state;

pub use pool::{Config, DefaultBlockTime, DefaultPercentage, GenesisConfig, Pallet};
pub use state::{
    Error, Event, GovernanceCall, State, DEFAULT_BLOCK_TIME, DEFAULT_PERCENTAGE,
    DISTRIBUTION_CADENCE, DISTRIBUTION_REWARD, POT_ACCOUNT, POT_ENDOWMENT,
};

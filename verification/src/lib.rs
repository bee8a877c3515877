//! A verified staking ledger.
//!
//! The crate tracks per-account deposits of a fungible token, accrues a
//! time-decaying reward on them (era-based halving with day-level
//! pro-ration), and settles principal and reward on withdrawal.
//!
//! The ledger itself never talks to a token or a clock: the environment
//! reads balances, allowances and timestamps, performs the transfers, and
//! hands the observed values to the ledger operations, which make every
//! decision and carry every invariant.

pub mod types;

pub mod reward;

pub mod accounts;

pub mod ledger;

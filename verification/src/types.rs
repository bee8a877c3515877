//! Plain value types shared by the whole ledger.

use vstd::prelude::*;

verus! {

/// A token amount, in the smallest token unit.
pub type Balance = u128;

/// A point in time, in seconds.
pub type Timestamp = u64;

/// The identity of a staking account, as the environment names it.
pub type AccountId = u64;

} // verus!

//! The stake ledger: per-account records, the aggregate counters, and the
//! operations `stake`, `unstake` and `claim_reward`.
//!
//! The ledger never reads a clock and never moves a token itself. Its
//! caller reads the clock and the token gateway, performs the transfers,
//! and hands the observed values in; each operation makes every decision,
//! keeps the invariants, and mutates nothing unless its checks pass.

use vstd::prelude::*;

verus! {

use crate::accounts::{
    distinct_keys,
    key_at,
    lemma_get_absent,
    lemma_get_at,
    lemma_get_push_fresh,
    lemma_get_remove,
    lemma_get_update,
    lemma_staked_sum_entry_le,
    lemma_staked_sum_push,
    lemma_staked_sum_remove,
    lemma_staked_sum_update,
    spec_get,
    staked_sum,
    Record,
};
use crate::reward::{calculate_reward, lemma_short_window_no_reward, reward_owed};
use crate::types::{AccountId, Balance, Timestamp};
use vstd::pervasive::VecAdditionalExecFns;

/// Why a ledger operation refused.
#[derive(Clone, Copy, Debug, PartialEq, Eq, Structural)]
pub enum Error {
    /// The operation needs an existing stake record and the account has none.
    NoRecord(AccountId),
    /// `stake` was asked to stake nothing.
    AmountIsZero,
    /// The account has approved less than the amount it asked to stake.
    AllowanceTooLow,
    /// A balance delta or an aggregate counter would under- or overflow.
    StakeOverflow,
    /// The token gateway reported a failed transfer.
    TransferFailed,
}

/// The record a successful stake of `credited` at `now` leaves behind:
/// a fresh record, or the previous one topped up with its accrual window
/// reset to `now`.
pub open spec fn staked_record(prev: Option<Record>, credited: Balance, now: Timestamp) -> Record {
    match prev {
        None => Record { staked_amount: credited, initial_timestamp: now, staked_at: now },
        Some(rec) => Record {
            staked_amount: (rec.staked_amount + credited) as Balance,
            initial_timestamp: rec.initial_timestamp,
            staked_at: now,
        },
    }
}

/// The record a paying claim at `now` leaves behind: the same stake with
/// the accrual window restarted.
pub open spec fn settled_record(rec: Record, now: Timestamp) -> Record {
    Record {
        staked_amount: rec.staked_amount,
        initial_timestamp: rec.initial_timestamp,
        staked_at: now,
    }
}

pub struct StakingContract {
    /// The token this ledger stakes, as the environment names it.
    pub token_addr: AccountId,
    /// One entry per account with a live record; accounts are distinct.
    pub stake_info: Vec<(AccountId, Record)>,
    /// The sum of all live records' staked amounts.
    pub total_staked_amount: Balance,
    /// What is left of the reward pool; it only ever decreases.
    pub available_reward_amount: Balance,
    /// When the ledger was created.
    pub initial_timestamp: Timestamp,
}

impl StakingContract {
    /// The account table as a sequence of entries.
    pub open spec fn records(&self) -> Seq<(AccountId, Record)> {
        self.stake_info@
    }

    /// The record of `account`, if it has one.
    pub open spec fn spec_record(&self, account: AccountId) -> Option<Record> {
        spec_get(self.records(), account)
    }

    /// A well-formed ledger: accounts are distinct, no live record stakes
    /// zero, and the aggregate counter equals the sum of the records.
    pub open spec fn wf(&self) -> bool {
        &&& distinct_keys(self.records())
        &&& (forall|i: int|
            0 <= i < self.records().len() ==> self.records()[i].1.staked_amount > 0)
        &&& self.total_staked_amount as int == staked_sum(self.records())
    }

    /// What a claim by `account` at `now` pays: the reward owed for its
    /// accrual window, capped at what is left of the reward pool; nothing
    /// without a record.
    pub open spec fn spec_claim_payout(&self, account: AccountId, now: Timestamp) -> int {
        match self.spec_record(account) {
            None => 0,
            Some(rec) => {
                let owed = reward_owed(now, rec.staked_at, rec.staked_amount);
                if owed <= self.available_reward_amount as int {
                    owed
                } else {
                    self.available_reward_amount as int
                }
            },
        }
    }

    /// The result `stake` owes for the given observations, checked in the
    /// order the checks run.
    pub open spec fn spec_stake_result(
        &self,
        amount: Balance,
        allowance: Balance,
        transfer_ok: bool,
        balance_before: Balance,
        balance_after: Balance,
    ) -> Result<Balance, Error> {
        if amount == 0 {
            Err(Error::AmountIsZero)
        } else if allowance < amount {
            Err(Error::AllowanceTooLow)
        } else if !transfer_ok {
            Err(Error::TransferFailed)
        } else if balance_after < balance_before {
            Err(Error::StakeOverflow)
        } else if self.total_staked_amount + (balance_after - balance_before) > u128::MAX {
            Err(Error::StakeOverflow)
        } else {
            Ok((balance_after - balance_before) as Balance)
        }
    }

    /// A fresh ledger over `token` with a reward pool of
    /// `available_reward_amount`, created at `now`.
    pub fn new(token: AccountId, available_reward_amount: Balance, now: Timestamp) -> (r: Self)
        ensures
            r.wf(),
            r.token_addr == token,
            r.records().len() == 0,
            r.total_staked_amount == 0,
            r.available_reward_amount == available_reward_amount,
            r.initial_timestamp == now,
    {
        StakingContract {
            token_addr: token,
            stake_info: Vec::new(),
            total_staked_amount: 0,
            available_reward_amount,
            initial_timestamp: now,
        }
    }

    /// Finds the entry of `account` in the table, if it has one.
    fn find_index(&self, account: AccountId) -> (r: Option<usize>)
        ensures
            match r {
                Some(i) => key_at(self.records(), account, i as int),
                None => self.spec_record(account) is None,
            },
    {
        let n = self.stake_info.len();
        let mut i: usize = 0;
        while i < n
            invariant
                i <= n,
                n == self.stake_info.len(),
                forall|j: int| 0 <= j < i ==> self.stake_info@[j].0 != account,
            decreases n - i,
        {
            if self.stake_info[i].0 == account {
                return Some(i);
            }
            i = i + 1;
        }
        proof {
            lemma_get_absent(self.records(), account);
        }
        None
    }

    /// The record of `account`, if it has one.
    pub fn record_of(&self, account: AccountId) -> (r: Option<Record>)
        requires
            self.wf(),
        ensures
            r == self.spec_record(account),
    {
        match self.find_index(account) {
            None => None,
            Some(i) => {
                proof {
                    lemma_get_at(self.records(), account, i as int);
                }
                Some(self.stake_info[i].1)
            },
        }
    }

    /// The payout a claim by `account` at `now` would make, without
    /// changing anything: the owed reward, capped at the remaining pool.
    pub fn claim_amount(&self, account: AccountId, now: Timestamp) -> (r: Result<Balance, Error>)
        requires
            self.wf(),
        ensures
            self.spec_record(account) is None <==> r == Err::<Balance, Error>(
                Error::NoRecord(account),
            ),
            self.spec_record(account) is Some ==> r == Ok::<Balance, Error>(
                self.spec_claim_payout(account, now) as Balance,
            ),
    {
        let idx = match self.find_index(account) {
            None => {
                return Err(Error::NoRecord(account));
            },
            Some(i) => i,
        };
        proof {
            lemma_get_at(self.records(), account, idx as int);
        }
        let rec = self.stake_info[idx].1;
        let owed = calculate_reward(now, rec.staked_at, rec.staked_amount);
        if owed <= self.available_reward_amount {
            Ok(owed)
        } else {
            Ok(self.available_reward_amount)
        }
    }

    /// Stakes into the record of `account` what a gateway transfer
    /// actually credited.
    ///
    /// The caller reads the allowance approved to the ledger, records the
    /// ledger's token balance before and after performing the transfer,
    /// and passes everything in, together with whether the transfer
    /// succeeded. The credited amount is measured defensively as
    /// `balance_after - balance_before`, never taken from `amount`; a
    /// transfer that credited nothing succeeds and changes nothing. On
    /// any error — including an aggregate counter that would overflow,
    /// reported as `StakeOverflow` — nothing changes. Topping up an
    /// existing record resets its whole accrual window to `now`, which
    /// forfeits unclaimed partial accrual unless the caller claims first.
    pub fn stake(
        &mut self,
        account: AccountId,
        now: Timestamp,
        amount: Balance,
        allowance: Balance,
        transfer_ok: bool,
        balance_before: Balance,
        balance_after: Balance,
    ) -> (r: Result<Balance, Error>)
        requires
            old(self).wf(),
        ensures
            final(self).wf(),
            r == old(self).spec_stake_result(
                amount,
                allowance,
                transfer_ok,
                balance_before,
                balance_after,
            ),
            r is Err ==> *final(self) == *old(self),
            r == Ok::<Balance, Error>(0) ==> *final(self) == *old(self),
            final(self).token_addr == old(self).token_addr,
            final(self).initial_timestamp == old(self).initial_timestamp,
            final(self).available_reward_amount == old(self).available_reward_amount,
            forall|b: AccountId|
                b != account ==> final(self).spec_record(b) == old(self).spec_record(b),
            r matches Ok(credited) ==> credited > 0 ==> {
                &&& final(self).total_staked_amount == old(self).total_staked_amount + credited
                &&& final(self).spec_record(account) == Some(
                    staked_record(old(self).spec_record(account), credited, now),
                )
            },
    {
        if amount == 0 {
            return Err(Error::AmountIsZero);
        }
        if allowance < amount {
            return Err(Error::AllowanceTooLow);
        }
        if !transfer_ok {
            return Err(Error::TransferFailed);
        }
        if balance_after < balance_before {
            return Err(Error::StakeOverflow);
        }
        let credited = balance_after - balance_before;
        if credited > u128::MAX - self.total_staked_amount {
            return Err(Error::StakeOverflow);
        }
        if credited == 0 {
            return Ok(0);
        }
        let new_total = self.total_staked_amount + credited;
        let ghost pre = self.records();
        match self.find_index(account) {
            Some(i) => {
                proof {
                    lemma_get_at(pre, account, i as int);
                    lemma_staked_sum_entry_le(pre, i as int);
                }
                let prev = self.stake_info[i].1;
                let updated = Record {
                    staked_amount: prev.staked_amount + credited,
                    initial_timestamp: prev.initial_timestamp,
                    staked_at: now,
                };
                proof {
                    lemma_staked_sum_update(pre, i as int, (account, updated));
                    lemma_get_update(pre, i as int, updated);
                }
                self.stake_info.set(i, (account, updated));
                self.total_staked_amount = new_total;
                Ok(credited)
            },
            None => {
                let fresh = Record {
                    staked_amount: credited,
                    initial_timestamp: now,
                    staked_at: now,
                };
                proof {
                    lemma_staked_sum_push(pre, (account, fresh));
                    lemma_get_push_fresh(pre, account, fresh);
                }
                self.stake_info.push((account, fresh));
                self.total_staked_amount = new_total;
                Ok(credited)
            },
        }
    }

    /// Pays `account` the reward owed for its accrual window ending at
    /// `now`, capped at what is left of the reward pool.
    ///
    /// The caller computes the payout beforehand with `claim_amount`,
    /// performs the transfer when it is positive, and reports the outcome
    /// in `transfer_ok`. A zero payout succeeds without a transfer and
    /// changes nothing; a positive one debits the pool and restarts the
    /// accrual window at `now`, so no interval is ever paid twice. When
    /// the pool covers only part of the owed reward, the capped payout
    /// settles the whole window: the uncovered remainder is forfeited.
    pub fn claim_reward(&mut self, account: AccountId, now: Timestamp, transfer_ok: bool) -> (r:
        Result<Balance, Error>)
        requires
            old(self).wf(),
        ensures
            final(self).wf(),
            0 <= old(self).spec_claim_payout(account, now),
            final(self).token_addr == old(self).token_addr,
            final(self).initial_timestamp == old(self).initial_timestamp,
            final(self).total_staked_amount == old(self).total_staked_amount,
            final(self).available_reward_amount <= old(self).available_reward_amount,
            forall|b: AccountId|
                b != account ==> final(self).spec_record(b) == old(self).spec_record(b),
            r is Err ==> *final(self) == *old(self),
            old(self).spec_record(account) is None <==> r == Err::<Balance, Error>(
                Error::NoRecord(account),
            ),
            (old(self).spec_record(account) is Some && old(self).spec_claim_payout(account, now)
                > 0 && !transfer_ok) <==> r == Err::<Balance, Error>(Error::TransferFailed),
            r is Ok <==> (old(self).spec_record(account) is Some && (old(self).spec_claim_payout(
                account,
                now,
            ) == 0 || transfer_ok)),
            r is Ok ==> r == Ok::<Balance, Error>(
                old(self).spec_claim_payout(account, now) as Balance,
            ),
            (r is Ok && old(self).spec_claim_payout(account, now) == 0) ==> *final(self) == *old(
                self,
            ),
            (r is Ok && old(self).spec_claim_payout(account, now) > 0) ==> {
                &&& final(self).available_reward_amount as int == old(
                    self,
                ).available_reward_amount as int - old(self).spec_claim_payout(account, now)
                &&& final(self).spec_record(account) == Some(
                    settled_record(old(self).spec_record(account).unwrap(), now),
                )
            },
    {
        let idx = match self.find_index(account) {
            None => {
                return Err(Error::NoRecord(account));
            },
            Some(i) => i,
        };
        proof {
            lemma_get_at(self.records(), account, idx as int);
        }
        let rec = self.stake_info[idx].1;
        let owed = calculate_reward(now, rec.staked_at, rec.staked_amount);
        let payout = if owed <= self.available_reward_amount {
            owed
        } else {
            self.available_reward_amount
        };
        if payout == 0 {
            return Ok(0);
        }
        if !transfer_ok {
            return Err(Error::TransferFailed);
        }
        let updated = Record {
            staked_amount: rec.staked_amount,
            initial_timestamp: rec.initial_timestamp,
            staked_at: now,
        };
        let ghost pre = self.records();
        proof {
            lemma_staked_sum_update(pre, idx as int, (account, updated));
            lemma_get_update(pre, idx as int, updated);
        }
        self.stake_info.set(idx, (account, updated));
        self.available_reward_amount = self.available_reward_amount - payout;
        Ok(payout)
    }

    /// Settles the reward exactly as `claim_reward` would, then returns
    /// the whole principal and removes the record.
    ///
    /// The caller computes the payout (`claim_amount`) and the principal
    /// (`record_of`), performs the two transfers — reward first — and
    /// reports each outcome. A failed reward transfer aborts everything;
    /// a failed principal transfer leaves the reward settlement
    /// committed, exactly as a separate `claim_reward` call would have,
    /// and keeps the record.
    pub fn unstake(
        &mut self,
        account: AccountId,
        now: Timestamp,
        reward_transfer_ok: bool,
        principal_transfer_ok: bool,
    ) -> (r: Result<Balance, Error>)
        requires
            old(self).wf(),
        ensures
            final(self).wf(),
            final(self).token_addr == old(self).token_addr,
            final(self).initial_timestamp == old(self).initial_timestamp,
            final(self).available_reward_amount <= old(self).available_reward_amount,
            forall|b: AccountId|
                b != account ==> final(self).spec_record(b) == old(self).spec_record(b),
            old(self).spec_record(account) is None <==> r == Err::<Balance, Error>(
                Error::NoRecord(account),
            ),
            old(self).spec_record(account) is None ==> *final(self) == *old(self),
            (old(self).spec_record(account) is Some && old(self).spec_claim_payout(account, now)
                > 0 && !reward_transfer_ok) ==> (r == Err::<Balance, Error>(Error::TransferFailed)
                && *final(self) == *old(self)),
            old(self).spec_record(account) matches Some(rec) ==> ((old(self).spec_claim_payout(
                account,
                now,
            ) == 0 || reward_transfer_ok) && !principal_transfer_ok) ==> {
                &&& r == Err::<Balance, Error>(Error::TransferFailed)
                &&& final(self).total_staked_amount == old(self).total_staked_amount
                &&& final(self).available_reward_amount as int == old(
                    self,
                ).available_reward_amount as int - old(self).spec_claim_payout(account, now)
                &&& final(self).spec_record(account) == Some(
                    (if old(self).spec_claim_payout(account, now) > 0 {
                        settled_record(rec, now)
                    } else {
                        rec
                    }),
                )
            },
            old(self).spec_record(account) matches Some(rec) ==> ((old(self).spec_claim_payout(
                account,
                now,
            ) == 0 || reward_transfer_ok) && principal_transfer_ok) ==> {
                &&& r == Ok::<Balance, Error>(rec.staked_amount)
                &&& final(self).spec_record(account) is None
                &&& final(self).total_staked_amount as int == old(
                    self,
                ).total_staked_amount as int - rec.staked_amount
                &&& final(self).available_reward_amount as int == old(
                    self,
                ).available_reward_amount as int - old(self).spec_claim_payout(account, now)
            },
    {
        match self.claim_reward(account, now, reward_transfer_ok) {
            Err(e) => {
                return Err(e);
            },
            Ok(_) => {},
        }
        let idx = match self.find_index(account) {
            None => {
                // A successful claim means the record exists, so this arm
                // cannot be reached.
                proof {
                    assert(old(self).spec_record(account) is Some);
                    assert(self.spec_record(account) is Some);
                    assert(false);
                }
                return Err(Error::NoRecord(account));
            },
            Some(i) => i,
        };
        proof {
            lemma_get_at(self.records(), account, idx as int);
        }
        if !principal_transfer_ok {
            return Err(Error::TransferFailed);
        }
        let staked = self.stake_info[idx].1.staked_amount;
        let ghost mid = self.records();
        proof {
            lemma_staked_sum_entry_le(mid, idx as int);
            lemma_staked_sum_remove(mid, idx as int);
            lemma_get_remove(mid, idx as int);
        }
        self.total_staked_amount = self.total_staked_amount - staked;
        let _ = self.stake_info.remove(idx);
        Ok(staked)
    }

    /// No double reward: a claim whose accrual window already starts at
    /// `now` — as it does right after a paying claim at `now` — pays
    /// nothing, whatever is left in the pool.
    pub proof fn lemma_no_double_reward(&self, account: AccountId, now: Timestamp)
        requires
            self.spec_record(account) is Some,
            self.spec_record(account).unwrap().staked_at == now,
        ensures
            self.spec_claim_payout(account, now) == 0,
    {
        let rec = self.spec_record(account).unwrap();
        lemma_short_window_no_reward(now, now, rec.staked_amount);
    }
}

} // verus!

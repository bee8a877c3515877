//! Per-account stake records, and the shape of the account table.
//!
//! The ledger stores its records as a list of `(account, record)` entries
//! with pairwise-distinct accounts. This module gives that list its
//! mathematical reading — point lookup and the sum of all staked amounts —
//! and proves how both move under the three edits the ledger makes:
//! appending a fresh entry, replacing an entry in place, and removing one.

use vstd::prelude::*;

verus! {

use crate::types::{AccountId, Balance, Timestamp};

/// The stake state of one account.
#[derive(Clone, Copy, Debug, PartialEq, Eq, Structural)]
pub struct Record {
    /// Current principal on deposit, in the smallest token unit.
    pub staked_amount: Balance,
    /// When the account opened this record.
    pub initial_timestamp: Timestamp,
    /// Start of the current reward-accrual window.
    pub staked_at: Timestamp,
}

/// The entry at index `i` belongs to account `a`.
pub open spec fn key_at(s: Seq<(AccountId, Record)>, a: AccountId, i: int) -> bool {
    0 <= i < s.len() && s[i].0 == a
}

/// Some entry belongs to account `a`.
pub open spec fn has_key(s: Seq<(AccountId, Record)>, a: AccountId) -> bool {
    exists|i: int| key_at(s, a, i)
}

/// No two entries belong to the same account.
pub open spec fn distinct_keys(s: Seq<(AccountId, Record)>) -> bool {
    forall|i: int, j: int| 0 <= i < j < s.len() ==> s[i].0 != s[j].0
}

/// The record of account `a`, if some entry belongs to it.
pub open spec fn spec_get(s: Seq<(AccountId, Record)>, a: AccountId) -> Option<Record> {
    if has_key(s, a) {
        Some(s[choose|i: int| key_at(s, a, i)].1)
    } else {
        None
    }
}

/// The sum of the staked amounts of all entries.
pub open spec fn staked_sum(s: Seq<(AccountId, Record)>) -> int
    decreases s.len(),
{
    if s.len() == 0 {
        0
    } else {
        s[0].1.staked_amount + staked_sum(s.skip(1))
    }
}

/// With distinct keys, the entry that carries an account is the lookup result.
pub proof fn lemma_get_at(s: Seq<(AccountId, Record)>, a: AccountId, i: int)
    requires
        distinct_keys(s),
        key_at(s, a, i),
    ensures
        spec_get(s, a) == Some(s[i].1),
{
    assert(has_key(s, a));
    let j = choose|j: int| key_at(s, a, j);
    if i < j {
        assert(s[i].0 != s[j].0);
    }
    if j < i {
        assert(s[j].0 != s[i].0);
    }
    assert(j == i);
}

/// An account carried by no entry has no record.
pub proof fn lemma_get_absent(s: Seq<(AccountId, Record)>, a: AccountId)
    requires
        forall|i: int| 0 <= i < s.len() ==> s[i].0 != a,
    ensures
        spec_get(s, a) is None,
{
    assert(!has_key(s, a));
}

/// The sum is never negative.
pub proof fn lemma_staked_sum_nonneg(s: Seq<(AccountId, Record)>)
    ensures
        staked_sum(s) >= 0,
    decreases s.len(),
{
    if s.len() > 0 {
        lemma_staked_sum_nonneg(s.skip(1));
    }
}

/// No single entry stakes more than the sum of all of them.
pub proof fn lemma_staked_sum_entry_le(s: Seq<(AccountId, Record)>, i: int)
    requires
        0 <= i < s.len(),
    ensures
        s[i].1.staked_amount <= staked_sum(s),
    decreases s.len(),
{
    if i == 0 {
        lemma_staked_sum_nonneg(s.skip(1));
    } else {
        lemma_staked_sum_entry_le(s.skip(1), i - 1);
    }
}

/// Appending an entry adds its staked amount to the sum.
pub proof fn lemma_staked_sum_push(s: Seq<(AccountId, Record)>, x: (AccountId, Record))
    ensures
        staked_sum(s.push(x)) == staked_sum(s) + x.1.staked_amount,
    decreases s.len(),
{
    if s.len() == 0 {
        assert(s.push(x)[0] == x);
        assert(s.push(x).skip(1) =~= Seq::<(AccountId, Record)>::empty());
        assert(staked_sum(Seq::<(AccountId, Record)>::empty()) == 0);
        assert(staked_sum(s) == 0);
    } else {
        assert(s.push(x)[0] == s[0]);
        assert(s.push(x).skip(1) =~= s.skip(1).push(x));
        lemma_staked_sum_push(s.skip(1), x);
        assert(staked_sum(s) == s[0].1.staked_amount + staked_sum(s.skip(1)));
    }
}

/// Replacing an entry moves the sum by the difference of the staked amounts.
pub proof fn lemma_staked_sum_update(s: Seq<(AccountId, Record)>, i: int, x: (AccountId, Record))
    requires
        0 <= i < s.len(),
    ensures
        staked_sum(s.update(i, x)) == staked_sum(s) - s[i].1.staked_amount
            + x.1.staked_amount,
    decreases s.len(),
{
    if i == 0 {
        assert(s.update(0, x).skip(1) =~= s.skip(1));
    } else {
        assert(s.update(i, x).skip(1) =~= s.skip(1).update(i - 1, x));
        lemma_staked_sum_update(s.skip(1), i - 1, x);
    }
}

/// Removing an entry subtracts its staked amount from the sum.
pub proof fn lemma_staked_sum_remove(s: Seq<(AccountId, Record)>, i: int)
    requires
        0 <= i < s.len(),
    ensures
        staked_sum(s.remove(i)) == staked_sum(s) - s[i].1.staked_amount,
    decreases s.len(),
{
    if i == 0 {
        assert(s.remove(0) =~= s.skip(1));
    } else {
        assert(s.remove(i).skip(1) =~= s.skip(1).remove(i - 1));
        lemma_staked_sum_remove(s.skip(1), i - 1);
    }
}

/// Appending an entry for a fresh account: keys stay distinct, the fresh
/// account now maps to the new record, and every other account keeps its
/// old lookup result.
pub proof fn lemma_get_push_fresh(s: Seq<(AccountId, Record)>, a: AccountId, rec: Record)
    requires
        distinct_keys(s),
        !has_key(s, a),
    ensures
        distinct_keys(s.push((a, rec))),
        spec_get(s.push((a, rec)), a) == Some(rec),
        forall|b: AccountId| b != a ==> spec_get(s.push((a, rec)), b) == spec_get(s, b),
{
    let s2 = s.push((a, rec));
    assert forall|i: int, j: int| 0 <= i < j < s2.len() implies s2[i].0 != s2[j].0 by {
        if j < s.len() {
            assert(s[i].0 != s[j].0);
        } else {
            if s2[i].0 == a {
                assert(key_at(s, a, i));
            }
        }
    }
    assert(key_at(s2, a, s.len() as int));
    lemma_get_at(s2, a, s.len() as int);
    assert forall|b: AccountId| b != a implies spec_get(s2, b) == spec_get(s, b) by {
        if has_key(s, b) {
            let j = choose|j: int| key_at(s, b, j);
            lemma_get_at(s, b, j);
            assert(key_at(s2, b, j));
            lemma_get_at(s2, b, j);
        } else {
            assert forall|j: int| 0 <= j < s2.len() implies s2[j].0 != b by {
                if j < s.len() && s[j].0 == b {
                    assert(key_at(s, b, j));
                }
            }
            lemma_get_absent(s2, b);
        }
    }
}

/// Replacing the entry of an account in place: keys stay distinct, the
/// account maps to the new record, and every other account keeps its old
/// lookup result.
pub proof fn lemma_get_update(s: Seq<(AccountId, Record)>, i: int, rec: Record)
    requires
        distinct_keys(s),
        0 <= i < s.len(),
    ensures
        distinct_keys(s.update(i, (s[i].0, rec))),
        spec_get(s.update(i, (s[i].0, rec)), s[i].0) == Some(rec),
        forall|b: AccountId| b != s[i].0 ==> spec_get(s.update(i, (s[i].0, rec)), b) == spec_get(
            s,
            b,
        ),
{
    let a = s[i].0;
    let s2 = s.update(i, (a, rec));
    assert forall|p: int, q: int| 0 <= p < q < s2.len() implies s2[p].0 != s2[q].0 by {
        assert(s[p].0 != s[q].0);
    }
    assert(key_at(s2, a, i));
    lemma_get_at(s2, a, i);
    assert forall|b: AccountId| b != a implies spec_get(s2, b) == spec_get(s, b) by {
        if has_key(s, b) {
            let j = choose|j: int| key_at(s, b, j);
            lemma_get_at(s, b, j);
            assert(key_at(s2, b, j));
            lemma_get_at(s2, b, j);
        } else {
            assert forall|j: int| 0 <= j < s2.len() implies s2[j].0 != b by {
                if s[j].0 == b {
                    assert(key_at(s, b, j));
                }
            }
            lemma_get_absent(s2, b);
        }
    }
}

/// Removing the entry of an account: keys stay distinct, the account no
/// longer has a record, and every other account keeps its old lookup
/// result.
pub proof fn lemma_get_remove(s: Seq<(AccountId, Record)>, i: int)
    requires
        distinct_keys(s),
        0 <= i < s.len(),
    ensures
        distinct_keys(s.remove(i)),
        spec_get(s.remove(i), s[i].0) is None,
        forall|b: AccountId| b != s[i].0 ==> spec_get(s.remove(i), b) == spec_get(s, b),
{
    let a = s[i].0;
    let s2 = s.remove(i);
    s.remove_ensures(i);
    assert forall|p: int, q: int| 0 <= p < q < s2.len() implies s2[p].0 != s2[q].0 by {
        let p0: int = if p < i { p } else { p + 1 };
        let q0: int = if q < i { q } else { q + 1 };
        assert(s2[p] == s[p0]);
        assert(s2[q] == s[q0]);
        assert(s[p0].0 != s[q0].0);
    }
    assert forall|j: int| 0 <= j < s2.len() implies s2[j].0 != a by {
        let j0: int = if j < i { j } else { j + 1 };
        assert(s2[j] == s[j0]);
        if j0 < i {
            assert(s[j0].0 != s[i].0);
        } else {
            assert(s[i].0 != s[j0].0);
        }
    }
    lemma_get_absent(s2, a);
    assert forall|b: AccountId| b != a implies spec_get(s2, b) == spec_get(s, b) by {
        if has_key(s, b) {
            let j = choose|j: int| key_at(s, b, j);
            lemma_get_at(s, b, j);
            if j < i {
                assert(key_at(s2, b, j));
                lemma_get_at(s2, b, j);
            } else {
                assert(s2[j - 1] == s[j]);
                assert(key_at(s2, b, j - 1));
                lemma_get_at(s2, b, j - 1);
            }
        } else {
            assert forall|j: int| 0 <= j < s2.len() implies s2[j].0 != b by {
                let j0: int = if j < i { j } else { j + 1 };
                assert(s2[j] == s[j0]);
                if s[j0].0 == b {
                    assert(key_at(s, b, j0));
                }
            }
            lemma_get_absent(s2, b);
        }
    }
}

} // verus!

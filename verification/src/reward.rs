//! The reward calculator: a pure function of elapsed time and principal.
//!
//! Elapsed time is truncated to whole days. Each completed 365-day year
//! (an era) halves what is still un-accrued, and the partial year at the
//! end contributes linearly at the current (already halved) rate. The
//! owed amount is the principal minus what remains un-accrued, plus the
//! partial-year slice — all in integer arithmetic, truncating.

use vstd::prelude::*;

verus! {

use crate::types::{Balance, Timestamp};
use vstd::arithmetic::div_mod::{
    lemma_basic_div,
    lemma_div_by_multiple,
    lemma_div_denominator,
    lemma_div_is_ordered,
    lemma_fundamental_div_mod,
    lemma_hoist_over_denominator,
    lemma_mod_multiples_basic,
};
use vstd::arithmetic::mul::{
    lemma_mul_inequality,
    lemma_mul_is_commutative,
    lemma_mul_nonnegative,
    lemma_mul_upper_bound,
};
use vstd::arithmetic::power2::{lemma2_to64, lemma_pow2_pos, lemma_pow2_unfold, pow2};

/// Seconds in one day; reward accrues only for whole elapsed days.
pub const DAY_SECONDS: u64 = 60 * 60 * 24;

/// Days in one era of the halving schedule.
pub const YEAR_DAYS: u64 = 365;

/// Whole days elapsed from `start` to `now` (a partial day counts for nothing).
pub open spec fn elapsed_days(now: Timestamp, start: Timestamp) -> int
    recommends
        start <= now,
{
    (now - start) / (DAY_SECONDS as int)
}

/// `amount` halved once per completed era, truncating at every step.
pub open spec fn halve(amount: int, eras: nat) -> int
    decreases eras,
{
    if eras == 0 {
        amount
    } else {
        halve(amount / 2, (eras - 1) as nat)
    }
}

/// Reward owed on `principal` for the accrual window `[start, now]`:
/// with `rest` the principal halved once per full elapsed year, the owed
/// amount is `principal - rest + (rest / 2) * remainder_days / 365`.
/// A window that has not started (`now < start`) owes nothing.
pub open spec fn reward_owed(now: Timestamp, start: Timestamp, principal: Balance) -> int {
    if now < start {
        0
    } else {
        let days = elapsed_days(now, start);
        let full_years = days / (YEAR_DAYS as int);
        let rem_days = days % (YEAR_DAYS as int);
        let rest = halve(principal as int, full_years as nat);
        principal - rest + rest / 2 * rem_days / (YEAR_DAYS as int)
    }
}

/// Halving a non-negative amount never leaves the range `[0, amount]`.
pub proof fn lemma_halve_bounds(amount: int, eras: nat)
    requires
        0 <= amount,
    ensures
        0 <= halve(amount, eras) <= amount,
    decreases eras,
{
    if eras > 0 {
        lemma_halve_bounds(amount / 2, (eras - 1) as nat);
    }
}

/// Iterated truncating halving equals one division by the matching power of two.
pub proof fn lemma_halve_is_pow2_div(amount: int, eras: nat)
    requires
        0 <= amount,
    ensures
        halve(amount, eras) == amount / (pow2(eras) as int),
    decreases eras,
{
    if eras == 0 {
        lemma2_to64();
    } else {
        lemma_halve_is_pow2_div(amount / 2, (eras - 1) as nat);
        lemma_pow2_pos((eras - 1) as nat);
        lemma_div_denominator(amount, 2, pow2((eras - 1) as nat) as int);
        lemma_pow2_unfold(eras);
    }
}

/// A truncating product-then-divide stays within `[0, x]` when the factor
/// is below the divisor: `0 <= x * r / d <= x` for `0 <= r <= d`.
proof fn lemma_scale_le(x: int, r: int, d: int)
    requires
        0 <= x,
        0 <= r <= d,
        0 < d,
    ensures
        0 <= x * r / d <= x,
{
    lemma_mul_nonnegative(x, r);
    lemma_mul_inequality(r, d, x);
    lemma_div_is_ordered(x * r, x * d, d);
    lemma_div_by_multiple(x, d);
}

/// The owed reward is never negative and never exceeds the principal.
pub proof fn lemma_reward_owed_bounds(now: Timestamp, start: Timestamp, principal: Balance)
    ensures
        0 <= reward_owed(now, start, principal) <= principal,
{
    if start <= now {
        let days = elapsed_days(now, start);
        let full_years = days / (YEAR_DAYS as int);
        let rem_days = days % (YEAR_DAYS as int);
        let rest = halve(principal as int, full_years as nat);
        lemma_halve_bounds(principal as int, full_years as nat);
        lemma_scale_le(rest / 2, rem_days, YEAR_DAYS as int);
    }
}

/// A window shorter than one day (or not yet begun) owes nothing.
pub proof fn lemma_short_window_no_reward(now: Timestamp, start: Timestamp, principal: Balance)
    requires
        now < start || now - start < DAY_SECONDS,
    ensures
        reward_owed(now, start, principal) == 0,
{
    if start <= now {
        lemma_basic_div(now - start, DAY_SECONDS as int);
        assert(elapsed_days(now, start) == 0);
        assert(0int / (YEAR_DAYS as int) == 0);
        assert(0int % (YEAR_DAYS as int) == 0);
        assert(halve(principal as int, 0) == principal as int);
        assert(principal as int / 2 * 0 == 0);
    }
}

/// The halving law: after exactly `k` full years and no remainder days,
/// the owed reward is the principal minus the principal halved `k` times,
/// which is the principal divided (truncating) by `2^k`.
pub proof fn lemma_halving_law(now: Timestamp, start: Timestamp, principal: Balance, k: nat)
    requires
        start <= now,
        elapsed_days(now, start) == k * (YEAR_DAYS as int),
    ensures
        reward_owed(now, start, principal) == principal - halve(principal as int, k),
        halve(principal as int, k) == principal as int / (pow2(k) as int),
{
    let days = elapsed_days(now, start);
    lemma_div_by_multiple(k as int, YEAR_DAYS as int);
    lemma_mod_multiples_basic(k as int, YEAR_DAYS as int);
    assert(days / (YEAR_DAYS as int) == k);
    assert(days % (YEAR_DAYS as int) == 0);
    let rest = halve(principal as int, k);
    assert(rest / 2 * 0 == 0);
    lemma_halve_is_pow2_div(principal as int, k);
}

/// Computes `reward_owed` exactly, in machine integers.
///
/// The partial-year product `(rest / 2) * rem_days` is evaluated through
/// quotient and remainder by 365 so that it cannot overflow, and is proved
/// equal to the truncating product-then-divide of the specification.
pub fn calculate_reward(now: Timestamp, start: Timestamp, principal: Balance) -> (r: Balance)
    ensures
        r as int == reward_owed(now, start, principal),
{
    if now < start {
        return 0;
    }
    let elapsed: u64 = (now - start) / DAY_SECONDS;
    let ghost total_years: int = elapsed as int / (YEAR_DAYS as int);
    let mut years: u64 = elapsed / YEAR_DAYS;
    let rem_days: u64 = elapsed % YEAR_DAYS;
    let mut rest: Balance = principal;
    proof {
        lemma_halve_bounds(principal as int, years as nat);
    }
    while years > 0
        invariant
            rest <= principal,
            halve(rest as int, years as nat) == halve(principal as int, total_years as nat),
        decreases years,
    {
        rest = rest / 2;
        years = years - 1;
    }
    assert(rest as int == halve(principal as int, total_years as nat));
    let half: Balance = rest / 2;
    let q: Balance = half / (YEAR_DAYS as Balance);
    let s: Balance = half % (YEAR_DAYS as Balance);
    proof {
        lemma_fundamental_div_mod(half as int, YEAR_DAYS as int);
        // q * rem_days stays below half, s * rem_days is small.
        lemma_mul_inequality(rem_days as int, YEAR_DAYS as int, q as int);
        lemma_mul_upper_bound(s as int, YEAR_DAYS as int, rem_days as int, YEAR_DAYS as int);
        lemma_mul_nonnegative(q as int, rem_days as int);
        lemma_mul_nonnegative(s as int, rem_days as int);
        lemma_mul_is_commutative(q as int, rem_days as int);
        lemma_mul_is_commutative(s as int, rem_days as int);
        assert((YEAR_DAYS as int) * (q as int) + (s as int) == half as int);
        assert(q as int * (rem_days as int) <= half as int);
        assert(s as int * (rem_days as int) <= (YEAR_DAYS as int) * (YEAR_DAYS as int));
    }
    let partial: Balance = q * (rem_days as Balance) + (s * (rem_days as Balance)) / (
    YEAR_DAYS as Balance);
    proof {
        // partial == half * rem_days / 365, the specification's truncation order.
        lemma_hoist_over_denominator(
            s as int * rem_days as int,
            q as int * rem_days as int,
            YEAR_DAYS as nat,
        );
        assert(s as int * rem_days as int + (q as int * rem_days as int) * (YEAR_DAYS as int)
            == half as int * rem_days as int) by (nonlinear_arith)
            requires
                half as int == (YEAR_DAYS as int) * (q as int) + (s as int),
        ;
        lemma_scale_le(half as int, rem_days as int, YEAR_DAYS as int);
    }
    principal - rest + partial
}

} // verus!

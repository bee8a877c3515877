//! The reward calculator on concrete values.

use staking_contract::reward::{calculate_reward, DAY_SECONDS};

#[test]
fn reward_example_400_days() {
    // 400 days: one full year and 35 remainder days.
    // rest = 1000 / 2 = 500; partial = (500 / 2) * 35 / 365 = 23;
    // owed = 1000 - 500 + 23 = 523.
    let now = 400 * DAY_SECONDS;
    assert_eq!(calculate_reward(now, 0, 1000), 523);
}

#[test]
fn reward_zero_for_partial_day() {
    assert_eq!(calculate_reward(DAY_SECONDS - 1, 0, 1000), 0);
    assert_eq!(calculate_reward(1000, 1000, 1000), 0);
}

#[test]
fn reward_zero_when_window_starts_in_the_future() {
    assert_eq!(calculate_reward(5, 10, 1000), 0);
}

#[test]
fn reward_within_first_year_accrues_pro_rata() {
    // 100 days, no full year: owed = (1000 / 2) * 100 / 365 = 136.
    let now = 100 * DAY_SECONDS;
    assert_eq!(calculate_reward(now, 0, 1000), 136);
    // 364 days: owed = 500 * 364 / 365 = 498.
    let now = 364 * DAY_SECONDS;
    assert_eq!(calculate_reward(now, 0, 1000), 498);
}

#[test]
fn reward_after_exact_years_follows_halving() {
    // After k full years with no remainder days the owed reward is the
    // principal minus the principal halved k times, truncating each time.
    let year = 365 * DAY_SECONDS;
    assert_eq!(calculate_reward(year, 0, 1000), 1000 - 500);
    assert_eq!(calculate_reward(2 * year, 0, 1000), 1000 - 250);
    assert_eq!(calculate_reward(3 * year, 0, 1000), 1000 - 125);
    // Truncation order matters for odd principals: 1001 -> 500 -> 250.
    assert_eq!(calculate_reward(2 * year, 0, 1001), 1001 - 250);
}

#[test]
fn reward_offset_window() {
    // The window start need not be zero: 400 elapsed days again.
    let start = 7 * DAY_SECONDS + 11;
    let now = start + 400 * DAY_SECONDS;
    assert_eq!(calculate_reward(now, start, 1000), 523);
}

//! The ledger operations end to end, on concrete observations.

use staking_contract::accounts::Record;
use staking_contract::ledger::{Error, StakingContract};
use staking_contract::reward::DAY_SECONDS;

const TOKEN: u64 = 9;
const POOL: u128 = 700_000_000;

/// A ledger with one account that staked `amount` at time 0.
fn ledger_with_stake(account: u64, amount: u128) -> StakingContract {
    let mut led = StakingContract::new(TOKEN, POOL, 0);
    let r = led.stake(account, 0, amount, amount, true, 0, amount);
    assert_eq!(r, Ok(amount));
    led
}

#[test]
fn new_ledger_is_empty() {
    let led = StakingContract::new(TOKEN, POOL, 42);
    assert_eq!(led.token_addr, TOKEN);
    assert_eq!(led.total_staked_amount, 0);
    assert_eq!(led.available_reward_amount, POOL);
    assert_eq!(led.initial_timestamp, 42);
    assert_eq!(led.record_of(1), None);
}

#[test]
fn stake_zero_amount_rejected() {
    let mut led = StakingContract::new(TOKEN, POOL, 0);
    let r = led.stake(1, 0, 0, 1000, true, 0, 0);
    assert_eq!(r, Err(Error::AmountIsZero));
    assert_eq!(led.total_staked_amount, 0);
    assert_eq!(led.available_reward_amount, POOL);
    assert_eq!(led.record_of(1), None);
}

#[test]
fn stake_allowance_too_low() {
    let mut led = StakingContract::new(TOKEN, POOL, 0);
    let r = led.stake(1, 0, 1000, 999, true, 0, 1000);
    assert_eq!(r, Err(Error::AllowanceTooLow));
    assert_eq!(led.total_staked_amount, 0);
    assert_eq!(led.record_of(1), None);
}

#[test]
fn stake_transfer_failure_propagates() {
    let mut led = StakingContract::new(TOKEN, POOL, 0);
    let r = led.stake(1, 0, 1000, 1000, false, 0, 0);
    assert_eq!(r, Err(Error::TransferFailed));
    assert_eq!(led.total_staked_amount, 0);
    assert_eq!(led.record_of(1), None);
}

#[test]
fn stake_rejects_shrinking_balance() {
    let mut led = StakingContract::new(TOKEN, POOL, 0);
    let r = led.stake(1, 0, 1000, 1000, true, 500, 499);
    assert_eq!(r, Err(Error::StakeOverflow));
    assert_eq!(led.total_staked_amount, 0);
}

#[test]
fn stake_rejects_counter_overflow() {
    let mut led = StakingContract::new(TOKEN, POOL, 0);
    let r = led.stake(1, 0, 1, 1, true, 0, u128::MAX);
    assert_eq!(r, Ok(u128::MAX));
    let r = led.stake(2, 0, 1, 1, true, 0, 1);
    assert_eq!(r, Err(Error::StakeOverflow));
    assert_eq!(led.total_staked_amount, u128::MAX);
    assert_eq!(led.record_of(2), None);
}

#[test]
fn stake_creates_record_and_counts() {
    let mut led = StakingContract::new(TOKEN, POOL, 0);
    let r = led.stake(1, 0, 1000, 1000, true, 0, 1000);
    assert_eq!(r, Ok(1000));
    assert_eq!(
        led.record_of(1),
        Some(Record { staked_amount: 1000, initial_timestamp: 0, staked_at: 0 })
    );
    assert_eq!(led.total_staked_amount, 1000);
    assert_eq!(led.available_reward_amount, POOL);
}

#[test]
fn stake_credits_actual_delta_not_requested_amount() {
    // A fee-on-transfer token delivers less than asked: the ledger
    // credits what actually arrived.
    let mut led = StakingContract::new(TOKEN, POOL, 0);
    let r = led.stake(1, 0, 1000, 1000, true, 100, 1090);
    assert_eq!(r, Ok(990));
    assert_eq!(
        led.record_of(1),
        Some(Record { staked_amount: 990, initial_timestamp: 0, staked_at: 0 })
    );
    assert_eq!(led.total_staked_amount, 990);
}

#[test]
fn stake_zero_delta_changes_nothing() {
    let mut led = StakingContract::new(TOKEN, POOL, 0);
    let r = led.stake(1, 0, 1000, 1000, true, 500, 500);
    assert_eq!(r, Ok(0));
    assert_eq!(led.record_of(1), None);
    assert_eq!(led.total_staked_amount, 0);
    // The same on an existing record: not even its window moves.
    let mut led = ledger_with_stake(1, 1000);
    let t = 40 * DAY_SECONDS;
    assert_eq!(led.stake(1, t, 500, 500, true, 1000, 1000), Ok(0));
    assert_eq!(
        led.record_of(1),
        Some(Record { staked_amount: 1000, initial_timestamp: 0, staked_at: 0 })
    );
}

#[test]
fn stake_topup_adds_and_resets_window() {
    let mut led = ledger_with_stake(1, 1000);
    let t = 100 * DAY_SECONDS;
    let r = led.stake(1, t, 500, 500, true, 1000, 1500);
    assert_eq!(r, Ok(500));
    assert_eq!(
        led.record_of(1),
        Some(Record { staked_amount: 1500, initial_timestamp: 0, staked_at: t })
    );
    assert_eq!(led.total_staked_amount, 1500);
    // The reset forfeits the 100 accrued days: a claim right away pays zero.
    assert_eq!(led.claim_reward(1, t, true), Ok(0));
}

#[test]
fn claim_without_record_fails() {
    let mut led = StakingContract::new(TOKEN, POOL, 0);
    assert_eq!(led.claim_amount(7, 0), Err(Error::NoRecord(7)));
    assert_eq!(led.claim_reward(7, 0, true), Err(Error::NoRecord(7)));
}

#[test]
fn claim_pays_and_advances_window() {
    let mut led = ledger_with_stake(1, 1000);
    let t = 400 * DAY_SECONDS;
    assert_eq!(led.claim_amount(1, t), Ok(523));
    assert_eq!(led.claim_reward(1, t, true), Ok(523));
    assert_eq!(led.available_reward_amount, POOL - 523);
    assert_eq!(led.total_staked_amount, 1000);
    assert_eq!(
        led.record_of(1),
        Some(Record { staked_amount: 1000, initial_timestamp: 0, staked_at: t })
    );
}

#[test]
fn claim_twice_pays_zero_the_second_time() {
    let mut led = ledger_with_stake(1, 1000);
    let t = 400 * DAY_SECONDS;
    assert_eq!(led.claim_reward(1, t, true), Ok(523));
    // No time has passed: the second claim pays nothing and changes nothing.
    assert_eq!(led.claim_reward(1, t, true), Ok(0));
    assert_eq!(led.available_reward_amount, POOL - 523);
    assert_eq!(
        led.record_of(1),
        Some(Record { staked_amount: 1000, initial_timestamp: 0, staked_at: t })
    );
}

#[test]
fn claim_zero_needs_no_transfer() {
    let mut led = ledger_with_stake(1, 1000);
    // Nothing owed yet, so the transfer flag is never consulted.
    assert_eq!(led.claim_reward(1, 0, false), Ok(0));
    assert_eq!(led.available_reward_amount, POOL);
}

#[test]
fn claim_transfer_failure_propagates() {
    let mut led = ledger_with_stake(1, 1000);
    let t = 400 * DAY_SECONDS;
    assert_eq!(led.claim_reward(1, t, false), Err(Error::TransferFailed));
    assert_eq!(led.available_reward_amount, POOL);
    assert_eq!(
        led.record_of(1),
        Some(Record { staked_amount: 1000, initial_timestamp: 0, staked_at: 0 })
    );
}

#[test]
fn claim_is_capped_at_the_remaining_pool() {
    let mut led = StakingContract::new(TOKEN, 100, 0);
    assert_eq!(led.stake(1, 0, 1000, 1000, true, 0, 1000), Ok(1000));
    let t = 400 * DAY_SECONDS;
    // 523 owed, 100 left: the payout is capped and the pool empties.
    assert_eq!(led.claim_amount(1, t), Ok(100));
    assert_eq!(led.claim_reward(1, t, true), Ok(100));
    assert_eq!(led.available_reward_amount, 0);
    // With the pool empty, later claims pay zero.
    assert_eq!(led.claim_reward(1, 800 * DAY_SECONDS, true), Ok(0));
    assert_eq!(led.available_reward_amount, 0);
}

#[test]
fn unstake_without_record_fails() {
    let mut led = StakingContract::new(TOKEN, POOL, 0);
    assert_eq!(led.unstake(3, 0, true, true), Err(Error::NoRecord(3)));
}

#[test]
fn unstake_settles_reward_then_returns_principal() {
    let mut led = ledger_with_stake(1, 1000);
    let t = 400 * DAY_SECONDS;
    assert_eq!(led.unstake(1, t, true, true), Ok(1000));
    assert_eq!(led.record_of(1), None);
    assert_eq!(led.total_staked_amount, 0);
    assert_eq!(led.available_reward_amount, POOL - 523);
}

#[test]
fn unstake_then_stake_starts_fresh() {
    let mut led = ledger_with_stake(1, 1000);
    let t = 400 * DAY_SECONDS;
    assert_eq!(led.unstake(1, t, true, true), Ok(1000));
    assert_eq!(led.record_of(1), None);
    // The account is gone; a new stake behaves as a first-time stake.
    let t2 = 500 * DAY_SECONDS;
    assert_eq!(led.stake(1, t2, 200, 200, true, 0, 200), Ok(200));
    assert_eq!(
        led.record_of(1),
        Some(Record { staked_amount: 200, initial_timestamp: t2, staked_at: t2 })
    );
    assert_eq!(led.total_staked_amount, 200);
}

#[test]
fn unstake_aborts_when_reward_transfer_fails() {
    let mut led = ledger_with_stake(1, 1000);
    let t = 400 * DAY_SECONDS;
    assert_eq!(led.unstake(1, t, false, true), Err(Error::TransferFailed));
    assert_eq!(led.total_staked_amount, 1000);
    assert_eq!(led.available_reward_amount, POOL);
    assert_eq!(
        led.record_of(1),
        Some(Record { staked_amount: 1000, initial_timestamp: 0, staked_at: 0 })
    );
}

#[test]
fn unstake_keeps_settled_claim_when_principal_transfer_fails() {
    let mut led = ledger_with_stake(1, 1000);
    let t = 400 * DAY_SECONDS;
    assert_eq!(led.unstake(1, t, true, false), Err(Error::TransferFailed));
    // The reward settlement is committed, exactly as a claim would have been.
    assert_eq!(led.available_reward_amount, POOL - 523);
    assert_eq!(led.total_staked_amount, 1000);
    assert_eq!(
        led.record_of(1),
        Some(Record { staked_amount: 1000, initial_timestamp: 0, staked_at: t })
    );
    // Retrying right away owes no further reward and returns the principal.
    assert_eq!(led.unstake(1, t, true, true), Ok(1000));
    assert_eq!(led.available_reward_amount, POOL - 523);
    assert_eq!(led.record_of(1), None);
}

#[test]
fn unstake_with_nothing_owed_ignores_reward_flag() {
    let mut led = ledger_with_stake(1, 1000);
    // No reward owed at time 0, so only the principal transfer matters.
    assert_eq!(led.unstake(1, 0, false, true), Ok(1000));
    assert_eq!(led.record_of(1), None);
}

#[test]
fn total_staked_equals_the_sum_of_all_records() {
    let mut led = StakingContract::new(TOKEN, POOL, 0);
    let sum_of_records = |led: &StakingContract, accounts: &[u64]| -> u128 {
        accounts.iter().map(|a| led.record_of(*a).map_or(0, |r| r.staked_amount)).sum()
    };
    let accounts = [1u64, 2, 3];
    assert_eq!(led.stake(1, 0, 1000, 1000, true, 0, 1000), Ok(1000));
    assert_eq!(led.total_staked_amount, sum_of_records(&led, &accounts));
    assert_eq!(led.stake(2, 0, 400, 400, true, 1000, 1400), Ok(400));
    assert_eq!(led.total_staked_amount, sum_of_records(&led, &accounts));
    assert_eq!(led.stake(3, 0, 250, 250, true, 1400, 1650), Ok(250));
    assert_eq!(led.total_staked_amount, sum_of_records(&led, &accounts));
    let t = 10 * DAY_SECONDS;
    assert_eq!(led.stake(2, t, 100, 100, true, 1650, 1750), Ok(100));
    assert_eq!(led.total_staked_amount, sum_of_records(&led, &accounts));
    assert_eq!(led.unstake(1, t, true, true), Ok(1000));
    assert_eq!(led.total_staked_amount, sum_of_records(&led, &accounts));
    assert_eq!(led.total_staked_amount, 750);
}

#[test]
fn reward_pool_never_increases() {
    let mut led = StakingContract::new(TOKEN, POOL, 0);
    let mut last = led.available_reward_amount;
    let mut check = |led: &StakingContract, last: &mut u128| {
        assert!(led.available_reward_amount <= *last);
        *last = led.available_reward_amount;
    };
    assert_eq!(led.stake(1, 0, 1000, 1000, true, 0, 1000), Ok(1000));
    check(&led, &mut last);
    let _ = led.claim_reward(1, 400 * DAY_SECONDS, true);
    check(&led, &mut last);
    let _ = led.stake(1, 500 * DAY_SECONDS, 100, 100, true, 1000, 1100);
    check(&led, &mut last);
    let _ = led.claim_reward(1, 900 * DAY_SECONDS, true);
    check(&led, &mut last);
    let _ = led.unstake(1, 1000 * DAY_SECONDS, true, true);
    check(&led, &mut last);
    assert_eq!(led.total_staked_amount, 0);
}

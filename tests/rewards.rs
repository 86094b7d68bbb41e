use energy_rewards::boosted_yields::{BoostConfig, ClaimBoostOnlyModule};
use energy_rewards::claim_progress::{ClaimProgress, ClaimProgressLedger};
use energy_rewards::fees_accumulation::FeesAccumulationModule;
use energy_rewards::splitter::WeeklyRewardsSplitting;
use energy_rewards::types::{energy_weight_of, Payment, RewardsError, TokenAmountPair};
use energy_rewards::week_clock::WeekClock;
use energy_rewards::weekly_rewards::{WeeklyRewardsCache, WeeklyRewardsSplittingTraitsModule};

const TOKEN_X: u64 = 7;
const TOKEN_Y: u64 = 9;
const USER_A: u64 = 1;
const USER_B: u64 = 2;
const USER_C: u64 = 3;
const PAIR: u64 = 77;
const STRANGER: u64 = 78;

#[test]
fn clock_maps_epochs_to_weeks() {
    let clock = WeekClock::new(10, 7);
    assert_eq!(clock.get_current_week(9), None);
    assert_eq!(clock.get_current_week(10), Some(1));
    assert_eq!(clock.get_current_week(16), Some(1));
    assert_eq!(clock.get_current_week(17), Some(2));
    assert!(clock.period_has_closed(1, 17));
    assert!(!clock.period_has_closed(2, 17));
    assert!(!clock.period_has_closed(0, 9));
}

#[test]
fn negative_energy_counts_as_zero() {
    assert_eq!(energy_weight_of(-5), 0);
    assert_eq!(energy_weight_of(0), 0);
    assert_eq!(energy_weight_of(42), 42);
}

#[test]
fn single_claim_after_three_closed_weeks() {
    let mut fees = FeesAccumulationModule::new(vec![PAIR], vec![TOKEN_X]);
    let mut engine = WeeklyRewardsSplitting::new();
    let first = engine.update_energy_and_progress(&mut fees, USER_A, 1, 100).unwrap();
    assert!(first.is_empty());
    assert_eq!(engine.ledger.progress_of(USER_A), ClaimProgress { week: 1, energy: 100 });
    fees.deposit_swap_fees(PAIR, 1, TOKEN_X, 1000).unwrap();
    for w in 1..=3u64 {
        engine.set_total_energy_for_week(w, 1000);
    }
    let paid = engine.settle_and_claim(&mut fees, USER_A, 4, 100).unwrap();
    assert_eq!(paid, vec![Payment { token: TOKEN_X, amount: 100 }]);
    assert_eq!(engine.ledger.progress_of(USER_A), ClaimProgress { week: 4, energy: 100 });
    assert_eq!(engine.cache.get_frozen(2), Some(vec![]));
    assert_eq!(engine.cache.get_frozen(3), Some(vec![]));
    // the open week is never frozen
    assert_eq!(engine.cache.get_frozen(4), None);
}

#[test]
fn second_claim_in_same_week_is_empty() {
    let mut fees = FeesAccumulationModule::new(vec![PAIR], vec![TOKEN_X]);
    let mut engine = WeeklyRewardsSplitting::new();
    engine.update_energy_and_progress(&mut fees, USER_A, 1, 100).unwrap();
    fees.deposit_swap_fees(PAIR, 1, TOKEN_X, 1000).unwrap();
    engine.set_total_energy_for_week(1, 1000);
    let first = engine.settle_and_claim(&mut fees, USER_A, 2, 100).unwrap();
    assert_eq!(first, vec![Payment { token: TOKEN_X, amount: 100 }]);
    let second = engine.settle_and_claim(&mut fees, USER_A, 2, 100).unwrap();
    assert!(second.is_empty());
    assert_eq!(engine.ledger.progress_of(USER_A), ClaimProgress { week: 2, energy: 100 });
}

#[test]
fn frozen_week_is_collected_once() {
    let mut fees = FeesAccumulationModule::new(vec![PAIR], vec![TOKEN_X, TOKEN_Y]);
    let mut cache = WeeklyRewardsCache::new();
    fees.deposit_swap_fees(PAIR, 1, TOKEN_X, 500).unwrap();
    fees.deposit_swap_fees(PAIR, 1, TOKEN_Y, 20).unwrap();
    fees.deposit_swap_fees(PAIR, 1, TOKEN_X, 5).unwrap();
    let first = fees.collect_and_get_rewards_for_week(&mut cache, 1);
    let expected = vec![
        TokenAmountPair { token: TOKEN_X, amount: 505 },
        TokenAmountPair { token: TOKEN_Y, amount: 20 },
    ];
    assert_eq!(first, expected);
    assert_eq!(fees.accumulated_fees(1, TOKEN_X), 0);
    // a late deposit for a frozen week is not taken in
    fees.deposit_swap_fees(PAIR, 1, TOKEN_X, 7).unwrap();
    let second = fees.collect_and_get_rewards_for_week(&mut cache, 1);
    let third = fees.collect_and_get_rewards_for_week(&mut cache, 1);
    assert_eq!(second, expected);
    assert_eq!(third, expected);
    assert_eq!(fees.accumulated_fees(1, TOKEN_X), 7);
}

#[test]
fn collecting_twice_from_fees_returns_empty() {
    let mut fees = FeesAccumulationModule::new(vec![PAIR], vec![TOKEN_X]);
    fees.deposit_swap_fees(PAIR, 3, TOKEN_X, 40).unwrap();
    assert_eq!(fees.collect_accumulated_fees_for_week(3), vec![TokenAmountPair { token: TOKEN_X, amount: 40 }]);
    assert!(fees.collect_accumulated_fees_for_week(3).is_empty());
}

#[test]
fn fees_are_handed_over_in_allow_list_order() {
    let mut fees = FeesAccumulationModule::new(vec![PAIR], vec![TOKEN_Y, TOKEN_X]);
    fees.deposit_swap_fees(PAIR, 2, TOKEN_X, 8).unwrap();
    fees.deposit_swap_fees(PAIR, 2, TOKEN_Y, 3).unwrap();
    assert_eq!(fees.get_and_clear_acccumulated_fees(5, TOKEN_X), None);
    assert_eq!(
        fees.collect_accumulated_fees_for_week(2),
        vec![TokenAmountPair { token: TOKEN_Y, amount: 3 }, TokenAmountPair { token: TOKEN_X, amount: 8 }]
    );
}

#[test]
fn get_and_clear_takes_one_token() {
    let mut fees = FeesAccumulationModule::new(vec![PAIR], vec![TOKEN_X, TOKEN_Y]);
    fees.deposit_swap_fees(PAIR, 1, TOKEN_X, 8).unwrap();
    fees.deposit_swap_fees(PAIR, 1, TOKEN_Y, 3).unwrap();
    assert_eq!(fees.get_and_clear_acccumulated_fees(1, TOKEN_X), Some(8));
    assert_eq!(fees.get_and_clear_acccumulated_fees(1, TOKEN_X), None);
    assert_eq!(fees.accumulated_fees(1, TOKEN_Y), 3);
    assert_eq!(fees.collect_accumulated_fees_for_week(1), vec![TokenAmountPair { token: TOKEN_Y, amount: 3 }]);
}

#[test]
fn fee_deposit_errors() {
    let mut fees = FeesAccumulationModule::new(vec![PAIR], vec![TOKEN_X]);
    assert_eq!(fees.deposit_swap_fees(STRANGER, 1, TOKEN_X, 5), Err(RewardsError::UnknownContract));
    assert_eq!(fees.deposit_swap_fees(PAIR, 1, TOKEN_Y, 5), Err(RewardsError::UnknownToken));
    fees.deposit_swap_fees(PAIR, 1, TOKEN_X, u64::MAX).unwrap();
    assert_eq!(fees.deposit_swap_fees(PAIR, 1, TOKEN_X, 1), Err(RewardsError::Overflow));
    assert_eq!(fees.accumulated_fees(1, TOKEN_X), u64::MAX);
    assert_eq!(fees.deposit_swap_fees(PAIR, 2, TOKEN_X, 1), Ok(()));
}

#[test]
fn shares_are_floored_and_never_exceed_total() {
    let fees = FeesAccumulationModule::new(vec![PAIR], vec![TOKEN_X]);
    let totals = vec![TokenAmountPair { token: TOKEN_X, amount: 10 }];
    let mut sum: u128 = 0;
    for energy in [333u64, 333, 334] {
        let r = fees.get_user_rewards_for_week(energy, 1000, &totals);
        assert_eq!(r, vec![Payment { token: TOKEN_X, amount: 3 }]);
        sum += r[0].amount;
    }
    assert_eq!(sum, 9);
    let exact = vec![TokenAmountPair { token: TOKEN_X, amount: 1000 }];
    let shares: Vec<u128> = [200u64, 300, 500]
        .iter()
        .map(|e| fees.get_user_rewards_for_week(*e, 1000, &exact)[0].amount)
        .collect();
    assert_eq!(shares, vec![200, 300, 500]);
}

#[test]
fn shares_that_floor_to_zero_are_left_out() {
    let fees = FeesAccumulationModule::new(vec![PAIR], vec![TOKEN_X]);
    let totals = vec![
        TokenAmountPair { token: TOKEN_X, amount: 5 },
        TokenAmountPair { token: TOKEN_Y, amount: 3000 },
    ];
    let r = fees.get_user_rewards_for_week(1, 1000, &totals);
    assert_eq!(r, vec![Payment { token: TOKEN_Y, amount: 3 }]);
    assert!(fees.get_user_rewards_for_week(0, 1000, &totals).is_empty());
    assert!(fees.get_user_rewards_for_week(10, 0, &totals).is_empty());
}

#[test]
fn catch_up_equals_week_by_week() {
    let mut fees = FeesAccumulationModule::new(vec![PAIR], vec![TOKEN_X, TOKEN_Y]);
    let mut engine = WeeklyRewardsSplitting::new();
    engine.update_energy_and_progress(&mut fees, USER_A, 1, 100).unwrap();
    engine.update_energy_and_progress(&mut fees, USER_B, 1, 100).unwrap();
    for w in 1..=3u64 {
        engine.set_total_energy_for_week(w, 1000);
    }
    fees.deposit_swap_fees(PAIR, 1, TOKEN_X, 1000).unwrap();
    let b1 = engine.settle_and_claim(&mut fees, USER_B, 2, 100).unwrap();
    fees.deposit_swap_fees(PAIR, 2, TOKEN_X, 500).unwrap();
    fees.deposit_swap_fees(PAIR, 2, TOKEN_Y, 90).unwrap();
    let b2 = engine.settle_and_claim(&mut fees, USER_B, 3, 100).unwrap();
    fees.deposit_swap_fees(PAIR, 3, TOKEN_X, 250).unwrap();
    let b3 = engine.settle_and_claim(&mut fees, USER_B, 4, 100).unwrap();
    assert_eq!(b1, vec![Payment { token: TOKEN_X, amount: 100 }]);
    assert_eq!(b2, vec![Payment { token: TOKEN_X, amount: 50 }, Payment { token: TOKEN_Y, amount: 9 }]);
    assert_eq!(b3, vec![Payment { token: TOKEN_X, amount: 25 }]);
    let a = engine.settle_and_claim(&mut fees, USER_A, 4, 100).unwrap();
    assert_eq!(a, vec![Payment { token: TOKEN_X, amount: 175 }, Payment { token: TOKEN_Y, amount: 9 }]);
}

#[test]
fn zero_energy_participant_gets_nothing() {
    let mut fees = FeesAccumulationModule::new(vec![PAIR], vec![TOKEN_X]);
    let mut engine = WeeklyRewardsSplitting::new();
    engine.update_energy_and_progress(&mut fees, USER_C, 1, -40).unwrap();
    assert_eq!(engine.ledger.progress_of(USER_C), ClaimProgress { week: 1, energy: 0 });
    fees.deposit_swap_fees(PAIR, 1, TOKEN_X, 1000).unwrap();
    engine.set_total_energy_for_week(1, 1000);
    let paid = engine.settle_and_claim(&mut fees, USER_C, 3, 0).unwrap();
    assert!(paid.is_empty());
    assert_eq!(engine.ledger.progress_of(USER_C), ClaimProgress { week: 3, energy: 0 });
}

#[test]
fn zero_total_energy_week_pays_nothing() {
    let mut fees = FeesAccumulationModule::new(vec![PAIR], vec![TOKEN_X]);
    let mut engine = WeeklyRewardsSplitting::new();
    engine.update_energy_and_progress(&mut fees, USER_A, 1, 100).unwrap();
    fees.deposit_swap_fees(PAIR, 1, TOKEN_X, 1000).unwrap();
    assert_eq!(engine.total_energy_for_week(1), 0);
    let paid = engine.settle_and_claim(&mut fees, USER_A, 2, 100).unwrap();
    assert!(paid.is_empty());
}

#[test]
fn energy_change_within_week_keeps_progress_week() {
    let mut fees = FeesAccumulationModule::new(vec![PAIR], vec![TOKEN_X]);
    let mut engine = WeeklyRewardsSplitting::new();
    engine.update_energy_and_progress(&mut fees, USER_A, 2, 100).unwrap();
    let r = engine.update_energy_and_progress(&mut fees, USER_A, 2, 300).unwrap();
    assert!(r.is_empty());
    assert_eq!(engine.ledger.progress_of(USER_A), ClaimProgress { week: 2, energy: 300 });
}

#[test]
fn settlement_overflow_leaves_progress_unchanged() {
    let mut fees = FeesAccumulationModule::new(vec![PAIR], vec![TOKEN_X]);
    let mut engine = WeeklyRewardsSplitting::new();
    engine.update_energy_and_progress(&mut fees, USER_A, 1, i64::MAX).unwrap();
    for w in 1..=3u64 {
        engine.set_total_energy_for_week(w, 1);
        fees.deposit_swap_fees(PAIR, w, TOKEN_X, u64::MAX).unwrap();
    }
    let r = engine.settle_and_claim(&mut fees, USER_A, 4, 5);
    assert_eq!(r, Err(RewardsError::Overflow));
    assert_eq!(engine.ledger.progress_of(USER_A), ClaimProgress { week: 1, energy: i64::MAX as u64 });
    assert_eq!(engine.cache.get_frozen(1), None);
    assert_eq!(fees.accumulated_fees(1, TOKEN_X), u64::MAX);
}

#[test]
fn progress_never_moves_backwards() {
    let mut ledger = ClaimProgressLedger::new();
    assert_eq!(ledger.progress_of(USER_A), ClaimProgress { week: 0, energy: 0 });
    ledger.advance(USER_A, 5, 10).unwrap();
    assert_eq!(ledger.advance(USER_A, 3, 10), Err(RewardsError::ProgressRegression));
    assert_eq!(ledger.progress_of(USER_A), ClaimProgress { week: 5, energy: 10 });
    assert_eq!(ledger.advance(USER_A, 5, 20), Ok(()));
    assert_eq!(ledger.progress_of(USER_A), ClaimProgress { week: 5, energy: 20 });
}

fn boost_module(weight: u64) -> ClaimBoostOnlyModule {
    let config = BoostConfig { min_boost_bps: 5_000, max_boost_bps: 25_000, boost_weight_bps: weight };
    ClaimBoostOnlyModule::new(config, TOKEN_Y)
}

#[test]
fn boosted_reward_follows_energy_within_bounds() {
    let m = boost_module(10_000);
    // stake share 10%, energy share 20%: boost factor 2
    assert_eq!(m.calculate_boosted_rewards(200, 1000, 1000, 100, 1000), 2000);
    // energy share 50%: factor 5, capped at 2.5
    assert_eq!(m.calculate_boosted_rewards(500, 1000, 1000, 100, 1000), 2500);
    // no energy: the minimum factor 0.5
    assert_eq!(m.calculate_boosted_rewards(0, 1000, 1000, 100, 1000), 500);
    assert_eq!(m.calculate_boosted_rewards(-3, 0, 1000, 100, 1000), 500);
    // no stake: energy makes the ratio unbounded, so the maximum applies
    assert_eq!(m.calculate_boosted_rewards(500, 1000, 1000, 0, 0), 2500);
    assert_eq!(m.calculate_boosted_rewards(0, 1000, 1000, 0, 1000), 500);
    // energy share 1/3, stake share 1/2: factor 2/3, 10 * 2/3 = 6.67
    assert_eq!(m.calculate_boosted_rewards(1, 3, 10, 1, 2), 6);
    let half = boost_module(5_000);
    assert_eq!(half.calculate_boosted_rewards(500, 1000, 1000, 100, 1000), 1250);
}

#[test]
fn boosted_reward_is_the_rate_times_the_factor() {
    let config = BoostConfig { min_boost_bps: 10_000, max_boost_bps: 10_000, boost_weight_bps: 10_000 };
    let m = ClaimBoostOnlyModule::new(config, TOKEN_Y);
    assert_eq!(m.calculate_boosted_rewards(0, 1000, 100, 1, 2), 100);
    assert_eq!(m.calculate_boosted_rewards(900, 1000, 100, 1, 2), 100);
}

#[test]
fn boosted_reward_is_rounded_down_once() {
    let config = BoostConfig { min_boost_bps: 5_000, max_boost_bps: 25_000, boost_weight_bps: 6_000 };
    let m = ClaimBoostOnlyModule::new(config, TOKEN_Y);
    // 7 * 0.5 * 0.6 = 2.1
    assert_eq!(m.calculate_boosted_rewards(0, 1000, 7, 10, 10), 2);
    // stake share 1/3, energy share 1/2: factor 1.5, 7 * 1.5 * 0.6 = 6.3
    assert_eq!(m.calculate_boosted_rewards(50, 100, 7, 1, 3), 6);
    // factor 3, capped at 2.5: 7 * 2.5 * 0.6 = 10.5
    assert_eq!(m.calculate_boosted_rewards(100, 100, 7, 1, 3), 10);
}

#[test]
fn boosted_payment_draws_from_reserve_and_clamps() {
    let mut m = boost_module(10_000);
    m.deposit_rewards(3000).unwrap();
    let p = m.claim_only_boosted_payment(500, 1000, 1000, 100, 1000);
    assert_eq!(p, Payment { token: TOKEN_Y, amount: 2500 });
    assert_eq!(m.reward_reserve, 500);
    let q = m.claim_only_boosted_payment(500, 1000, 1000, 100, 1000);
    assert_eq!(q, Payment { token: TOKEN_Y, amount: 500 });
    assert_eq!(m.reward_reserve, 0);
    let z = m.claim_only_boosted_payment(500, 1000, 1000, 100, 1000);
    assert_eq!(z.amount, 0);
    assert_eq!(m.reward_reserve, 0);
}

#[test]
fn exit_debits_reserve_and_supply() {
    let mut m = boost_module(10_000);
    m.deposit_rewards(100).unwrap();
    assert_eq!(m.exit_farm_base(1000, 30, 400), Ok(600));
    assert_eq!(m.reward_reserve, 70);
    assert_eq!(m.exit_farm_base(1000, 71, 400), Err(RewardsError::Underflow));
    assert_eq!(m.exit_farm_base(300, 10, 400), Err(RewardsError::Underflow));
    assert_eq!(m.reward_reserve, 70);
}

#[test]
fn reserve_deposit_overflow() {
    let mut m = boost_module(10_000);
    m.deposit_rewards(u128::MAX).unwrap();
    assert_eq!(m.deposit_rewards(1), Err(RewardsError::Overflow));
    assert_eq!(m.reward_reserve, u128::MAX);
}

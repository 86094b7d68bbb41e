use energy_rewards::metabonding::{MetabondingStaking, StakingError, UserEntry, UNBOND_EPOCHS};

const TOKEN: u64 = 11;
const FACTORY: u64 = 500;
const ALICE: u64 = 1;
const BOB: u64 = 2;
const CAROL: u64 = 3;

#[test]
fn stake_and_read_back() {
    let mut s = MetabondingStaking::init(TOKEN, FACTORY);
    assert_eq!(s.locked_asset_token_id(), TOKEN);
    assert_eq!(s.get_staked_amount_for_user(ALICE), 0);
    assert_eq!(s.get_user_entry(ALICE), None);
    s.stake_locked_asset(ALICE, 100, 4).unwrap();
    s.stake_locked_asset(ALICE, 50, 6).unwrap();
    assert_eq!(s.get_staked_amount_for_user(ALICE), 150);
    assert_eq!(
        s.get_user_entry(ALICE),
        Some(UserEntry { token_nonce: 6, stake_amount: 150, unstake_amount: 0, unbond_epoch: 0 })
    );
    assert_eq!(s.total_locked_asset_supply(), 150);
}

#[test]
fn unstake_then_unbond_after_delay() {
    let mut s = MetabondingStaking::init(TOKEN, FACTORY);
    assert_eq!(s.unstake(ALICE, 1, 10), Err(StakingError::MustStakeFirst));
    s.stake_locked_asset(ALICE, 100, 4).unwrap();
    assert_eq!(s.unstake(ALICE, 101, 10), Err(StakingError::TryingToUnstakeTooMuch));
    assert_eq!(s.unbond(ALICE, 10), Err(StakingError::MustUnstakeFirst));
    s.unstake(ALICE, 40, 10).unwrap();
    assert_eq!(
        s.get_user_entry(ALICE),
        Some(UserEntry { token_nonce: 4, stake_amount: 60, unstake_amount: 40, unbond_epoch: 10 + UNBOND_EPOCHS })
    );
    assert_eq!(s.unbond(ALICE, 12), Err(StakingError::UnbondPeriodInProgress));
    assert_eq!(s.unbond(ALICE, 13), Ok((4, 40)));
    assert_eq!(
        s.get_user_entry(ALICE),
        Some(UserEntry { token_nonce: 4, stake_amount: 60, unstake_amount: 0, unbond_epoch: u64::MAX })
    );
    assert_eq!(s.total_locked_asset_supply(), 60);
}

#[test]
fn full_unbond_removes_participant() {
    let mut s = MetabondingStaking::init(TOKEN, FACTORY);
    s.stake_locked_asset(ALICE, 100, 4).unwrap();
    s.stake_locked_asset(BOB, 30, 5).unwrap();
    s.unstake(ALICE, 100, 0).unwrap();
    assert_eq!(s.unbond(ALICE, 3), Ok((4, 100)));
    assert_eq!(s.get_user_entry(ALICE), None);
    assert_eq!(s.get_snapshot(0), (0, vec![(BOB, 30)]));
}

#[test]
fn snapshot_skips_zero_stakes() {
    let mut s = MetabondingStaking::init(TOKEN, FACTORY);
    s.stake_locked_asset(ALICE, 100, 4).unwrap();
    s.stake_locked_asset(BOB, 30, 5).unwrap();
    s.stake_locked_asset(CAROL, 7, 8).unwrap();
    s.unstake(BOB, 30, 0).unwrap();
    assert_eq!(s.get_snapshot(0), (0, vec![(ALICE, 100), (CAROL, 7)]));
    assert_eq!(s.get_snapshot(1), (0, vec![]));
}

#[test]
fn snapshot_pages_hold_at_most_the_page_size() {
    let mut s = MetabondingStaking::init(TOKEN, FACTORY);
    for u in 0..5_003u64 {
        s.stake_locked_asset(u + 100, 1, 1).unwrap();
    }
    let (left, page) = s.get_snapshot(0);
    assert_eq!(left, 3);
    assert_eq!(page.len(), 5_000);
    assert_eq!(page[0], (100, 1));
    let (left, page) = s.get_snapshot(1);
    assert_eq!(left, 0);
    assert_eq!(page, vec![(5_100, 1), (5_101, 1), (5_102, 1)]);
}

use scrypto::math::Decimal as LedgerDecimal;
use staking::{
    Bucket, Decimal, Instant, IssuedReceipt, Lock, ResourceAddress, Staking, StakingError,
};

const DAY: i64 = 86_400;

fn dec(units: i64) -> Decimal {
    Decimal::from_digits(LedgerDecimal::from(units).attos().to_digits())
}

fn largest() -> Decimal {
    Decimal::from_digits(LedgerDecimal::MAX.attos().to_digits())
}

fn smallest_step() -> Decimal {
    Decimal::from_digits(LedgerDecimal::ONE_ATTO.attos().to_digits())
}

fn asset(tag: u8) -> ResourceAddress {
    ResourceAddress::new([tag; 30])
}

fn at(days: i64) -> Instant {
    Instant::new(days * DAY)
}

fn no_lock() -> Lock {
    Lock { payment: dec(0), duration: 0 }
}

fn funds(tag: u8, units: i64) -> Option<Bucket> {
    Some(Bucket { address: asset(tag), amount: dec(units) })
}

fn engine(pool: i64) -> Staking {
    Staking::new(Bucket { address: asset(9), amount: dec(pool) }, 7, true, 30, at(0)).unwrap()
}

fn staked(pool: i64, units: i64) -> (Staking, u64) {
    let mut staking = engine(pool);
    staking.add_stakable(asset(1), dec(700), no_lock()).unwrap();
    let id = staking.create_id().unwrap();
    staking.stake(at(0), id, asset(1), funds(1, units), None).unwrap();
    (staking, id)
}

#[test]
fn unknown_staking_id_is_invalid() {
    let (mut staking, id) = staked(0, 10);
    assert_eq!(staking.stake(at(0), 0, asset(1), funds(1, 1), None), Err(StakingError::InvalidId));
    assert_eq!(
        staking.stake(at(0), id + 1, asset(1), funds(1, 1), None),
        Err(StakingError::InvalidId)
    );
    assert_eq!(
        staking.start_unstake(at(0), id + 1, asset(1), dec(1), false, false),
        Err(StakingError::InvalidId)
    );
    assert_eq!(staking.update_id(at(7), id + 1), Err(StakingError::InvalidId));
    assert_eq!(staking.lock_stake(at(0), id + 1, asset(1)), Err(StakingError::InvalidId));
    assert_eq!(staking.set_lock(asset(1), at(1), id + 1), Err(StakingError::InvalidId));
    assert!(staking.id(id + 1).is_none());
    assert!(staking.id(0).is_none());
}

#[test]
fn unregistered_asset_is_not_stakable() {
    let (mut staking, id) = staked(0, 10);
    assert_eq!(
        staking.stake(at(0), id, asset(2), funds(2, 1), None),
        Err(StakingError::NotStakable)
    );
    assert_eq!(
        staking.start_unstake(at(0), id, asset(2), dec(1), false, false),
        Err(StakingError::NotStakable)
    );
    assert_eq!(staking.lock_stake(at(0), id, asset(2)), Err(StakingError::NotStakable));
    assert_eq!(staking.set_lock(asset(2), at(1), id), Err(StakingError::NotStakable));
    assert_eq!(staking.set_rewards(asset(2), dec(1)), Err(StakingError::NotStakable));
    assert_eq!(
        staking.edit_stakable(asset(2), dec(1), no_lock()),
        Err(StakingError::NotStakable)
    );
    assert!(staking.stakable(asset(2)).is_none());
}

#[test]
fn asset_is_registered_once() {
    let (mut staking, _) = staked(0, 10);
    assert_eq!(
        staking.add_stakable(asset(1), dec(5), no_lock()),
        Err(StakingError::AlreadyStakable)
    );
    assert_eq!(staking.stakables(), vec![asset(1)]);
    assert_eq!(staking.stakable(asset(1)).unwrap().staked_amount, dec(10));
    assert_eq!(staking.stakable(asset(1)).unwrap().reward_amount, dec(700));
}

#[test]
fn staking_needs_rewards_claimed_first() {
    let (mut staking, id) = staked(10_000, 10);
    staking.update_period(at(7)).unwrap();
    // next_period == current_period: staking is still allowed.
    staking.stake(at(7), id, asset(1), funds(1, 1), None).unwrap();
    staking.update_period(at(14)).unwrap();
    staking.update_period(at(21)).unwrap();
    assert_eq!(staking.id(id).unwrap().next_period, 2);
    assert_eq!(staking.current_period(), 3);
    assert_eq!(
        staking.stake(at(21), id, asset(1), funds(1, 1), None),
        Err(StakingError::UnclaimedRewards)
    );
    staking.update_id(at(21), id).unwrap();
    staking.stake(at(21), id, asset(1), funds(1, 1), None).unwrap();
    assert_eq!(staking.id(id).unwrap().next_period, 4);
}

#[test]
fn funds_must_be_of_the_asset_staked() {
    let (mut staking, id) = staked(0, 10);
    staking.add_stakable(asset(2), dec(0), no_lock()).unwrap();
    assert_eq!(
        staking.stake(at(0), id, asset(1), funds(2, 1), None),
        Err(StakingError::WrongToken)
    );
    assert_eq!(
        staking.fill_rewards(Bucket { address: asset(1), amount: dec(1) }),
        Err(StakingError::WrongToken)
    );
}

#[test]
fn receipt_must_be_outstanding_and_of_the_asset_staked() {
    let (mut staking, id) = staked(0, 10);
    staking.add_stakable(asset(2), dec(0), no_lock()).unwrap();
    assert_eq!(
        staking.stake(at(0), id, asset(1), None, Some(1)),
        Err(StakingError::InvalidReceipt)
    );
    assert_eq!(
        staking.stake(at(0), id, asset(1), None, Some(0)),
        Err(StakingError::InvalidReceipt)
    );
    assert_eq!(
        staking.start_unstake(at(0), id, asset(1), dec(4), false, true),
        Ok(IssuedReceipt::StakeTransfer(1))
    );
    assert_eq!(
        staking.stake(at(0), id, asset(2), None, Some(1)),
        Err(StakingError::ReceiptMismatch)
    );
    assert!(staking.stake_transfer_receipt(1).is_some());
    assert_eq!(staking.finish_unstake(1, at(100)), Err(StakingError::InvalidReceipt));
    assert_eq!(staking.finish_unstake(0, at(100)), Err(StakingError::InvalidReceipt));
}

#[test]
fn nothing_staked_cannot_be_unstaked() {
    let (mut staking, id) = staked(0, 10);
    staking.add_stakable(asset(2), dec(0), no_lock()).unwrap();
    assert_eq!(
        staking.start_unstake(at(0), id, asset(2), dec(0), true, false),
        Err(StakingError::NothingStaked)
    );
    staking.start_unstake(at(0), id, asset(1), dec(10), false, false).unwrap();
    assert_eq!(
        staking.start_unstake(at(0), id, asset(1), dec(1), false, false),
        Err(StakingError::NothingStaked)
    );
}

#[test]
fn more_than_staked_cannot_be_unstaked() {
    let (mut staking, id) = staked(0, 10);
    assert_eq!(
        staking.start_unstake(at(0), id, asset(1), dec(11), false, false),
        Err(StakingError::ExceedsStake)
    );
    assert_eq!(staking.id(id).unwrap().amounts_staked, vec![dec(10)]);
    // With `unstake_all` the amount named is not looked at.
    assert_eq!(
        staking.start_unstake(at(0), id, asset(1), dec(11), true, false),
        Ok(IssuedReceipt::Unstake(1))
    );
    assert_eq!(staking.unstake_receipt(1).unwrap().amount, dec(10));
    assert_eq!(staking.id(id).unwrap().amounts_staked, vec![dec(0)]);
}

#[test]
fn unstake_delay_has_a_maximum() {
    let (mut staking, id) = staked(0, 10);
    assert_eq!(staking.set_unstake_delay(31), Err(StakingError::DelayTooLong));
    assert_eq!(staking.unstake_delay(), 7);
    staking.set_unstake_delay(30).unwrap();
    assert_eq!(staking.unstake_delay(), 30);
    staking.start_unstake(at(1), id, asset(1), dec(1), false, false).unwrap();
    assert_eq!(staking.unstake_receipt(1).unwrap().redemption_time, at(31));
}

#[test]
fn controller_lock_needs_an_entry_for_the_asset() {
    let mut staking = engine(0);
    let id = staking.create_id().unwrap();
    staking.add_stakable(asset(1), dec(0), no_lock()).unwrap();
    assert_eq!(staking.set_lock(asset(1), at(3), id), Err(StakingError::StalePosition));
    staking.stake(at(0), id, asset(1), funds(1, 1), None).unwrap();
    assert_eq!(staking.set_lock(asset(1), at(3), id), Ok(()));
}

#[test]
fn pool_pays_in_full_or_not_at_all() {
    let (mut staking, id) = staked(699, 10);
    assert_eq!(staking.update_id(at(7), id), Err(StakingError::InsufficientRewards));
    assert_eq!(staking.remove_rewards(dec(700)), Err(StakingError::InsufficientRewards));
    assert_eq!(staking.remove_rewards(dec(-1)), Err(StakingError::InsufficientRewards));
    staking.fill_rewards(Bucket { address: asset(9), amount: dec(1) }).unwrap();
    assert_eq!(staking.reward_vault(), dec(700));
    assert_eq!(staking.update_id(at(7), id), Ok(dec(700)));
    assert_eq!(staking.reward_vault(), dec(0));
    assert_eq!(
        staking.remove_rewards(dec(0)),
        Ok(Bucket { address: asset(9), amount: dec(0) })
    );
}

#[test]
fn removing_rewards_hands_out_the_amount() {
    let mut staking = engine(100);
    assert_eq!(
        staking.remove_rewards(dec(40)),
        Ok(Bucket { address: asset(9), amount: dec(40) })
    );
    assert_eq!(staking.reward_vault(), dec(60));
}

#[test]
fn lock_bonus_needs_a_pool_that_can_pay() {
    let mut staking = engine(4);
    staking
        .add_stakable(asset(1), dec(0), Lock { payment: dec(1), duration: 1 })
        .unwrap();
    let id = staking.create_id().unwrap();
    staking.stake(at(0), id, asset(1), funds(1, 5), None).unwrap();
    assert_eq!(staking.lock_stake(at(0), id, asset(1)), Err(StakingError::InsufficientRewards));
    assert_eq!(staking.id(id).unwrap().locked_until, vec![None]);
}

#[test]
fn period_cannot_end_on_an_interval_that_is_not_positive() {
    let (mut staking, id) = staked(0, 10);
    staking.set_period_interval(0);
    // Before the boundary nothing is asked of the interval.
    assert_eq!(staking.update_period(at(6)), Ok(()));
    assert_eq!(staking.update_period(at(7)), Err(StakingError::InvalidPeriodInterval));
    assert_eq!(
        staking.stake(at(7), id, asset(1), funds(1, 1), None),
        Err(StakingError::InvalidPeriodInterval)
    );
    staking.set_period_interval(-3);
    assert_eq!(staking.update_period(at(7)), Err(StakingError::InvalidPeriodInterval));
    staking.set_period_interval(1);
    assert_eq!(staking.update_period(at(7)), Ok(()));
    assert_eq!(staking.next_period(), at(8));
}

#[test]
fn numbers_that_leave_their_range_are_refused() {
    let (mut staking, id) = staked(0, 10);
    // The sum of the stake and the funds cannot be held.
    assert_eq!(
        staking.stake(at(0), id, asset(1), Some(Bucket { address: asset(1), amount: largest() }), None),
        Err(StakingError::Overflow)
    );
    assert_eq!(staking.id(id).unwrap().amounts_staked, vec![dec(10)]);
    // The pool cannot hold more than the largest amount.
    staking.fill_rewards(Bucket { address: asset(9), amount: largest() }).unwrap();
    assert_eq!(
        staking.fill_rewards(Bucket { address: asset(9), amount: smallest_step() }),
        Err(StakingError::Overflow)
    );
    // The rate of a huge reward over a tiny stake cannot be held.
    let mut tiny = engine(0);
    tiny.add_stakable(asset(1), largest(), no_lock()).unwrap();
    let id = tiny.create_id().unwrap();
    tiny.stake(at(0), id, asset(1), Some(Bucket { address: asset(1), amount: smallest_step() }), None)
        .unwrap();
    assert_eq!(tiny.update_period(at(7)), Err(StakingError::Overflow));
    assert_eq!(tiny.current_period(), 0);
    // The redemption time cannot be held.
    let (mut late, id) = staked(0, 10);
    assert_eq!(
        late.start_unstake(Instant::new(i64::MAX - 1), id, asset(1), dec(1), false, false),
        Err(StakingError::Overflow)
    );
}

#[test]
fn redemption_is_refused_before_its_time() {
    let (mut staking, id) = staked(0, 10);
    staking.start_unstake(at(2), id, asset(1), dec(1), false, false).unwrap();
    assert_eq!(staking.finish_unstake(1, Instant::new(9 * DAY - 1)), Err(StakingError::TooEarly));
    assert!(staking.finish_unstake(1, at(9)).is_ok());
}

#[test]
fn next_period_can_be_set_to_now() {
    let (mut staking, _) = staked(0, 10);
    staking.set_next_period_to_now(at(3));
    assert_eq!(staking.next_period(), at(3));
    staking.update_period(at(3)).unwrap();
    assert_eq!(staking.current_period(), 1);
    assert_eq!(staking.next_period(), at(10));
}

#[test]
fn terms_are_edited_for_the_periods_to_come() {
    let (mut staking, id) = staked(10_000, 10);
    staking.update_period(at(7)).unwrap();
    staking.set_rewards(asset(1), dec(20)).unwrap();
    assert_eq!(staking.stakable(asset(1)).unwrap().reward_amount, dec(20));
    staking.update_period(at(14)).unwrap();
    staking
        .edit_stakable(asset(1), dec(30), Lock { payment: dec(2), duration: 4 })
        .unwrap();
    staking.update_period(at(21)).unwrap();
    let unit = staking.stakable(asset(1)).unwrap();
    assert_eq!(unit.rewards.get(&0), Some(&dec(70)));
    assert_eq!(unit.rewards.get(&1), Some(&dec(2)));
    assert_eq!(unit.rewards.get(&2), Some(&dec(3)));
    assert_eq!(unit.lock, Lock { payment: dec(2), duration: 4 });
    assert_eq!(staking.update_id(at(21), id), Ok(dec(750)));
}

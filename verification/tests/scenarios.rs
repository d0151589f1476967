use scrypto::math::Decimal as LedgerDecimal;
use staking::{
    Bucket, Decimal, Instant, IssuedReceipt, Lock, ResourceAddress, Staking, StakingError,
};

const DAY: i64 = 86_400;

fn dec(units: i64) -> Decimal {
    Decimal::from_digits(LedgerDecimal::from(units).attos().to_digits())
}

fn parse(text: &str) -> Decimal {
    Decimal::from_digits(LedgerDecimal::try_from(text).unwrap().attos().to_digits())
}

fn asset(tag: u8) -> ResourceAddress {
    ResourceAddress::new([tag; 30])
}

fn at(days: i64) -> Instant {
    Instant::new(days * DAY)
}

fn no_lock() -> Lock {
    Lock { payment: dec(0), duration: 0 }
}

fn funds(tag: u8, units: i64) -> Option<Bucket> {
    Some(Bucket { address: asset(tag), amount: dec(units) })
}

fn engine(pool: i64) -> Staking {
    Staking::new(Bucket { address: asset(9), amount: dec(pool) }, 7, false, 30, at(0)).unwrap()
}

#[test]
fn new_engine_has_the_documented_settings() {
    let staking = engine(1000);
    assert_eq!(staking.current_period(), 0);
    assert_eq!(staking.next_period(), at(7));
    assert_eq!(staking.period_interval(), 7);
    assert_eq!(staking.max_claim_delay(), 5);
    assert_eq!(staking.unstake_delay(), 7);
    assert_eq!(staking.max_unstaking_delay(), 30);
    assert!(!staking.dao_controlled());
    assert_eq!(staking.reward_address(), asset(9));
    assert_eq!(staking.reward_vault(), dec(1000));
    assert_eq!(staking.id_count(), 0);
    assert!(staking.stakables().is_empty());
}

#[test]
fn new_engine_is_refused_when_the_first_boundary_overflows() {
    let r = Staking::new(
        Bucket { address: asset(9), amount: dec(0) },
        i64::MAX,
        false,
        30,
        at(0),
    );
    assert_eq!(r.err(), Some(StakingError::Overflow));
}

#[test]
fn rate_is_reward_over_stake_and_claim_is_rate_times_stake() {
    let mut staking = engine(1000);
    staking.add_stakable(asset(1), dec(700), no_lock()).unwrap();
    let big = staking.create_id().unwrap();
    let small = staking.create_id().unwrap();
    staking.stake(at(0), big, asset(1), funds(1, 250), None).unwrap();
    staking.stake(at(0), small, asset(1), funds(1, 100), None).unwrap();
    assert_eq!(staking.stakable(asset(1)).unwrap().staked_amount, dec(350));

    let reward = staking.update_id(at(7), small).unwrap();
    assert_eq!(reward, dec(200));
    assert_eq!(staking.current_period(), 1);
    assert_eq!(staking.next_period(), at(14));
    assert_eq!(staking.stakable(asset(1)).unwrap().rewards.get(&0), Some(&dec(2)));
    assert_eq!(staking.reward_vault(), dec(800));
    assert_eq!(staking.id(small).unwrap().next_period, 2);

    let reward = staking.update_id(at(7), big).unwrap();
    assert_eq!(reward, dec(500));
    assert_eq!(staking.reward_vault(), dec(300));
}

#[test]
fn claim_is_refused_before_a_period_has_ended() {
    let mut staking = engine(1000);
    staking.add_stakable(asset(1), dec(700), no_lock()).unwrap();
    let id = staking.create_id().unwrap();
    staking.stake(at(0), id, asset(1), funds(1, 100), None).unwrap();
    assert_eq!(staking.update_id(at(6), id), Err(StakingError::NothingToClaim));
    assert_eq!(staking.current_period(), 0);
    assert_eq!(staking.reward_vault(), dec(1000));
}

#[test]
fn unstake_is_redeemed_after_the_delay_and_only_once() {
    let mut staking = engine(0);
    staking.add_stakable(asset(1), dec(0), no_lock()).unwrap();
    let id = staking.create_id().unwrap();
    staking.stake(at(0), id, asset(1), funds(1, 100), None).unwrap();

    let receipt = staking.start_unstake(at(0), id, asset(1), dec(50), false, false).unwrap();
    assert_eq!(receipt, IssuedReceipt::Unstake(1));
    assert_eq!(staking.id(id).unwrap().amounts_staked, vec![dec(50)]);
    assert_eq!(staking.stakable(asset(1)).unwrap().staked_amount, dec(50));
    assert_eq!(staking.unstake_receipt(1).unwrap().redemption_time, at(7));
    assert_eq!(staking.unstake_receipt(1).unwrap().amount, dec(50));

    assert_eq!(staking.finish_unstake(1, at(6)), Err(StakingError::TooEarly));
    assert!(staking.unstake_receipt(1).is_some());
    assert_eq!(
        staking.finish_unstake(1, at(7)),
        Ok(Bucket { address: asset(1), amount: dec(50) })
    );
    assert!(staking.unstake_receipt(1).is_none());
    assert_eq!(staking.finish_unstake(1, at(8)), Err(StakingError::InvalidReceipt));
}

#[test]
fn staking_id_grows_with_the_registry_on_its_next_operation() {
    let mut staking = engine(0);
    let id = staking.create_id().unwrap();
    assert!(staking.id(id).unwrap().amounts_staked.is_empty());
    assert!(staking.id(id).unwrap().amounts_locked.is_empty());
    assert!(staking.id(id).unwrap().locked_until.is_empty());

    staking.add_stakable(asset(1), dec(10), no_lock()).unwrap();
    assert!(staking.id(id).unwrap().amounts_staked.is_empty());

    staking.stake(at(0), id, asset(1), funds(1, 5), None).unwrap();
    let record = staking.id(id).unwrap();
    assert_eq!(record.amounts_staked, vec![dec(5)]);
    assert_eq!(record.amounts_locked, vec![dec(0)]);
    assert_eq!(record.locked_until, vec![None]);
}

#[test]
fn reconciling_keeps_entries_and_appends_zeros() {
    let mut staking = engine(0);
    staking.add_stakable(asset(1), dec(10), no_lock()).unwrap();
    let id = staking.create_id().unwrap();
    staking.stake(at(0), id, asset(1), funds(1, 5), None).unwrap();
    staking.add_stakable(asset(2), dec(10), no_lock()).unwrap();
    staking.add_stakable(asset(3), dec(10), no_lock()).unwrap();
    staking.stake(at(0), id, asset(3), funds(3, 8), None).unwrap();
    assert_eq!(staking.id(id).unwrap().amounts_staked, vec![dec(5), dec(0), dec(8)]);
    assert_eq!(staking.stakables(), vec![asset(1), asset(2), asset(3)]);
}

#[test]
fn late_update_skips_the_missed_intervals() {
    let mut staking = engine(0);
    staking.add_stakable(asset(1), dec(700), no_lock()).unwrap();
    // Due at day 7; called at day 23: two further whole intervals have passed.
    staking.update_period(at(23)).unwrap();
    assert_eq!(staking.current_period(), 1);
    assert_eq!(staking.next_period(), at(28));
    // Nothing was staked: the rate of period 0 is zero.
    assert_eq!(staking.stakable(asset(1)).unwrap().rewards.get(&0), Some(&dec(0)));
    assert_eq!(staking.stakable(asset(1)).unwrap().rewards.get(&1), None);
}

#[test]
fn update_before_the_boundary_changes_nothing() {
    let mut staking = engine(0);
    staking.add_stakable(asset(1), dec(700), no_lock()).unwrap();
    staking.update_period(Instant::new(7 * DAY - 1)).unwrap();
    assert_eq!(staking.current_period(), 0);
    assert_eq!(staking.next_period(), at(7));
    assert!(staking.stakable(asset(1)).unwrap().rewards.is_empty());
    staking.update_period(at(7)).unwrap();
    assert_eq!(staking.current_period(), 1);
    assert_eq!(staking.next_period(), at(14));
}

#[test]
fn rate_is_rounded_toward_zero_at_eighteen_digits() {
    let mut staking = engine(1000);
    staking.add_stakable(asset(1), dec(1), no_lock()).unwrap();
    let id = staking.create_id().unwrap();
    staking.stake(at(0), id, asset(1), funds(1, 3), None).unwrap();
    let reward = staking.update_id(at(7), id).unwrap();
    assert_eq!(
        staking.stakable(asset(1)).unwrap().rewards.get(&0),
        Some(&parse("0.333333333333333333"))
    );
    assert_eq!(reward, parse("0.999999999999999999"));
}

#[test]
fn claim_pays_for_at_most_max_claim_delay_periods() {
    let mut staking = engine(10_000);
    staking.add_stakable(asset(1), dec(100), no_lock()).unwrap();
    let id = staking.create_id().unwrap();
    staking.stake(at(0), id, asset(1), funds(1, 100), None).unwrap();
    // Close eight periods, one by one; each has rate 1.
    for week in 1..=8 {
        staking.update_period(at(7 * week)).unwrap();
    }
    assert_eq!(staking.current_period(), 8);
    // Eight periods are unclaimed, five are paid: 5 * 1 * 100.
    let reward = staking.update_id(at(56), id).unwrap();
    assert_eq!(reward, dec(500));
    assert_eq!(staking.id(id).unwrap().next_period, 9);
    // The forfeited periods do not come back.
    assert_eq!(staking.update_id(at(56), id), Err(StakingError::NothingToClaim));
}

#[test]
fn claim_delay_can_be_set() {
    let mut staking = engine(10_000);
    staking.add_stakable(asset(1), dec(100), no_lock()).unwrap();
    let id = staking.create_id().unwrap();
    staking.stake(at(0), id, asset(1), funds(1, 100), None).unwrap();
    for week in 1..=4 {
        staking.update_period(at(7 * week)).unwrap();
    }
    staking.set_max_claim_delay(2);
    assert_eq!(staking.max_claim_delay(), 2);
    assert_eq!(staking.update_id(at(28), id), Ok(dec(200)));
}

#[test]
fn skipped_periods_have_no_rate_and_pay_nothing() {
    let mut staking = engine(10_000);
    staking.add_stakable(asset(1), dec(100), no_lock()).unwrap();
    let id = staking.create_id().unwrap();
    staking.stake(at(0), id, asset(1), funds(1, 100), None).unwrap();
    // Three weeks late: only period 0 gets a rate, the counter moves by one.
    let reward = staking.update_id(at(28), id).unwrap();
    assert_eq!(staking.current_period(), 1);
    assert_eq!(staking.next_period(), at(35));
    assert_eq!(reward, dec(100));
}

#[test]
fn stake_transfer_moves_stake_between_staking_ids() {
    let mut staking = engine(0);
    staking.add_stakable(asset(1), dec(0), no_lock()).unwrap();
    let giver = staking.create_id().unwrap();
    let taker = staking.create_id().unwrap();
    staking.stake(at(0), giver, asset(1), funds(1, 100), None).unwrap();

    let receipt = staking.start_unstake(at(0), giver, asset(1), dec(0), true, true).unwrap();
    assert_eq!(receipt, IssuedReceipt::StakeTransfer(1));
    assert_eq!(staking.stake_transfer_receipt(1).unwrap().amount, dec(100));
    assert_eq!(staking.stakable(asset(1)).unwrap().staked_amount, dec(0));

    staking.stake(at(0), taker, asset(1), funds(1, 5), Some(1)).unwrap();
    assert_eq!(staking.id(taker).unwrap().amounts_staked, vec![dec(105)]);
    assert_eq!(staking.id(giver).unwrap().amounts_staked, vec![dec(0)]);
    assert_eq!(staking.stakable(asset(1)).unwrap().staked_amount, dec(105));
    assert!(staking.stake_transfer_receipt(1).is_none());

    assert_eq!(
        staking.stake(at(0), taker, asset(1), None, Some(1)),
        Err(StakingError::InvalidReceipt)
    );
    assert_eq!(staking.id(taker).unwrap().amounts_staked, vec![dec(105)]);
}

#[test]
fn lock_pays_the_bonus_and_blocks_unstaking_until_it_ends() {
    let mut staking = engine(1000);
    staking
        .add_stakable(asset(1), dec(0), Lock { payment: parse("0.5"), duration: 10 })
        .unwrap();
    let id = staking.create_id().unwrap();
    staking.stake(at(0), id, asset(1), funds(1, 100), None).unwrap();

    let bonus = staking.lock_stake(at(1), id, asset(1)).unwrap();
    assert_eq!(bonus, dec(50));
    assert_eq!(staking.reward_vault(), dec(950));
    assert_eq!(staking.id(id).unwrap().locked_until, vec![Some(at(11))]);

    assert_eq!(staking.lock_stake(at(2), id, asset(1)), Err(StakingError::Locked));
    assert_eq!(
        staking.start_unstake(at(1), id, asset(1), dec(10), false, false),
        Err(StakingError::Locked)
    );
    assert_eq!(
        staking.start_unstake(Instant::new(11 * DAY - 1), id, asset(1), dec(10), false, false),
        Err(StakingError::Locked)
    );
    assert_eq!(
        staking.start_unstake(at(11), id, asset(1), dec(10), false, false),
        Ok(IssuedReceipt::Unstake(1))
    );
    // The lock has ended: locking again pays again.
    assert_eq!(staking.lock_stake(at(11), id, asset(1)), Ok(dec(45)));
}

#[test]
fn controller_lock_needs_dao_control() {
    let mut staking = engine(0);
    staking.add_stakable(asset(1), dec(0), no_lock()).unwrap();
    let id = staking.create_id().unwrap();
    assert_eq!(staking.set_lock(asset(1), at(3), id), Err(StakingError::NotDaoControlled));

    let mut dao =
        Staking::new(Bucket { address: asset(9), amount: dec(0) }, 7, true, 30, at(0)).unwrap();
    dao.add_stakable(asset(1), dec(0), no_lock()).unwrap();
    let id = dao.create_id().unwrap();
    dao.stake(at(0), id, asset(1), funds(1, 10), None).unwrap();
    dao.set_lock(asset(1), at(3), id).unwrap();
    assert_eq!(dao.id(id).unwrap().locked_until, vec![Some(at(3))]);
    assert_eq!(
        dao.start_unstake(at(2), id, asset(1), dec(1), false, false),
        Err(StakingError::Locked)
    );
    assert!(dao.start_unstake(at(3), id, asset(1), dec(1), false, false).is_ok());
}

#[test]
fn a_rejected_operation_changes_nothing() {
    let mut staking = engine(10);
    staking.add_stakable(asset(1), dec(700), no_lock()).unwrap();
    let id = staking.create_id().unwrap();
    staking.stake(at(0), id, asset(1), funds(1, 100), None).unwrap();
    // The period has ended at day 7, and the pool cannot pay the claim:
    // the whole operation is undone, the period stays open.
    assert_eq!(staking.update_id(at(7), id), Err(StakingError::InsufficientRewards));
    assert_eq!(staking.current_period(), 0);
    assert_eq!(staking.next_period(), at(7));
    assert!(staking.stakable(asset(1)).unwrap().rewards.is_empty());
    assert_eq!(staking.id(id).unwrap().next_period, 1);
    assert_eq!(staking.reward_vault(), dec(10));
}

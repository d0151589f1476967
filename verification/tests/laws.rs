use scrypto::math::Decimal as LedgerDecimal;
use staking::{Bucket, Decimal, Instant, Lock, ResourceAddress, Staking, StakingError};

const DAY: i64 = 86_400;

fn dec(units: i64) -> Decimal {
    Decimal::from_digits(LedgerDecimal::from(units).attos().to_digits())
}

fn ledger(amount: Decimal) -> LedgerDecimal {
    LedgerDecimal::from_attos(scrypto::math::I192::from_digits(amount.to_digits()))
}

fn asset(tag: u8) -> ResourceAddress {
    ResourceAddress::new([tag; 30])
}

fn at(days: i64) -> Instant {
    Instant::new(days * DAY)
}

fn no_lock() -> Lock {
    Lock { payment: dec(0), duration: 0 }
}

fn funds(tag: u8, units: i64) -> Option<Bucket> {
    Some(Bucket { address: asset(tag), amount: dec(units) })
}

fn engine(pool: i64) -> Staking {
    Staking::new(Bucket { address: asset(9), amount: dec(pool) }, 7, true, 30, at(0)).unwrap()
}

fn held_by_all(staking: &Staking, index: usize) -> LedgerDecimal {
    let mut total = LedgerDecimal::ZERO;
    for number in 1..=staking.id_count() as u64 {
        let record = staking.id(number).unwrap();
        if index < record.amounts_staked.len() {
            total = total + ledger(record.amounts_staked[index]);
        }
    }
    total
}

fn assert_conserved(staking: &Staking) {
    for (index, address) in staking.stakables().into_iter().enumerate() {
        assert_eq!(
            held_by_all(staking, index),
            ledger(staking.stakable(address).unwrap().staked_amount)
        );
    }
}

#[test]
fn totals_are_conserved_through_a_run_of_operations() {
    let mut staking = engine(100_000);
    staking.add_stakable(asset(1), dec(100), Lock { payment: dec(1), duration: 2 }).unwrap();
    let first = staking.create_id().unwrap();
    let second = staking.create_id().unwrap();
    assert_conserved(&staking);
    staking.stake(at(0), first, asset(1), funds(1, 70), None).unwrap();
    assert_conserved(&staking);
    staking.add_stakable(asset(2), dec(50), no_lock()).unwrap();
    assert_conserved(&staking);
    staking.stake(at(1), second, asset(2), funds(2, 30), None).unwrap();
    staking.stake(at(1), second, asset(1), funds(1, 5), None).unwrap();
    assert_conserved(&staking);
    staking.start_unstake(at(2), first, asset(1), dec(20), false, true).unwrap();
    assert_conserved(&staking);
    staking.stake(at(2), second, asset(1), None, Some(1)).unwrap();
    assert_conserved(&staking);
    staking.lock_stake(at(3), second, asset(1)).unwrap();
    staking.update_id(at(8), first).unwrap();
    assert_conserved(&staking);
    staking.start_unstake(at(9), first, asset(1), dec(0), true, false).unwrap();
    assert_conserved(&staking);
    staking.finish_unstake(1, at(16)).unwrap();
    assert_conserved(&staking);
    // A rejected operation leaves the totals alone as well.
    assert!(staking.start_unstake(at(16), first, asset(1), dec(1), false, false).is_err());
    assert_conserved(&staking);
    assert_eq!(staking.stakable(asset(1)).unwrap().staked_amount, dec(25));
    assert_eq!(staking.stakable(asset(2)).unwrap().staked_amount, dec(30));
}

#[test]
fn period_and_boundary_only_move_forward() {
    let mut staking = engine(100_000);
    staking.add_stakable(asset(1), dec(100), no_lock()).unwrap();
    let id = staking.create_id().unwrap();
    let mut period = staking.current_period();
    let mut boundary = staking.next_period().seconds_since_unix_epoch;
    for day in [0, 3, 7, 7, 8, 20, 21, 22, 50, 49, 1] {
        let _ = staking.stake(at(day), id, asset(1), funds(1, 1), None);
        let _ = staking.update_id(at(day), id);
        let _ = staking.start_unstake(at(day), id, asset(1), dec(1), false, false);
        let _ = staking.update_period(at(day));
        assert!(staking.current_period() >= period);
        assert!(staking.next_period().seconds_since_unix_epoch >= boundary);
        assert_eq!((staking.next_period().seconds_since_unix_epoch - 7 * DAY) % (7 * DAY), 0);
        period = staking.current_period();
        boundary = staking.next_period().seconds_since_unix_epoch;
    }
    assert_eq!(period, 4);
    assert_eq!(boundary, 56 * DAY);
}

#[test]
fn setting_the_boundary_to_now_may_move_it_back() {
    let mut staking = engine(0);
    staking.set_next_period_to_now(at(2));
    assert_eq!(staking.next_period(), at(2));
    assert_eq!(staking.current_period(), 0);
}

#[test]
fn closing_a_period_twice_at_one_time_closes_it_once() {
    let mut staking = engine(0);
    staking.add_stakable(asset(1), dec(100), no_lock()).unwrap();
    staking.update_period(at(30)).unwrap();
    assert_eq!(staking.current_period(), 1);
    assert_eq!(staking.next_period(), at(35));
    staking.update_period(at(30)).unwrap();
    assert_eq!(staking.current_period(), 1);
    assert_eq!(staking.next_period(), at(35));
}

#[test]
fn recorded_rates_stay_as_they_are() {
    let mut staking = engine(100_000);
    staking.add_stakable(asset(1), dec(100), no_lock()).unwrap();
    let id = staking.create_id().unwrap();
    staking.stake(at(0), id, asset(1), funds(1, 50), None).unwrap();
    staking.update_period(at(7)).unwrap();
    assert_eq!(staking.stakable(asset(1)).unwrap().rewards.get(&0), Some(&dec(2)));

    staking.edit_stakable(asset(1), dec(1), Lock { payment: dec(9), duration: 9 }).unwrap();
    staking.set_rewards(asset(1), dec(5)).unwrap();
    staking.add_stakable(asset(2), dec(100), no_lock()).unwrap();
    assert_eq!(staking.add_stakable(asset(1), dec(3), no_lock()), Err(StakingError::AlreadyStakable));
    staking.stake(at(7), id, asset(1), funds(1, 50), None).unwrap();
    staking.update_period(at(14)).unwrap();
    staking.update_period(at(21)).unwrap();
    staking.start_unstake(at(21), id, asset(1), dec(0), true, false).unwrap();
    staking.update_period(at(28)).unwrap();

    let unit = staking.stakable(asset(1)).unwrap();
    assert_eq!(unit.rewards.get(&0), Some(&dec(2)));
    assert_eq!(unit.rewards.get(&1), Some(&LedgerDecimal::try_from("0.05").map(|d| Decimal::from_digits(d.attos().to_digits())).unwrap()));
    assert_eq!(unit.rewards.get(&2), unit.rewards.get(&1));
    assert_eq!(unit.rewards.get(&3), Some(&dec(0)));
    assert_eq!(staking.stakable(asset(2)).unwrap().rewards.get(&0), None);
    assert_eq!(staking.stakable(asset(2)).unwrap().rewards.get(&1), Some(&dec(0)));
    assert_eq!(staking.stakables(), vec![asset(1), asset(2)]);
}

#[test]
fn claim_after_long_dormancy_pays_the_same_as_after_the_cap() {
    let mut capped = engine(100_000);
    let mut dormant = engine(100_000);
    for staking in [&mut capped, &mut dormant] {
        staking.add_stakable(asset(1), dec(100), no_lock()).unwrap();
        staking.create_id().unwrap();
        staking.stake(at(0), 1, asset(1), funds(1, 100), None).unwrap();
    }
    for week in 1..=5 {
        capped.update_period(at(7 * week)).unwrap();
    }
    for week in 1..=12 {
        dormant.update_period(at(7 * week)).unwrap();
    }
    assert_eq!(capped.update_id(at(35), 1), Ok(dec(500)));
    assert_eq!(dormant.update_id(at(84), 1), Ok(dec(500)));
}

#[test]
fn unstaking_goes_through_from_the_end_of_the_lock_on() {
    let mut staking = engine(100_000);
    staking.add_stakable(asset(1), dec(0), Lock { payment: dec(0), duration: 3 }).unwrap();
    let id = staking.create_id().unwrap();
    staking.stake(at(0), id, asset(1), funds(1, 100), None).unwrap();
    staking.lock_stake(at(0), id, asset(1)).unwrap();
    for seconds in [0, 1, DAY, 3 * DAY - 1] {
        assert_eq!(
            staking.start_unstake(Instant::new(seconds), id, asset(1), dec(1), false, false),
            Err(StakingError::Locked)
        );
    }
    assert!(staking.start_unstake(at(3), id, asset(1), dec(1), false, false).is_ok());
}

#[test]
fn products_and_quotients_at_the_edge_of_the_range() {
    let lowest = Decimal::from_digits(LedgerDecimal::MIN.attos().to_digits());
    let above_lowest = Decimal::from_digits(
        (LedgerDecimal::MIN + LedgerDecimal::ONE_ATTO).attos().to_digits(),
    );
    // The bonus is the payment times one: the lowest amount does not come
    // through a product, the one above it does and is then refused by the pool.
    let mut staking = engine(0);
    staking.add_stakable(asset(1), lowest, Lock { payment: lowest, duration: 1 }).unwrap();
    staking.add_stakable(asset(2), above_lowest, Lock { payment: above_lowest, duration: 1 }).unwrap();
    let id = staking.create_id().unwrap();
    staking.stake(at(0), id, asset(1), funds(1, 1), None).unwrap();
    staking.stake(at(0), id, asset(2), funds(2, 1), None).unwrap();
    assert_eq!(staking.lock_stake(at(0), id, asset(1)), Err(StakingError::Overflow));
    assert_eq!(staking.lock_stake(at(0), id, asset(2)), Err(StakingError::InsufficientRewards));
    // The rate is the reward over one: the lowest amount does not come
    // through a quotient.
    assert_eq!(staking.update_period(at(7)), Err(StakingError::Overflow));
    staking.set_rewards(asset(1), above_lowest).unwrap();
    assert_eq!(staking.update_period(at(7)), Ok(()));
    assert_eq!(staking.stakable(asset(1)).unwrap().rewards.get(&0), Some(&above_lowest));
}

#[test]
fn negative_rates_round_toward_zero() {
    let mut staking = engine(0);
    staking.add_stakable(asset(1), dec(-1), no_lock()).unwrap();
    let id = staking.create_id().unwrap();
    staking.stake(at(0), id, asset(1), funds(1, 3), None).unwrap();
    staking.update_period(at(7)).unwrap();
    let third = LedgerDecimal::try_from("-0.333333333333333333").unwrap();
    assert_eq!(
        staking.stakable(asset(1)).unwrap().rewards.get(&0),
        Some(&Decimal::from_digits(third.attos().to_digits()))
    );
    // A negative reward is not paid.
    assert_eq!(staking.update_id(at(7), id), Err(StakingError::InsufficientRewards));
}

use scrypto::math::Decimal as LedgerDecimal;
use staking::{
    Bucket, Decimal, Id, Instant, Lock, ResourceAddress, Snapshot, StakableSnapshot, Staking,
    StakingError, UnstakeReceipt,
};

const DAY: i64 = 86_400;

fn dec(units: i64) -> Decimal {
    Decimal::from_digits(LedgerDecimal::from(units).attos().to_digits())
}

fn asset(tag: u8) -> ResourceAddress {
    ResourceAddress::new([tag; 30])
}

fn at(days: i64) -> Instant {
    Instant::new(days * DAY)
}

fn record(staked: &[i64], next_period: i64) -> Id {
    Id {
        amounts_staked: staked.iter().map(|units| dec(*units)).collect(),
        amounts_locked: staked.iter().map(|_| dec(0)).collect(),
        next_period,
        locked_until: staked.iter().map(|_| None).collect(),
    }
}

fn stored_asset(tag: u8, staked: i64, rates: Vec<(i64, Decimal)>) -> StakableSnapshot {
    StakableSnapshot {
        address: asset(tag),
        staked_amount: dec(staked),
        reward_amount: dec(700),
        lock: Lock { payment: dec(0), duration: 0 },
        rates,
    }
}

fn stored() -> Snapshot {
    Snapshot {
        period_interval: 7,
        next_period: at(21),
        current_period: 2,
        max_claim_delay: 5,
        max_unstaking_delay: 30,
        unstake_delay: 7,
        dao_controlled: false,
        reward_address: asset(9),
        reward_vault: dec(1000),
        stakes: vec![
            stored_asset(1, 350, vec![(0, dec(2)), (1, dec(2))]),
            stored_asset(2, 40, vec![(1, dec(3))]),
        ],
        ids: vec![record(&[250, 40], 2), record(&[100], 3), record(&[], 1)],
        unstake_receipts: vec![
            None,
            Some(UnstakeReceipt { address: asset(1), amount: dec(5), redemption_time: at(20) }),
        ],
        stake_transfer_receipts: vec![],
    }
}

#[test]
fn restored_engine_holds_what_was_stored() {
    let staking = Staking::restore(stored()).unwrap();
    assert_eq!(staking.current_period(), 2);
    assert_eq!(staking.next_period(), at(21));
    assert_eq!(staking.reward_vault(), dec(1000));
    assert_eq!(staking.stakables(), vec![asset(1), asset(2)]);
    assert_eq!(staking.id_count(), 3);
    assert_eq!(staking.id(1).unwrap().amounts_staked, vec![dec(250), dec(40)]);
    assert_eq!(staking.id(2).unwrap().next_period, 3);
    assert_eq!(staking.stakable(asset(1)).unwrap().rewards.get(&1), Some(&dec(2)));
    assert_eq!(staking.stakable(asset(2)).unwrap().rewards.get(&0), None);
    assert_eq!(staking.stakable(asset(2)).unwrap().rewards.get(&1), Some(&dec(3)));
    assert_eq!(staking.unstake_receipt_count(), 2);
    assert_eq!(staking.stake_transfer_receipt_count(), 0);
    assert!(staking.unstake_receipt(1).is_none());
    assert_eq!(staking.unstake_receipt(2).unwrap().amount, dec(5));
}

#[test]
fn restored_engine_goes_on_where_the_stored_one_stopped() {
    let mut staking = Staking::restore(stored()).unwrap();
    // Staking ID 1 has period 1 left to claim: 2 * 250 + 3 * 40.
    assert_eq!(staking.update_id(at(20), 1), Ok(dec(620)));
    assert_eq!(staking.update_id(at(20), 2), Err(StakingError::NothingToClaim));
    assert_eq!(
        staking.finish_unstake(2, at(20)),
        Ok(Bucket { address: asset(1), amount: dec(5) })
    );
    assert_eq!(staking.finish_unstake(1, at(20)), Err(StakingError::InvalidReceipt));
}

#[test]
fn snapshot_whose_totals_do_not_add_up_is_refused() {
    let mut snapshot = stored();
    snapshot.stakes[0].staked_amount = dec(349);
    assert!(Staking::restore(snapshot).is_none());
}

#[test]
fn snapshot_with_a_rate_for_an_open_period_is_refused() {
    let mut snapshot = stored();
    snapshot.stakes[1].rates.push((2, dec(1)));
    assert!(Staking::restore(snapshot).is_none());
}

#[test]
fn snapshot_with_two_rates_for_a_period_is_refused() {
    let mut snapshot = stored();
    snapshot.stakes[0].rates.push((0, dec(2)));
    assert!(Staking::restore(snapshot).is_none());
}

#[test]
fn snapshot_with_an_asset_twice_is_refused() {
    let mut snapshot = stored();
    snapshot.stakes[1].address = asset(1);
    assert!(Staking::restore(snapshot).is_none());
}

#[test]
fn snapshot_with_a_record_longer_than_the_registry_is_refused() {
    let mut snapshot = stored();
    snapshot.ids[2] = record(&[0, 0, 0], 1);
    assert!(Staking::restore(snapshot).is_none());
}

#[test]
fn snapshot_with_uneven_lists_is_refused() {
    let mut snapshot = stored();
    snapshot.ids[1].locked_until.push(None);
    assert!(Staking::restore(snapshot).is_none());
}

#[test]
fn snapshot_of_an_engine_restores_to_the_same_engine() {
    let mut staking =
        Staking::new(Bucket { address: asset(9), amount: dec(1000) }, 7, true, 30, at(0)).unwrap();
    staking.add_stakable(asset(1), dec(700), Lock { payment: dec(1), duration: 2 }).unwrap();
    let first = staking.create_id().unwrap();
    let second = staking.create_id().unwrap();
    staking
        .stake(at(0), first, asset(1), Some(Bucket { address: asset(1), amount: dec(250) }), None)
        .unwrap();
    staking
        .stake(at(0), second, asset(1), Some(Bucket { address: asset(1), amount: dec(100) }), None)
        .unwrap();
    staking.update_period(at(7)).unwrap();
    staking.add_stakable(asset(2), dec(5), Lock { payment: dec(0), duration: 0 }).unwrap();
    staking.update_period(at(14)).unwrap();
    staking.start_unstake(at(14), first, asset(1), dec(50), false, false).unwrap();
    staking.start_unstake(at(14), first, asset(1), dec(10), false, true).unwrap();
    staking.lock_stake(at(14), second, asset(1)).unwrap();

    let snapshot = staking.snapshot();
    assert_eq!(snapshot.current_period, 2);
    assert_eq!(snapshot.stakes[0].rates, vec![(0, dec(2)), (1, dec(2))]);
    assert_eq!(snapshot.stakes[1].rates, vec![(1, dec(0))]);
    assert_eq!(snapshot.ids.len(), 2);

    let restored = Staking::restore(snapshot).unwrap();
    assert_eq!(restored.current_period(), staking.current_period());
    assert_eq!(restored.next_period(), staking.next_period());
    assert_eq!(restored.reward_vault(), staking.reward_vault());
    assert_eq!(restored.reward_vault(), dec(900));
    assert_eq!(restored.stakables(), staking.stakables());
    assert_eq!(restored.id(first), staking.id(first));
    assert_eq!(restored.id(second), staking.id(second));
    assert_eq!(restored.unstake_receipt(1), staking.unstake_receipt(1));
    assert_eq!(restored.stake_transfer_receipt(1), staking.stake_transfer_receipt(1));
    for address in staking.stakables() {
        let kept = staking.stakable(address).unwrap();
        let back = restored.stakable(address).unwrap();
        assert_eq!(back.staked_amount, kept.staked_amount);
        assert_eq!(back.reward_amount, kept.reward_amount);
        assert_eq!(back.lock, kept.lock);
        assert_eq!(back.rewards, kept.rewards);
    }
}

#[test]
fn snapshot_with_a_negative_period_is_refused() {
    let mut snapshot = stored();
    snapshot.stakes[0].rates = vec![(-1, dec(2))];
    assert!(Staking::restore(snapshot).is_none());
    let mut snapshot = stored();
    snapshot.current_period = -1;
    snapshot.stakes[0].rates = vec![];
    snapshot.stakes[1].rates = vec![];
    assert!(Staking::restore(snapshot).is_none());
}

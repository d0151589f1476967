//! Bringing an engine back from stored values.
//!
//! A [`Snapshot`] holds, as plain values, everything an engine holds. It may
//! come from anywhere, so nothing is known of it: [`Staking::restore`]
//! checks what always holds of an engine and gives an engine only where the
//! snapshot passes.

use vstd::prelude::*;
use std::collections::HashMap;
use crate::address::ResourceAddress;
use crate::decimal::{checked_add, lemma_decimal_value, representable, Decimal};
use crate::records::{
    copy_all, Id, IdView, Lock, StakableUnit, StakableUnitView, StakeTransferReceipt,
    UnstakeReceipt,
};
use crate::state::{total_staked, Staking, StakingView};
use crate::time::Instant;

verus! {

/// A stakable asset as stored: as in the engine, with the recorded rates as
/// a list of periods and their rates.
#[derive(Debug)]
pub struct StakableSnapshot {
    pub address: ResourceAddress,
    pub staked_amount: Decimal,
    pub reward_amount: Decimal,
    pub lock: Lock,
    pub rates: Vec<(i64, Decimal)>,
}

/// An engine as stored.
#[derive(Debug)]
pub struct Snapshot {
    pub period_interval: i64,
    pub next_period: Instant,
    pub current_period: i64,
    pub max_claim_delay: i64,
    pub max_unstaking_delay: i64,
    pub unstake_delay: i64,
    pub dao_controlled: bool,
    pub reward_address: ResourceAddress,
    pub reward_vault: Decimal,
    pub stakes: Vec<StakableSnapshot>,
    pub ids: Vec<Id>,
    pub unstake_receipts: Vec<Option<UnstakeReceipt>>,
    pub stake_transfer_receipts: Vec<Option<StakeTransferReceipt>>,
}

/// The rates that a list of periods and rates records.
pub open spec fn rates_map(rates: Seq<(i64, Decimal)>) -> Map<i64, Decimal>
    decreases rates.len(),
{
    if rates.len() == 0 {
        Map::empty()
    } else {
        rates_map(rates.drop_last()).insert(rates.last().0, rates.last().1)
    }
}

/// Whether a list of periods and rates names each period once, and only
/// periods from zero on and before `current_period`.
pub open spec fn rates_valid(rates: Seq<(i64, Decimal)>, current_period: i64) -> bool {
    &&& forall|i: int| 0 <= i < rates.len() ==> 0 <= (#[trigger] rates[i]).0 < current_period
    &&& forall|i: int, j: int|
        0 <= i < j < rates.len() ==> (#[trigger] rates[i]).0 != (#[trigger] rates[j]).0
}

/// What the staking IDs `ids` hold of the asset at `asset`, added up one by
/// one; `None` where a sum on the way cannot be held.
pub open spec fn running_total(ids: Seq<IdView>, asset: int) -> Option<int>
    decreases ids.len(),
{
    if ids.len() == 0 {
        Some(0)
    } else {
        match running_total(ids.drop_last(), asset) {
            Some(before) => if representable(before + ids.last().staked(asset)) {
                Some(before + ids.last().staked(asset))
            } else {
                None
            },
            None => None,
        }
    }
}

/// The periods that a list records are the periods that it names.
pub proof fn lemma_rates_map(rates: Seq<(i64, Decimal)>, period: i64)
    ensures
        rates_map(rates).contains_key(period) <==> exists|i: int|
            0 <= i < rates.len() && (#[trigger] rates[i]).0 == period,
    decreases rates.len(),
{
    if rates.len() > 0 {
        let shorter = rates.drop_last();
        lemma_rates_map(shorter, period);
        if rates_map(rates).contains_key(period) {
            if rates.last().0 == period {
                assert(rates[rates.len() - 1].0 == period);
            } else {
                let i = choose|i: int| 0 <= i < shorter.len() && (#[trigger] shorter[i]).0 == period;
                assert(rates[i].0 == period);
            }
        }
        if exists|i: int| 0 <= i < rates.len() && (#[trigger] rates[i]).0 == period {
            let i = choose|i: int| 0 <= i < rates.len() && (#[trigger] rates[i]).0 == period;
            if i < rates.len() - 1 {
                assert(shorter[i].0 == period);
            }
        }
    }
}

/// A running total that can be held is the total.
pub proof fn lemma_running_total(ids: Seq<IdView>, asset: int)
    ensures
        running_total(ids, asset) matches Some(total) ==> total == total_staked(ids, asset),
    decreases ids.len(),
{
    if ids.len() > 0 {
        lemma_running_total(ids.drop_last(), asset);
    }
}

/// A running total that cannot be held is lost for good.
pub proof fn lemma_running_total_lost(ids: Seq<IdView>, asset: int, done: int)
    requires
        0 <= done <= ids.len(),
        running_total(ids.take(done), asset) is None,
    ensures
        running_total(ids, asset) is None,
    decreases ids.len() - done,
{
    if done < ids.len() {
        assert(ids.take(done + 1).drop_last() =~= ids.take(done));
        lemma_running_total_lost(ids, asset, done + 1);
    } else {
        assert(ids.take(done) =~= ids);
    }
}

impl View for StakableSnapshot {
    type V = StakableUnitView;

    open spec fn view(&self) -> StakableUnitView {
        StakableUnitView {
            address: self.address,
            staked_amount: self.staked_amount,
            reward_amount: self.reward_amount,
            lock: self.lock,
            rewards: rates_map(self.rates@),
        }
    }
}

impl View for Snapshot {
    type V = StakingView;

    open spec fn view(&self) -> StakingView {
        StakingView {
            period_interval: self.period_interval,
            next_period: self.next_period,
            current_period: self.current_period,
            max_claim_delay: self.max_claim_delay,
            max_unstaking_delay: self.max_unstaking_delay,
            unstake_delay: self.unstake_delay,
            dao_controlled: self.dao_controlled,
            reward_address: self.reward_address,
            reward_vault: self.reward_vault,
            stakes: Seq::new(self.stakes@.len(), |i: int| self.stakes@[i]@),
            ids: Seq::new(self.ids@.len(), |k: int| self.ids@[k]@),
            unstake_receipts: self.unstake_receipts@,
            stake_transfer_receipts: self.stake_transfer_receipts@,
        }
    }
}

impl Snapshot {
    /// Whether every asset's list of rates names each period once, and only
    /// periods that have ended.
    pub open spec fn rates_listed_once(&self) -> bool {
        forall|i: int|
            0 <= i < self.stakes@.len() ==> rates_valid(
                (#[trigger] self.stakes@[i]).rates@,
                self.current_period,
            )
    }

    /// Whether, for every asset, what the staking IDs hold adds up, one by
    /// one, to the asset's total.
    pub open spec fn adds_up(&self) -> bool {
        forall|i: int|
            0 <= i < self.stakes@.len() ==> running_total(self@.ids, i) == Some(
                (#[trigger] self@.stakes[i]).staked_amount@,
            )
    }

    /// Whether the snapshot can be an engine.
    pub open spec fn valid(&self) -> bool {
        &&& 0 <= self.current_period
        &&& self@.ids_fit()
        &&& self@.assets_distinct()
        &&& self.rates_listed_once()
        &&& self.adds_up()
    }
}

/// A valid snapshot holds what always holds of an engine.
pub proof fn lemma_valid_snapshot(snapshot: Snapshot)
    requires
        snapshot.valid(),
    ensures
        snapshot@.inv(),
{
    let state = snapshot@;
    assert(state.conserved()) by {
        assert forall|i: int| 0 <= i < state.stakes.len() implies (#[trigger] state.stakes[i]).staked_amount@
            == total_staked(state.ids, i) by {
            lemma_running_total(state.ids, i);
        }
    }
    assert(state.rates_are_past()) by {
        assert forall|i: int, p: i64|
            0 <= i < state.stakes.len() && #[trigger] state.stakes[i].rewards.contains_key(
                p,
            ) implies 0 <= p < state.current_period by {
            let rates = snapshot.stakes@[i].rates@;
            lemma_rates_map(rates, p);
            let j = choose|j: int| 0 <= j < rates.len() && (#[trigger] rates[j]).0 == p;
            assert(0 <= rates[j].0 < snapshot.current_period);
        }
    }
}

/// The rates of a stored asset as the engine keeps them, where the list
/// names each period once and only periods from zero on and before
/// `current_period`.
fn restore_rates(rates: &Vec<(i64, Decimal)>, current_period: i64) -> (r: Option<
    HashMap<i64, Decimal>,
>)
    ensures
        match r {
            Some(rewards) => rates_valid(rates@, current_period) && rewards@ == rates_map(rates@),
            None => !rates_valid(rates@, current_period),
        },
{
    let mut rewards: HashMap<i64, Decimal> = HashMap::new();
    let mut i: usize = 0;
    assert(rates@.take(0) =~= Seq::empty());
    while i < rates.len()
        invariant
            i <= rates@.len(),
            rewards@ == rates_map(rates@.take(i as int)),
            rates_valid(rates@.take(i as int), current_period),
        decreases rates@.len() - i,
    {
        let (period, rate) = rates[i];
        let ghost seen = rates@.take(i as int);
        if period < 0 || period >= current_period {
            return None;
        }
        if rewards.contains_key(&period) {
            proof {
                lemma_rates_map(seen, period);
                let j = choose|j: int| 0 <= j < seen.len() && (#[trigger] seen[j]).0 == period;
                assert(rates@[j].0 == rates@[i as int].0);
            }
            return None;
        }
        rewards.insert(period, rate);
        proof {
            let longer = rates@.take(i + 1);
            assert(longer.drop_last() =~= seen);
            assert(longer.last() == rates@[i as int]);
            assert forall|a: int, b: int| 0 <= a < b < longer.len() implies (#[trigger] longer[a]).0
                != (#[trigger] longer[b]).0 by {
                if b == i {
                    lemma_rates_map(seen, period);
                    if longer[a].0 == period {
                        assert(seen[a].0 == period);
                    }
                } else {
                    assert(seen[a].0 != seen[b].0);
                }
            }
            assert forall|a: int| 0 <= a < longer.len() implies 0 <= (#[trigger] longer[a]).0
                < current_period by {
                if a < i {
                    assert(0 <= seen[a].0 < current_period);
                }
            }
        }
        i += 1;
    }
    assert(rates@.take(i as int) =~= rates@);
    Some(rewards)
}

/// The rates that the engine keeps for an asset, as a list in the order of
/// their periods.
fn list_rates(rewards: &HashMap<i64, Decimal>, current_period: i64) -> (rates: Vec<(i64, Decimal)>)
    requires
        forall|p: i64| rewards@.contains_key(p) ==> 0 <= p < current_period,
    ensures
        rates_valid(rates@, current_period),
        rates_map(rates@) == rewards@,
{
    let mut rates: Vec<(i64, Decimal)> = Vec::new();
    let mut period: i64 = 0;
    while period < current_period
        invariant
            0 <= period,
            period <= current_period || rates@.len() == 0,
            rates_valid(rates@, period),
            forall|q: i64| #[trigger]
                rates_map(rates@).contains_key(q) ==> 0 <= q < period && rewards@.contains_key(q)
                    && rates_map(rates@)[q] == rewards@[q],
            forall|q: i64|
                0 <= q < period && #[trigger] rewards@.contains_key(q) ==> rates_map(
                    rates@,
                ).contains_key(q),
        decreases current_period - period,
    {
        let ghost listed = rates@;
        if let Some(rate) = rewards.get(&period) {
            rates.push((period, *rate));
            proof {
                assert(rates@.drop_last() =~= listed);
                assert(rates_map(rates@) == rates_map(listed).insert(period, *rate));
                assert forall|a: int, b: int| 0 <= a < b < rates@.len() implies (#[trigger] rates@[a]).0
                    != (#[trigger] rates@[b]).0 by {
                    if b == listed.len() {
                        assert(listed[a].0 < period);
                    } else {
                        assert(listed[a].0 != listed[b].0);
                    }
                }
                assert forall|a: int| 0 <= a < rates@.len() implies 0 <= (#[trigger] rates@[a]).0
                    < period + 1 by {
                    if a < listed.len() {
                        assert(0 <= listed[a].0 < period);
                    }
                }
                assert forall|q: i64| #[trigger]
                    rates_map(rates@).contains_key(q) implies 0 <= q < period + 1
                    && rewards@.contains_key(q) && rates_map(rates@)[q] == rewards@[q] by {
                    if q != period {
                        assert(rates_map(listed).contains_key(q));
                    }
                }
                assert forall|q: i64|
                    0 <= q < period + 1 && #[trigger] rewards@.contains_key(q) implies rates_map(
                    rates@,
                ).contains_key(q) by {
                    if q != period {
                        assert(rates_map(listed).contains_key(q));
                    }
                }
            }
        } else {
            assert forall|a: int| 0 <= a < rates@.len() implies 0 <= (#[trigger] rates@[a]).0
                < period + 1 by {
                assert(0 <= listed[a].0 < period);
            }
        }
        period += 1;
    }
    proof {
        assert(rates_map(rates@) =~= rewards@);
        assert forall|a: int| 0 <= a < rates@.len() implies 0 <= (#[trigger] rates@[a]).0
            < current_period by {
            assert(0 <= rates@[a].0 < period);
        }
    }
    rates
}

/// Whether no address occurs twice among the assets.
fn addresses_distinct(stakes: &Vec<StakableUnit>) -> (r: bool)
    ensures
        r == (forall|i: int, j: int|
            0 <= i < j < stakes@.len() ==> (#[trigger] stakes@[i]).address != (
            #[trigger] stakes@[j]).address),
{
    let mut j: usize = 0;
    while j < stakes.len()
        invariant
            j <= stakes@.len(),
            forall|a: int, b: int|
                0 <= a < b < j ==> (#[trigger] stakes@[a]).address != (#[trigger] stakes@[b]).address,
        decreases stakes@.len() - j,
    {
        let mut i: usize = 0;
        while i < j
            invariant
                i <= j < stakes@.len(),
                forall|a: int| 0 <= a < i ==> (#[trigger] stakes@[a]).address != stakes@[j as int].address,
            decreases j - i,
        {
            if stakes[i].address.same(&stakes[j].address) {
                return false;
            }
            i += 1;
        }
        j += 1;
    }
    true
}

/// Whether every record has equally long lists, no longer than `assets`.
fn records_fit(ids: &Vec<Id>, assets: usize) -> (r: bool)
    ensures
        r == (forall|k: int|
            0 <= k < ids@.len() ==> (#[trigger] ids@[k])@.aligned() && ids@[k]@.assets() <= assets),
{
    let mut k: usize = 0;
    while k < ids.len()
        invariant
            k <= ids@.len(),
            forall|a: int| 0 <= a < k ==> (#[trigger] ids@[a])@.aligned() && ids@[a]@.assets() <= assets,
        decreases ids@.len() - k,
    {
        let record = &ids[k];
        if record.amounts_locked.len() != record.amounts_staked.len()
            || record.locked_until.len() != record.amounts_staked.len()
            || record.amounts_staked.len() > assets {
            return false;
        }
        k += 1;
    }
    true
}

/// What the records hold of the asset at `asset`, added up one by one.
fn add_up(ids: &Vec<Id>, asset: usize) -> (r: Option<Decimal>)
    ensures
        ({
            let views = Seq::new(ids@.len(), |k: int| ids@[k]@);
            match r {
                Some(total) => running_total(views, asset as int) == Some(total@),
                None => running_total(views, asset as int) is None,
            }
        }),
{
    let ghost views = Seq::new(ids@.len(), |k: int| ids@[k]@);
    let mut total = Decimal::zero();
    let mut k: usize = 0;
    assert(views.take(0) =~= Seq::empty());
    while k < ids.len()
        invariant
            k <= ids@.len(),
            views == Seq::new(ids@.len(), |k: int| ids@[k]@),
            running_total(views.take(k as int), asset as int) == Some(total@),
        decreases ids@.len() - k,
    {
        let staked = ids[k].staked_at(asset);
        proof {
            assert(views.take(k + 1).drop_last() =~= views.take(k as int));
            assert(views.take(k + 1).last() == ids@[k as int]@);
        }
        total = match checked_add(total, staked) {
            None => {
                proof {
                    lemma_running_total_lost(views, asset as int, k + 1);
                }
                return None;
            },
            Some(sum) => sum,
        };
        k += 1;
    }
    assert(views.take(k as int) =~= views);
    Some(total)
}

impl Staking {
    /// What the engine holds, as plain values to be stored.
    pub fn snapshot(&self) -> (snapshot: Snapshot)
        requires
            self@.inv(),
        ensures
            snapshot@ == self@,
            0 <= snapshot.current_period,
            snapshot.rates_listed_once(),
    {
        let mut stakes: Vec<StakableSnapshot> = Vec::new();
        let mut i: usize = 0;
        while i < self.stakes.len()
            invariant
                self@.rates_are_past(),
                i <= self.stakes@.len(),
                stakes@.len() == i,
                forall|j: int|
                    0 <= j < i ==> (#[trigger] stakes@[j])@ == self.stakes@[j]@ && rates_valid(
                        stakes@[j].rates@,
                        self.current_period,
                    ),
            decreases self.stakes@.len() - i,
        {
            let unit = &self.stakes[i];
            assert forall|p: i64| unit.rewards@.contains_key(p) implies 0 <= p
                < self.current_period by {
                assert(self@.stakes[i as int].rewards.contains_key(p));
            }
            stakes.push(
                StakableSnapshot {
                    address: unit.address,
                    staked_amount: unit.staked_amount,
                    reward_amount: unit.reward_amount,
                    lock: unit.lock,
                    rates: list_rates(&unit.rewards, self.current_period),
                },
            );
            i += 1;
        }
        let mut ids: Vec<Id> = Vec::new();
        let mut k: usize = 0;
        while k < self.ids.len()
            invariant
                k <= self.ids@.len(),
                ids@.len() == k,
                forall|j: int| 0 <= j < k ==> (#[trigger] ids@[j])@ == self.ids@[j]@,
            decreases self.ids@.len() - k,
        {
            ids.push(self.ids[k].duplicate());
            k += 1;
        }
        let snapshot = Snapshot {
            period_interval: self.period_interval,
            next_period: self.next_period,
            current_period: self.current_period,
            max_claim_delay: self.max_claim_delay,
            max_unstaking_delay: self.max_unstaking_delay,
            unstake_delay: self.unstake_delay,
            dao_controlled: self.dao_controlled,
            reward_address: self.reward_address,
            reward_vault: self.reward_vault,
            stakes,
            ids,
            unstake_receipts: copy_all(&self.unstake_receipts),
            stake_transfer_receipts: copy_all(&self.stake_transfer_receipts),
        };
        proof {
            assert(snapshot@.stakes =~= self@.stakes);
            assert(snapshot@.ids =~= self@.ids);
        }
        snapshot
    }

    /// The engine that `snapshot` holds, where the snapshot can be one.
    pub fn restore(snapshot: Snapshot) -> (r: Option<Staking>)
        ensures
            match r {
                Some(staking) => snapshot.valid() && staking@ == snapshot@ && staking@.inv(),
                None => !snapshot.valid(),
            },
    {
        if snapshot.current_period < 0 {
            return None;
        }
        let mut stakes: Vec<StakableUnit> = Vec::new();
        let mut i: usize = 0;
        while i < snapshot.stakes.len()
            invariant
                i <= snapshot.stakes@.len(),
                stakes@.len() == i,
                forall|j: int| 0 <= j < i ==> (#[trigger] stakes@[j])@ == snapshot.stakes@[j]@,
                forall|j: int|
                    0 <= j < i ==> rates_valid(
                        (#[trigger] snapshot.stakes@[j]).rates@,
                        snapshot.current_period,
                    ),
            decreases snapshot.stakes@.len() - i,
        {
            let stored = &snapshot.stakes[i];
            let rewards = match restore_rates(&stored.rates, snapshot.current_period) {
                None => return None,
                Some(rewards) => rewards,
            };
            stakes.push(
                StakableUnit {
                    address: stored.address,
                    staked_amount: stored.staked_amount,
                    reward_amount: stored.reward_amount,
                    lock: stored.lock,
                    rewards,
                },
            );
            i += 1;
        }
        if !addresses_distinct(&stakes) {
            proof {
                let a = choose|a: int, b: int|
                    0 <= a < b < stakes@.len() && (#[trigger] stakes@[a]).address == (
                    #[trigger] stakes@[b]).address;
                assert(snapshot@.stakes[a.0].address == snapshot@.stakes[a.1].address);
            }
            return None;
        }
        if !records_fit(&snapshot.ids, stakes.len()) {
            proof {
                let k = choose|k: int|
                    0 <= k < snapshot.ids@.len() && !((#[trigger] snapshot.ids@[k])@.aligned()
                        && snapshot.ids@[k]@.assets() <= stakes@.len());
                assert(snapshot@.ids[k] == snapshot.ids@[k]@);
            }
            return None;
        }
        let mut asset: usize = 0;
        while asset < stakes.len()
            invariant
                snapshot.rates_listed_once(),
                asset <= stakes@.len(),
                stakes@.len() == snapshot.stakes@.len(),
                forall|j: int|
                    0 <= j < stakes@.len() ==> (#[trigger] stakes@[j])@ == snapshot.stakes@[j]@,
                forall|j: int|
                    0 <= j < asset ==> running_total(snapshot@.ids, j) == Some(
                        (#[trigger] snapshot@.stakes[j]).staked_amount@,
                    ),
            decreases stakes@.len() - asset,
        {
            assert(snapshot@.ids =~= Seq::new(snapshot.ids@.len(), |k: int| snapshot.ids@[k]@));
            let total = match add_up(&snapshot.ids, asset) {
                None => {
                    assert(running_total(snapshot@.ids, asset as int) != Some(
                        snapshot@.stakes[asset as int].staked_amount@,
                    ));
                    return None;
                },
                Some(total) => total,
            };
            if total != stakes[asset].staked_amount {
                proof {
                    lemma_decimal_value(total, stakes@[asset as int].staked_amount);
                    assert(running_total(snapshot@.ids, asset as int) != Some(
                        snapshot@.stakes[asset as int].staked_amount@,
                    ));
                }
                return None;
            }
            asset += 1;
        }
        let staking = Staking {
            period_interval: snapshot.period_interval,
            next_period: snapshot.next_period,
            current_period: snapshot.current_period,
            max_claim_delay: snapshot.max_claim_delay,
            max_unstaking_delay: snapshot.max_unstaking_delay,
            unstake_delay: snapshot.unstake_delay,
            dao_controlled: snapshot.dao_controlled,
            reward_address: snapshot.reward_address,
            reward_vault: snapshot.reward_vault,
            stakes,
            ids: snapshot.ids,
            unstake_receipts: snapshot.unstake_receipts,
            stake_transfer_receipts: snapshot.stake_transfer_receipts,
        };
        proof {
            assert(staking@.stakes =~= snapshot@.stakes);
            assert(staking@.ids =~= snapshot@.ids);
            lemma_valid_snapshot(snapshot);
        }
        Some(staking)
    }
}

} // verus!

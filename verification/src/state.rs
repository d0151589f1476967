//! The state of the staking engine and what always holds of it.

use vstd::prelude::*;
use crate::address::ResourceAddress;
use crate::decimal::{decimal_of, lemma_decimal_of, lemma_decimal_of_view, representable, Decimal};
use crate::records::{
    Id, IdView, StakableUnit, StakableUnitView, StakeTransferReceipt, UnstakeReceipt,
};
use crate::time::Instant;

verus! {

/// The staking engine.
///
/// Staking ID number `n` is `ids[n - 1]`; receipt number `n` of either kind
/// is entry `n - 1` of its list, and is empty once the receipt is redeemed.
/// Assets are registered in `stakes`, and the position of an asset there is
/// its index in every staking ID.
pub struct Staking {
    pub(crate) period_interval: i64,
    pub(crate) next_period: Instant,
    pub(crate) current_period: i64,
    pub(crate) max_claim_delay: i64,
    pub(crate) max_unstaking_delay: i64,
    pub(crate) unstake_delay: i64,
    pub(crate) dao_controlled: bool,
    pub(crate) reward_address: ResourceAddress,
    pub(crate) reward_vault: Decimal,
    pub(crate) stakes: Vec<StakableUnit>,
    pub(crate) ids: Vec<Id>,
    pub(crate) unstake_receipts: Vec<Option<UnstakeReceipt>>,
    pub(crate) stake_transfer_receipts: Vec<Option<StakeTransferReceipt>>,
}

/// The mathematical content of a [`Staking`].
#[verifier::ext_equal]
pub struct StakingView {
    /// Days between two period boundaries.
    pub period_interval: i64,
    /// When the current period ends.
    pub next_period: Instant,
    /// Number of the current period, counted from zero.
    pub current_period: i64,
    /// Most periods that one claim pays for.
    pub max_claim_delay: i64,
    /// Most days that the unstake delay may be set to.
    pub max_unstaking_delay: i64,
    /// Days between an unstake request and its redemption.
    pub unstake_delay: i64,
    /// Whether the controller may lock stake directly.
    pub dao_controlled: bool,
    /// The asset that rewards are paid in.
    pub reward_address: ResourceAddress,
    /// What the reward pool holds.
    pub reward_vault: Decimal,
    /// The registered assets, in the order of their registration.
    pub stakes: Seq<StakableUnitView>,
    /// The staking IDs, in the order of their creation.
    pub ids: Seq<IdView>,
    /// The unstake receipts issued so far; `None` once redeemed.
    pub unstake_receipts: Seq<Option<UnstakeReceipt>>,
    /// The stake transfer receipts issued so far; `None` once redeemed.
    pub stake_transfer_receipts: Seq<Option<StakeTransferReceipt>>,
}

/// Subunits of the asset at `asset` that the staking IDs `ids` hold together.
pub open spec fn total_staked(ids: Seq<IdView>, asset: int) -> int
    decreases ids.len(),
{
    if ids.len() == 0 {
        0
    } else {
        total_staked(ids.drop_last(), asset) + ids.last().staked(asset)
    }
}

/// Replacing one staking ID changes the total by what the new record holds
/// more than the old one.
pub proof fn lemma_total_staked_update(ids: Seq<IdView>, k: int, record: IdView, asset: int)
    requires
        0 <= k < ids.len(),
    ensures
        total_staked(ids.update(k, record), asset) == total_staked(ids, asset) - ids[k].staked(
            asset,
        ) + record.staked(asset),
    decreases ids.len(),
{
    let updated = ids.update(k, record);
    if k == ids.len() - 1 {
        assert(updated.drop_last() =~= ids.drop_last());
    } else {
        assert(updated.drop_last() =~= ids.drop_last().update(k, record));
        lemma_total_staked_update(ids.drop_last(), k, record, asset);
    }
}

/// A further staking ID adds what it holds to the total.
pub proof fn lemma_total_staked_push(ids: Seq<IdView>, record: IdView, asset: int)
    ensures
        total_staked(ids.push(record), asset) == total_staked(ids, asset) + record.staked(asset),
{
    assert(ids.push(record).drop_last() =~= ids);
}

/// Staking IDs that have no entry for an asset hold nothing of it.
pub proof fn lemma_total_staked_unknown(ids: Seq<IdView>, asset: int)
    requires
        forall|k: int| 0 <= k < ids.len() ==> (#[trigger] ids[k]).assets() <= asset,
    ensures
        total_staked(ids, asset) == 0,
    decreases ids.len(),
{
    if ids.len() > 0 {
        assert(ids.last() == ids[ids.len() - 1]);
        assert forall|k: int| 0 <= k < ids.drop_last().len() implies (#[trigger] ids.drop_last()[k]).assets()
            <= asset by {
            assert(ids.drop_last()[k] == ids[k]);
        }
        lemma_total_staked_unknown(ids.drop_last(), asset);
    }
}

impl StakingView {
    /// Whether staking ID number `id` exists.
    pub open spec fn has_id(self, id: u64) -> bool {
        1 <= id <= self.ids.len()
    }

    /// Staking ID number `id`.
    pub open spec fn id(self, id: u64) -> IdView {
        self.ids[id - 1]
    }

    /// Whether `address` is registered as stakable.
    pub open spec fn is_stakable(self, address: ResourceAddress) -> bool {
        exists|i: int| 0 <= i < self.stakes.len() && (#[trigger] self.stakes[i]).address == address
    }

    /// The index of the registered asset `address`.
    pub open spec fn index_of(self, address: ResourceAddress) -> int {
        choose|i: int| 0 <= i < self.stakes.len() && (#[trigger] self.stakes[i]).address == address
    }

    /// The engine with `record` as staking ID number `id`.
    pub open spec fn with_id(self, id: u64, record: IdView) -> StakingView {
        StakingView { ids: self.ids.update(id - 1, record), ..self }
    }

    /// The engine with `unit` as the asset at `index`.
    pub open spec fn with_stake(self, index: int, unit: StakableUnitView) -> StakingView {
        StakingView { stakes: self.stakes.update(index, unit), ..self }
    }

    /// The engine with `change` subunits more of the asset at `index` in
    /// staking ID number `id` and in the asset's total.
    pub open spec fn with_stake_change(self, id: u64, index: int, change: int) -> StakingView {
        self.with_id(
            id,
            self.id(id).with_staked(
                index,
                decimal_of(self.id(id).amounts_staked[index]@ + change),
            ),
        ).with_stake(
            index,
            self.stakes[index].with_staked_amount(
                decimal_of(self.stakes[index].staked_amount@ + change),
            ),
        )
    }

    /// The stake transfer receipts with `receipt` redeemed, if there is one.
    pub open spec fn transfer_receipts_without(self, receipt: Option<u64>) -> Seq<
        Option<StakeTransferReceipt>,
    > {
        match receipt {
            Some(receipt) => self.stake_transfer_receipts.update(receipt - 1, None),
            None => self.stake_transfer_receipts,
        }
    }

    /// Whether unstake receipt number `receipt` was issued and is not
    /// redeemed.
    pub open spec fn holds_unstake_receipt(self, receipt: u64) -> bool {
        1 <= receipt <= self.unstake_receipts.len() && self.unstake_receipts[receipt - 1] is Some
    }

    /// Whether stake transfer receipt number `receipt` was issued and is not
    /// redeemed.
    pub open spec fn holds_transfer_receipt(self, receipt: u64) -> bool {
        1 <= receipt <= self.stake_transfer_receipts.len()
            && self.stake_transfer_receipts[receipt - 1] is Some
    }

    /// Every staking ID has equally long lists, no longer than the registry.
    pub open spec fn ids_fit(self) -> bool {
        forall|k: int|
            0 <= k < self.ids.len() ==> (#[trigger] self.ids[k]).aligned() && self.ids[k].assets()
                <= self.stakes.len()
    }

    /// For every asset, what the staking IDs hold together is the asset's
    /// recorded total.
    pub open spec fn conserved(self) -> bool {
        forall|i: int|
            0 <= i < self.stakes.len() ==> (#[trigger] self.stakes[i]).staked_amount@
                == total_staked(self.ids, i)
    }

    /// Periods are counted from zero, and a rate is recorded only for a
    /// period that has ended.
    pub open spec fn rates_are_past(self) -> bool {
        &&& 0 <= self.current_period
        &&& forall|i: int, p: i64|
            0 <= i < self.stakes.len() && #[trigger] self.stakes[i].rewards.contains_key(p) ==> 0
                <= p < self.current_period
    }

    /// No asset is registered twice.
    pub open spec fn assets_distinct(self) -> bool {
        forall|i: int, j: int|
            0 <= i < j < self.stakes.len() ==> (#[trigger] self.stakes[i]).address != (
            #[trigger] self.stakes[j]).address
    }

    /// What holds of the engine between any two operations.
    pub open spec fn inv(self) -> bool {
        &&& self.ids_fit()
        &&& self.conserved()
        &&& self.rates_are_past()
        &&& self.assets_distinct()
    }
}

/// Under distinct registration an address names one index only.
pub proof fn lemma_index_of(state: StakingView, address: ResourceAddress, index: int)
    requires
        state.assets_distinct(),
        0 <= index < state.stakes.len(),
        state.stakes[index].address == address,
    ensures
        state.is_stakable(address),
        state.index_of(address) == index,
{
    let chosen = state.index_of(address);
    assert(0 <= chosen < state.stakes.len() && state.stakes[chosen].address == address);
    if chosen < index {
        assert(state.stakes[chosen].address != state.stakes[index].address);
    } else if index < chosen {
        assert(state.stakes[index].address != state.stakes[chosen].address);
    }
}

/// A change of what a staking ID holds, made to the asset's total as well,
/// keeps what always holds of the engine.
pub proof fn lemma_stake_change_keeps_inv(state: StakingView, id: u64, index: int, change: int)
    requires
        state.inv(),
        state.has_id(id),
        0 <= index < state.id(id).assets(),
        representable(state.id(id).amounts_staked[index]@ + change),
        representable(state.stakes[index].staked_amount@ + change),
    ensures
        state.with_stake_change(id, index, change).inv(),
{
    let next = state.with_stake_change(id, index, change);
    let before = state.id(id);
    let after = before.with_staked(index, decimal_of(before.amounts_staked[index]@ + change));
    lemma_decimal_of(before.amounts_staked[index]@ + change);
    lemma_decimal_of(state.stakes[index].staked_amount@ + change);
    assert(before == state.ids[id - 1]);
    assert(next.ids == state.ids.update(id - 1, after));
    assert(next.ids_fit()) by {
        assert forall|k: int| 0 <= k < next.ids.len() implies (#[trigger] next.ids[k]).aligned()
            && next.ids[k].assets() <= next.stakes.len() by {
            if k != id - 1 {
                assert(next.ids[k] == state.ids[k]);
            }
        }
    }
    assert(next.conserved()) by {
        assert forall|i: int| 0 <= i < next.stakes.len() implies (#[trigger] next.stakes[i]).staked_amount@
            == total_staked(next.ids, i) by {
            lemma_total_staked_update(state.ids, id - 1, after, i);
            assert(state.stakes[i].staked_amount@ == total_staked(state.ids, i));
        }
    }
    assert(next.rates_are_past()) by {
        assert forall|i: int, p: i64|
            0 <= i < next.stakes.len() && #[trigger] next.stakes[i].rewards.contains_key(
                p,
            ) implies 0 <= p < next.current_period by {
            assert(state.stakes[i].rewards.contains_key(p));
        }
    }
    assert(next.assets_distinct()) by {
        assert forall|i: int, j: int| 0 <= i < j < next.stakes.len() implies (#[trigger] next.stakes[i]).address
            != (#[trigger] next.stakes[j]).address by {
            assert(state.stakes[i].address != state.stakes[j].address);
        }
    }
}

/// Replacing a staking ID by a record that holds the same amounts, and is as
/// long, keeps what always holds of the engine.
pub proof fn lemma_with_id_keeps_inv(state: StakingView, id: u64, record: IdView)
    requires
        state.inv(),
        state.has_id(id),
        record.aligned(),
        record.amounts_staked == state.id(id).amounts_staked,
    ensures
        state.with_id(id, record).inv(),
{
    let next = state.with_id(id, record);
    assert(state.id(id) == state.ids[id - 1]);
    assert(next.ids_fit()) by {
        assert forall|k: int| 0 <= k < next.ids.len() implies (#[trigger] next.ids[k]).aligned()
            && next.ids[k].assets() <= next.stakes.len() by {
            if k != id - 1 {
                assert(next.ids[k] == state.ids[k]);
            }
        }
    }
    assert(next.conserved()) by {
        assert forall|i: int| 0 <= i < next.stakes.len() implies (#[trigger] next.stakes[i]).staked_amount@
            == total_staked(next.ids, i) by {
            lemma_total_staked_update(state.ids, id - 1, record, i);
            assert(state.stakes[i].staked_amount@ == total_staked(state.ids, i));
        }
    }
}

impl Staking {
    /// The index of the registered asset `address`, if it is registered.
    pub(crate) fn index_of(&self, address: &ResourceAddress) -> (r: Option<usize>)
        requires
            self@.assets_distinct(),
        ensures
            match r {
                Some(index) => {
                    &&& self@.is_stakable(*address)
                    &&& index == self@.index_of(*address)
                    &&& index < self@.stakes.len()
                },
                None => !self@.is_stakable(*address),
            },
    {
        let mut i: usize = 0;
        while i < self.stakes.len()
            invariant
                self@.assets_distinct(),
                i <= self.stakes@.len(),
                forall|j: int| 0 <= j < i ==> (#[trigger] self@.stakes[j]).address != *address,
            decreases self.stakes@.len() - i,
        {
            if self.stakes[i].address.same(address) {
                proof {
                    lemma_index_of(self@, *address, i as int);
                }
                return Some(i);
            }
            i += 1;
        }
        None
    }

    /// Sets what staking ID number `id` holds of the asset at `index`, and
    /// the asset's total, to amounts that are both `change` subunits more
    /// than before.
    pub(crate) fn set_stake(
        &mut self,
        k: usize,
        index: usize,
        staked: Decimal,
        total: Decimal,
        Ghost(id): Ghost<u64>,
        Ghost(change): Ghost<int>,
    )
        requires
            old(self)@.has_id(id),
            k == id - 1,
            index < old(self)@.id(id).assets(),
            index < old(self)@.stakes.len(),
            staked@ == old(self)@.id(id).amounts_staked[index as int]@ + change,
            total@ == old(self)@.stakes[index as int].staked_amount@ + change,
        ensures
            final(self)@ == old(self)@.with_stake_change(id, index as int, change),
    {
        proof {
            lemma_decimal_of_view(staked);
            lemma_decimal_of_view(total);
        }
        self.ids[k].amounts_staked[index] = staked;
        self.stakes[index].staked_amount = total;
        proof {
            let next = old(self)@.with_stake_change(id, index as int, change);
            assert(self@.ids =~~= next.ids);
            assert(self@.stakes =~~= next.stakes);
        }
    }

    /// Sets the first period that staking ID number `id` has not claimed.
    pub(crate) fn set_next_period(&mut self, k: usize, next_period: i64, Ghost(id): Ghost<u64>)
        requires
            old(self)@.has_id(id),
            k == id - 1,
        ensures
            final(self)@ == old(self)@.with_id(
                id,
                old(self)@.id(id).with_next_period(next_period),
            ),
    {
        self.ids[k].next_period = next_period;
        proof {
            let next = old(self)@.with_id(id, old(self)@.id(id).with_next_period(next_period));
            assert(self@.ids =~~= next.ids);
            assert(self@.stakes =~~= next.stakes);
        }
    }

    /// Locks the asset at `index` in staking ID number `id` until `until`.
    pub(crate) fn set_locked_until(
        &mut self,
        k: usize,
        index: usize,
        until: Instant,
        Ghost(id): Ghost<u64>,
    )
        requires
            old(self)@.has_id(id),
            k == id - 1,
            index < old(self)@.id(id).locked_until.len(),
        ensures
            final(self)@ == old(self)@.with_id(
                id,
                old(self)@.id(id).with_lock(index as int, until),
            ),
    {
        self.ids[k].locked_until[index] = Some(until);
        proof {
            let next = old(self)@.with_id(id, old(self)@.id(id).with_lock(index as int, until));
            assert(self@.ids =~~= next.ids);
            assert(self@.stakes =~~= next.stakes);
        }
    }

    /// Sets what the reward pool holds.
    pub(crate) fn set_reward_vault(&mut self, amount: Decimal)
        ensures
            final(self)@ == (StakingView { reward_vault: amount, ..old(self)@ }),
    {
        self.reward_vault = amount;
        proof {
            let next = StakingView { reward_vault: amount, ..old(self)@ };
            assert(self@.ids =~~= next.ids);
            assert(self@.stakes =~~= next.stakes);
        }
    }

    /// Marks stake transfer receipt number `receipt` as redeemed, if there
    /// is one.
    pub(crate) fn redeem_transfer_receipt(&mut self, receipt: Option<u64>)
        requires
            receipt matches Some(number) ==> old(self)@.holds_transfer_receipt(number),
        ensures
            final(self)@ == (StakingView {
                stake_transfer_receipts: old(self)@.transfer_receipts_without(receipt),
                ..old(self)@
            }),
    {
        if let Some(number) = receipt {
            assert(number <= self.stake_transfer_receipts.len());
            let slot = (number - 1) as usize;
            self.stake_transfer_receipts[slot] = None;
        }
        proof {
            let next = StakingView {
                stake_transfer_receipts: old(self)@.transfer_receipts_without(receipt),
                ..old(self)@
            };
            assert(self@.ids =~~= next.ids);
            assert(self@.stakes =~~= next.stakes);
            assert(self@.stake_transfer_receipts =~= next.stake_transfer_receipts);
        }
    }

    /// The mathematical content of the engine.
    pub open(crate) spec fn view(&self) -> StakingView {
        StakingView {
            period_interval: self.period_interval,
            next_period: self.next_period,
            current_period: self.current_period,
            max_claim_delay: self.max_claim_delay,
            max_unstaking_delay: self.max_unstaking_delay,
            unstake_delay: self.unstake_delay,
            dao_controlled: self.dao_controlled,
            reward_address: self.reward_address,
            reward_vault: self.reward_vault,
            stakes: Seq::new(self.stakes@.len(), |i: int| self.stakes@[i]@),
            ids: Seq::new(self.ids@.len(), |k: int| self.ids@[k]@),
            unstake_receipts: self.unstake_receipts@,
            stake_transfer_receipts: self.stake_transfer_receipts@,
        }
    }
}

} // verus!

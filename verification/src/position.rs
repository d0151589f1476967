//! Staking IDs: creating them, bringing them up to date and staking into
//! them.

use vstd::prelude::*;
use crate::address::ResourceAddress;
use crate::decimal::{checked_add, representable, Decimal};
use crate::period::{lemma_update_period_keeps_inv, PeriodPlan};
use crate::records::{lemma_reconciled, Bucket, Id, IdView, StakingError};
use crate::state::{
    lemma_index_of, lemma_stake_change_keeps_inv, lemma_total_staked_push,
    lemma_total_staked_update, lemma_with_id_keeps_inv, total_staked, Staking, StakingView,
};
use crate::time::Instant;

verus! {

impl StakingView {
    /// What every operation on a staking ID starts with: the period is
    /// closed if it has ended at `now`, then the staking ID is brought up to
    /// the registry.
    pub open spec fn check_indexes(self, now: Instant, id: u64) -> Result<
        StakingView,
        StakingError,
    > {
        if !self.has_id(id) {
            Err(StakingError::InvalidId)
        } else {
            match self.update_period(now) {
                Err(e) => Err(e),
                Ok(rolled) => Ok(
                    rolled.with_id(id, rolled.id(id).reconciled(rolled.stakes.len())),
                ),
            }
        }
    }

    /// Subunits that a stake brings: those of the funds and those of the
    /// stake transfer receipt, where there are any.
    pub open spec fn stake_amount(self, stake_bucket: Option<Bucket>, receipt: Option<u64>) -> int {
        (match stake_bucket {
            Some(funds) => funds.amount@,
            None => 0,
        }) + (match receipt {
            Some(receipt) => self.stake_transfer_receipts[receipt - 1].unwrap().amount@,
            None => 0,
        })
    }

    /// A stake into a staking ID that is up to date. It is refused where the
    /// asset is not registered, where the staking ID has periods left to
    /// claim, where the funds are of another asset, and where the receipt is
    /// not outstanding or is for another asset. Else what the funds and the
    /// receipt bring is added to the staking ID and to the asset's total,
    /// the receipt is gone, and the staking ID's next period to claim is the
    /// one after the current one.
    pub open spec fn stake_into(
        self,
        id: u64,
        address: ResourceAddress,
        stake_bucket: Option<Bucket>,
        receipt: Option<u64>,
    ) -> Result<StakingView, StakingError> {
        let index = self.index_of(address);
        let amount = self.stake_amount(stake_bucket, receipt);
        if !self.is_stakable(address) {
            Err(StakingError::NotStakable)
        } else if self.id(id).next_period < self.current_period {
            Err(StakingError::UnclaimedRewards)
        } else if stake_bucket is Some && stake_bucket.unwrap().address != address {
            Err(StakingError::WrongToken)
        } else if receipt is Some && !self.holds_transfer_receipt(receipt.unwrap()) {
            Err(StakingError::InvalidReceipt)
        } else if receipt is Some && self.stake_transfer_receipts[receipt.unwrap() - 1].unwrap().address
            != address {
            Err(StakingError::ReceiptMismatch)
        } else if !representable(amount) || !representable(
            self.id(id).amounts_staked[index]@ + amount,
        ) || !representable(self.stakes[index].staked_amount@ + amount) || self.current_period
            == i64::MAX {
            Err(StakingError::Overflow)
        } else {
            let credited = self.with_stake_change(id, index, amount);
            Ok(
                StakingView {
                    stake_transfer_receipts: self.transfer_receipts_without(receipt),
                    ..credited.with_id(
                        id,
                        credited.id(id).with_next_period((self.current_period + 1) as i64),
                    )
                },
            )
        }
    }

    /// Stakes at `now`: the staking ID is brought up to date, then the stake
    /// is made into it.
    pub open spec fn stake(
        self,
        now: Instant,
        id: u64,
        address: ResourceAddress,
        stake_bucket: Option<Bucket>,
        receipt: Option<u64>,
    ) -> Result<StakingView, StakingError> {
        match self.check_indexes(now, id) {
            Err(e) => Err(e),
            Ok(synced) => synced.stake_into(id, address, stake_bucket, receipt),
        }
    }

    /// Creates a staking ID with nothing staked, whose first claimable
    /// period is the one after the current one. Gives the engine after it
    /// and the new ID's number.
    pub open spec fn create_id(self) -> Result<(StakingView, u64), StakingError> {
        if self.current_period == i64::MAX || self.ids.len() >= u64::MAX {
            Err(StakingError::Overflow)
        } else {
            Ok(
                (
                    StakingView {
                        ids: self.ids.push(
                            IdView::fresh(self.stakes.len(), (self.current_period + 1) as i64),
                        ),
                        ..self
                    },
                    (self.ids.len() + 1) as u64,
                ),
            )
        }
    }
}

/// What `check_indexes` leaves as it was, and what it brings about.
pub proof fn lemma_check_indexes(state: StakingView, now: Instant, id: u64)
    requires
        state.inv(),
    ensures
        state.check_indexes(now, id) matches Ok(synced) ==> {
            &&& synced.inv()
            &&& state.has_id(id)
            &&& state.update_period(now) matches Ok(rolled) && {
                &&& synced.stakes == rolled.stakes
                &&& synced.current_period == rolled.current_period
                &&& synced.next_period == rolled.next_period
            }
            &&& synced.period_interval == state.period_interval
            &&& synced.max_claim_delay == state.max_claim_delay
            &&& synced.max_unstaking_delay == state.max_unstaking_delay
            &&& synced.unstake_delay == state.unstake_delay
            &&& synced.dao_controlled == state.dao_controlled
            &&& synced.reward_address == state.reward_address
            &&& synced.reward_vault == state.reward_vault
            &&& synced.unstake_receipts == state.unstake_receipts
            &&& synced.stake_transfer_receipts == state.stake_transfer_receipts
            &&& synced.ids.len() == state.ids.len()
            &&& synced.stakes.len() == state.stakes.len()
            &&& synced.id(id) == state.id(id).reconciled(state.stakes.len())
            &&& synced.id(id).aligned()
            &&& synced.id(id).assets() == state.stakes.len()
            &&& forall|k: int| 0 <= k < state.ids.len() && k != id - 1 ==> synced.ids[k] == state.ids[k]
            &&& forall|i: int|
                0 <= i < state.stakes.len() ==> {
                    &&& (#[trigger] synced.stakes[i]).address == state.stakes[i].address
                    &&& synced.stakes[i].staked_amount == state.stakes[i].staked_amount
                    &&& synced.stakes[i].reward_amount == state.stakes[i].reward_amount
                    &&& synced.stakes[i].lock == state.stakes[i].lock
                }
        },
{
    if let Ok(synced) = state.check_indexes(now, id) {
        lemma_update_period_keeps_inv(state, now);
        let rolled = state.update_period(now).unwrap();
        let assets = rolled.stakes.len();
        let record = rolled.id(id);
        assert(rolled.ids == state.ids);
        assert(record == rolled.ids[id - 1]);
        lemma_reconciled(record, assets);
        assert(synced.ids_fit()) by {
            assert forall|k: int| 0 <= k < synced.ids.len() implies (#[trigger] synced.ids[k]).aligned()
                && synced.ids[k].assets() <= synced.stakes.len() by {
                if k != id - 1 {
                    assert(synced.ids[k] == rolled.ids[k]);
                }
            }
        }
        assert(synced.conserved()) by {
            assert forall|i: int| 0 <= i < synced.stakes.len() implies (#[trigger] synced.stakes[i]).staked_amount@
                == total_staked(synced.ids, i) by {
                lemma_total_staked_update(rolled.ids, id - 1, record.reconciled(assets), i);
                assert(rolled.stakes[i].staked_amount@ == total_staked(rolled.ids, i));
            }
        }
        assert(synced.rates_are_past()) by {
            assert forall|i: int, p: i64|
                0 <= i < synced.stakes.len() && #[trigger] synced.stakes[i].rewards.contains_key(
                    p,
                ) implies 0 <= p < synced.current_period by {
                assert(rolled.stakes[i].rewards.contains_key(p));
            }
        }
        assert(synced.assets_distinct());
    }
}

/// Whether `plan` is what closing the period of `state` at `now` takes:
/// a plan that closes it where it has ended, none where it has not.
pub(crate) open spec fn plan_fits(plan: Option<PeriodPlan>, state: StakingView, now: Instant) -> bool {
    match plan {
        Some(plan) => plan.closes(state, now),
        None => !state.period_due(now),
    }
}

impl Staking {
    /// Creates a staking ID with nothing staked and gives its number. The
    /// first period it can claim is the one after the current one.
    pub fn create_id(&mut self) -> (r: Result<u64, StakingError>)
        requires
            old(self)@.inv(),
        ensures
            final(self)@.inv(),
            match old(self)@.create_id() {
                Ok((next, id)) => r == Ok::<u64, StakingError>(id) && final(self)@ == next,
                Err(e) => r == Err::<u64, StakingError>(e) && final(self)@ == old(self)@,
            },
    {
        if self.current_period == i64::MAX || self.ids.len() as u64 == u64::MAX {
            return Err(StakingError::Overflow);
        }
        let record = Id::fresh(self.stakes.len(), self.current_period + 1);
        self.ids.push(record);
        proof {
            let next = old(self)@.create_id().unwrap().0;
            assert(self@.ids =~= next.ids);
            assert(self@.stakes =~= next.stakes);
            lemma_create_id_keeps_inv(old(self)@);
        }
        Ok(self.ids.len() as u64)
    }

    /// Checks the staking ID's number and works out what closing the period
    /// at `now` takes, changing nothing yet. Gives the ID's place in `ids`.
    pub(crate) fn plan_indexes(&self, now: Instant, id: u64) -> (r: Result<
        (usize, Option<PeriodPlan>),
        StakingError,
    >)
        ensures
            match r {
                Ok((k, plan)) => {
                    &&& self@.has_id(id)
                    &&& k == id - 1
                    &&& plan_fits(plan, self@, now)
                    &&& self@.check_indexes(now, id) is Ok
                },
                Err(e) => self@.check_indexes(now, id) == Err::<StakingView, StakingError>(e),
            },
    {
        if id == 0 || id > self.ids.len() as u64 {
            return Err(StakingError::InvalidId);
        }
        match self.plan_period(now) {
            Err(e) => Err(e),
            Ok(plan) => Ok(((id - 1) as usize, plan)),
        }
    }

    /// Closes the period as planned and brings staking ID number `id` up to
    /// the registry.
    pub(crate) fn check_indexes(
        &mut self,
        k: usize,
        plan: &Option<PeriodPlan>,
        Ghost(now): Ghost<Instant>,
        Ghost(id): Ghost<u64>,
    )
        requires
            old(self)@.has_id(id),
            k == id - 1,
            plan_fits(*plan, old(self)@, now),
        ensures
            old(self)@.check_indexes(now, id) == Ok::<StakingView, StakingError>(final(self)@),
    {
        if let Some(plan) = plan {
            self.apply_period(plan, Ghost(now));
        }
        let assets = self.stakes.len();
        self.ids[k].reconcile(assets);
        proof {
            let synced = old(self)@.check_indexes(now, id).unwrap();
            assert(self@.ids =~= synced.ids);
            assert(self@.stakes =~= synced.stakes);
        }
    }
}

/// A stake keeps what always holds of the engine.
pub proof fn lemma_stake_into_keeps_inv(
    state: StakingView,
    id: u64,
    address: ResourceAddress,
    stake_bucket: Option<Bucket>,
    receipt: Option<u64>,
)
    requires
        state.inv(),
        state.has_id(id),
        state.id(id).assets() == state.stakes.len(),
    ensures
        state.stake_into(id, address, stake_bucket, receipt) matches Ok(next) ==> next.inv(),
{
    if let Ok(next) = state.stake_into(id, address, stake_bucket, receipt) {
        let index = state.index_of(address);
        let amount = state.stake_amount(stake_bucket, receipt);
        lemma_stake_change_keeps_inv(state, id, index, amount);
        let credited = state.with_stake_change(id, index, amount);
        let record = credited.id(id).with_next_period((state.current_period + 1) as i64);
        assert(credited.id(id) == credited.ids[id - 1]);
        lemma_with_id_keeps_inv(credited, id, record);
        let marked = credited.with_id(id, record);
        assert(next.ids == marked.ids);
        assert(next.stakes == marked.stakes);
        assert(next.current_period == marked.current_period);
    }
}

/// What a stake will set, worked out before anything is changed.
pub(crate) struct StakePlan {
    pub(crate) k: usize,
    pub(crate) period: Option<PeriodPlan>,
    pub(crate) index: usize,
    pub(crate) staked: Decimal,
    pub(crate) total: Decimal,
    pub(crate) next_period: i64,
}

impl Staking {
    /// Checks a stake and works out what it will set, changing nothing yet.
    pub(crate) fn plan_stake(
        &self,
        now: Instant,
        id: u64,
        address: ResourceAddress,
        stake_bucket: Option<Bucket>,
        stake_transfer_receipt: Option<u64>,
    ) -> (r: Result<StakePlan, StakingError>)
        requires
            self@.inv(),
        ensures
            match r {
                Ok(plan) => {
                    &&& self@.has_id(id)
                    &&& plan.k == id - 1
                    &&& plan_fits(plan.period, self@, now)
                    &&& self@.check_indexes(now, id) matches Ok(synced) && {
                        let amount = synced.stake_amount(stake_bucket, stake_transfer_receipt);
                        &&& synced.stake_into(id, address, stake_bucket, stake_transfer_receipt) is Ok
                        &&& plan.index == synced.index_of(address)
                        &&& plan.staked@ == synced.id(id).amounts_staked[plan.index as int]@
                            + amount
                        &&& plan.total@ == synced.stakes[plan.index as int].staked_amount@ + amount
                        &&& plan.next_period == synced.current_period + 1
                    }
                },
                Err(e) => self@.stake(now, id, address, stake_bucket, stake_transfer_receipt)
                    == Err::<StakingView, StakingError>(e),
            },
    {
        let (k, period_plan) = match self.plan_indexes(now, id) {
            Err(e) => return Err(e),
            Ok(entry) => entry,
        };
        let ghost synced = self@.check_indexes(now, id).unwrap();
        proof {
            lemma_check_indexes(self@, now, id);
            lemma_reconciled(self@.id(id), self@.stakes.len());
        }
        let index = match self.index_of(&address) {
            None => {
                assert(!synced.is_stakable(address));
                return Err(StakingError::NotStakable);
            },
            Some(index) => index,
        };
        proof {
            lemma_index_of(synced, address, index as int);
        }
        let period: i64 = if period_plan.is_some() {
            self.current_period + 1
        } else {
            self.current_period
        };
        assert(period == synced.current_period);
        if self.ids[k].next_period < period {
            return Err(StakingError::UnclaimedRewards);
        }
        let mut amount = Decimal::zero();
        if let Some(funds) = stake_bucket {
            if !funds.address.same(&address) {
                return Err(StakingError::WrongToken);
            }
            amount = funds.amount;
        }
        if let Some(receipt) = stake_transfer_receipt {
            if receipt == 0 || receipt > self.stake_transfer_receipts.len() as u64 {
                return Err(StakingError::InvalidReceipt);
            }
            match self.stake_transfer_receipts[(receipt - 1) as usize] {
                None => return Err(StakingError::InvalidReceipt),
                Some(data) => {
                    if !data.address.same(&address) {
                        return Err(StakingError::ReceiptMismatch);
                    }
                    amount = match checked_add(amount, data.amount) {
                        None => return Err(StakingError::Overflow),
                        Some(sum) => sum,
                    };
                },
            }
        }
        assert(amount@ == synced.stake_amount(stake_bucket, stake_transfer_receipt));
        let staked = self.ids[k].staked_at(index);
        assert(staked == synced.id(id).amounts_staked[index as int]);
        let staked = match checked_add(staked, amount) {
            None => return Err(StakingError::Overflow),
            Some(sum) => sum,
        };
        let total = match checked_add(self.stakes[index].staked_amount, amount) {
            None => return Err(StakingError::Overflow),
            Some(sum) => sum,
        };
        if period == i64::MAX {
            return Err(StakingError::Overflow);
        }
        Ok(StakePlan { k, period: period_plan, index, staked, total, next_period: period + 1 })
    }

    /// Stakes into staking ID number `id` at `now`: the funds in
    /// `stake_bucket`, the amount of stake transfer receipt number
    /// `stake_transfer_receipt`, or both.
    pub fn stake(
        &mut self,
        now: Instant,
        id: u64,
        address: ResourceAddress,
        stake_bucket: Option<Bucket>,
        stake_transfer_receipt: Option<u64>,
    ) -> (r: Result<(), StakingError>)
        requires
            old(self)@.inv(),
        ensures
            final(self)@.inv(),
            match old(self)@.stake(now, id, address, stake_bucket, stake_transfer_receipt) {
                Ok(next) => r is Ok && final(self)@ == next,
                Err(e) => r == Err::<(), StakingError>(e) && final(self)@ == old(self)@,
            },
    {
        let plan = match self.plan_stake(now, id, address, stake_bucket, stake_transfer_receipt) {
            Err(e) => return Err(e),
            Ok(plan) => plan,
        };
        let ghost synced = self@.check_indexes(now, id).unwrap();
        let ghost amount = synced.stake_amount(stake_bucket, stake_transfer_receipt);
        proof {
            lemma_check_indexes(self@, now, id);
            lemma_stake_into_keeps_inv(synced, id, address, stake_bucket, stake_transfer_receipt);
        }
        self.check_indexes(plan.k, &plan.period, Ghost(now), Ghost(id));
        self.set_stake(plan.k, plan.index, plan.staked, plan.total, Ghost(id), Ghost(amount));
        self.set_next_period(plan.k, plan.next_period, Ghost(id));
        self.redeem_transfer_receipt(stake_transfer_receipt);
        Ok(())
    }
}

/// A new staking ID keeps what always holds of the engine.
pub proof fn lemma_create_id_keeps_inv(state: StakingView)
    requires
        state.inv(),
    ensures
        state.create_id() matches Ok((next, id)) ==> next.inv() && next.has_id(id),
{
    if let Ok((next, id)) = state.create_id() {
        let record = IdView::fresh(state.stakes.len(), (state.current_period + 1) as i64);
        assert(next.ids_fit()) by {
            assert forall|k: int| 0 <= k < next.ids.len() implies (#[trigger] next.ids[k]).aligned()
                && next.ids[k].assets() <= next.stakes.len() by {
                if k < state.ids.len() {
                    assert(next.ids[k] == state.ids[k]);
                }
            }
        }
        assert(next.conserved()) by {
            assert forall|i: int| 0 <= i < next.stakes.len() implies (#[trigger] next.stakes[i]).staked_amount@
                == total_staked(next.ids, i) by {
                lemma_total_staked_push(state.ids, record, i);
                assert(state.stakes[i].staked_amount@ == total_staked(state.ids, i));
            }
        }
    }
}

} // verus!

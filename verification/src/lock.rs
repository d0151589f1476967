//! Locking stake: by its holder, for a bonus, and by the controller under
//! DAO control.

use vstd::prelude::*;
use crate::address::ResourceAddress;
use crate::claim::lemma_paid_keeps_inv;
use crate::decimal::{
    checked_mul, checked_sub, decimal_of, lemma_decimal_of_view, narrowable, product_subunits,
    Decimal,
};
use crate::period::PeriodPlan;
use crate::position::{lemma_check_indexes, plan_fits};
use crate::records::{lemma_reconciled, StakingError};
use crate::state::{lemma_index_of, lemma_with_id_keeps_inv, Staking, StakingView};
use crate::time::{add_days, days_later, Instant};

verus! {

impl StakingView {
    /// Subunits of bonus for locking what staking ID number `id` holds of
    /// the asset at `index`: the asset's lock payment times the stake.
    pub open spec fn lock_bonus(self, id: u64, index: int) -> int {
        product_subunits(self.stakes[index].lock.payment@, self.id(id).amounts_staked[index]@)
    }

    /// A lock by a staking ID that is up to date. It is refused where the
    /// asset is not registered, where it is under a lock that has not ended,
    /// and where the pool cannot pay the bonus. Else the asset is locked for
    /// the asset's lock duration from `now`, and the bonus leaves the pool.
    pub open spec fn lock(self, now: Instant, id: u64, address: ResourceAddress) -> Result<
        (StakingView, Decimal),
        StakingError,
    > {
        let index = self.index_of(address);
        let until = days_later(now, self.stakes[index].lock.duration as int);
        let bonus = self.lock_bonus(id, index);
        if !self.is_stakable(address) {
            Err(StakingError::NotStakable)
        } else if self.id(id).locked_at(index, now) {
            Err(StakingError::Locked)
        } else if until is None || !narrowable(bonus) {
            Err(StakingError::Overflow)
        } else if !self.pool_pays(bonus) {
            Err(StakingError::InsufficientRewards)
        } else {
            Ok(
                (
                    self.with_id(id, self.id(id).with_lock(index, until.unwrap())).paid(bonus),
                    decimal_of(bonus),
                ),
            )
        }
    }

    /// Locks at `now`: the staking ID is brought up to date, then the lock
    /// is made.
    pub open spec fn lock_stake(self, now: Instant, id: u64, address: ResourceAddress) -> Result<
        (StakingView, Decimal),
        StakingError,
    > {
        match self.check_indexes(now, id) {
            Err(e) => Err(e),
            Ok(synced) => synced.lock(now, id, address),
        }
    }

    /// A lock set by the controller: refused unless the engine is under DAO
    /// control, and where the staking ID or the asset does not exist or the
    /// staking ID has no entry for the asset yet. Else the asset is locked
    /// in the staking ID until `lock_until`, whatever lock it was under.
    pub open spec fn set_lock(self, address: ResourceAddress, lock_until: Instant, id: u64) -> Result<
        StakingView,
        StakingError,
    > {
        let index = self.index_of(address);
        if !self.dao_controlled {
            Err(StakingError::NotDaoControlled)
        } else if !self.has_id(id) {
            Err(StakingError::InvalidId)
        } else if !self.is_stakable(address) {
            Err(StakingError::NotStakable)
        } else if index >= self.id(id).locked_until.len() {
            Err(StakingError::StalePosition)
        } else {
            Ok(self.with_id(id, self.id(id).with_lock(index, lock_until)))
        }
    }
}

/// A lock by its holder keeps what always holds of the engine.
pub proof fn lemma_lock_keeps_inv(state: StakingView, now: Instant, id: u64, address: ResourceAddress)
    requires
        state.inv(),
        state.has_id(id),
        state.id(id).assets() == state.stakes.len(),
    ensures
        state.lock(now, id, address) matches Ok((next, bonus)) ==> next.inv(),
{
    if let Ok((next, bonus)) = state.lock(now, id, address) {
        let index = state.index_of(address);
        let until = days_later(now, state.stakes[index].lock.duration as int).unwrap();
        assert(state.id(id) == state.ids[id - 1]);
        lemma_with_id_keeps_inv(state, id, state.id(id).with_lock(index, until));
        lemma_paid_keeps_inv(
            state.with_id(id, state.id(id).with_lock(index, until)),
            state.lock_bonus(id, index),
        );
    }
}

/// A lock set by the controller keeps what always holds of the engine.
pub proof fn lemma_set_lock_keeps_inv(
    state: StakingView,
    address: ResourceAddress,
    lock_until: Instant,
    id: u64,
)
    requires
        state.inv(),
    ensures
        state.set_lock(address, lock_until, id) matches Ok(next) ==> next.inv(),
{
    if let Ok(next) = state.set_lock(address, lock_until, id) {
        let index = state.index_of(address);
        assert(state.id(id) == state.ids[id - 1]);
        lemma_with_id_keeps_inv(state, id, state.id(id).with_lock(index, lock_until));
    }
}

/// What a lock will set and pay, worked out before anything is changed.
pub(crate) struct LockPlan {
    pub(crate) k: usize,
    pub(crate) period: Option<PeriodPlan>,
    pub(crate) index: usize,
    pub(crate) until: Instant,
    pub(crate) bonus: Decimal,
    pub(crate) left: Decimal,
}

impl Staking {
    /// Checks a lock and works out what it will set and pay, changing
    /// nothing yet.
    pub(crate) fn plan_lock(&self, now: Instant, id: u64, address: ResourceAddress) -> (r: Result<
        LockPlan,
        StakingError,
    >)
        requires
            self@.inv(),
        ensures
            match r {
                Ok(plan) => {
                    &&& self@.has_id(id)
                    &&& plan.k == id - 1
                    &&& plan_fits(plan.period, self@, now)
                    &&& self@.check_indexes(now, id) matches Ok(synced) && {
                        &&& synced.lock(now, id, address) is Ok
                        &&& plan.index == synced.index_of(address)
                        &&& Some(plan.until) == days_later(
                            now,
                            synced.stakes[plan.index as int].lock.duration as int,
                        )
                        &&& plan.bonus@ == synced.lock_bonus(id, plan.index as int)
                        &&& plan.left@ == synced.reward_vault@ - plan.bonus@
                    }
                },
                Err(e) => self@.lock_stake(now, id, address) == Err::<
                    (StakingView, Decimal),
                    StakingError,
                >(e),
            },
    {
        let (k, period_plan) = match self.plan_indexes(now, id) {
            Err(e) => return Err(e),
            Ok(entry) => entry,
        };
        let ghost synced = self@.check_indexes(now, id).unwrap();
        proof {
            lemma_check_indexes(self@, now, id);
            lemma_reconciled(self@.id(id), self@.stakes.len());
        }
        let index = match self.index_of(&address) {
            None => {
                assert(!synced.is_stakable(address));
                return Err(StakingError::NotStakable);
            },
            Some(index) => index,
        };
        proof {
            lemma_index_of(synced, address, index as int);
        }
        if let Some(until) = self.ids[k].locked_until_at(index) {
            if !now.is_at_or_after(&until) {
                return Err(StakingError::Locked);
            }
        }
        assert(!synced.id(id).locked_at(index as int, now));
        let until = match add_days(now, self.stakes[index].lock.duration) {
            None => return Err(StakingError::Overflow),
            Some(until) => until,
        };
        let staked = self.ids[k].staked_at(index);
        assert(staked == synced.id(id).amounts_staked[index as int]);
        let bonus = match checked_mul(self.stakes[index].lock.payment, staked) {
            None => return Err(StakingError::Overflow),
            Some(bonus) => bonus,
        };
        if bonus.is_negative() || self.reward_vault.less_than(&bonus) {
            return Err(StakingError::InsufficientRewards);
        }
        match checked_sub(self.reward_vault, bonus) {
            None => Err(StakingError::Overflow),
            Some(left) => Ok(LockPlan { k, period: period_plan, index, until, bonus, left }),
        }
    }

    /// Locks what staking ID number `id` holds of `address`, for the asset's
    /// lock duration from `now`, and gives the bonus that the reward pool
    /// pays for it.
    pub fn lock_stake(&mut self, now: Instant, id: u64, address: ResourceAddress) -> (r: Result<
        Decimal,
        StakingError,
    >)
        requires
            old(self)@.inv(),
        ensures
            final(self)@.inv(),
            match old(self)@.lock_stake(now, id, address) {
                Ok((next, bonus)) => r == Ok::<Decimal, StakingError>(bonus) && final(self)@
                    == next,
                Err(e) => r == Err::<Decimal, StakingError>(e) && final(self)@ == old(self)@,
            },
    {
        let plan = match self.plan_lock(now, id, address) {
            Err(e) => return Err(e),
            Ok(plan) => plan,
        };
        let ghost synced = self@.check_indexes(now, id).unwrap();
        proof {
            lemma_check_indexes(self@, now, id);
            lemma_lock_keeps_inv(synced, now, id, address);
            lemma_decimal_of_view(plan.bonus);
            lemma_decimal_of_view(plan.left);
        }
        self.check_indexes(plan.k, &plan.period, Ghost(now), Ghost(id));
        self.set_locked_until(plan.k, plan.index, plan.until, Ghost(id));
        self.set_reward_vault(plan.left);
        Ok(plan.bonus)
    }

    /// Locks what staking ID number `id` holds of `address` until
    /// `lock_until`, on the controller's word. Only under DAO control.
    pub fn set_lock(&mut self, address: ResourceAddress, lock_until: Instant, id: u64) -> (r: Result<
        (),
        StakingError,
    >)
        requires
            old(self)@.inv(),
        ensures
            final(self)@.inv(),
            match old(self)@.set_lock(address, lock_until, id) {
                Ok(next) => r is Ok && final(self)@ == next,
                Err(e) => r == Err::<(), StakingError>(e) && final(self)@ == old(self)@,
            },
    {
        if !self.dao_controlled {
            return Err(StakingError::NotDaoControlled);
        }
        if id == 0 || id > self.ids.len() as u64 {
            return Err(StakingError::InvalidId);
        }
        let k = (id - 1) as usize;
        let index = match self.index_of(&address) {
            None => return Err(StakingError::NotStakable),
            Some(index) => index,
        };
        if index >= self.ids[k].locked_until.len() {
            return Err(StakingError::StalePosition);
        }
        proof {
            lemma_set_lock_keeps_inv(self@, address, lock_until, id);
        }
        self.set_locked_until(k, index, lock_until, Ghost(id));
        Ok(())
    }
}

} // verus!

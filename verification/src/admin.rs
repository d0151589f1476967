//! What the controller of the engine sets: the period and delay settings,
//! the reward pool, and the registry of stakable assets.

use vstd::prelude::*;
use std::collections::HashMap;
use crate::address::ResourceAddress;
use crate::decimal::{
    checked_add, checked_sub, decimal_zero, lemma_decimal_of_view, representable, Decimal,
};
use crate::records::{Bucket, Lock, StakableUnit, StakableUnitView, StakingError};
use crate::state::{lemma_total_staked_unknown, total_staked, Staking, StakingView};
use crate::time::Instant;

verus! {

impl StakableUnitView {
    /// A newly registered asset: nothing staked, no rate recorded.
    pub open spec fn fresh(address: ResourceAddress, reward_amount: Decimal, lock: Lock) -> StakableUnitView {
        StakableUnitView {
            address,
            staked_amount: decimal_zero(),
            reward_amount,
            lock,
            rewards: Map::empty(),
        }
    }

    /// The asset with other reward and lock terms.
    pub open spec fn with_terms(self, reward_amount: Decimal, lock: Lock) -> StakableUnitView {
        StakableUnitView { reward_amount, lock, ..self }
    }
}

impl StakingView {
    /// The engine with `new_interval` days between period boundaries, from
    /// the next boundary on.
    pub open spec fn set_period_interval(self, new_interval: i64) -> StakingView {
        StakingView { period_interval: new_interval, ..self }
    }

    /// The engine with claims paying for at most `new_delay` periods.
    pub open spec fn set_max_claim_delay(self, new_delay: i64) -> StakingView {
        StakingView { max_claim_delay: new_delay, ..self }
    }

    /// Sets the unstake delay; refused above the maximum.
    pub open spec fn set_unstake_delay(self, new_delay: i64) -> Result<StakingView, StakingError> {
        if new_delay > self.max_unstaking_delay {
            Err(StakingError::DelayTooLong)
        } else {
            Ok(StakingView { unstake_delay: new_delay, ..self })
        }
    }

    /// The engine with the current period ending at `now`.
    pub open spec fn set_next_period_to_now(self, now: Instant) -> StakingView {
        StakingView { next_period: now, ..self }
    }

    /// Adds funds to the reward pool; refused for funds of another asset.
    pub open spec fn fill_rewards(self, bucket: Bucket) -> Result<StakingView, StakingError> {
        if bucket.address != self.reward_address {
            Err(StakingError::WrongToken)
        } else if !representable(self.reward_vault@ + bucket.amount@) {
            Err(StakingError::Overflow)
        } else {
            Ok(self.paid(-bucket.amount@))
        }
    }

    /// Takes `amount` out of the reward pool; refused where the pool cannot
    /// pay it.
    pub open spec fn remove_rewards(self, amount: Decimal) -> Result<
        (StakingView, Bucket),
        StakingError,
    > {
        if !self.pool_pays(amount@) {
            Err(StakingError::InsufficientRewards)
        } else {
            Ok((self.paid(amount@), Bucket { address: self.reward_address, amount }))
        }
    }

    /// Sets the reward per period of a registered asset, for the periods
    /// that have not ended.
    pub open spec fn set_rewards(self, address: ResourceAddress, reward: Decimal) -> Result<
        StakingView,
        StakingError,
    > {
        let index = self.index_of(address);
        if !self.is_stakable(address) {
            Err(StakingError::NotStakable)
        } else {
            Ok(self.with_stake(index, self.stakes[index].with_terms(reward, self.stakes[index].lock)))
        }
    }

    /// Registers an asset as stakable, after those registered before;
    /// refused for an asset that is registered already.
    pub open spec fn add_stakable(
        self,
        address: ResourceAddress,
        reward_amount: Decimal,
        lock: Lock,
    ) -> Result<StakingView, StakingError> {
        if self.is_stakable(address) {
            Err(StakingError::AlreadyStakable)
        } else {
            Ok(
                StakingView {
                    stakes: self.stakes.push(StakableUnitView::fresh(address, reward_amount, lock)),
                    ..self
                },
            )
        }
    }

    /// Sets the reward per period and the lock terms of a registered asset,
    /// for the periods that have not ended and the locks not yet made.
    pub open spec fn edit_stakable(
        self,
        address: ResourceAddress,
        reward_amount: Decimal,
        lock: Lock,
    ) -> Result<StakingView, StakingError> {
        let index = self.index_of(address);
        if !self.is_stakable(address) {
            Err(StakingError::NotStakable)
        } else {
            Ok(self.with_stake(index, self.stakes[index].with_terms(reward_amount, lock)))
        }
    }
}

/// Other reward and lock terms for an asset keep what always holds of the
/// engine.
pub proof fn lemma_terms_keep_inv(state: StakingView, index: int, reward_amount: Decimal, lock: Lock)
    requires
        state.inv(),
        0 <= index < state.stakes.len(),
    ensures
        state.with_stake(index, state.stakes[index].with_terms(reward_amount, lock)).inv(),
{
    let next = state.with_stake(index, state.stakes[index].with_terms(reward_amount, lock));
    assert(next.ids == state.ids);
    assert(next.conserved()) by {
        assert forall|i: int| 0 <= i < next.stakes.len() implies (#[trigger] next.stakes[i]).staked_amount@
            == total_staked(next.ids, i) by {
            assert(state.stakes[i].staked_amount@ == total_staked(state.ids, i));
        }
    }
    assert(next.rates_are_past()) by {
        assert forall|i: int, p: i64|
            0 <= i < next.stakes.len() && #[trigger] next.stakes[i].rewards.contains_key(
                p,
            ) implies 0 <= p < next.current_period by {
            assert(state.stakes[i].rewards.contains_key(p));
        }
    }
    assert(next.assets_distinct()) by {
        assert forall|i: int, j: int| 0 <= i < j < next.stakes.len() implies (#[trigger] next.stakes[i]).address
            != (#[trigger] next.stakes[j]).address by {
            assert(state.stakes[i].address != state.stakes[j].address);
        }
    }
}

/// A further asset keeps what always holds of the engine.
pub proof fn lemma_add_stakable_keeps_inv(
    state: StakingView,
    address: ResourceAddress,
    reward_amount: Decimal,
    lock: Lock,
)
    requires
        state.inv(),
    ensures
        state.add_stakable(address, reward_amount, lock) matches Ok(next) ==> next.inv(),
{
    if let Ok(next) = state.add_stakable(address, reward_amount, lock) {
        let assets = state.stakes.len() as int;
        assert(next.ids == state.ids);
        assert(next.conserved()) by {
            assert forall|i: int| 0 <= i < next.stakes.len() implies (#[trigger] next.stakes[i]).staked_amount@
                == total_staked(next.ids, i) by {
                if i < assets {
                    assert(next.stakes[i] == state.stakes[i]);
                    assert(state.stakes[i].staked_amount@ == total_staked(state.ids, i));
                } else {
                    lemma_total_staked_unknown(state.ids, assets);
                }
            }
        }
        assert(next.rates_are_past()) by {
            assert forall|i: int, p: i64|
                0 <= i < next.stakes.len() && #[trigger] next.stakes[i].rewards.contains_key(
                    p,
                ) implies 0 <= p < next.current_period by {
                if i < assets {
                    assert(next.stakes[i] == state.stakes[i]);
                    assert(state.stakes[i].rewards.contains_key(p));
                }
            }
        }
        assert(next.assets_distinct()) by {
            assert forall|i: int, j: int| 0 <= i < j < next.stakes.len() implies (#[trigger] next.stakes[i]).address
                != (#[trigger] next.stakes[j]).address by {
                assert(next.stakes[i] == state.stakes[i]);
                if j < assets {
                    assert(next.stakes[j] == state.stakes[j]);
                    assert(state.stakes[i].address != state.stakes[j].address);
                }
            }
        }
        assert(next.ids_fit());
    }
}

impl Staking {
    /// Sets the number of days between period boundaries, from the next
    /// boundary on.
    pub fn set_period_interval(&mut self, new_interval: i64)
        requires
            old(self)@.inv(),
        ensures
            final(self)@.inv(),
            final(self)@ == old(self)@.set_period_interval(new_interval),
    {
        self.period_interval = new_interval;
        proof {
            let next = old(self)@.set_period_interval(new_interval);
            assert(self@.ids =~~= next.ids);
            assert(self@.stakes =~~= next.stakes);
        }
    }

    /// Adds the funds in `bucket` to the reward pool.
    pub fn fill_rewards(&mut self, bucket: Bucket) -> (r: Result<(), StakingError>)
        requires
            old(self)@.inv(),
        ensures
            final(self)@.inv(),
            match old(self)@.fill_rewards(bucket) {
                Ok(next) => r is Ok && final(self)@ == next,
                Err(e) => r == Err::<(), StakingError>(e) && final(self)@ == old(self)@,
            },
    {
        if !bucket.address.same(&self.reward_address) {
            return Err(StakingError::WrongToken);
        }
        match checked_add(self.reward_vault, bucket.amount) {
            None => Err(StakingError::Overflow),
            Some(sum) => {
                proof {
                    lemma_decimal_of_view(sum);
                }
                self.set_reward_vault(sum);
                Ok(())
            },
        }
    }

    /// Takes `amount` out of the reward pool and gives the funds.
    pub fn remove_rewards(&mut self, amount: Decimal) -> (r: Result<Bucket, StakingError>)
        requires
            old(self)@.inv(),
        ensures
            final(self)@.inv(),
            match old(self)@.remove_rewards(amount) {
                Ok((next, funds)) => r == Ok::<Bucket, StakingError>(funds) && final(self)@ == next,
                Err(e) => r == Err::<Bucket, StakingError>(e) && final(self)@ == old(self)@,
            },
    {
        if amount.is_negative() || self.reward_vault.less_than(&amount) {
            return Err(StakingError::InsufficientRewards);
        }
        match checked_sub(self.reward_vault, amount) {
            None => Err(StakingError::Overflow),
            Some(left) => {
                proof {
                    lemma_decimal_of_view(left);
                }
                self.set_reward_vault(left);
                Ok(Bucket { address: self.reward_address, amount })
            },
        }
    }

    /// Sets the most periods that one claim pays for.
    pub fn set_max_claim_delay(&mut self, new_delay: i64)
        requires
            old(self)@.inv(),
        ensures
            final(self)@.inv(),
            final(self)@ == old(self)@.set_max_claim_delay(new_delay),
    {
        self.max_claim_delay = new_delay;
        proof {
            let next = old(self)@.set_max_claim_delay(new_delay);
            assert(self@.ids =~~= next.ids);
            assert(self@.stakes =~~= next.stakes);
        }
    }

    /// Sets the number of days between an unstake request and its
    /// redemption, for the requests made from now on.
    pub fn set_unstake_delay(&mut self, new_delay: i64) -> (r: Result<(), StakingError>)
        requires
            old(self)@.inv(),
        ensures
            final(self)@.inv(),
            match old(self)@.set_unstake_delay(new_delay) {
                Ok(next) => r is Ok && final(self)@ == next,
                Err(e) => r == Err::<(), StakingError>(e) && final(self)@ == old(self)@,
            },
    {
        if new_delay > self.max_unstaking_delay {
            return Err(StakingError::DelayTooLong);
        }
        self.unstake_delay = new_delay;
        proof {
            let next = old(self)@.set_unstake_delay(new_delay).unwrap();
            assert(self@.ids =~~= next.ids);
            assert(self@.stakes =~~= next.stakes);
        }
        Ok(())
    }

    /// Sets the reward per period of the asset `address`.
    pub fn set_rewards(&mut self, address: ResourceAddress, reward: Decimal) -> (r: Result<
        (),
        StakingError,
    >)
        requires
            old(self)@.inv(),
        ensures
            final(self)@.inv(),
            match old(self)@.set_rewards(address, reward) {
                Ok(next) => r is Ok && final(self)@ == next,
                Err(e) => r == Err::<(), StakingError>(e) && final(self)@ == old(self)@,
            },
    {
        let index = match self.index_of(&address) {
            None => return Err(StakingError::NotStakable),
            Some(index) => index,
        };
        self.stakes[index].reward_amount = reward;
        proof {
            let next = old(self)@.set_rewards(address, reward).unwrap();
            assert(self@.ids =~~= next.ids);
            assert(self@.stakes =~~= next.stakes);
            lemma_terms_keep_inv(
                old(self)@,
                index as int,
                reward,
                old(self)@.stakes[index as int].lock,
            );
        }
        Ok(())
    }

    /// Registers the asset `address` as stakable, with its reward per period
    /// and its lock terms.
    pub fn add_stakable(&mut self, address: ResourceAddress, reward_amount: Decimal, lock: Lock) -> (r:
        Result<(), StakingError>)
        requires
            old(self)@.inv(),
        ensures
            final(self)@.inv(),
            match old(self)@.add_stakable(address, reward_amount, lock) {
                Ok(next) => r is Ok && final(self)@ == next,
                Err(e) => r == Err::<(), StakingError>(e) && final(self)@ == old(self)@,
            },
    {
        if self.index_of(&address).is_some() {
            return Err(StakingError::AlreadyStakable);
        }
        self.stakes.push(
            StakableUnit {
                address,
                staked_amount: Decimal::zero(),
                reward_amount,
                lock,
                rewards: HashMap::new(),
            },
        );
        proof {
            let next = old(self)@.add_stakable(address, reward_amount, lock).unwrap();
            assert(self@.ids =~~= next.ids);
            assert(self@.stakes =~~= next.stakes);
            lemma_add_stakable_keeps_inv(old(self)@, address, reward_amount, lock);
        }
        Ok(())
    }

    /// Sets the reward per period and the lock terms of the asset `address`.
    pub fn edit_stakable(&mut self, address: ResourceAddress, reward_amount: Decimal, lock: Lock) -> (r:
        Result<(), StakingError>)
        requires
            old(self)@.inv(),
        ensures
            final(self)@.inv(),
            match old(self)@.edit_stakable(address, reward_amount, lock) {
                Ok(next) => r is Ok && final(self)@ == next,
                Err(e) => r == Err::<(), StakingError>(e) && final(self)@ == old(self)@,
            },
    {
        let index = match self.index_of(&address) {
            None => return Err(StakingError::NotStakable),
            Some(index) => index,
        };
        self.stakes[index].reward_amount = reward_amount;
        self.stakes[index].lock = lock;
        proof {
            let next = old(self)@.edit_stakable(address, reward_amount, lock).unwrap();
            assert(self@.ids =~~= next.ids);
            assert(self@.stakes =~~= next.stakes);
            lemma_terms_keep_inv(old(self)@, index as int, reward_amount, lock);
        }
        Ok(())
    }

    /// Lets the current period end at `now`.
    pub fn set_next_period_to_now(&mut self, now: Instant)
        requires
            old(self)@.inv(),
        ensures
            final(self)@.inv(),
            final(self)@ == old(self)@.set_next_period_to_now(now),
    {
        self.next_period = now;
        proof {
            let next = old(self)@.set_next_period_to_now(now);
            assert(self@.ids =~~= next.ids);
            assert(self@.stakes =~~= next.stakes);
        }
    }
}

} // verus!

//! Claiming rewards: what a staking ID is owed for the periods it has not
//! claimed, and the claim itself.

use vstd::prelude::*;
use crate::decimal::{
    checked_add, checked_mul, checked_sub, decimal_of, lemma_decimal_of_view, narrowable,
    product_subunits, representable, Decimal,
};
use crate::period::PeriodPlan;
use crate::position::{lemma_check_indexes, plan_fits};
use crate::records::{lemma_reconciled, StakableUnitView, StakingError};
use crate::state::{lemma_with_id_keeps_inv, Staking, StakingView};
use crate::time::Instant;

verus! {

/// Subunits of reward that `staked` of an asset earned in `period`: the
/// period's rate times the stake, nothing where no rate is recorded for the
/// period; `None` where the product cannot be held.
pub open spec fn period_reward(unit: StakableUnitView, period: int, staked: Decimal) -> Option<int> {
    if i64::MIN <= period <= i64::MAX && unit.rewards.contains_key(period as i64) {
        let reward = product_subunits(unit.rewards[period as i64]@, staked@);
        if narrowable(reward) {
            Some(reward)
        } else {
            None
        }
    } else {
        Some(0)
    }
}

/// `sum` and what `staked` of an asset earned in the `periods` periods
/// before `current_period`, added up from the most recent period backward;
/// `None` where a reward or a sum on the way cannot be held.
pub open spec fn asset_reward(
    sum: Option<int>,
    unit: StakableUnitView,
    staked: Decimal,
    current_period: int,
    periods: int,
) -> Option<int>
    decreases periods,
{
    if periods <= 0 {
        sum
    } else {
        match (
            asset_reward(sum, unit, staked, current_period, periods - 1),
            period_reward(unit, current_period - periods, staked),
        ) {
            (Some(before), Some(reward)) => if representable(before + reward) {
                Some(before + reward)
            } else {
                None
            },
            _ => None,
        }
    }
}

/// What the stakes `amounts` of the first `assets` assets earned in the
/// `periods` periods before `current_period`, added up asset by asset;
/// `None` where a reward or a sum on the way cannot be held.
pub open spec fn claim_reward(
    stakes: Seq<StakableUnitView>,
    amounts: Seq<Decimal>,
    current_period: int,
    periods: int,
    assets: int,
) -> Option<int>
    decreases assets,
{
    if assets <= 0 {
        Some(0)
    } else {
        asset_reward(
            claim_reward(stakes, amounts, current_period, periods, assets - 1),
            stakes[assets - 1],
            amounts[assets - 1],
            current_period,
            periods,
        )
    }
}

/// Once a sum cannot be held, no further period brings it back.
pub proof fn lemma_asset_reward_lost(
    sum: Option<int>,
    unit: StakableUnitView,
    staked: Decimal,
    current_period: int,
    done: int,
    periods: int,
)
    requires
        0 <= done <= periods,
        asset_reward(sum, unit, staked, current_period, done) is None,
    ensures
        asset_reward(sum, unit, staked, current_period, periods) is None,
    decreases periods,
{
    if done < periods {
        lemma_asset_reward_lost(sum, unit, staked, current_period, done, periods - 1);
    }
}

/// Once a sum cannot be held, no further asset brings it back.
pub proof fn lemma_claim_reward_lost(
    stakes: Seq<StakableUnitView>,
    amounts: Seq<Decimal>,
    current_period: int,
    periods: int,
    done: int,
    assets: int,
)
    requires
        0 <= done <= assets,
        claim_reward(stakes, amounts, current_period, periods, done) is None,
    ensures
        claim_reward(stakes, amounts, current_period, periods, assets) is None,
    decreases assets,
{
    if done < assets {
        lemma_claim_reward_lost(stakes, amounts, current_period, periods, done, assets - 1);
        let before = claim_reward(stakes, amounts, current_period, periods, assets - 1);
        let periods_done: int = if periods < 0 { 0 } else { periods };
        lemma_asset_reward_lost(
            before,
            stakes[assets - 1],
            amounts[assets - 1],
            current_period,
            0,
            periods_done,
        );
    }
}

impl StakingView {
    /// Number of periods that a claim of staking ID number `id` pays for:
    /// those it has not claimed, and no more than `max_claim_delay`.
    pub open spec fn claimable_periods(self, id: u64) -> int {
        let unclaimed = self.current_period - self.id(id).next_period + 1;
        if unclaimed > self.max_claim_delay {
            self.max_claim_delay as int
        } else {
            unclaimed
        }
    }

    /// What a claim of staking ID number `id` pays, in subunits.
    pub open spec fn claimable_reward(self, id: u64) -> Option<int> {
        claim_reward(
            self.stakes,
            self.id(id).amounts_staked,
            self.current_period as int,
            self.claimable_periods(id),
            self.stakes.len() as int,
        )
    }

    /// Whether the reward pool can pay `amount` subunits: the amount is not
    /// negative and the pool holds that much.
    pub open spec fn pool_pays(self, amount: int) -> bool {
        0 <= amount <= self.reward_vault@
    }

    /// The engine with `amount` subunits paid out of the reward pool.
    pub open spec fn paid(self, amount: int) -> StakingView {
        StakingView { reward_vault: decimal_of(self.reward_vault@ - amount), ..self }
    }

    /// A claim by a staking ID that is up to date. It is refused where no
    /// period is left to claim and where the pool cannot pay. Else the
    /// reward leaves the pool and the staking ID's next period to claim is
    /// the one after the current one, whatever number of periods it had left
    /// unclaimed.
    pub open spec fn claim(self, id: u64) -> Result<(StakingView, Decimal), StakingError> {
        let reward = self.claimable_reward(id);
        if self.claimable_periods(id) <= 0 {
            Err(StakingError::NothingToClaim)
        } else if reward is None || self.current_period == i64::MAX {
            Err(StakingError::Overflow)
        } else if !self.pool_pays(reward.unwrap()) {
            Err(StakingError::InsufficientRewards)
        } else {
            Ok(
                (
                    self.with_id(
                        id,
                        self.id(id).with_next_period((self.current_period + 1) as i64),
                    ).paid(reward.unwrap()),
                    decimal_of(reward.unwrap()),
                ),
            )
        }
    }

    /// Claims at `now`: the staking ID is brought up to date, then the claim
    /// is made.
    pub open spec fn update_id(self, now: Instant, id: u64) -> Result<
        (StakingView, Decimal),
        StakingError,
    > {
        match self.check_indexes(now, id) {
            Err(e) => Err(e),
            Ok(synced) => synced.claim(id),
        }
    }
}

/// A payment out of the reward pool keeps what always holds of the engine.
pub proof fn lemma_paid_keeps_inv(state: StakingView, amount: int)
    requires
        state.inv(),
    ensures
        state.paid(amount).inv(),
{
    let next = state.paid(amount);
    assert(next.ids == state.ids);
    assert(next.stakes == state.stakes);
}

/// A claim keeps what always holds of the engine.
pub proof fn lemma_claim_keeps_inv(state: StakingView, id: u64)
    requires
        state.inv(),
        state.has_id(id),
    ensures
        state.claim(id) matches Ok((next, reward)) ==> next.inv(),
{
    if let Ok((next, reward)) = state.claim(id) {
        let record = state.id(id).with_next_period((state.current_period + 1) as i64);
        assert(state.id(id) == state.ids[id - 1]);
        lemma_with_id_keeps_inv(state, id, record);
        lemma_paid_keeps_inv(state.with_id(id, record), state.claimable_reward(id).unwrap());
    }
}

/// What a claim will pay and set, worked out before anything is changed.
pub(crate) struct ClaimPlan {
    pub(crate) k: usize,
    pub(crate) period: Option<PeriodPlan>,
    pub(crate) reward: Decimal,
    pub(crate) left: Decimal,
    pub(crate) next_period: i64,
}

impl Staking {
    /// The rate of the asset at `index` for `period` as it will stand once
    /// the period is closed as planned.
    pub(crate) fn planned_rate(
        &self,
        plan: &Option<PeriodPlan>,
        index: usize,
        period: i64,
        Ghost(now): Ghost<Instant>,
    ) -> (r: Option<Decimal>)
        requires
            plan_fits(*plan, self@, now),
            self@.update_period(now) is Ok,
            index < self@.stakes.len(),
        ensures
            ({
                let rewards = self@.update_period(now).unwrap().stakes[index as int].rewards;
                r == if rewards.contains_key(period) {
                    Some(rewards[period])
                } else {
                    None
                }
            }),
    {
        if let Some(plan) = plan {
            if period == self.current_period {
                return Some(plan.rates[index]);
            }
        }
        match self.stakes[index].rewards.get(&period) {
            Some(rate) => Some(*rate),
            None => None,
        }
    }

    /// Adds up what `staked` of the asset at `index` earned in the `periods`
    /// periods before `current_period`, onto `onto`.
    pub(crate) fn add_asset_reward(
        &self,
        plan: &Option<PeriodPlan>,
        index: usize,
        staked: Decimal,
        current_period: i64,
        periods: i64,
        onto: Decimal,
        Ghost(now): Ghost<Instant>,
    ) -> (r: Option<Decimal>)
        requires
            plan_fits(*plan, self@, now),
            self@.update_period(now) is Ok,
            index < self@.stakes.len(),
            0 <= periods,
        ensures
            ({
                let unit = self@.update_period(now).unwrap().stakes[index as int];
                let total = asset_reward(
                    Some(onto@),
                    unit,
                    staked,
                    current_period as int,
                    periods as int,
                );
                match r {
                    Some(r) => total == Some(r@),
                    None => total is None,
                }
            }),
    {
        let ghost unit = self@.update_period(now).unwrap().stakes[index as int];
        let mut sum = onto;
        let mut done: i64 = 0;
        while done < periods
            invariant
                plan_fits(*plan, self@, now),
                self@.update_period(now) is Ok,
                index < self@.stakes.len(),
                unit == self@.update_period(now).unwrap().stakes[index as int],
                0 <= done <= periods,
                asset_reward(Some(onto@), unit, staked, current_period as int, done as int) == Some(
                    sum@,
                ),
            decreases periods - done,
        {
            done += 1;
            let period: i128 = current_period as i128 - done as i128;
            if period >= i64::MIN as i128 {
                if let Some(rate) = self.planned_rate(plan, index, period as i64, Ghost(now)) {
                    let reward = match checked_mul(rate, staked) {
                        None => {
                            proof {
                                assert(period_reward(unit, current_period - done, staked) is None);
                                assert(asset_reward(
                                    Some(onto@),
                                    unit,
                                    staked,
                                    current_period as int,
                                    done as int,
                                ) is None);
                                lemma_asset_reward_lost(
                                    Some(onto@),
                                    unit,
                                    staked,
                                    current_period as int,
                                    done as int,
                                    periods as int,
                                );
                            }
                            return None;
                        },
                        Some(reward) => reward,
                    };
                    sum = match checked_add(sum, reward) {
                        None => {
                            proof {
                                assert(period_reward(unit, current_period - done, staked) == Some(
                                    reward@,
                                ));
                                assert(asset_reward(
                                    Some(onto@),
                                    unit,
                                    staked,
                                    current_period as int,
                                    done as int,
                                ) is None);
                                lemma_asset_reward_lost(
                                    Some(onto@),
                                    unit,
                                    staked,
                                    current_period as int,
                                    done as int,
                                    periods as int,
                                );
                            }
                            return None;
                        },
                        Some(sum) => sum,
                    };
                }
            }
        }
        Some(sum)
    }

    /// Checks a claim and works out what it will pay and set, changing
    /// nothing yet.
    pub(crate) fn plan_claim(&self, now: Instant, id: u64) -> (r: Result<ClaimPlan, StakingError>)
        requires
            self@.inv(),
        ensures
            match r {
                Ok(plan) => {
                    &&& self@.has_id(id)
                    &&& plan.k == id - 1
                    &&& plan_fits(plan.period, self@, now)
                    &&& self@.check_indexes(now, id) matches Ok(synced) && {
                        &&& synced.claim(id) is Ok
                        &&& synced.claimable_reward(id) == Some(plan.reward@)
                        &&& plan.left@ == synced.reward_vault@ - plan.reward@
                        &&& plan.next_period == synced.current_period + 1
                    }
                },
                Err(e) => self@.update_id(now, id) == Err::<(StakingView, Decimal), StakingError>(
                    e,
                ),
            },
    {
        let (k, period_plan) = match self.plan_indexes(now, id) {
            Err(e) => return Err(e),
            Ok(entry) => entry,
        };
        let ghost synced = self@.check_indexes(now, id).unwrap();
        let ghost amounts = synced.id(id).amounts_staked;
        proof {
            lemma_check_indexes(self@, now, id);
            lemma_reconciled(self@.id(id), self@.stakes.len());
        }
        let current_period: i64 = if period_plan.is_some() {
            self.current_period + 1
        } else {
            self.current_period
        };
        assert(current_period == synced.current_period);
        let unclaimed: i128 = current_period as i128 - self.ids[k].next_period as i128 + 1;
        if unclaimed <= 0 {
            return Err(StakingError::NothingToClaim);
        }
        let periods: i64 = if unclaimed > self.max_claim_delay as i128 {
            self.max_claim_delay
        } else {
            unclaimed as i64
        };
        assert(periods == synced.claimable_periods(id));
        if periods <= 0 {
            return Err(StakingError::NothingToClaim);
        }
        let mut reward = Decimal::zero();
        let mut index: usize = 0;
        while index < self.stakes.len()
            invariant
                plan_fits(period_plan, self@, now),
                self@.update_period(now) is Ok,
                synced.stakes == self@.update_period(now).unwrap().stakes,
                synced.stakes.len() == self.stakes@.len(),
                self@.check_indexes(now, id) == Ok::<StakingView, StakingError>(synced),
                amounts == synced.id(id).amounts_staked,
                periods == synced.claimable_periods(id),
                current_period == synced.current_period,
                0 < periods,
                k < self.ids@.len(),
                forall|i: int|
                    0 <= i < self.stakes@.len() ==> #[trigger] amounts[i]@ == self.ids@[k as int]@.staked(
                        i,
                    ),
                index <= self.stakes@.len(),
                claim_reward(
                    synced.stakes,
                    amounts,
                    current_period as int,
                    periods as int,
                    index as int,
                ) == Some(reward@),
            decreases self.stakes@.len() - index,
        {
            let staked = self.ids[k].staked_at(index);
            proof {
                crate::decimal::lemma_decimal_value(staked, amounts[index as int]);
            }
            reward = match self.add_asset_reward(
                &period_plan,
                index,
                staked,
                current_period,
                periods,
                reward,
                Ghost(now),
            ) {
                None => {
                    proof {
                        lemma_claim_reward_lost(
                            synced.stakes,
                            amounts,
                            current_period as int,
                            periods as int,
                            index + 1,
                            self.stakes@.len() as int,
                        );
                    }
                    return Err(StakingError::Overflow);
                },
                Some(reward) => reward,
            };
            index += 1;
        }
        assert(synced.claimable_reward(id) == Some(reward@));
        if current_period == i64::MAX {
            return Err(StakingError::Overflow);
        }
        if reward.is_negative() || self.reward_vault.less_than(&reward) {
            return Err(StakingError::InsufficientRewards);
        }
        match checked_sub(self.reward_vault, reward) {
            None => Err(StakingError::Overflow),
            Some(left) => Ok(
                ClaimPlan {
                    k,
                    period: period_plan,
                    reward,
                    left,
                    next_period: current_period + 1,
                },
            ),
        }
    }

    /// Claims at `now` what staking ID number `id` is owed, and gives the
    /// amount that the reward pool pays.
    pub fn update_id(&mut self, now: Instant, id: u64) -> (r: Result<Decimal, StakingError>)
        requires
            old(self)@.inv(),
        ensures
            final(self)@.inv(),
            match old(self)@.update_id(now, id) {
                Ok((next, reward)) => r == Ok::<Decimal, StakingError>(reward) && final(self)@
                    == next,
                Err(e) => r == Err::<Decimal, StakingError>(e) && final(self)@ == old(self)@,
            },
    {
        let plan = match self.plan_claim(now, id) {
            Err(e) => return Err(e),
            Ok(plan) => plan,
        };
        let ghost synced = self@.check_indexes(now, id).unwrap();
        proof {
            lemma_check_indexes(self@, now, id);
            lemma_claim_keeps_inv(synced, id);
            lemma_decimal_of_view(plan.reward);
            lemma_decimal_of_view(plan.left);
        }
        self.check_indexes(plan.k, &plan.period, Ghost(now), Ghost(id));
        self.set_next_period(plan.k, plan.next_period, Ghost(id));
        self.set_reward_vault(plan.left);
        Ok(plan.reward)
    }
}

} // verus!

//! Periods: when one ends, what is recorded for it, and when the next ends.

use vstd::prelude::*;
use crate::decimal::{
    checked_div, decimal_of, decimal_zero, lemma_decimal_of_view, narrowable, quotient_subunits,
    Decimal,
};
use crate::records::{Bucket, StakableUnitView, StakingError};
use crate::state::{Staking, StakingView};
use crate::time::{add_days, days_later, Instant};

verus! {

/// The reward per staked unit that is recorded for an asset when a period
/// ends: the period's reward divided by the total staked, zero where nothing
/// is staked; `None` where the quotient cannot be held.
pub open spec fn frozen_rate(unit: StakableUnitView) -> Option<Decimal> {
    if unit.staked_amount@ > 0 {
        let rate = quotient_subunits(unit.reward_amount@, unit.staked_amount@);
        if narrowable(rate) {
            Some(decimal_of(rate))
        } else {
            None
        }
    } else {
        Some(decimal_zero())
    }
}

impl StakableUnitView {
    /// The asset with `rate` recorded for `period`.
    pub open spec fn with_rate(self, period: i64, rate: Decimal) -> StakableUnitView {
        StakableUnitView { rewards: self.rewards.insert(period, rate), ..self }
    }
}

impl StakingView {
    /// The engine right after its creation, with its first period ending at
    /// `next_period`: no assets, no staking IDs, no receipts.
    pub open spec fn initial(
        rewards: Bucket,
        period_interval: i64,
        dao_controlled: bool,
        max_unstaking_delay: i64,
        next_period: Instant,
    ) -> StakingView {
        StakingView {
            period_interval,
            next_period,
            current_period: 0,
            max_claim_delay: 5,
            max_unstaking_delay,
            unstake_delay: 7,
            dao_controlled,
            reward_address: rewards.address,
            reward_vault: rewards.amount,
            stakes: Seq::empty(),
            ids: Seq::empty(),
            unstake_receipts: Seq::empty(),
            stake_transfer_receipts: Seq::empty(),
        }
    }

    /// Whether the current period has ended at `now`.
    pub open spec fn period_due(self, now: Instant) -> bool {
        now.seconds_since_unix_epoch >= self.next_period.seconds_since_unix_epoch
    }

    /// Number of further whole intervals that have passed at `now` since the
    /// current period ended.
    pub open spec fn elapsed_periods(self, now: Instant) -> int {
        (now.seconds_since_unix_epoch - self.next_period.seconds_since_unix_epoch) / (
        self.period_interval * 86_400)
    }

    /// Whether a rate can be recorded for every asset.
    pub open spec fn rates_fit(self) -> bool {
        forall|i: int| 0 <= i < self.stakes.len() ==> frozen_rate(#[trigger] self.stakes[i]) is Some
    }

    /// The end of the period that starts when the current one is closed at
    /// `now`: the old end moved forward by one interval and by every further
    /// whole interval that has passed.
    pub open spec fn next_boundary(self, now: Instant) -> Option<Instant> {
        days_later(self.next_period, (1 + self.elapsed_periods(now)) * self.period_interval)
    }

    /// Closes the current period if it has ended at `now`: records each
    /// asset's rate for it, moves on to the next period and sets its end.
    /// Before the period's end nothing changes.
    pub open spec fn update_period(self, now: Instant) -> Result<StakingView, StakingError> {
        if !self.period_due(now) {
            Ok(self)
        } else if self.period_interval <= 0 {
            Err(StakingError::InvalidPeriodInterval)
        } else if !self.rates_fit() || self.current_period == i64::MAX
            || self.next_boundary(now) is None {
            Err(StakingError::Overflow)
        } else {
            Ok(
                StakingView {
                    current_period: (self.current_period + 1) as i64,
                    next_period: self.next_boundary(now).unwrap(),
                    stakes: Seq::new(
                        self.stakes.len(),
                        |i: int| self.stakes[i].with_rate(
                            self.current_period,
                            frozen_rate(self.stakes[i]).unwrap(),
                        ),
                    ),
                    ..self
                },
            )
        }
    }
}

/// What `update_period` will record and set, worked out before anything is
/// changed.
pub(crate) struct PeriodPlan {
    pub(crate) rates: Vec<Decimal>,
    pub(crate) boundary: Instant,
}

impl PeriodPlan {
    /// Whether the plan holds what closing the period of `state` at `now`
    /// records and sets.
    pub(crate) open spec fn closes(&self, state: StakingView, now: Instant) -> bool {
        &&& state.period_due(now)
        &&& state.period_interval > 0
        &&& state.current_period < i64::MAX
        &&& state.next_boundary(now) == Some(self.boundary)
        &&& self.rates@.len() == state.stakes.len()
        &&& forall|i: int|
            0 <= i < state.stakes.len() ==> frozen_rate(#[trigger] state.stakes[i]) == Some(
                self.rates@[i],
            )
    }
}

impl Staking {
    /// Creates the engine at `now`, with `rewards` as its reward pool. The
    /// first period ends `period_interval` days later. A claim pays for at
    /// most five periods and the unstake delay is seven days until they are
    /// set otherwise.
    pub fn new(
        rewards: Bucket,
        period_interval: i64,
        dao_controlled: bool,
        max_unstaking_delay: i64,
        now: Instant,
    ) -> (r: Result<Staking, StakingError>)
        ensures
            match days_later(now, period_interval as int) {
                Some(next_period) => r is Ok && r.unwrap()@ == StakingView::initial(
                    rewards,
                    period_interval,
                    dao_controlled,
                    max_unstaking_delay,
                    next_period,
                ) && r.unwrap()@.inv(),
                None => r == Err::<Staking, StakingError>(StakingError::Overflow),
            },
    {
        match add_days(now, period_interval) {
            None => Err(StakingError::Overflow),
            Some(next_period) => {
                let staking = Staking {
                    period_interval,
                    next_period,
                    current_period: 0,
                    max_claim_delay: 5,
                    max_unstaking_delay,
                    unstake_delay: 7,
                    dao_controlled,
                    reward_address: rewards.address,
                    reward_vault: rewards.amount,
                    stakes: Vec::new(),
                    ids: Vec::new(),
                    unstake_receipts: Vec::new(),
                    stake_transfer_receipts: Vec::new(),
                };
                proof {
                    let initial = StakingView::initial(
                        rewards,
                        period_interval,
                        dao_controlled,
                        max_unstaking_delay,
                        next_period,
                    );
                    assert(staking@.stakes =~= initial.stakes);
                    assert(staking@.ids =~= initial.ids);
                }
                Ok(staking)
            },
        }
    }

    /// Works out what closing the current period at `now` records and sets,
    /// if the period has ended.
    pub(crate) fn plan_period(&self, now: Instant) -> (r: Result<Option<PeriodPlan>, StakingError>)
        ensures
            match r {
                Ok(Some(plan)) => plan.closes(self@, now) && self@.update_period(now) is Ok,
                Ok(None) => !self@.period_due(now),
                Err(e) => self@.update_period(now) == Err::<StakingView, StakingError>(e),
            },
    {
        if !now.is_at_or_after(&self.next_period) {
            return Ok(None);
        }
        if self.period_interval <= 0 {
            return Err(StakingError::InvalidPeriodInterval);
        }
        let mut rates: Vec<Decimal> = Vec::new();
        let mut i: usize = 0;
        while i < self.stakes.len()
            invariant
                self@.period_due(now),
                self.period_interval > 0,
                i <= self.stakes@.len(),
                rates@.len() == i,
                forall|j: int|
                    0 <= j < i ==> frozen_rate(#[trigger] self@.stakes[j]) == Some(rates@[j]),
            decreases self.stakes@.len() - i,
        {
            let unit = &self.stakes[i];
            if unit.staked_amount.is_positive() {
                match checked_div(unit.reward_amount, unit.staked_amount) {
                    Some(rate) => {
                        proof {
                            lemma_decimal_of_view(rate);
                        }
                        rates.push(rate);
                    },
                    None => {
                        assert(frozen_rate(self@.stakes[i as int]) is None);
                        return Err(StakingError::Overflow);
                    },
                }
            } else {
                rates.push(Decimal::zero());
            }
            i += 1;
        }
        if self.current_period == i64::MAX {
            return Err(StakingError::Overflow);
        }
        let late: i128 = now.seconds_since_unix_epoch as i128
            - self.next_period.seconds_since_unix_epoch as i128;
        let interval: i128 = self.period_interval as i128;
        let elapsed: i128 = late / (interval * 86_400);
        assert(0 <= elapsed <= late) by (nonlinear_arith)
            requires
                0 <= late,
                interval >= 1,
                elapsed == (late as int) / (interval as int * 86_400),
        ;
        assert(0 < (1 + elapsed) * interval <= 0x1_0000_0000_0000_0000 * 0x7fff_ffff_ffff_ffff)
            by (nonlinear_arith)
            requires
                0 <= elapsed < 0x1_0000_0000_0000_0000,
                1 <= interval <= 0x7fff_ffff_ffff_ffff,
        ;
        let days: i128 = (1 + elapsed) * interval;
        if days > i64::MAX as i128 {
            return Err(StakingError::Overflow);
        }
        match add_days(self.next_period, days as i64) {
            None => Err(StakingError::Overflow),
            Some(boundary) => Ok(Some(PeriodPlan { rates, boundary })),
        }
    }

    /// Records and sets what `plan` holds.
    pub(crate) fn apply_period(&mut self, plan: &PeriodPlan, Ghost(now): Ghost<Instant>)
        requires
            plan.closes(old(self)@, now),
        ensures
            old(self)@.update_period(now) == Ok::<StakingView, StakingError>(final(self)@),
    {
        let period = self.current_period;
        let mut i: usize = 0;
        while i < self.stakes.len()
            invariant
                i <= self.stakes@.len(),
                self.stakes@.len() == old(self).stakes@.len(),
                plan.rates@.len() == self.stakes@.len(),
                period == old(self).current_period,
                forall|j: int|
                    0 <= j < i ==> (#[trigger] self.stakes@[j])@ == old(self).stakes@[j]@.with_rate(
                        period,
                        plan.rates@[j],
                    ),
                forall|j: int|
                    i <= j < self.stakes@.len() ==> (#[trigger] self.stakes@[j])@ == old(
                        self,
                    ).stakes@[j]@,
                self.period_interval == old(self).period_interval,
                self.next_period == old(self).next_period,
                self.current_period == old(self).current_period,
                self.max_claim_delay == old(self).max_claim_delay,
                self.max_unstaking_delay == old(self).max_unstaking_delay,
                self.unstake_delay == old(self).unstake_delay,
                self.dao_controlled == old(self).dao_controlled,
                self.reward_address == old(self).reward_address,
                self.reward_vault == old(self).reward_vault,
                self.ids == old(self).ids,
                self.unstake_receipts == old(self).unstake_receipts,
                self.stake_transfer_receipts == old(self).stake_transfer_receipts,
            decreases self.stakes@.len() - i,
        {
            self.stakes[i].rewards.insert(period, plan.rates[i]);
            i += 1;
        }
        self.current_period = period + 1;
        self.next_period = plan.boundary;
        proof {
            let next = old(self)@.update_period(now).unwrap();
            assert(self@.stakes =~= next.stakes);
            assert(self@.ids =~= next.ids);
        }
    }

    /// Closes the current period if it has ended at `now`: records each
    /// asset's rate for it, moves on to the next period and sets its end.
    pub fn update_period(&mut self, now: Instant) -> (r: Result<(), StakingError>)
        requires
            old(self)@.inv(),
        ensures
            final(self)@.inv(),
            match old(self)@.update_period(now) {
                Ok(next) => r is Ok && final(self)@ == next,
                Err(e) => r == Err::<(), StakingError>(e) && final(self)@ == old(self)@,
            },
    {
        match self.plan_period(now) {
            Err(e) => Err(e),
            Ok(None) => Ok(()),
            Ok(Some(plan)) => {
                self.apply_period(&plan, Ghost(now));
                proof {
                    lemma_update_period_keeps_inv(old(self)@, now);
                }
                Ok(())
            },
        }
    }
}

/// Closing a period keeps what always holds of the engine.
pub proof fn lemma_update_period_keeps_inv(state: StakingView, now: Instant)
    requires
        state.inv(),
    ensures
        state.update_period(now) matches Ok(next) ==> next.inv(),
{
    if let Ok(next) = state.update_period(now) {
        if state.period_due(now) {
            assert(next.ids == state.ids);
            assert forall|i: int| 0 <= i < next.stakes.len() implies (#[trigger] next.stakes[i]).staked_amount
                == state.stakes[i].staked_amount by {}
            assert(next.conserved());
            assert(next.rates_are_past()) by {
                assert forall|i: int, p: i64|
                    0 <= i < next.stakes.len() && #[trigger] next.stakes[i].rewards.contains_key(
                        p,
                    ) implies 0 <= p < next.current_period by {
                    if p != state.current_period {
                        assert(state.stakes[i].rewards.contains_key(p));
                    }
                }
            }
            assert(next.assets_distinct());
            assert(next.ids_fit());
        }
    }
}

} // verus!

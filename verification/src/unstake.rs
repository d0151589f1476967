//! Taking stake out: the request, which debits the staking ID at once and
//! issues a receipt, and the redemption of an unstake receipt after the
//! delay.

use vstd::prelude::*;
use crate::address::ResourceAddress;
use crate::decimal::{checked_sub, representable, Decimal};
use crate::period::PeriodPlan;
use crate::position::{lemma_check_indexes, plan_fits};
use crate::records::{
    lemma_reconciled, Bucket, IssuedReceipt, StakeTransferReceipt, StakingError, UnstakeReceipt,
};
use crate::state::{lemma_index_of, lemma_stake_change_keeps_inv, Staking, StakingView};
use crate::time::{add_days, days_later, Instant};

verus! {

impl StakingView {
    /// The amount that an unstake request is for: everything staked, or the
    /// amount named.
    pub open spec fn unstake_amount(
        self,
        id: u64,
        index: int,
        unstake_amount: Decimal,
        unstake_all: bool,
    ) -> Decimal {
        if unstake_all {
            self.id(id).amounts_staked[index]
        } else {
            unstake_amount
        }
    }

    /// An unstake request on a staking ID that is up to date. It is refused
    /// where the asset is not registered, nothing of it is staked, it is
    /// under a lock that has not ended, or more is asked for than is staked.
    /// Else the amount leaves the staking ID and the asset's total, and a
    /// receipt is issued for it: a stake transfer receipt if `stake_transfer`
    /// is set, else an unstake receipt redeemable after the unstake delay.
    pub open spec fn unstake_request(
        self,
        now: Instant,
        id: u64,
        address: ResourceAddress,
        unstake_amount: Decimal,
        unstake_all: bool,
        stake_transfer: bool,
    ) -> Result<(StakingView, IssuedReceipt), StakingError> {
        let index = self.index_of(address);
        let staked = self.id(id).amounts_staked[index];
        let amount = self.unstake_amount(id, index, unstake_amount, unstake_all);
        if !self.is_stakable(address) {
            Err(StakingError::NotStakable)
        } else if staked@ <= 0 {
            Err(StakingError::NothingStaked)
        } else if self.id(id).locked_at(index, now) {
            Err(StakingError::Locked)
        } else if amount@ > staked@ {
            Err(StakingError::ExceedsStake)
        } else if !representable(staked@ - amount@) || !representable(
            self.stakes[index].staked_amount@ - amount@,
        ) {
            Err(StakingError::Overflow)
        } else if stake_transfer {
            if self.stake_transfer_receipts.len() >= u64::MAX {
                Err(StakingError::Overflow)
            } else {
                Ok(
                    (
                        StakingView {
                            stake_transfer_receipts: self.stake_transfer_receipts.push(
                                Some(StakeTransferReceipt { address, amount }),
                            ),
                            ..self.with_stake_change(id, index, -amount@)
                        },
                        IssuedReceipt::StakeTransfer(
                            (self.stake_transfer_receipts.len() + 1) as u64,
                        ),
                    ),
                )
            }
        } else {
            match days_later(now, self.unstake_delay as int) {
                None => Err(StakingError::Overflow),
                Some(redemption_time) => if self.unstake_receipts.len() >= u64::MAX {
                    Err(StakingError::Overflow)
                } else {
                    Ok(
                        (
                            StakingView {
                                unstake_receipts: self.unstake_receipts.push(
                                    Some(UnstakeReceipt { address, amount, redemption_time }),
                                ),
                                ..self.with_stake_change(id, index, -amount@)
                            },
                            IssuedReceipt::Unstake((self.unstake_receipts.len() + 1) as u64),
                        ),
                    )
                },
            }
        }
    }

    /// Requests an unstake at `now`: the staking ID is brought up to date,
    /// then the request is made on it.
    pub open spec fn start_unstake(
        self,
        now: Instant,
        id: u64,
        address: ResourceAddress,
        unstake_amount: Decimal,
        unstake_all: bool,
        stake_transfer: bool,
    ) -> Result<(StakingView, IssuedReceipt), StakingError> {
        match self.check_indexes(now, id) {
            Err(e) => Err(e),
            Ok(synced) => synced.unstake_request(
                now,
                id,
                address,
                unstake_amount,
                unstake_all,
                stake_transfer,
            ),
        }
    }

    /// Redeems unstake receipt number `receipt` at `now`: refused for a
    /// receipt that is not outstanding and before the receipt's redemption
    /// time; else the receipt is gone and its amount is released.
    pub open spec fn finish_unstake(self, receipt: u64, now: Instant) -> Result<
        (StakingView, Bucket),
        StakingError,
    > {
        if !self.holds_unstake_receipt(receipt) {
            Err(StakingError::InvalidReceipt)
        } else {
            let data = self.unstake_receipts[receipt - 1].unwrap();
            if now.seconds_since_unix_epoch < data.redemption_time.seconds_since_unix_epoch {
                Err(StakingError::TooEarly)
            } else {
                Ok(
                    (
                        StakingView {
                            unstake_receipts: self.unstake_receipts.update(receipt - 1, None),
                            ..self
                        },
                        Bucket { address: data.address, amount: data.amount },
                    ),
                )
            }
        }
    }
}

/// An unstake request keeps what always holds of the engine.
pub proof fn lemma_unstake_request_keeps_inv(
    state: StakingView,
    now: Instant,
    id: u64,
    address: ResourceAddress,
    unstake_amount: Decimal,
    unstake_all: bool,
    stake_transfer: bool,
)
    requires
        state.inv(),
        state.has_id(id),
        state.id(id).assets() == state.stakes.len(),
    ensures
        state.unstake_request(
            now,
            id,
            address,
            unstake_amount,
            unstake_all,
            stake_transfer,
        ) matches Ok((next, receipt)) ==> next.inv(),
{
    if let Ok((next, receipt)) = state.unstake_request(
        now,
        id,
        address,
        unstake_amount,
        unstake_all,
        stake_transfer,
    ) {
        let index = state.index_of(address);
        let amount = state.unstake_amount(id, index, unstake_amount, unstake_all);
        lemma_stake_change_keeps_inv(state, id, index, -amount@);
        let debited = state.with_stake_change(id, index, -amount@);
        assert(next.ids == debited.ids);
        assert(next.stakes == debited.stakes);
        assert(next.current_period == debited.current_period);
    }
}

/// What an unstake request will set and issue, worked out before anything
/// is changed.
pub(crate) struct UnstakePlan {
    pub(crate) k: usize,
    pub(crate) period: Option<PeriodPlan>,
    pub(crate) index: usize,
    pub(crate) amount: Decimal,
    pub(crate) staked: Decimal,
    pub(crate) total: Decimal,
    pub(crate) redemption_time: Option<Instant>,
}

impl Staking {
    /// Checks an unstake request and works out what it will set and issue,
    /// changing nothing yet.
    pub(crate) fn plan_unstake(
        &self,
        now: Instant,
        id: u64,
        address: ResourceAddress,
        unstake_amount: Decimal,
        unstake_all: bool,
        stake_transfer: bool,
    ) -> (r: Result<UnstakePlan, StakingError>)
        requires
            self@.inv(),
        ensures
            match r {
                Ok(plan) => {
                    &&& self@.has_id(id)
                    &&& plan.k == id - 1
                    &&& plan_fits(plan.period, self@, now)
                    &&& self@.check_indexes(now, id) matches Ok(synced) && {
                        &&& synced.unstake_request(
                            now,
                            id,
                            address,
                            unstake_amount,
                            unstake_all,
                            stake_transfer,
                        ) is Ok
                        &&& plan.index == synced.index_of(address)
                        &&& plan.amount == synced.unstake_amount(
                            id,
                            plan.index as int,
                            unstake_amount,
                            unstake_all,
                        )
                        &&& plan.staked@ == synced.id(id).amounts_staked[plan.index as int]@
                            - plan.amount@
                        &&& plan.total@ == synced.stakes[plan.index as int].staked_amount@
                            - plan.amount@
                        &&& plan.redemption_time == if stake_transfer {
                            None
                        } else {
                            days_later(now, synced.unstake_delay as int)
                        }
                    }
                },
                Err(e) => self@.start_unstake(
                    now,
                    id,
                    address,
                    unstake_amount,
                    unstake_all,
                    stake_transfer,
                ) == Err::<(StakingView, IssuedReceipt), StakingError>(e),
            },
    {
        let (k, period_plan) = match self.plan_indexes(now, id) {
            Err(e) => return Err(e),
            Ok(entry) => entry,
        };
        let ghost synced = self@.check_indexes(now, id).unwrap();
        proof {
            lemma_check_indexes(self@, now, id);
            lemma_reconciled(self@.id(id), self@.stakes.len());
        }
        let index = match self.index_of(&address) {
            None => {
                assert(!synced.is_stakable(address));
                return Err(StakingError::NotStakable);
            },
            Some(index) => index,
        };
        proof {
            lemma_index_of(synced, address, index as int);
        }
        let staked = self.ids[k].staked_at(index);
        assert(staked == synced.id(id).amounts_staked[index as int]);
        if !staked.is_positive() {
            return Err(StakingError::NothingStaked);
        }
        if let Some(until) = self.ids[k].locked_until_at(index) {
            if !now.is_at_or_after(&until) {
                return Err(StakingError::Locked);
            }
        }
        assert(!synced.id(id).locked_at(index as int, now));
        let amount = if unstake_all {
            staked
        } else {
            unstake_amount
        };
        if staked.less_than(&amount) {
            return Err(StakingError::ExceedsStake);
        }
        let left = match checked_sub(staked, amount) {
            None => return Err(StakingError::Overflow),
            Some(left) => left,
        };
        let total_left = match checked_sub(self.stakes[index].staked_amount, amount) {
            None => return Err(StakingError::Overflow),
            Some(total_left) => total_left,
        };
        let redemption_time = if stake_transfer {
            if self.stake_transfer_receipts.len() as u64 == u64::MAX {
                return Err(StakingError::Overflow);
            }
            None
        } else {
            let redemption_time = match add_days(now, self.unstake_delay) {
                None => return Err(StakingError::Overflow),
                Some(redemption_time) => redemption_time,
            };
            if self.unstake_receipts.len() as u64 == u64::MAX {
                return Err(StakingError::Overflow);
            }
            Some(redemption_time)
        };
        Ok(
            UnstakePlan {
                k,
                period: period_plan,
                index,
                amount,
                staked: left,
                total: total_left,
                redemption_time,
            },
        )
    }

    /// Issues a stake transfer receipt and gives its number.
    pub(crate) fn issue_transfer_receipt(&mut self, receipt: StakeTransferReceipt) -> (number: u64)
        requires
            old(self)@.stake_transfer_receipts.len() < u64::MAX,
        ensures
            number == old(self)@.stake_transfer_receipts.len() + 1,
            final(self)@ == (StakingView {
                stake_transfer_receipts: old(self)@.stake_transfer_receipts.push(Some(receipt)),
                ..old(self)@
            }),
    {
        self.stake_transfer_receipts.push(Some(receipt));
        proof {
            let next = StakingView {
                stake_transfer_receipts: old(self)@.stake_transfer_receipts.push(Some(receipt)),
                ..old(self)@
            };
            assert(self@.ids =~~= next.ids);
            assert(self@.stakes =~~= next.stakes);
        }
        self.stake_transfer_receipts.len() as u64
    }

    /// Issues an unstake receipt and gives its number.
    pub(crate) fn issue_unstake_receipt(&mut self, receipt: UnstakeReceipt) -> (number: u64)
        requires
            old(self)@.unstake_receipts.len() < u64::MAX,
        ensures
            number == old(self)@.unstake_receipts.len() + 1,
            final(self)@ == (StakingView {
                unstake_receipts: old(self)@.unstake_receipts.push(Some(receipt)),
                ..old(self)@
            }),
    {
        self.unstake_receipts.push(Some(receipt));
        proof {
            let next = StakingView {
                unstake_receipts: old(self)@.unstake_receipts.push(Some(receipt)),
                ..old(self)@
            };
            assert(self@.ids =~~= next.ids);
            assert(self@.stakes =~~= next.stakes);
        }
        self.unstake_receipts.len() as u64
    }

    /// Requests an unstake of `address` from staking ID number `id` at
    /// `now`, of everything staked if `unstake_all` is set and of
    /// `unstake_amount` else, and gives the number of the receipt issued.
    pub fn start_unstake(
        &mut self,
        now: Instant,
        id: u64,
        address: ResourceAddress,
        unstake_amount: Decimal,
        unstake_all: bool,
        stake_transfer: bool,
    ) -> (r: Result<IssuedReceipt, StakingError>)
        requires
            old(self)@.inv(),
        ensures
            final(self)@.inv(),
            match old(self)@.start_unstake(
                now,
                id,
                address,
                unstake_amount,
                unstake_all,
                stake_transfer,
            ) {
                Ok((next, receipt)) => {
                    &&& r == Ok::<IssuedReceipt, StakingError>(receipt)
                    &&& final(self)@ == next
                },
                Err(e) => r == Err::<IssuedReceipt, StakingError>(e) && final(self)@ == old(self)@,
            },
    {
        let plan = match self.plan_unstake(
            now,
            id,
            address,
            unstake_amount,
            unstake_all,
            stake_transfer,
        ) {
            Err(e) => return Err(e),
            Ok(plan) => plan,
        };
        let ghost synced = self@.check_indexes(now, id).unwrap();
        proof {
            lemma_check_indexes(self@, now, id);
            lemma_unstake_request_keeps_inv(
                synced,
                now,
                id,
                address,
                unstake_amount,
                unstake_all,
                stake_transfer,
            );
        }
        self.check_indexes(plan.k, &plan.period, Ghost(now), Ghost(id));
        self.set_stake(
            plan.k,
            plan.index,
            plan.staked,
            plan.total,
            Ghost(id),
            Ghost(-plan.amount@),
        );
        match plan.redemption_time {
            None => {
                let number = self.issue_transfer_receipt(
                    StakeTransferReceipt { address, amount: plan.amount },
                );
                Ok(IssuedReceipt::StakeTransfer(number))
            },
            Some(redemption_time) => {
                let number = self.issue_unstake_receipt(
                    UnstakeReceipt { address, amount: plan.amount, redemption_time },
                );
                Ok(IssuedReceipt::Unstake(number))
            },
        }
    }

    /// Redeems unstake receipt number `receipt` at `now` and gives the
    /// funds that it releases.
    pub fn finish_unstake(&mut self, receipt: u64, now: Instant) -> (r: Result<Bucket, StakingError>)
        requires
            old(self)@.inv(),
        ensures
            final(self)@.inv(),
            match old(self)@.finish_unstake(receipt, now) {
                Ok((next, funds)) => r == Ok::<Bucket, StakingError>(funds) && final(self)@ == next,
                Err(e) => r == Err::<Bucket, StakingError>(e) && final(self)@ == old(self)@,
            },
    {
        if receipt == 0 || receipt > self.unstake_receipts.len() as u64 {
            return Err(StakingError::InvalidReceipt);
        }
        let slot = (receipt - 1) as usize;
        match self.unstake_receipts[slot] {
            None => Err(StakingError::InvalidReceipt),
            Some(data) => {
                if !now.is_at_or_after(&data.redemption_time) {
                    return Err(StakingError::TooEarly);
                }
                self.unstake_receipts[slot] = None;
                proof {
                    let next = old(self)@.finish_unstake(receipt, now).unwrap().0;
                    assert(self@.ids =~~= next.ids);
                    assert(self@.stakes =~~= next.stakes);
                }
                Ok(Bucket { address: data.address, amount: data.amount })
            },
        }
    }
}

} // verus!

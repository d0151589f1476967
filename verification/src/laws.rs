//! What holds of the engine across its operations.
//!
//! The operations are gathered in [`Operation`], so that a law can speak of
//! any one of them, and of any sequence of them. A rejected operation leaves
//! the engine as it was.

use vstd::prelude::*;
use crate::address::ResourceAddress;
use crate::admin::{lemma_add_stakable_keeps_inv, lemma_terms_keep_inv};
use crate::claim::{
    asset_reward, claim_reward, lemma_claim_keeps_inv, lemma_paid_keeps_inv, period_reward,
};
use crate::decimal::Decimal;
use crate::lock::{lemma_lock_keeps_inv, lemma_set_lock_keeps_inv};
use crate::period::lemma_update_period_keeps_inv;
use crate::position::{lemma_check_indexes, lemma_create_id_keeps_inv, lemma_stake_into_keeps_inv};
use crate::records::{
    lemma_reconciled, Bucket, IdView, IssuedReceipt, Lock, StakableUnitView, StakingError,
};
use crate::state::{total_staked, StakingView};
use crate::time::Instant;
use crate::unstake::lemma_unstake_request_keeps_inv;

verus! {

/// An operation of the engine, with its arguments.
pub enum Operation {
    UpdatePeriod { now: Instant },
    CreateId,
    Stake {
        now: Instant,
        id: u64,
        address: ResourceAddress,
        stake_bucket: Option<Bucket>,
        stake_transfer_receipt: Option<u64>,
    },
    StartUnstake {
        now: Instant,
        id: u64,
        address: ResourceAddress,
        unstake_amount: Decimal,
        unstake_all: bool,
        stake_transfer: bool,
    },
    FinishUnstake { receipt: u64, now: Instant },
    UpdateId { now: Instant, id: u64 },
    LockStake { now: Instant, id: u64, address: ResourceAddress },
    SetLock { address: ResourceAddress, lock_until: Instant, id: u64 },
    SetPeriodInterval { new_interval: i64 },
    SetMaxClaimDelay { new_delay: i64 },
    SetUnstakeDelay { new_delay: i64 },
    SetNextPeriodToNow { now: Instant },
    FillRewards { bucket: Bucket },
    RemoveRewards { amount: Decimal },
    SetRewards { address: ResourceAddress, reward: Decimal },
    AddStakable { address: ResourceAddress, reward_amount: Decimal, lock: Lock },
    EditStakable { address: ResourceAddress, reward_amount: Decimal, lock: Lock },
}

/// The engine that an operation leaves, without what the operation hands
/// out.
pub open spec fn state_of<T>(outcome: Result<(StakingView, T), StakingError>) -> Result<
    StakingView,
    StakingError,
> {
    match outcome {
        Ok((next, _)) => Ok(next),
        Err(e) => Err(e),
    }
}

impl StakingView {
    /// The engine that `op` leaves, or why `op` is rejected.
    pub open spec fn apply(self, op: Operation) -> Result<StakingView, StakingError> {
        match op {
            Operation::UpdatePeriod { now } => self.update_period(now),
            Operation::CreateId => state_of(self.create_id()),
            Operation::Stake { now, id, address, stake_bucket, stake_transfer_receipt } => self.stake(
                now,
                id,
                address,
                stake_bucket,
                stake_transfer_receipt,
            ),
            Operation::StartUnstake {
                now,
                id,
                address,
                unstake_amount,
                unstake_all,
                stake_transfer,
            } => state_of(
                self.start_unstake(now, id, address, unstake_amount, unstake_all, stake_transfer),
            ),
            Operation::FinishUnstake { receipt, now } => state_of(self.finish_unstake(receipt, now)),
            Operation::UpdateId { now, id } => state_of(self.update_id(now, id)),
            Operation::LockStake { now, id, address } => state_of(self.lock_stake(now, id, address)),
            Operation::SetLock { address, lock_until, id } => self.set_lock(address, lock_until, id),
            Operation::SetPeriodInterval { new_interval } => Ok(
                self.set_period_interval(new_interval),
            ),
            Operation::SetMaxClaimDelay { new_delay } => Ok(self.set_max_claim_delay(new_delay)),
            Operation::SetUnstakeDelay { new_delay } => self.set_unstake_delay(new_delay),
            Operation::SetNextPeriodToNow { now } => Ok(self.set_next_period_to_now(now)),
            Operation::FillRewards { bucket } => self.fill_rewards(bucket),
            Operation::RemoveRewards { amount } => state_of(self.remove_rewards(amount)),
            Operation::SetRewards { address, reward } => self.set_rewards(address, reward),
            Operation::AddStakable { address, reward_amount, lock } => self.add_stakable(
                address,
                reward_amount,
                lock,
            ),
            Operation::EditStakable { address, reward_amount, lock } => self.edit_stakable(
                address,
                reward_amount,
                lock,
            ),
        }
    }

    /// The engine after `op`: what `op` leaves, or the engine as it was
    /// where `op` is rejected.
    pub open spec fn after(self, op: Operation) -> StakingView {
        match self.apply(op) {
            Ok(next) => next,
            Err(_) => self,
        }
    }

    /// The engine after the operations `ops`, one after the other.
    pub open spec fn run(self, ops: Seq<Operation>) -> StakingView
        decreases ops.len(),
    {
        if ops.len() == 0 {
            self
        } else {
            self.run(ops.drop_last()).after(ops.last())
        }
    }

    /// Whether `self` may come after `earlier`: the period counter is not
    /// lower; every asset, staking ID and receipt of `earlier` is still
    /// there, under its number; every rate recorded in `earlier` is recorded
    /// unchanged; and every receipt redeemed in `earlier` is redeemed.
    pub open spec fn follows(self, earlier: StakingView) -> bool {
        &&& earlier.current_period <= self.current_period
        &&& earlier.stakes.len() <= self.stakes.len()
        &&& earlier.ids.len() <= self.ids.len()
        &&& earlier.unstake_receipts.len() <= self.unstake_receipts.len()
        &&& earlier.stake_transfer_receipts.len() <= self.stake_transfer_receipts.len()
        &&& forall|i: int|
            0 <= i < earlier.stakes.len() ==> (#[trigger] self.stakes[i]).address
                == earlier.stakes[i].address
        &&& forall|i: int, p: i64|
            0 <= i < earlier.stakes.len() && #[trigger] earlier.stakes[i].rewards.contains_key(p)
                ==> self.stakes[i].rewards.contains_key(p) && self.stakes[i].rewards[p]
                == earlier.stakes[i].rewards[p]
        &&& forall|r: int|
            0 <= r < earlier.unstake_receipts.len() && earlier.unstake_receipts[r] is None
                ==> (#[trigger] self.unstake_receipts[r]) is None
        &&& forall|r: int|
            0 <= r < earlier.stake_transfer_receipts.len() && earlier.stake_transfer_receipts[r] is None
                ==> (#[trigger] self.stake_transfer_receipts[r]) is None
    }
}

/// `follows` holds of an engine and itself, and through a chain.
pub proof fn lemma_follows_is_an_order(first: StakingView, second: StakingView, third: StakingView)
    ensures
        first.follows(first),
        third.follows(second) && second.follows(first) ==> third.follows(first),
{
    if third.follows(second) && second.follows(first) {
        assert forall|i: int, p: i64|
            0 <= i < first.stakes.len() && #[trigger] first.stakes[i].rewards.contains_key(
                p,
            ) implies third.stakes[i].rewards.contains_key(p) && third.stakes[i].rewards[p]
            == first.stakes[i].rewards[p] by {
            assert(second.stakes[i].rewards.contains_key(p));
        }
        assert forall|i: int| 0 <= i < first.stakes.len() implies (#[trigger] third.stakes[i]).address
            == first.stakes[i].address by {
            assert(second.stakes[i].address == first.stakes[i].address);
        }
        assert forall|r: int|
            0 <= r < first.unstake_receipts.len() && first.unstake_receipts[r] is None implies (
        #[trigger] third.unstake_receipts[r]) is None by {
            assert(second.unstake_receipts[r] is None);
        }
        assert forall|r: int|
            0 <= r < first.stake_transfer_receipts.len() && first.stake_transfer_receipts[r] is None implies (
        #[trigger] third.stake_transfer_receipts[r]) is None by {
            assert(second.stake_transfer_receipts[r] is None);
        }
    }
}

/// Closing a period leaves an engine that follows the one before.
pub proof fn lemma_update_period_follows(state: StakingView, now: Instant)
    requires
        state.inv(),
    ensures
        state.update_period(now) matches Ok(next) ==> next.follows(state),
{
    if let Ok(next) = state.update_period(now) {
        if state.period_due(now) {
            assert forall|i: int, p: i64|
                0 <= i < state.stakes.len() && #[trigger] state.stakes[i].rewards.contains_key(
                    p,
                ) implies next.stakes[i].rewards.contains_key(p) && next.stakes[i].rewards[p]
                == state.stakes[i].rewards[p] by {
                assert(p < state.current_period);
            }
        }
    }
}

/// Bringing a staking ID up to date leaves an engine that follows the one
/// before.
pub proof fn lemma_check_indexes_follows(state: StakingView, now: Instant, id: u64)
    requires
        state.inv(),
    ensures
        state.check_indexes(now, id) matches Ok(synced) ==> synced.follows(state),
{
    if let Ok(synced) = state.check_indexes(now, id) {
        lemma_check_indexes(state, now, id);
        lemma_update_period_follows(state, now);
        let rolled = state.update_period(now).unwrap();
        assert(synced.stakes == rolled.stakes);
        assert forall|i: int, p: i64|
            0 <= i < state.stakes.len() && #[trigger] state.stakes[i].rewards.contains_key(
                p,
            ) implies synced.stakes[i].rewards.contains_key(p) && synced.stakes[i].rewards[p]
            == state.stakes[i].rewards[p] by {
            assert(rolled.stakes[i].rewards.contains_key(p));
        }
    }
}

/// An engine that differs only in what its staking IDs hold, in the totals,
/// terms and pool, and in further receipts, follows the one before.
pub proof fn lemma_same_registry_follows(state: StakingView, next: StakingView)
    requires
        next.current_period == state.current_period,
        next.stakes.len() == state.stakes.len(),
        next.ids.len() == state.ids.len(),
        forall|i: int|
            0 <= i < state.stakes.len() ==> (#[trigger] next.stakes[i]).address
                == state.stakes[i].address && next.stakes[i].rewards == state.stakes[i].rewards,
        state.unstake_receipts.len() <= next.unstake_receipts.len(),
        state.stake_transfer_receipts.len() <= next.stake_transfer_receipts.len(),
        forall|r: int|
            0 <= r < state.unstake_receipts.len() ==> (#[trigger] next.unstake_receipts[r]) is None
                || next.unstake_receipts[r] == state.unstake_receipts[r],
        forall|r: int|
            0 <= r < state.stake_transfer_receipts.len() ==> (
            #[trigger] next.stake_transfer_receipts[r]) is None || next.stake_transfer_receipts[r]
                == state.stake_transfer_receipts[r],
    ensures
        next.follows(state),
{
    assert forall|i: int, p: i64|
        0 <= i < state.stakes.len() && #[trigger] state.stakes[i].rewards.contains_key(
            p,
        ) implies next.stakes[i].rewards.contains_key(p) && next.stakes[i].rewards[p]
        == state.stakes[i].rewards[p] by {
        assert(next.stakes[i].rewards == state.stakes[i].rewards);
    }
}

/// A stake keeps what always holds, and leaves an engine that follows the
/// one before.
pub proof fn lemma_stake(
    state: StakingView,
    now: Instant,
    id: u64,
    address: ResourceAddress,
    stake_bucket: Option<Bucket>,
    stake_transfer_receipt: Option<u64>,
)
    requires
        state.inv(),
    ensures
        state.stake(now, id, address, stake_bucket, stake_transfer_receipt) matches Ok(next)
            ==> next.inv() && next.follows(state),
{
    if let Ok(next) = state.stake(now, id, address, stake_bucket, stake_transfer_receipt) {
        let synced = state.check_indexes(now, id).unwrap();
        lemma_check_indexes(state, now, id);
        lemma_check_indexes_follows(state, now, id);
        lemma_stake_into_keeps_inv(synced, id, address, stake_bucket, stake_transfer_receipt);
        lemma_same_registry_follows(synced, next);
        lemma_follows_is_an_order(state, synced, next);
    }
}

/// An unstake request keeps what always holds, and leaves an engine that
/// follows the one before.
pub proof fn lemma_start_unstake(
    state: StakingView,
    now: Instant,
    id: u64,
    address: ResourceAddress,
    unstake_amount: Decimal,
    unstake_all: bool,
    stake_transfer: bool,
)
    requires
        state.inv(),
    ensures
        state.start_unstake(
            now,
            id,
            address,
            unstake_amount,
            unstake_all,
            stake_transfer,
        ) matches Ok((next, receipt)) ==> next.inv() && next.follows(state),
{
    if let Ok((next, receipt)) = state.start_unstake(
        now,
        id,
        address,
        unstake_amount,
        unstake_all,
        stake_transfer,
    ) {
        let synced = state.check_indexes(now, id).unwrap();
        lemma_check_indexes(state, now, id);
        lemma_check_indexes_follows(state, now, id);
        lemma_unstake_request_keeps_inv(
            synced,
            now,
            id,
            address,
            unstake_amount,
            unstake_all,
            stake_transfer,
        );
        lemma_same_registry_follows(synced, next);
        lemma_follows_is_an_order(state, synced, next);
    }
}

/// The redemption of an unstake receipt keeps what always holds, and leaves
/// an engine that follows the one before.
pub proof fn lemma_finish_unstake(state: StakingView, receipt: u64, now: Instant)
    requires
        state.inv(),
    ensures
        state.finish_unstake(receipt, now) matches Ok((next, funds)) ==> next.inv() && next.follows(
            state,
        ),
{
    if let Ok((next, funds)) = state.finish_unstake(receipt, now) {
        assert(next.ids == state.ids);
        assert(next.stakes == state.stakes);
        lemma_same_registry_follows(state, next);
    }
}

/// A claim keeps what always holds, and leaves an engine that follows the
/// one before.
pub proof fn lemma_update_id(state: StakingView, now: Instant, id: u64)
    requires
        state.inv(),
    ensures
        state.update_id(now, id) matches Ok((next, reward)) ==> next.inv() && next.follows(state),
{
    if let Ok((next, reward)) = state.update_id(now, id) {
        let synced = state.check_indexes(now, id).unwrap();
        lemma_check_indexes(state, now, id);
        lemma_check_indexes_follows(state, now, id);
        lemma_claim_keeps_inv(synced, id);
        lemma_same_registry_follows(synced, next);
        lemma_follows_is_an_order(state, synced, next);
    }
}

/// A lock by its holder keeps what always holds, and leaves an engine that
/// follows the one before.
pub proof fn lemma_lock_stake(state: StakingView, now: Instant, id: u64, address: ResourceAddress)
    requires
        state.inv(),
    ensures
        state.lock_stake(now, id, address) matches Ok((next, bonus)) ==> next.inv() && next.follows(
            state,
        ),
{
    if let Ok((next, bonus)) = state.lock_stake(now, id, address) {
        let synced = state.check_indexes(now, id).unwrap();
        lemma_check_indexes(state, now, id);
        lemma_check_indexes_follows(state, now, id);
        lemma_lock_keeps_inv(synced, now, id, address);
        lemma_same_registry_follows(synced, next);
        lemma_follows_is_an_order(state, synced, next);
    }
}

/// What the controller sets keeps what always holds, and leaves an engine
/// that follows the one before.
pub proof fn lemma_settings(state: StakingView, op: Operation)
    requires
        state.inv(),
        op is SetLock || op is SetPeriodInterval || op is SetMaxClaimDelay || op is SetUnstakeDelay
            || op is SetNextPeriodToNow || op is FillRewards || op is RemoveRewards,
    ensures
        state.after(op).inv(),
        state.after(op).follows(state),
{
    let next = state.after(op);
    lemma_follows_is_an_order(state, state, state);
    match op {
        Operation::SetLock { address, lock_until, id } => {
            lemma_set_lock_keeps_inv(state, address, lock_until, id);
            if state.apply(op) is Ok {
                lemma_same_registry_follows(state, next);
            }
        },
        Operation::FillRewards { bucket } => {
            lemma_paid_keeps_inv(state, -bucket.amount@);
            if state.apply(op) is Ok {
                lemma_same_registry_follows(state, next);
            }
        },
        Operation::RemoveRewards { amount } => {
            lemma_paid_keeps_inv(state, amount@);
            if state.apply(op) is Ok {
                lemma_same_registry_follows(state, next);
            }
        },
        _ => {
            assert(next.ids == state.ids);
            assert(next.stakes == state.stakes);
            lemma_same_registry_follows(state, next);
        },
    }
}

/// A change of the registry keeps what always holds, and leaves an engine
/// that follows the one before.
pub proof fn lemma_registry(state: StakingView, op: Operation)
    requires
        state.inv(),
        op is SetRewards || op is AddStakable || op is EditStakable,
    ensures
        state.after(op).inv(),
        state.after(op).follows(state),
{
    let next = state.after(op);
    lemma_follows_is_an_order(state, state, state);
    if state.apply(op) is Ok {
        match op {
            Operation::SetRewards { address, reward } => {
                let index = state.index_of(address);
                lemma_terms_keep_inv(state, index, reward, state.stakes[index].lock);
                lemma_same_registry_follows(state, next);
            },
            Operation::EditStakable { address, reward_amount, lock } => {
                let index = state.index_of(address);
                lemma_terms_keep_inv(state, index, reward_amount, lock);
                lemma_same_registry_follows(state, next);
            },
            Operation::AddStakable { address, reward_amount, lock } => {
                lemma_add_stakable_keeps_inv(state, address, reward_amount, lock);
                assert forall|i: int, p: i64|
                    0 <= i < state.stakes.len() && #[trigger] state.stakes[i].rewards.contains_key(
                        p,
                    ) implies next.stakes[i].rewards.contains_key(p) && next.stakes[i].rewards[p]
                    == state.stakes[i].rewards[p] by {
                    assert(next.stakes[i] == state.stakes[i]);
                }
                assert forall|i: int| 0 <= i < state.stakes.len() implies (#[trigger] next.stakes[i]).address
                    == state.stakes[i].address by {
                    assert(next.stakes[i] == state.stakes[i]);
                }
            },
            _ => {},
        }
    }
}

/// Every operation keeps what always holds of the engine, and leaves an
/// engine that follows the one before: the period counter does not go back,
/// no asset, staking ID or receipt is lost or renumbered, no recorded rate
/// changes, and no redeemed receipt comes back.
pub proof fn lemma_operation(state: StakingView, op: Operation)
    requires
        state.inv(),
    ensures
        state.after(op).inv(),
        state.after(op).follows(state),
{
    lemma_follows_is_an_order(state, state, state);
    match op {
        Operation::UpdatePeriod { now } => {
            lemma_update_period_keeps_inv(state, now);
            lemma_update_period_follows(state, now);
        },
        Operation::CreateId => {
            lemma_create_id_keeps_inv(state);
            if state.apply(op) is Ok {
                assert(state.after(op).stakes == state.stakes);
                lemma_follows_after_create_id(state);
            }
        },
        Operation::Stake { now, id, address, stake_bucket, stake_transfer_receipt } => {
            lemma_stake(state, now, id, address, stake_bucket, stake_transfer_receipt);
        },
        Operation::StartUnstake {
            now,
            id,
            address,
            unstake_amount,
            unstake_all,
            stake_transfer,
        } => {
            lemma_start_unstake(state, now, id, address, unstake_amount, unstake_all, stake_transfer);
        },
        Operation::FinishUnstake { receipt, now } => {
            lemma_finish_unstake(state, receipt, now);
        },
        Operation::UpdateId { now, id } => {
            lemma_update_id(state, now, id);
        },
        Operation::LockStake { now, id, address } => {
            lemma_lock_stake(state, now, id, address);
        },
        Operation::SetRewards { .. } | Operation::AddStakable { .. } | Operation::EditStakable {
            ..
        } => {
            lemma_registry(state, op);
        },
        _ => {
            lemma_settings(state, op);
        },
    }
}

/// A new staking ID leaves an engine that follows the one before.
pub proof fn lemma_follows_after_create_id(state: StakingView)
    ensures
        state.create_id() matches Ok((next, id)) ==> next.follows(state),
{
}

/// Any sequence of operations keeps what always holds of the engine, and
/// leaves an engine that follows the one it started from.
pub proof fn lemma_run(state: StakingView, ops: Seq<Operation>)
    requires
        state.inv(),
    ensures
        state.run(ops).inv(),
        state.run(ops).follows(state),
    decreases ops.len(),
{
    if ops.len() == 0 {
        lemma_follows_is_an_order(state, state, state);
    } else {
        let before = state.run(ops.drop_last());
        lemma_run(state, ops.drop_last());
        lemma_operation(before, ops.last());
        lemma_follows_is_an_order(state, before, before.after(ops.last()));
    }
}

/// Whether `op` sets the end of the current period of `state` to an earlier
/// time than it had.
pub open spec fn moves_boundary_back(state: StakingView, op: Operation) -> bool {
    op matches Operation::SetNextPeriodToNow { now } && now.seconds_since_unix_epoch
        < state.next_period.seconds_since_unix_epoch
}

/// Closing a period moves its end forward, by a positive whole number of
/// intervals.
pub proof fn lemma_update_period_moves_forward(state: StakingView, now: Instant)
    ensures
        state.update_period(now) matches Ok(next) ==> {
            &&& next.next_period.seconds_since_unix_epoch
                >= state.next_period.seconds_since_unix_epoch
            &&& state.period_due(now) ==> {
                &&& state.elapsed_periods(now) >= 0
                &&& next.next_period.seconds_since_unix_epoch
                    == state.next_period.seconds_since_unix_epoch + (1 + state.elapsed_periods(
                    now,
                )) * state.period_interval * 86_400
                &&& next.next_period.seconds_since_unix_epoch
                    > state.next_period.seconds_since_unix_epoch
            }
        },
{
    if let Ok(next) = state.update_period(now) {
        if state.period_due(now) {
            let late: int = now.seconds_since_unix_epoch - state.next_period.seconds_since_unix_epoch;
            let interval: int = state.period_interval as int;
            let elapsed = state.elapsed_periods(now);
            assert(elapsed >= 0) by (nonlinear_arith)
                requires
                    late >= 0,
                    interval >= 1,
                    elapsed == late / (interval * 86_400),
            ;
            assert((1 + elapsed) * interval >= 1) by (nonlinear_arith)
                requires
                    elapsed >= 0,
                    interval >= 1,
            ;
            assert((1 + elapsed) * interval * 86_400 == ((1 + elapsed) * interval) * 86_400);
        }
    }
}

/// The end of the current period does not move back under any operation but
/// one that sets it to an earlier time.
pub proof fn lemma_boundary(state: StakingView, op: Operation)
    requires
        state.inv(),
        !moves_boundary_back(state, op),
    ensures
        state.after(op).next_period.seconds_since_unix_epoch
            >= state.next_period.seconds_since_unix_epoch,
{
    match op {
        Operation::UpdatePeriod { now } => {
            lemma_update_period_moves_forward(state, now);
        },
        Operation::Stake { now, id, .. } => {
            lemma_update_period_moves_forward(state, now);
            lemma_check_indexes(state, now, id);
        },
        Operation::StartUnstake { now, id, .. } => {
            lemma_update_period_moves_forward(state, now);
            lemma_check_indexes(state, now, id);
        },
        Operation::UpdateId { now, id } => {
            lemma_update_period_moves_forward(state, now);
            lemma_check_indexes(state, now, id);
        },
        Operation::LockStake { now, id, .. } => {
            lemma_update_period_moves_forward(state, now);
            lemma_check_indexes(state, now, id);
        },
        _ => {},
    }
}

/// The period counter never decreases, whatever operations are made.
pub proof fn law_period_counter_never_decreases(state: StakingView, ops: Seq<Operation>)
    requires
        state.inv(),
    ensures
        state.run(ops).current_period >= state.current_period,
{
    lemma_run(state, ops);
}

/// The end of the current period never moves back, whatever operations are
/// made, as long as none of them sets it to an earlier time.
pub proof fn law_period_boundary_never_moves_back(state: StakingView, ops: Seq<Operation>)
    requires
        state.inv(),
        forall|i: int|
            0 <= i < ops.len() ==> !moves_boundary_back(state.run(#[trigger] ops.take(i)), ops[i]),
    ensures
        state.run(ops).next_period.seconds_since_unix_epoch
            >= state.next_period.seconds_since_unix_epoch,
    decreases ops.len(),
{
    if ops.len() > 0 {
        let shorter = ops.drop_last();
        assert forall|i: int| 0 <= i < shorter.len() implies !moves_boundary_back(
            state.run(#[trigger] shorter.take(i)),
            shorter[i],
        ) by {
            assert(shorter.take(i) =~= ops.take(i));
        }
        law_period_boundary_never_moves_back(state, shorter);
        lemma_run(state, shorter);
        assert(ops.take(ops.len() - 1) =~= shorter);
        lemma_boundary(state.run(shorter), ops.last());
    }
}

/// Once the rate of a period is recorded for an asset, no operation changes
/// it, and the asset keeps its place in the registry.
pub proof fn law_recorded_rates_never_change(
    state: StakingView,
    ops: Seq<Operation>,
    index: int,
    period: i64,
)
    requires
        state.inv(),
        0 <= index < state.stakes.len(),
        state.stakes[index].rewards.contains_key(period),
    ensures
        index < state.run(ops).stakes.len(),
        state.run(ops).stakes[index].address == state.stakes[index].address,
        state.run(ops).stakes[index].rewards.contains_key(period),
        state.run(ops).stakes[index].rewards[period] == state.stakes[index].rewards[period],
{
    lemma_run(state, ops);
}

/// After any operations on an engine that started empty or conserved, what
/// the staking IDs hold of an asset adds up to the asset's recorded total.
pub proof fn law_stake_is_conserved(state: StakingView, ops: Seq<Operation>, asset: int)
    requires
        state.inv(),
        0 <= asset < state.run(ops).stakes.len(),
    ensures
        state.run(ops).stakes[asset].staked_amount@ == total_staked(state.run(ops).ids, asset),
{
    lemma_run(state, ops);
}

/// A new engine is conserved: it has no assets, no staking IDs and no
/// rates.
pub proof fn law_initial_engine_is_sound(
    rewards: Bucket,
    period_interval: i64,
    dao_controlled: bool,
    max_unstaking_delay: i64,
    next_period: Instant,
)
    ensures
        StakingView::initial(
            rewards,
            period_interval,
            dao_controlled,
            max_unstaking_delay,
            next_period,
        ).inv(),
{
}

/// A claim pays for no more periods than `max_claim_delay`.
pub proof fn law_claim_pays_for_bounded_periods(state: StakingView, id: u64)
    ensures
        state.claimable_periods(id) <= state.max_claim_delay,
{
}

/// What is owed for an asset depends on the rates of the periods counted
/// and on no others: assets that agree on the rates of the `periods`
/// periods before `current_period` owe the same.
pub proof fn lemma_asset_reward_reads_counted_periods(
    sum: Option<int>,
    unit: StakableUnitView,
    other: StakableUnitView,
    staked: Decimal,
    current_period: int,
    periods: int,
)
    requires
        forall|p: i64|
            current_period - periods <= p < current_period ==> (#[trigger] unit.rewards.contains_key(
                p,
            )) == other.rewards.contains_key(p) && (unit.rewards.contains_key(p)
                ==> unit.rewards[p] == other.rewards[p]),
    ensures
        asset_reward(sum, unit, staked, current_period, periods) == asset_reward(
            sum,
            other,
            staked,
            current_period,
            periods,
        ),
    decreases periods,
{
    if periods > 0 {
        lemma_asset_reward_reads_counted_periods(
            sum,
            unit,
            other,
            staked,
            current_period,
            periods - 1,
        );
        let period = current_period - periods;
        if i64::MIN <= period <= i64::MAX {
            assert(unit.rewards.contains_key(period as i64) == other.rewards.contains_key(
                period as i64,
            ));
        }
        assert(period_reward(unit, period, staked) == period_reward(other, period, staked));
    }
}

/// A claim never pays for a period older than the `max_claim_delay` most
/// recent ones, however long the staking ID has been left alone: engines
/// that differ only in the rates of older periods pay the same reward.
pub proof fn law_claim_ignores_older_periods(
    state: StakingView,
    other: StakingView,
    id: u64,
    assets: int,
)
    requires
        other.current_period == state.current_period,
        other.max_claim_delay == state.max_claim_delay,
        other.ids == state.ids,
        other.stakes.len() == state.stakes.len(),
        0 <= assets <= state.stakes.len(),
        forall|i: int, p: i64|
            0 <= i < state.stakes.len() && state.current_period - state.max_claim_delay <= p
                < state.current_period ==> (#[trigger] state.stakes[i].rewards.contains_key(p))
                == other.stakes[i].rewards.contains_key(p) && (state.stakes[i].rewards.contains_key(
                p,
            ) ==> state.stakes[i].rewards[p] == other.stakes[i].rewards[p]),
    ensures
        claim_reward(
            state.stakes,
            state.id(id).amounts_staked,
            state.current_period as int,
            state.claimable_periods(id),
            assets,
        ) == claim_reward(
            other.stakes,
            other.id(id).amounts_staked,
            other.current_period as int,
            other.claimable_periods(id),
            assets,
        ),
        assets == state.stakes.len() ==> state.claimable_reward(id) == other.claimable_reward(id),
    decreases assets,
{
    if assets > 0 {
        law_claim_ignores_older_periods(state, other, id, assets - 1);
        let periods = state.claimable_periods(id);
        let unit = state.stakes[assets - 1];
        let other_unit = other.stakes[assets - 1];
        assert forall|p: i64|
            state.current_period - periods <= p < state.current_period implies (
        #[trigger] unit.rewards.contains_key(p)) == other_unit.rewards.contains_key(p) && (
        unit.rewards.contains_key(p) ==> unit.rewards[p] == other_unit.rewards[p]) by {
            assert(state.stakes[assets - 1].rewards.contains_key(p)
                == other.stakes[assets - 1].rewards.contains_key(p));
        }
        lemma_asset_reward_reads_counted_periods(
            claim_reward(
                state.stakes,
                state.id(id).amounts_staked,
                state.current_period as int,
                periods,
                assets - 1,
            ),
            unit,
            other_unit,
            state.id(id).amounts_staked[assets - 1],
            state.current_period as int,
            periods,
        );
    }
}

/// An unstake request is refused as long as the asset is under a lock that
/// has not ended, and the lock refuses nothing once it has ended: from the
/// lock's end on, a request for no more than is staked goes through, unless
/// a number leaves its range.
pub proof fn law_lock_gate(
    state: StakingView,
    now: Instant,
    id: u64,
    address: ResourceAddress,
    unstake_amount: Decimal,
    unstake_all: bool,
    stake_transfer: bool,
)
    requires
        state.inv(),
    ensures
        ({
            let outcome = state.start_unstake(
                now,
                id,
                address,
                unstake_amount,
                unstake_all,
                stake_transfer,
            );
            state.check_indexes(now, id) matches Ok(synced) ==> {
                let index = synced.index_of(address);
                let staked = synced.id(id).amounts_staked[index];
                &&& synced.is_stakable(address) && synced.id(id).locked_at(index, now)
                    ==> outcome is Err
                &&& outcome == Err::<(StakingView, IssuedReceipt), StakingError>(
                    StakingError::Locked,
                ) ==> synced.id(id).locked_at(index, now)
                &&& synced.is_stakable(address) && !synced.id(id).locked_at(index, now) && staked@
                    > 0 && (unstake_all || unstake_amount@ <= staked@) ==> outcome is Ok
                    || outcome == Err::<(StakingView, IssuedReceipt), StakingError>(
                    StakingError::Overflow,
                )
                &&& 0 <= index < state.id(id).locked_until.len() ==> synced.id(id).locked_until[index]
                    == state.id(id).locked_until[index]
            }
        }),
{
    if let Ok(synced) = state.check_indexes(now, id) {
        lemma_check_indexes(state, now, id);
        lemma_reconciled(state.id(id), state.stakes.len());
    }
}

/// A stake transfer receipt is redeemed once: after a stake has taken it, no
/// stake takes it again, whatever operations are made in between.
pub proof fn law_transfer_receipt_redeemed_once(
    state: StakingView,
    now: Instant,
    id: u64,
    address: ResourceAddress,
    stake_bucket: Option<Bucket>,
    receipt: u64,
    ops: Seq<Operation>,
    later: Instant,
    other_id: u64,
    other_address: ResourceAddress,
    other_bucket: Option<Bucket>,
)
    requires
        state.inv(),
        state.stake(now, id, address, stake_bucket, Some(receipt)) is Ok,
    ensures
        state.stake(now, id, address, stake_bucket, Some(receipt)).unwrap().run(ops).stake(
            later,
            other_id,
            other_address,
            other_bucket,
            Some(receipt),
        ) is Err,
{
    let next = state.stake(now, id, address, stake_bucket, Some(receipt)).unwrap();
    lemma_stake(state, now, id, address, stake_bucket, Some(receipt));
    lemma_check_indexes(state, now, id);
    assert(!next.holds_transfer_receipt(receipt));
    assert(1 <= receipt <= next.stake_transfer_receipts.len());
    let last = next.run(ops);
    lemma_run(next, ops);
    assert(last.stake_transfer_receipts[receipt - 1] is None);
    lemma_check_indexes(last, later, other_id);
}

/// An unstake receipt is redeemed once: after its redemption, it is not
/// redeemed again, whatever operations are made in between.
pub proof fn law_unstake_receipt_redeemed_once(
    state: StakingView,
    receipt: u64,
    now: Instant,
    ops: Seq<Operation>,
    later: Instant,
)
    requires
        state.inv(),
        state.finish_unstake(receipt, now) is Ok,
    ensures
        state.finish_unstake(receipt, now).unwrap().0.run(ops).finish_unstake(receipt, later)
            == Err::<(StakingView, Bucket), StakingError>(StakingError::InvalidReceipt),
{
    let next = state.finish_unstake(receipt, now).unwrap().0;
    lemma_finish_unstake(state, receipt, now);
    assert(next.unstake_receipts[receipt - 1] is None);
    lemma_run(next, ops);
    assert(next.run(ops).unstake_receipts[receipt - 1] is None);
}

/// An unstake receipt is redeemable from its redemption time on, and not
/// before.
pub proof fn law_redemption_waits_for_its_time(state: StakingView, receipt: u64, now: Instant)
    requires
        state.holds_unstake_receipt(receipt),
    ensures
        state.finish_unstake(receipt, now) is Ok <==> now.seconds_since_unix_epoch
            >= state.unstake_receipts[receipt - 1].unwrap().redemption_time.seconds_since_unix_epoch,
{
}

/// Closing the period is idempotent: once it is closed at `now`, closing it
/// at `now` again changes nothing.
pub proof fn law_update_period_is_idempotent(state: StakingView, now: Instant)
    ensures
        state.update_period(now) matches Ok(next) ==> next.update_period(now) == Ok::<
            StakingView,
            StakingError,
        >(next),
{
    if let Ok(next) = state.update_period(now) {
        if state.period_due(now) {
            lemma_update_period_moves_forward(state, now);
            let late: int = now.seconds_since_unix_epoch - state.next_period.seconds_since_unix_epoch;
            let seconds: int = state.period_interval * 86_400;
            let elapsed = state.elapsed_periods(now);
            assert(late < (1 + elapsed) * seconds) by (nonlinear_arith)
                requires
                    late >= 0,
                    seconds > 0,
                    elapsed == late / seconds,
            ;
            assert((1 + elapsed) * state.period_interval * 86_400 == (1 + elapsed) * seconds)
                by (nonlinear_arith)
                requires
                    seconds == state.period_interval * 86_400,
            ;
            assert(!next.period_due(now));
        }
    }
}

/// Bringing a staking ID up to date is idempotent, and never shortens or
/// changes what the record holds.
pub proof fn law_reconcile_is_idempotent(record: IdView, assets: nat)
    requires
        record.aligned(),
        record.assets() <= assets,
    ensures
        record.reconciled(assets).reconciled(assets) == record.reconciled(assets),
        record.reconciled(assets).assets() == assets,
        forall|i: int|
            0 <= i < record.assets() ==> {
                &&& record.reconciled(assets).amounts_staked[i] == record.amounts_staked[i]
                &&& record.reconciled(assets).amounts_locked[i] == record.amounts_locked[i]
                &&& record.reconciled(assets).locked_until[i] == record.locked_until[i]
            },
{
    lemma_reconciled(record, assets);
    lemma_reconciled(record.reconciled(assets), assets);
}

/// What every operation on a staking ID starts with is idempotent: done
/// twice at the same time, the second changes nothing.
pub proof fn law_check_indexes_is_idempotent(state: StakingView, now: Instant, id: u64)
    requires
        state.inv(),
    ensures
        state.check_indexes(now, id) matches Ok(synced) ==> synced.check_indexes(now, id) == Ok::<
            StakingView,
            StakingError,
        >(synced),
{
    if let Ok(synced) = state.check_indexes(now, id) {
        lemma_check_indexes(state, now, id);
        let rolled = state.update_period(now).unwrap();
        law_update_period_is_idempotent(state, now);
        assert(synced.update_period(now) == Ok::<StakingView, StakingError>(synced)) by {
            if state.period_due(now) {
                assert(!rolled.period_due(now));
            }
        }
        lemma_reconciled(synced.id(id), synced.stakes.len());
        assert(synced.with_id(id, synced.id(id)) =~~= synced);
    }
}

} // verus!

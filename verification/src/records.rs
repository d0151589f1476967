//! The records that the staking engine keeps and hands out.

use vstd::prelude::*;
use std::collections::HashMap;
use crate::address::ResourceAddress;
use crate::decimal::{decimal_zero, Decimal};
use crate::time::Instant;

verus! {

/// Why an operation was rejected. A rejected operation changes nothing.
#[derive(Clone, Copy, Debug, PartialEq, Eq, Structural)]
pub enum StakingError {
    /// No staking ID with this number has been created.
    InvalidId,
    /// The asset is not registered as stakable.
    NotStakable,
    /// The asset is already registered as stakable.
    AlreadyStakable,
    /// The staking ID has unclaimed periods; claim before staking.
    UnclaimedRewards,
    /// The funds supplied are of another asset than the one requested.
    WrongToken,
    /// No receipt with this number is outstanding: it was never issued, or
    /// it has been redeemed.
    InvalidReceipt,
    /// The stake transfer receipt is for another asset than the one requested.
    ReceiptMismatch,
    /// The staking ID has no stake of this asset to unstake.
    NothingStaked,
    /// The stake is locked until a time that has not come yet.
    Locked,
    /// More was requested than is staked.
    ExceedsStake,
    /// No period has ended since the last claim.
    NothingToClaim,
    /// The redemption time of the unstake receipt has not come yet.
    TooEarly,
    /// The unstake delay would exceed the maximum configured at creation.
    DelayTooLong,
    /// Locking by the controller is only available under DAO control.
    NotDaoControlled,
    /// The staking ID has no entry for this asset yet.
    StalePosition,
    /// The reward pool cannot pay the amount: it is negative or more than
    /// the pool holds.
    InsufficientRewards,
    /// A period ended while the period interval was not positive.
    InvalidPeriodInterval,
    /// A number left the range of its type.
    Overflow,
}

/// Funds of one asset, as the custody layer reports them.
#[derive(Clone, Copy, Debug, PartialEq, Eq)]
pub struct Bucket {
    pub address: ResourceAddress,
    pub amount: Decimal,
}

/// Receipt for a requested unstake, redeemable from `redemption_time` on.
#[derive(Clone, Copy, Debug, PartialEq, Eq)]
pub struct UnstakeReceipt {
    pub address: ResourceAddress,
    pub amount: Decimal,
    pub redemption_time: Instant,
}

/// Receipt for stake taken out of a staking ID to be merged into another.
#[derive(Clone, Copy, Debug, PartialEq, Eq)]
pub struct StakeTransferReceipt {
    pub address: ResourceAddress,
    pub amount: Decimal,
}

/// What `start_unstake` issues: the number of the new receipt, by kind.
#[derive(Clone, Copy, Debug, PartialEq, Eq, Structural)]
pub enum IssuedReceipt {
    Unstake(u64),
    StakeTransfer(u64),
}

/// Lock terms of an asset: the bonus paid per staked unit for locking, and
/// the number of days a lock lasts.
#[derive(Clone, Copy, Debug, PartialEq, Eq, Structural)]
pub struct Lock {
    pub payment: Decimal,
    pub duration: i64,
}

/// A staking ID: per asset, in registry order, the amount staked, the
/// amount locked and the end of the lock; and the first period whose rewards
/// are not claimed yet.
#[derive(Debug, PartialEq, Eq)]
pub struct Id {
    pub amounts_staked: Vec<Decimal>,
    pub amounts_locked: Vec<Decimal>,
    pub next_period: i64,
    pub locked_until: Vec<Option<Instant>>,
}

/// The mathematical content of an [`Id`].
#[verifier::ext_equal]
pub struct IdView {
    pub amounts_staked: Seq<Decimal>,
    pub amounts_locked: Seq<Decimal>,
    pub next_period: i64,
    pub locked_until: Seq<Option<Instant>>,
}

impl View for Id {
    type V = IdView;

    open spec fn view(&self) -> IdView {
        IdView {
            amounts_staked: self.amounts_staked@,
            amounts_locked: self.amounts_locked@,
            next_period: self.next_period,
            locked_until: self.locked_until@,
        }
    }
}

/// `s`, made `len` long by appending `fill` where it is shorter.
pub open spec fn extended<T>(s: Seq<T>, len: nat, fill: T) -> Seq<T> {
    if s.len() >= len {
        s
    } else {
        s + Seq::new((len - s.len()) as nat, |i: int| fill)
    }
}

impl IdView {
    /// The three lists are equally long.
    pub open spec fn aligned(self) -> bool {
        &&& self.amounts_locked.len() == self.amounts_staked.len()
        &&& self.locked_until.len() == self.amounts_staked.len()
    }

    /// Number of assets that the record has entries for.
    pub open spec fn assets(self) -> nat {
        self.amounts_staked.len()
    }

    /// A new record for a registry of `assets` assets: nothing staked,
    /// nothing locked.
    pub open spec fn fresh(assets: nat, next_period: i64) -> IdView {
        IdView {
            amounts_staked: Seq::new(assets, |i: int| decimal_zero()),
            amounts_locked: Seq::new(assets, |i: int| decimal_zero()),
            next_period,
            locked_until: Seq::new(assets, |i: int| None),
        }
    }

    /// The record brought up to a registry of `assets` assets: entries for
    /// the assets it did not know are appended, the others stay as they are.
    pub open spec fn reconciled(self, assets: nat) -> IdView {
        IdView {
            amounts_staked: extended(self.amounts_staked, assets, decimal_zero()),
            amounts_locked: extended(self.amounts_locked, assets, decimal_zero()),
            next_period: self.next_period,
            locked_until: extended(self.locked_until, assets, None),
        }
    }

    /// Subunits staked of the asset at `index`; zero for an asset that the
    /// record has no entry for.
    pub open spec fn staked(self, index: int) -> int {
        if 0 <= index < self.amounts_staked.len() {
            self.amounts_staked[index]@
        } else {
            0
        }
    }

    /// The record with `amount` staked of the asset at `index`.
    pub open spec fn with_staked(self, index: int, amount: Decimal) -> IdView {
        IdView { amounts_staked: self.amounts_staked.update(index, amount), ..self }
    }

    /// The record with the asset at `index` locked until `until`.
    pub open spec fn with_lock(self, index: int, until: Instant) -> IdView {
        IdView { locked_until: self.locked_until.update(index, Some(until)), ..self }
    }

    /// The record with `next_period` as the first period not yet claimed.
    pub open spec fn with_next_period(self, next_period: i64) -> IdView {
        IdView { next_period, ..self }
    }

    /// Whether the asset at `index` is under a lock that has not ended at
    /// `now`.
    pub open spec fn locked_at(self, index: int, now: Instant) -> bool {
        &&& 0 <= index < self.locked_until.len()
        &&& self.locked_until[index] matches Some(until)
        &&& now.seconds_since_unix_epoch < until.seconds_since_unix_epoch
    }
}

/// What is kept for each stakable asset: the total staked by all staking
/// IDs, the reward handed out per period, the lock terms, and the reward per
/// staked unit of each period that has ended.
#[derive(Debug)]
pub struct StakableUnit {
    pub address: ResourceAddress,
    pub staked_amount: Decimal,
    pub reward_amount: Decimal,
    pub lock: Lock,
    pub rewards: HashMap<i64, Decimal>,
}

/// The mathematical content of a [`StakableUnit`].
#[verifier::ext_equal]
pub struct StakableUnitView {
    pub address: ResourceAddress,
    pub staked_amount: Decimal,
    pub reward_amount: Decimal,
    pub lock: Lock,
    pub rewards: Map<i64, Decimal>,
}

impl View for StakableUnit {
    type V = StakableUnitView;

    open spec fn view(&self) -> StakableUnitView {
        StakableUnitView {
            address: self.address,
            staked_amount: self.staked_amount,
            reward_amount: self.reward_amount,
            lock: self.lock,
            rewards: self.rewards@,
        }
    }
}

/// Reconciling a record appends entries and changes none: lengths grow to
/// the registry's, what was staked and locked stays.
pub proof fn lemma_reconciled(record: IdView, assets: nat)
    requires
        record.aligned(),
        record.assets() <= assets,
    ensures
        record.reconciled(assets).aligned(),
        record.reconciled(assets).assets() == assets,
        record.reconciled(assets).next_period == record.next_period,
        forall|i: int| record.reconciled(assets).staked(i) == record.staked(i),
        forall|i: int|
            0 <= i < record.assets() ==> {
                &&& record.reconciled(assets).amounts_staked[i] == record.amounts_staked[i]
                &&& record.reconciled(assets).amounts_locked[i] == record.amounts_locked[i]
                &&& record.reconciled(assets).locked_until[i] == record.locked_until[i]
            },
        forall|i: int|
            record.assets() <= i < assets ==> {
                &&& record.reconciled(assets).amounts_staked[i] == decimal_zero()
                &&& record.reconciled(assets).amounts_locked[i] == decimal_zero()
                &&& record.reconciled(assets).locked_until[i] == None::<Instant>
            },
        record.assets() == assets ==> record.reconciled(assets) == record,
{
    if record.assets() == assets {
        assert(record.reconciled(assets) =~~= record);
    }
}

impl StakableUnitView {
    /// The asset with `amount` as the total staked.
    pub open spec fn with_staked_amount(self, amount: Decimal) -> StakableUnitView {
        StakableUnitView { staked_amount: amount, ..self }
    }
}

impl Id {
    /// What is staked of the asset at `index`; zero for an asset that the
    /// record has no entry for.
    pub fn staked_at(&self, index: usize) -> (amount: Decimal)
        ensures
            amount == if index < self@.amounts_staked.len() {
                self@.amounts_staked[index as int]
            } else {
                decimal_zero()
            },
            amount@ == self@.staked(index as int),
    {
        if index < self.amounts_staked.len() {
            self.amounts_staked[index]
        } else {
            Decimal::zero()
        }
    }

    /// Until when the asset at `index` is locked, if it is.
    pub fn locked_until_at(&self, index: usize) -> (until: Option<Instant>)
        ensures
            until == if index < self@.locked_until.len() {
                self@.locked_until[index as int]
            } else {
                None
            },
    {
        if index < self.locked_until.len() {
            self.locked_until[index]
        } else {
            None
        }
    }

    /// A copy of the record.
    pub fn duplicate(&self) -> (copy: Id)
        ensures
            copy@ == self@,
    {
        Id {
            amounts_staked: copy_all(&self.amounts_staked),
            amounts_locked: copy_all(&self.amounts_locked),
            next_period: self.next_period,
            locked_until: copy_all(&self.locked_until),
        }
    }

    /// A new record for a registry of `assets` assets.
    pub fn fresh(assets: usize, next_period: i64) -> (id: Id)
        ensures
            id@ == IdView::fresh(assets as nat, next_period),
    {
        let mut id = Id {
            amounts_staked: Vec::new(),
            amounts_locked: Vec::new(),
            next_period,
            locked_until: Vec::new(),
        };
        id.reconcile(assets);
        assert(id@.amounts_staked =~= IdView::fresh(assets as nat, next_period).amounts_staked);
        assert(id@.amounts_locked =~= IdView::fresh(assets as nat, next_period).amounts_locked);
        assert(id@.locked_until =~= IdView::fresh(assets as nat, next_period).locked_until);
        id
    }

    /// Brings the record up to a registry of `assets` assets. Entries are
    /// appended, never removed or moved.
    pub fn reconcile(&mut self, assets: usize)
        ensures
            final(self)@ == old(self)@.reconciled(assets as nat),
    {
        extend(&mut self.amounts_staked, assets, Decimal::zero());
        extend(&mut self.amounts_locked, assets, Decimal::zero());
        extend(&mut self.locked_until, assets, None);
    }
}

/// A copy of `v`.
pub(crate) fn copy_all<T: Copy>(v: &Vec<T>) -> (r: Vec<T>)
    ensures
        r@ == v@,
{
    let mut copy: Vec<T> = Vec::new();
    let mut i: usize = 0;
    while i < v.len()
        invariant
            i <= v@.len(),
            copy@ =~= v@.take(i as int),
        decreases v@.len() - i,
    {
        copy.push(v[i]);
        i += 1;
    }
    assert(v@.take(i as int) =~= v@);
    copy
}

/// Makes `v` `len` long by appending `fill` where it is shorter.
fn extend<T: Copy>(v: &mut Vec<T>, len: usize, fill: T)
    ensures
        final(v)@ == extended(old(v)@, len as nat, fill),
{
    while v.len() < len
        invariant
            old(v)@.len() <= v@.len(),
            v@.len() <= len || v@.len() == old(v)@.len(),
            v@ =~= old(v)@ + Seq::new((v@.len() - old(v)@.len()) as nat, |i: int| fill),
        decreases len - v.len(),
    {
        v.push(fill);
    }
    assert(v@ =~= extended(old(v)@, len as nat, fill));
}

} // verus!

//! Reading the engine.

use vstd::prelude::*;
use crate::address::ResourceAddress;
use crate::decimal::Decimal;
use crate::records::{Id, StakableUnit, StakeTransferReceipt, UnstakeReceipt};
use crate::state::Staking;
use crate::time::Instant;

verus! {

impl Staking {
    /// Days between two period boundaries.
    pub fn period_interval(&self) -> (r: i64)
        ensures
            r == self@.period_interval,
    {
        self.period_interval
    }

    /// When the current period ends.
    pub fn next_period(&self) -> (r: Instant)
        ensures
            r == self@.next_period,
    {
        self.next_period
    }

    /// Number of the current period.
    pub fn current_period(&self) -> (r: i64)
        ensures
            r == self@.current_period,
    {
        self.current_period
    }

    /// Most periods that one claim pays for.
    pub fn max_claim_delay(&self) -> (r: i64)
        ensures
            r == self@.max_claim_delay,
    {
        self.max_claim_delay
    }

    /// Most days that the unstake delay may be set to.
    pub fn max_unstaking_delay(&self) -> (r: i64)
        ensures
            r == self@.max_unstaking_delay,
    {
        self.max_unstaking_delay
    }

    /// Days between an unstake request and its redemption.
    pub fn unstake_delay(&self) -> (r: i64)
        ensures
            r == self@.unstake_delay,
    {
        self.unstake_delay
    }

    /// Whether the controller may lock stake directly.
    pub fn dao_controlled(&self) -> (r: bool)
        ensures
            r == self@.dao_controlled,
    {
        self.dao_controlled
    }

    /// The asset that rewards are paid in.
    pub fn reward_address(&self) -> (r: ResourceAddress)
        ensures
            r == self@.reward_address,
    {
        self.reward_address
    }

    /// What the reward pool holds.
    pub fn reward_vault(&self) -> (r: Decimal)
        ensures
            r == self@.reward_vault,
    {
        self.reward_vault
    }

    /// The registered assets, in the order of their registration.
    pub fn stakables(&self) -> (r: Vec<ResourceAddress>)
        ensures
            r@.len() == self@.stakes.len(),
            forall|i: int| 0 <= i < r@.len() ==> r@[i] == (#[trigger] self@.stakes[i]).address,
    {
        let mut addresses: Vec<ResourceAddress> = Vec::new();
        let mut i: usize = 0;
        while i < self.stakes.len()
            invariant
                i <= self.stakes@.len(),
                addresses@.len() == i,
                forall|j: int| 0 <= j < i ==> addresses@[j] == (#[trigger] self@.stakes[j]).address,
            decreases self.stakes@.len() - i,
        {
            addresses.push(self.stakes[i].address);
            i += 1;
        }
        addresses
    }

    /// What is kept for the asset `address`, if it is registered.
    pub fn stakable(&self, address: ResourceAddress) -> (r: Option<&StakableUnit>)
        requires
            self@.inv(),
        ensures
            match r {
                Some(unit) => self@.is_stakable(address) && unit@ == self@.stakes[self@.index_of(
                    address,
                )],
                None => !self@.is_stakable(address),
            },
    {
        match self.index_of(&address) {
            Some(index) => Some(&self.stakes[index]),
            None => None,
        }
    }

    /// Number of staking IDs created so far.
    pub fn id_count(&self) -> (r: usize)
        ensures
            r == self@.ids.len(),
    {
        self.ids.len()
    }

    /// Staking ID number `id`, if it exists.
    pub fn id(&self, id: u64) -> (r: Option<&Id>)
        ensures
            match r {
                Some(record) => self@.has_id(id) && record@ == self@.id(id),
                None => !self@.has_id(id),
            },
    {
        if id == 0 || id > self.ids.len() as u64 {
            None
        } else {
            Some(&self.ids[(id - 1) as usize])
        }
    }

    /// Number of unstake receipts issued so far.
    pub fn unstake_receipt_count(&self) -> (r: usize)
        ensures
            r == self@.unstake_receipts.len(),
    {
        self.unstake_receipts.len()
    }

    /// Number of stake transfer receipts issued so far.
    pub fn stake_transfer_receipt_count(&self) -> (r: usize)
        ensures
            r == self@.stake_transfer_receipts.len(),
    {
        self.stake_transfer_receipts.len()
    }

    /// Unstake receipt number `receipt`, if it is outstanding.
    pub fn unstake_receipt(&self, receipt: u64) -> (r: Option<UnstakeReceipt>)
        ensures
            match r {
                Some(data) => self@.holds_unstake_receipt(receipt) && Some(data)
                    == self@.unstake_receipts[receipt - 1],
                None => !self@.holds_unstake_receipt(receipt),
            },
    {
        if receipt == 0 || receipt > self.unstake_receipts.len() as u64 {
            None
        } else {
            self.unstake_receipts[(receipt - 1) as usize]
        }
    }

    /// Stake transfer receipt number `receipt`, if it is outstanding.
    pub fn stake_transfer_receipt(&self, receipt: u64) -> (r: Option<StakeTransferReceipt>)
        ensures
            match r {
                Some(data) => self@.holds_transfer_receipt(receipt) && Some(data)
                    == self@.stake_transfer_receipts[receipt - 1],
                None => !self@.holds_transfer_receipt(receipt),
            },
    {
        if receipt == 0 || receipt > self.stake_transfer_receipts.len() as u64 {
            None
        } else {
            self.stake_transfer_receipts[(receipt - 1) as usize]
        }
    }
}

} // verus!

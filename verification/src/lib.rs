//! Period-based reward accounting for staked assets.
//!
//! Holders stake assets into numbered staking IDs. Time is cut into periods;
//! when a period ends, each asset's reward per staked unit is recorded for
//! it, once and for good, and a staking ID later claims what the recorded
//! rates owe it. Stake can be locked for a bonus, and is taken out in two
//! steps, with a delay in between, or handed on by a transfer receipt.
//!
//! [`state::Staking`] is the engine; [`state::StakingView`] is what it holds,
//! as mathematics, and the operations are defined on it as functions from
//! one engine to the next. Every executable operation is proved to do what
//! its definition says. [`laws`] holds what is proved of the definitions.

pub mod address;
pub mod admin;
pub mod claim;
pub mod decimal;
pub mod inspect;
pub mod laws;
pub mod lock;
pub mod period;
pub mod position;
pub mod records;
pub mod snapshot;
pub mod state;
pub mod time;
pub mod unstake;

pub use address::ResourceAddress;
pub use decimal::Decimal;
pub use records::{
    Bucket, Id, IssuedReceipt, Lock, StakableUnit, StakeTransferReceipt, StakingError,
    UnstakeReceipt,
};
pub use snapshot::{Snapshot, StakableSnapshot};
pub use state::Staking;
pub use time::Instant;

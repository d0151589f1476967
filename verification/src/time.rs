//! Points in time.

use vstd::prelude::*;

verus! {

/// Seconds in a day.
pub const SECONDS_IN_A_DAY: i64 = 86_400;

/// A Unix timestamp: seconds since the epoch.
#[derive(Clone, Copy, Debug, PartialEq, Eq, Structural)]
pub struct Instant {
    pub seconds_since_unix_epoch: i64,
}

/// The instant `days` whole days after `t`, where both the day count in
/// seconds and the resulting timestamp fit in 64 signed bits.
pub open spec fn days_later(t: Instant, days: int) -> Option<Instant> {
    let shift = days * 86_400;
    let seconds = t.seconds_since_unix_epoch + shift;
    if i64::MIN <= shift <= i64::MAX && i64::MIN <= seconds <= i64::MAX {
        Some(Instant { seconds_since_unix_epoch: seconds as i64 })
    } else {
        None
    }
}

impl Instant {
    /// The instant at the given number of seconds since the epoch.
    pub fn new(seconds_since_unix_epoch: i64) -> (t: Instant)
        ensures
            t.seconds_since_unix_epoch == seconds_since_unix_epoch,
    {
        Instant { seconds_since_unix_epoch }
    }

    /// Whether `self` is `other` or later.
    pub fn is_at_or_after(&self, other: &Instant) -> (b: bool)
        ensures
            b == (self.seconds_since_unix_epoch >= other.seconds_since_unix_epoch),
    {
        self.seconds_since_unix_epoch >= other.seconds_since_unix_epoch
    }
}

/// Day arithmetic as the ledger's `Instant::add_days` does it: the day count
/// is turned into seconds and added, each step checked against the range of
/// a 64-bit signed integer; nothing comes back when either step leaves it.
#[verifier::external_body]
pub(crate) fn add_days(t: Instant, days: i64) -> (r: Option<Instant>)
    ensures
        r == days_later(t, days as int),
{
    scrypto::time::Instant::new(t.seconds_since_unix_epoch)
        .add_days(days)
        .map(|later| Instant::new(later.seconds_since_unix_epoch))
}

} // verus!

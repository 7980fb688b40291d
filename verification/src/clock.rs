//! The wall clock, read as seconds since the Unix epoch.

use vstd::prelude::*;

verus! {

/// Relies on chrono::Utc::now().timestamp(): whole seconds since the Unix
/// epoch by the system clock.  Nothing is promised of the value.  Note
/// that `Utc::now` aborts when the system clock stands before the epoch,
/// so a reading that comes back is never negative.
#[verifier::external_body]
pub(crate) fn unix_now_raw() -> i64 {
    chrono::Utc::now().timestamp()
}

/// Total conversion of a signed clock reading to `u64`: a negative value
/// maps to zero.  The clock above never returns one; the branch only makes
/// the conversion total.
pub fn clamp_epoch_seconds(t: i64) -> (r: u64)
    ensures
        r == (if t < 0 {
            0u64
        } else {
            t as u64
        }),
{
    if t < 0 {
        0
    } else {
        t as u64
    }
}

/// The current time in whole seconds since the Unix epoch, by the system
/// clock.
pub fn unix_now() -> u64 {
    clamp_epoch_seconds(unix_now_raw())
}

} // verus!

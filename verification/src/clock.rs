//! The system clock, read as an offset from the Unix epoch and turned into a `Timestamp`.
use vstd::prelude::*;
use crate::models::Timestamp;
use core::time::Duration;
use std::time::{SystemTime, SystemTimeError};

verus! {

#[verifier::external_type_specification]
#[verifier::external_body]
pub struct ExSystemTime(SystemTime);

#[verifier::external_type_specification]
#[verifier::external_body]
pub struct ExSystemTimeError(SystemTimeError);

/// `SystemTime::now`: what the system clock says; nothing is stated of it.
pub assume_specification[ SystemTime::now ]() -> SystemTime;

/// `std::time::UNIX_EPOCH`: the Unix epoch as a `SystemTime`; nothing is stated of the opaque
/// value.
#[verifier::external_body]
fn unix_epoch() -> SystemTime {
    std::time::UNIX_EPOCH
}

/// `SystemTime::duration_since`: how long after `earlier` the time is, or an error (carrying how
/// long before) where it is earlier; nothing is stated of which comes back.
pub assume_specification[ SystemTime::duration_since ](
    time: &SystemTime,
    earlier: SystemTime,
) -> Result<Duration, SystemTimeError>;

/// `SystemTimeError::duration`: how far the time lay before the one it was measured from;
/// nothing is stated of it.
pub assume_specification[ SystemTimeError::duration ](error: &SystemTimeError) -> Duration;

/// `Duration::as_secs`: the whole seconds of a duration; nothing is stated of it.
pub assume_specification[ Duration::as_secs ](duration: &Duration) -> u64;

/// `Duration::subsec_nanos`: the nanoseconds past the whole seconds, which the documentation
/// gives as always less than one billion.
pub assume_specification[ Duration::subsec_nanos ](duration: &Duration) -> (nanos: u32)
    ensures
        nanos < 1_000_000_000,
;

/// The timestamp `secs` seconds and `nanos` nanoseconds after the epoch, or, where `before`,
/// before it: whole seconds rounded down and the nanoseconds past them. Seconds beyond the
/// range of `i64` are held at its ends.
pub open spec fn epoch_offset_timestamp(before: bool, secs: int, nanos: int) -> Timestamp {
    if !before {
        Timestamp {
            seconds: if secs > i64::MAX {
                i64::MAX
            } else {
                secs as i64
            },
            nanos: nanos as u32,
        }
    } else if nanos == 0 {
        Timestamp {
            seconds: if -secs < i64::MIN {
                i64::MIN
            } else {
                (-secs) as i64
            },
            nanos: 0,
        }
    } else {
        Timestamp {
            seconds: if -secs - 1 < i64::MIN {
                i64::MIN
            } else {
                (-secs - 1) as i64
            },
            nanos: (1_000_000_000 - nanos) as u32,
        }
    }
}

/// The timestamp of an offset from the epoch (see `epoch_offset_timestamp`).
pub fn timestamp_from_epoch_offset(before: bool, secs: u64, nanos: u32) -> (t: Timestamp)
    requires
        nanos < 1_000_000_000,
    ensures
        t == epoch_offset_timestamp(before, secs as int, nanos as int),
        t.nanos < 1_000_000_000,
{
    if !before {
        let seconds: i64 = if secs > 9_223_372_036_854_775_807u64 {
            i64::MAX
        } else {
            secs as i64
        };
        Timestamp { seconds, nanos }
    } else if nanos == 0 {
        let seconds: i64 = if secs >= 9_223_372_036_854_775_808u64 {
            i64::MIN
        } else {
            -(secs as i64)
        };
        Timestamp { seconds, nanos: 0 }
    } else {
        let seconds: i64 = if secs > 9_223_372_036_854_775_807u64 {
            i64::MIN
        } else {
            -(secs as i64) - 1
        };
        Timestamp { seconds, nanos: 1_000_000_000 - nanos }
    }
}

/// The current time: the system clock's offset from the Unix epoch, either side of it. Nothing
/// more is stated of the result: it is whatever the clock says.
pub fn current_time() -> (t: Timestamp)
    ensures
        t.nanos < 1_000_000_000,
{
    let now = SystemTime::now();
    match now.duration_since(unix_epoch()) {
        Ok(after) => timestamp_from_epoch_offset(false, after.as_secs(), after.subsec_nanos()),
        Err(error) => {
            let before = error.duration();
            timestamp_from_epoch_offset(true, before.as_secs(), before.subsec_nanos())
        },
    }
}

} // verus!

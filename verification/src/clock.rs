//! The wall clock, read through std: how long ago the Unix epoch was.

use vstd::prelude::*;

verus! {

/// Declares std's `SystemTime`, a point on the wall clock.
#[verifier::external_type_specification]
#[verifier::external_body]
pub struct ExSystemTime(std::time::SystemTime);

/// `SystemTime::now()`. Nothing is claimed of the value: it depends on
/// when the call is made.
#[verifier::external_body]
fn system_time_now() -> std::time::SystemTime {
    std::time::SystemTime::now()
}

/// `t.duration_since(UNIX_EPOCH)`, with `None` for std's error, which
/// comes when `t` is earlier than the epoch. Nothing is claimed of the
/// duration.
#[verifier::external_body]
fn since_unix_epoch(t: std::time::SystemTime) -> Option<core::time::Duration> {
    match t.duration_since(std::time::UNIX_EPOCH) {
        Ok(d) => Some(d),
        Err(_) => None,
    }
}

/// `d.as_millis()`: the whole milliseconds in `d`. Nothing is claimed of
/// the value, as a `Duration` is opaque here.
#[verifier::external_body]
fn duration_millis(d: core::time::Duration) -> u128 {
    d.as_millis()
}

/// `d.as_nanos()`: the whole nanoseconds in `d`. Nothing is claimed of
/// the value, as a `Duration` is opaque here.
#[verifier::external_body]
fn duration_nanos(d: core::time::Duration) -> u128 {
    d.as_nanos()
}

/// Milliseconds since the Unix epoch (cut to 64 bits), or `None` when
/// the clock reads earlier than the epoch.
pub fn unix_time_millis() -> Option<u64> {
    match since_unix_epoch(system_time_now()) {
        Some(d) => Some(duration_millis(d) as u64),
        None => None,
    }
}

/// Nanoseconds since the Unix epoch (cut to 64 bits), or `None` when the
/// clock reads earlier than the epoch.
pub fn unix_time_nanos() -> Option<u64> {
    match since_unix_epoch(system_time_now()) {
        Some(d) => Some(duration_nanos(d) as u64),
        None => None,
    }
}

} // verus!

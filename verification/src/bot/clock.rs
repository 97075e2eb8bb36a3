//! The wall clock and durations, as the searching bots use them.

use std::time::{Duration, Instant};

use vstd::prelude::*;

verus! {

/// `std::time::Instant`, carried through opaquely.
#[verifier::external_type_specification]
#[verifier::external_body]
pub struct ExInstant(Instant);

/// The current instant (calls `Instant::now`). It depends on the time of
/// the call, so nothing is stated of it.
#[verifier::external_body]
pub(crate) fn now() -> Instant {
    Instant::now()
}

/// Whether instant `a` is at or after instant `b` (calls `PartialOrd::ge`
/// of `Instant`). Instants are opaque here, so the result is left unstated.
#[verifier::external_body]
pub(crate) fn at_or_after(a: &Instant, b: &Instant) -> bool {
    *a >= *b
}

/// `a` plus `d`, or `None` when the sum does not fit an `Instant` (calls
/// `Instant::checked_add`). Instants are opaque here, so nothing is stated
/// of the result.
#[verifier::external_body]
pub(crate) fn later(a: Instant, d: Duration) -> Option<Instant> {
    a.checked_add(d)
}

/// The earlier of two instants (calls `Ord::min` of `Instant`).
#[verifier::external_body]
pub(crate) fn earlier(a: Instant, b: Instant) -> Instant {
    a.min(b)
}

/// A duration of `ms` milliseconds (calls `Duration::from_millis`).
#[verifier::external_body]
pub(crate) fn from_millis(ms: u64) -> Duration {
    Duration::from_millis(ms)
}

/// The whole milliseconds of `d` (calls `Duration::as_millis`). The
/// `Duration` is opaque here, so nothing is stated of the result.
#[verifier::external_body]
pub(crate) fn as_millis(d: &Duration) -> (r: u128) {
    d.as_millis()
}

/// The whole nanoseconds of `d` (calls `Duration::as_nanos`). Only its
/// range is stated: a `Duration` holds at most `u64::MAX` whole seconds.
#[verifier::external_body]
pub(crate) fn as_nanos(d: &Duration) -> (r: u128)
    ensures
        r / 1_000_000_000 <= u64::MAX,
{
    d.as_nanos()
}

/// The duration of `secs` seconds and `nanos` nanoseconds (calls
/// `Duration::new`, which panics only when `nanos` carries over into a
/// seconds count beyond `u64`; `nanos` below a second rules that out).
#[verifier::external_body]
pub(crate) fn duration_new(secs: u64, nanos: u32) -> Duration
    requires
        nanos < 1_000_000_000,
{
    Duration::new(secs, nanos)
}

/// The duration of `n` nanoseconds, for `n` that `Duration` can hold.
pub fn from_nanos_u128(n: u128) -> Duration
    requires
        n / 1_000_000_000 <= u64::MAX,
{
    let secs: u128 = n / 1_000_000_000;
    let nanos: u128 = n % 1_000_000_000;
    duration_new(secs as u64, nanos as u32)
}

/// The whole milliseconds of `d`, saturated to `u64`.
pub fn millis_u64(d: &Duration) -> (r: u64) {
    let ms = as_millis(d);
    if ms > 0xFFFF_FFFF_FFFF_FFFFu128 {
        0xFFFF_FFFF_FFFF_FFFFu64
    } else {
        ms as u64
    }
}

} // verus!

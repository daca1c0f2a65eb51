//! Measuring how long something takes.

use vstd::prelude::*;
use std::time::{Instant, SystemTime, UNIX_EPOCH};

verus! {

/// A point in time of the monotonic clock.
#[verifier::external_type_specification]
#[verifier::external_body]
pub struct ExInstant(std::time::Instant);

/// `Instant::now`: nothing is claimed of the time it gives.
#[verifier::external_body]
pub(crate) fn now() -> (r: Instant) {
    Instant::now()
}

/// `Instant::elapsed`, in whole microseconds: nothing is claimed of how long
/// it took.
#[verifier::external_body]
pub(crate) fn elapsed_us(start: &Instant) -> (r: u64) {
    start.elapsed().as_micros() as u64
}

/// The clock may have shown `at` as the present.
pub(crate) open spec fn shows(at: Instant) -> bool {
    call_ensures(now, (), at)
}

/// `us` may be the time since `start`.
pub(crate) open spec fn shows_since(start: Instant, us: u64) -> bool {
    call_ensures(elapsed_us, (&start,), us)
}

fn now_by<F: Fn() -> Instant>(f: F) -> (r: Instant)
    requires
        call_requires(f, ()),
    ensures
        call_ensures(f, (), r),
{
    f()
}

fn elapsed_by<F: Fn(&Instant) -> u64>(f: F, start: &Instant) -> (r: u64)
    requires
        call_requires(f, (start,)),
    ensures
        call_ensures(f, (start,), r),
{
    f(start)
}

/// The present.
pub(crate) fn present() -> (r: Instant)
    ensures
        shows(r),
{
    now_by(now)
}

/// The time since `start`, in whole microseconds.
pub(crate) fn us_since(start: &Instant) -> (r: u64)
    ensures
        shows_since(*start, r),
{
    elapsed_by(elapsed_us, start)
}

/// `SystemTime::now`, as the whole seconds since 1970 and the milliseconds of
/// the last one, which are fewer than a thousand: nothing more is claimed of
/// the time it gives. A clock before 1970 reads as 1970.
#[verifier::external_body]
pub(crate) fn unix_now() -> (r: (u64, u32))
    ensures
        r.1 < 1000,
{
    let since = SystemTime::now().duration_since(UNIX_EPOCH).unwrap_or_default();
    (since.as_secs(), since.subsec_millis())
}

/// The clock may have given `secs` and `millis` as the time since 1970.
pub(crate) open spec fn shows_unix(secs: u64, millis: u32) -> bool {
    call_ensures(unix_now, (), (secs, millis))
}

fn unix_by<F: Fn() -> (u64, u32)>(f: F) -> (r: (u64, u32))
    requires
        call_requires(f, ()),
    ensures
        call_ensures(f, (), r),
{
    f()
}

/// The time since 1970, in whole seconds and the milliseconds of the last one.
pub(crate) fn unix_present() -> (r: (u64, u32))
    ensures
        shows_unix(r.0, r.1),
        r.1 < 1000,
{
    unix_by(unix_now)
}

} // verus!

//! Times, as the standard library measures them.
use std::time::{Duration, Instant, SystemTime};
use vstd::prelude::*;

verus! {

/// A point in time of the standard library, of which nothing is known.
#[verifier::external_type_specification]
#[verifier::external_body]
pub struct ExInstant(std::time::Instant);

/// A time of the system clock, of which nothing is known.
#[verifier::external_type_specification]
#[verifier::external_body]
pub struct ExSystemTime(std::time::SystemTime);

/// The most nanoseconds that a `Duration` holds.
pub open spec fn most_nanos() -> int {
    u64::MAX * 1_000_000_000 + 999_999_999
}

/// How many nanoseconds a `Duration` holds.
pub uninterp spec fn nanos(d: std::time::Duration) -> nat;

/// `Duration::ZERO` is trusted to hold no nanosecond.
#[verifier::external_body]
pub(crate) fn no_time() -> (r: Duration)
    ensures
        nanos(r) == 0,
{
    Duration::ZERO
}

/// `Duration::checked_add` is trusted to give the sum where a `Duration` can hold it, and nothing
/// where it cannot.
#[verifier::external_body]
pub(crate) fn total_time(a: Duration, b: Duration) -> (r: Option<Duration>)
    ensures
        match r {
            Some(sum) => nanos(sum) == nanos(a) + nanos(b) && nanos(sum) <= most_nanos(),
            None => nanos(a) + nanos(b) > most_nanos(),
        },
{
    a.checked_add(b)
}

/// Of what `Instant::now` gives nothing is claimed.
pub assume_specification[ std::time::Instant::now ]() -> (r: std::time::Instant);

/// `t` is what the clock has shown: a call of `Instant::now` gave it.
pub open spec fn is_shown(t: Instant) -> bool {
    call_ensures(Instant::now, (), t)
}

/// What the clock shows.
pub(crate) fn now() -> (r: Instant)
    ensures
        is_shown(r),
{
    Instant::now()
}

/// Of what `Instant::elapsed` gives nothing is claimed.
pub assume_specification[ std::time::Instant::elapsed ](start: &std::time::Instant) -> (r:
    std::time::Duration);

/// `d` is the time that had passed since `start`: a call of `Instant::elapsed` gave it.
pub open spec fn is_elapsed(start: Instant, d: Duration) -> bool {
    call_ensures(Instant::elapsed, (&start,), d)
}

/// How much time has passed since `start`.
pub(crate) fn elapsed_since(start: &Instant) -> (r: Duration)
    ensures
        is_elapsed(*start, r),
{
    start.elapsed()
}

/// Of what `SystemTime::now` gives nothing is claimed.
pub assume_specification[ std::time::SystemTime::now ]() -> (r: std::time::SystemTime);

/// `t` is what the system clock has shown: a call of `SystemTime::now` gave it.
pub open spec fn is_system_time(t: SystemTime) -> bool {
    call_ensures(SystemTime::now, (), t)
}

/// Of what `SystemTime::duration_since` gives for the Unix epoch nothing is claimed.
#[verifier::external_body]
fn duration_since_epoch(time: &SystemTime) -> (r: Option<Duration>)
{
    time.duration_since(std::time::UNIX_EPOCH).ok()
}

/// `since` is the time from the Unix epoch to `t`, nothing where `t` is the earlier one: a call of
/// `SystemTime::duration_since` gave it.
pub closed spec fn is_since_epoch(t: SystemTime, since: Option<Duration>) -> bool {
    call_ensures(duration_since_epoch, (&t,), since)
}

/// `since` is the time from the Unix epoch to what the system clock has shown.
pub open spec fn is_epoch_time(since: Option<Duration>) -> bool {
    exists|t: SystemTime| is_system_time(t) && #[trigger] is_since_epoch(t, since)
}

/// The time from the Unix epoch to what the system clock shows.
pub(crate) fn epoch_time() -> (since: Option<Duration>)
    ensures
        is_epoch_time(since),
{
    let t = SystemTime::now();
    let since = duration_since_epoch(&t);
    assert(is_system_time(t) && is_since_epoch(t, since));
    since
}

/// `Duration::as_nanos` is trusted to give the nanoseconds that a `Duration` holds.
#[verifier::external_body]
pub(crate) fn whole_nanos(d: &Duration) -> (r: u128)
    ensures
        r == nanos(*d),
{
    d.as_nanos()
}

} // verus!

use vstd::prelude::*;

verus! {

/// A point in time: whole seconds since the Unix epoch and the nanoseconds into that
/// second, as `chrono::DateTime::timestamp` and `timestamp_subsec_nanos` give them
/// (the nanoseconds reach past 999_999_999 only within a leap second).
#[derive(Debug, Clone, Copy, PartialEq, Eq, Structural)]
pub struct Timestamp {
    pub secs: i64,
    pub nanos: u32,
}

/// `a` comes strictly before `b`: the order of `chrono::DateTime`, seconds first,
/// then nanoseconds.
pub open spec fn is_before(a: Timestamp, b: Timestamp) -> bool {
    a.secs < b.secs || (a.secs == b.secs && a.nanos < b.nanos)
}

/// The order of points in time is by seconds first: a point in an earlier second comes
/// before every point in a later second, whatever the nanoseconds, and within one second
/// the one with fewer nanoseconds comes first.
pub proof fn lemma_before_by_seconds_first(a: Timestamp, b: Timestamp)
    ensures
        a.secs < b.secs ==> is_before(a, b),
        is_before(a, b) ==> a.secs <= b.secs,
        a.secs == b.secs ==> (is_before(a, b) <==> a.nanos < b.nanos),
{
}

/// Whether `a` comes strictly before `b`.
pub fn is_earlier(a: Timestamp, b: Timestamp) -> (r: bool)
    ensures
        r == is_before(a, b),
        a.secs < b.secs ==> r,
        a.secs > b.secs ==> !r,
        a.secs == b.secs ==> (r <==> a.nanos < b.nanos),
{
    a.secs < b.secs || (a.secs == b.secs && a.nanos < b.nanos)
}

/// The nanoseconds from `s` to `f` as `chrono` counts them: whole days, the seconds
/// of the day between them, and a leap second that lies in between counted once.
pub open spec fn span_nanos(s: Timestamp, f: Timestamp) -> int {
    let ts = s.secs % 86_400;
    let tf = f.secs % 86_400;
    let days = (f.secs - tf) - (s.secs - ts);
    let leap = if tf > ts && s.nanos >= 1_000_000_000 {
        1int
    } else if tf < ts && f.nanos >= 1_000_000_000 {
        -1int
    } else {
        0int
    };
    (days + (tf - ts) + leap) * 1_000_000_000 + (f.nanos - s.nanos)
}

/// Division rounded toward zero.
pub open spec fn div_toward_zero(x: int, d: int) -> int {
    if x >= 0 {
        x / d
    } else {
        -((-x) / d)
    }
}

/// The whole milliseconds from `s` to `f` (rounded toward zero), as an unsigned value:
/// a negative span wraps.
pub open spec fn elapsed_ms(s: Timestamp, f: Timestamp) -> u64 {
    div_toward_zero(span_nanos(s, f), 1_000_000) as u64
}

/// The whole milliseconds from `s` to `f`, as `elapsed_ms` says.
pub fn elapsed_ms_between(s: Timestamp, f: Timestamp) -> (r: u64)
    ensures
        r == elapsed_ms(s, f),
{
    let ts = s.secs.checked_rem_euclid(86_400).unwrap();
    let tf = f.secs.checked_rem_euclid(86_400).unwrap();
    let days: i128 = (f.secs as i128 - tf as i128) - (s.secs as i128 - ts as i128);
    let mut secs: i128 = tf as i128 - ts as i128;
    if tf > ts && s.nanos >= 1_000_000_000 {
        secs = secs + 1;
    } else if tf < ts && f.nanos >= 1_000_000_000 {
        secs = secs - 1;
    }
    let span: i128 = (days + secs) * 1_000_000_000 + (f.nanos as i128 - s.nanos as i128);
    let ms: i128 = if span >= 0 {
        span / 1_000_000
    } else {
        -((-span) / 1_000_000)
    };
    ms as u64
}

/// `chrono::Utc::now`, read as `DateTime::timestamp` and `timestamp_subsec_nanos`. The
/// value is the current time, taken from the system clock as a duration since the Unix
/// epoch: it is not before the epoch and its nanoseconds stay below one second (the
/// system clock has no leap seconds). Nothing else is stated of it, and two calls may
/// give different values.
#[verifier::external_body]
pub fn now() -> (r: Timestamp)
    ensures
        r.secs >= 0,
        r.nanos < 1_000_000_000,
{
    let t = chrono::Utc::now();
    Timestamp { secs: t.timestamp(), nanos: t.timestamp_subsec_nanos() }
}

} // verus!

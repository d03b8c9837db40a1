//! Time: a monotonic count for deadlines and a timestamp for observations.
use std::time::{Duration, Instant};

use vstd::prelude::*;

verus! {

/// A point of the monotonic clock.
#[verifier::external_type_specification]
#[verifier::external_body]
pub struct ExInstant(std::time::Instant);

/// `Instant::now`. The result depends on the moment of the call, so nothing is promised of it.
#[verifier::external_body]
fn instant() -> Instant {
    Instant::now()
}

/// `Instant::elapsed`. The result depends on the moment of the call, so nothing is promised of
/// it.
#[verifier::external_body]
fn since(start: &Instant) -> Duration {
    start.elapsed()
}

/// `Duration::as_millis`: the whole milliseconds of a length of time. A length of time shows nothing
/// of itself here, and it came from the clock, so nothing is promised of the number.
#[verifier::external_body]
fn whole_millis(duration: &Duration) -> u128 {
    duration.as_millis()
}

/// `chrono::Utc::now` rendered by `to_rfc3339_opts` with milliseconds and a `Z`. The text depends
/// on the moment of the call, so nothing is promised of it.
#[verifier::external_body]
fn utc_timestamp() -> String {
    chrono::Utc::now().to_rfc3339_opts(chrono::SecondsFormat::Millis, true)
}

/// How long a worker may go on before it lets others run.
pub const QUANTUM_MS: u128 = 20;

/// Whether this is a number of whole milliseconds that the clock gives for the time since
/// `start`.
pub closed spec fn passed(start: &Instant, millis: u128) -> bool {
    exists|length: Duration|
        {
            &&& #[trigger] call_ensures(since, (start,), length)
            &&& call_ensures(whole_millis, (&length,), millis)
        }
}

/// Whether this is a text that the clock gives for the present time.
pub closed spec fn stamped(text: String) -> bool {
    call_ensures(utc_timestamp, (), text)
}

/// The whole milliseconds since `start`, by the clock.
fn millis_since(start: &Instant) -> (millis: u128)
    ensures
        passed(start, millis),
{
    let length = since(start);
    let millis: u128 = whole_millis(&length);
    assert(call_ensures(since, (start,), length));
    millis
}

/// Whether this is a point of time that the clock gives for the present.
pub closed spec fn is_now(start: Instant) -> bool {
    call_ensures(instant, (), start)
}

/// Whether a worker that began at `start` can be told by the clock that its time is over, or that
/// it is not.
pub open spec fn spent(start: &Instant, over: bool) -> bool {
    exists|millis: u128| #[trigger] passed(start, millis) && over == (millis >= QUANTUM_MS)
}

/// The present point of time, from which a worker counts its time.
pub(crate) fn begin() -> (start: Instant)
    ensures
        is_now(start),
{
    instant()
}

/// Whether a worker that began at `start` has used its time up, by the clock.
pub(crate) fn quantum_is_over(start: &Instant) -> (over: bool)
    ensures
        spent(start, over),
{
    millis_since(start) >= QUANTUM_MS
}

/// One reading of a clock.
#[derive(Debug)]
pub struct TimeSample {
    pub monotonic_ms: u64,
    pub observed_at: String,
}

/// What a reading says.
#[verifier::ext_equal]
pub struct TimeView {
    pub monotonic_ms: u64,
    pub observed_at: Seq<char>,
}

impl View for TimeSample {
    type V = TimeView;

    open spec fn view(&self) -> TimeView {
        TimeView { monotonic_ms: self.monotonic_ms, observed_at: self.observed_at@ }
    }
}

impl Clone for TimeSample {
    fn clone(&self) -> (other: Self)
        ensures
            other@ == self@,
    {
        TimeSample { monotonic_ms: self.monotonic_ms, observed_at: self.observed_at.clone() }
    }
}

/// A source of time.
pub trait Clock: Send + Sync {
    fn sample(&self) -> TimeSample;
}

/// Whether this is a time that a clock gives.
pub open spec fn reads<C: Clock + ?Sized>(clock: &C, time: TimeView) -> bool {
    exists|sample: TimeSample|
        sample@ == time && #[trigger] call_ensures(C::sample, (clock,), sample)
}

/// Milliseconds as far as 64 bits go.
pub open spec fn clip(millis: u128) -> u64 {
    if millis <= u64::MAX {
        millis as u64
    } else {
        u64::MAX
    }
}

/// Milliseconds as far as 64 bits go.
pub fn clipped_millis(millis: u128) -> (clipped: u64)
    ensures
        clipped == clip(millis),
{
    if millis <= u64::MAX as u128 {
        millis as u64
    } else {
        u64::MAX
    }
}

/// The clock of the machine.
pub struct SystemClock {
    started: Instant,
}

impl Default for SystemClock {
    fn default() -> Self {
        SystemClock { started: begin() }
    }
}

impl SystemClock {
    /// Whether the clock has run for this many whole milliseconds, by its own count.
    pub closed spec fn has_run(&self, millis: u128) -> bool {
        passed(&self.started, millis)
    }
}

impl Clock for SystemClock {
    /// The milliseconds that the clock has run, and the present time.
    fn sample(&self) -> (time: TimeSample)
        ensures
            exists|millis: u128| #[trigger] self.has_run(millis) && time.monotonic_ms == clip(millis),
            stamped(time.observed_at),
    {
        let millis: u128 = millis_since(&self.started);
        assert(self.has_run(millis));
        TimeSample {
            monotonic_ms: clipped_millis(millis),
            observed_at: utc_timestamp(),
        }
    }
}

} // verus!

//! Records how long each phase of building a trace takes.
use std::time::{Duration, Instant};
use vstd::prelude::*;

verus! {

#[verifier::external_type_specification]
#[verifier::external_body]
pub struct ExInstant(Instant);

/// A phase of building a trace.
#[derive(Clone, Copy, Debug, Hash, PartialEq, Eq, Structural)]
pub enum Action {
    GenerateDebugUnits,
    PrepareDebugUnits,
    GenerateSteps,
    GenerateVariableDefinitions,
}

/// The current time (std's `Instant::now`); nothing is stated of the instant,
/// which comes from the system clock.
#[verifier::external_body]
fn instant_now() -> Instant {
    Instant::now()
}

/// The time from `earlier` to `later` (std's `Instant::duration_since`); nothing
/// is stated of the duration, which depends on the clock readings.
#[verifier::external_body]
fn duration_between(later: &Instant, earlier: &Instant) -> Duration {
    later.duration_since(*earlier)
}

/// Records, for each captured action, the time since the previous capture.
pub struct MetricsRecorder {
    /// when the previous capture (or the recorder) was made
    pub last_capture: Instant,
    pub metrics: Vec<(Action, Duration)>,
}

impl View for MetricsRecorder {
    /// the recorded `(action, duration)` pairs, in the order of their capture
    type V = Seq<(Action, Duration)>;

    open spec fn view(&self) -> Seq<(Action, Duration)> {
        self.metrics@
    }
}

impl MetricsRecorder {
    pub fn new() -> (r: Self)
        ensures
            r@.len() == 0,
    {
        let now = instant_now();
        MetricsRecorder { last_capture: now, metrics: Vec::new() }
    }

    /// Records `action` with the time elapsed since the previous capture (or since
    /// the recorder was made), read from the clock now.
    pub fn capture(&mut self, action: Action)
        ensures
            final(self)@ == old(self)@.push((action, final(self)@.last().1)),
    {
        let now = instant_now();
        self.capture_at(action, now);
    }

    /// Records `action` at the instant `now`, with the time from the previous
    /// capture (or from when the recorder was made) to `now`; the next capture
    /// measures from `now`.
    pub fn capture_at(&mut self, action: Action, now: Instant)
        ensures
            final(self)@ == old(self)@.push((action, final(self)@.last().1)),
            final(self).last_capture == now,
    {
        let duration = duration_between(&now, &self.last_capture);
        self.metrics.push((action, duration));
        self.last_capture = now;
    }
}

} // verus!

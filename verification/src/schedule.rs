//! The decisions of a benchmark run: when to warm up, when to measure, when to stop,
//! and when progress is shown again. The runner measures time and runs the iterations;
//! these types decide from the readings it hands in.
use vstd::prelude::*;
use crate::analysis::AnalysisProgressState;

verus! {

/// Nanoseconds in one second.
pub const NANOS_PER_SEC: u128 = 1_000_000_000;

/// Least time between two renderings of the run progress, in nanoseconds.
pub const PROGRESS_UPDATE_NANOS: u128 = 100_000_000;

/// Least time between two published analysis progress states, in nanoseconds.
pub const ANALYSIS_UPDATE_NANOS: u128 = 250_000_000;

/// Phase of one benchmark run.
#[derive(Clone, Copy, Debug, PartialEq, Eq, Structural)]
pub enum RunPhase {
    /// Iterations whose spans are not recorded.
    Warmup,
    /// Recorded iterations.
    Measured,
}

/// What the runner does next.
#[derive(Clone, Copy, Debug, PartialEq, Eq, Structural)]
pub enum RunStep {
    /// Run one warmup iteration.
    WarmupIteration,
    /// Warmup is over: drop what was recorded and restart the clock for the measured phase.
    StartMeasured,
    /// Run one measured iteration.
    MeasuredIteration,
    /// The measured phase is complete.
    Finished,
}

/// Decides the course of one benchmark run from the elapsed time of the current phase.
pub struct RunSchedule {
    phase: RunPhase,
    iters: usize,
    warmup_nanos: u128,
    num_iters: usize,
    min_run_nanos: u128,
}

/// The measured phase may end after `iters` iterations taking `elapsed` nanoseconds:
/// at least one iteration ran, at least `num_iters` iterations ran, and at least
/// `min_run` nanoseconds passed.
pub open spec fn measured_done(iters: int, num_iters: int, elapsed: int, min_run: int) -> bool {
    iters >= 1 && iters >= num_iters && elapsed >= min_run
}

impl RunSchedule {
    pub closed spec fn phase(&self) -> RunPhase {
        self.phase
    }

    /// Measured iterations run so far.
    pub closed spec fn iters(&self) -> usize {
        self.iters
    }

    pub closed spec fn warmup_nanos(&self) -> int {
        self.warmup_nanos as int
    }

    pub closed spec fn num_iters(&self) -> usize {
        self.num_iters
    }

    pub closed spec fn min_run_nanos(&self) -> int {
        self.min_run_nanos as int
    }

    /// A run that warms up for `warmup_seconds` seconds, then measures at least
    /// `num_iters` iterations and at least `min_run_nanos` nanoseconds.
    pub fn new(warmup_seconds: usize, num_iters: usize, min_run_nanos: u128) -> (s: Self)
        ensures
            s.phase() == RunPhase::Warmup,
            s.iters() == 0,
            s.warmup_nanos() == warmup_seconds * 1_000_000_000,
            s.num_iters() == num_iters,
            s.min_run_nanos() == min_run_nanos,
    {
        let w: u128 = warmup_seconds as u128;
        assert(w * 1_000_000_000 < u128::MAX) by (nonlinear_arith)
            requires w <= u64::MAX;
        RunSchedule {
            phase: RunPhase::Warmup,
            iters: 0,
            warmup_nanos: w * NANOS_PER_SEC,
            num_iters,
            min_run_nanos,
        }
    }

    /// Measured iterations run so far.
    pub fn measured_iters(&self) -> (r: usize)
        ensures
            r == self.iters(),
    {
        self.iters
    }

    /// The next step, `elapsed_nanos` nanoseconds after the start of the current phase.
    /// In the warmup, iterations run while the warmup time has not passed; the measured
    /// phase runs at least one iteration and ends once both thresholds are met.
    pub fn next_step(&mut self, elapsed_nanos: u128) -> (step: RunStep)
        requires
            old(self).phase() == RunPhase::Measured ==> (old(self).iters() < usize::MAX
                || measured_done(old(self).iters() as int, old(self).num_iters() as int,
                    elapsed_nanos as int, old(self).min_run_nanos())),
        ensures
            final(self).warmup_nanos() == old(self).warmup_nanos(),
            final(self).num_iters() == old(self).num_iters(),
            final(self).min_run_nanos() == old(self).min_run_nanos(),
            old(self).phase() == RunPhase::Warmup ==> if elapsed_nanos < old(self).warmup_nanos() {
                &&& step == RunStep::WarmupIteration
                &&& final(self).phase() == RunPhase::Warmup
                &&& final(self).iters() == old(self).iters()
            } else {
                &&& step == RunStep::StartMeasured
                &&& final(self).phase() == RunPhase::Measured
                &&& final(self).iters() == 0
            },
            old(self).phase() == RunPhase::Measured ==> if measured_done(
                old(self).iters() as int, old(self).num_iters() as int, elapsed_nanos as int,
                old(self).min_run_nanos()) {
                &&& step == RunStep::Finished
                &&& final(self).phase() == RunPhase::Measured
                &&& final(self).iters() == old(self).iters()
            } else {
                &&& step == RunStep::MeasuredIteration
                &&& final(self).phase() == RunPhase::Measured
                &&& final(self).iters() == old(self).iters() + 1
            },
            step == RunStep::Finished ==> old(self).phase() == RunPhase::Measured && old(self).iters() >= 1
                && old(self).iters() >= old(self).num_iters() && elapsed_nanos >= old(self).min_run_nanos(),
            (old(self).phase() == RunPhase::Measured && old(self).iters() >= 1 && old(self).iters()
                >= old(self).num_iters() && elapsed_nanos >= old(self).min_run_nanos()) ==> step
                == RunStep::Finished,
    {
        match self.phase {
            RunPhase::Warmup => {
                if elapsed_nanos < self.warmup_nanos {
                    RunStep::WarmupIteration
                } else {
                    self.phase = RunPhase::Measured;
                    self.iters = 0;
                    RunStep::StartMeasured
                }
            },
            RunPhase::Measured => {
                if self.iters >= 1 && self.iters >= self.num_iters && elapsed_nanos >= self.min_run_nanos {
                    RunStep::Finished
                } else {
                    self.iters = self.iters + 1;
                    RunStep::MeasuredIteration
                }
            },
        }
    }
}

/// `a - b`, or 0 when `b` is later than `a`.
pub open spec fn elapsed_since(now: int, last: int) -> int {
    if now >= last { now - last } else { 0 }
}

/// Limits how often something is shown: at most once per interval unless forced.
pub struct Throttle {
    interval_nanos: u128,
    last: Option<u128>,
}

impl Throttle {
    pub closed spec fn interval(&self) -> int {
        self.interval_nanos as int
    }

    /// When it last fired, in nanoseconds on the caller's clock.
    pub closed spec fn last(&self) -> Option<u128> {
        self.last
    }

    /// A throttle with the given interval that has never fired.
    pub fn new(interval_nanos: u128) -> (t: Self)
        ensures
            t.interval() == interval_nanos,
            t.last() is None,
    {
        Throttle { interval_nanos, last: None }
    }

    /// Whether to fire at time `now`: when forced, the first time, or once the interval has
    /// passed since the last firing. Firing records `now`.
    pub fn should_fire(&mut self, now: u128, force: bool) -> (r: bool)
        ensures
            r == (force || match old(self).last() {
                None => true,
                Some(l) => elapsed_since(now as int, l as int) >= old(self).interval(),
            }),
            final(self).interval() == old(self).interval(),
            final(self).last() == if r { Some(now) } else { old(self).last() },
    {
        let due = match self.last {
            None => true,
            Some(l) => {
                let passed: u128 = if now >= l { now - l } else { 0 };
                passed >= self.interval_nanos
            },
        };
        let fire = force || due;
        if fire {
            self.last = Some(now);
        }
        fire
    }
}

/// Whether the terminal shows the run progress now (see [`Throttle::should_fire`]):
/// never when the output is not a terminal.
pub fn should_render(throttle: &mut Throttle, enabled: bool, now: u128, force: bool) -> (r: bool)
    ensures
        !enabled ==> !r && *final(throttle) == *old(throttle),
        enabled ==> r == (force || match old(throttle).last() {
            None => true,
            Some(l) => elapsed_since(now as int, l as int) >= old(throttle).interval(),
        }),
        enabled ==> final(throttle).last() == if r { Some(now) } else { old(throttle).last() },
        final(throttle).interval() == old(throttle).interval(),
{
    if !enabled {
        return false;
    }
    throttle.should_fire(now, force)
}

/// Whether an analysis progress update `state` is published at time `now`, after the
/// previously published state `prev`: when the interval has passed, when the phase is
/// complete, or when the phase changed.
pub fn should_publish(
    throttle: &mut Throttle,
    prev: Option<AnalysisProgressState>,
    state: AnalysisProgressState,
    now: u128,
) -> (r: bool)
    ensures
        r == (match old(throttle).last() {
            None => true,
            Some(l) => elapsed_since(now as int, l as int) >= old(throttle).interval(),
        } || state.completed == state.total || match prev {
            None => true,
            Some(p) => p.phase != state.phase,
        }),
        final(throttle).interval() == old(throttle).interval(),
        final(throttle).last() == if r { Some(now) } else { old(throttle).last() },
{
    let changed = match prev {
        None => true,
        Some(p) => p.phase != state.phase,
    };
    let force = state.completed == state.total || changed;
    throttle.should_fire(now, force)
}

} // verus!

//! Metric descriptions and the arithmetic on raw counter readings.
use std::marker::PhantomData;
use vstd::prelude::*;

verus! {

/// How one metric is presented in a report.
pub struct MetricReportInfo {
    /// Name of the metric, shown in the column header.
    pub name: &'static str,
    /// Whether the `[min .. max]` row is shown.
    pub show_spread: bool,
    /// Whether the comparison with the baseline is shown.
    pub show_baseline: bool,
}

impl MetricReportInfo {
    /// A metric named `name`, shown with spread and baseline.
    pub fn new(name: &'static str) -> (r: Self)
        ensures
            r.name == name,
            r.show_spread,
            r.show_baseline,
    {
        MetricReportInfo { name, show_spread: true, show_baseline: true }
    }

    /// The same metric, without the spread row.
    pub fn with_no_spread(self) -> (r: Self)
        ensures
            r.name == self.name,
            !r.show_spread,
            r.show_baseline == self.show_baseline,
    {
        MetricReportInfo { show_spread: false, ..self }
    }

    /// The same metric, without the baseline comparison.
    pub fn with_no_baseline(self) -> (r: Self)
        ensures
            r.name == self.name,
            r.show_spread == self.show_spread,
            !r.show_baseline,
    {
        MetricReportInfo { show_baseline: false, ..self }
    }
}

/// Wall time of a span, in nanoseconds.
#[derive(Clone, Copy, Debug, Default)]
pub struct InstantProvider;

/// A metric computed from the result of other metrics by `op`.
pub struct CalculateMetric<State, Result, Op> {
    op: Op,
    _phantom: PhantomData<(State, Result)>,
}

impl<State, Result, Op: Fn(&State) -> Result> CalculateMetric<State, Result, Op> {
    /// The operation this metric applies.
    pub closed spec fn op(&self) -> Op {
        self.op
    }

    pub fn new(op: Op) -> (r: Self)
        ensures
            r.op() == op,
    {
        CalculateMetric { op, _phantom: PhantomData }
    }

    /// Applies the operation to `result`.
    pub fn calculate(&self, result: &State) -> (r: Result)
        requires
            call_requires(self.op(), (result,)),
        ensures
            call_ensures(self.op(), (result,), r),
    {
        (self.op)(result)
    }
}

/// Growth of a monotonic counter between two readings.
pub fn counter_delta(start: u64, end: u64) -> (r: u64)
    requires
        start <= end,
    ensures
        r == end - start,
{
    end - start
}

/// Which `getrusage` field a metric reports.
#[derive(Clone, Copy, Debug, PartialEq, Eq, Structural)]
pub enum RusageKind {
    UserTime,
    SystemTime,
    MaxResidentSetSize,
    IntegralSharedMemorySize,
    IntegralUnsharedDataSize,
    IntegralUnsharedStackSize,
    PageReclaims,
    PageFaults,
    Swaps,
    BlockInputOperations,
    BlockOutputOperations,
    MessagesSent,
    MessagesReceived,
    SignalsReceived,
    VoluntaryContextSwitches,
    InvoluntaryContextSwitches,
}

/// The fields of one `getrusage` reading, as the kernel reports them.
#[derive(Clone, Copy, Debug)]
pub struct RusageSample {
    pub utime_sec: i64,
    pub utime_usec: i64,
    pub stime_sec: i64,
    pub stime_usec: i64,
    pub maxrss: i64,
    pub ixrss: i64,
    pub idrss: i64,
    pub isrss: i64,
    pub minflt: i64,
    pub majflt: i64,
    pub nswap: i64,
    pub inblock: i64,
    pub oublock: i64,
    pub msgsnd: i64,
    pub msgrcv: i64,
    pub nsignals: i64,
    pub nvcsw: i64,
    pub nivcsw: i64,
}

/// A time of `sec` seconds and `usec` microseconds, in nanoseconds.
pub open spec fn nanos_of(sec: i64, usec: i64) -> int {
    sec * 1_000_000_000 + usec * 1000
}

/// A time reading converts to nanoseconds without overflow.
pub open spec fn time_fits(sec: i64, usec: i64) -> bool {
    0 <= sec && 0 <= usec && nanos_of(sec, usec) <= u64::MAX
}

/// The reading of `kind` in `s` can be taken: time readings must convert without overflow.
pub open spec fn rusage_fits(kind: RusageKind, s: RusageSample) -> bool {
    match kind {
        RusageKind::UserTime => time_fits(s.utime_sec, s.utime_usec),
        RusageKind::SystemTime => time_fits(s.stime_sec, s.stime_usec),
        _ => true,
    }
}

/// The value reported for `kind`: times in nanoseconds, other fields as they are,
/// reinterpreted as unsigned.
pub open spec fn rusage_value_spec(kind: RusageKind, s: RusageSample) -> u64 {
    match kind {
        RusageKind::UserTime => nanos_of(s.utime_sec, s.utime_usec) as u64,
        RusageKind::SystemTime => nanos_of(s.stime_sec, s.stime_usec) as u64,
        RusageKind::MaxResidentSetSize => s.maxrss as u64,
        RusageKind::IntegralSharedMemorySize => s.ixrss as u64,
        RusageKind::IntegralUnsharedDataSize => s.idrss as u64,
        RusageKind::IntegralUnsharedStackSize => s.isrss as u64,
        RusageKind::PageReclaims => s.minflt as u64,
        RusageKind::PageFaults => s.majflt as u64,
        RusageKind::Swaps => s.nswap as u64,
        RusageKind::BlockInputOperations => s.inblock as u64,
        RusageKind::BlockOutputOperations => s.oublock as u64,
        RusageKind::MessagesSent => s.msgsnd as u64,
        RusageKind::MessagesReceived => s.msgrcv as u64,
        RusageKind::SignalsReceived => s.nsignals as u64,
        RusageKind::VoluntaryContextSwitches => s.nvcsw as u64,
        RusageKind::InvoluntaryContextSwitches => s.nivcsw as u64,
    }
}

fn time_nanos(sec: i64, usec: i64) -> (r: u64)
    requires
        time_fits(sec, usec),
    ensures
        r == nanos_of(sec, usec),
{
    (sec as u64) * 1_000_000_000 + (usec as u64) * 1000
}

/// The value of `kind` in the reading `s`.
pub fn rusage_value(kind: RusageKind, s: &RusageSample) -> (r: u64)
    requires
        rusage_fits(kind, *s),
    ensures
        r == rusage_value_spec(kind, *s),
{
    match kind {
        RusageKind::UserTime => time_nanos(s.utime_sec, s.utime_usec),
        RusageKind::SystemTime => time_nanos(s.stime_sec, s.stime_usec),
        RusageKind::MaxResidentSetSize => s.maxrss as u64,
        RusageKind::IntegralSharedMemorySize => s.ixrss as u64,
        RusageKind::IntegralUnsharedDataSize => s.idrss as u64,
        RusageKind::IntegralUnsharedStackSize => s.isrss as u64,
        RusageKind::PageReclaims => s.minflt as u64,
        RusageKind::PageFaults => s.majflt as u64,
        RusageKind::Swaps => s.nswap as u64,
        RusageKind::BlockInputOperations => s.inblock as u64,
        RusageKind::BlockOutputOperations => s.oublock as u64,
        RusageKind::MessagesSent => s.msgsnd as u64,
        RusageKind::MessagesReceived => s.msgrcv as u64,
        RusageKind::SignalsReceived => s.nsignals as u64,
        RusageKind::VoluntaryContextSwitches => s.nvcsw as u64,
        RusageKind::InvoluntaryContextSwitches => s.nivcsw as u64,
    }
}

/// Each kind reads its own `getrusage` field: times as nanoseconds from their seconds and
/// microseconds, every other kind as its field reinterpreted as unsigned; no kind looks at
/// another field.
pub proof fn lemma_rusage_fields(s: RusageSample, t: RusageSample)
    ensures
        time_fits(s.utime_sec, s.utime_usec) ==> rusage_value_spec(RusageKind::UserTime, s)
            == s.utime_sec * 1_000_000_000 + s.utime_usec * 1000,
        time_fits(s.stime_sec, s.stime_usec) ==> rusage_value_spec(RusageKind::SystemTime, s)
            == s.stime_sec * 1_000_000_000 + s.stime_usec * 1000,
        rusage_value_spec(RusageKind::MaxResidentSetSize, s) == s.maxrss as u64,
        rusage_value_spec(RusageKind::IntegralSharedMemorySize, s) == s.ixrss as u64,
        rusage_value_spec(RusageKind::IntegralUnsharedDataSize, s) == s.idrss as u64,
        rusage_value_spec(RusageKind::IntegralUnsharedStackSize, s) == s.isrss as u64,
        rusage_value_spec(RusageKind::PageReclaims, s) == s.minflt as u64,
        rusage_value_spec(RusageKind::PageFaults, s) == s.majflt as u64,
        rusage_value_spec(RusageKind::Swaps, s) == s.nswap as u64,
        rusage_value_spec(RusageKind::BlockInputOperations, s) == s.inblock as u64,
        rusage_value_spec(RusageKind::BlockOutputOperations, s) == s.oublock as u64,
        rusage_value_spec(RusageKind::MessagesSent, s) == s.msgsnd as u64,
        rusage_value_spec(RusageKind::MessagesReceived, s) == s.msgrcv as u64,
        rusage_value_spec(RusageKind::SignalsReceived, s) == s.nsignals as u64,
        rusage_value_spec(RusageKind::VoluntaryContextSwitches, s) == s.nvcsw as u64,
        rusage_value_spec(RusageKind::InvoluntaryContextSwitches, s) == s.nivcsw as u64,
        s.nvcsw == t.nvcsw ==> rusage_value_spec(RusageKind::VoluntaryContextSwitches, s)
            == rusage_value_spec(RusageKind::VoluntaryContextSwitches, t),
        s.nivcsw == t.nivcsw ==> rusage_value_spec(RusageKind::InvoluntaryContextSwitches, s)
            == rusage_value_spec(RusageKind::InvoluntaryContextSwitches, t),
        (s.utime_sec == t.utime_sec && s.utime_usec == t.utime_usec) ==> rusage_value_spec(
            RusageKind::UserTime, s) == rusage_value_spec(RusageKind::UserTime, t),
        (s.stime_sec == t.stime_sec && s.stime_usec == t.stime_usec) ==> rusage_value_spec(
            RusageKind::SystemTime, s) == rusage_value_spec(RusageKind::SystemTime, t),
{
}


/// Hardware events that the system counters can report.
#[derive(Clone, Copy, Debug, PartialEq, Eq, Structural, Hash)]
pub enum Event {
    Cycles,
    Instructions,
    Branches,
    BranchMisses,
}

/// One reading of all multiplexed hardware counters.
#[derive(Clone, Copy, Debug)]
pub struct KperfResult {
    pub cycles: u64,
    pub instructions: u64,
    pub branches: u64,
    pub branch_misses: u64,
}

impl KperfResult {
    /// The counter of `ev`.
    pub fn for_event(&self, ev: Event) -> (r: u64)
        ensures
            r == match ev {
                Event::Cycles => self.cycles,
                Event::Instructions => self.instructions,
                Event::Branches => self.branches,
                Event::BranchMisses => self.branch_misses,
            },
    {
        match ev {
            Event::Cycles => self.cycles,
            Event::Instructions => self.instructions,
            Event::Branches => self.branches,
            Event::BranchMisses => self.branch_misses,
        }
    }

    /// Growth of every counter since the reading `start`.
    pub fn difference(&self, start: &KperfResult) -> (r: KperfResult)
        requires
            start.cycles <= self.cycles,
            start.instructions <= self.instructions,
            start.branches <= self.branches,
            start.branch_misses <= self.branch_misses,
        ensures
            r.cycles == self.cycles - start.cycles,
            r.instructions == self.instructions - start.instructions,
            r.branches == self.branches - start.branches,
            r.branch_misses == self.branch_misses - start.branch_misses,
    {
        KperfResult {
            cycles: self.cycles - start.cycles,
            instructions: self.instructions - start.instructions,
            branches: self.branches - start.branches,
            branch_misses: self.branch_misses - start.branch_misses,
        }
    }
}

} // verus!

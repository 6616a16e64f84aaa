use profiler::analysis::{AnalysisPhase, AnalysisProgressState};
use profiler::schedule::{should_publish, should_render, RunSchedule, RunStep, Throttle};

#[test]
fn run_warms_up_then_measures_until_both_thresholds() {
    let mut s = RunSchedule::new(1, 3, 100);
    assert_eq!(s.next_step(0), RunStep::WarmupIteration);
    assert_eq!(s.next_step(999_999_999), RunStep::WarmupIteration);
    assert_eq!(s.next_step(1_000_000_000), RunStep::StartMeasured);
    assert_eq!(s.next_step(0), RunStep::MeasuredIteration);
    assert_eq!(s.next_step(200), RunStep::MeasuredIteration);
    assert_eq!(s.next_step(50), RunStep::MeasuredIteration);
    assert_eq!(s.measured_iters(), 3);
    assert_eq!(s.next_step(50), RunStep::MeasuredIteration);
    assert_eq!(s.next_step(150), RunStep::Finished);
    assert_eq!(s.measured_iters(), 4);
}

#[test]
fn measured_phase_runs_at_least_one_iteration() {
    let mut s = RunSchedule::new(0, 0, 0);
    assert_eq!(s.next_step(0), RunStep::StartMeasured);
    assert_eq!(s.next_step(0), RunStep::MeasuredIteration);
    assert_eq!(s.next_step(0), RunStep::Finished);
}

#[test]
fn throttle_fires_once_per_interval_unless_forced() {
    let mut t = Throttle::new(100);
    assert!(t.should_fire(5, false));
    assert!(!t.should_fire(50, false));
    assert!(t.should_fire(105, false));
    assert!(t.should_fire(110, true));
    assert!(!t.should_fire(100, false));
    assert!(t.should_fire(210, false));
}

#[test]
fn progress_renders_only_on_a_terminal() {
    let mut t = Throttle::new(100);
    assert!(!should_render(&mut t, false, 0, true));
    assert!(should_render(&mut t, true, 0, false));
    assert!(!should_render(&mut t, true, 10, false));
    assert!(should_render(&mut t, true, 10, true));
}

#[test]
fn analysis_updates_publish_on_phase_change_and_completion() {
    let state = |phase, completed, total| AnalysisProgressState { phase, completed, total };
    let mut t = Throttle::new(250);
    let a = state(AnalysisPhase::FillPublished, 0, 10);
    assert!(should_publish(&mut t, None, a, 0));
    let b = state(AnalysisPhase::FillPublished, 1, 10);
    assert!(!should_publish(&mut t, Some(a), b, 10));
    let c = state(AnalysisPhase::FillPublished, 10, 10);
    assert!(should_publish(&mut t, Some(a), c, 20));
    let d = state(AnalysisPhase::AggregatePublished, 0, 3);
    assert!(should_publish(&mut t, Some(c), d, 30));
    let e = state(AnalysisPhase::AggregatePublished, 1, 3);
    assert!(!should_publish(&mut t, Some(d), e, 100));
    assert!(should_publish(&mut t, Some(d), e, 280));
}

use profiler::analysis::ProfileEntry;
use profiler::collector::CollectorInner;
use profiler::mem::ProfilerState;
use profiler::metrics::{
    counter_delta, rusage_value, CalculateMetric, Event, KperfResult, MetricReportInfo, RusageKind,
    RusageSample,
};
use profiler::store::{report_path_segments, snapshot_paths, JsonFile};
use profiler::text::{parent_key, sanitize_path_segment, table_width, visible_width};

fn sample() -> RusageSample {
    RusageSample {
        utime_sec: 2,
        utime_usec: 5,
        stime_sec: 0,
        stime_usec: 1_500,
        maxrss: 4_096,
        ixrss: 1,
        idrss: 2,
        isrss: 3,
        minflt: 4,
        majflt: 5,
        nswap: 6,
        inblock: 7,
        oublock: 8,
        msgsnd: 9,
        msgrcv: 10,
        nsignals: 11,
        nvcsw: 12,
        nivcsw: 13,
    }
}

#[test]
fn parent_key_drops_the_last_segment() {
    assert_eq!(parent_key("a/b/c"), Some("a/b"));
    assert_eq!(parent_key("a/b"), Some("a"));
    assert_eq!(parent_key("a"), None);
    assert_eq!(parent_key("/x"), Some(""));
}

#[test]
fn sanitize_keeps_only_safe_characters() {
    assert_eq!(sanitize_path_segment("my bench!"), "my_bench_");
    assert_eq!(sanitize_path_segment("a-b_c.d9"), "a-b_c.d9");
    assert_eq!(sanitize_path_segment(""), "unnamed");
    assert_eq!(sanitize_path_segment("é/x"), "__x");
    let once = sanitize_path_segment("benches/easy.rs");
    assert_eq!(sanitize_path_segment(&once), once);
}

#[test]
fn visible_width_skips_escape_sequences() {
    assert_eq!(visible_width("\x1b[2mab\x1b[0m"), 2);
    assert_eq!(visible_width("héllo"), 5);
    assert_eq!(visible_width(""), 0);
    assert_eq!(visible_width("\x1b[1;33mg"), 1);
    assert_eq!(visible_width("\x1bx"), 2);
}

#[test]
fn table_width_grows_per_metric() {
    assert_eq!(table_width(0), 38);
    assert_eq!(table_width(3), 125);
}

#[test]
fn report_files_live_under_sanitized_names() {
    let with_group = report_path_segments("benches/easy.rs", &Some("my group".to_string()), "fib", JsonFile::Snapshot);
    assert_eq!(with_group, vec!["profiler", "benches_easy.rs", "my_group", "fib", "events.json"]);
    let without = report_path_segments("easy.rs", &None, "", JsonFile::Aggregated);
    assert_eq!(without, vec!["profiler", "easy.rs", "unnamed", "run.json"]);
    assert_eq!(JsonFile::Snapshot.filename(), "events.json");
    assert_eq!(JsonFile::Aggregated.filename(), "run.json");
}

#[test]
fn snapshot_lists_each_path_once() {
    let p = |v: &[&str]| v.iter().map(|s| s.to_string()).collect::<Vec<String>>();
    let published = vec![(p(&["a"]), 1u8), (p(&["a", "b"]), 2), (p(&["a"]), 3), (p(&["c"]), 4), (p(&["a", "b"]), 5)];
    let (paths, idx) = snapshot_paths(&published);
    assert_eq!(paths, vec![p(&["a"]), p(&["a", "b"]), p(&["c"])]);
    assert_eq!(idx, vec![0, 1, 0, 2, 1]);
}

#[test]
fn metric_report_info_flags() {
    let info = MetricReportInfo::new("cycles");
    assert_eq!(info.name, "cycles");
    assert!(info.show_spread && info.show_baseline);
    let info = info.with_no_spread();
    assert!(!info.show_spread && info.show_baseline);
    let info = MetricReportInfo::new("ipc").with_no_spread().with_no_baseline();
    assert_eq!(info.name, "ipc");
    assert!(!info.show_spread && !info.show_baseline);
}

#[test]
fn rusage_values_by_kind() {
    let s = sample();
    assert_eq!(rusage_value(RusageKind::UserTime, &s), 2_000_005_000);
    assert_eq!(rusage_value(RusageKind::SystemTime, &s), 1_500_000);
    assert_eq!(rusage_value(RusageKind::MaxResidentSetSize, &s), 4_096);
    assert_eq!(rusage_value(RusageKind::PageFaults, &s), 5);
    assert_eq!(rusage_value(RusageKind::InvoluntaryContextSwitches, &s), 13);
    let mut neg = s;
    neg.nswap = -1;
    assert_eq!(rusage_value(RusageKind::Swaps, &neg), u64::MAX);
}

#[test]
fn counters_grow_between_readings() {
    assert_eq!(counter_delta(3, 10), 7);
    let start = KperfResult { cycles: 10, instructions: 20, branches: 5, branch_misses: 1 };
    let end = KperfResult { cycles: 15, instructions: 50, branches: 9, branch_misses: 1 };
    let d = end.difference(&start);
    assert_eq!(d.for_event(Event::Cycles), 5);
    assert_eq!(d.for_event(Event::Instructions), 30);
    assert_eq!(d.for_event(Event::Branches), 4);
    assert_eq!(d.for_event(Event::BranchMisses), 0);
}

#[test]
fn calculated_metric_applies_its_operation() {
    let ipc = CalculateMetric::new(|r: &(u64, u64)| if r.0 == 0 { 0 } else { r.1 * 100 / r.0 });
    assert_eq!(ipc.calculate(&(200, 300)), 150);
    assert_eq!(ipc.calculate(&(0, 300)), 0);
}

#[test]
fn frames_count_allocations_of_nested_spans() {
    let mut state = ProfilerState::new();
    let outer = state.push_frame();
    state.mark_alloced(100);
    let inner = state.push_frame();
    state.mark_alloced(50);
    state.mark_freed(30);
    state.mark_alloced(10);
    let inner_info = state.take_frame(inner);
    assert_eq!(inner_info.alloced_bytes, 60);
    assert_eq!(inner_info.num_allocs, 2);
    assert_eq!(inner_info.freed_bytes, 30);
    assert_eq!(inner_info.num_frees, 1);
    assert_eq!(inner_info.peak_bytes, 50);
    assert_eq!(state.frames.len(), 1);
    let outer_info = state.take_frame(outer);
    assert_eq!(outer_info.alloced_bytes, 160);
    assert_eq!(outer_info.num_allocs, 3);
    assert_eq!(outer_info.freed_bytes, 30);
    assert_eq!(outer_info.peak_bytes, 150);
    assert!(!outer_info.dead);
    assert!(state.frames.is_empty());
}

#[test]
fn dead_frames_wait_for_the_frames_above_them() {
    let mut state = ProfilerState::new();
    let first = state.push_frame();
    let second = state.push_frame();
    let _ = state.take_frame(first);
    assert_eq!(state.frames.len(), 2);
    assert!(state.frames[0].dead);
    let _ = state.take_frame(second);
    assert!(state.frames.is_empty());
}

#[test]
fn collector_pairs_enter_and_exit() {
    let mut c: CollectorInner<u64, u64> = CollectorInner::new();
    c.on_enter(1, Some("a".to_string()), None, 5);
    c.on_enter(2, None, Some(1), 7);
    c.on_exit(2, |s: u64| s + 100);
    c.on_exit(9, |s: u64| s);
    c.on_close(1);
    c.on_exit(1, |s: u64| s);
    let entries = c.drain();
    assert_eq!(entries.len(), 3);
    assert!(matches!(&entries[0], ProfileEntry::Register { id: 1, name: Some(n), parent: None, start: 5 } if n == "a"));
    assert!(matches!(&entries[1], ProfileEntry::Register { id: 2, name: None, parent: Some(1), start: 7 }));
    assert!(matches!(&entries[2], ProfileEntry::Publish { id: 2, result: 107 }));
    assert!(c.drain().is_empty());
}

#[test]
fn a_frame_sums_its_events_and_keeps_the_highest_live_count() {
    let mut state = ProfilerState::new();
    let h = state.push_frame();
    state.mark_alloced(30);
    state.mark_alloced(20);
    state.mark_freed(45);
    state.mark_alloced(10);
    state.mark_freed(5);
    let info = state.take_frame(h);
    assert_eq!(info.alloced_bytes, 60);
    assert_eq!(info.num_allocs, 3);
    assert_eq!(info.freed_bytes, 50);
    assert_eq!(info.num_frees, 2);
    assert_eq!(info.peak_bytes, 50);
}

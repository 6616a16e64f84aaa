use std::time::Duration;

use profiler::bench::{
    run_iteration, sort_benches, BenchBody, BenchConfig, BenchFn, Bencher, IterScope, NamedBench,
};

#[derive(Debug, PartialEq)]
struct Job(u32);

fn config(group: Option<&str>) -> BenchConfig {
    BenchConfig {
        warmup_seconds: 0,
        num_iters: 1,
        min_run_time: Duration::from_secs(0),
        group_name: group.map(|g| g.to_string()),
    }
}

fn bench(group: Option<&str>, name: &str, id: u32) -> NamedBench<Job> {
    NamedBench { name: name.to_string(), config: config(group), func: Job(id) }
}

#[test]
fn display_name_includes_group_when_present() {
    let config = BenchConfig {
        warmup_seconds: 3,
        num_iters: 10,
        min_run_time: Duration::from_secs(1),
        group_name: Some("parser".to_string()),
    };

    assert_eq!(config.display_name("chunks"), "parser/chunks");
}

#[test]
fn display_name_without_group_is_the_name() {
    let config = config(None);
    assert_eq!(config.display_name("chunks"), "chunks");
}

#[test]
fn bencher_starts_with_default_settings() {
    let mut b: Bencher<u32, u32> = Bencher::new("fib");
    b.run_custom(1);
    let benches = b.take_benches();
    assert_eq!(benches.len(), 1);
    assert_eq!(benches[0].name, "fib");
    assert_eq!(benches[0].config.warmup_seconds, 3);
    assert_eq!(benches[0].config.num_iters, 300);
    assert_eq!(benches[0].config.min_run_time, Duration::from_secs(3));
    assert_eq!(benches[0].config.group_name, None);
}

#[test]
fn bencher_settings_apply_to_following_benchmarks() {
    let mut b: Bencher<u32, u32> = Bencher::new("first");
    b.run_custom(1);
    b.name("second")
        .group("parsers")
        .warmup_seconds(1)
        .num_iters(5)
        .min_run_time(Duration::from_millis(20));
    b.run(7);
    let benches = b.take_benches();
    assert_eq!(benches.len(), 2);
    assert_eq!(benches[0].config.group_name, None);
    assert!(matches!(benches[0].func, BenchBody::Custom(1)));
    assert_eq!(benches[1].name, "second");
    assert_eq!(benches[1].config.group_name.as_deref(), Some("parsers"));
    assert_eq!(benches[1].config.warmup_seconds, 1);
    assert_eq!(benches[1].config.num_iters, 5);
    assert_eq!(benches[1].config.min_run_time, Duration::from_millis(20));
    assert!(matches!(benches[1].func, BenchBody::Plain(7)));
    assert_eq!(benches[1].config.display_name(&benches[1].name), "parsers/second");
}

#[test]
fn take_benches_leaves_nothing() {
    let mut b: Bencher<u32, u32> = Bencher::new("a");
    b.run_custom(1);
    assert_eq!(b.take_benches().len(), 1);
    assert!(b.take_benches().is_empty());
}

#[test]
fn bench_fn_hands_out_its_function_once() {
    let mut f = BenchFn::new(42u32);
    assert_eq!(f.take(), 42);
}

#[test]
fn iter_scope_enters_its_span_at_finish_setup() {
    let mut scope = IterScope::new(tracing::Span::none());
    assert!(matches!(scope, IterScope::NonEntered(_)));
    scope.finish_setup();
    assert!(matches!(scope, IterScope::SetupFinished(_)));
    let from: IterScope = tracing::Span::none().into();
    assert!(matches!(from, IterScope::NonEntered(_)));
}

#[test]
fn benches_run_by_group_then_name() {
    let mut benches = vec![
        bench(Some("b"), "x", 1),
        bench(None, "z", 2),
        bench(Some("a"), "y", 3),
        bench(Some("a"), "b", 4),
        bench(None, "c", 5),
    ];
    sort_benches(&mut benches);
    let ids: Vec<u32> = benches.iter().map(|b| b.func.0).collect();
    assert_eq!(ids, vec![5, 2, 4, 3, 1]);
}

#[test]
fn benches_with_same_group_and_name_keep_their_order() {
    let mut benches = vec![
        bench(Some("g"), "same", 1),
        bench(Some("a"), "other", 2),
        bench(Some("g"), "same", 3),
        bench(Some("g"), "same", 4),
    ];
    sort_benches(&mut benches);
    let ids: Vec<u32> = benches.iter().map(|b| b.func.0).collect();
    assert_eq!(ids, vec![2, 1, 3, 4]);
}

#[test]
fn a_name_used_earlier_is_not_free() {
    let mut b: Bencher<u32, u32> = Bencher::new("a");
    assert!(b.name_is_unused());
    b.run_custom(1);
    assert!(!b.name_is_unused());
    b.name("b");
    assert!(b.name_is_unused());
    b.run(2);
    b.name("a");
    assert!(!b.name_is_unused());
}

#[test]
fn an_iteration_ends_the_setup_and_runs_its_function_once() {
    let mut calls = 0;
    let mut g = || {
        calls += 1;
        vec![calls]
    };
    let mut scope = IterScope::new(tracing::Span::none());
    let res = run_iteration(&mut g, &mut scope);
    assert!(matches!(scope, IterScope::SetupFinished(_)));
    drop(scope);
    assert_eq!(res, vec![1]);
    assert_eq!(calls, 1);
}

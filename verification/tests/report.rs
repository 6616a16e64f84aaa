use profiler::analysis::{
    fill_published, AnalysisPhase, AnalysisProgressState, ProfileEntry, ProgressDisplay, ProgressLog, ProgressSink,
};
use profiler::tree::SpanTree;


/// Key whose integer order is the `total_cmp` order of `x`.
fn total_order_key(x: f64) -> i64 {
    let bits = x.to_bits() as i64;
    bits ^ ((((bits >> 63) as u64) >> 1) as i64)
}

fn median(values: &[f64]) -> f64 {
    if values.is_empty() {
        return 0.0;
    }
    let mut sorted = values.to_vec();
    sorted.sort_by(|a, b| a.partial_cmp(b).unwrap_or(std::cmp::Ordering::Equal));
    if sorted.len() % 2 == 0 {
        let m = sorted.len() / 2;
        (sorted[m - 1] + sorted[m]) / 2.0
    } else {
        sorted[sorted.len() / 2]
    }
}

fn primary_orders(tree: &SpanTree<Vec<f64>>) -> Vec<i64> {
    tree.nodes
        .iter()
        .map(|n| {
            let primary: Vec<f64> = n.samples.iter().filter_map(|s| s.first().copied()).collect();
            total_order_key(median(&primary))
        })
        .collect()
}

fn analyze(
    published: &Vec<(Vec<String>, [f64; 2])>,
    progress: &mut Option<ProgressLog>,
) -> SpanTree<Vec<f64>> {
    let values: Vec<Vec<f64>> = published.iter().map(|(_, r)| r.to_vec()).collect();
    let mut tree = SpanTree::from_published(published, values, progress);
    let orders = primary_orders(&tree);
    tree.sort_by_primary_metric(&orders, progress);
    tree
}

fn report_from_published(entries: Vec<(Vec<&str>, [f64; 2])>) -> SpanTree<Vec<f64>> {
    let published: Vec<(Vec<String>, [f64; 2])> = entries
        .into_iter()
        .map(|(path, result)| (path.into_iter().map(|s| s.to_string()).collect(), result))
        .collect();
    analyze(&published, &mut None)
}

fn children_of(tree: &SpanTree<Vec<f64>>, key: &str) -> Vec<String> {
    tree.nodes.iter().find(|n| n.key == key).unwrap().children.clone()
}

#[test]
fn reports_analysis_progress_for_both_internal_phases() {
    let entries: Vec<ProfileEntry<(), [f64; 2]>> = vec![
        ProfileEntry::Register { id: 1, name: None, parent: None, start: () },
        ProfileEntry::Publish { id: 1, result: [10.0, 20.0] },
    ];
    let mut progress = Some(ProgressLog::new());

    let published = fill_published(&entries, &mut progress);
    let _ = analyze(&published, &mut progress);
    let progress = progress.unwrap();

    assert_eq!(
        progress.states.first().copied(),
        Some(AnalysisProgressState { phase: AnalysisPhase::FillPublished, completed: 0, total: 2 })
    );
    assert!(progress.states.contains(&AnalysisProgressState {
        phase: AnalysisPhase::FillPublished,
        completed: 2,
        total: 2,
    }));
    assert!(progress.states.contains(&AnalysisProgressState {
        phase: AnalysisPhase::AggregatePublished,
        completed: 0,
        total: 1,
    }));
    assert!(progress
        .states
        .iter()
        .any(|state| { state.phase == AnalysisPhase::FinalizeSorting && state.completed == 0 }));
    assert_eq!(
        progress.states.last().copied(),
        Some(AnalysisProgressState { phase: AnalysisPhase::FinalizeSorting, completed: 3, total: 3 })
    );
}

#[test]
fn sorts_roots_by_primary_metric_descending() {
    let report = report_from_published(vec![
        (vec!["alpha"], [10.0, 500.0]),
        (vec!["beta"], [30.0, 100.0]),
        (vec!["gamma"], [20.0, 900.0]),
    ]);

    assert_eq!(report.roots, vec!["beta", "gamma", "alpha"]);
}

#[test]
fn sorts_siblings_by_primary_metric_not_secondary_metric() {
    let report = report_from_published(vec![
        (vec!["root"], [100.0, 0.0]),
        (vec!["root", "alpha"], [10.0, 900.0]),
        (vec!["root", "beta"], [20.0, 100.0]),
    ]);

    assert_eq!(children_of(&report, "root"), vec!["root/beta", "root/alpha"]);
}

#[test]
fn breaks_primary_metric_ties_by_path() {
    let report = report_from_published(vec![
        (vec!["root"], [100.0, 0.0]),
        (vec!["root", "beta"], [20.0, 1.0]),
        (vec!["root", "alpha"], [20.0, 9.0]),
    ]);

    assert_eq!(children_of(&report, "root"), vec!["root/alpha", "root/beta"]);
}

#[test]
fn samples_of_one_path_merge_into_one_node() {
    let report = report_from_published(vec![
        (vec!["iter", "parse"], [1.0, 0.0]),
        (vec!["iter", "parse"], [2.0, 0.0]),
        (vec!["iter", "parse"], [3.0, 0.0]),
        (vec!["iter"], [9.0, 0.0]),
    ]);
    let parse = report.nodes.iter().find(|n| n.key == "iter/parse").unwrap();
    assert_eq!(parse.name, "parse");
    assert_eq!(parse.samples.len(), 3);
    assert_eq!(children_of(&report, "iter"), vec!["iter/parse"]);
    assert_eq!(report.roots, vec!["iter"]);
}

#[test]
fn unregistered_spans_hang_under_the_unknown_root() {
    let entries: Vec<ProfileEntry<(), [f64; 2]>> = vec![
        ProfileEntry::Register { id: 2, name: Some("child".to_string()), parent: Some(7), start: () },
        ProfileEntry::Publish { id: 2, result: [1.0, 0.0] },
        ProfileEntry::Publish { id: 9, result: [1.0, 0.0] },
    ];
    let published = fill_published(&entries, &mut None::<ProgressLog>);
    assert_eq!(published.len(), 2);
    assert_eq!(published[0].0, vec!["?", "child"]);
    assert_eq!(published[1].0, vec!["?"]);

    let only_child = analyze(&vec![published[0].clone()], &mut None);
    assert_eq!(only_child.roots, vec!["?"]);
    assert_eq!(children_of(&only_child, "?"), vec!["?/child"]);

    let both = analyze(&published, &mut None);
    assert_eq!(both.roots, vec!["?"]);
}

#[test]
fn registered_spans_get_their_parents_path() {
    let entries: Vec<ProfileEntry<(), [f64; 2]>> = vec![
        ProfileEntry::Register { id: 1, name: Some("bench".to_string()), parent: None, start: () },
        ProfileEntry::Register { id: 2, name: Some("parse".to_string()), parent: Some(1), start: () },
        ProfileEntry::Register { id: 3, name: None, parent: Some(2), start: () },
        ProfileEntry::Publish { id: 3, result: [1.0, 0.0] },
        ProfileEntry::Publish { id: 2, result: [2.0, 0.0] },
        ProfileEntry::Publish { id: 1, result: [3.0, 0.0] },
    ];
    let published = fill_published(&entries, &mut None::<ProgressLog>);
    let paths: Vec<Vec<String>> = published.iter().map(|(p, _)| p.clone()).collect();
    assert_eq!(
        paths,
        vec![
            vec!["bench".to_string(), "parse".to_string(), "unknown".to_string()],
            vec!["bench".to_string(), "parse".to_string()],
            vec!["bench".to_string()],
        ]
    );
    assert_eq!(published[1].1, [2.0, 0.0]);
}

#[test]
fn print_order_is_depth_first_by_report_order() {
    let report = report_from_published(vec![
        (vec!["a", "x", "y"], [5.0, 0.0]),
        (vec!["a", "x"], [7.0, 0.0]),
        (vec!["a"], [10.0, 0.0]),
        (vec!["a", "z"], [1.0, 0.0]),
        (vec!["b"], [1.0, 0.0]),
    ]);
    let keys: Vec<&str> = report.print_order().iter().map(|&i| report.nodes[i].key.as_str()).collect();
    assert_eq!(keys, vec!["a", "a/x", "a/x/y", "a/z", "b"]);
}

#[test]
fn print_order_skips_nodes_without_samples() {
    let published = vec![(vec!["?".to_string(), "child".to_string()], [1.0, 0.0])];
    let report = analyze(&published, &mut None);
    let keys: Vec<&str> = report.print_order().iter().map(|&i| report.nodes[i].key.as_str()).collect();
    assert_eq!(keys, vec!["?/child"]);
}

struct Shown(Vec<AnalysisProgressState>);

impl ProgressDisplay for Shown {
    fn show(&mut self, state: AnalysisProgressState) {
        self.0.push(state);
    }
}

#[test]
fn every_phase_reports_each_step_in_order() {
    let entries: Vec<ProfileEntry<(), [f64; 2]>> = vec![
        ProfileEntry::Register { id: 1, name: Some("a".to_string()), parent: None, start: () },
        ProfileEntry::Publish { id: 1, result: [1.0, 0.0] },
    ];
    let mut sink = Some(ProgressSink::new(Shown(Vec::new())));
    let published = fill_published(&entries, &mut sink);
    let values: Vec<Vec<f64>> = published.iter().map(|(_, r)| r.to_vec()).collect();
    let mut tree = SpanTree::from_published(&published, values, &mut sink);
    tree.sort_by_primary_metric(&vec![0], &mut sink);
    let st = |phase, completed, total| AnalysisProgressState { phase, completed, total };
    assert_eq!(
        sink.unwrap().display().0,
        vec![
            st(AnalysisPhase::FillPublished, 0, 2),
            st(AnalysisPhase::FillPublished, 1, 2),
            st(AnalysisPhase::FillPublished, 2, 2),
            st(AnalysisPhase::AggregatePublished, 0, 1),
            st(AnalysisPhase::AggregatePublished, 1, 1),
            st(AnalysisPhase::FinalizeSorting, 0, 3),
            st(AnalysisPhase::FinalizeSorting, 1, 3),
            st(AnalysisPhase::FinalizeSorting, 2, 3),
            st(AnalysisPhase::FinalizeSorting, 3, 3),
        ]
    );
}

#[test]
fn the_report_does_not_depend_on_the_progress_receiver() {
    let published: Vec<(Vec<String>, [f64; 2])> = vec![
        (vec!["r".to_string()], [5.0, 0.0]),
        (vec!["r".to_string(), "b".to_string()], [1.0, 0.0]),
        (vec!["r".to_string(), "a".to_string()], [1.0, 0.0]),
        (vec!["q".to_string()], [7.0, 0.0]),
    ];
    let quiet = analyze(&published, &mut None);
    let watched = analyze(&published, &mut Some(ProgressLog::new()));
    assert_eq!(quiet.roots, watched.roots);
    assert_eq!(quiet.roots, vec!["q", "r"]);
    for (x, y) in quiet.nodes.iter().zip(watched.nodes.iter()) {
        assert_eq!(x.key, y.key);
        assert_eq!(x.children, y.children);
        assert_eq!(x.samples, y.samples);
    }
    assert_eq!(children_of(&quiet, "r"), vec!["r/a", "r/b"]);
}

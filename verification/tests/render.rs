use profiler::analysis::{AnalysisPhase, AnalysisProgressState};
use profiler::label::{flat_path_is_defined, format_flat_path};
use profiler::render::{
    analysis_line, compact_range, detail_row, header_line, lines_before_reports, node_label,
    node_label_is_defined, phase_line, progress_bar_text, range_cell, rule_line, title_row,
};
use profiler::text::{table_width, LABEL_W};

fn spaces(n: usize) -> String {
    " ".repeat(n)
}

#[test]
fn flat_path_shows_the_root_as_bench_name() {
    assert_eq!(format_flat_path("bench", "fib", 30), "fib");
    assert_eq!(format_flat_path("bench/parse", "fib", 30), "fib/parse");
    assert_eq!(format_flat_path("?", "fib", 30), "?");
    assert_eq!(format_flat_path("?/child", "fib", 30), "?/child");
    assert_eq!(format_flat_path("bench/a/b/c", "fib", 30), "fib/a/b/c");
    assert_eq!(format_flat_path("bench/process", "bench_pipeline", 28), "bench_pipeline/process");
}

#[test]
fn flat_path_collapses_and_truncates_long_paths() {
    assert_eq!(
        format_flat_path("bench/process/subprocess", "bench_pipeline", 24),
        "bench_.../{1}/subprocess"
    );
    let b = "b".repeat(10);
    let c = "c".repeat(10);
    let key = format!("bench/{b}/x/{c}");
    assert_eq!(format_flat_path(&key, "fib", 40), format!("fib/{b}/x/{c}"));
    assert_eq!(format_flat_path(&key, "fib", 20), "fib/{2}/cccccccccc");
    assert_eq!(format_flat_path("bench/leafname_long", "rootname", 12), "r.../leaf...");
    assert_eq!(format_flat_path("bench/leaf", "root", 6), "roo...");
    let long = "x".repeat(50);
    assert_eq!(format_flat_path("bench", &long, 10), "xxxxxxx...");
}

#[test]
fn flat_path_definedness_follows_the_first_root_character() {
    assert!(flat_path_is_defined("bench/leafname_long", "rootname", 12));
    assert!(!flat_path_is_defined("bench/leafname_long", "éroot", 12));
    assert!(flat_path_is_defined("bench/leaf", "éroot", 30));
}

#[test]
fn node_label_appends_sample_count() {
    assert!(node_label_is_defined("bench/parse", "fib", 100));
    assert_eq!(node_label("bench/parse", "fib", 100), "fib/parse  (100)");
    let long = format!("bench/{}", "n".repeat(40));
    let label = node_label(&long, "fib", 5);
    assert_eq!(label, format!("f.../{}...  (5)", "n".repeat(25)));
    assert_eq!(label.chars().count(), LABEL_W);
}

#[test]
fn header_line_right_aligns_metric_names() {
    let line = header_line(&vec!["cycles", "wall_time"]);
    let expected = format!(
        "{}{}{}cycles{}{}wall_time\x1b[0m",
        spaces(38),
        spaces(5),
        spaces(18),
        spaces(5),
        spaces(15)
    );
    assert_eq!(line, expected);
}

#[test]
fn rule_line_spans_the_table() {
    assert_eq!(table_width(1), 67);
    assert_eq!(rule_line(1), "─".repeat(67));
}

#[test]
fn title_row_pads_label_and_cells() {
    let row = title_row("x", &vec![Some("v".to_string()), None]);
    let expected = format!(
        "\x1b[1mx{}\x1b[0m\x1b[1m{}{}v\x1b[0m{}",
        spaces(37),
        spaces(5),
        spaces(23),
        spaces(29)
    );
    assert_eq!(row, expected);
}

#[test]
fn detail_row_ignores_escape_sequences_when_padding() {
    let cell = "\x1b[2m[1 .. 2]\x1b[0m".to_string();
    let row = detail_row("  50% primary of parent", &vec![cell.clone(), String::new()]);
    let expected = format!(
        "  50% primary of parent{}{}{}{}{}{}",
        spaces(15),
        spaces(5),
        spaces(16),
        cell,
        spaces(5),
        spaces(24)
    );
    assert_eq!(row, expected);
}

#[test]
fn compact_range_writes_a_shared_unit_once() {
    assert_eq!(compact_range("20.0", "", "20.0", ""), "[20.0 .. 20.0]");
    assert_eq!(compact_range("1.0", "K", "2.0", "K"), "[1.0 .. 2.0K]");
    assert_eq!(compact_range("900", "K", "1.2", "M"), "[900K .. 1.2M]");
    assert_eq!(range_cell(true, "[1 .. 2]"), "\x1b[2m[1 .. 2]\x1b[0m");
    assert_eq!(range_cell(false, "[1 .. 2]"), "");
}

#[test]
fn group_headers_and_separators_between_reports() {
    let groups = vec![None, Some("g".to_string()), Some("g".to_string()), None, None];
    let lines = lines_before_reports(&groups, 67);
    let thin = "- ".repeat(33).trim_end().to_string();
    assert_eq!(
        lines,
        vec![
            None,
            Some("Group: \x1b[1;33mg\x1b[0m".to_string()),
            Some(thin.clone()),
            None,
            Some(thin),
        ]
    );
}

#[test]
fn progress_lines() {
    assert_eq!(analysis_line(0, None, "fib"), "[-] Analysis fib");
    let state = AnalysisProgressState { phase: AnalysisPhase::AggregatePublished, completed: 3, total: 10 };
    assert_eq!(analysis_line(5, Some(state), "fib"), "[\\] Analysis aggregate spans 3/10 fib");
    assert_eq!(phase_line(2, "Load baseline", "fib"), "[|] Load baseline fib");
    assert_eq!(phase_line(7, "Write snapshot", "g/fib"), "[/] Write snapshot g/fib");
    assert_eq!(progress_bar_text(3, 5), "===  ");
    assert_eq!(progress_bar_text(9, 5), "=====");
    assert_eq!(progress_bar_text(0, 2), "  ");
}

#[test]
fn phase_labels() {
    assert_eq!(AnalysisPhase::FillPublished.label(), "raw spans");
    assert_eq!(AnalysisPhase::AggregatePublished.label(), "aggregate spans");
    assert_eq!(AnalysisPhase::FinalizeSorting.label(), "sort medians");
}

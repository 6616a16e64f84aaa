//! Layout of the report table: header, row labels, cell padding and separators.
//! Values are formatted by the caller; these functions place them in columns.
use vstd::prelude::*;
use crate::label::{
    decimal, decimal_chars, dots, flat_path_defined, flat_path_is_defined, flat_path_spec,
    format_flat_path,
};
use crate::analysis::{phase_label, AnalysisProgressState};
use crate::tree::{
    aggregate_spec, find_key, find_node, lemma_find_key, models, NodeModel, SpanNode, SpanTree,
};
use crate::tree_laws::{children_well_placed, lemma_aggregate_invariant, lemma_parent_shorter};
use crate::text::{
    chars_of, push_char, push_chars, push_str, sat_sub, string_from_chars, table_width,
    table_width_spec, take_at_most, take_chars, visible_width, visible_width_spec, COL_GAP, COL_W,
    LABEL_W,
};

verus! {

/// `n` spaces.
pub open spec fn spaces(n: int) -> Seq<char> {
    Seq::new(if n > 0 { n as nat } else { 0 }, |i: int| ' ')
}

/// `s` right-aligned in a column of `w` characters (longer values are kept whole).
pub open spec fn pad_left(s: Seq<char>, w: int) -> Seq<char> {
    spaces(sat_sub(w, s.len() as int)) + s
}

/// `s` left-aligned in a column of `w` characters (longer values are kept whole).
pub open spec fn pad_right(s: Seq<char>, w: int) -> Seq<char> {
    s + spaces(sat_sub(w, s.len() as int))
}

/// Escape sequence that starts bold text.
pub open spec fn bold() -> Seq<char> {
    seq!['\x1b', '[', '1', 'm']
}

/// Escape sequence that starts dim text.
pub open spec fn dim() -> Seq<char> {
    seq!['\x1b', '[', '2', 'm']
}

/// Escape sequence that resets the text style.
pub open spec fn reset() -> Seq<char> {
    seq!['\x1b', '[', '0', 'm']
}

fn push_spaces(s: &mut String, n: usize)
    ensures
        final(s)@ == old(s)@ + spaces(n as int),
{
    let mut i: usize = 0;
    while i < n
        invariant
            i <= n,
            s@ == old(s)@ + spaces(i as int),
        decreases n - i,
    {
        push_char(s, ' ');
        i = i + 1;
        assert(spaces(i as int) =~= spaces(i - 1).push(' '));
    }
}

fn push_escape(s: &mut String, code: char)
    ensures
        final(s)@ == old(s)@ + seq!['\x1b', '[', code, 'm'],
{
    push_char(s, '\x1b');
    push_char(s, '[');
    push_char(s, code);
    push_char(s, 'm');
    assert(s@ =~= old(s)@ + seq!['\x1b', '[', code, 'm']);
}

fn sat_sub_usize(a: usize, b: usize) -> (r: usize)
    ensures
        r == sat_sub(a as int, b as int),
{
    if a >= b {
        a - b
    } else {
        0
    }
}

// ── Header ─────────────────────────────────────────────────────

/// The metric names placed in their columns.
pub open spec fn header_cells(names: Seq<Seq<char>>) -> Seq<char>
    decreases names.len(),
{
    if names.len() == 0 {
        Seq::empty()
    } else {
        header_cells(names.drop_last()) + spaces(COL_GAP as int) + pad_left(names.last(), COL_W as int)
    }
}

/// The header line of the table: an empty label column, then each metric name
/// right-aligned in its column.
pub open spec fn header_line_spec(names: Seq<Seq<char>>) -> Seq<char> {
    spaces(LABEL_W as int) + header_cells(names) + reset()
}

/// The header line of the table for the metrics `names`.
pub fn header_line(names: &Vec<&str>) -> (r: String)
    ensures
        r@ == header_line_spec(Seq::new(names.len() as nat, |i: int| names@[i]@)),
{
    let ghost ns = Seq::new(names.len() as nat, |i: int| names@[i]@);
    let mut out = String::new();
    push_spaces(&mut out, LABEL_W);
    let ghost start = out@;
    let mut i: usize = 0;
    while i < names.len()
        invariant
            i <= names.len(),
            ns == Seq::new(names.len() as nat, |i: int| names@[i]@),
            out@ == start + header_cells(ns.take(i as int)),
        decreases names.len() - i,
    {
        let name = chars_of(names[i]);
        push_spaces(&mut out, COL_GAP);
        push_spaces(&mut out, sat_sub_usize(COL_W, name.len()));
        push_chars(&mut out, &name);
        proof {
            assert(ns.take(i + 1).drop_last() =~= ns.take(i as int));
            assert(ns.take(i + 1).last() == names@[i as int]@);
        }
        i = i + 1;
        assert(out@ =~= start + header_cells(ns.take(i as int)));
    }
    push_escape(&mut out, '0');
    assert(ns.take(names.len() as int) =~= ns);
    assert(out@ =~= header_line_spec(ns));
    out
}

/// The line under the header: `─` across the whole table.
pub open spec fn rule_line_spec(n_metrics: int) -> Seq<char> {
    Seq::new(table_width_spec(n_metrics) as nat, |i: int| '─')
}

/// The line under the header for `n_metrics` metric columns.
pub fn rule_line(n_metrics: usize) -> (r: String)
    requires
        table_width_spec(n_metrics as int) <= usize::MAX,
    ensures
        r@ == rule_line_spec(n_metrics as int),
{
    let w = table_width(n_metrics);
    let mut out = String::new();
    let mut i: usize = 0;
    while i < w
        invariant
            i <= w,
            w == table_width_spec(n_metrics as int),
            out@ == Seq::new(i as nat, |j: int| '─'),
        decreases w - i,
    {
        push_char(&mut out, '─');
        i = i + 1;
        assert(out@ =~= Seq::new(i as nat, |j: int| '─'));
    }
    out
}

// ── Row labels ─────────────────────────────────────────────────

/// The sample count shown after a row label: `  (n)`.
pub open spec fn count_suffix(n: nat) -> Seq<char> {
    seq![' ', ' ', '('] + decimal(n) + seq![')']
}

/// The label of the row of `key` with `n` samples, in a column of `w` characters:
/// the shortened path followed by the sample count, cut with `...` if still too long.
pub open spec fn node_label_spec(key: Seq<char>, bench: Seq<char>, n: nat, w: int) -> Seq<char> {
    let suffix = count_suffix(n);
    let label = flat_path_spec(key, bench, sat_sub(w, suffix.len() as int)) + suffix;
    if label.len() > w {
        take_at_most(label, w - 3) + dots()
    } else {
        label
    }
}

/// The path may be shortened without slicing a character (see [`flat_path_defined`]).
pub open spec fn node_label_defined(key: Seq<char>, bench: Seq<char>, n: nat) -> bool {
    flat_path_defined(key, bench, sat_sub(LABEL_W as int, count_suffix(n).len() as int))
}

/// The label of the row of `key`, a node with `n_samples` samples of benchmark `bench_name`.
pub fn node_label(key: &str, bench_name: &str, n_samples: usize) -> (r: String)
    requires
        node_label_defined(key@, bench_name@, n_samples as nat),
    ensures
        r@ == node_label_spec(key@, bench_name@, n_samples as nat, LABEL_W as int),
        r@.len() <= LABEL_W,
{
    let digits = decimal_chars(n_samples);
    let mut suffix: Vec<char> = Vec::new();
    suffix.push(' ');
    suffix.push(' ');
    suffix.push('(');
    let mut i: usize = 0;
    while i < digits.len()
        invariant
            i <= digits.len(),
            suffix@ == seq![' ', ' ', '('] + digits@.take(i as int),
        decreases digits.len() - i,
    {
        suffix.push(digits[i]);
        i = i + 1;
        assert(suffix@ =~= seq![' ', ' ', '('] + digits@.take(i as int));
    }
    suffix.push(')');
    assert(digits@.take(digits.len() as int) =~= digits@);
    assert(suffix@ =~= count_suffix(n_samples as nat));
    let max_path = sat_sub_usize(LABEL_W, suffix.len());
    let path = format_flat_path(key, bench_name, max_path);
    let mut label = chars_of(path.as_str());
    let ghost before = label@;
    let mut j: usize = 0;
    while j < suffix.len()
        invariant
            j <= suffix.len(),
            label@ == before + suffix@.take(j as int),
        decreases suffix.len() - j,
    {
        label.push(suffix[j]);
        j = j + 1;
        assert(label@ =~= before + suffix@.take(j as int));
    }
    assert(suffix@.take(suffix.len() as int) =~= suffix@);
    if label.len() > LABEL_W {
        let mut t = take_chars(&label, LABEL_W - 3);
        t.push('.');
        t.push('.');
        t.push('.');
        assert(t@ =~= take_at_most(label@, LABEL_W - 3) + dots());
        string_from_chars(&t)
    } else {
        string_from_chars(&label)
    }
}

/// Whether [`node_label`] can label `key` with `n_samples` samples (see [`node_label_defined`]).
pub fn node_label_is_defined(key: &str, bench_name: &str, n_samples: usize) -> (r: bool)
    ensures
        r == node_label_defined(key@, bench_name@, n_samples as nat),
{
    let digits = decimal_chars(n_samples);
    assert(count_suffix(n_samples as nat).len() == digits.len() + 4);
    flat_path_is_defined(key, bench_name, sat_sub_usize(LABEL_W - 4, digits.len()))
}


// ── Rows ───────────────────────────────────────────────────────

/// The first row of a node: the bold label, then in each metric column either a bold
/// right-aligned value or nothing.
pub open spec fn title_cells(cells: Seq<Option<Seq<char>>>) -> Seq<char>
    decreases cells.len(),
{
    if cells.len() == 0 {
        Seq::empty()
    } else {
        title_cells(cells.drop_last()) + match cells.last() {
            Some(c) => bold() + spaces(COL_GAP as int) + pad_left(c, COL_W as int) + reset(),
            None => spaces((COL_GAP + COL_W) as int),
        }
    }
}

pub open spec fn title_row_spec(label: Seq<char>, cells: Seq<Option<Seq<char>>>) -> Seq<char> {
    bold() + pad_right(label, LABEL_W as int) + reset() + title_cells(cells)
}

/// The cells as optional character sequences.
pub open spec fn opt_views(cells: Seq<Option<String>>) -> Seq<Option<Seq<char>>> {
    Seq::new(cells.len(), |i: int| match cells[i] {
        Some(s) => Some(s@),
        None => None,
    })
}

/// The first row of a node with label `label` and the optional cells `cells`.
pub fn title_row(label: &str, cells: &Vec<Option<String>>) -> (r: String)
    ensures
        r@ == title_row_spec(label@, opt_views(cells@)),
{
    let ghost cs = opt_views(cells@);
    let mut out = String::new();
    push_escape(&mut out, '1');
    let l = chars_of(label);
    push_chars(&mut out, &l);
    push_spaces(&mut out, sat_sub_usize(LABEL_W, l.len()));
    push_escape(&mut out, '0');
    let ghost start = out@;
    assert(start =~= bold() + pad_right(label@, LABEL_W as int) + reset());
    let mut i: usize = 0;
    while i < cells.len()
        invariant
            i <= cells.len(),
            cs == opt_views(cells@),
            out@ == start + title_cells(cs.take(i as int)),
        decreases cells.len() - i,
    {
        match &cells[i] {
            Some(c) => {
                let cc = chars_of(c.as_str());
                push_escape(&mut out, '1');
                push_spaces(&mut out, COL_GAP);
                push_spaces(&mut out, sat_sub_usize(COL_W, cc.len()));
                push_chars(&mut out, &cc);
                push_escape(&mut out, '0');
            },
            None => {
                push_spaces(&mut out, COL_GAP + COL_W);
            },
        }
        proof {
            assert(cs.take(i + 1).drop_last() =~= cs.take(i as int));
            assert(cs.take(i + 1).last() == cs[i as int]);
        }
        i = i + 1;
        assert(out@ =~= start + title_cells(cs.take(i as int)));
    }
    assert(cs.take(cells.len() as int) =~= cs);
    out
}

/// The cells of a detail row, each right-aligned by its visible width.
pub open spec fn detail_cells(cells: Seq<Seq<char>>) -> Seq<char>
    decreases cells.len(),
{
    if cells.len() == 0 {
        Seq::empty()
    } else {
        detail_cells(cells.drop_last()) + spaces(COL_GAP as int) + spaces(
            sat_sub(COL_W as int, visible_width_spec(cells.last())),
        ) + cells.last()
    }
}

/// A detail row: the label padded to the label column, then the cells.
pub open spec fn detail_row_spec(label: Seq<char>, cells: Seq<Seq<char>>) -> Seq<char> {
    pad_right(label, LABEL_W as int) + detail_cells(cells)
}

/// A detail row with label `label` and cells `cells`; escape sequences in a cell take
/// no room.
pub fn detail_row(label: &str, cells: &Vec<String>) -> (r: String)
    ensures
        r@ == detail_row_spec(label@, cells.deep_view()),
{
    let ghost cs = cells.deep_view();
    let mut out = String::new();
    let l = chars_of(label);
    push_chars(&mut out, &l);
    push_spaces(&mut out, sat_sub_usize(LABEL_W, l.len()));
    let ghost start = out@;
    let mut i: usize = 0;
    while i < cells.len()
        invariant
            i <= cells.len(),
            cs == cells.deep_view(),
            out@ == start + detail_cells(cs.take(i as int)),
        decreases cells.len() - i,
    {
        let w = visible_width(cells[i].as_str());
        push_spaces(&mut out, COL_GAP);
        push_spaces(&mut out, sat_sub_usize(COL_W, w));
        push_str(&mut out, cells[i].as_str());
        proof {
            assert(cs.take(i + 1).drop_last() =~= cs.take(i as int));
            assert(cs.take(i + 1).last() == cells@[i as int]@);
        }
        i = i + 1;
        assert(out@ =~= start + detail_cells(cs.take(i as int)));
    }
    assert(cs.take(cells.len() as int) =~= cs);
    out
}

// ── Cells ──────────────────────────────────────────────────────

/// A `[min .. max]` range of two formatted values with their units: the unit is written
/// once when both share it.
pub open spec fn compact_range_spec(lo: Seq<char>, u1: Seq<char>, hi: Seq<char>, u2: Seq<char>) -> Seq<char> {
    if u1 == u2 {
        seq!['['] + lo + seq![' ', '.', '.', ' '] + hi + u1 + seq![']']
    } else {
        seq!['['] + lo + u1 + seq![' ', '.', '.', ' '] + hi + u2 + seq![']']
    }
}

fn same_text(a: &str, b: &str) -> (r: bool)
    ensures
        r == (a@ == b@),
{
    let x = chars_of(a);
    let y = chars_of(b);
    if x.len() != y.len() {
        return false;
    }
    let mut i: usize = 0;
    while i < x.len()
        invariant
            i <= x.len(),
            x.len() == y.len(),
            x@ == a@,
            y@ == b@,
            forall|j: int| 0 <= j < i ==> x@[j] == y@[j],
        decreases x.len() - i,
    {
        if x[i] != y[i] {
            return false;
        }
        i = i + 1;
    }
    assert(x@ =~= y@);
    true
}

/// The range of a metric, from `lo` in unit `u1` to `hi` in unit `u2`.
pub fn compact_range(lo: &str, u1: &str, hi: &str, u2: &str) -> (r: String)
    ensures
        r@ == compact_range_spec(lo@, u1@, hi@, u2@),
{
    let mut out = String::new();
    push_char(&mut out, '[');
    push_str(&mut out, lo);
    let same = same_text(u1, u2);
    if !same {
        push_str(&mut out, u1);
    }
    push_char(&mut out, ' ');
    push_char(&mut out, '.');
    push_char(&mut out, '.');
    push_char(&mut out, ' ');
    push_str(&mut out, hi);
    push_str(&mut out, u2);
    push_char(&mut out, ']');
    assert(out@ =~= compact_range_spec(lo@, u1@, hi@, u2@));
    out
}

/// The second-row cell of a metric: its range in dim text, or nothing when the metric
/// shows no spread.
pub open spec fn range_cell_spec(show_spread: bool, range: Seq<char>) -> Seq<char> {
    if show_spread {
        dim() + range + reset()
    } else {
        Seq::empty()
    }
}

pub fn range_cell(show_spread: bool, range: &str) -> (r: String)
    ensures
        r@ == range_cell_spec(show_spread, range@),
{
    let mut out = String::new();
    if show_spread {
        push_escape(&mut out, '2');
        push_str(&mut out, range);
        push_escape(&mut out, '0');
        assert(out@ =~= range_cell_spec(show_spread, range@));
    } else {
        assert(out@ =~= range_cell_spec(show_spread, range@));
    }
    out
}

// ── Groups ─────────────────────────────────────────────────────

/// `- ` repeated `width / 2` times, without the trailing space.
pub open spec fn thin_separator(width: int) -> Seq<char> {
    let k = width / 2;
    Seq::new(if k > 0 { (2 * k - 1) as nat } else { 0 }, |i: int| if i % 2 == 0 { '-' } else { ' ' })
}

/// The line that opens a group.
pub open spec fn group_header(g: Seq<char>) -> Seq<char> {
    "Group: "@ + seq!['\x1b', '[', '1', ';', '3', '3', 'm'] + g + reset()
}

/// The line printed before report `i` of a run: the group header when the group starts
/// there (nothing for reports without a group), a thin separator between two reports of
/// one group.
pub open spec fn line_before(groups: Seq<Option<Seq<char>>>, i: int, width: int) -> Option<Seq<char>> {
    if i == 0 || groups[i] != groups[i - 1] {
        match groups[i] {
            Some(g) => Some(group_header(g)),
            None => None,
        }
    } else {
        Some(thin_separator(width))
    }
}

fn thin_separator_exec(width: usize) -> (r: String)
    ensures
        r@ == thin_separator(width as int),
{
    let k = width / 2;
    let n: usize = if k > 0 { 2 * k - 1 } else { 0 };
    let mut out = String::new();
    let mut i: usize = 0;
    while i < n
        invariant
            i <= n,
            n == if k > 0 { 2 * k - 1 } else { 0 },
            k == width / 2,
            out@ == Seq::new(i as nat, |j: int| if j % 2 == 0 { '-' } else { ' ' }),
        decreases n - i,
    {
        if i % 2 == 0 {
            push_char(&mut out, '-');
        } else {
            push_char(&mut out, ' ');
        }
        i = i + 1;
        assert(out@ =~= Seq::new(i as nat, |j: int| if j % 2 == 0 { '-' } else { ' ' }));
    }
    out
}

fn same_group(a: &Option<String>, b: &Option<String>) -> (r: bool)
    ensures
        r == (opt_views(seq![*a])[0] == opt_views(seq![*b])[0]),
{
    match (a, b) {
        (Some(x), Some(y)) => same_text(x.as_str(), y.as_str()),
        (None, None) => true,
        _ => false,
    }
}

/// For each report of a run, in order, the line printed before it (see [`line_before`]);
/// `width` is the width of the table.
pub fn lines_before_reports(groups: &Vec<Option<String>>, width: usize) -> (r: Vec<Option<String>>)
    ensures
        r.len() == groups.len(),
        forall|i: int| 0 <= i < groups.len() ==> (#[trigger] opt_views(r@)[i]) == line_before(
            opt_views(groups@), i, width as int),
{
    let ghost gs = opt_views(groups@);
    let sep = thin_separator_exec(width);
    let mut out: Vec<Option<String>> = Vec::new();
    let mut i: usize = 0;
    while i < groups.len()
        invariant
            i <= groups.len(),
            gs == opt_views(groups@),
            sep@ == thin_separator(width as int),
            out.len() == i,
            forall|j: int| 0 <= j < i ==> (#[trigger] opt_views(out@)[j]) == line_before(gs, j, width as int),
        decreases groups.len() - i,
    {
        let starts = if i == 0 {
            true
        } else {
            let same = same_group(&groups[i], &groups[i - 1]);
            assert(opt_views(seq![groups@[i as int]])[0] == gs[i as int]);
            assert(opt_views(seq![groups@[i - 1]])[0] == gs[i - 1]);
            !same
        };
        let line = if starts {
            match &groups[i] {
                Some(g) => {
                    let mut t = String::new();
                    push_char(&mut t, '\x1b');
                    push_char(&mut t, '[');
                    push_char(&mut t, '1');
                    push_char(&mut t, ';');
                    push_char(&mut t, '3');
                    push_char(&mut t, '3');
                    push_char(&mut t, 'm');
                    let mut line = String::from_str("Group: ");
                    push_str(&mut line, t.as_str());
                    push_str(&mut line, g.as_str());
                    push_escape(&mut line, '0');
                    assert(line@ =~= group_header(g@));
                    Some(line)
                },
                None => None,
            }
        } else {
            Some(sep.clone())
        };
        let ghost before = out@;
        out.push(line);
        proof {
            assert forall|j: int| 0 <= j < i + 1 implies (#[trigger] opt_views(out@)[j]) == line_before(gs, j, width as int) by {
                if j < i {
                    assert(out@[j] == before[j]);
                    assert(opt_views(out@)[j] == opt_views(before)[j]);
                }
            }
        }
        i = i + 1;
    }
    out
}

// ── Progress lines ─────────────────────────────────────────────

/// The spinner character of frame `frame`: `-`, `\`, `|`, `/` in turn.
pub open spec fn spinner_char(frame: nat) -> char {
    let k = frame % 4;
    if k == 0 {
        '-'
    } else if k == 1 {
        '\\'
    } else if k == 2 {
        '|'
    } else {
        '/'
    }
}

/// The spinner character of frame `frame`.
pub fn spinner_frame(frame: usize) -> (c: char)
    ensures
        c == spinner_char(frame as nat),
{
    let k = frame % 4;
    if k == 0 {
        '-'
    } else if k == 1 {
        '\\'
    } else if k == 2 {
        '|'
    } else {
        '/'
    }
}

fn push_spinner(s: &mut String, frame: usize)
    ensures
        final(s)@ == old(s)@ + seq!['[', spinner_char(frame as nat), ']'],
{
    let c = spinner_frame(frame);
    push_char(s, '[');
    push_char(s, c);
    push_char(s, ']');
    assert(s@ =~= old(s)@ + seq!['[', spinner_char(frame as nat), ']']);
}

fn push_decimal(s: &mut String, n: usize)
    ensures
        final(s)@ == old(s)@ + decimal(n as nat),
{
    let d = decimal_chars(n);
    push_chars(s, &d);
}

/// The line shown while benchmark `label` is analysed, at spinner frame `frame`, with the
/// latest progress `state` when there is one.
pub open spec fn analysis_line_spec(frame: nat, state: Option<AnalysisProgressState>, label: Seq<char>) -> Seq<char> {
    seq!['[', spinner_char(frame), ']'] + " Analysis "@ + match state {
        Some(st) => phase_label(st.phase) + seq![' '] + decimal(st.completed as nat) + seq!['/']
            + decimal(st.total as nat) + seq![' '] + label,
        None => label,
    }
}

pub fn analysis_line(frame: usize, state: Option<AnalysisProgressState>, label: &str) -> (r: String)
    ensures
        r@ == analysis_line_spec(frame as nat, state, label@),
{
    let mut out = String::new();
    push_spinner(&mut out, frame);
    push_str(&mut out, " Analysis ");
    match state {
        Some(st) => {
            push_str(&mut out, st.phase.label());
            push_char(&mut out, ' ');
            push_decimal(&mut out, st.completed);
            push_char(&mut out, '/');
            push_decimal(&mut out, st.total);
            push_char(&mut out, ' ');
        },
        None => {},
    }
    push_str(&mut out, label);
    assert(out@ =~= analysis_line_spec(frame as nat, state, label@));
    out
}

/// The line shown during phase `phase` of benchmark `label`, at spinner frame `frame`.
pub open spec fn phase_line_spec(frame: nat, phase: Seq<char>, label: Seq<char>) -> Seq<char> {
    seq!['[', spinner_char(frame), ']', ' '] + phase + seq![' '] + label
}

pub fn phase_line(frame: usize, phase: &str, label: &str) -> (r: String)
    ensures
        r@ == phase_line_spec(frame as nat, phase@, label@),
{
    let mut out = String::new();
    push_spinner(&mut out, frame);
    push_char(&mut out, ' ');
    push_str(&mut out, phase);
    push_char(&mut out, ' ');
    push_str(&mut out, label);
    assert(out@ =~= phase_line_spec(frame as nat, phase@, label@));
    out
}

/// A progress bar of `width` characters with `filled` of them (at most `width`) drawn.
pub open spec fn progress_bar_spec(filled: int, width: int) -> Seq<char> {
    let f = if filled < width { filled } else { width };
    Seq::new(f as nat, |i: int| '=') + spaces(width - f)
}

pub fn progress_bar_text(filled: usize, width: usize) -> (r: String)
    ensures
        r@ == progress_bar_spec(filled as int, width as int),
{
    let f = if filled < width { filled } else { width };
    let mut out = String::new();
    let mut i: usize = 0;
    while i < f
        invariant
            i <= f,
            out@ == Seq::new(i as nat, |j: int| '='),
        decreases f - i,
    {
        push_char(&mut out, '=');
        i = i + 1;
        assert(out@ =~= Seq::new(i as nat, |j: int| '='));
    }
    push_spaces(&mut out, width - f);
    out
}


/// Before each report of a run: a report whose group differs from that of the report
/// before it (or that comes first) opens its group with the group's header, or has
/// nothing before it when it has no group; a report in the same group as the one before
/// it is set apart by a thin separator.
pub proof fn lemma_group_lines(groups: Seq<Option<Seq<char>>>, i: int, width: int)
    requires
        0 <= i < groups.len(),
    ensures
        (i == 0 || groups[i] != groups[i - 1]) ==> match groups[i] {
            Some(g) => line_before(groups, i, width) == Some(
                "Group: "@ + seq!['\x1b', '[', '1', ';', '3', '3', 'm'] + g + seq!['\x1b', '[', '0', 'm'],
            ),
            None => line_before(groups, i, width) is None,
        },
        (i > 0 && groups[i] == groups[i - 1]) ==> line_before(groups, i, width) == Some(
            Seq::new(
                if width / 2 > 0 { (2 * (width / 2) - 1) as nat } else { 0 },
                |j: int| if j % 2 == 0 { '-' } else { ' ' },
            ),
        ),
{
}


/// A range shows the low value before the high value, between brackets and separated by
/// ` .. `; a unit shared by both is written once, after the high value, and otherwise each
/// value carries its own unit.
pub proof fn lemma_compact_range_layout(lo: Seq<char>, u1: Seq<char>, hi: Seq<char>, u2: Seq<char>)
    ensures
        u1 == u2 ==> compact_range_spec(lo, u1, hi, u2) == seq!['['] + lo + seq![' ', '.', '.', ' ']
            + hi + u2 + seq![']'],
        u1 != u2 ==> compact_range_spec(lo, u1, hi, u2) == seq!['['] + lo + u1 + seq![' ', '.', '.', ' ']
            + hi + u2 + seq![']'],
{
}


// ── Order of rows ──────────────────────────────────────────────

/// Positions of the rows printed for `key` and below, depth first: a node with samples is
/// printed before its children, a node without samples only through its children. The
/// walk goes at most `fuel` levels deep.
pub open spec fn visit_spec<V>(nodes: Seq<NodeModel<V>>, key: Seq<char>, fuel: nat) -> Seq<int>
    decreases fuel, 0nat,
{
    if fuel == 0 {
        Seq::empty()
    } else {
        let i = find_key(nodes, key);
        if i < 0 {
            Seq::empty()
        } else {
            (if nodes[i].samples.len() > 0 {
                seq![i]
            } else {
                Seq::empty()
            }) + visit_all_spec(nodes, nodes[i].children, (fuel - 1) as nat)
        }
    }
}

/// [`visit_spec`] for each of `keys`, in order.
pub open spec fn visit_all_spec<V>(nodes: Seq<NodeModel<V>>, keys: Seq<Seq<char>>, fuel: nat) -> Seq<int>
    decreases fuel, keys.len(),
{
    if keys.len() == 0 {
        Seq::empty()
    } else {
        visit_all_spec(nodes, keys.drop_last(), fuel) + visit_spec(nodes, keys.last(), fuel)
    }
}

/// Row positions as integers.
pub open spec fn ints(v: Seq<usize>) -> Seq<int> {
    v.map_values(|x: usize| x as int)
}

fn visit<V>(nodes: &Vec<SpanNode<V>>, key: &String, fuel: usize, out: &mut Vec<usize>)
    ensures
        ints(final(out)@) == ints(old(out)@) + visit_spec(models(nodes@), key@, fuel as nat),
    decreases fuel,
{
    if fuel == 0 {
        assert(ints(out@) =~= ints(old(out)@) + visit_spec(models(nodes@), key@, fuel as nat));
        return;
    }
    match find_node(nodes, key) {
        None => {
            assert(ints(out@) =~= ints(old(out)@) + visit_spec(models(nodes@), key@, fuel as nat));
        },
        Some(i) => {
            proof {
                crate::tree::lemma_find_key(models(nodes@), key@);
            }
            let ghost ns = models(nodes@);
            let ghost own: Seq<int> = if ns[i as int].samples.len() > 0 {
                seq![i as int]
            } else {
                Seq::empty()
            };
            assert(nodes@[i as int].samples@.len() == ns[i as int].samples.len());
            if nodes[i].samples.len() > 0 {
                out.push(i);
            }
            assert(ints(out@) =~= ints(old(out)@) + own);
            let ghost mid = ints(out@);
            let children = &nodes[i].children;
            let ghost ks = ns[i as int].children;
            assert(ks == children.deep_view());
            let mut j: usize = 0;
            while j < children.len()
                invariant
                    j <= children.len(),
                    fuel > 0,
                    ns == models(nodes@),
                    ks == children.deep_view(),
                    ints(out@) == mid + visit_all_spec(ns, ks.take(j as int), (fuel - 1) as nat),
                decreases children.len() - j,
            {
                visit(nodes, &children[j], fuel - 1, out);
                proof {
                    assert(ks.take(j + 1).drop_last() =~= ks.take(j as int));
                    assert(ks.take(j + 1).last() == children@[j as int]@);
                }
                j = j + 1;
                assert(ints(out@) =~= mid + visit_all_spec(ns, ks.take(j as int), (fuel - 1) as nat));
            }
            assert(ks.take(children.len() as int) =~= ks);
            assert(ints(out@) =~= ints(old(out)@) + visit_spec(models(nodes@), key@, fuel as nat));
        },
    }
}

impl<V> SpanTree<V> {
    /// Positions of the nodes in the order their rows are printed: each root in turn,
    /// depth first (see [`visit_spec`]), at most as many levels deep as there are nodes.
    pub fn print_order(&self) -> (r: Vec<usize>)
        ensures
            ints(r@) == visit_all_spec(models(self.nodes@), self.roots.deep_view(), self.nodes.len() as nat),
    {
        let ghost ns = models(self.nodes@);
        let ghost ks = self.roots.deep_view();
        let fuel = self.nodes.len();
        let mut out: Vec<usize> = Vec::new();
        let mut j: usize = 0;
        assert(ints(out@) =~= visit_all_spec(ns, ks.take(0), fuel as nat));
        while j < self.roots.len()
            invariant
                j <= self.roots.len(),
                fuel == self.nodes.len(),
                ns == models(self.nodes@),
                ks == self.roots.deep_view(),
                ints(out@) == visit_all_spec(ns, ks.take(j as int), fuel as nat),
            decreases self.roots.len() - j,
        {
            visit(&self.nodes, &self.roots[j], fuel, &mut out);
            proof {
                assert(ks.take(j + 1).drop_last() =~= ks.take(j as int));
                assert(ks.take(j + 1).last() == self.roots@[j as int]@);
            }
            j = j + 1;
        }
        assert(ks.take(self.roots.len() as int) =~= ks);
        out
    }
}

// ── The row order reaches every level ──────────────────────────

/// Every child key of a node is longer than the node's key.
pub open spec fn children_longer<V>(nodes: Seq<NodeModel<V>>) -> bool {
    forall|i: int, c: int|
        0 <= i < nodes.len() && 0 <= c < nodes[i].children.len() ==> nodes[i].key.len()
            < (#[trigger] nodes[i].children[c]).len()
}

/// Number of nodes whose key has at least `l` characters.
pub open spec fn count_at_least<V>(nodes: Seq<NodeModel<V>>, l: int) -> nat
    decreases nodes.len(),
{
    if nodes.len() == 0 {
        0
    } else {
        count_at_least(nodes.drop_last(), l) + if nodes.last().key.len() >= l {
            1nat
        } else {
            0nat
        }
    }
}

proof fn lemma_count_at_least<V>(nodes: Seq<NodeModel<V>>, l1: int, l2: int)
    requires
        l2 <= l1,
    ensures
        count_at_least(nodes, l1) <= count_at_least(nodes, l2),
        count_at_least(nodes, l2) <= nodes.len(),
        (exists|i: int| 0 <= i < nodes.len() && l2 <= #[trigger] nodes[i].key.len() < l1)
            ==> count_at_least(nodes, l1) < count_at_least(nodes, l2),
    decreases nodes.len(),
{
    if nodes.len() > 0 {
        lemma_count_at_least(nodes.drop_last(), l1, l2);
        if exists|i: int| 0 <= i < nodes.len() && l2 <= #[trigger] nodes[i].key.len() < l1 {
            let i = choose|i: int| 0 <= i < nodes.len() && l2 <= #[trigger] nodes[i].key.len() < l1;
            if i < nodes.len() - 1 {
                assert(nodes.drop_last()[i] == nodes[i]);
            }
        }
    }
}

proof fn lemma_visit_stable<V>(nodes: Seq<NodeModel<V>>, key: Seq<char>, f: nat)
    requires
        children_longer(nodes),
        find_key(nodes, key) >= 0 ==> f >= count_at_least(nodes, key.len() as int),
    ensures
        visit_spec(nodes, key, f) == visit_spec(nodes, key, f + 1),
    decreases f, 0nat,
{
    lemma_find_key(nodes, key);
    let i = find_key(nodes, key);
    if i >= 0 {
        let l = key.len() as int;
        lemma_count_at_least(nodes, l + 1, l);
        assert(l <= nodes[i].key.len() < l + 1);
        assert(f >= 1);
        let ks = nodes[i].children;
        assert forall|c: int| 0 <= c < ks.len() && find_key(nodes, #[trigger] ks[c]) >= 0
            implies (f - 1) as nat >= count_at_least(nodes, ks[c].len() as int) by {
            assert(nodes[i].key.len() < ks[c].len());
            lemma_count_at_least(nodes, ks[c].len() as int, l);
        }
        lemma_visit_all_stable(nodes, ks, (f - 1) as nat);
    }
}

proof fn lemma_visit_all_stable<V>(nodes: Seq<NodeModel<V>>, keys: Seq<Seq<char>>, f: nat)
    requires
        children_longer(nodes),
        forall|c: int| 0 <= c < keys.len() && find_key(nodes, #[trigger] keys[c]) >= 0
            ==> f >= count_at_least(nodes, keys[c].len() as int),
    ensures
        visit_all_spec(nodes, keys, f) == visit_all_spec(nodes, keys, f + 1),
    decreases f, keys.len(),
{
    if keys.len() > 0 {
        let rest = keys.drop_last();
        assert forall|c: int| 0 <= c < rest.len() && find_key(nodes, #[trigger] rest[c]) >= 0
            implies f >= count_at_least(nodes, rest[c].len() as int) by {
            assert(rest[c] == keys[c]);
        }
        lemma_visit_all_stable(nodes, rest, f);
        assert(keys.last() == keys[keys.len() - 1]);
        lemma_visit_stable(nodes, keys.last(), f);
    }
}

/// The rows of a tree built from publications do not depend on the depth limit of the
/// walk: any deeper walk than one level per node gives the same rows.
pub proof fn lemma_print_order_complete<V>(paths: Seq<Seq<Seq<char>>>, values: Seq<V>, extra: nat)
    requires
        values.len() == paths.len(),
    ensures
        ({
            let t = aggregate_spec(paths, values);
            visit_all_spec(t.nodes, t.roots, t.nodes.len()) == visit_all_spec(
                t.nodes,
                t.roots,
                t.nodes.len() + extra,
            )
        }),
    decreases extra,
{
    let t = aggregate_spec(paths, values);
    let nodes = t.nodes;
    lemma_aggregate_invariant(paths, values, paths.len());
    assert(children_well_placed(nodes));
    assert forall|i: int, c: int| 0 <= i < nodes.len() && 0 <= c < nodes[i].children.len()
        implies nodes[i].key.len() < (#[trigger] nodes[i].children[c]).len() by {
        assert(crate::text::parent_key_spec(nodes[i].children[c]) == Some(nodes[i].key));
        lemma_parent_shorter(nodes[i].children[c]);
    }
    if extra > 0 {
        lemma_print_order_complete(paths, values, (extra - 1) as nat);
        let f = (nodes.len() + extra - 1) as nat;
        assert forall|c: int| 0 <= c < t.roots.len() && find_key(nodes, #[trigger] t.roots[c]) >= 0
            implies f >= count_at_least(nodes, t.roots[c].len() as int) by {
            lemma_count_at_least(nodes, t.roots[c].len() as int, t.roots[c].len() as int);
        }
        lemma_visit_all_stable(nodes, t.roots, f);
    }
}

} // verus!

//! Character level helpers and the small string rules of the report.
use vstd::prelude::*;
use vstd::string::*;

verus! {

/// Width of the label column of a report table.
pub const LABEL_W: usize = 38;

/// Width of one metric column of a report table.
pub const COL_W: usize = 24;

/// Gap between two metric columns of a report table.
pub const COL_GAP: usize = 5;

/// The characters of `s`, in order.
pub fn chars_of(s: &str) -> (v: Vec<char>)
    ensures
        v@ == s@,
{
    broadcast use vstd::string::group_string_axioms;

    let mut v: Vec<char> = Vec::new();
    for c in it: s.chars()
        invariant
            v@ == it.seq().take(it.index() as int),
            it.seq() == s@,
    {
        v.push(c);
    }
    v
}

/// Appends one character with `String::push`: the characters of the string become
/// the old ones followed by `c`.
#[verifier::external_body]
pub(crate) fn push_char(s: &mut String, c: char)
    ensures
        final(s)@ == old(s)@.push(c),
{
    s.push(c)
}

/// Appends all characters of `cs` to `s`.
pub fn push_chars(s: &mut String, cs: &Vec<char>)
    ensures
        final(s)@ == old(s)@ + cs@,
{
    let mut i: usize = 0;
    while i < cs.len()
        invariant
            i <= cs.len(),
            s@ == old(s)@ + cs@.take(i as int),
        decreases cs.len() - i,
    {
        push_char(s, cs[i]);
        i = i + 1;
        assert(cs@.take(i as int) == cs@.take(i - 1).push(cs@[i - 1]));
    }
    assert(cs@.take(cs.len() as int) == cs@);
}

/// A string made of the characters `cs`.
pub fn string_from_chars(cs: &Vec<char>) -> (s: String)
    ensures
        s@ == cs@,
{
    let mut s = String::new();
    push_chars(&mut s, cs);
    s
}

/// Appends the characters of `t` to `s`.
pub fn push_str(s: &mut String, t: &str)
    ensures
        final(s)@ == old(s)@ + t@,
{
    let cs = chars_of(t);
    push_chars(s, &cs);
}

/// `s` with at most its first `k` characters.
pub open spec fn take_at_most(s: Seq<char>, k: int) -> Seq<char> {
    if k >= s.len() {
        s
    } else if k <= 0 {
        Seq::empty()
    } else {
        s.take(k)
    }
}

/// `a - b`, or zero where it would go below zero.
pub open spec fn sat_sub(a: int, b: int) -> int {
    if a >= b {
        a - b
    } else {
        0
    }
}

/// The first at most `k` characters of `cs`.
pub fn take_chars(cs: &Vec<char>, k: usize) -> (r: Vec<char>)
    ensures
        r@ == take_at_most(cs@, k as int),
{
    let mut r: Vec<char> = Vec::new();
    let mut i: usize = 0;
    while i < cs.len() && i < k
        invariant
            i <= cs.len(),
            i <= k,
            r@ == cs@.take(i as int),
        decreases cs.len() - i,
    {
        r.push(cs[i]);
        i = i + 1;
        assert(cs@.take(i as int) == cs@.take(i - 1).push(cs@[i - 1]));
    }
    assert(r@ == take_at_most(cs@, k as int));
    r
}

/// Width of the whole report table for `n_metrics` metric columns.
pub open spec fn table_width_spec(n_metrics: int) -> int {
    LABEL_W + (COL_W + COL_GAP) * n_metrics
}

/// Width of the full table for `n_metrics` columns.
pub fn table_width(n_metrics: usize) -> (w: usize)
    requires
        table_width_spec(n_metrics as int) <= usize::MAX,
    ensures
        w == table_width_spec(n_metrics as int),
{
    LABEL_W + (COL_W + COL_GAP) * n_metrics
}

// ── Parent keys ────────────────────────────────────────────────

/// Index of the last `/` in `s`, or -1 when there is none.
pub open spec fn last_slash(s: Seq<char>) -> int
    decreases s.len(),
{
    if s.len() == 0 {
        -1
    } else if s.last() == '/' {
        s.len() - 1
    } else {
        last_slash(s.drop_last())
    }
}

/// What `rsplit_once('/')` keeps on the left: the key of the parent span.
pub open spec fn parent_key_spec(s: Seq<char>) -> Option<Seq<char>> {
    let i = last_slash(s);
    if i < 0 {
        None
    } else {
        Some(s.take(i))
    }
}

/// `last_slash` is the position of a `/` with none after it.
pub proof fn lemma_last_slash(s: Seq<char>)
    ensures
        -1 <= last_slash(s) < s.len(),
        last_slash(s) >= 0 ==> s[last_slash(s)] == '/',
        forall|j: int| last_slash(s) < j < s.len() ==> s[j] != '/',
    decreases s.len(),
{
    if s.len() > 0 && s.last() != '/' {
        lemma_last_slash(s.drop_last());
        assert forall|j: int| last_slash(s) < j < s.len() implies s[j] != '/' by {
            if j < s.len() - 1 {
                assert(s.drop_last()[j] == s[j]);
            }
        }
    }
}

/// A position of `/` with none after it is what `last_slash` finds.
pub proof fn lemma_last_slash_unique(s: Seq<char>, i: int)
    requires
        -1 <= i < s.len(),
        i >= 0 ==> s[i] == '/',
        forall|j: int| i < j < s.len() ==> s[j] != '/',
    ensures
        last_slash(s) == i,
    decreases s.len(),
{
    if s.len() > 0 && i != s.len() - 1 {
        assert(s.last() != '/');
        assert forall|j: int| i < j < s.drop_last().len() implies s.drop_last()[j] != '/' by {
            assert(s.drop_last()[j] == s[j]);
        }
        if i >= 0 {
            assert(s.drop_last()[i] == s[i]);
        }
        lemma_last_slash_unique(s.drop_last(), i);
    }
}

/// Index of the last `/` in `cs`, if any.
fn find_last_slash(cs: &Vec<char>) -> (r: Option<usize>)
    ensures
        match r {
            Some(i) => i == last_slash(cs@),
            None => last_slash(cs@) == -1,
        },
{
    let mut found: Option<usize> = None;
    let mut i: usize = 0;
    while i < cs.len()
        invariant
            i <= cs.len(),
            match found {
                Some(k) => k < i && cs@[k as int] == '/' && forall|j: int| k < j < i ==> cs@[j] != '/',
                None => forall|j: int| 0 <= j < i ==> cs@[j] != '/',
            },
        decreases cs.len() - i,
    {
        if cs[i] == '/' {
            found = Some(i);
        }
        i = i + 1;
    }
    proof {
        match found {
            Some(k) => lemma_last_slash_unique(cs@, k as int),
            None => lemma_last_slash_unique(cs@, -1),
        }
    }
    found
}

/// Key of the parent span: everything before the last `/` of `key`.
pub fn parent_key<'a>(key: &'a str) -> (r: Option<&'a str>)
    ensures
        match r {
            Some(p) => parent_key_spec(key@) == Some(p@),
            None => parent_key_spec(key@) is None,
        },
{
    let cs = chars_of(key);
    match find_last_slash(&cs) {
        Some(i) => {
            proof { lemma_last_slash(key@); }
            Some(key.substring_char(0, i))
        },
        None => None,
    }
}

// ── Path segments for files ────────────────────────────────────

/// Characters kept as they are in a path segment.
pub open spec fn is_path_safe(c: char) -> bool {
    ('a' <= c && c <= 'z') || ('A' <= c && c <= 'Z') || ('0' <= c && c <= '9') || c == '-'
        || c == '_' || c == '.'
}

/// One character of a sanitized path segment.
pub open spec fn sanitize_char(c: char) -> char {
    if is_path_safe(c) {
        c
    } else {
        '_'
    }
}

/// A path segment made safe: unsafe characters become `_`; nothing becomes `unnamed`.
pub open spec fn sanitized(s: Seq<char>) -> Seq<char> {
    if s.len() == 0 {
        "unnamed"@
    } else {
        Seq::new(s.len(), |i: int| sanitize_char(s[i]))
    }
}

/// Replace every character outside `[a-zA-Z0-9._-]` by `_`; an empty value becomes `unnamed`.
pub fn sanitize_path_segment(value: &str) -> (r: String)
    ensures
        r@ == sanitized(value@),
{
    let cs = chars_of(value);
    let mut out: Vec<char> = Vec::new();
    let mut i: usize = 0;
    while i < cs.len()
        invariant
            i <= cs.len(),
            cs@ == value@,
            out@ == Seq::new(i as nat, |j: int| sanitize_char(cs@[j])),
        decreases cs.len() - i,
    {
        let c = cs[i];
        let safe = ('a' <= c && c <= 'z') || ('A' <= c && c <= 'Z') || ('0' <= c && c <= '9')
            || c == '-' || c == '_' || c == '.';
        if safe {
            out.push(c);
        } else {
            out.push('_');
        }
        i = i + 1;
        assert(out@ =~= Seq::new(i as nat, |j: int| sanitize_char(cs@[j])));
    }
    if out.len() == 0 {
        String::from_str("unnamed")
    } else {
        assert(out@ =~= sanitized(value@));
        string_from_chars(&out)
    }
}

/// A sanitized segment is kept as it is by a second sanitizing.
pub proof fn lemma_sanitize_idempotent(s: Seq<char>)
    ensures
        sanitized(sanitized(s)) == sanitized(s),
        sanitized(s).len() > 0,
        forall|i: int| 0 <= i < sanitized(s).len() ==> is_path_safe(#[trigger] sanitized(s)[i]),
{
    reveal_strlit("unnamed");
    assert(sanitized(sanitized(s)) =~= sanitized(s));
}

/// Sanitizing keeps every ASCII letter, digit, `-`, `_` and `.` in place and turns every
/// other character into `_`; only an empty value changes length, becoming `unnamed`.
pub proof fn lemma_sanitize_chars(s: Seq<char>)
    ensures
        s.len() > 0 ==> sanitized(s).len() == s.len(),
        s.len() > 0 ==> forall|i: int| 0 <= i < s.len() ==> #[trigger] sanitized(s)[i] == if ('a' <= s[i]
            <= 'z') || ('A' <= s[i] <= 'Z') || ('0' <= s[i] <= '9') || s[i] == '-' || s[i] == '_'
            || s[i] == '.' {
            s[i]
        } else {
            '_'
        },
        s.len() == 0 ==> sanitized(s) == seq!['u', 'n', 'n', 'a', 'm', 'e', 'd'],
{
    reveal_strlit("unnamed");
}


// ── Visible width ──────────────────────────────────────────────

/// ASCII letters, which end an escape sequence.
pub open spec fn is_ascii_letter(c: char) -> bool {
    ('a' <= c && c <= 'z') || ('A' <= c && c <= 'Z')
}

/// Position right after the letter that ends the escape sequence whose body starts at `j`,
/// or the end of `s` when no letter follows.
pub open spec fn escape_end(s: Seq<char>, j: int) -> int
    decreases s.len() - j,
{
    if j >= s.len() {
        s.len() as int
    } else if is_ascii_letter(s[j]) {
        j + 1
    } else {
        escape_end(s, j + 1)
    }
}

/// Number of characters of `s` from `i` on that show on a terminal:
/// sequences `ESC [ ... letter` count nothing.
pub open spec fn visible_width_from(s: Seq<char>, i: int) -> int
    decreases s.len() - i,
{
    if i < 0 || i >= s.len() {
        0
    } else if s[i] == '\x1b' && i + 1 < s.len() && s[i + 1] == '[' {
        if i < escape_end(s, i + 2) <= s.len() {
            visible_width_from(s, escape_end(s, i + 2))
        } else {
            0
        }
    } else {
        1 + visible_width_from(s, i + 1)
    }
}

/// Visible width of `s`.
pub open spec fn visible_width_spec(s: Seq<char>) -> int {
    visible_width_from(s, 0)
}

proof fn lemma_escape_end(s: Seq<char>, j: int)
    requires
        0 <= j,
    ensures
        j <= escape_end(s, j) <= s.len() || (j > s.len() && escape_end(s, j) == s.len()),
        escape_end(s, j) >= j || j > s.len(),
    decreases s.len() - j,
{
    if j < s.len() && !is_ascii_letter(s[j]) {
        lemma_escape_end(s, j + 1);
    }
}

/// The visible width never exceeds the number of characters.
pub proof fn lemma_visible_width_bounded(s: Seq<char>, i: int)
    requires
        0 <= i <= s.len(),
    ensures
        0 <= visible_width_from(s, i) <= s.len() - i,
    decreases s.len() - i,
{
    if i < s.len() {
        if s[i] == '\x1b' && i + 1 < s.len() && s[i + 1] == '[' {
            lemma_escape_end(s, i + 2);
            lemma_visible_width_bounded(s, escape_end(s, i + 2));
        } else {
            lemma_visible_width_bounded(s, i + 1);
        }
    }
}

/// Text without an escape character is as wide as it is long.
pub proof fn lemma_visible_width_plain(s: Seq<char>, i: int)
    requires
        0 <= i <= s.len(),
        forall|j: int| 0 <= j < s.len() ==> s[j] != '\x1b',
    ensures
        visible_width_from(s, i) == s.len() - i,
    decreases s.len() - i,
{
    if i < s.len() {
        lemma_visible_width_plain(s, i + 1);
    }
}

proof fn lemma_escape_end_shift(p: Seq<char>, t: Seq<char>, j: int)
    requires
        0 <= j,
    ensures
        escape_end(p + t, p.len() + j) == p.len() + escape_end(t, j),
    decreases t.len() - j,
{
    if j < t.len() {
        assert((p + t)[p.len() + j] == t[j]);
        if !is_ascii_letter(t[j]) {
            lemma_escape_end_shift(p, t, j + 1);
        }
    }
}

proof fn lemma_visible_width_shift(p: Seq<char>, t: Seq<char>, k: int)
    requires
        0 <= k,
    ensures
        visible_width_from(p + t, p.len() + k) == visible_width_from(t, k),
    decreases t.len() - k,
{
    let s = p + t;
    let i = p.len() + k;
    if k < t.len() {
        assert(s[i] == t[k]);
        if i + 1 < s.len() {
            assert(s[i + 1] == t[k + 1]);
        }
        if t[k] == '\x1b' && k + 1 < t.len() && t[k + 1] == '[' {
            lemma_escape_end_shift(p, t, k + 2);
            lemma_escape_end(t, k + 2);
            if k < escape_end(t, k + 2) <= t.len() {
                lemma_visible_width_shift(p, t, escape_end(t, k + 2));
            }
        } else {
            lemma_visible_width_shift(p, t, k + 1);
        }
    }
}

proof fn lemma_escape_body_end(b: Seq<char>, l: char, t: Seq<char>, j: int)
    requires
        0 <= j <= b.len(),
        forall|m: int| 0 <= m < b.len() ==> !is_ascii_letter(#[trigger] b[m]),
        is_ascii_letter(l),
    ensures
        escape_end(seq!['\x1b', '['] + b + seq![l] + t, 2 + j) == 3 + b.len(),
    decreases b.len() - j,
{
    let s = seq!['\x1b', '['] + b + seq![l] + t;
    if j < b.len() {
        assert(s[2 + j] == b[j]);
        lemma_escape_body_end(b, l, t, j + 1);
    } else {
        assert(s[2 + j] == l);
    }
}

/// An escape sequence `ESC [ ... letter` (no letter inside) takes no room on a terminal,
/// and any other character takes one place.
pub proof fn lemma_visible_width_escapes(b: Seq<char>, l: char, c: char, t: Seq<char>)
    requires
        forall|m: int| 0 <= m < b.len() ==> !is_ascii_letter(#[trigger] b[m]),
        is_ascii_letter(l),
        c != '\x1b',
    ensures
        visible_width_spec(seq!['\x1b', '['] + b + seq![l] + t) == visible_width_spec(t),
        visible_width_spec(seq![c] + t) == 1 + visible_width_spec(t),
{
    let e = seq!['\x1b', '['] + b + seq![l];
    let s = e + t;
    assert(seq!['\x1b', '['] + b + seq![l] + t == s);
    assert(s[0] == '\x1b' && s[1] == '[');
    lemma_escape_body_end(b, l, t, 0);
    assert(escape_end(s, 2) == e.len());
    lemma_visible_width_shift(e, t, 0);
    let q = seq![c] + t;
    assert(q[0] == c);
    lemma_visible_width_shift(seq![c], t, 0);
}


/// Number of characters of `value` that show on a terminal (ANSI escapes do not count).
pub fn visible_width(value: &str) -> (w: usize)
    ensures
        w == visible_width_spec(value@),
{
    let cs = chars_of(value);
    let n = cs.len();
    let mut width: usize = 0;
    let mut i: usize = 0;
    proof { lemma_visible_width_bounded(cs@, 0); }
    while i < n
        invariant
            n == cs.len(),
            i <= n,
            cs@ == value@,
            width + visible_width_from(cs@, i as int) == visible_width_spec(cs@),
            width <= i,
        decreases n - i,
    {
        proof { lemma_visible_width_bounded(cs@, i as int); }
        if cs[i] == '\x1b' && i + 1 < n && cs[i + 1] == '[' {
            let mut j: usize = i + 2;
            while j < n && !(('a' <= cs[j] && cs[j] <= 'z') || ('A' <= cs[j] && cs[j] <= 'Z'))
                invariant
                    n == cs.len(),
                    i + 2 <= j <= n,
                    escape_end(cs@, j as int) == escape_end(cs@, i + 2),
                decreases n - j,
            {
                j = j + 1;
            }
            let next = if j < n { j + 1 } else { n };
            assert(next == escape_end(cs@, i + 2));
            i = next;
        } else {
            width = width + 1;
            i = i + 1;
        }
    }
    width
}

} // verus!

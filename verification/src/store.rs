//! Where report files are kept, and the path table of a snapshot.
use vstd::prelude::*;
use crate::text::{chars_of, sanitize_path_segment, sanitized};

verus! {

/// The two files kept for a benchmark.
#[derive(Clone, Copy, Debug, PartialEq, Eq, Structural)]
pub enum JsonFile {
    /// Every publication of the last run.
    Snapshot,
    /// The aggregated tree of the last run, used as the next baseline.
    Aggregated,
}

/// Name of the file kept for `f`.
pub open spec fn json_file_name(f: JsonFile) -> Seq<char> {
    match f {
        JsonFile::Snapshot => "events.json"@,
        JsonFile::Aggregated => "run.json"@,
    }
}

impl JsonFile {
    pub fn filename(&self) -> (r: &'static str)
        ensures
            r@ == json_file_name(*self),
    {
        match self {
            JsonFile::Snapshot => "events.json",
            JsonFile::Aggregated => "run.json",
        }
    }
}

/// Directory, under the target directory, that holds the files of all benchmarks.
pub open spec fn store_dir() -> Seq<char> {
    "profiler"@
}

/// Path segments, below the target directory, of file `f` of benchmark `bench` in group
/// `group` declared in the file `filename`: each name is sanitized.
pub open spec fn report_path_spec(filename: Seq<char>, group: Option<Seq<char>>, bench: Seq<char>, f: JsonFile) -> Seq<Seq<char>> {
    let head = seq![store_dir(), sanitized(filename)];
    let with_group = match group {
        Some(g) => head.push(sanitized(g)),
        None => head,
    };
    with_group.push(sanitized(bench)).push(json_file_name(f))
}

/// The path segments of a report file (see [`report_path_spec`]).
pub fn report_path_segments(filename: &str, group: &Option<String>, bench: &str, f: JsonFile) -> (r: Vec<String>)
    ensures
        r.deep_view() == report_path_spec(
            filename@,
            match group {
                Some(g) => Some(g@),
                None => None,
            },
            bench@,
            f,
        ),
{
    let mut r: Vec<String> = Vec::new();
    r.push(String::from_str("profiler"));
    r.push(sanitize_path_segment(filename));
    match group {
        Some(g) => r.push(sanitize_path_segment(g.as_str())),
        None => {},
    }
    r.push(sanitize_path_segment(bench));
    r.push(String::from_str(f.filename()));
    proof {
        reveal_strlit("profiler");
    }
    assert(r.deep_view() =~= report_path_spec(
        filename@,
        match group {
            Some(g) => Some(g@),
            None => None,
        },
        bench@,
        f,
    ));
    r
}

/// A report file lies under `profiler/`, then the sanitized file name, the sanitized group
/// when there is one, and the sanitized benchmark name; the last segment names the file
/// (`events.json` for the snapshot, `run.json` for the aggregated tree).
pub proof fn lemma_report_path_layout(filename: Seq<char>, group: Option<Seq<char>>, bench: Seq<char>, f: JsonFile)
    ensures
        ({
            let p = report_path_spec(filename, group, bench, f);
            &&& p[0] == seq!['p', 'r', 'o', 'f', 'i', 'l', 'e', 'r']
            &&& p[1] == sanitized(filename)
            &&& p.len() == if group is Some { 5int } else { 4int }
            &&& group matches Some(g) ==> p[2] == sanitized(g)
            &&& p[p.len() - 2] == sanitized(bench)
            &&& p[p.len() - 1] == match f {
                JsonFile::Snapshot => seq!['e', 'v', 'e', 'n', 't', 's', '.', 'j', 's', 'o', 'n'],
                JsonFile::Aggregated => seq!['r', 'u', 'n', '.', 'j', 's', 'o', 'n'],
            }
        }),
{
    reveal_strlit("profiler");
    reveal_strlit("events.json");
    reveal_strlit("run.json");
}


/// The distinct paths among the first `n` of `ps`, in order of first appearance.
pub open spec fn distinct_paths(ps: Seq<Seq<Seq<char>>>, n: nat) -> Seq<Seq<Seq<char>>>
    decreases n,
{
    if n == 0 {
        Seq::empty()
    } else {
        let d = distinct_paths(ps, (n - 1) as nat);
        if d.contains(ps[n - 1]) {
            d
        } else {
            d.push(ps[n - 1])
        }
    }
}

/// No path occurs twice.
pub open spec fn no_duplicates(d: Seq<Seq<Seq<char>>>) -> bool {
    forall|i: int, j: int| 0 <= i < j < d.len() ==> d[i] != d[j]
}

proof fn lemma_distinct_paths(ps: Seq<Seq<Seq<char>>>, n: nat)
    requires
        n <= ps.len(),
    ensures
        no_duplicates(distinct_paths(ps, n)),
        forall|i: int| 0 <= i < n ==> distinct_paths(ps, n).contains(#[trigger] ps[i]),
        forall|j: int| 0 <= j < distinct_paths(ps, n).len() ==> exists|i: int| 0 <= i < n && ps[i] == #[trigger] distinct_paths(ps, n)[j],
    decreases n,
{
    if n > 0 {
        lemma_distinct_paths(ps, (n - 1) as nat);
        let d = distinct_paths(ps, (n - 1) as nat);
        if !d.contains(ps[n - 1]) {
            let e = d.push(ps[n - 1]);
            assert forall|i: int| 0 <= i < n implies e.contains(#[trigger] ps[i]) by {
                if i < n - 1 {
                    let k = choose|k: int| 0 <= k < d.len() && d[k] == ps[i];
                    assert(e[k] == ps[i]);
                } else {
                    assert(e[d.len() as int] == ps[i]);
                }
            }
            assert forall|j: int| 0 <= j < e.len() implies exists|i: int| 0 <= i < n && ps[i] == #[trigger] e[j] by {
                if j < d.len() {
                    assert(e[j] == d[j]);
                } else {
                    assert(ps[n - 1] == e[j]);
                }
            }
        } else {
            assert forall|i: int| 0 <= i < n implies d.contains(#[trigger] ps[i]) by {
                if i == n - 1 {
                }
            }
        }
    }
}

fn same_path(a: &Vec<String>, b: &Vec<String>) -> (r: bool)
    ensures
        r == (a.deep_view() == b.deep_view()),
{
    if a.len() != b.len() {
        assert(a.deep_view().len() != b.deep_view().len());
        return false;
    }
    let mut i: usize = 0;
    while i < a.len()
        invariant
            i <= a.len(),
            a.len() == b.len(),
            forall|j: int| 0 <= j < i ==> a.deep_view()[j] == b.deep_view()[j],
        decreases a.len() - i,
    {
        let x = chars_of(a[i].as_str());
        let y = chars_of(b[i].as_str());
        let mut same = x.len() == y.len();
        let mut k: usize = 0;
        while same && k < x.len()
            invariant
                k <= x.len(),
                same ==> x.len() == y.len(),
                same ==> forall|m: int| 0 <= m < k ==> x@[m] == y@[m],
                !same ==> x@ != y@,
            decreases x.len() - k,
        {
            if x[k] != y[k] {
                same = false;
            }
            k = k + 1;
        }
        if !same {
            assert(a.deep_view()[i as int] != b.deep_view()[i as int]);
            return false;
        }
        assert(x@ =~= y@);
        i = i + 1;
    }
    assert(a.deep_view() =~= b.deep_view());
    true
}

/// The path table of a snapshot: the distinct paths of the publications in order of first
/// appearance, and for each publication the position of its path in that table.
pub fn snapshot_paths<R>(published: &Vec<(Vec<String>, R)>) -> (r: (Vec<Vec<String>>, Vec<usize>))
    ensures
        r.0.deep_view() == distinct_paths(
            Seq::new(published.len() as nat, |i: int| published@[i].0.deep_view()),
            published.len() as nat,
        ),
        no_duplicates(r.0.deep_view()),
        r.1.len() == published.len(),
        forall|i: int|
            0 <= i < published.len() ==> (#[trigger] r.1@[i]) < r.0.len() && r.0.deep_view()[r.1@[i] as int]
                == published@[i].0.deep_view(),
{
    let ghost ps = Seq::new(published.len() as nat, |i: int| published@[i].0.deep_view());
    let mut paths: Vec<Vec<String>> = Vec::new();
    let mut idx: Vec<usize> = Vec::new();
    let mut k: usize = 0;
    while k < published.len()
        invariant
            k <= published.len(),
            ps == Seq::new(published.len() as nat, |i: int| published@[i].0.deep_view()),
            paths.deep_view() == distinct_paths(ps, k as nat),
            idx.len() == k,
            forall|i: int| 0 <= i < k ==> (#[trigger] idx@[i]) < paths.len() && paths.deep_view()[idx@[i] as int] == ps[i],
        decreases published.len() - k,
    {
        proof {
            lemma_distinct_paths(ps, k as nat);
        }
        let p = &published[k].0;
        assert(p.deep_view() == ps[k as int]);
        let mut j: usize = 0;
        let mut found = false;
        while j < paths.len()
            invariant_except_break
                !found,
            invariant
                j <= paths.len(),
                forall|m: int| 0 <= m < j ==> paths.deep_view()[m] != p.deep_view(),
            ensures
                j <= paths.len(),
                found ==> j < paths.len() && paths.deep_view()[j as int] == p.deep_view(),
                !found ==> j == paths.len() && forall|m: int| 0 <= m < paths.len() ==> paths.deep_view()[m] != p.deep_view(),
            decreases paths.len() - j,
        {
            assert(paths.deep_view()[j as int] == paths@[j as int].deep_view());
            if same_path(&paths[j], p) {
                found = true;
                break;
            }
            j = j + 1;
        }
        let ghost before = paths.deep_view();
        if found {
            assert(before.contains(ps[k as int]));
            idx.push(j);
        } else {
            assert(!before.contains(ps[k as int]));
            let n = paths.len();
            paths.push(p.clone());
            idx.push(n);
            assert(paths.deep_view() =~= before.push(ps[k as int]));
        }
        assert(distinct_paths(ps, (k + 1) as nat) == paths.deep_view());
        k = k + 1;
        assert forall|i: int| 0 <= i < k implies (#[trigger] idx@[i]) < paths.len() && paths.deep_view()[idx@[i] as int] == ps[i] by {
            if i < k - 1 {
                assert(paths.deep_view()[idx@[i] as int] == before[idx@[i] as int]);
            }
        }
    }
    proof {
        lemma_distinct_paths(ps, published.len() as nat);
    }
    (paths, idx)
}

} // verus!

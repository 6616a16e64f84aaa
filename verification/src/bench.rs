//! Declaration of benchmarks: names, groups and run settings.
use std::time::Duration;
use vstd::prelude::*;
use crate::order::{lemma_lex_total, lemma_lex_trans, lex_le, lex_le_exec};
use crate::text::{chars_of, push_char, push_str};

verus! {

/// `tracing::Span`, carried through unread.
#[verifier::external_type_specification]
#[verifier::external_body]
pub struct ExSpan(tracing::Span);

/// `tracing::span::EnteredSpan`, the guard of an entered span, carried through unread.
#[verifier::external_type_specification]
#[verifier::external_body]
pub struct ExEnteredSpan(tracing::span::EnteredSpan);

/// Enters `span` with `tracing::Span::entered`; the span stays entered as long as the
/// result lives. Nothing is claimed of the result: span guards are opaque here.
#[verifier::external_body]
fn span_entered(span: tracing::Span) -> tracing::span::EnteredSpan {
    span.entered()
}

/// The duration of `secs` whole seconds, as `Duration::from_secs` gives it.
pub uninterp spec fn duration_from_secs(secs: u64) -> Duration;

/// `Duration::from_secs`, which never fails and depends on its argument alone: its
/// result is named [`duration_from_secs`]; nothing more is claimed of it.
pub assume_specification[ std::time::Duration::from_secs ](secs: u64) -> (d: Duration)
    ensures
        d == duration_from_secs(secs),
;

/// Separates the setup and the measured phase of one benchmark iteration.
pub enum IterScope {
    NonEntered(tracing::Span),
    SetupFinished(tracing::span::EnteredSpan),
    Invalid,
}

impl IterScope {
    /// Marks the end of the setup: the measured span is entered here.
    /// Only a scope that has not finished its setup yet can do so.
    pub fn finish_setup(&mut self)
        requires
            *old(self) is NonEntered,
        ensures
            *final(self) is SetupFinished,
    {
        let mut prev = IterScope::Invalid;
        std::mem::swap(self, &mut prev);
        match prev {
            IterScope::NonEntered(span) => {
                *self = IterScope::SetupFinished(span_entered(span));
            },
            _ => {},
        }
    }

    /// A scope whose measured span is `span`, not entered yet.
    pub fn new(span: tracing::Span) -> (s: IterScope)
        ensures
            s == IterScope::NonEntered(span),
    {
        IterScope::NonEntered(span)
    }
}

impl From<tracing::Span> for IterScope {
    /// A scope whose measured span is `span`, not entered yet.
    fn from(span: tracing::Span) -> (s: IterScope) {
        IterScope::NonEntered(span)
    }
}

impl vstd::std_specs::convert::FromSpecImpl<tracing::Span> for IterScope {
    open spec fn obeys_from_spec() -> bool {
        true
    }

    open spec fn from_spec(span: tracing::Span) -> IterScope {
        IterScope::NonEntered(span)
    }
}


/// One iteration of a benchmark declared with [`Bencher::run`]: the setup of `scope` ends,
/// which enters its measured span, then `g` runs once and its result is handed back. The
/// caller leaves the scope before it drops the result, so that dropping the result is not
/// measured.
pub fn run_iteration<G: FnMut() -> R, R>(g: &mut G, scope: &mut IterScope) -> (res: R)
    requires
        *old(scope) is NonEntered,
        call_requires(*old(g), ()),
    ensures
        *final(scope) is SetupFinished,
        call_ensures(*old(g), (), res),
{
    scope.finish_setup();
    g()
}

/// Run settings of one benchmark.
pub struct BenchConfig {
    pub warmup_seconds: usize,
    pub num_iters: usize,
    pub min_run_time: Duration,
    pub group_name: Option<String>,
}

/// The name shown for a benchmark: `group/name`, or the name alone.
pub open spec fn display_name_spec(group: Option<String>, bench_name: Seq<char>) -> Seq<char> {
    match group {
        Some(g) => g@ + seq!['/'] + bench_name,
        None => bench_name,
    }
}

impl BenchConfig {
    /// The name shown for `bench_name` run with this configuration.
    pub fn display_name(&self, bench_name: &str) -> (r: String)
        ensures
            r@ == display_name_spec(self.group_name, bench_name@),
    {
        match &self.group_name {
            Some(group) => {
                let mut r = group.clone();
                push_char(&mut r, '/');
                push_str(&mut r, bench_name);
                r
            },
            None => String::from_str(bench_name),
        }
    }

    /// A copy of this configuration.
    pub fn duplicate(&self) -> (r: BenchConfig)
        ensures
            r.warmup_seconds == self.warmup_seconds,
            r.num_iters == self.num_iters,
            r.min_run_time == self.min_run_time,
            match (r.group_name, self.group_name) {
                (Some(a), Some(b)) => a@ == b@,
                (None, None) => true,
                _ => false,
            },
    {
        BenchConfig {
            warmup_seconds: self.warmup_seconds,
            num_iters: self.num_iters,
            min_run_time: self.min_run_time,
            group_name: match &self.group_name {
                Some(g) => Some(g.clone()),
                None => None,
            },
        }
    }
}

/// A declared benchmark: its name, its settings and the function that runs one iteration.
pub struct NamedBench<F> {
    pub name: String,
    pub config: BenchConfig,
    pub func: F,
}

/// What one iteration of a declared benchmark runs.
pub enum BenchBody<G, C> {
    /// A plain function: each iteration is [`run_iteration`] on it, and the scope is left
    /// before its result is dropped.
    Plain(G),
    /// A function handed the scope of the iteration, which ends the setup itself.
    Custom(C),
}

/// Benchmark builder, passed to benchmark functions: `G` is the type of plain benchmark
/// functions, `C` that of functions handed their scope.
pub struct Bencher<G, C> {
    current_config: BenchConfig,
    name: String,
    iter_fn: Vec<NamedBench<BenchBody<G, C>>>,
}

impl<G, C> Bencher<G, C> {
    /// Settings for the next benchmarks.
    pub closed spec fn config(&self) -> BenchConfig {
        self.current_config
    }

    /// Name for the next benchmark.
    pub closed spec fn next_name(&self) -> Seq<char> {
        self.name@
    }

    /// Benchmarks declared so far.
    pub closed spec fn benches(&self) -> Seq<NamedBench<BenchBody<G, C>>> {
        self.iter_fn@
    }

    /// A builder named `name`, with 3 seconds of warmup, at least 300 iterations,
    /// at least 3 seconds of measured run time, no group and no benchmark yet.
    pub fn new(name: &str) -> (b: Self)
        ensures
            b.next_name() == name@,
            b.config().warmup_seconds == 3,
            b.config().num_iters == 300,
            b.config().min_run_time == duration_from_secs(3),
            b.config().group_name is None,
            b.benches() == Seq::<NamedBench<BenchBody<G, C>>>::empty(),
    {
        Bencher {
            name: String::from_str(name),
            current_config: BenchConfig {
                warmup_seconds: 3,
                num_iters: 300,
                min_run_time: Duration::from_secs(3),
                group_name: None,
            },
            iter_fn: Vec::new(),
        }
    }

    /// Sets the name for the next benchmark.
    pub fn name(&mut self, name: &str) -> (r: &mut Self)
        ensures
            r.next_name() == name@,
            r.config() == old(self).config(),
            r.benches() == old(self).benches(),
            *final(self) == *final(r),
    {
        self.name = String::from_str(name);
        self
    }

    /// Binds the next benchmarks to group `name` in the report.
    pub fn group(&mut self, name: &str) -> (r: &mut Self)
        ensures
            r.config() == (BenchConfig { group_name: r.config().group_name, ..old(self).config() }),
            r.config().group_name matches Some(g) && g@ == name@,
            r.next_name() == old(self).next_name(),
            r.benches() == old(self).benches(),
            *final(self) == *final(r),
    {
        self.current_config.group_name = Some(String::from_str(name));
        self
    }

    /// Sets the warmup duration in seconds.
    pub fn warmup_seconds(&mut self, seconds: usize) -> (r: &mut Self)
        ensures
            r.config() == (BenchConfig { warmup_seconds: seconds, ..old(self).config() }),
            r.next_name() == old(self).next_name(),
            r.benches() == old(self).benches(),
            *final(self) == *final(r),
    {
        self.current_config.warmup_seconds = seconds;
        self
    }

    /// Sets the minimum number of iterations of the measured phase
    /// (0 or 1 stops by time only).
    pub fn num_iters(&mut self, iters: usize) -> (r: &mut Self)
        ensures
            r.config() == (BenchConfig { num_iters: iters, ..old(self).config() }),
            r.next_name() == old(self).next_name(),
            r.benches() == old(self).benches(),
            *final(self) == *final(r),
    {
        self.current_config.num_iters = iters;
        self
    }

    /// Sets the minimum total run time of the measured phase.
    pub fn min_run_time(&mut self, duration: Duration) -> (r: &mut Self)
        ensures
            r.config() == (BenchConfig { min_run_time: duration, ..old(self).config() }),
            r.next_name() == old(self).next_name(),
            r.benches() == old(self).benches(),
            *final(self) == *final(r),
    {
        self.current_config.min_run_time = duration;
        self
    }

    /// No declared benchmark has the current name.
    pub open spec fn name_is_new(&self) -> bool {
        forall|i: int| 0 <= i < self.benches().len() ==> (#[trigger] self.benches()[i]).name@ != self.next_name()
    }

    /// Whether no declared benchmark has the current name.
    pub fn name_is_unused(&self) -> (r: bool)
        ensures
            r == self.name_is_new(),
    {
        let mut i: usize = 0;
        while i < self.iter_fn.len()
            invariant
                i <= self.iter_fn.len(),
                forall|j: int| 0 <= j < i ==> (#[trigger] self.benches()[j]).name@ != self.next_name(),
            decreases self.iter_fn.len() - i,
        {
            assert(self.benches()[i as int] == self.iter_fn@[i as int]);
            if self.iter_fn[i].name == self.name {
                return false;
            }
            i = i + 1;
        }
        true
    }

    fn declare(&mut self, func: BenchBody<G, C>)
        requires
            old(self).name_is_new(),
        ensures
            final(self).next_name() == old(self).next_name(),
            final(self).config() == old(self).config(),
            final(self).benches().len() == old(self).benches().len() + 1,
            final(self).benches().drop_last() == old(self).benches(),
            final(self).benches().last().name@ == old(self).next_name(),
            final(self).benches().last().config.warmup_seconds == old(self).config().warmup_seconds,
            final(self).benches().last().config.num_iters == old(self).config().num_iters,
            final(self).benches().last().config.min_run_time == old(self).config().min_run_time,
            display_name_spec(final(self).benches().last().config.group_name, seq![])
                == display_name_spec(old(self).config().group_name, seq![]),
            final(self).benches().last().func == func,
    {
        let bench = NamedBench { name: self.name.clone(), config: self.current_config.duplicate(), func };
        let ghost before = self.iter_fn@;
        self.iter_fn.push(bench);
        assert(self.iter_fn@.drop_last() =~= before);
    }

    /// Declares a benchmark with the current name and settings whose iteration hands its
    /// scope to `func`. Benchmarks declared by one builder must have different names.
    pub fn run_custom(&mut self, func: C)
        requires
            old(self).name_is_new(),
        ensures
            final(self).next_name() == old(self).next_name(),
            final(self).config() == old(self).config(),
            final(self).benches().len() == old(self).benches().len() + 1,
            final(self).benches().drop_last() == old(self).benches(),
            final(self).benches().last().name@ == old(self).next_name(),
            final(self).benches().last().config.warmup_seconds == old(self).config().warmup_seconds,
            final(self).benches().last().config.num_iters == old(self).config().num_iters,
            final(self).benches().last().config.min_run_time == old(self).config().min_run_time,
            display_name_spec(final(self).benches().last().config.group_name, seq![])
                == display_name_spec(old(self).config().group_name, seq![]),
            final(self).benches().last().func == BenchBody::<G, C>::Custom(func),
    {
        self.declare(BenchBody::Custom(func));
    }

    /// Declares a benchmark whose iteration runs `f` after the setup is finished (see
    /// [`run_iteration`]); the result of `f` is dropped outside the measured span.
    pub fn run(&mut self, f: G)
        requires
            old(self).name_is_new(),
        ensures
            final(self).next_name() == old(self).next_name(),
            final(self).config() == old(self).config(),
            final(self).benches().len() == old(self).benches().len() + 1,
            final(self).benches().drop_last() == old(self).benches(),
            final(self).benches().last().name@ == old(self).next_name(),
            final(self).benches().last().config.warmup_seconds == old(self).config().warmup_seconds,
            final(self).benches().last().config.num_iters == old(self).config().num_iters,
            final(self).benches().last().config.min_run_time == old(self).config().min_run_time,
            display_name_spec(final(self).benches().last().config.group_name, seq![])
                == display_name_spec(old(self).config().group_name, seq![]),
            final(self).benches().last().func == BenchBody::<G, C>::Plain(f),
    {
        self.declare(BenchBody::Plain(f));
    }

    /// Hands over the declared benchmarks; none is left.
    pub fn take_benches(&mut self) -> (r: Vec<NamedBench<BenchBody<G, C>>>)
        ensures
            r@ == old(self).benches(),
            final(self).benches() == Seq::<NamedBench<BenchBody<G, C>>>::empty(),
            final(self).next_name() == old(self).next_name(),
            final(self).config() == old(self).config(),
    {
        let mut taken: Vec<NamedBench<BenchBody<G, C>>> = Vec::new();
        std::mem::swap(&mut taken, &mut self.iter_fn);
        taken
    }
}

/// The group of a benchmark as characters.
pub open spec fn group_view(g: Option<String>) -> Option<Seq<char>> {
    match g {
        Some(s) => Some(s@),
        None => None,
    }
}

/// Order of groups: no group first, then groups by name.
pub open spec fn group_le(a: Option<Seq<char>>, b: Option<Seq<char>>) -> bool {
    match (a, b) {
        (None, _) => true,
        (Some(_), None) => false,
        (Some(x), Some(y)) => lex_le(x, y),
    }
}

/// Order in which benchmarks run: by group, then by name.
pub open spec fn run_order_le(ga: Option<Seq<char>>, na: Seq<char>, gb: Option<Seq<char>>, nb: Seq<char>) -> bool {
    if ga == gb {
        lex_le(na, nb)
    } else {
        group_le(ga, gb)
    }
}

/// `a` runs no later than `b`.
pub open spec fn bench_le<F>(a: NamedBench<F>, b: NamedBench<F>) -> bool {
    run_order_le(group_view(a.config.group_name), a.name@, group_view(b.config.group_name), b.name@)
}

/// Benchmarks without a group run before those with one; within one group they run by
/// name, in the order of `str`; two different groups run in the order of their names.
pub proof fn lemma_run_order_by_group_then_name<F>(a: NamedBench<F>, b: NamedBench<F>)
    ensures
        (a.config.group_name is None && b.config.group_name is Some) ==> bench_le(a, b) && !bench_le(b, a),
        group_view(a.config.group_name) == group_view(b.config.group_name) ==> bench_le(a, b)
            == lex_le(a.name@, b.name@),
        (a.config.group_name matches Some(g) && b.config.group_name matches Some(h) && g@ != h@)
            ==> bench_le(a, b) == lex_le(a.config.group_name->0@, b.config.group_name->0@),
{
}


proof fn lemma_group_le(a: Option<Seq<char>>, b: Option<Seq<char>>, c: Option<Seq<char>>)
    ensures
        group_le(a, b) || group_le(b, a),
        group_le(a, b) && group_le(b, a) ==> a == b,
        group_le(a, b) && group_le(b, c) ==> group_le(a, c),
{
    match (a, b) {
        (Some(x), Some(y)) => {
            lemma_lex_total(x, y);
            match c {
                Some(z) => {
                    if lex_le(x, y) && lex_le(y, z) {
                        lemma_lex_trans(x, y, z);
                    }
                },
                None => {},
            }
        },
        _ => {},
    }
}

/// The run order is total and transitive.
pub proof fn lemma_run_order<F>(a: NamedBench<F>, b: NamedBench<F>, c: NamedBench<F>)
    ensures
        bench_le(a, b) || bench_le(b, a),
        bench_le(a, b) && bench_le(b, c) ==> bench_le(a, c),
{
    let (ga, gb, gc) = (group_view(a.config.group_name), group_view(b.config.group_name), group_view(c.config.group_name));
    lemma_group_le(ga, gb, gc);
    lemma_group_le(gb, ga, gc);
    lemma_group_le(ga, gc, gb);
    lemma_lex_total(a.name@, b.name@);
    if bench_le(a, b) && bench_le(b, c) {
        if ga == gb && gb == gc {
            lemma_lex_trans(a.name@, b.name@, c.name@);
        }
    }
}

/// `perm` maps each position of a sequence of length `n` to a distinct position of another.
pub open spec fn is_permutation(perm: Seq<int>, n: int) -> bool {
    &&& perm.len() == n
    &&& forall|i: int| 0 <= i < n ==> 0 <= #[trigger] perm[i] < n
    &&& forall|i: int, j: int| 0 <= i < j < n ==> perm[i] != perm[j]
}

/// `r` is `s` put in run order, benchmarks with equal group and name keeping their order.
pub open spec fn stably_sorted<F>(r: Seq<NamedBench<F>>, s: Seq<NamedBench<F>>) -> bool {
    exists|perm: Seq<int>| {
        &&& is_permutation(perm, s.len() as int)
        &&& r.len() == s.len()
        &&& forall|i: int| 0 <= i < r.len() ==> r[i] == s[#[trigger] perm[i]]
        &&& forall|i: int, j: int| 0 <= i < j < r.len() ==> bench_le(#[trigger] r[i], #[trigger] r[j])
        &&& forall|i: int, j: int| 0 <= i < j < r.len() && bench_le(r[j], r[i]) ==> perm[i] < perm[j]
    }
}

fn opt_chars(g: &Option<String>) -> (r: Option<Vec<char>>)
    ensures
        match r {
            Some(v) => group_view(*g) == Some(v@),
            None => group_view(*g) is None,
        },
{
    match g {
        Some(s) => Some(chars_of(s.as_str())),
        None => None,
    }
}

fn same_chars(a: &Vec<char>, b: &Vec<char>) -> (r: bool)
    ensures
        r == (a@ == b@),
{
    let x = lex_le_exec(a, b);
    let y = lex_le_exec(b, a);
    proof {
        lemma_lex_total(a@, b@);
        if a@ == b@ {
            lemma_lex_total(a@, a@);
        }
    }
    x && y
}

fn bench_le_exec<F>(a: &NamedBench<F>, b: &NamedBench<F>) -> (r: bool)
    ensures
        r == bench_le(*a, *b),
{
    let ga = opt_chars(&a.config.group_name);
    let gb = opt_chars(&b.config.group_name);
    let same = match (&ga, &gb) {
        (Some(x), Some(y)) => same_chars(x, y),
        (None, None) => true,
        _ => false,
    };
    if same {
        lex_le_exec(&chars_of(a.name.as_str()), &chars_of(b.name.as_str()))
    } else {
        match (&ga, &gb) {
            (None, _) => true,
            (Some(_), None) => false,
            (Some(x), Some(y)) => lex_le_exec(x, y),
        }
    }
}

/// Puts the benchmarks in run order: by group (no group first), then by name;
/// benchmarks with equal group and name keep their order.
pub fn sort_benches<F>(benches: &mut Vec<NamedBench<F>>)
    ensures
        stably_sorted(final(benches)@, old(benches)@),
{
    let ghost s = benches@;
    let n = benches.len();
    assert(s.len() == n);
    let mut rest: Vec<NamedBench<F>> = Vec::new();
    std::mem::swap(&mut rest, benches);
    let mut out: Vec<NamedBench<F>> = Vec::new();
    let ghost mut perm: Seq<int> = Seq::empty();
    let mut k: usize = 0;
    while rest.len() > 0
        invariant
            k + rest.len() == s.len(),
            s.len() <= usize::MAX,
            rest@ == s.skip(k as int),
            out.len() == k,
            perm.len() == k,
            forall|i: int| 0 <= i < k ==> 0 <= #[trigger] perm[i] < k,
            forall|i: int, j: int| 0 <= i < j < k ==> perm[i] != perm[j],
            forall|i: int| 0 <= i < k ==> out@[i] == s[#[trigger] perm[i]],
            forall|i: int, j: int| 0 <= i < j < k ==> bench_le(#[trigger] out@[i], #[trigger] out@[j]),
            forall|i: int, j: int| 0 <= i < j < k && bench_le(out@[j], out@[i]) ==> perm[i] < perm[j],
        decreases rest.len(),
    {
        let x = rest.remove(0);
        assert(x == s[k as int]);
        let mut p: usize = 0;
        while p < out.len()
            invariant
                p <= out.len(),
                forall|j: int| 0 <= j < p ==> bench_le(#[trigger] out@[j], x),
            ensures
                p <= out.len(),
                forall|j: int| 0 <= j < p ==> bench_le(#[trigger] out@[j], x),
                p < out.len() ==> !bench_le(out@[p as int], x),
            decreases out.len() - p,
        {
            if !bench_le_exec(&out[p], &x) {
                break;
            }
            p = p + 1;
        }
        let ghost old_out = out@;
        let ghost old_perm = perm;
        proof {
            // every element from position p on comes after `x`
            assert forall|j: int| p <= j < old_out.len() implies !bench_le(#[trigger] old_out[j], x)
                && bench_le(x, old_out[j]) by {
                lemma_run_order(old_out[j], x, old_out[p as int]);
                lemma_run_order(old_out[p as int], old_out[j], x);
                lemma_run_order(old_out[p as int], x, x);
            }
            perm = old_perm.insert(p as int, k as int);
        }
        out.insert(p, x);
        proof {
            let nv = out@;
            assert(nv =~= old_out.insert(p as int, x));
            assert forall|i: int| 0 <= i < k + 1 implies 0 <= #[trigger] perm[i] < k + 1 by {
                if i > p {
                    assert(perm[i] == old_perm[i - 1]);
                }
            }
            assert forall|i: int, j: int| 0 <= i < j < k + 1 implies perm[i] != perm[j] by {
                if i < p && j > p {
                    assert(perm[j] == old_perm[j - 1]);
                } else if i > p {
                    assert(perm[i] == old_perm[i - 1]);
                    assert(perm[j] == old_perm[j - 1]);
                } else if i == p {
                    assert(perm[j] == old_perm[j - 1]);
                }
            }
            assert forall|i: int| 0 <= i < k + 1 implies out@[i] == s[#[trigger] perm[i]] by {
                if i > p {
                    assert(perm[i] == old_perm[i - 1]);
                }
            }
            assert forall|i: int, j: int| 0 <= i < j < k + 1 implies bench_le(#[trigger] nv[i], #[trigger] nv[j]) by {
                if i < p && j == p {
                } else if i == p && j > p {
                    assert(nv[j] == old_out[j - 1]);
                } else if i < p && j > p {
                    assert(nv[j] == old_out[j - 1]);
                } else if i > p {
                    assert(nv[i] == old_out[i - 1]);
                    assert(nv[j] == old_out[j - 1]);
                }
            }
            assert forall|i: int, j: int| 0 <= i < j < k + 1 && bench_le(nv[j], nv[i]) implies perm[i] < perm[j] by {
                if i < p && j == p {
                } else if i == p && j > p {
                    assert(nv[j] == old_out[j - 1]);
                } else if i < p && j > p {
                    assert(perm[j] == old_perm[j - 1]);
                    assert(nv[j] == old_out[j - 1]);
                } else if i > p {
                    assert(perm[i] == old_perm[i - 1]);
                    assert(perm[j] == old_perm[j - 1]);
                    assert(nv[i] == old_out[i - 1]);
                    assert(nv[j] == old_out[j - 1]);
                }
            }
        }
        k = k + 1;
    }
    *benches = out;
    proof {
        assert(is_permutation(perm, s.len() as int));
    }
}

/// Holds a benchmark function until it is registered.
pub struct BenchFn<T>(Option<T>);

impl<T> BenchFn<T> {
    pub closed spec fn held(&self) -> Option<T> {
        self.0
    }

    pub fn new(v: T) -> (b: Self)
        ensures
            b.held() == Some(v),
    {
        BenchFn(Some(v))
    }

    /// Whether the function is still held.
    pub fn is_held(&self) -> (r: bool)
        ensures
            r == self.held() is Some,
    {
        self.0.is_some()
    }

    /// The held function; it can be taken once.
    pub fn take(&mut self) -> (r: T)
        requires
            old(self).held() is Some,
        ensures
            Some(r) == old(self).held(),
            final(self).held() is None,
    {
        let mut held: Option<T> = None;
        std::mem::swap(&mut held, &mut self.0);
        held.unwrap()
    }
}

} // verus!

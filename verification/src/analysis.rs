//! Raw span events and the paths that they give.
use std::collections::HashMap;
use vstd::prelude::*;

verus! {

/// Entry collected while spans run.
///
/// Pure data: a span was entered (with its name and parent), or a span was
/// left and its measurement is ready.
pub enum ProfileEntry<Start, Result> {
    /// Span entered: captures its start state.
    Register { id: u64, name: Option<String>, parent: Option<u64>, start: Start },
    /// Span exited: captures the measured result.
    Publish { id: u64, result: Result },
}

/// Phases of the analysis of a benchmark run.
#[derive(Clone, Copy, Debug, PartialEq, Eq, Structural)]
pub enum AnalysisPhase {
    FillPublished,
    AggregatePublished,
    FinalizeSorting,
}

/// Text shown for a phase.
pub open spec fn phase_label(p: AnalysisPhase) -> Seq<char> {
    match p {
        AnalysisPhase::FillPublished => "raw spans"@,
        AnalysisPhase::AggregatePublished => "aggregate spans"@,
        AnalysisPhase::FinalizeSorting => "sort medians"@,
    }
}

impl AnalysisPhase {
    /// Text shown for the phase.
    pub fn label(self) -> (r: &'static str)
        ensures
            r@ == phase_label(self),
    {
        match self {
            AnalysisPhase::FillPublished => "raw spans",
            AnalysisPhase::AggregatePublished => "aggregate spans",
            AnalysisPhase::FinalizeSorting => "sort medians",
        }
    }
}

/// How far the analysis has come.
#[derive(Clone, Copy, Debug, PartialEq, Eq, Structural)]
pub struct AnalysisProgressState {
    pub phase: AnalysisPhase,
    pub completed: usize,
    pub total: usize,
}

/// Receives progress updates of an analysis.
pub trait AnalysisProgress {
    /// The states received so far, oldest first.
    spec fn updates(&self) -> Seq<AnalysisProgressState>;

    /// Receives `state`, which is added to the states received.
    fn update(&mut self, state: AnalysisProgressState)
        ensures
            final(self).updates() == old(self).updates().push(state),
    ;
}

/// Shows progress states as they come, for instance on a terminal.
pub trait ProgressDisplay {
    fn show(&mut self, state: AnalysisProgressState);
}

/// Progress receiver that shows every state on a display and keeps the states received.
pub struct ProgressSink<D> {
    display: D,
    sent: Ghost<Seq<AnalysisProgressState>>,
}

impl<D: ProgressDisplay> ProgressSink<D> {
    /// The display the states go to.
    pub closed spec fn shows_on(&self) -> D {
        self.display
    }

    /// A receiver that has received nothing yet and shows states on `display`.
    pub fn new(display: D) -> (s: Self)
        ensures
            s.updates() == Seq::<AnalysisProgressState>::empty(),
            s.shows_on() == display,
    {
        ProgressSink { display, sent: Ghost(Seq::empty()) }
    }

    /// The display the states go to.
    pub fn display(&self) -> (d: &D)
        ensures
            *d == self.shows_on(),
    {
        &self.display
    }
}

impl<D: ProgressDisplay> AnalysisProgress for ProgressSink<D> {
    closed spec fn updates(&self) -> Seq<AnalysisProgressState> {
        self.sent@
    }

    fn update(&mut self, state: AnalysisProgressState) {
        self.display.show(state);
        self.sent = Ghost(self.sent@.push(state));
    }
}

/// Progress receiver that keeps every state it receives.
pub struct ProgressLog {
    pub states: Vec<AnalysisProgressState>,
}

impl ProgressLog {
    pub fn new() -> (s: Self)
        ensures
            s.states@ == Seq::<AnalysisProgressState>::empty(),
    {
        ProgressLog { states: Vec::new() }
    }
}

impl AnalysisProgress for ProgressLog {
    open spec fn updates(&self) -> Seq<AnalysisProgressState> {
        self.states@
    }

    fn update(&mut self, state: AnalysisProgressState) {
        self.states.push(state);
    }
}

/// The states `(phase, c, total)` for `c` from 0 up to, but not including, `count`.
pub open spec fn progress_states(phase: AnalysisPhase, total: int, count: int) -> Seq<AnalysisProgressState> {
    Seq::new(
        if count > 0 { count as nat } else { 0 },
        |c: int| AnalysisProgressState { phase, completed: c as usize, total: total as usize },
    )
}

/// Going from `before` to `after`, a receiver got the states `added`, and no receiver
/// appeared or vanished.
pub open spec fn progress_added<P: AnalysisProgress>(
    before: Option<P>,
    after: Option<P>,
    added: Seq<AnalysisProgressState>,
) -> bool {
    match before {
        Some(b) => after matches Some(a) && a.updates() == b.updates() + added,
        None => after is None,
    }
}

/// Receiving `s1`, then `s2`, is receiving `s1 + s2`.
pub proof fn lemma_progress_chain<P: AnalysisProgress>(
    a: Option<P>,
    b: Option<P>,
    c: Option<P>,
    s1: Seq<AnalysisProgressState>,
    s2: Seq<AnalysisProgressState>,
)
    requires
        progress_added(a, b, s1),
        progress_added(b, c, s2),
    ensures
        progress_added(a, c, s1 + s2),
{
    match a {
        Some(x) => {
            let y = b->0;
            let z = c->0;
            assert(z.updates() =~= x.updates() + (s1 + s2));
        },
        None => {},
    }
}

/// One more state of a phase extends the states of that phase.
pub proof fn lemma_progress_step(phase: AnalysisPhase, total: int, count: int)
    requires
        0 <= count,
        count <= usize::MAX,
        0 <= total <= usize::MAX,
    ensures
        progress_states(phase, total, count).push(
            AnalysisProgressState { phase, completed: count as usize, total: total as usize },
        ) == progress_states(phase, total, count + 1),
{
    assert(progress_states(phase, total, count).push(
        AnalysisProgressState { phase, completed: count as usize, total: total as usize },
    ) =~= progress_states(phase, total, count + 1));
}

/// Hands one progress update to `progress`, when there is one.
pub fn publish_progress<P: AnalysisProgress>(
    progress: &mut Option<P>,
    phase: AnalysisPhase,
    completed: usize,
    total: usize,
)
    ensures
        progress_added(*old(progress), *final(progress), seq![AnalysisProgressState { phase, completed, total }]),
{
    match progress {
        Some(p) => p.update(AnalysisProgressState { phase, completed, total }),
        None => {},
    }
    proof {
        match *old(progress) {
            Some(b) => {
                assert(progress->0.updates() =~= b.updates() + seq![AnalysisProgressState { phase, completed, total }]);
            },
            None => {},
        }
    }
}

/// The path of a span that was never registered.
pub open spec fn unknown_path() -> Seq<Seq<char>> {
    seq![seq!['?']]
}

/// Name of a span without metadata.
pub open spec fn unknown_name() -> Seq<char> {
    seq!['u', 'n', 'k', 'n', 'o', 'w', 'n']
}

/// Path of `id` among the registered spans `frames`.
pub open spec fn path_of(frames: Map<u64, Seq<Seq<char>>>, id: u64) -> Seq<Seq<char>> {
    if frames.contains_key(id) {
        frames[id]
    } else {
        unknown_path()
    }
}

/// Name of a span as it appears in paths.
pub open spec fn span_name(name: Option<String>) -> Seq<char> {
    match name {
        Some(n) => n@,
        None => unknown_name(),
    }
}

/// Path given to a span registered under `parent`: the parent's path, then its own name.
pub open spec fn register_path(
    frames: Map<u64, Seq<Seq<char>>>,
    name: Option<String>,
    parent: Option<u64>,
) -> Seq<Seq<char>> {
    let base = match parent {
        Some(p) => path_of(frames, p),
        None => Seq::empty(),
    };
    base.push(span_name(name))
}

/// Paths of the spans registered by `entries`, each by its id (the latest registration wins).
pub open spec fn frames_after<S, R>(entries: Seq<ProfileEntry<S, R>>) -> Map<u64, Seq<Seq<char>>>
    decreases entries.len(),
{
    if entries.len() == 0 {
        Map::empty()
    } else {
        let f = frames_after(entries.drop_last());
        match entries.last() {
            ProfileEntry::Register { id, name, parent, .. } => f.insert(
                id,
                register_path(f, name, parent),
            ),
            ProfileEntry::Publish { .. } => f,
        }
    }
}

/// Every `Publish` of `entries` with the path that its span had at that point.
pub open spec fn published_spec<S, R>(entries: Seq<ProfileEntry<S, R>>) -> Seq<(Seq<Seq<char>>, R)>
    decreases entries.len(),
{
    if entries.len() == 0 {
        Seq::empty()
    } else {
        let prev = published_spec(entries.drop_last());
        match entries.last() {
            ProfileEntry::Register { .. } => prev,
            ProfileEntry::Publish { id, result } => prev.push(
                (path_of(frames_after(entries.drop_last()), id), result),
            ),
        }
    }
}

/// A span that is registered and then published gets, at its publication, the path made of
/// its parent's path at registration (`?` for a parent never registered, nothing without a
/// parent) followed by its own name (`unknown` without one), even when its id was used
/// before; the earlier publications are kept as they were.
pub proof fn lemma_publish_after_register<S, R>(
    pre: Seq<ProfileEntry<S, R>>,
    id: u64,
    name: Option<String>,
    parent: Option<u64>,
    start: S,
    result: R,
)
    ensures
        ({
            let e = pre.push(ProfileEntry::Register { id, name, parent, start }).push(
                ProfileEntry::Publish { id, result },
            );
            let parent_path = match parent {
                Some(p) => if frames_after(pre).contains_key(p) {
                    frames_after(pre)[p]
                } else {
                    seq![seq!['?']]
                },
                None => Seq::empty(),
            };
            let own = match name {
                Some(n) => n@,
                None => seq!['u', 'n', 'k', 'n', 'o', 'w', 'n'],
            };
            &&& published_spec(e).len() == published_spec(pre).len() + 1
            &&& published_spec(e).drop_last() == published_spec(pre)
            &&& published_spec(e).last() == (parent_path.push(own), result)
        }),
{
    let r = pre.push(ProfileEntry::Register { id, name, parent, start });
    let e = r.push(ProfileEntry::Publish { id, result });
    assert(e.drop_last() == r);
    assert(r.drop_last() == pre);
    assert(published_spec(r) == published_spec(pre));
}


/// Number of `Publish` entries.
pub open spec fn publish_count<S, R>(entries: Seq<ProfileEntry<S, R>>) -> nat
    decreases entries.len(),
{
    if entries.len() == 0 {
        0
    } else {
        publish_count(entries.drop_last()) + match entries.last() {
            ProfileEntry::Register { .. } => 0nat,
            ProfileEntry::Publish { .. } => 1nat,
        }
    }
}

fn clone_path(p: &Vec<String>) -> (r: Vec<String>)
    ensures
        r.deep_view() == p.deep_view(),
{
    let mut r: Vec<String> = Vec::new();
    let mut i: usize = 0;
    while i < p.len()
        invariant
            i <= p.len(),
            r.len() == i,
            r.deep_view() == p.deep_view().take(i as int),
        decreases p.len() - i,
    {
        let c = p[i].clone();
        let ghost prev = r@;
        assert(prev.len() == i);
        r.push(c);
        assert(r@.len() == i + 1);
        assert(r@[i as int] == c);
        i = i + 1;
        assert forall|j: int| 0 <= j < i implies r.deep_view()[j] == p.deep_view()[j] by {
            assert(r.deep_view()[j] == r@[j]@);
            assert(p.deep_view()[j] == p@[j]@);
            if j < i - 1 {
                assert(r@[j] == prev[j]);
                assert(prev[j]@ == p.deep_view().take(i - 1)[j]);
            } else {
                assert(c@ == p@[j]@);
            }
        }
        assert(r.deep_view() =~= p.deep_view().take(i as int));
    }
    assert(p.deep_view().take(p.len() as int) =~= p.deep_view());
    r
}

fn unknown_path_exec() -> (r: Vec<String>)
    ensures
        r.deep_view() == unknown_path(),
{
    let mut s = String::new();
    crate::text::push_char(&mut s, '?');
    let mut r: Vec<String> = Vec::new();
    r.push(s);
    assert(r.deep_view() =~= unknown_path());
    r
}

fn lookup_path(frames: &HashMap<u64, Vec<String>>, id: u64, ghost_frames: Ghost<Map<u64, Seq<Seq<char>>>>) -> (r: Vec<String>)
    requires
        forall|k: u64| frames@.contains_key(k) <==> ghost_frames@.contains_key(k),
        forall|k: u64| frames@.contains_key(k) ==> #[trigger] frames@[k].deep_view() == ghost_frames@[k],
    ensures
        r.deep_view() == path_of(ghost_frames@, id),
{
    broadcast use vstd::std_specs::hash::group_hash_axioms;
    match frames.get(&id) {
        Some(p) => clone_path(p),
        None => unknown_path_exec(),
    }
}

/// The path of every published span, in order, with a clone of its result.
///
/// A registered span's path is its parent's path followed by its own name
/// (`unknown` without metadata); a parent or span that was never registered
/// has the path `?`.
pub fn fill_published<S, R: Clone, P: AnalysisProgress>(
    entries: &Vec<ProfileEntry<S, R>>,
    progress: &mut Option<P>,
) -> (out: Vec<(Vec<String>, R)>)
    ensures
        out.len() == published_spec(entries@).len(),
        forall|i: int|
            0 <= i < out.len() ==> (#[trigger] out@[i]).0.deep_view() == published_spec(
                entries@,
            )[i].0 && cloned(published_spec(entries@)[i].1, out@[i].1),
        progress_added(
            *old(progress),
            *final(progress),
            progress_states(AnalysisPhase::FillPublished, entries.len() as int, entries.len() + 1),
        ),
{
    broadcast use vstd::std_specs::hash::group_hash_axioms;

    let mut published: Vec<(Vec<String>, R)> = Vec::new();
    let mut span_frame: HashMap<u64, Vec<String>> = HashMap::new();
    let n = entries.len();
    publish_progress(progress, AnalysisPhase::FillPublished, 0, n);
    assert(seq![AnalysisProgressState { phase: AnalysisPhase::FillPublished, completed: 0, total: n }]
        =~= progress_states(AnalysisPhase::FillPublished, n as int, 1));
    let mut idx: usize = 0;
    while idx < n
        invariant
            n == entries.len(),
            idx <= n,
            progress_added(
                *old(progress),
                *progress,
                progress_states(AnalysisPhase::FillPublished, n as int, idx + 1),
            ),
            forall|k: u64|
                span_frame@.contains_key(k) <==> frames_after(entries@.take(idx as int)).contains_key(k),
            forall|k: u64|
                span_frame@.contains_key(k) ==> #[trigger] span_frame@[k].deep_view() == frames_after(
                    entries@.take(idx as int),
                )[k],
            published.len() == published_spec(entries@.take(idx as int)).len(),
            forall|i: int|
                0 <= i < published.len() ==> (#[trigger] published@[i]).0.deep_view()
                    == published_spec(entries@.take(idx as int))[i].0 && cloned(
                    published_spec(entries@.take(idx as int))[i].1,
                    published@[i].1,
                ),
        decreases n - idx,
    {
        let ghost pre = entries@.take(idx as int);
        let ghost frames = frames_after(pre);
        assert(entries@.take(idx + 1).drop_last() =~= pre);
        assert(entries@.take(idx + 1).last() == entries@[idx as int]);
        match &entries[idx] {
            ProfileEntry::Register { id, name, parent, .. } => {
                let mut parent_path: Vec<String> = match parent {
                    Some(p) => lookup_path(&span_frame, *p, Ghost(frames)),
                    None => Vec::new(),
                };
                let seg = match name {
                    Some(nm) => nm.clone(),
                    None => String::from_str("unknown"),
                };
                proof {
                    reveal_strlit("unknown");
                    assert(seg@ == span_name(*name));
                }
                parent_path.push(seg);
                assert(parent_path.deep_view() =~= register_path(frames, *name, *parent));
                span_frame.insert(*id, parent_path);
            },
            ProfileEntry::Publish { id, result } => {
                let path = lookup_path(&span_frame, *id, Ghost(frames));
                published.push((path, result.clone()));
            },
        }
        idx = idx + 1;
        let ghost mid = *progress;
        publish_progress(progress, AnalysisPhase::FillPublished, idx, n);
        proof {
            lemma_progress_chain(*old(progress), mid, *progress,
                progress_states(AnalysisPhase::FillPublished, n as int, idx as int),
                seq![AnalysisProgressState { phase: AnalysisPhase::FillPublished, completed: idx, total: n }]);
            lemma_progress_step(AnalysisPhase::FillPublished, n as int, idx as int);
            assert(progress_states(AnalysisPhase::FillPublished, n as int, idx as int)
                + seq![AnalysisProgressState { phase: AnalysisPhase::FillPublished, completed: idx, total: n }]
                =~= progress_states(AnalysisPhase::FillPublished, n as int, idx as int).push(
                    AnalysisProgressState { phase: AnalysisPhase::FillPublished, completed: idx, total: n }));
        }
    }
    assert(entries@.take(n as int) =~= entries@);
    published
}

} // verus!

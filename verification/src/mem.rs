//! Memory accounting of spans: one frame per span in flight on a thread.
use vstd::prelude::*;
use vstd::pervasive::VecAdditionalExecFns;

verus! {

/// Allocation counters of one span.
#[derive(Clone, Copy, Debug)]
pub struct FrameInfo {
    pub alloced_bytes: usize,
    pub num_allocs: usize,
    pub freed_bytes: usize,
    pub num_frees: usize,
    pub peak_bytes: usize,
    /// The span has ended; the frame waits to be removed.
    pub dead: bool,
}

/// A frame with nothing counted yet.
pub open spec fn fresh_frame() -> FrameInfo {
    FrameInfo { alloced_bytes: 0, num_allocs: 0, freed_bytes: 0, num_frees: 0, peak_bytes: 0, dead: false }
}

/// The frame after an allocation of `n` bytes.
pub open spec fn alloced_frame(f: FrameInfo, n: int) -> FrameInfo {
    let alloced = f.alloced_bytes + n;
    let live = alloced - f.freed_bytes;
    FrameInfo {
        alloced_bytes: alloced as usize,
        num_allocs: (f.num_allocs + 1) as usize,
        peak_bytes: if f.peak_bytes >= live { f.peak_bytes } else { live as usize },
        ..f
    }
}

/// The frame after a deallocation of `n` bytes.
pub open spec fn freed_frame(f: FrameInfo, n: int) -> FrameInfo {
    FrameInfo { freed_bytes: (f.freed_bytes + n) as usize, num_frees: (f.num_frees + 1) as usize, ..f }
}

/// An allocation of `n` bytes can be counted in `f` without overflow or underflow.
pub open spec fn can_alloc(f: FrameInfo, n: int) -> bool {
    &&& f.alloced_bytes + n <= usize::MAX
    &&& f.num_allocs + 1 <= usize::MAX
    &&& f.alloced_bytes + n >= f.freed_bytes
}

/// A deallocation of `n` bytes can be counted in `f` without overflow.
pub open spec fn can_free(f: FrameInfo, n: int) -> bool {
    &&& f.freed_bytes + n <= usize::MAX
    &&& f.num_frees + 1 <= usize::MAX
}

impl FrameInfo {
    /// Counts an allocation of `num_bytes` and updates the peak of live bytes.
    pub fn mark_alloced(&mut self, num_bytes: usize)
        requires
            can_alloc(*old(self), num_bytes as int),
        ensures
            *final(self) == alloced_frame(*old(self), num_bytes as int),
    {
        self.alloced_bytes = self.alloced_bytes + num_bytes;
        self.num_allocs = self.num_allocs + 1;
        let live = self.alloced_bytes - self.freed_bytes;
        if self.peak_bytes < live {
            self.peak_bytes = live;
        }
    }

    /// Counts a deallocation of `num_bytes`.
    pub fn mark_freed(&mut self, num_bytes: usize)
        requires
            can_free(*old(self), num_bytes as int),
        ensures
            *final(self) == freed_frame(*old(self), num_bytes as int),
    {
        self.freed_bytes = self.freed_bytes + num_bytes;
        self.num_frees = self.num_frees + 1;
    }

    /// The counters as they are; the frame itself is marked dead.
    pub fn take(&mut self) -> (r: FrameInfo)
        ensures
            r == *old(self),
            *final(self) == (FrameInfo { dead: true, ..*old(self) }),
    {
        let res = FrameInfo {
            alloced_bytes: self.alloced_bytes,
            num_allocs: self.num_allocs,
            freed_bytes: self.freed_bytes,
            num_frees: self.num_frees,
            peak_bytes: self.peak_bytes,
            dead: self.dead,
        };
        self.dead = true;
        res
    }
}

/// Position of a frame in the frame stack of its thread.
#[derive(Clone, Debug)]
pub struct Handle(usize);

impl Handle {
    pub closed spec fn index(self) -> usize {
        self.0
    }

    /// Position of the frame in the stack.
    pub fn position(&self) -> (r: usize)
        ensures
            r == self.index(),
    {
        self.0
    }
}

/// `frames` without the dead frames at its end.
pub open spec fn strip_dead(frames: Seq<FrameInfo>) -> Seq<FrameInfo>
    decreases frames.len(),
{
    if frames.len() > 0 && frames.last().dead {
        strip_dead(frames.drop_last())
    } else {
        frames
    }
}

/// Frame stack of one thread.
pub struct ProfilerState {
    pub frames: Vec<FrameInfo>,
}

impl ProfilerState {
    /// An empty frame stack.
    pub fn new() -> (s: Self)
        ensures
            s.frames@ == Seq::<FrameInfo>::empty(),
    {
        ProfilerState { frames: Vec::new() }
    }

    /// Removes the dead frames from the end of the stack.
    pub fn cleanup(&mut self)
        ensures
            final(self).frames@ == strip_dead(old(self).frames@),
    {
        while self.frames.len() > 0 && self.frames[self.frames.len() - 1].dead
            invariant
                strip_dead(self.frames@) == strip_dead(old(self).frames@),
            decreases self.frames.len(),
        {
            let ghost before = self.frames@;
            let _ = self.frames.pop();
            assert(self.frames@ =~= before.drop_last());
        }
    }

    /// The counters of the frame `handle`, which is marked dead and removed with the
    /// dead frames after it.
    pub fn take_frame(&mut self, handle: Handle) -> (r: FrameInfo)
        requires
            handle.index() < old(self).frames.len(),
        ensures
            r == old(self).frames@[handle.index() as int],
            final(self).frames@ == strip_dead(
                old(self).frames@.update(
                    handle.index() as int,
                    FrameInfo { dead: true, ..old(self).frames@[handle.index() as int] },
                ),
            ),
    {
        let i = handle.0;
        let mut frame = FrameInfo { alloced_bytes: 0, num_allocs: 0, freed_bytes: 0, num_frees: 0, peak_bytes: 0, dead: false };
        self.frames.set_and_swap(i, &mut frame);
        let res = frame.take();
        self.frames.set_and_swap(i, &mut frame);
        assert(self.frames@ =~= old(self).frames@.update(i as int, FrameInfo { dead: true, ..old(self).frames@[i as int] }));
        self.cleanup();
        res
    }

    /// Starts a fresh frame on top of the stack.
    pub fn push_frame(&mut self) -> (h: Handle)
        ensures
            final(self).frames@ == old(self).frames@.push(fresh_frame()),
            h.index() == old(self).frames.len(),
    {
        let frame = FrameInfo { alloced_bytes: 0, num_allocs: 0, freed_bytes: 0, num_frees: 0, peak_bytes: 0, dead: false };
        self.frames.push(frame);
        Handle(self.frames.len() - 1)
    }

    /// Counts an allocation of `num_bytes` in every frame.
    pub fn mark_alloced(&mut self, num_bytes: usize)
        requires
            forall|i: int| 0 <= i < old(self).frames.len() ==> can_alloc(#[trigger] old(self).frames@[i], num_bytes as int),
        ensures
            final(self).frames.len() == old(self).frames.len(),
            forall|i: int| 0 <= i < final(self).frames.len() ==> #[trigger] final(self).frames@[i] == alloced_frame(old(self).frames@[i], num_bytes as int),
    {
        let n = self.frames.len();
        let mut i: usize = 0;
        while i < n
            invariant
                n == self.frames.len(),
                n == old(self).frames.len(),
                i <= n,
                forall|j: int| 0 <= j < i ==> #[trigger] self.frames@[j] == alloced_frame(old(self).frames@[j], num_bytes as int),
                forall|j: int| i <= j < n ==> #[trigger] self.frames@[j] == old(self).frames@[j],
                forall|j: int| 0 <= j < n ==> can_alloc(#[trigger] old(self).frames@[j], num_bytes as int),
            decreases n - i,
        {
            let mut frame = FrameInfo { alloced_bytes: 0, num_allocs: 0, freed_bytes: 0, num_frees: 0, peak_bytes: 0, dead: false };
            self.frames.set_and_swap(i, &mut frame);
            frame.mark_alloced(num_bytes);
            self.frames.set_and_swap(i, &mut frame);
            i = i + 1;
        }
    }

    /// Counts a deallocation of `num_bytes` in every frame.
    pub fn mark_freed(&mut self, num_bytes: usize)
        requires
            forall|i: int| 0 <= i < old(self).frames.len() ==> can_free(#[trigger] old(self).frames@[i], num_bytes as int),
        ensures
            final(self).frames.len() == old(self).frames.len(),
            forall|i: int| 0 <= i < final(self).frames.len() ==> #[trigger] final(self).frames@[i] == freed_frame(old(self).frames@[i], num_bytes as int),
    {
        let n = self.frames.len();
        let mut i: usize = 0;
        while i < n
            invariant
                n == self.frames.len(),
                n == old(self).frames.len(),
                i <= n,
                forall|j: int| 0 <= j < i ==> #[trigger] self.frames@[j] == freed_frame(old(self).frames@[j], num_bytes as int),
                forall|j: int| i <= j < n ==> #[trigger] self.frames@[j] == old(self).frames@[j],
                forall|j: int| 0 <= j < n ==> can_free(#[trigger] old(self).frames@[j], num_bytes as int),
            decreases n - i,
        {
            let mut frame = FrameInfo { alloced_bytes: 0, num_allocs: 0, freed_bytes: 0, num_frees: 0, peak_bytes: 0, dead: false };
            self.frames.set_and_swap(i, &mut frame);
            frame.mark_freed(num_bytes);
            self.frames.set_and_swap(i, &mut frame);
            i = i + 1;
        }
    }
}

// ── A frame over a whole span ──────────────────────────────────

/// The frame `f` after the events `ev`, in order: `(true, n)` counts an allocation of `n`
/// bytes, `(false, n)` a deallocation of `n` bytes.
pub open spec fn apply_events(f: FrameInfo, ev: Seq<(bool, int)>) -> FrameInfo
    decreases ev.len(),
{
    if ev.len() == 0 {
        f
    } else {
        let g = apply_events(f, ev.drop_last());
        if ev.last().0 {
            alloced_frame(g, ev.last().1)
        } else {
            freed_frame(g, ev.last().1)
        }
    }
}

/// Every event of `ev` can be counted when it comes, and no size is negative.
pub open spec fn events_countable(f: FrameInfo, ev: Seq<(bool, int)>) -> bool
    decreases ev.len(),
{
    ev.len() == 0 || {
        let g = apply_events(f, ev.drop_last());
        &&& events_countable(f, ev.drop_last())
        &&& ev.last().1 >= 0
        &&& if ev.last().0 {
            can_alloc(g, ev.last().1)
        } else {
            can_free(g, ev.last().1)
        }
    }
}

/// Sum of the sizes of the events of one kind (`true`: allocations).
pub open spec fn event_bytes(ev: Seq<(bool, int)>, alloc: bool) -> int
    decreases ev.len(),
{
    if ev.len() == 0 {
        0
    } else {
        event_bytes(ev.drop_last(), alloc) + if ev.last().0 == alloc {
            ev.last().1
        } else {
            0
        }
    }
}

/// Number of the events of one kind.
pub open spec fn event_count(ev: Seq<(bool, int)>, alloc: bool) -> int
    decreases ev.len(),
{
    if ev.len() == 0 {
        0
    } else {
        event_count(ev.drop_last(), alloc) + if ev.last().0 == alloc {
            1int
        } else {
            0int
        }
    }
}

/// The most bytes live at any point: the largest allocated-minus-freed over all prefixes
/// of `ev`, the empty one included.
pub open spec fn max_live(ev: Seq<(bool, int)>) -> int
    decreases ev.len(),
{
    if ev.len() == 0 {
        0
    } else {
        let prev = max_live(ev.drop_last());
        let now = event_bytes(ev, true) - event_bytes(ev, false);
        if prev >= now {
            prev
        } else {
            now
        }
    }
}

/// A frame started fresh counts, after any events, the total and the number of
/// allocations and deallocations, and as peak the most bytes live at any point.
pub proof fn lemma_frame_totals(ev: Seq<(bool, int)>)
    requires
        events_countable(fresh_frame(), ev),
    ensures
        ({
            let g = apply_events(fresh_frame(), ev);
            &&& g.alloced_bytes == event_bytes(ev, true)
            &&& g.num_allocs == event_count(ev, true)
            &&& g.freed_bytes == event_bytes(ev, false)
            &&& g.num_frees == event_count(ev, false)
            &&& g.peak_bytes == max_live(ev)
            &&& !g.dead
        }),
    decreases ev.len(),
{
    if ev.len() > 0 {
        let dl = ev.drop_last();
        lemma_frame_totals(dl);
        if dl.len() > 0 {
            assert(max_live(dl) >= event_bytes(dl, true) - event_bytes(dl, false));
        }
    }
}


/// Frame `h` of the stack `frames` was started fresh and has since counted the events `ev`.
pub open spec fn frame_counts(frames: Seq<FrameInfo>, h: int, ev: Seq<(bool, int)>) -> bool {
    &&& 0 <= h < frames.len()
    &&& events_countable(fresh_frame(), ev)
    &&& frames[h] == apply_events(fresh_frame(), ev)
}

/// A frame started by [`ProfilerState::push_frame`] has counted nothing yet.
pub proof fn lemma_push_starts_counting(before: Seq<FrameInfo>, after: Seq<FrameInfo>)
    requires
        after == before.push(fresh_frame()),
    ensures
        frame_counts(after, before.len() as int, Seq::empty()),
{
}

/// [`ProfilerState::mark_alloced`] adds the allocation to the events of every frame.
pub proof fn lemma_alloc_is_counted(
    before: Seq<FrameInfo>,
    after: Seq<FrameInfo>,
    h: int,
    ev: Seq<(bool, int)>,
    n: int,
)
    requires
        frame_counts(before, h, ev),
        n >= 0,
        forall|i: int| 0 <= i < before.len() ==> can_alloc(#[trigger] before[i], n),
        after.len() == before.len(),
        forall|i: int| 0 <= i < after.len() ==> #[trigger] after[i] == alloced_frame(before[i], n),
    ensures
        frame_counts(after, h, ev.push((true, n))),
{
    assert(ev.push((true, n)).drop_last() == ev);
    assert(can_alloc(before[h], n));
}

/// [`ProfilerState::mark_freed`] adds the deallocation to the events of every frame.
pub proof fn lemma_free_is_counted(
    before: Seq<FrameInfo>,
    after: Seq<FrameInfo>,
    h: int,
    ev: Seq<(bool, int)>,
    n: int,
)
    requires
        frame_counts(before, h, ev),
        n >= 0,
        forall|i: int| 0 <= i < before.len() ==> can_free(#[trigger] before[i], n),
        after.len() == before.len(),
        forall|i: int| 0 <= i < after.len() ==> #[trigger] after[i] == freed_frame(before[i], n),
    ensures
        frame_counts(after, h, ev.push((false, n))),
{
    assert(ev.push((false, n)).drop_last() == ev);
    assert(can_free(before[h], n));
}

proof fn lemma_apply_events_alive(ev: Seq<(bool, int)>)
    ensures
        !apply_events(fresh_frame(), ev).dead,
    decreases ev.len(),
{
    if ev.len() > 0 {
        lemma_apply_events_alive(ev.drop_last());
    }
}

proof fn lemma_strip_dead_keeps_live(frames: Seq<FrameInfo>, h: int)
    requires
        0 <= h < frames.len(),
        !frames[h].dead,
    ensures
        h < strip_dead(frames).len(),
        strip_dead(frames)[h] == frames[h],
    decreases frames.len(),
{
    lemma_strip_dead_clean(frames);
    if frames.len() > 0 && frames.last().dead {
        assert(h < frames.len() - 1);
        assert(frames.drop_last()[h] == frames[h]);
        lemma_strip_dead_keeps_live(frames.drop_last(), h);
    }
}

/// Taking a frame started later ([`ProfilerState::take_frame`] of a handle above `h`)
/// leaves frame `h` and its counts as they are.
pub proof fn lemma_take_above_keeps(frames: Seq<FrameInfo>, k: int, h: int, ev: Seq<(bool, int)>)
    requires
        frame_counts(frames, h, ev),
        h < k < frames.len(),
    ensures
        frame_counts(strip_dead(frames.update(k, FrameInfo { dead: true, ..frames[k] })), h, ev),
{
    let u = frames.update(k, FrameInfo { dead: true, ..frames[k] });
    lemma_apply_events_alive(ev);
    assert(u[h] == frames[h]);
    lemma_strip_dead_keeps_live(u, h);
}

/// What [`ProfilerState::take_frame`] gives back for a frame that has counted `ev`: the
/// total and the number of allocations and deallocations, and the most bytes live at any
/// point since the frame started.
pub proof fn lemma_taken_frame_totals(frames: Seq<FrameInfo>, h: int, ev: Seq<(bool, int)>)
    requires
        frame_counts(frames, h, ev),
    ensures
        frames[h].alloced_bytes == event_bytes(ev, true),
        frames[h].num_allocs == event_count(ev, true),
        frames[h].freed_bytes == event_bytes(ev, false),
        frames[h].num_frees == event_count(ev, false),
        frames[h].peak_bytes == max_live(ev),
        !frames[h].dead,
{
    lemma_frame_totals(ev);
}


/// After a cleanup no dead frame is left on top of the stack.
pub proof fn lemma_strip_dead_clean(frames: Seq<FrameInfo>)
    ensures
        strip_dead(frames).len() > 0 ==> !strip_dead(frames).last().dead,
        strip_dead(frames).len() <= frames.len(),
        strip_dead(frames) == frames.take(strip_dead(frames).len() as int),
        strip_dead(strip_dead(frames)) == strip_dead(frames),
    decreases frames.len(),
{
    if frames.len() > 0 && frames.last().dead {
        lemma_strip_dead_clean(frames.drop_last());
        assert(frames.drop_last().take(strip_dead(frames).len() as int) =~= frames.take(strip_dead(frames).len() as int));
    } else {
        assert(frames.take(frames.len() as int) =~= frames);
    }
}

/// Starting a frame on a clean stack and taking it right away gives the fresh
/// frame back and leaves the stack as it was.
pub proof fn lemma_push_take_restores(frames: Seq<FrameInfo>)
    requires
        strip_dead(frames) == frames,
    ensures
        ({
            let pushed = frames.push(fresh_frame());
            let i = frames.len() as int;
            &&& pushed[i] == fresh_frame()
            &&& strip_dead(pushed.update(i, FrameInfo { dead: true, ..pushed[i] })) == frames
        }),
{
    let pushed = frames.push(fresh_frame());
    let i = frames.len() as int;
    let u = pushed.update(i, FrameInfo { dead: true, ..pushed[i] });
    assert(u.drop_last() =~= frames);
}

/// The peak of live bytes never falls below the live bytes after an allocation.
pub proof fn lemma_peak_covers_live(f: FrameInfo, n: int)
    requires
        can_alloc(f, n),
    ensures
        alloced_frame(f, n).peak_bytes >= alloced_frame(f, n).alloced_bytes - alloced_frame(f, n).freed_bytes,
        alloced_frame(f, n).peak_bytes >= f.peak_bytes,
{
}

} // verus!

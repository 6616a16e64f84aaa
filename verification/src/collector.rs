//! The state that a collector keeps while spans run.
use std::collections::HashMap;
use vstd::prelude::*;
use crate::analysis::ProfileEntry;

verus! {

/// Start states of the spans in flight and the entries collected so far.
pub struct CollectorInner<S, R> {
    span_start_state: HashMap<u64, S>,
    buffer: Vec<ProfileEntry<S, R>>,
}

impl<S: Clone, R> CollectorInner<S, R> {
    /// Start states of the spans that were entered and not yet left or closed.
    pub closed spec fn starts(&self) -> Map<u64, S> {
        self.span_start_state@
    }

    /// Entries collected since the last drain, in order.
    pub closed spec fn entries(&self) -> Seq<ProfileEntry<S, R>> {
        self.buffer@
    }

    /// Nothing in flight, nothing collected.
    pub fn new() -> (c: Self)
        ensures
            c.starts() == Map::<u64, S>::empty(),
            c.entries() == Seq::<ProfileEntry<S, R>>::empty(),
    {
        CollectorInner { span_start_state: HashMap::new(), buffer: Vec::new() }
    }

    /// A span was entered: remember a clone of its start state and record its registration.
    pub fn on_enter(&mut self, id: u64, name: Option<String>, parent: Option<u64>, start: S)
        ensures
            final(self).starts().contains_key(id),
            cloned(start, final(self).starts()[id]),
            forall|k: u64| k != id ==> #[trigger] final(self).starts().contains_key(k) == old(self).starts().contains_key(k),
            forall|k: u64| k != id && old(self).starts().contains_key(k) ==> #[trigger] final(self).starts()[k] == old(self).starts()[k],
            final(self).entries() == old(self).entries().push(ProfileEntry::Register { id, name, parent, start }),
    {
        broadcast use vstd::std_specs::hash::group_hash_axioms;

        let kept = start.clone();
        self.span_start_state.insert(id, kept);
        self.buffer.push(ProfileEntry::Register { id, name, parent, start });
    }

    /// A span was left: when it is in flight, its start state is taken out, `end` turns it
    /// into the result, and the publication is recorded; otherwise nothing changes.
    pub fn on_exit<F: Fn(S) -> R>(&mut self, id: u64, end: F)
        requires
            forall|s: S| call_requires(end, (s,)),
        ensures
            old(self).starts().contains_key(id) ==> {
                &&& final(self).starts() == old(self).starts().remove(id)
                &&& final(self).entries().len() == old(self).entries().len() + 1
                &&& final(self).entries().drop_last() == old(self).entries()
                &&& final(self).entries().last() matches ProfileEntry::Publish { id: pid, result }
                    && pid == id && call_ensures(end, (old(self).starts()[id],), result)
            },
            !old(self).starts().contains_key(id) ==> final(self).starts() == old(self).starts()
                && final(self).entries() == old(self).entries(),
    {
        broadcast use vstd::std_specs::hash::group_hash_axioms;

        match self.span_start_state.remove(&id) {
            Some(start) => {
                let result = end(start);
                let ghost before = self.buffer@;
                self.buffer.push(ProfileEntry::Publish { id, result });
                assert(self.buffer@.drop_last() =~= before);
            },
            None => {
                assert(self.span_start_state@ =~= old(self).span_start_state@);
            },
        }
    }

    /// A span was closed: its start state, if any, is forgotten.
    pub fn on_close(&mut self, id: u64)
        ensures
            final(self).starts() == old(self).starts().remove(id),
            final(self).entries() == old(self).entries(),
    {
        broadcast use vstd::std_specs::hash::group_hash_axioms;

        let _ = self.span_start_state.remove(&id);
    }

    /// All collected entries; the collector keeps none of them.
    pub fn drain(&mut self) -> (r: Vec<ProfileEntry<S, R>>)
        ensures
            r@ == old(self).entries(),
            final(self).entries() == Seq::<ProfileEntry<S, R>>::empty(),
            final(self).starts() == old(self).starts(),
    {
        let mut taken: Vec<ProfileEntry<S, R>> = Vec::new();
        std::mem::swap(&mut taken, &mut self.buffer);
        taken
    }
}

/// A span entered and then left (with nothing in between) leaves its
/// registration followed by its publication after what was collected before.
pub proof fn lemma_enter_then_exit<S, R>(
    before: Seq<ProfileEntry<S, R>>,
    after_enter: Seq<ProfileEntry<S, R>>,
    after_exit: Seq<ProfileEntry<S, R>>,
    id: u64,
    name: Option<String>,
    parent: Option<u64>,
    start: S,
)
    requires
        after_enter == before.push(ProfileEntry::Register { id, name, parent, start }),
        after_exit.len() == after_enter.len() + 1,
        after_exit.drop_last() == after_enter,
        after_exit.last() matches ProfileEntry::Publish { id: pid, .. } && pid == id,
    ensures
        after_exit.len() == before.len() + 2,
        after_exit[before.len() as int] == (ProfileEntry::<S, R>::Register { id, name, parent, start }),
        after_exit[before.len() as int + 1] matches ProfileEntry::Publish { id: pid, .. } && pid == id,
        after_exit.take(before.len() as int) == before,
{
    assert(after_exit[before.len() as int] == after_enter[before.len() as int]);
    assert(after_exit.take(before.len() as int) =~= before);
}

} // verus!

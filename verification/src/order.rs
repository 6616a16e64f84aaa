//! Ordering of span keys for the report: heavier spans first, ties by key.
use vstd::prelude::*;
use vstd::pervasive::VecAdditionalExecFns;
use crate::text::chars_of;
use crate::analysis::{
    lemma_progress_chain, lemma_progress_step, progress_added, progress_states, publish_progress,
    AnalysisPhase, AnalysisProgress, AnalysisProgressState,
};
use crate::tree::{
    aggregate_prefix, aggregate_spec, find_key, models, unknown_root, NodeModel, SpanNode, SpanTree,
    TreeModel,
};
use crate::tree_laws::{children_well_placed, lemma_aggregate_invariant, roots_well_placed};

verus! {

/// `a` comes no later than `b` in lexicographic order of characters, from position `i` on.
pub open spec fn lex_le_from(a: Seq<char>, b: Seq<char>, i: int) -> bool
    decreases a.len() - i,
{
    if i < 0 || i >= a.len() {
        true
    } else if i >= b.len() {
        false
    } else if a[i] < b[i] {
        true
    } else if a[i] > b[i] {
        false
    } else {
        lex_le_from(a, b, i + 1)
    }
}

/// Lexicographic order of keys (the order of `str`).
pub open spec fn lex_le(a: Seq<char>, b: Seq<char>) -> bool {
    lex_le_from(a, b, 0)
}

proof fn lemma_lex_total_from(a: Seq<char>, b: Seq<char>, i: int)
    requires
        0 <= i,
        forall|j: int| 0 <= j < i ==> j < a.len() && j < b.len() && a[j] == b[j],
    ensures
        lex_le_from(a, b, i) || lex_le_from(b, a, i),
        lex_le_from(a, b, i) && lex_le_from(b, a, i) ==> a == b,
    decreases a.len() - i,
{
    if i < a.len() && i < b.len() && a[i] == b[i] {
        lemma_lex_total_from(a, b, i + 1);
    }
    if i >= a.len() && i >= b.len() {
        if i > 0 {
            assert(a[i - 1] == b[i - 1]);
        }
        assert(a.len() == b.len());
        assert forall|j: int| 0 <= j < a.len() implies a[j] == b[j] by {}
        assert(a =~= b);
    }
}

proof fn lemma_lex_trans_from(a: Seq<char>, b: Seq<char>, c: Seq<char>, i: int)
    requires
        0 <= i,
        lex_le_from(a, b, i),
        lex_le_from(b, c, i),
    ensures
        lex_le_from(a, c, i),
    decreases a.len() - i,
{
    if i < a.len() && i < b.len() && i < c.len() && a[i] == b[i] && b[i] == c[i] {
        lemma_lex_trans_from(a, b, c, i + 1);
    }
}

/// Lexicographic order is total and antisymmetric.
pub proof fn lemma_lex_total(a: Seq<char>, b: Seq<char>)
    ensures
        lex_le(a, b) || lex_le(b, a),
        lex_le(a, b) && lex_le(b, a) ==> a == b,
{
    lemma_lex_total_from(a, b, 0);
}

/// Lexicographic order is transitive.
pub proof fn lemma_lex_trans(a: Seq<char>, b: Seq<char>, c: Seq<char>)
    requires
        lex_le(a, b),
        lex_le(b, c),
    ensures
        lex_le(a, c),
{
    lemma_lex_trans_from(a, b, c, 0);
}

proof fn lemma_prefix_first_from(a: Seq<char>, s: Seq<char>, i: int)
    requires
        0 <= i <= a.len(),
        s.len() > 0,
    ensures
        lex_le_from(a, a + s, i),
        !lex_le_from(a + s, a, i),
    decreases a.len() - i,
{
    let b = a + s;
    if i < a.len() {
        assert(b[i] == a[i]);
        lemma_prefix_first_from(a, s, i + 1);
    }
}

/// The order of keys is the order of `str`: a proper prefix comes first, and otherwise
/// the first differing character decides.
pub proof fn lemma_lex_is_str_order(a: Seq<char>, s: Seq<char>, c: char, d: char, x: Seq<char>, y: Seq<char>)
    requires
        s.len() > 0,
        c < d,
    ensures
        lex_le(a, a + s),
        !lex_le(a + s, a),
        lex_le(a.push(c) + x, a.push(d) + y),
        !lex_le(a.push(d) + y, a.push(c) + x),
{
    lemma_prefix_first_from(a, s, 0);
    let p = a.push(c) + x;
    let q = a.push(d) + y;
    lemma_first_difference(p, q, a.len() as int, 0);
    lemma_first_difference(q, p, a.len() as int, 0);
}

proof fn lemma_first_difference(p: Seq<char>, q: Seq<char>, k: int, i: int)
    requires
        0 <= i <= k < p.len(),
        k < q.len(),
        forall|j: int| 0 <= j < k ==> p[j] == q[j],
        p[k] != q[k],
    ensures
        lex_le_from(p, q, i) == (p[k] < q[k]),
    decreases k - i,
{
    if i < k {
        lemma_first_difference(p, q, k, i + 1);
    }
}


/// Heavier spans come first: a higher order value decides, and the key only breaks ties.
pub proof fn lemma_heavier_first(oa: int, a: Seq<char>, ob: int, b: Seq<char>)
    ensures
        oa > ob ==> precedes(oa, a, ob, b) && !precedes(ob, b, oa, a),
        oa == ob ==> precedes(oa, a, ob, b) == lex_le(a, b),
{
}


/// Whether `a` comes no later than `b` by characters.
pub fn lex_le_exec(a: &Vec<char>, b: &Vec<char>) -> (r: bool)
    ensures
        r == lex_le(a@, b@),
{
    let mut i: usize = 0;
    while i < a.len()
        invariant
            i <= a.len(),
            forall|j: int| 0 <= j < i ==> j < b@.len() && a@[j] == b@[j],
            lex_le(a@, b@) == lex_le_from(a@, b@, i as int),
        decreases a.len() - i,
    {
        if i >= b.len() {
            return false;
        }
        if a[i] < b[i] {
            return true;
        }
        if a[i] > b[i] {
            return false;
        }
        i = i + 1;
    }
    true
}

/// Primary-metric order of `key`: the order value of its node, 0 when it has none.
pub open spec fn order_of<V>(nodes: Seq<NodeModel<V>>, orders: Seq<i64>, key: Seq<char>) -> int {
    let i = find_key(nodes, key);
    if 0 <= i < orders.len() {
        orders[i] as int
    } else {
        0
    }
}

/// Report order: larger order value first, equal values by key.
pub open spec fn precedes(oa: int, a: Seq<char>, ob: int, b: Seq<char>) -> bool {
    oa > ob || (oa == ob && lex_le(a, b))
}

/// Keys in report order.
pub open spec fn sorted_by_order<V>(keys: Seq<Seq<char>>, nodes: Seq<NodeModel<V>>, orders: Seq<i64>) -> bool {
    forall|i: int, j: int|
        0 <= i < j < keys.len() ==> precedes(
            order_of(nodes, orders, #[trigger] keys[i]),
            keys[i],
            order_of(nodes, orders, #[trigger] keys[j]),
            keys[j],
        )
}

/// The order value of a key depends on the node keys only.
pub proof fn lemma_order_of_same_keys<V>(a: Seq<NodeModel<V>>, b: Seq<NodeModel<V>>, orders: Seq<i64>, key: Seq<char>)
    requires
        a.len() == b.len(),
        forall|i: int| 0 <= i < a.len() ==> (#[trigger] a[i]).key == b[i].key,
    ensures
        order_of(a, orders, key) == order_of(b, orders, key),
    decreases a.len(),
{
    if a.len() > 0 {
        assert(a.last().key == b.last().key);
        assert forall|i: int| 0 <= i < a.drop_last().len() implies (#[trigger] a.drop_last()[i]).key == b.drop_last()[i].key by {
            assert(a.drop_last()[i] == a[i]);
            assert(b.drop_last()[i] == b[i]);
        }
        lemma_order_of_same_keys(a.drop_last(), b.drop_last(), orders, key);
    }
}

pub proof fn lemma_precedes_total(oa: int, a: Seq<char>, ob: int, b: Seq<char>)
    ensures
        precedes(oa, a, ob, b) || precedes(ob, b, oa, a),
{
    lemma_lex_total(a, b);
}

pub proof fn lemma_precedes_trans(oa: int, a: Seq<char>, ob: int, b: Seq<char>, oc: int, c: Seq<char>)
    requires
        precedes(oa, a, ob, b),
        precedes(ob, b, oc, c),
    ensures
        precedes(oa, a, oc, c),
{
    if oa == ob && ob == oc {
        lemma_lex_trans(a, b, c);
    }
}

fn find_order<V>(nodes: &Vec<SpanNode<V>>, orders: &Vec<i64>, key: &String) -> (o: i64)
    ensures
        o == order_of(models(nodes@), orders@, key@),
{
    let mut i = nodes.len();
    while i > 0
        invariant
            i <= nodes.len(),
            forall|j: int| i <= j < nodes.len() ==> nodes@[j].key@ != key@,
        decreases i,
    {
        if nodes[i - 1].key == *key {
            proof {
                crate::tree::lemma_find_key_unique(models(nodes@), key@, i - 1);
            }
            if i - 1 < orders.len() {
                return orders[i - 1];
            } else {
                return 0;
            }
        }
        i = i - 1;
    }
    proof {
        crate::tree::lemma_find_key_unique(models(nodes@), key@, -1);
    }
    0
}

/// Keys put in report order by their node's order value (see [`precedes`]).
pub fn sort_keys<V>(keys: &Vec<String>, nodes: &Vec<SpanNode<V>>, orders: &Vec<i64>) -> (r: Vec<String>)
    ensures
        r.deep_view().to_multiset() == keys.deep_view().to_multiset(),
        r.len() == keys.len(),
        sorted_by_order(r.deep_view(), models(nodes@), orders@),
{
    broadcast use vstd::seq_lib::group_to_multiset_ensures;

    let ghost ns = models(nodes@);
    let ghost os = orders@;
    let mut out: Vec<String> = Vec::new();
    let mut oo: Vec<i64> = Vec::new();
    let mut k: usize = 0;
    while k < keys.len()
        invariant
            k <= keys.len(),
            ns == models(nodes@),
            os == orders@,
            out.len() == k,
            oo.len() == k,
            forall|j: int| 0 <= j < k ==> oo@[j] == order_of(ns, os, #[trigger] out.deep_view()[j]),
            out.deep_view().to_multiset() == keys.deep_view().take(k as int).to_multiset(),
            sorted_by_order(out.deep_view(), ns, os),
        decreases keys.len() - k,
    {
        let x = keys[k].clone();
        let ox = find_order(nodes, orders, &x);
        let xc = chars_of(x.as_str());
        // position: first element that `x` must come before.
        let mut p: usize = 0;
        while p < out.len()
            invariant
                p <= out.len(),
                out.len() == oo.len(),
                forall|j: int| 0 <= j < out.len() ==> oo@[j] == order_of(ns, os, #[trigger] out.deep_view()[j]),
                forall|j: int| 0 <= j < p ==> precedes(order_of(ns, os, #[trigger] out.deep_view()[j]), out.deep_view()[j], ox as int, x@),
                xc@ == x@,
            ensures
                p <= out.len(),
                forall|j: int| 0 <= j < p ==> precedes(order_of(ns, os, #[trigger] out.deep_view()[j]), out.deep_view()[j], ox as int, x@),
                p < out.len() ==> !precedes(order_of(ns, os, out.deep_view()[p as int]), out.deep_view()[p as int], ox as int, x@),
            decreases out.len() - p,
        {
            let oc = oo[p];
            let cc = chars_of(out[p].as_str());
            assert(out.deep_view()[p as int] == out@[p as int]@);
            assert(oc == order_of(ns, os, out.deep_view()[p as int]));
            let before = oc > ox || (oc == ox && lex_le_exec(&cc, &xc));
            assert(before == precedes(order_of(ns, os, out.deep_view()[p as int]), out.deep_view()[p as int], ox as int, x@));
            if !before {
                break;
            }
            p = p + 1;
        }
        let ghost old_out = out.deep_view();
        let ghost old_oo = oo@;
        proof {
            if p < out.len() {
                lemma_precedes_total(oo@[p as int] as int, old_out[p as int], ox as int, x@);
            }
        }
        out.insert(p, x);
        oo.insert(p, ox);
        proof {
            let nv = out.deep_view();
            assert(nv =~= old_out.insert(p as int, x@));
            assert forall|i: int, j: int| 0 <= i < j < nv.len() implies precedes(
                order_of(ns, os, #[trigger] nv[i]), nv[i], order_of(ns, os, #[trigger] nv[j]), nv[j]) by {
                if i < p && j == p {
                } else if i == p && j > p {
                    assert(nv[j] == old_out[j - 1]);
                    assert(nv[i] == x@);
                    if j - 1 > p {
                        lemma_precedes_trans(ox as int, x@, order_of(ns, os, old_out[p as int]), old_out[p as int],
                            order_of(ns, os, old_out[j - 1]), old_out[j - 1]);
                    }
                } else if i < p && j > p {
                    assert(nv[i] == old_out[i]);
                    assert(nv[j] == old_out[j - 1]);
                } else if j < p {
                } else {
                    assert(nv[i] == old_out[i - 1]);
                    assert(nv[j] == old_out[j - 1]);
                }
            }
            assert forall|j: int| 0 <= j < oo.len() implies oo@[j] == order_of(ns, os, #[trigger] nv[j]) by {
                if j < p {
                    assert(oo@[j] == old_oo[j]);
                } else if j > p {
                    assert(oo@[j] == old_oo[j - 1]);
                    assert(nv[j] == old_out[j - 1]);
                }
            }
            let t = nv;
            assert(t.remove(p as int) =~= old_out);
            assert(t[p as int] == x@);
            assert(t.contains(x@));
            assert(x@ == keys.deep_view()[k as int]);
            assert(keys.deep_view().take(k + 1) =~= keys.deep_view().take(k as int).push(x@));
            vstd::seq_lib::to_multiset_insert(old_out, p as int, x@);
            vstd::seq_lib::to_multiset_build(keys.deep_view().take(k as int), x@);
            assert(t.to_multiset() == old_out.to_multiset().insert(x@));
        }
        k = k + 1;
    }
    assert(keys.deep_view().take(keys.len() as int) =~= keys.deep_view());
    out
}

/// `after` is `before` in report order: the same nodes, each with its children sorted,
/// and the roots sorted (see [`sorted_by_order`]).
pub open spec fn report_sorted<V>(before: TreeModel<V>, after: TreeModel<V>, orders: Seq<i64>) -> bool {
    &&& after.nodes.len() == before.nodes.len()
    &&& forall|i: int|
        0 <= i < after.nodes.len() ==> {
            let a = #[trigger] after.nodes[i];
            let b = before.nodes[i];
            &&& a.key == b.key
            &&& a.name == b.name
            &&& a.samples == b.samples
            &&& a.children.to_multiset() == b.children.to_multiset()
            &&& sorted_by_order(a.children, before.nodes, orders)
        }
    &&& after.roots.to_multiset() == before.roots.to_multiset()
    &&& sorted_by_order(after.roots, before.nodes, orders)
}

proof fn lemma_precedes_antisymmetric(oa: int, a: Seq<char>, ob: int, b: Seq<char>)
    requires
        precedes(oa, a, ob, b),
        precedes(ob, b, oa, a),
    ensures
        a == b,
{
    lemma_lex_total(a, b);
}

/// Keys without repeats are put in report order in one way only: two orderings of the
/// same keys that are both in report order are equal.
pub proof fn lemma_sorted_keys_unique<V>(
    a: Seq<Seq<char>>,
    b: Seq<Seq<char>>,
    nodes: Seq<NodeModel<V>>,
    orders: Seq<i64>,
)
    requires
        a.to_multiset() == b.to_multiset(),
        a.no_duplicates(),
        sorted_by_order(a, nodes, orders),
        sorted_by_order(b, nodes, orders),
    ensures
        a == b,
    decreases a.len(),
{
    broadcast use vstd::seq_lib::group_to_multiset_ensures;

    vstd::seq_lib::to_multiset_len(a);
    vstd::seq_lib::to_multiset_len(b);
    if a.len() == 0 {
        assert(b.len() == 0);
        assert(a =~= b);
    } else {
        let x = a[0];
        let y = b[0];
        assert(b.len() > 0);
        assert(a.to_multiset().count(y) > 0);
        assert(a.contains(y));
        assert(b.to_multiset().count(x) > 0);
        assert(b.contains(x));
        let i = choose|i: int| 0 <= i < a.len() && a[i] == y;
        let j = choose|j: int| 0 <= j < b.len() && b[j] == x;
        if i != 0 && j != 0 {
            assert(precedes(order_of(nodes, orders, a[0]), a[0], order_of(nodes, orders, a[i]), a[i]));
            assert(precedes(order_of(nodes, orders, b[0]), b[0], order_of(nodes, orders, b[j]), b[j]));
            lemma_precedes_antisymmetric(order_of(nodes, orders, x), x, order_of(nodes, orders, y), y);
        }
        assert(x == y);
        let ra = a.drop_first();
        let rb = b.drop_first();
        assert(a.remove(0) =~= ra);
        assert(b.remove(0) =~= rb);
        assert(ra.to_multiset() == rb.to_multiset());
        assert forall|p: int, q: int| 0 <= p < q < ra.len() implies precedes(
            order_of(nodes, orders, #[trigger] ra[p]), ra[p], order_of(nodes, orders, #[trigger] ra[q]), ra[q]) by {
            assert(ra[p] == a[p + 1] && ra[q] == a[q + 1]);
        }
        assert forall|p: int, q: int| 0 <= p < q < rb.len() implies precedes(
            order_of(nodes, orders, #[trigger] rb[p]), rb[p], order_of(nodes, orders, #[trigger] rb[q]), rb[q]) by {
            assert(rb[p] == b[p + 1] && rb[q] == b[q + 1]);
        }
        assert forall|p: int, q: int| 0 <= p < ra.len() && 0 <= q < ra.len() && p != q implies ra[p] != ra[q] by {
            assert(ra[p] == a[p + 1] && ra[q] == a[q + 1]);
        }
        lemma_sorted_keys_unique(ra, rb, nodes, orders);
        assert forall|k: int| 0 <= k < a.len() implies a[k] == b[k] by {
            if k > 0 {
                assert(a[k] == ra[k - 1] && b[k] == rb[k - 1]);
            }
        }
        assert(a =~= b);
    }
}

proof fn lemma_no_duplicates_kept(s: Seq<Seq<char>>, t: Seq<Seq<char>>)
    requires
        s.no_duplicates(),
        s.to_multiset() == t.to_multiset(),
    ensures
        t.no_duplicates(),
{
    s.lemma_multiset_has_no_duplicates();
    t.lemma_multiset_has_no_duplicates_conv();
}

/// The report order depends on the tree and the order values alone: two results of
/// sorting one tree (whatever progress receiver they were handed) are equal, as long as
/// its roots and the children of each node do not repeat.
pub proof fn lemma_report_sorted_unique<V>(t: TreeModel<V>, a: TreeModel<V>, b: TreeModel<V>, orders: Seq<i64>)
    requires
        report_sorted(t, a, orders),
        report_sorted(t, b, orders),
        t.roots.no_duplicates(),
        forall|i: int| 0 <= i < t.nodes.len() ==> (#[trigger] t.nodes[i]).children.no_duplicates(),
    ensures
        a == b,
{
    broadcast use vstd::seq_lib::group_to_multiset_ensures;

    lemma_no_duplicates_kept(t.roots, a.roots);
    lemma_sorted_keys_unique(a.roots, b.roots, t.nodes, orders);
    assert forall|i: int| 0 <= i < a.nodes.len() implies #[trigger] a.nodes[i] == b.nodes[i] by {
        let (x, y, o) = (a.nodes[i], b.nodes[i], t.nodes[i]);
        lemma_no_duplicates_kept(o.children, x.children);
        lemma_sorted_keys_unique(x.children, y.children, t.nodes, orders);
    }
    assert(a.nodes =~= b.nodes);
}


/// The report of a run depends on its publications and the order values alone: any two
/// results of sorting the tree built from the same publications are equal, whichever
/// progress receivers the building and the sorting were handed.
pub proof fn lemma_built_report_unique<V>(
    paths: Seq<Seq<Seq<char>>>,
    values: Seq<V>,
    a: TreeModel<V>,
    b: TreeModel<V>,
    orders: Seq<i64>,
)
    requires
        values.len() == paths.len(),
        report_sorted(aggregate_spec(paths, values), a, orders),
        report_sorted(aggregate_spec(paths, values), b, orders),
    ensures
        a == b,
{
    let t = aggregate_spec(paths, values);
    let p = aggregate_prefix(paths, values, paths.len());
    lemma_aggregate_invariant(paths, values, paths.len());
    assert(roots_well_placed(p.roots));
    assert(children_well_placed(p.nodes));
    if t.roots != p.roots {
        assert(t.roots == p.roots.push(unknown_root()));
        assert forall|i: int, j: int| 0 <= i < t.roots.len() && 0 <= j < t.roots.len() && i != j
            implies t.roots[i] != t.roots[j] by {
            if i == p.roots.len() as int {
                assert(t.roots[j] == p.roots[j]);
            } else if j == p.roots.len() as int {
                assert(t.roots[i] == p.roots[i]);
            }
        }
    }
    assert forall|i: int| 0 <= i < t.nodes.len() implies (#[trigger] t.nodes[i]).children.no_duplicates() by {
        assert(t.nodes[i] == p.nodes[i]);
    }
    lemma_report_sorted_unique(t, a, b, orders);
}


impl<V> SpanTree<V> {
    /// Puts roots and the children of every node in report order: `orders[i]` is the
    /// primary-metric order value of `nodes[i]` (keys without a node count as 0).
    ///
    /// Progress goes to `progress` in phase `FinalizeSorting`, out of the number of nodes
    /// plus two: 0 and 1 on entry, 2 once the roots are sorted, then one more per node.
    pub fn sort_by_primary_metric<P: AnalysisProgress>(&mut self, orders: &Vec<i64>, progress: &mut Option<P>)
        requires
            old(self).nodes.len() + 2 <= usize::MAX,
        ensures
            models(final(self).nodes@).len() == models(old(self).nodes@).len(),
            forall|i: int|
                0 <= i < final(self).nodes.len() ==> {
                    let a = #[trigger] models(final(self).nodes@)[i];
                    let b = models(old(self).nodes@)[i];
                    &&& a.key == b.key
                    &&& a.name == b.name
                    &&& a.samples == b.samples
                    &&& a.children.to_multiset() == b.children.to_multiset()
                    &&& sorted_by_order(a.children, models(old(self).nodes@), orders@)
                },
            final(self).roots.deep_view().to_multiset() == old(self).roots.deep_view().to_multiset(),
            sorted_by_order(final(self).roots.deep_view(), models(old(self).nodes@), orders@),
            report_sorted(old(self).model(), final(self).model(), orders@),
            progress_added(
                *old(progress),
                *final(progress),
                progress_states(AnalysisPhase::FinalizeSorting, old(self).nodes.len() + 2, old(self).nodes.len() + 3),
            ),
    {
        let n = self.nodes.len();
        let total = n + 2;
        let ghost ph = AnalysisPhase::FinalizeSorting;
        publish_progress(progress, AnalysisPhase::FinalizeSorting, 0, total);
        assert(seq![AnalysisProgressState { phase: ph, completed: 0, total }] =~= progress_states(ph, total as int, 1));
        let ghost p1 = *progress;
        publish_progress(progress, AnalysisPhase::FinalizeSorting, 1, total);
        proof {
            let st = AnalysisProgressState { phase: ph, completed: 1, total };
            lemma_progress_chain(*old(progress), p1, *progress, progress_states(ph, total as int, 1), seq![st]);
            lemma_progress_step(ph, total as int, 1);
            assert(progress_states(ph, total as int, 1) + seq![st] =~= progress_states(ph, total as int, 1).push(st));
        }
        let roots = sort_keys(&self.roots, &self.nodes, orders);
        self.roots = roots;
        let ghost p2 = *progress;
        publish_progress(progress, AnalysisPhase::FinalizeSorting, 2, total);
        proof {
            let st = AnalysisProgressState { phase: ph, completed: 2, total };
            lemma_progress_chain(*old(progress), p2, *progress, progress_states(ph, total as int, 2), seq![st]);
            lemma_progress_step(ph, total as int, 2);
            assert(progress_states(ph, total as int, 2) + seq![st] =~= progress_states(ph, total as int, 2).push(st));
        }
        let ghost ns = models(self.nodes@);
        let mut i: usize = 0;
        while i < n
            invariant
                n == self.nodes.len(),
                total == n + 2,
                i <= n,
                ph == AnalysisPhase::FinalizeSorting,
                progress_added(*old(progress), *progress, progress_states(ph, total as int, i + 3)),
                models(self.nodes@).len() == ns.len(),
                forall|j: int|
                    0 <= j < n ==> {
                        let a = #[trigger] models(self.nodes@)[j];
                        let b = ns[j];
                        &&& a.key == b.key
                        &&& a.name == b.name
                        &&& a.samples == b.samples
                        &&& a.children.to_multiset() == b.children.to_multiset()
                        &&& (j < i ==> sorted_by_order(a.children, ns, orders@))
                    },
                ns == models(old(self).nodes@),
                self.roots.deep_view().to_multiset() == old(self).roots.deep_view().to_multiset(),
                sorted_by_order(self.roots.deep_view(), ns, orders@),
            decreases n - i,
        {
            let sorted = sort_keys(&self.nodes[i].children, &self.nodes, orders);
            let mut node = SpanNode { key: String::new(), name: String::new(), samples: Vec::new(), children: Vec::new() };
            let ghost before = models(self.nodes@);
            self.nodes.set_and_swap(i, &mut node);
            node.children = sorted;
            self.nodes.set_and_swap(i, &mut node);
            assert forall|j: int| 0 <= j < n implies models(self.nodes@)[j] == if j == i {
                NodeModel { children: sorted.deep_view(), ..before[j] }
            } else {
                before[j]
            } by {}
            proof {
                assert forall|kk: Seq<char>| order_of(before, orders@, kk) == order_of(ns, orders@, kk) by {
                    lemma_order_of_same_keys(before, ns, orders@, kk);
                }
                let sd = sorted.deep_view();
                assert forall|a: int, b: int| 0 <= a < b < sd.len() implies precedes(
                    order_of(ns, orders@, #[trigger] sd[a]), sd[a], order_of(ns, orders@, #[trigger] sd[b]), sd[b]) by {
                    assert(order_of(before, orders@, sd[a]) == order_of(ns, orders@, sd[a]));
                    assert(order_of(before, orders@, sd[b]) == order_of(ns, orders@, sd[b]));
                }
            }
            i = i + 1;
            let ghost pm = *progress;
            publish_progress(progress, AnalysisPhase::FinalizeSorting, i + 2, total);
            proof {
                let st = AnalysisProgressState { phase: ph, completed: (i + 2) as usize, total };
                lemma_progress_chain(*old(progress), pm, *progress, progress_states(ph, total as int, i + 2), seq![st]);
                lemma_progress_step(ph, total as int, i + 2);
                assert(progress_states(ph, total as int, i + 2) + seq![st] =~= progress_states(ph, total as int, i + 2).push(st));
            }
        }
    }
}

} // verus!

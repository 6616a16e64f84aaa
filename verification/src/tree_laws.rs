//! What every span tree built from publications satisfies.
use vstd::prelude::*;
use crate::path::{join_path, no_slash, split_slash};
use crate::text::{last_slash, lemma_last_slash, parent_key_spec};
use crate::tree::{
    aggregate_prefix, aggregate_step, find_key, last_segment, lemma_find_key, lemma_find_key_unique,
    sample_name, with_child, with_node, with_sample, NodeModel, TreeModel,
};

verus! {

/// The samples of all publications among the first `n` whose path has key `key`, in order.
pub open spec fn samples_with_key<V>(paths: Seq<Seq<Seq<char>>>, values: Seq<V>, n: nat, key: Seq<char>) -> Seq<V>
    decreases n,
{
    if n == 0 {
        Seq::empty()
    } else {
        let prev = samples_with_key(paths, values, (n - 1) as nat, key);
        if join_path(paths[n - 1]) == key {
            prev.push(values[n - 1])
        } else {
            prev
        }
    }
}

/// No two nodes share a key.
pub open spec fn distinct_keys<V>(nodes: Seq<NodeModel<V>>) -> bool {
    forall|i: int, j: int| 0 <= i < j < nodes.len() ==> nodes[i].key != nodes[j].key
}

/// Every node holds exactly the samples published under its key, and a key
/// without a node has no samples.
pub open spec fn samples_merged<V>(t: TreeModel<V>, paths: Seq<Seq<Seq<char>>>, values: Seq<V>, n: nat) -> bool {
    forall|k: Seq<char>|
        #![trigger samples_with_key(paths, values, n, k)]
        if find_key(t.nodes, k) >= 0 {
            t.nodes[find_key(t.nodes, k)].samples == samples_with_key(paths, values, n, k)
        } else {
            samples_with_key(paths, values, n, k) == Seq::<V>::empty()
        }
}

/// Every child key lies directly under its node's key, and no child is listed twice.
pub open spec fn children_well_placed<V>(nodes: Seq<NodeModel<V>>) -> bool {
    forall|i: int|
        0 <= i < nodes.len() ==> {
            &&& (#[trigger] nodes[i]).children.no_duplicates()
            &&& forall|c: int|
                0 <= c < nodes[i].children.len() ==> parent_key_spec(#[trigger] nodes[i].children[c])
                    == Some(nodes[i].key)
        }
}

/// Roots are distinct keys without a parent key.
pub open spec fn roots_well_placed(roots: Seq<Seq<char>>) -> bool {
    &&& roots.no_duplicates()
    &&& forall|r: int| 0 <= r < roots.len() ==> parent_key_spec(#[trigger] roots[r]) is None
}

/// Every one of the first `n` publications has a node, and that node hangs
/// under its parent's node, or is a root when its key has no parent.
pub open spec fn publications_placed<V>(t: TreeModel<V>, paths: Seq<Seq<Seq<char>>>, n: nat) -> bool {
    forall|m: int|
        0 <= m < n ==> {
            let k = join_path(#[trigger] paths[m]);
            &&& find_key(t.nodes, k) >= 0
            &&& match parent_key_spec(k) {
                Some(pk) => find_key(t.nodes, pk) >= 0 && t.nodes[find_key(t.nodes, pk)].children.contains(k),
                None => t.roots.contains(k),
            }
        }
}

/// All the properties above.
pub open spec fn tree_invariant<V>(t: TreeModel<V>, paths: Seq<Seq<Seq<char>>>, values: Seq<V>, n: nat) -> bool {
    &&& distinct_keys(t.nodes)
    &&& samples_merged(t, paths, values, n)
    &&& children_well_placed(t.nodes)
    &&& roots_well_placed(t.roots)
    &&& publications_placed(t, paths, n)
}

proof fn lemma_find_same_keys<V>(a: Seq<NodeModel<V>>, b: Seq<NodeModel<V>>, k: Seq<char>)
    requires
        a.len() == b.len(),
        forall|i: int| 0 <= i < a.len() ==> (#[trigger] a[i]).key == b[i].key,
    ensures
        find_key(a, k) == find_key(b, k),
    decreases a.len(),
{
    if a.len() > 0 {
        assert(a.last().key == b.last().key);
        assert forall|i: int| 0 <= i < a.drop_last().len() implies (#[trigger] a.drop_last()[i]).key == b.drop_last()[i].key by {
            assert(a.drop_last()[i] == a[i]);
            assert(b.drop_last()[i] == b[i]);
        }
        lemma_find_same_keys(a.drop_last(), b.drop_last(), k);
    }
}

/// Effect of `with_node` on the node sequence.
proof fn lemma_with_node<V>(nodes: Seq<NodeModel<V>>, key: Seq<char>, name: Seq<char>)
    requires
        distinct_keys(nodes),
    ensures
        ({
            let ns = with_node(nodes, key, name);
            &&& distinct_keys(ns)
            &&& ns.len() >= nodes.len()
            &&& forall|i: int| 0 <= i < nodes.len() ==> ns[i] == nodes[i]
            &&& find_key(ns, key) >= 0
            &&& find_key(nodes, key) < 0 ==> ns[find_key(ns, key)].samples == Seq::<V>::empty()
                && ns[find_key(ns, key)].children == Seq::<Seq<char>>::empty()
            &&& forall|k: Seq<char>| k != key ==> #[trigger] find_key(ns, k) == find_key(nodes, k)
            &&& find_key(nodes, key) >= 0 ==> find_key(ns, key) == find_key(nodes, key)
        }),
{
    lemma_find_key(nodes, key);
    let ns = with_node(nodes, key, name);
    if find_key(nodes, key) < 0 {
        lemma_find_key_unique(ns, key, nodes.len() as int);
        assert forall|k: Seq<char>| k != key implies #[trigger] find_key(ns, k) == find_key(nodes, k) by {
            assert(ns.drop_last() =~= nodes);
        }
    }
}

/// Replacing one node by one with the same key keeps every lookup.
proof fn lemma_update_same_key<V>(nodes: Seq<NodeModel<V>>, i: int, n: NodeModel<V>)
    requires
        0 <= i < nodes.len(),
        n.key == nodes[i].key,
    ensures
        forall|k: Seq<char>| #[trigger] find_key(nodes.update(i, n), k) == find_key(nodes, k),
        distinct_keys(nodes) ==> distinct_keys(nodes.update(i, n)),
{
    assert forall|k: Seq<char>| #[trigger] find_key(nodes.update(i, n), k) == find_key(nodes, k) by {
        let u = nodes.update(i, n);
        assert forall|j: int| 0 <= j < u.len() implies (#[trigger] u[j]).key == nodes[j].key by {}
        lemma_find_same_keys(u, nodes, k);
    }
}

proof fn lemma_samples_step<V>(paths: Seq<Seq<Seq<char>>>, values: Seq<V>, n: nat, k: Seq<char>)
    requires
        n >= 1,
    ensures
        samples_with_key(paths, values, n, k) == if join_path(paths[n - 1]) == k {
            samples_with_key(paths, values, (n - 1) as nat, k).push(values[n - 1])
        } else {
            samples_with_key(paths, values, (n - 1) as nat, k)
        },
{
}

/// A parent key is shorter than the key.
pub(crate) proof fn lemma_parent_shorter(k: Seq<char>)
    ensures
        parent_key_spec(k) matches Some(pk) ==> pk.len() < k.len(),
{
    crate::text::lemma_last_slash(k);
}

/// One more publication keeps the tree invariant.
pub proof fn lemma_aggregate_step<V>(t: TreeModel<V>, paths: Seq<Seq<Seq<char>>>, values: Seq<V>, n: nat)
    requires
        n < paths.len(),
        n < values.len(),
        tree_invariant(t, paths, values, n),
    ensures
        tree_invariant(aggregate_step(t, paths[n as int], values[n as int]), paths, values, (n + 1) as nat),
{
    let path = paths[n as int];
    let v = values[n as int];
    let key = join_path(path);
    let name = crate::tree::sample_name(path);
    let t2 = aggregate_step(t, path, v);
    // samples
    lemma_with_node(t.nodes, key, name);
    let ns0 = with_node(t.nodes, key, name);
    let i = find_key(ns0, key);
    lemma_find_key(ns0, key);
    let ns = with_sample(t.nodes, key, name, v);
    lemma_update_same_key(ns0, i, NodeModel { samples: ns0[i].samples.push(v), ..ns0[i] });
    assert(distinct_keys(ns));
    assert(ns.len() == ns0.len());
    // the node holding `key` after the sample
    assert forall|k: Seq<char>| #![trigger samples_with_key(paths, values, (n + 1) as nat, k)]
        if find_key(ns, k) >= 0 {
            ns[find_key(ns, k)].samples == samples_with_key(paths, values, (n + 1) as nat, k)
        } else {
            samples_with_key(paths, values, (n + 1) as nat, k) == Seq::<V>::empty()
        } by {
        lemma_samples_step(paths, values, (n + 1) as nat, k);
        assert(samples_with_key(paths, values, n, k) == samples_with_key(paths, values, n, k));
        if k == key {
        } else {
            assert(find_key(ns, k) == find_key(t.nodes, k));
            if find_key(t.nodes, k) >= 0 {
                lemma_find_key(t.nodes, k);
                assert(ns[find_key(ns, k)] == ns0[find_key(ns, k)]);
            }
        }
    }
    assert forall|j: int| 0 <= j < ns.len() implies (#[trigger] ns[j]).children == ns0[j].children && ns[j].key == ns0[j].key by {}
    assert(children_well_placed(ns0)) by {
        assert forall|j: int| 0 <= j < ns0.len() implies {
            &&& (#[trigger] ns0[j]).children.no_duplicates()
            &&& forall|c: int| 0 <= c < ns0[j].children.len() ==> parent_key_spec(#[trigger] ns0[j].children[c]) == Some(ns0[j].key)
        } by {
            if j < t.nodes.len() {
                assert(ns0[j] == t.nodes[j]);
            } else {
                assert(ns0[j].children =~= Seq::<Seq<char>>::empty());
            }
        }
    }
    assert(children_well_placed(ns)) by {
        assert forall|j: int| 0 <= j < ns.len() implies {
            &&& (#[trigger] ns[j]).children.no_duplicates()
            &&& forall|c: int| 0 <= c < ns[j].children.len() ==> parent_key_spec(#[trigger] ns[j].children[c]) == Some(ns[j].key)
        } by {
            assert(ns[j].children == ns0[j].children);
            assert(ns0[j].key == ns[j].key);
        }
    }
    match parent_key_spec(key) {
        Some(pk) => {
            lemma_parent_shorter(key);
            let pname = crate::tree::last_segment(pk);
            lemma_with_node(ns, pk, pname);
            let ms0 = with_node(ns, pk, pname);
            let pi = find_key(ms0, pk);
            lemma_find_key(ms0, pk);
            let ms = with_child(ns, pk, pname, key);
            assert(ms.len() == ms0.len());
            assert(ms[pi].children.contains(key)) by {
                if !ms0[pi].children.contains(key) {
                    assert(ms[pi].children[ms0[pi].children.len() as int] == key);
                }
            }
            if !ms0[pi].children.contains(key) {
                lemma_update_same_key(ms0, pi, NodeModel { children: ms0[pi].children.push(key), ..ms0[pi] });
            }
            assert(distinct_keys(ms));
            assert forall|k: Seq<char>| #[trigger] find_key(ms, k) == find_key(ms0, k) by {
                if !ms0[pi].children.contains(key) {
                    lemma_update_same_key(ms0, pi, NodeModel { children: ms0[pi].children.push(key), ..ms0[pi] });
                }
            }
            assert forall|j: int| 0 <= j < ms.len() && j != pi implies #[trigger] ms[j] == ms0[j] by {}
            assert forall|j: int| 0 <= j < ms.len() implies (#[trigger] ms[j]).samples == ms0[j].samples && ms[j].key == ms0[j].key by {}
            // samples: the parent node, when new, has no samples
            assert(samples_merged(t2, paths, values, (n + 1) as nat)) by {
                assert forall|k: Seq<char>| #![trigger samples_with_key(paths, values, (n + 1) as nat, k)]
                    if find_key(ms, k) >= 0 {
                        ms[find_key(ms, k)].samples == samples_with_key(paths, values, (n + 1) as nat, k)
                    } else {
                        samples_with_key(paths, values, (n + 1) as nat, k) == Seq::<V>::empty()
                    } by {
                    lemma_samples_step(paths, values, (n + 1) as nat, k);
                    assert(samples_with_key(paths, values, (n + 1) as nat, k) == samples_with_key(paths, values, (n + 1) as nat, k));
                    if k == pk {
                        assert(find_key(ms, pk) == pi);
                        assert(ms[pi].samples == ms0[pi].samples);
                        assert(key != pk);
                        if find_key(ns, pk) < 0 {
                            // pk had no node: no sample published under it so far
                            assert(find_key(t.nodes, pk) < 0);
                            assert(samples_with_key(paths, values, n, pk) == Seq::<V>::empty());
                            assert(ms0[pi].samples == Seq::<V>::empty());
                        } else {
                            assert(ms0 == ns);
                        }
                    } else {
                        assert(find_key(ms0, k) == find_key(ns, k));
                        assert(find_key(ms, k) == find_key(ns, k));
                        lemma_find_key(ns, k);
                        if find_key(ns, k) >= 0 {
                            let j = find_key(ns, k);
                            assert(ms[j].samples == ms0[j].samples);
                            assert(ms0[j] == ns[j]);
                        }
                    }
                }
            }
            assert(children_well_placed(ms)) by {
                assert forall|j: int| 0 <= j < ms.len() implies {
                    &&& (#[trigger] ms[j]).children.no_duplicates()
                    &&& forall|c: int| 0 <= c < ms[j].children.len() ==> parent_key_spec(#[trigger] ms[j].children[c]) == Some(ms[j].key)
                } by {
                    if j < ns.len() {
                        assert(ms0[j] == ns[j]);
                    } else {
                        assert(ms0[j].children =~= Seq::<Seq<char>>::empty());
                    }
                    if j == pi && !ms0[pi].children.contains(key) {
                        assert(ms[j].children == ms0[j].children.push(key));
                        assert forall|c: int| 0 <= c < ms[j].children.len() implies parent_key_spec(#[trigger] ms[j].children[c]) == Some(ms[j].key) by {
                            if c < ms0[j].children.len() {
                                assert(ms[j].children[c] == ms0[j].children[c]);
                            }
                        }
                    }
                }
            }
            assert(publications_placed(t2, paths, (n + 1) as nat)) by {
                assert forall|m: int| 0 <= m < n + 1 implies {
                    let k = join_path(#[trigger] paths[m]);
                    &&& find_key(ms, k) >= 0
                    &&& match parent_key_spec(k) {
                        Some(q) => find_key(ms, q) >= 0 && ms[find_key(ms, q)].children.contains(k),
                        None => t2.roots.contains(k),
                    }
                } by {
                    let k = join_path(paths[m]);
                    if m == n {
                        assert(k == key);
                        assert(find_key(ms, key) == find_key(ns, key));
                        assert(ms[pi].children.contains(key));
                    } else {
                        assert(find_key(ns, k) == find_key(t.nodes, k) || k == key);
                        match parent_key_spec(k) {
                            Some(q) => {
                                let qi = find_key(t.nodes, q);
                                lemma_find_key(t.nodes, q);
                                assert(find_key(ns, q) == qi) by {
                                    if q == key {
                                        lemma_with_node(t.nodes, key, name);
                                    }
                                }
                                assert(ns[qi].children == t.nodes[qi].children);
                                if qi == pi && !ms0[pi].children.contains(key) {
                                    assert(ms[qi].children == ms0[qi].children.push(key));
                                    assert(ms0[qi] == ns[qi]);
                                    let c = choose|c: int| 0 <= c < t.nodes[qi].children.len() && t.nodes[qi].children[c] == k;
                                    assert(ms[qi].children[c] == k);
                                } else {
                                    assert(ms0[qi] == ns[qi]);
                                }
                            },
                            None => {},
                        }
                    }
                }
            }
        },
        None => {
            assert(t2.nodes == ns);
            assert(samples_merged(t2, paths, values, (n + 1) as nat));
            assert(roots_well_placed(t2.roots)) by {
                if !t.roots.contains(key) {
                    assert forall|r: int| 0 <= r < t2.roots.len() implies parent_key_spec(#[trigger] t2.roots[r]) is None by {
                        if r < t.roots.len() {
                            assert(t2.roots[r] == t.roots[r]);
                        }
                    }
                    assert forall|a: int, b: int| 0 <= a < b < t2.roots.len() implies t2.roots[a] != t2.roots[b] by {
                        if b == t.roots.len() {
                            assert(t2.roots[a] == t.roots[a]);
                        }
                    }
                }
            }
            assert(publications_placed(t2, paths, (n + 1) as nat)) by {
                assert forall|m: int| 0 <= m < n + 1 implies {
                    let k = join_path(#[trigger] paths[m]);
                    &&& find_key(ns, k) >= 0
                    &&& match parent_key_spec(k) {
                        Some(q) => find_key(ns, q) >= 0 && ns[find_key(ns, q)].children.contains(k),
                        None => t2.roots.contains(k),
                    }
                } by {
                    let k = join_path(paths[m]);
                    if m < n {
                        match parent_key_spec(k) {
                            Some(q) => {
                                let qi = find_key(t.nodes, q);
                                lemma_find_key(t.nodes, q);
                                if q == key {
                                    lemma_with_node(t.nodes, key, name);
                                }
                                assert(find_key(ns, q) == qi);
                            },
                            None => {
                                if !t.roots.contains(key) {
                                    let r = choose|r: int| 0 <= r < t.roots.len() && t.roots[r] == k;
                                    assert(t2.roots[r] == k);
                                }
                            },
                        }
                    } else {
                        if !t.roots.contains(key) {
                            assert(t2.roots[t.roots.len() as int] == key);
                        }
                    }
                }
            }
        },
    }
}

/// Every tree built from publications satisfies the tree invariant: samples
/// with the same path are merged into one node, each node's children lie
/// directly under it, and every publication is reachable from a root.
pub proof fn lemma_aggregate_invariant<V>(paths: Seq<Seq<Seq<char>>>, values: Seq<V>, n: nat)
    requires
        n <= paths.len(),
        n <= values.len(),
    ensures
        tree_invariant(aggregate_prefix(paths, values, n), paths, values, n),
    decreases n,
{
    if n == 0 {
        let t = aggregate_prefix(paths, values, 0);
        assert forall|k: Seq<char>| #![trigger samples_with_key(paths, values, 0, k)]
            samples_with_key(paths, values, 0, k) == Seq::<V>::empty() by {}
    } else {
        lemma_aggregate_invariant(paths, values, (n - 1) as nat);
        lemma_aggregate_step(aggregate_prefix(paths, values, (n - 1) as nat), paths, values, (n - 1) as nat);
    }
}

// ── Node names ─────────────────────────────────────────────────

/// `name` is the part of `key` after its last `/` (all of `key` when it has none).
pub open spec fn ends_key(key: Seq<char>, name: Seq<char>) -> bool {
    &&& no_slash(name)
    &&& name.len() <= key.len()
    &&& key.skip(key.len() - name.len()) == name
    &&& (key.len() == name.len() || key[key.len() - name.len() - 1] == '/')
}

/// Every node is named by the end of its key.
pub open spec fn names_end_keys<V>(nodes: Seq<NodeModel<V>>) -> bool {
    forall|i: int| 0 <= i < nodes.len() ==> ends_key((#[trigger] nodes[i]).key, nodes[i].name)
}

proof fn lemma_join_ends(p: Seq<Seq<char>>)
    requires
        p.len() >= 1,
        no_slash(p.last()),
    ensures
        ends_key(join_path(p), p.last()),
{
    let j = join_path(p);
    if p.len() >= 2 {
        let a = join_path(p.drop_last());
        assert(j == a + seq!['/'] + p.last());
        assert(j.skip(j.len() - p.last().len()) =~= p.last());
        assert(j[j.len() - p.last().len() - 1] == '/');
    } else {
        assert(j == p[0]);
        assert(j.skip(0) =~= j);
    }
}

proof fn lemma_last_segment_ends(k: Seq<char>)
    ensures
        ends_key(k, last_segment(k)),
{
    lemma_last_slash(k);
    let i = last_slash(k);
    if i < 0 || i >= k.len() {
        assert(k.skip(0) =~= k);
    } else {
        let seg = k.skip(i + 1);
        assert(split_slash(k) == split_slash(k.take(i)).push(seg));
        assert(last_segment(k) == seg);
        assert forall|j: int| 0 <= j < seg.len() implies seg[j] != '/' by {
            assert(seg[j] == k[i + 1 + j]);
        }
        assert(k.skip(k.len() - seg.len()) =~= seg);
    }
}

proof fn lemma_names_with_node<V>(nodes: Seq<NodeModel<V>>, key: Seq<char>, name: Seq<char>)
    requires
        names_end_keys(nodes),
        ends_key(key, name),
    ensures
        names_end_keys(with_node(nodes, key, name)),
        find_key(with_node(nodes, key, name), key) >= 0,
{
    lemma_find_key(nodes, key);
    let ns = with_node(nodes, key, name);
    if find_key(nodes, key) < 0 {
        assert(ns.last().key == key);
        assert(find_key(ns, key) == ns.len() - 1);
    }
    assert forall|i: int| 0 <= i < ns.len() implies ends_key((#[trigger] ns[i]).key, ns[i].name) by {
        if i < nodes.len() {
            assert(ns[i] == nodes[i]);
        }
    }
}

/// In the tree of publications whose paths are not empty and whose segments hold no `/`,
/// every node is named by the last `/`-separated segment of its key; this holds as well
/// for nodes first made as the parent of another.
pub proof fn lemma_names_are_last_segments<V>(paths: Seq<Seq<Seq<char>>>, values: Seq<V>, n: nat)
    requires
        n <= paths.len(),
        n <= values.len(),
        forall|m: int| 0 <= m < n ==> (#[trigger] paths[m]).len() >= 1,
        forall|m: int, k: int| 0 <= m < n && 0 <= k < paths[m].len() ==> no_slash(#[trigger] paths[m][k]),
    ensures
        names_end_keys(aggregate_prefix(paths, values, n).nodes),
    decreases n,
{
    if n > 0 {
        let m = n - 1;
        lemma_names_are_last_segments(paths, values, (n - 1) as nat);
        let t = aggregate_prefix(paths, values, (n - 1) as nat);
        let path = paths[m];
        let key = join_path(path);
        assert(paths[m].len() >= 1);
        assert(no_slash(path[path.len() - 1]));
        lemma_join_ends(path);
        lemma_names_with_node(t.nodes, key, sample_name(path));
        let wn = with_node(t.nodes, key, sample_name(path));
        let ns = with_sample(t.nodes, key, sample_name(path), values[m]);
        let i = find_key(wn, key);
        lemma_find_key(wn, key);
        assert forall|j: int| 0 <= j < ns.len() implies ends_key((#[trigger] ns[j]).key, ns[j].name) by {
            assert(ns[j].key == wn[j].key && ns[j].name == wn[j].name);
        }
        match parent_key_spec(key) {
            Some(pk) => {
                lemma_last_segment_ends(pk);
                lemma_names_with_node(ns, pk, last_segment(pk));
                let wp = with_node(ns, pk, last_segment(pk));
                let fin = with_child(ns, pk, last_segment(pk), key);
                lemma_find_key(wp, pk);
                assert forall|j: int| 0 <= j < fin.len() implies ends_key((#[trigger] fin[j]).key, fin[j].name) by {
                    assert(fin[j].key == wp[j].key && fin[j].name == wp[j].name);
                }
            },
            None => {},
        }
    }
}

/// Every node of a tree that [`crate::tree::SpanTree::from_published`] builds from
/// non-empty paths whose segments hold no `/` is named by the last segment of its key.
pub proof fn lemma_built_names_are_last_segments<V>(paths: Seq<Seq<Seq<char>>>, values: Seq<V>)
    requires
        values.len() == paths.len(),
        forall|m: int| 0 <= m < paths.len() ==> (#[trigger] paths[m]).len() >= 1,
        forall|m: int, k: int| 0 <= m < paths.len() && 0 <= k < paths[m].len() ==> no_slash(#[trigger] paths[m][k]),
    ensures
        names_end_keys(crate::tree::aggregate_spec(paths, values).nodes),
{
    lemma_names_are_last_segments(paths, values, paths.len());
}

} // verus!

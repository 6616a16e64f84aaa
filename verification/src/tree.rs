//! The span tree of a benchmark run: published paths merged by key.
use vstd::prelude::*;
use vstd::pervasive::VecAdditionalExecFns;
use crate::analysis::{
    lemma_progress_chain, lemma_progress_step, progress_added, progress_states, publish_progress,
    AnalysisPhase, AnalysisProgress, AnalysisProgressState,
};
use crate::path::{join_path, join_strings, split_chars, split_slash, seqs_of};
use crate::text::{chars_of, parent_key, parent_key_spec, string_from_chars};

verus! {

/// One node in the aggregated span tree.
pub struct SpanNode<V> {
    /// Path of the node, segments joined with `/`.
    pub key: String,
    pub name: String,
    /// One entry per publication of this path, in order.
    pub samples: Vec<V>,
    /// Keys of the child nodes (ordered, deduplicated).
    pub children: Vec<String>,
}

/// What a node holds, as mathematical values.
pub struct NodeModel<V> {
    pub key: Seq<char>,
    pub name: Seq<char>,
    pub samples: Seq<V>,
    pub children: Seq<Seq<char>>,
}

impl<V> SpanNode<V> {
    pub open spec fn model(&self) -> NodeModel<V> {
        NodeModel {
            key: self.key@,
            name: self.name@,
            samples: self.samples@,
            children: self.children.deep_view(),
        }
    }
}

/// The models of a sequence of nodes.
pub open spec fn models<V>(nodes: Seq<SpanNode<V>>) -> Seq<NodeModel<V>> {
    Seq::new(nodes.len(), |i: int| nodes[i].model())
}

/// The aggregated tree as mathematical values.
pub struct TreeModel<V> {
    pub nodes: Seq<NodeModel<V>>,
    pub roots: Seq<Seq<char>>,
}

/// Aggregated span tree: nodes keyed by path, and the keys of the root nodes.
pub struct SpanTree<V> {
    pub nodes: Vec<SpanNode<V>>,
    pub roots: Vec<String>,
}

impl<V> SpanTree<V> {
    pub open spec fn model(&self) -> TreeModel<V> {
        TreeModel { nodes: models(self.nodes@), roots: self.roots.deep_view() }
    }
}

/// Index of the node with key `key` (the last one, should there be several), or -1.
pub open spec fn find_key<V>(nodes: Seq<NodeModel<V>>, key: Seq<char>) -> int
    decreases nodes.len(),
{
    if nodes.len() == 0 {
        -1
    } else if nodes.last().key == key {
        nodes.len() - 1
    } else {
        find_key(nodes.drop_last(), key)
    }
}

pub proof fn lemma_find_key<V>(nodes: Seq<NodeModel<V>>, key: Seq<char>)
    ensures
        -1 <= find_key(nodes, key) < nodes.len(),
        find_key(nodes, key) >= 0 ==> nodes[find_key(nodes, key)].key == key,
        find_key(nodes, key) < 0 ==> forall|j: int| 0 <= j < nodes.len() ==> nodes[j].key != key,
        forall|j: int| find_key(nodes, key) < j < nodes.len() ==> nodes[j].key != key,
    decreases nodes.len(),
{
    if nodes.len() > 0 && nodes.last().key != key {
        lemma_find_key(nodes.drop_last(), key);
        assert forall|j: int| find_key(nodes, key) < j < nodes.len() implies nodes[j].key != key by {
            if j < nodes.len() - 1 {
                assert(nodes.drop_last()[j] == nodes[j]);
            }
        }
        if find_key(nodes, key) >= 0 {
            assert(nodes.drop_last()[find_key(nodes, key)] == nodes[find_key(nodes, key)]);
        }
    }
}

pub proof fn lemma_find_key_unique<V>(nodes: Seq<NodeModel<V>>, key: Seq<char>, i: int)
    requires
        -1 <= i < nodes.len(),
        i >= 0 ==> nodes[i].key == key,
        forall|j: int| i < j < nodes.len() ==> nodes[j].key != key,
    ensures
        find_key(nodes, key) == i,
    decreases nodes.len(),
{
    if nodes.len() > 0 && i != nodes.len() - 1 {
        assert forall|j: int| i < j < nodes.drop_last().len() implies nodes.drop_last()[j].key != key by {
            assert(nodes.drop_last()[j] == nodes[j]);
        }
        if i >= 0 {
            assert(nodes.drop_last()[i] == nodes[i]);
        }
        lemma_find_key_unique(nodes.drop_last(), key, i);
    }
}

/// `nodes`, with a node for `key` (named `name`, with no samples or children) added when there is none.
pub open spec fn with_node<V>(nodes: Seq<NodeModel<V>>, key: Seq<char>, name: Seq<char>) -> Seq<NodeModel<V>> {
    if find_key(nodes, key) >= 0 {
        nodes
    } else {
        nodes.push(NodeModel { key, name, samples: Seq::empty(), children: Seq::empty() })
    }
}

/// `nodes` with the sample `v` added to the node for `key`.
pub open spec fn with_sample<V>(nodes: Seq<NodeModel<V>>, key: Seq<char>, name: Seq<char>, v: V) -> Seq<NodeModel<V>> {
    let ns = with_node(nodes, key, name);
    let i = find_key(ns, key);
    ns.update(i, NodeModel { samples: ns[i].samples.push(v), ..ns[i] })
}

/// `nodes` with `child` among the children of the node for `key`.
pub open spec fn with_child<V>(nodes: Seq<NodeModel<V>>, key: Seq<char>, name: Seq<char>, child: Seq<char>) -> Seq<NodeModel<V>> {
    let ns = with_node(nodes, key, name);
    let i = find_key(ns, key);
    if ns[i].children.contains(child) {
        ns
    } else {
        ns.update(i, NodeModel { children: ns[i].children.push(child), ..ns[i] })
    }
}

/// Name of the node of a published path: its last segment, `?` for an empty path.
pub open spec fn sample_name(path: Seq<Seq<char>>) -> Seq<char> {
    if path.len() > 0 {
        path.last()
    } else {
        seq!['?']
    }
}

/// The last `/`-separated segment of a key.
pub open spec fn last_segment(key: Seq<char>) -> Seq<char> {
    split_slash(key).last()
}

/// The tree after one more publication: the sample joins the node of its key,
/// the key becomes a child of its parent key, or a root when it has none.
pub open spec fn aggregate_step<V>(t: TreeModel<V>, path: Seq<Seq<char>>, v: V) -> TreeModel<V> {
    let key = join_path(path);
    let ns = with_sample(t.nodes, key, sample_name(path), v);
    match parent_key_spec(key) {
        Some(pk) => TreeModel { nodes: with_child(ns, pk, last_segment(pk), key), roots: t.roots },
        None => TreeModel {
            nodes: ns,
            roots: if t.roots.contains(key) {
                t.roots
            } else {
                t.roots.push(key)
            },
        },
    }
}

/// The tree of the first `n` publications.
pub open spec fn aggregate_prefix<V>(paths: Seq<Seq<Seq<char>>>, values: Seq<V>, n: nat) -> TreeModel<V>
    decreases n,
{
    if n == 0 {
        TreeModel { nodes: Seq::empty(), roots: Seq::empty() }
    } else {
        aggregate_step(aggregate_prefix(paths, values, (n - 1) as nat), paths[n - 1], values[n - 1])
    }
}

/// The paths of published results.
pub open spec fn paths_of<R>(published: Seq<(Vec<String>, R)>) -> Seq<Seq<Seq<char>>> {
    Seq::new(published.len(), |i: int| published[i].0.deep_view())
}

/// The key of the root that collects spans that were never registered.
pub open spec fn unknown_root() -> Seq<char> {
    seq!['?']
}

/// The tree built from all publications. Spans that were never registered hang under the
/// unknown root `?`: it is added as the last root when it has a node and is no root yet.
pub open spec fn aggregate_spec<V>(paths: Seq<Seq<Seq<char>>>, values: Seq<V>) -> TreeModel<V> {
    let t = aggregate_prefix(paths, values, paths.len());
    if find_key(t.nodes, unknown_root()) >= 0 && !t.roots.contains(unknown_root()) {
        TreeModel { nodes: t.nodes, roots: t.roots.push(unknown_root()) }
    } else {
        t
    }
}

pub(crate) fn find_node<V>(nodes: &Vec<SpanNode<V>>, key: &String) -> (r: Option<usize>)
    ensures
        match r {
            Some(i) => i == find_key(models(nodes@), key@),
            None => find_key(models(nodes@), key@) == -1,
        },
{
    let mut i = nodes.len();
    while i > 0
        invariant
            i <= nodes.len(),
            forall|j: int| i <= j < nodes.len() ==> nodes@[j].key@ != key@,
        decreases i,
    {
        if nodes[i - 1].key == *key {
            proof {
                lemma_find_key_unique(models(nodes@), key@, i - 1);
            }
            return Some(i - 1);
        }
        i = i - 1;
    }
    proof {
        lemma_find_key_unique(models(nodes@), key@, -1);
    }
    None
}

fn clone_string(s: &String) -> (r: String)
    ensures
        r@ == s@,
{
    s.clone()
}

/// Index of the node for `key`, added (named `name`) when there is none.
fn ensure_node<V>(nodes: &mut Vec<SpanNode<V>>, key: &String, name: String) -> (i: usize)
    ensures
        models(final(nodes)@) == with_node(models(old(nodes)@), key@, name@),
        i == find_key(models(final(nodes)@), key@),
        0 <= i < final(nodes).len(),
{
    match find_node(nodes, key) {
        Some(i) => {
            proof { lemma_find_key(models(nodes@), key@); }
            i
        },
        None => {
            let node = SpanNode {
                key: clone_string(key),
                name,
                samples: Vec::new(),
                children: Vec::new(),
            };
            let ghost before = models(nodes@);
            nodes.push(node);
            proof {
                assert(node.children.deep_view() =~= Seq::<Seq<char>>::empty());
                assert(models(nodes@) =~= with_node(before, key@, name@));
                lemma_find_key(before, key@);
                lemma_find_key_unique(models(nodes@), key@, nodes.len() - 1);
            }
            nodes.len() - 1
        },
    }
}

fn empty_node<V>() -> (n: SpanNode<V>)
    ensures
        n.key@ == Seq::<char>::empty(),
        n.name@ == Seq::<char>::empty(),
        n.samples@ == Seq::<V>::empty(),
        n.children@ == Seq::<String>::empty(),
{
    SpanNode { key: String::new(), name: String::new(), samples: Vec::new(), children: Vec::new() }
}

fn add_sample<V>(nodes: &mut Vec<SpanNode<V>>, key: &String, name: String, v: V)
    ensures
        models(final(nodes)@) == with_sample(models(old(nodes)@), key@, name@, v),
{
    let i = ensure_node(nodes, key, name);
    let mut node = empty_node();
    let ghost ns = models(nodes@);
    nodes.set_and_swap(i, &mut node);
    node.samples.push(v);
    nodes.set_and_swap(i, &mut node);
    assert(models(nodes@) =~= with_sample(models(old(nodes)@), key@, name@, v));
}

fn contains_key(keys: &Vec<String>, key: &String) -> (r: bool)
    ensures
        r == keys.deep_view().contains(key@),
{
    let mut i: usize = 0;
    while i < keys.len()
        invariant
            i <= keys.len(),
            forall|j: int| 0 <= j < i ==> keys.deep_view()[j] != key@,
        decreases keys.len() - i,
    {
        if keys[i] == *key {
            assert(keys.deep_view()[i as int] == key@);
            return true;
        }
        i = i + 1;
    }
    false
}

fn add_child<V>(nodes: &mut Vec<SpanNode<V>>, key: &String, name: String, child: &String)
    ensures
        models(final(nodes)@) == with_child(models(old(nodes)@), key@, name@, child@),
{
    let i = ensure_node(nodes, key, name);
    let mut node = empty_node();
    let ghost ns = models(nodes@);
    nodes.set_and_swap(i, &mut node);
    assert(node.model() == ns[i as int]);
    if contains_key(&node.children, child) {
        nodes.set_and_swap(i, &mut node);
        assert(models(nodes@) =~= ns);
    } else {
        let ghost before = node.children.deep_view();
        node.children.push(clone_string(child));
        assert(node.children.deep_view() =~= before.push(child@));
        nodes.set_and_swap(i, &mut node);
        assert(models(nodes@) =~= with_child(models(old(nodes)@), key@, name@, child@));
    }
}

/// The last `/`-separated segment of `key`.
fn last_segment_exec(key: &str) -> (r: String)
    ensures
        r@ == last_segment(key@),
{
    let cs = chars_of(key);
    let parts = split_chars(&cs);
    let last = &parts[parts.len() - 1];
    assert(seqs_of(parts@).last() == last@);
    string_from_chars(last)
}

impl<V> SpanTree<V> {
    /// Builds the tree from published results: `values[i]` is the sample of `published[i]`.
    ///
    /// Results with the same path are merged into one node, so 100 iterations of
    /// `iter → parse → process` become one tree with 100 samples per node.
    pub fn from_published<R, P: AnalysisProgress>(
        published: &Vec<(Vec<String>, R)>,
        values: Vec<V>,
        progress: &mut Option<P>,
    ) -> (tree: SpanTree<V>)
        requires
            values.len() == published.len(),
        ensures
            tree.model() == aggregate_spec(paths_of(published@), values@),
            progress_added(
                *old(progress),
                *final(progress),
                progress_states(AnalysisPhase::AggregatePublished, published.len() as int, published.len() + 1),
            ),
    {
        let ghost paths = paths_of(published@);
        let ghost vals = values@;
        let n = published.len();
        let mut nodes: Vec<SpanNode<V>> = Vec::new();
        let mut roots: Vec<String> = Vec::new();
        publish_progress(progress, AnalysisPhase::AggregatePublished, 0, n);
        assert(seq![AnalysisProgressState { phase: AnalysisPhase::AggregatePublished, completed: 0, total: n }]
            =~= progress_states(AnalysisPhase::AggregatePublished, n as int, 1));
        let mut idx: usize = 0;
        for v in it: values
            invariant
                n == published.len(),
                idx == it.index(),
                it.seq() == vals,
                vals.len() == n,
                paths == paths_of(published@),
                models(nodes@) == aggregate_prefix(paths, vals, idx as nat).nodes,
                roots.deep_view() == aggregate_prefix(paths, vals, idx as nat).roots,
                progress_added(
                    *old(progress),
                    *progress,
                    progress_states(AnalysisPhase::AggregatePublished, n as int, idx + 1),
                ),
        {
            let path = &published[idx].0;
            assert(path.deep_view() == paths[idx as int]);
            let key = join_strings(path);
            let name = if path.len() > 0 {
                assert(path.deep_view().last() == path@[path.len() - 1]@);
                clone_string(&path[path.len() - 1])
            } else {
                let mut q = String::new();
                crate::text::push_char(&mut q, '?');
                q
            };
            assert(name@ == sample_name(paths[idx as int]));
            add_sample(&mut nodes, &key, name, v);
            match parent_key(key.as_str()) {
                Some(pk) => {
                    let pkey = String::from_str(pk);
                    let pname = last_segment_exec(pk);
                    add_child(&mut nodes, &pkey, pname, &key);
                },
                None => {
                    if !contains_key(&roots, &key) {
                        let ghost before = roots.deep_view();
                        roots.push(key);
                        assert(roots.deep_view() =~= before.push(join_path(paths[idx as int])));
                    }
                },
            }
            idx = idx + 1;
            let ghost mid = *progress;
            publish_progress(progress, AnalysisPhase::AggregatePublished, idx, n);
            proof {
                let st = AnalysisProgressState { phase: AnalysisPhase::AggregatePublished, completed: idx, total: n };
                lemma_progress_chain(*old(progress), mid, *progress,
                    progress_states(AnalysisPhase::AggregatePublished, n as int, idx as int), seq![st]);
                lemma_progress_step(AnalysisPhase::AggregatePublished, n as int, idx as int);
                assert(progress_states(AnalysisPhase::AggregatePublished, n as int, idx as int) + seq![st]
                    =~= progress_states(AnalysisPhase::AggregatePublished, n as int, idx as int).push(st));
            }
        }
        let mut q = String::new();
        crate::text::push_char(&mut q, '?');
        assert(q@ == unknown_root());
        if find_node(&nodes, &q).is_some() && !contains_key(&roots, &q) {
            let ghost before = roots.deep_view();
            roots.push(q);
            assert(roots.deep_view() =~= before.push(unknown_root()));
        }
        assert(vals.len() == paths.len());
        SpanTree { nodes, roots }
    }
}

} // verus!

//! Span paths: joining path segments into keys and splitting keys back.
use vstd::prelude::*;
use crate::text::{last_slash, lemma_last_slash, lemma_last_slash_unique, parent_key_spec, push_char, push_str};

verus! {

/// Segments joined with `/` (`path.join("/")`).
pub open spec fn join_path(p: Seq<Seq<char>>) -> Seq<char>
    decreases p.len(),
{
    if p.len() == 0 {
        Seq::empty()
    } else if p.len() == 1 {
        p[0]
    } else {
        join_path(p.drop_last()) + seq!['/'] + p.last()
    }
}

/// `key.split('/')`: the segments between the slashes; never empty.
pub open spec fn split_slash(s: Seq<char>) -> Seq<Seq<char>>
    decreases s.len(),
{
    let i = last_slash(s);
    if i < 0 || i >= s.len() {
        seq![s]
    } else {
        split_slash(s.take(i)).push(s.skip(i + 1))
    }
}

/// No segment-separating slash in `s`.
pub open spec fn no_slash(s: Seq<char>) -> bool {
    forall|j: int| 0 <= j < s.len() ==> s[j] != '/'
}

pub proof fn lemma_split_nonempty(s: Seq<char>)
    ensures
        split_slash(s).len() >= 1,
    decreases s.len(),
{
    let i = last_slash(s);
    if !(i < 0 || i >= s.len()) {
        lemma_split_nonempty(s.take(i));
    }
}

/// Splitting a key and joining the segments gives the key back.
pub proof fn lemma_join_split(s: Seq<char>)
    ensures
        join_path(split_slash(s)) == s,
    decreases s.len(),
{
    lemma_last_slash(s);
    let i = last_slash(s);
    if !(i < 0 || i >= s.len()) {
        lemma_join_split(s.take(i));
        lemma_split_nonempty(s.take(i));
        let p = split_slash(s.take(i)).push(s.skip(i + 1));
        assert(p.drop_last() == split_slash(s.take(i)));
        assert(s.take(i) + seq!['/'] + s.skip(i + 1) =~= s);
    }
}

/// Adding one character to a key changes its segments in the expected way.
pub proof fn lemma_split_push(p: Seq<char>, c: char)
    ensures
        c == '/' ==> split_slash(p.push(c)) == split_slash(p).push(Seq::empty()),
        c != '/' ==> split_slash(p.push(c)) == split_slash(p).drop_last().push(
            split_slash(p).last().push(c),
        ),
{
    lemma_last_slash(p);
    lemma_split_nonempty(p);
    let q = p.push(c);
    if c == '/' {
        lemma_last_slash_unique(q, p.len() as int);
        assert(q.take(p.len() as int) =~= p);
        assert(q.skip(p.len() as int + 1) =~= Seq::<char>::empty());
    } else {
        let i = last_slash(p);
        assert forall|j: int| i < j < q.len() implies q[j] != '/' by {
            if j < p.len() {
                assert(q[j] == p[j]);
            }
        }
        if i >= 0 {
            assert(q[i] == p[i]);
        }
        lemma_last_slash_unique(q, i);
        if i < 0 {
        } else {
            assert(q.take(i) =~= p.take(i));
            assert(q.skip(i + 1) =~= p.skip(i + 1).push(c));
            let sp = split_slash(p.take(i)).push(p.skip(i + 1));
            assert(sp.drop_last() =~= split_slash(p.take(i)));
        }
    }
}

/// The key of a path whose last segment holds no `/` has the key of the
/// path without its last segment as parent key; a one-segment path has none.
pub proof fn lemma_parent_key_of_join(p: Seq<Seq<char>>)
    requires
        p.len() >= 1,
        no_slash(p.last()),
    ensures
        p.len() == 1 ==> parent_key_spec(join_path(p)) is None,
        p.len() >= 2 ==> parent_key_spec(join_path(p)) == Some(join_path(p.drop_last())),
{
    let j = join_path(p);
    if p.len() == 1 {
        lemma_last_slash_unique(j, -1);
    } else {
        let a = join_path(p.drop_last());
        let k = a.len() as int;
        assert(j == a + seq!['/'] + p.last());
        assert forall|t: int| k < t < j.len() implies j[t] != '/' by {
            assert(j[t] == p.last()[t - k - 1]);
        }
        lemma_last_slash_unique(j, k);
        assert(j.take(k) =~= a);
    }
}

/// The character sequences held by a vector of character vectors.
pub open spec fn seqs_of(v: Seq<Vec<char>>) -> Seq<Seq<char>> {
    v.map_values(|x: Vec<char>| x@)
}

/// The segments of `cs` split at `/`.
pub fn split_chars(cs: &Vec<char>) -> (parts: Vec<Vec<char>>)
    ensures
        seqs_of(parts@) == split_slash(cs@),
        parts.len() >= 1,
{
    let mut parts: Vec<Vec<char>> = Vec::new();
    let mut cur: Vec<char> = Vec::new();
    let mut i: usize = 0;
    proof {
        assert(cs@.take(0) =~= Seq::<char>::empty());
        lemma_last_slash(Seq::<char>::empty());
    }
    while i < cs.len()
        invariant
            i <= cs.len(),
            seqs_of(parts@).push(cur@) == split_slash(cs@.take(i as int)),
        decreases cs.len() - i,
    {
        let c = cs[i];
        proof {
            lemma_split_push(cs@.take(i as int), c);
            assert(cs@.take(i as int).push(c) =~= cs@.take(i + 1));
        }
        let ghost old_parts = seqs_of(parts@);
        let ghost old_cur = cur@;
        if c == '/' {
            let done = cur;
            parts.push(done);
            cur = Vec::new();
            assert(seqs_of(parts@) =~= old_parts.push(old_cur));
        } else {
            cur.push(c);
            assert(seqs_of(parts@).push(cur@).drop_last() =~= old_parts.push(old_cur).drop_last());
        }
        i = i + 1;
    }
    parts.push(cur);
    assert(cs@.take(cs.len() as int) =~= cs@);
    parts
}

/// The characters of the segments joined with `/`.
pub fn join_chars(parts: &Vec<Vec<char>>) -> (r: Vec<char>)
    ensures
        r@ == join_path(seqs_of(parts@)),
{
    let mut r: Vec<char> = Vec::new();
    let mut i: usize = 0;
    while i < parts.len()
        invariant
            i <= parts.len(),
            r@ == join_path(seqs_of(parts@).take(i as int)),
        decreases parts.len() - i,
    {
        let ghost prev = r@;
        if i > 0 {
            r.push('/');
        }
        let mut k: usize = 0;
        let seg = &parts[i];
        let ghost mid = r@;
        while k < seg.len()
            invariant
                k <= seg.len(),
                r@ == mid + seg@.take(k as int),
            decreases seg.len() - k,
        {
            r.push(seg[k]);
            k = k + 1;
            assert(seg@.take(k as int) == seg@.take(k - 1).push(seg@[k - 1]));
        }
        assert(seg@.take(seg.len() as int) =~= seg@);
        let ghost t = seqs_of(parts@).take(i + 1);
        assert(t.drop_last() =~= seqs_of(parts@).take(i as int));
        assert(t.last() == seqs_of(parts@)[i as int]);
        i = i + 1;
        assert(r@ =~= join_path(seqs_of(parts@).take(i as int)));
    }
    assert(seqs_of(parts@).take(parts.len() as int) =~= seqs_of(parts@));
    r
}

/// Segments of a path joined with `/` into its key.
pub fn join_strings(path: &Vec<String>) -> (r: String)
    ensures
        r@ == join_path(path.deep_view()),
{
    let mut r = String::new();
    let mut i: usize = 0;
    while i < path.len()
        invariant
            i <= path.len(),
            r@ == join_path(path.deep_view().take(i as int)),
        decreases path.len() - i,
    {
        if i > 0 {
            push_char(&mut r, '/');
        }
        push_str(&mut r, path[i].as_str());
        let ghost t = path.deep_view().take(i + 1);
        assert(t.drop_last() =~= path.deep_view().take(i as int));
        i = i + 1;
        assert(r@ =~= join_path(path.deep_view().take(i as int)));
    }
    assert(path.deep_view().take(path.len() as int) =~= path.deep_view());
    r
}

} // verus!

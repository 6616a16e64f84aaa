//! Labels of report rows: span keys shortened to fit a column.
use vstd::prelude::*;
use crate::path::{join_chars, join_path, seqs_of, split_chars, split_slash};
use crate::text::{chars_of, sat_sub, string_from_chars, take_at_most, take_chars};

verus! {

/// The decimal digit for `d < 10`.
pub open spec fn digit_char(d: nat) -> char {
    ((48 + d) as u32) as char
}

/// Decimal representation of `n`, without leading zeros.
pub open spec fn decimal(n: nat) -> Seq<char>
    decreases n,
{
    if n < 10 {
        seq![digit_char(n)]
    } else {
        decimal(n / 10).push(digit_char(n % 10))
    }
}

/// The number that the decimal digits `s` stand for.
pub open spec fn digits_value(s: Seq<char>) -> int
    decreases s.len(),
{
    if s.len() == 0 {
        0
    } else {
        digits_value(s.drop_last()) * 10 + (s.last() as int - '0' as int)
    }
}

/// The decimal representation of `n` is made of digits only, starts with a digit other
/// than `0` unless `n` is 0, and reads back as `n`.
pub proof fn lemma_decimal_reads_back(n: nat)
    ensures
        decimal(n).len() >= 1,
        forall|i: int| 0 <= i < decimal(n).len() ==> '0' <= #[trigger] decimal(n)[i] <= '9',
        n > 0 ==> decimal(n)[0] != '0',
        digits_value(decimal(n)) == n,
    decreases n,
{
    let d0 = (n % 10) as nat;
    assert((digit_char(d0) as int) == 48 + d0);
    if n >= 10 {
        lemma_decimal_reads_back(n / 10);
        let d = decimal(n);
        assert(d.drop_last() == decimal(n / 10));
        assert(d[0] == decimal(n / 10)[0]);
        assert forall|i: int| 0 <= i < d.len() implies '0' <= #[trigger] d[i] <= '9' by {
            if i < d.len() - 1 {
                assert(d[i] == decimal(n / 10)[i]);
            }
        }
        assert(d.last() == digit_char(d0));
        assert(digits_value(d) == digits_value(decimal(n / 10)) * 10 + (d.last() as int - '0' as int));
        assert((n / 10) * 10 + n % 10 == n) by (nonlinear_arith);
    } else {
        let d = decimal(n);
        assert(d0 == n);
        assert(d.last() == digit_char(d0));
        assert(d.drop_last() =~= Seq::<char>::empty());
        assert(digits_value(d) == digits_value(d.drop_last()) * 10 + (d.last() as int - '0' as int));
    }
}


/// Decimal characters of `n`.
pub fn decimal_chars(n: usize) -> (v: Vec<char>)
    ensures
        v@ == decimal(n as nat),
    decreases n,
{
    let d: u8 = (n % 10) as u8 + 48;
    let c = d as char;
    assert(c == digit_char((n % 10) as nat));
    if n < 10 {
        let mut v: Vec<char> = Vec::new();
        v.push(c);
        v
    } else {
        let mut v = decimal_chars(n / 10);
        v.push(c);
        v
    }
}

/// `...`
pub open spec fn dots() -> Seq<char> {
    seq!['.', '.', '.']
}

/// What stands for the collapsed middle of a path of `n` segments:
/// `/{n-2}/` when segments are left out, `/` otherwise.
pub open spec fn depth_marker(n: int) -> Seq<char> {
    if n > 2 {
        seq!['/', '{'] + decimal((n - 2) as nat) + seq!['}', '/']
    } else {
        seq!['/']
    }
}

/// The segments shown for a key: a key under the unknown root `?` keeps all its
/// segments; otherwise the common root is shown as the benchmark's name.
pub open spec fn shown_parts(parts: Seq<Seq<char>>, bench: Seq<char>) -> Seq<Seq<char>> {
    if parts.len() >= 1 && parts[0] == seq!['?'] {
        parts
    } else if parts.len() >= 1 {
        parts.update(0, bench)
    } else {
        parts
    }
}

/// Root truncation does not leave enough room and the label starts over from the
/// first character of the root: only there is the root sliced by bytes.
pub open spec fn flat_path_uses_prefix(key: Seq<char>, bench: Seq<char>, max: int) -> bool {
    let parts = shown_parts(split_slash(key), bench);
    let n = parts.len() as int;
    let root = parts[0];
    let leaf = parts[n - 1];
    let depth = depth_marker(n);
    &&& n >= 2
    &&& join_path(parts).len() > max
    &&& root.len() + depth.len() + leaf.len() > max
    &&& sat_sub(max, (depth.len() + leaf.len()) as int) <= 3
}

/// The label for `key` in a column of `max` characters.
pub open spec fn flat_path_spec(key: Seq<char>, bench: Seq<char>, max: int) -> Seq<char> {
    let parts = shown_parts(split_slash(key), bench);
    let n = parts.len() as int;
    if n == 0 {
        Seq::empty()
    } else {
        let root = parts[0];
        let leaf = parts[n - 1];
        if n == 1 {
            if root.len() > max {
                take_at_most(root, sat_sub(max, 3)) + dots()
            } else {
                root
            }
        } else {
            let full = join_path(parts);
            if full.len() <= max {
                full
            } else {
                let depth = depth_marker(n);
                if root.len() + depth.len() + leaf.len() <= max {
                    root + depth + leaf
                } else {
                    let avail_root = sat_sub(max, (depth.len() + leaf.len()) as int);
                    if avail_root > 3 {
                        take_at_most(root, avail_root - 3) + dots() + depth + leaf
                    } else {
                        let prefix = take_at_most(root, 1) + dots();
                        let avail_leaf = sat_sub(max, (prefix.len() + depth.len()) as int);
                        if avail_leaf > 3 {
                            prefix + depth + take_at_most(leaf, avail_leaf - 3) + dots()
                        } else {
                            take_at_most(full, sat_sub(max, 3)) + dots()
                        }
                    }
                }
            }
        }
    }
}

/// In the prefix case the label starts with the first byte of the root: that byte must be
/// a whole character (ASCII), or the label cannot be cut there.
pub open spec fn flat_path_defined(key: Seq<char>, bench: Seq<char>, max: int) -> bool {
    let root = shown_parts(split_slash(key), bench)[0];
    flat_path_uses_prefix(key, bench, max) ==> (root.len() == 0 || (root[0] as u32) < 0x80)
}

proof fn lemma_take_at_most_len(s: Seq<char>, k: int)
    ensures
        take_at_most(s, k).len() <= s.len(),
        k >= 0 ==> take_at_most(s, k).len() <= k,
        take_at_most(s, k).len() == if k >= s.len() { s.len() as int } else if k <= 0 { 0 } else { k },
{
}

/// A label for a column of at least three characters fits the column.
pub proof fn lemma_flat_path_fits(key: Seq<char>, bench: Seq<char>, max: int)
    requires
        max >= 3,
    ensures
        flat_path_spec(key, bench, max).len() <= max,
{
    let parts = shown_parts(split_slash(key), bench);
    let n = parts.len() as int;
    if n >= 1 {
        let root = parts[0];
        let leaf = parts[n - 1];
        let full = join_path(parts);
        let depth = depth_marker(n);
        lemma_take_at_most_len(root, sat_sub(max, 3));
        lemma_take_at_most_len(full, sat_sub(max, 3));
        let avail_root = sat_sub(max, (depth.len() + leaf.len()) as int);
        lemma_take_at_most_len(root, avail_root - 3);
        lemma_take_at_most_len(root, 1);
        let prefix = take_at_most(root, 1) + dots();
        let avail_leaf = sat_sub(max, (prefix.len() + depth.len()) as int);
        lemma_take_at_most_len(leaf, avail_leaf - 3);
    }
}

fn is_unknown_root(seg: &Vec<char>) -> (r: bool)
    ensures
        r == (seg@ == seq!['?']),
{
    if seg.len() == 1 && seg[0] == '?' {
        assert(seg@ =~= seq!['?']);
        true
    } else {
        false
    }
}

fn dots_chars() -> (v: Vec<char>)
    ensures
        v@ == dots(),
{
    let mut v: Vec<char> = Vec::new();
    v.push('.');
    v.push('.');
    v.push('.');
    assert(v@ =~= dots());
    v
}

fn concat_chars(a: &Vec<char>, b: &Vec<char>) -> (r: Vec<char>)
    ensures
        r@ == a@ + b@,
{
    let mut r: Vec<char> = Vec::new();
    let mut i: usize = 0;
    while i < a.len()
        invariant
            i <= a.len(),
            r@ == a@.take(i as int),
        decreases a.len() - i,
    {
        r.push(a[i]);
        i = i + 1;
        assert(a@.take(i as int) == a@.take(i - 1).push(a@[i - 1]));
    }
    let mut j: usize = 0;
    while j < b.len()
        invariant
            j <= b.len(),
            r@ == a@ + b@.take(j as int),
        decreases b.len() - j,
    {
        r.push(b[j]);
        j = j + 1;
        assert(b@.take(j as int) == b@.take(j - 1).push(b@[j - 1]));
    }
    assert(a@.take(a.len() as int) =~= a@);
    assert(b@.take(b.len() as int) =~= b@);
    r
}

fn depth_marker_chars(n: usize) -> (v: Vec<char>)
    ensures
        v@ == depth_marker(n as int),
{
    let mut v: Vec<char> = Vec::new();
    v.push('/');
    if n > 2 {
        v.push('{');
        let d = decimal_chars(n - 2);
        let mut v = concat_chars(&v, &d);
        v.push('}');
        v.push('/');
        assert(v@ =~= depth_marker(n as int));
        v
    } else {
        assert(v@ =~= depth_marker(n as int));
        v
    }
}

/// `a - b`, or zero where it would go below zero.
fn sat_sub_u128(a: u128, b: u128) -> (r: u128)
    ensures
        r == sat_sub(a as int, b as int),
{
    if a >= b {
        a - b
    } else {
        0
    }
}

fn shown_parts_exec(key: &str, bench_name: &str) -> (parts: Vec<Vec<char>>)
    ensures
        seqs_of(parts@) == shown_parts(split_slash(key@), bench_name@),
{
    let kc = chars_of(key);
    let mut parts = split_chars(&kc);
    let ghost split = seqs_of(parts@);
    if !is_unknown_root(&parts[0]) {
        let b = chars_of(bench_name);
        parts.set(0, b);
        assert(seqs_of(parts@) =~= split.update(0, bench_name@));
    }
    parts
}

/// Whether [`format_flat_path`] can shorten `key` for a column of `max_len` characters
/// (see [`flat_path_defined`]).
pub fn flat_path_is_defined(key: &str, bench_name: &str, max_len: usize) -> (r: bool)
    ensures
        r == flat_path_defined(key@, bench_name@, max_len as int),
{
    let parts = shown_parts_exec(key, bench_name);
    let ghost shown = seqs_of(parts@);
    let n = parts.len();
    proof {
        crate::path::lemma_split_nonempty(key@);
    }
    if n == 0 {
        return true;
    }
    assert(shown[0] == parts@[0]@);
    assert(shown[n - 1] == parts@[n - 1]@);
    let root = &parts[0];
    let leaf = &parts[n - 1];
    let root_ok = root.len() == 0 || (root[0] as u32) < 0x80;
    if n < 2 {
        return true;
    }
    let max = max_len as u128;
    let full = join_chars(&parts);
    let depth = depth_marker_chars(n);
    let uses_prefix = full.len() as u128 > max
        && root.len() as u128 + depth.len() as u128 + leaf.len() as u128 > max
        && sat_sub_u128(max, depth.len() as u128 + leaf.len() as u128) <= 3;
    !uses_prefix || root_ok
}

/// Shortens the span key `key` to a label of at most `max_len` characters
/// (for `max_len >= 3`): the common root is shown as the benchmark name, intermediate
/// segments collapse into `/{n}/`, and the root, the leaf or the whole path is truncated
/// with `...` when that is still too long.
pub fn format_flat_path(key: &str, bench_name: &str, max_len: usize) -> (r: String)
    requires
        flat_path_defined(key@, bench_name@, max_len as int),
    ensures
        r@ == flat_path_spec(key@, bench_name@, max_len as int),
{
    let parts = shown_parts_exec(key, bench_name);
    let ghost shown = seqs_of(parts@);
    let n = parts.len();
    let max = max_len as u128;
    if n == 0 {
        return String::new();
    }
    assert(shown[0] == parts@[0]@);
    assert(shown[n - 1] == parts@[n - 1]@);
    let root = &parts[0];
    let leaf = &parts[n - 1];
    if n == 1 {
        if root.len() as u128 > max {
            let t = take_chars(root, sat_sub_u128(max, 3) as usize);
            let r = concat_chars(&t, &dots_chars());
            return string_from_chars(&r);
        } else {
            return string_from_chars(root);
        }
    }
    let full = join_chars(&parts);
    if full.len() as u128 <= max {
        return string_from_chars(&full);
    }
    let depth = depth_marker_chars(n);
    let root_chars = root.len() as u128;
    let leaf_chars = leaf.len() as u128;
    let depth_chars = depth.len() as u128;
    if root_chars + depth_chars + leaf_chars <= max {
        let r = concat_chars(&concat_chars(root, &depth), leaf);
        return string_from_chars(&r);
    }
    let avail_root = sat_sub_u128(max, depth_chars + leaf_chars);
    if avail_root > 3 {
        let t = take_chars(root, (avail_root - 3) as usize);
        let r = concat_chars(&concat_chars(&concat_chars(&t, &dots_chars()), &depth), leaf);
        return string_from_chars(&r);
    }
    let first = take_chars(root, 1);
    let prefix = concat_chars(&first, &dots_chars());
    let prefix_chars = prefix.len() as u128 + depth_chars;
    let avail_leaf = sat_sub_u128(max, prefix_chars);
    if avail_leaf > 3 {
        let t = take_chars(leaf, (avail_leaf - 3) as usize);
        let r = concat_chars(&concat_chars(&concat_chars(&prefix, &depth), &t), &dots_chars());
        return string_from_chars(&r);
    }
    let t = take_chars(&full, sat_sub_u128(max, 3) as usize);
    let r = concat_chars(&t, &dots_chars());
    string_from_chars(&r)
}

} // verus!

//! Sort keys and a stable merge sort of row positions by key.
use vstd::prelude::*;
use crate::utils::text::{compare_chars, text_order};
use vstd::multiset::Multiset;

verus! {

broadcast use vstd::seq_lib::group_to_multiset_ensures;

/// A key that rows can be sorted by: a total preorder with a test.
pub trait SortKey: Sized {
    spec fn key_le(&self, other: &Self) -> bool;

    proof fn key_le_reflexive(a: &Self)
        ensures
            a.key_le(a),
    ;

    proof fn key_le_total(a: &Self, b: &Self)
        ensures
            a.key_le(b) || b.key_le(a),
    ;

    proof fn key_le_transitive(a: &Self, b: &Self, c: &Self)
        requires
            a.key_le(b),
            b.key_le(c),
        ensures
            a.key_le(c),
    ;

    fn le(&self, other: &Self) -> (r: bool)
        ensures
            r == self.key_le(other),
    ;
}

impl SortKey for usize {
    open spec fn key_le(&self, other: &Self) -> bool {
        *self <= *other
    }

    proof fn key_le_reflexive(a: &Self) {
    }

    proof fn key_le_total(a: &Self, b: &Self) {
    }

    proof fn key_le_transitive(a: &Self, b: &Self, c: &Self) {
    }

    fn le(&self, other: &Self) -> (r: bool) {
        *self <= *other
    }
}

/// A text, ordered as `str` orders texts when `ASC` holds and in the
/// reverse order when it does not.
pub struct TextKey<const ASC: bool>(pub Vec<char>);

pub proof fn lemma_text_order_reflexive(a: Seq<char>)
    ensures
        text_order(a, a) == 0,
    decreases a.len(),
{
    if a.len() > 0 {
        lemma_text_order_reflexive(a.drop_first());
    }
}

pub proof fn lemma_text_order_antisymmetric(a: Seq<char>, b: Seq<char>)
    ensures
        text_order(a, b) == -text_order(b, a),
        text_order(a, b) == 0 ==> a == b,
        -1 <= text_order(a, b) <= 1,
    decreases a.len(),
{
    if a.len() > 0 && b.len() > 0 && a[0] == b[0] {
        lemma_text_order_antisymmetric(a.drop_first(), b.drop_first());
        if text_order(a, b) == 0 {
            assert(a =~= seq![a[0]] + a.drop_first());
            assert(b =~= seq![b[0]] + b.drop_first());
        }
    }
    if a.len() == 0 && b.len() == 0 {
        assert(a =~= b);
    }
}

proof fn lemma_text_order_transitive(a: Seq<char>, b: Seq<char>, c: Seq<char>)
    requires
        text_order(a, b) <= 0,
        text_order(b, c) <= 0,
    ensures
        text_order(a, c) <= 0,
    decreases a.len(),
{
    if a.len() > 0 && b.len() > 0 && c.len() > 0 && a[0] == b[0] && b[0] == c[0] {
        lemma_text_order_transitive(a.drop_first(), b.drop_first(), c.drop_first());
    }
}

impl<const ASC: bool> SortKey for TextKey<ASC> {
    open spec fn key_le(&self, other: &Self) -> bool {
        if ASC {
            text_order(self.0@, other.0@) <= 0
        } else {
            text_order(other.0@, self.0@) <= 0
        }
    }

    proof fn key_le_reflexive(a: &Self) {
        lemma_text_order_reflexive(a.0@);
    }

    proof fn key_le_total(a: &Self, b: &Self) {
        lemma_text_order_antisymmetric(a.0@, b.0@);
    }

    proof fn key_le_transitive(a: &Self, b: &Self, c: &Self) {
        if ASC {
            lemma_text_order_transitive(a.0@, b.0@, c.0@);
        } else {
            lemma_text_order_transitive(c.0@, b.0@, a.0@);
        }
    }

    fn le(&self, other: &Self) -> (r: bool) {
        if ASC {
            compare_chars(&self.0, &other.0) <= 0
        } else {
            compare_chars(&other.0, &self.0) <= 0
        }
    }
}

/// A key in the reverse order.
pub struct Desc<K>(pub K);

impl<K: SortKey> SortKey for Desc<K> {
    open spec fn key_le(&self, other: &Self) -> bool {
        other.0.key_le(&self.0)
    }

    proof fn key_le_reflexive(a: &Self) {
        K::key_le_reflexive(&a.0);
    }

    proof fn key_le_total(a: &Self, b: &Self) {
        K::key_le_total(&a.0, &b.0);
    }

    proof fn key_le_transitive(a: &Self, b: &Self, c: &Self) {
        K::key_le_transitive(&c.0, &b.0, &a.0);
    }

    fn le(&self, other: &Self) -> (r: bool) {
        other.0.le(&self.0)
    }
}

/// Two keys, compared by the first and then by the second.
pub struct KeyPair<A, B>(pub A, pub B);

impl<A: SortKey, B: SortKey> SortKey for KeyPair<A, B> {
    open spec fn key_le(&self, other: &Self) -> bool {
        ||| (self.0.key_le(&other.0) && !other.0.key_le(&self.0))
        ||| (self.0.key_le(&other.0) && other.0.key_le(&self.0) && self.1.key_le(&other.1))
    }

    proof fn key_le_reflexive(a: &Self) {
        A::key_le_reflexive(&a.0);
        B::key_le_reflexive(&a.1);
    }

    proof fn key_le_total(a: &Self, b: &Self) {
        A::key_le_total(&a.0, &b.0);
        B::key_le_total(&a.1, &b.1);
    }

    proof fn key_le_transitive(a: &Self, b: &Self, c: &Self) {
        A::key_le_transitive(&a.0, &b.0, &c.0);
        if c.0.key_le(&a.0) {
            A::key_le_transitive(&c.0, &a.0, &b.0);
            A::key_le_transitive(&b.0, &c.0, &a.0);
        }
        if b.0.key_le(&a.0) && c.0.key_le(&b.0) {
            A::key_le_transitive(&c.0, &b.0, &a.0);
            if a.1.key_le(&b.1) && b.1.key_le(&c.1) {
                B::key_le_transitive(&a.1, &b.1, &c.1);
            }
        }
    }

    fn le(&self, other: &Self) -> (r: bool) {
        let ab = self.0.le(&other.0);
        let ba = other.0.le(&self.0);
        (ab && !ba) || (ab && ba && self.1.le(&other.1))
    }
}

/// Position `i` comes no later than position `j` in a stable sort: its key
/// is smaller, or the keys are equal and `i` is not after `j`.
pub open spec fn stable_le<K: SortKey>(keys: Seq<K>, i: usize, j: usize) -> bool {
    &&& keys[i as int].key_le(&keys[j as int])
    &&& (!keys[j as int].key_le(&keys[i as int]) || i <= j)
}

/// The positions are in stable order.
pub open spec fn stably_sorted<K: SortKey>(keys: Seq<K>, s: Seq<usize>) -> bool {
    forall|a: int, b: int| 0 <= a < b < s.len() ==> stable_le(keys, #[trigger] s[a], #[trigger] s[b])
}

/// The positions `lo..hi`.
pub open spec fn positions(lo: int, hi: int) -> Seq<usize> {
    Seq::new((hi - lo) as nat, |k: int| (lo + k) as usize)
}

proof fn lemma_stable_le_total<K: SortKey>(keys: Seq<K>, i: usize, j: usize)
    requires
        i < keys.len(),
        j < keys.len(),
    ensures
        stable_le(keys, i, j) || stable_le(keys, j, i),
{
    K::key_le_total(&keys[i as int], &keys[j as int]);
}

proof fn lemma_stable_le_transitive<K: SortKey>(keys: Seq<K>, i: usize, j: usize, k: usize)
    requires
        i < keys.len(),
        j < keys.len(),
        k < keys.len(),
        stable_le(keys, i, j),
        stable_le(keys, j, k),
    ensures
        stable_le(keys, i, k),
{
    K::key_le_transitive(&keys[i as int], &keys[j as int], &keys[k as int]);
    if keys[k as int].key_le(&keys[i as int]) {
        K::key_le_transitive(&keys[k as int], &keys[i as int], &keys[j as int]);
        K::key_le_transitive(&keys[j as int], &keys[k as int], &keys[i as int]);
    }
}

/// Merges two stably sorted runs of positions.
fn merge<K: SortKey>(keys: &[K], left: Vec<usize>, right: Vec<usize>) -> (out: Vec<usize>)
    requires
        forall|k: int| 0 <= k < left@.len() ==> #[trigger] left@[k] < keys@.len(),
        forall|k: int| 0 <= k < right@.len() ==> #[trigger] right@[k] < keys@.len(),
        stably_sorted(keys@, left@),
        stably_sorted(keys@, right@),
    ensures
        out@.to_multiset() == left@.to_multiset().add(right@.to_multiset()),
        stably_sorted(keys@, out@),
        forall|k: int| 0 <= k < out@.len() ==> #[trigger] out@[k] < keys@.len(),
{
    let mut out: Vec<usize> = Vec::new();
    let mut i: usize = 0;
    let mut j: usize = 0;
    proof {
        vstd::seq_lib::lemma_multiset_commutative(left@.skip(0), right@.skip(0));
        assert(left@.skip(0) =~= left@);
        assert(right@.skip(0) =~= right@);
    }
    while i < left.len() || j < right.len()
        invariant
            i <= left@.len(),
            j <= right@.len(),
            forall|k: int| 0 <= k < left@.len() ==> #[trigger] left@[k] < keys@.len(),
            forall|k: int| 0 <= k < right@.len() ==> #[trigger] right@[k] < keys@.len(),
            forall|k: int| 0 <= k < out@.len() ==> #[trigger] out@[k] < keys@.len(),
            stably_sorted(keys@, left@),
            stably_sorted(keys@, right@),
            stably_sorted(keys@, out@),
            out@.to_multiset().add(left@.skip(i as int).to_multiset()).add(right@.skip(j as int).to_multiset())
                == left@.to_multiset().add(right@.to_multiset()),
            forall|a: int, b: int| 0 <= a < out@.len() && i <= b < left@.len()
                ==> stable_le(keys@, #[trigger] out@[a], #[trigger] left@[b]),
            forall|a: int, b: int| 0 <= a < out@.len() && j <= b < right@.len()
                ==> stable_le(keys@, #[trigger] out@[a], #[trigger] right@[b]),
        decreases left@.len() + right@.len() - i - j,
    {
        let take_left = if i < left.len() && j < right.len() {
            stable_le_exec(keys, left[i], right[j])
        } else {
            i < left.len()
        };
        let ghost before = out@;
        if take_left {
            let x = left[i];
            proof {
                assert(left@.skip(i as int) =~= seq![x] + left@.skip(i + 1));
                vstd::seq_lib::lemma_multiset_commutative(seq![x], left@.skip(i + 1));
                assert forall|b: int| i < b < left@.len() implies stable_le(keys@, x, #[trigger] left@[b]) by {
                }
                assert forall|b: int| j <= b < right@.len() implies stable_le(keys@, x, #[trigger] right@[b]) by {
                    if j < b {
                        lemma_stable_le_transitive(keys@, x, right@[j as int], right@[b]);
                    }
                }
            }
            out.push(x);
            i += 1;
            proof {
                assert(seq![x].to_multiset() =~= Multiset::empty().insert(x));
                assert forall|a: int, b: int| 0 <= a < b < out@.len() implies stable_le(keys@, #[trigger] out@[a], #[trigger] out@[b]) by {
                    if b == out@.len() - 1 {
                        assert(out@[b] == x);
                        assert(before[a] == out@[a]);
                    } else {
                        assert(before[a] == out@[a]);
                        assert(before[b] == out@[b]);
                    }
                }
                assert forall|a: int, b: int| 0 <= a < out@.len() && i <= b < left@.len()
                    implies stable_le(keys@, #[trigger] out@[a], #[trigger] left@[b]) by {
                    if a < before.len() {
                        assert(before[a] == out@[a]);
                    }
                }
                assert forall|a: int, b: int| 0 <= a < out@.len() && j <= b < right@.len()
                    implies stable_le(keys@, #[trigger] out@[a], #[trigger] right@[b]) by {
                    if a < before.len() {
                        assert(before[a] == out@[a]);
                    }
                }
            }
        } else {
            let y = right[j];
            proof {
                assert(right@.skip(j as int) =~= seq![y] + right@.skip(j + 1));
                vstd::seq_lib::lemma_multiset_commutative(seq![y], right@.skip(j + 1));
                if i < left@.len() {
                    lemma_stable_le_total(keys@, left@[i as int], y);
                }
                assert forall|b: int| j < b < right@.len() implies stable_le(keys@, y, #[trigger] right@[b]) by {
                }
                assert forall|b: int| i <= b < left@.len() implies stable_le(keys@, y, #[trigger] left@[b]) by {
                    if i < b {
                        lemma_stable_le_transitive(keys@, y, left@[i as int], left@[b]);
                    }
                }
            }
            out.push(y);
            j += 1;
            proof {
                assert(seq![y].to_multiset() =~= Multiset::empty().insert(y));
                assert forall|a: int, b: int| 0 <= a < b < out@.len() implies stable_le(keys@, #[trigger] out@[a], #[trigger] out@[b]) by {
                    if b == out@.len() - 1 {
                        assert(out@[b] == y);
                        assert(before[a] == out@[a]);
                    } else {
                        assert(before[a] == out@[a]);
                        assert(before[b] == out@[b]);
                    }
                }
                assert forall|a: int, b: int| 0 <= a < out@.len() && i <= b < left@.len()
                    implies stable_le(keys@, #[trigger] out@[a], #[trigger] left@[b]) by {
                    if a < before.len() {
                        assert(before[a] == out@[a]);
                    }
                }
                assert forall|a: int, b: int| 0 <= a < out@.len() && j <= b < right@.len()
                    implies stable_le(keys@, #[trigger] out@[a], #[trigger] right@[b]) by {
                    if a < before.len() {
                        assert(before[a] == out@[a]);
                    }
                }
            }
        }
    }
    proof {
        assert(left@.skip(i as int) =~= Seq::<usize>::empty());
        assert(right@.skip(j as int) =~= Seq::<usize>::empty());
    }
    out
}

fn stable_le_exec<K: SortKey>(keys: &[K], i: usize, j: usize) -> (r: bool)
    requires
        i < keys@.len(),
        j < keys@.len(),
    ensures
        r == stable_le(keys@, i, j),
{
    let a = &keys[i];
    let b = &keys[j];
    a.le(b) && (!b.le(a) || i <= j)
}

/// The positions `lo..hi`, stably sorted by their keys.
fn sort_range<K: SortKey>(keys: &[K], lo: usize, hi: usize) -> (out: Vec<usize>)
    requires
        lo <= hi <= keys@.len(),
    ensures
        out@.to_multiset() == positions(lo as int, hi as int).to_multiset(),
        stably_sorted(keys@, out@),
        forall|k: int| 0 <= k < out@.len() ==> #[trigger] out@[k] < keys@.len(),
    decreases hi - lo,
{
    if hi - lo <= 1 {
        let mut out: Vec<usize> = Vec::new();
        if hi - lo == 1 {
            out.push(lo);
        }
        assert(out@ =~= positions(lo as int, hi as int));
        return out;
    }
    let mid = lo + (hi - lo) / 2;
    let left = sort_range(keys, lo, mid);
    let right = sort_range(keys, mid, hi);
    proof {
        assert(positions(lo as int, hi as int) =~= positions(lo as int, mid as int) + positions(mid as int, hi as int));
        vstd::seq_lib::lemma_multiset_commutative(positions(lo as int, mid as int), positions(mid as int, hi as int));
    }
    merge(keys, left, right)
}

/// The positions of the keys in stable order: by key, and keys that are
/// equal in the order they come in.
pub fn stable_sort_positions<K: SortKey>(keys: &[K]) -> (out: Vec<usize>)
    ensures
        out@.to_multiset() == positions(0, keys@.len() as int).to_multiset(),
        stably_sorted(keys@, out@),
        forall|k: int| 0 <= k < out@.len() ==> #[trigger] out@[k] < keys@.len(),
{
    sort_range(keys, 0, keys.len())
}

/// A sort order holds each position below `n` exactly once: no position
/// twice, and every position somewhere.
pub proof fn order_is_permutation(s: Seq<usize>, n: int)
    requires
        0 <= n <= usize::MAX,
        s.to_multiset() == positions(0, n).to_multiset(),
    ensures
        s.len() == n,
        s.no_duplicates(),
        forall|k: usize| k < n ==> #[trigger] s.contains(k),
{
    let p = positions(0, n);
    assert forall|i: int, j: int| 0 <= i < p.len() && 0 <= j < p.len() && i != j implies p[i] != p[j] by {
        assert(p[i] == i as usize);
        assert(p[j] == j as usize);
    }
    assert(p.no_duplicates());
    p.lemma_multiset_has_no_duplicates();
    s.lemma_multiset_has_no_duplicates_conv();
    assert forall|k: usize| k < n implies #[trigger] s.contains(k) by {
        assert(p[k as int] == k);
        assert(p.contains(k));
        assert(p.to_multiset().count(k) > 0);
        assert(s.to_multiset().count(k) > 0);
    }
    assert(s.to_multiset().len() == s.len());
    assert(p.to_multiset().len() == p.len());
}

} // verus!

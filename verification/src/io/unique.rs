//! Dropping duplicate rows: keeping the first or the last row of each key,
//! where the key is the whole row or the selected columns.
use vstd::prelude::*;
use std::collections::{HashMap, HashSet};
use crate::utils::column::{Columns, joined};
use crate::utils::text::{split_str, split_text};

verus! {

#[verifier::external_type_specification]
#[verifier::external_body]
pub struct ExAHashRandomState(ahash::RandomState);

/// The keys that an `ahash` set of strings holds.
pub uninterp spec fn key_set(s: HashSet<String, ahash::RandomState>) -> Set<Seq<char>>;

/// The count that an `ahash` map from strings holds for each key.
pub uninterp spec fn key_counts(m: HashMap<String, usize, ahash::RandomState>) -> Map<Seq<char>, usize>;

/// `ahash::HashSet::default()`: an empty set.
#[verifier::external_body]
pub(crate) fn new_key_set() -> (s: HashSet<String, ahash::RandomState>)
    ensures
        key_set(s) == Set::<Seq<char>>::empty(),
{
    ahash::HashSet::default()
}

/// `HashSet::contains`: whether the set holds `k`.
#[verifier::external_body]
pub(crate) fn key_set_contains(s: &HashSet<String, ahash::RandomState>, k: &str) -> (b: bool)
    ensures
        b == key_set(*s).contains(k@),
{
    s.contains(k)
}

/// `HashSet::insert`: the set then holds `k` too.
#[verifier::external_body]
pub(crate) fn key_set_insert(s: &mut HashSet<String, ahash::RandomState>, k: String)
    ensures
        key_set(*final(s)) == key_set(*old(s)).insert(k@),
{
    s.insert(k);
}

/// `HashSet::len`: the number of keys in the set.
#[verifier::external_body]
pub(crate) fn key_set_len(s: &HashSet<String, ahash::RandomState>) -> (n: usize)
    ensures
        n == key_set(*s).len(),
{
    s.len()
}

/// `HashSet::iter`, each key copied: every key of the set, once each, in an
/// order that the source leaves open.
#[verifier::external_body]
pub(crate) fn key_set_items(s: &HashSet<String, ahash::RandomState>) -> (v: Vec<String>)
    ensures
        forall|i: int| 0 <= i < v@.len() ==> key_set(*s).contains(#[trigger] v@[i]@),
        forall|k: Seq<char>| key_set(*s).contains(k) ==> exists|i: int| 0 <= i < v@.len() && #[trigger] v@[i]@ == k,
{
    s.iter().cloned().collect()
}

/// No key has a count.
pub open spec fn no_counts() -> Map<Seq<char>, usize> {
    Map::empty()
}

/// `ahash::HashMap::default()`: an empty map.
#[verifier::external_body]
fn new_key_counts() -> (m: HashMap<String, usize, ahash::RandomState>)
    ensures
        key_counts(m) == no_counts(),
{
    ahash::HashMap::default()
}

/// `HashMap::get`: the count of `k`, if the map holds one.
#[verifier::external_body]
fn key_count_of(m: &HashMap<String, usize, ahash::RandomState>, k: &str) -> (n: Option<usize>)
    ensures
        n == if key_counts(*m).dom().contains(k@) { Some(key_counts(*m)[k@]) } else { None },
{
    m.get(k).copied()
}

/// `HashMap::insert`: the map then holds `n` for `k`.
#[verifier::external_body]
fn key_count_set(m: &mut HashMap<String, usize, ahash::RandomState>, k: String, n: usize)
    ensures
        key_counts(*final(m)) == key_counts(*old(m)).insert(k@, n),
{
    m.insert(k, n);
}

/// The number of times `k` occurs in `s`.
pub open spec fn occurrences(s: Seq<Seq<char>>, k: Seq<char>) -> nat
    decreases s.len(),
{
    if s.len() == 0 {
        0
    } else {
        occurrences(s.drop_last(), k) + if s.last() == k { 1nat } else { 0nat }
    }
}

/// The positions of the rows whose key does not occur before them.
pub open spec fn first_kept(keys: Seq<Seq<char>>) -> Seq<usize>
    decreases keys.len(),
{
    if keys.len() == 0 {
        seq![]
    } else {
        let r = first_kept(keys.drop_last());
        if keys.drop_last().contains(keys.last()) { r } else { r.push((keys.len() - 1) as usize) }
    }
}

/// The positions from `i` on of the rows whose key does not occur after
/// them.
pub open spec fn last_kept_from(keys: Seq<Seq<char>>, i: int) -> Seq<usize>
    decreases keys.len() - i,
{
    if i < 0 || i >= keys.len() {
        seq![]
    } else {
        let rest = last_kept_from(keys, i + 1);
        if keys.skip(i + 1).contains(keys[i]) { rest } else { seq![i as usize] + rest }
    }
}

/// The positions of the rows whose key does not occur after them.
pub open spec fn last_kept(keys: Seq<Seq<char>>) -> Seq<usize> {
    last_kept_from(keys, 0)
}

/// The key of a row: its selected fields, split at `sep`, joined with
/// commas.
pub open spec fn partial_key(row: Seq<char>, cols: Seq<usize>, sep: Seq<char>) -> Seq<char> {
    joined(split_text(row, sep), cols)
}

proof fn lemma_occurrences_front(x: Seq<char>, t: Seq<Seq<char>>, k: Seq<char>)
    ensures
        occurrences(seq![x] + t, k) == occurrences(t, k) + if x == k { 1nat } else { 0nat },
    decreases t.len(),
{
    let s = seq![x] + t;
    if t.len() == 0 {
        assert(s.drop_last() =~= Seq::<Seq<char>>::empty());
        assert(s.last() == x);
        assert(occurrences(Seq::<Seq<char>>::empty(), k) == 0);
    } else {
        assert(s.drop_last() =~= seq![x] + t.drop_last());
        assert(s.last() == t.last());
        lemma_occurrences_front(x, t.drop_last(), k);
    }
}

proof fn lemma_occurrences_contains(s: Seq<Seq<char>>, k: Seq<char>)
    ensures
        (occurrences(s, k) > 0) == s.contains(k),
    decreases s.len(),
{
    if s.len() > 0 {
        lemma_occurrences_contains(s.drop_last(), k);
        if s.drop_last().contains(k) {
            let j = choose|j: int| 0 <= j < s.drop_last().len() && s.drop_last()[j] == k;
            assert(s[j] == k);
        }
        if s.contains(k) {
            let j = choose|j: int| 0 <= j < s.len() && s[j] == k;
            if j < s.len() - 1 {
                assert(s.drop_last()[j] == k);
            }
        }
    }
}

/// The positions of the rows whose key does not occur before them.
pub fn first_occurrences(keys: &[String]) -> (kept: Vec<usize>)
    ensures
        kept@ == first_kept(keys@.map_values(|k: String| k@)),
{
    let ghost all = keys@.map_values(|k: String| k@);
    let mut seen = new_key_set();
    let mut kept: Vec<usize> = Vec::new();
    let mut i: usize = 0;
    while i < keys.len()
        invariant
            i <= keys@.len(),
            all == keys@.map_values(|k: String| k@),
            forall|k: Seq<char>| #[trigger] key_set(seen).contains(k) == all.take(i as int).contains(k),
            kept@ == first_kept(all.take(i as int)),
        decreases keys@.len() - i,
    {
        let k = &keys[i];
        let ghost t = all.take(i + 1);
        assert(t.drop_last() =~= all.take(i as int));
        assert(t.last() == k@);
        if !key_set_contains(&seen, k.as_str()) {
            kept.push(i);
            key_set_insert(&mut seen, k.clone());
        }
        i += 1;
        assert forall|x: Seq<char>| #[trigger] key_set(seen).contains(x) == t.contains(x) by {
            if t.contains(x) {
                let j = choose|j: int| 0 <= j < t.len() && t[j] == x;
                if j < i - 1 {
                    assert(t.drop_last()[j] == x);
                }
            }
            if t.drop_last().contains(x) {
                let j = choose|j: int| 0 <= j < t.drop_last().len() && t.drop_last()[j] == x;
                assert(t[j] == x);
            }
        }
    }
    assert(all.take(keys@.len() as int) =~= all);
    kept
}

/// The positions of the rows whose key does not occur after them.
pub fn last_occurrences(keys: &[String]) -> (kept: Vec<usize>)
    requires
        keys@.len() < usize::MAX,
    ensures
        kept@ == last_kept(keys@.map_values(|k: String| k@)),
{
    let ghost all = keys@.map_values(|k: String| k@);
    let mut counts = new_key_counts();
    let mut i: usize = 0;
    // first scan: count each key
    while i < keys.len()
        invariant
            i <= keys@.len() < usize::MAX,
            all == keys@.map_values(|k: String| k@),
            forall|k: Seq<char>| #[trigger] key_counts(counts).dom().contains(k) ==> key_counts(counts)[k] == occurrences(all.take(i as int), k),
            forall|k: Seq<char>| !(#[trigger] key_counts(counts).dom().contains(k)) ==> occurrences(all.take(i as int), k) == 0,
            forall|k: Seq<char>| occurrences(all.take(i as int), k) <= i,
        decreases keys@.len() - i,
    {
        let k = &keys[i];
        let ghost t = all.take(i + 1);
        assert(t.drop_last() =~= all.take(i as int));
        assert(t.last() == k@);
        let n = key_count_of(&counts, k.as_str()).unwrap_or(0);
        let ghost old_counts = key_counts(counts);
        proof {
            assert(occurrences(all.take(i as int), k@) <= i);
        }
        key_count_set(&mut counts, k.clone(), n + 1);
        proof {
            assert forall|x: Seq<char>| occurrences(t, x)
                == occurrences(all.take(i as int), x) + if t.last() == x { 1nat } else { 0nat } by {
            }
        }
        i += 1;
        assert(all.take(i as int) == t);
    }
    assert(all.take(keys@.len() as int) =~= all);
    // second scan: a row is kept when no later row has its key
    let mut kept: Vec<usize> = Vec::new();
    let mut i: usize = 0;
    assert(all.skip(0) =~= all);
    while i < keys.len()
        invariant
            i <= keys@.len(),
            all == keys@.map_values(|k: String| k@),
            forall|k: Seq<char>| occurrences(all.skip(i as int), k) > 0 ==>
                #[trigger] key_counts(counts).dom().contains(k) && key_counts(counts)[k] == occurrences(all.skip(i as int), k),
            kept@ + last_kept_from(all, i as int) == last_kept(all),
        decreases keys@.len() - i,
    {
        let k = &keys[i];
        let ghost s = all.skip(i as int);
        assert(s =~= seq![k@] + all.skip(i + 1));
        proof {
            assert forall|x: Seq<char>| occurrences(s, x) == occurrences(all.skip(i + 1), x) + if k@ == x { 1nat } else { 0nat } by {
                lemma_occurrences_front(k@, all.skip(i + 1), x);
            }
            lemma_occurrences_contains(all.skip(i + 1), k@);
        }
        let n = key_count_of(&counts, k.as_str()).unwrap_or(0);
        let ghost before = kept@;
        let ghost old_counts = key_counts(counts);
        proof {
            assert(occurrences(s, k@) > 0);
            assert(old_counts.dom().contains(k@));
        }
        if n == 1 {
            kept.push(i);
            assert(before + last_kept_from(all, i as int) =~= kept@ + last_kept_from(all, i + 1));
        } else {
            key_count_set(&mut counts, k.clone(), n - 1);
        }
        proof {
            assert forall|x: Seq<char>| occurrences(all.skip(i + 1), x) > 0 implies
                #[trigger] key_counts(counts).dom().contains(x)
                    && key_counts(counts)[x] == occurrences(all.skip(i + 1), x) by {
                assert(occurrences(s, x) > 0);
                assert(old_counts.dom().contains(x));
            }
        }
        i += 1;
    }
    assert(last_kept_from(all, i as int) =~= Seq::<usize>::empty());
    assert(kept@ =~= kept@ + Seq::<usize>::empty());
    kept
}

/// The key of each row: its selected fields, split at `sep`, joined with
/// commas.
pub fn partial_keys(rdr: &[String], cols: &Columns, sep: &str) -> (keys: Vec<String>)
    requires
        forall|i: int, k: int| 0 <= i < rdr@.len() && 0 <= k < cols.selected().len()
            ==> #[trigger] cols.selected()[k] < split_text(#[trigger] rdr@[i]@, sep@).len(),
    ensures
        keys@.len() == rdr@.len(),
        forall|i: int| 0 <= i < rdr@.len() ==> #[trigger] keys@[i]@ == partial_key(rdr@[i]@, cols.selected(), sep@),
{
    let mut keys: Vec<String> = Vec::new();
    let mut i: usize = 0;
    while i < rdr.len()
        invariant
            i <= rdr@.len(),
            keys@.len() == i,
            forall|r: int, k: int| 0 <= r < rdr@.len() && 0 <= k < cols.selected().len()
                ==> #[trigger] cols.selected()[k] < split_text(#[trigger] rdr@[r]@, sep@).len(),
            forall|j: int| 0 <= j < i ==> #[trigger] keys@[j]@ == partial_key(rdr@[j]@, cols.selected(), sep@),
        decreases rdr@.len() - i,
    {
        let segs = split_str(rdr[i].as_str(), sep);
        let refs = crate::utils::text::as_strs(&segs);
        assert forall|k: int| 0 <= k < cols.selected().len() implies #[trigger] cols.selected()[k] < refs@.len() by {
            assert(cols.selected()[k] < split_text(rdr@[i as int]@, sep@).len());
        }
        let key = cols.select_owned_string(refs.as_slice());
        assert(refs@.map_values(|x: &str| x@) =~= split_text(rdr@[i as int]@, sep@));
        keys.push(key);
        i += 1;
    }
    keys
}

/// The rows to keep when the first row of each whole row is kept.
pub fn keep_first_and_all_cols(rdr: &[String]) -> (kept: Vec<usize>)
    ensures
        kept@ == first_kept(rdr@.map_values(|r: String| r@)),
{
    first_occurrences(rdr)
}

/// The rows to keep when the first row of each key of selected columns is
/// kept.
pub fn keep_first_and_partial_cols(rdr: &[String], cols: &Columns, sep: &str) -> (kept: Vec<usize>)
    requires
        forall|i: int, k: int| 0 <= i < rdr@.len() && 0 <= k < cols.selected().len()
            ==> #[trigger] cols.selected()[k] < split_text(#[trigger] rdr@[i]@, sep@).len(),
    ensures
        kept@ == first_kept(Seq::new(rdr@.len(), |i: int| partial_key(rdr@[i]@, cols.selected(), sep@))),
{
    let keys = partial_keys(rdr, cols, sep);
    assert(keys@.map_values(|k: String| k@)
        =~= Seq::new(rdr@.len(), |i: int| partial_key(rdr@[i]@, cols.selected(), sep@)));
    first_occurrences(keys.as_slice())
}

/// The rows to keep when the last row of each whole row is kept.
pub fn keep_last_and_all_cols(rdr: &[String]) -> (kept: Vec<usize>)
    requires
        rdr@.len() < usize::MAX,
    ensures
        kept@ == last_kept(rdr@.map_values(|r: String| r@)),
{
    last_occurrences(rdr)
}

/// The rows to keep when the last row of each key of selected columns is
/// kept.
pub fn keep_last_and_partial_cols(rdr: &[String], cols: &Columns, sep: &str) -> (kept: Vec<usize>)
    requires
        rdr@.len() < usize::MAX,
        forall|i: int, k: int| 0 <= i < rdr@.len() && 0 <= k < cols.selected().len()
            ==> #[trigger] cols.selected()[k] < split_text(#[trigger] rdr@[i]@, sep@).len(),
    ensures
        kept@ == last_kept(Seq::new(rdr@.len(), |i: int| partial_key(rdr@[i]@, cols.selected(), sep@))),
{
    let keys = partial_keys(rdr, cols, sep);
    assert(keys@.map_values(|k: String| k@)
        =~= Seq::new(rdr@.len(), |i: int| partial_key(rdr@[i]@, cols.selected(), sep@)));
    last_occurrences(keys.as_slice())
}

/// The positions are in increasing order.
pub open spec fn increasing(s: Seq<usize>) -> bool {
    forall|a: int, b: int| 0 <= a < b < s.len() ==> #[trigger] s[a] < #[trigger] s[b]
}

/// The keys of the kept rows.
pub open spec fn kept_keys(keys: Seq<Seq<char>>, kept: Seq<usize>) -> Seq<Seq<char>> {
    kept.map_values(|k: usize| keys[k as int])
}

/// Row `k` is where its key occurs first.
pub open spec fn first_of_key(keys: Seq<Seq<char>>, k: usize) -> bool {
    k < keys.len() && !keys.take(k as int).contains(keys[k as int])
}

/// Row `k` is where its key occurs last.
pub open spec fn last_of_key(keys: Seq<Seq<char>>, k: usize) -> bool {
    k < keys.len() && !keys.skip(k + 1).contains(keys[k as int])
}

/// Every key occurs among the kept rows.
pub open spec fn keeps_every_key(keys: Seq<Seq<char>>, kept: Seq<usize>) -> bool {
    forall|i: int| 0 <= i < keys.len() ==> #[trigger] kept_keys(keys, kept).contains(keys[i])
}

/// Keeping the first row of each key keeps, in order, exactly the rows where
/// a key occurs first, and so one row per distinct key.
pub proof fn first_kept_is_each_key_once(keys: Seq<Seq<char>>)
    requires
        keys.len() <= usize::MAX,
    ensures
        increasing(first_kept(keys)),
        forall|a: int| 0 <= a < first_kept(keys).len() ==> first_of_key(keys, #[trigger] first_kept(keys)[a]),
        keeps_every_key(keys, first_kept(keys)),
    decreases keys.len(),
{
    if keys.len() > 0 {
        let k2 = keys.drop_last();
        first_kept_is_each_key_once(k2);
        let r = first_kept(k2);
        let fk = first_kept(keys);
        let n = keys.len() - 1;
        assert forall|a: int| 0 <= a < r.len() implies first_of_key(keys, #[trigger] r[a]) by {
            assert(first_of_key(k2, r[a]));
            assert(keys.take(r[a] as int) =~= k2.take(r[a] as int));
        }
        if !k2.contains(keys.last()) {
            assert(keys.take(n) =~= k2);
            assert(fk =~= r.push(n as usize));
        }
        assert forall|i: int| 0 <= i < keys.len() implies #[trigger] kept_keys(keys, fk).contains(keys[i]) by {
            let x = keys[i];
            if i < n {
                assert(k2[i] == x);
                assert(kept_keys(k2, r).contains(k2[i]));
            } else if k2.contains(x) {
                let j = choose|j: int| 0 <= j < k2.len() && k2[j] == x;
                assert(kept_keys(k2, r).contains(k2[j]));
            }
            if i < n || k2.contains(x) {
                let a = choose|a: int| 0 <= a < kept_keys(k2, r).len() && kept_keys(k2, r)[a] == x;
                assert(r[a] < k2.len());
                assert(fk[a] == r[a]);
                assert(kept_keys(keys, fk)[a] == x);
            } else {
                assert(kept_keys(keys, fk)[r.len() as int] == x);
            }
        }
    }
}

proof fn lemma_last_kept_from(keys: Seq<Seq<char>>, i: int)
    requires
        0 <= i <= keys.len(),
        keys.len() <= usize::MAX,
    ensures
        increasing(last_kept_from(keys, i)),
        forall|a: int| 0 <= a < last_kept_from(keys, i).len() ==> i <= #[trigger] last_kept_from(keys, i)[a]
            && last_of_key(keys, last_kept_from(keys, i)[a]),
        forall|j: int| i <= j < keys.len() ==> #[trigger] kept_keys(keys, last_kept_from(keys, i)).contains(keys[j]),
    decreases keys.len() - i,
{
    if i < keys.len() {
        lemma_last_kept_from(keys, i + 1);
        let rest = last_kept_from(keys, i + 1);
        let lk = last_kept_from(keys, i);
        if keys.skip(i + 1).contains(keys[i]) {
            let m = choose|m: int| 0 <= m < keys.skip(i + 1).len() && #[trigger] keys.skip(i + 1)[m] == keys[i];
            assert(keys[i + 1 + m] == keys[i]);
            assert(kept_keys(keys, rest).contains(keys[i + 1 + m]));
        } else {
            assert(lk =~= seq![i as usize] + rest);
            assert(kept_keys(keys, lk) =~= seq![keys[i]] + kept_keys(keys, rest));
            assert forall|j: int| i <= j < keys.len() implies #[trigger] kept_keys(keys, lk).contains(keys[j]) by {
                if j == i {
                    assert(kept_keys(keys, lk)[0] == keys[i]);
                } else {
                    assert(kept_keys(keys, rest).contains(keys[j]));
                    let a = choose|a: int| 0 <= a < kept_keys(keys, rest).len() && kept_keys(keys, rest)[a] == keys[j];
                    assert(kept_keys(keys, lk)[a + 1] == keys[j]);
                }
            }
        }
    }
}

/// Keeping the last row of each key keeps, in order, exactly the rows where
/// a key occurs last, and so one row per distinct key.
pub proof fn last_kept_is_each_key_once(keys: Seq<Seq<char>>)
    requires
        keys.len() <= usize::MAX,
    ensures
        increasing(last_kept(keys)),
        forall|a: int| 0 <= a < last_kept(keys).len() ==> last_of_key(keys, #[trigger] last_kept(keys)[a]),
        keeps_every_key(keys, last_kept(keys)),
{
    lemma_last_kept_from(keys, 0);
}

/// Kept rows whose keys differ and cover every key are as many as the
/// distinct keys.
proof fn lemma_kept_count(keys: Seq<Seq<char>>, kept: Seq<usize>)
    requires
        forall|a: int| 0 <= a < kept.len() ==> (#[trigger] kept[a]) < keys.len(),
        kept_keys(keys, kept).no_duplicates(),
        keeps_every_key(keys, kept),
    ensures
        kept.len() == keys.to_set().len(),
{
    let s = kept_keys(keys, kept);
    s.unique_seq_to_set();
    assert forall|x: Seq<char>| s.to_set().contains(x) == keys.to_set().contains(x) by {
        if s.contains(x) {
            let a = choose|a: int| 0 <= a < s.len() && s[a] == x;
            assert(keys[kept[a] as int] == x);
        }
        if keys.contains(x) {
            let i = choose|i: int| 0 <= i < keys.len() && keys[i] == x;
            assert(s.contains(keys[i]));
        }
    }
    assert(s.to_set() =~= keys.to_set());
}

/// Keeping the first or the last row of each key keeps as many rows: one
/// per distinct key.
pub proof fn first_and_last_keep_as_many(keys: Seq<Seq<char>>)
    requires
        keys.len() <= usize::MAX,
    ensures
        first_kept(keys).len() == last_kept(keys).len(),
        first_kept(keys).len() == keys.to_set().len(),
{
    first_kept_is_each_key_once(keys);
    last_kept_is_each_key_once(keys);
    let fk = first_kept(keys);
    let lk = last_kept(keys);
    assert forall|a: int, b: int| 0 <= a < kept_keys(keys, fk).len() && 0 <= b < kept_keys(keys, fk).len() && a != b
        implies kept_keys(keys, fk)[a] != kept_keys(keys, fk)[b] by {
        let (x, y) = if a < b { (a, b) } else { (b, a) };
        assert(fk[x] < fk[y]);
        assert(first_of_key(keys, fk[y]));
        assert(keys.take(fk[y] as int)[fk[x] as int] == keys[fk[x] as int]);
    }
    assert forall|a: int, b: int| 0 <= a < kept_keys(keys, lk).len() && 0 <= b < kept_keys(keys, lk).len() && a != b
        implies kept_keys(keys, lk)[a] != kept_keys(keys, lk)[b] by {
        let (x, y) = if a < b { (a, b) } else { (b, a) };
        assert(lk[x] < lk[y]);
        assert(last_of_key(keys, lk[x]));
        assert(keys.skip(lk[x] + 1)[lk[y] - lk[x] - 1] == keys[lk[y] as int]);
    }
    assert forall|a: int| 0 <= a < fk.len() implies (#[trigger] fk[a]) < keys.len() by {
        assert(first_of_key(keys, fk[a]));
    }
    assert forall|a: int| 0 <= a < lk.len() implies (#[trigger] lk[a]) < keys.len() by {
        assert(last_of_key(keys, lk[a]));
    }
    lemma_kept_count(keys, fk);
    lemma_kept_count(keys, lk);
}

} // verus!

//! Frequency tables: how often each key of selected columns occurs, the
//! most (or least) frequent first.
use vstd::prelude::*;
use dashmap::DashMap;
use crate::io::unique::{no_counts, occurrences};
use crate::utils::column::{Columns, joined};
use crate::utils::ordering::{Desc, order_is_permutation, positions, stable_sort_positions};
use crate::utils::text::as_strs;

verus! {

#[verifier::external_type_specification]
#[verifier::external_body]
#[verifier::reject_recursive_types(K)]
#[verifier::reject_recursive_types(V)]
#[verifier::reject_recursive_types(S)]
pub struct ExDashMap<K, V, S>(DashMap<K, V, S>);

/// The count that a `DashMap` from strings holds for each key.
pub uninterp spec fn tallies(m: DashMap<String, usize>) -> Map<Seq<char>, usize>;

/// `DashMap::new()`: an empty map.
#[verifier::external_body]
fn new_tallies() -> (m: DashMap<String, usize>)
    ensures
        tallies(m) == no_counts(),
{
    DashMap::new()
}

/// `DashMap::get`: the count held for `k`, if any.
#[verifier::external_body]
fn tally_of(m: &DashMap<String, usize>, k: &str) -> (n: Option<usize>)
    ensures
        n == if tallies(*m).dom().contains(k@) { Some(tallies(*m)[k@]) } else { None::<usize> },
{
    m.get(k).map(|r| *r)
}

/// `DashMap::insert`: the map then holds `n` for `k`.
#[verifier::external_body]
fn set_tally(m: &mut DashMap<String, usize>, k: String, n: usize)
    ensures
        tallies(*final(m)) == tallies(*old(m)).insert(k@, n),
{
    m.insert(k, n);
}

/// `DashMap::into_iter().collect()`: every key of the map with its count,
/// each once; the order is that of the map's shards and hashing, which the
/// source leaves open.
#[verifier::external_body]
fn tally_pairs(m: DashMap<String, usize>) -> (v: Vec<(String, usize)>)
    ensures
        forall|i: int| 0 <= i < v@.len() ==> tallies(m).dom().contains(#[trigger] v@[i].0@)
            && tallies(m)[v@[i].0@] == v@[i].1,
        forall|i: int, j: int| 0 <= i < j < v@.len() ==> (#[trigger] v@[i]).0@ != (#[trigger] v@[j]).0@,
        forall|k: Seq<char>| tallies(m).dom().contains(k) ==> #[trigger] table_keys(v@).contains(k),
{
    m.into_iter().collect()
}

/// The keys of a frequency table.
pub open spec fn table_keys(t: Seq<(String, usize)>) -> Seq<Seq<char>> {
    t.map_values(|p: (String, usize)| p.0@)
}

/// The rows, each split into fields, as texts.
pub open spec fn rows_text(rows: Seq<Vec<String>>) -> Seq<Seq<Seq<char>>> {
    rows.map_values(|r: Vec<String>| r@.map_values(|x: String| x@))
}

/// The keys that are counted: for each row with more than `max` fields, its
/// fields `cols` joined with commas. Shorter rows are left out.
pub open spec fn counted_keys(rows: Seq<Seq<Seq<char>>>, cols: Seq<usize>, max: usize) -> Seq<Seq<char>>
    decreases rows.len(),
{
    if rows.len() == 0 {
        seq![]
    } else {
        let ks = counted_keys(rows.drop_last(), cols, max);
        if max < rows.last().len() {
            ks.push(joined(rows.last(), cols))
        } else {
            ks
        }
    }
}

proof fn lemma_occurrences_bound(s: Seq<Seq<char>>, k: Seq<char>)
    ensures
        occurrences(s, k) <= s.len(),
    decreases s.len(),
{
    if s.len() > 0 {
        lemma_occurrences_bound(s.drop_last(), k);
    }
}

proof fn lemma_counted_keys_len(rows: Seq<Seq<Seq<char>>>, cols: Seq<usize>, max: usize)
    ensures
        counted_keys(rows, cols, max).len() <= rows.len(),
    decreases rows.len(),
{
    if rows.len() > 0 {
        lemma_counted_keys_len(rows.drop_last(), cols, max);
    }
}

/// The count of each key of the rows that hold every selected column.
fn count_keys(col: &Columns, rows: &Vec<Vec<String>>) -> (m: DashMap<String, usize>)
    requires
        forall|k: int| 0 <= k < col.selected().len() ==> #[trigger] col.selected()[k] <= col.max_col(),
    ensures
        forall|k: Seq<char>| #[trigger] tallies(m).dom().contains(k)
            == (occurrences(counted_keys(rows_text(rows@), col.selected(), col.max_col()), k) > 0),
        forall|k: Seq<char>| #[trigger] tallies(m).dom().contains(k)
            ==> tallies(m)[k] == occurrences(counted_keys(rows_text(rows@), col.selected(), col.max_col()), k),
{
    let ghost rv = rows_text(rows@);
    let ghost sel = col.selected();
    let ghost max = col.max_col();
    let mut m = new_tallies();
    let mut i: usize = 0;
    while i < rows.len()
        invariant
            i <= rows@.len(),
            rv == rows_text(rows@),
            sel == col.selected(),
            max == col.max_col(),
            forall|k: int| 0 <= k < sel.len() ==> #[trigger] sel[k] <= max,
            forall|k: Seq<char>| #[trigger] tallies(m).dom().contains(k)
                == (occurrences(counted_keys(rv.take(i as int), sel, max), k) > 0),
            forall|k: Seq<char>| #[trigger] tallies(m).dom().contains(k)
                ==> tallies(m)[k] == occurrences(counted_keys(rv.take(i as int), sel, max), k),
        decreases rows@.len() - i,
    {
        let ghost before = counted_keys(rv.take(i as int), sel, max);
        proof {
            assert(rv.take(i as int + 1).drop_last() =~= rv.take(i as int));
            lemma_counted_keys_len(rv.take(i as int), sel, max);
        }
        let row = &rows[i];
        if col.max < row.len() {
            let fields = as_strs(row);
            proof {
                assert(fields@.map_values(|x: &str| x@) =~= rv[i as int]);
            }
            let key = col.select_owned_string(fields.as_slice());
            let ghost after = before.push(key@);
            proof {
                assert(after.drop_last() =~= before);
                assert forall|k: Seq<char>| occurrences(after, k)
                    == occurrences(before, k) + if k == key@ { 1nat } else { 0nat } by {
                }
                lemma_occurrences_bound(before, key@);
            }
            let c = match tally_of(&m, key.as_str()) {
                Some(c) => c,
                None => 0,
            };
            set_tally(&mut m, key, c + 1);
            assert(counted_keys(rv.take(i as int + 1), sel, max) == after);
        } else {
            assert(counted_keys(rv.take(i as int + 1), sel, max) == before);
        }
        i += 1;
    }
    assert(rv.take(rows@.len() as int) =~= rv);
    m
}

/// The positions of the counts, sorted by count in the given direction,
/// equal counts keeping their order.
fn order_by_count(cs: &Vec<usize>, ascending: bool) -> (out: Vec<usize>)
    ensures
        out@.len() == cs@.len(),
        out@.no_duplicates(),
        forall|k: usize| k < cs@.len() ==> #[trigger] out@.contains(k),
        forall|a: int| 0 <= a < out@.len() ==> #[trigger] out@[a] < cs@.len(),
        forall|a: int, b: int| 0 <= a < b < out@.len() ==> if ascending {
            cs@[(#[trigger] out@[a]) as int] <= cs@[(#[trigger] out@[b]) as int]
        } else {
            cs@[out@[b] as int] <= cs@[out@[a] as int]
        },
{
    let len = cs.len();
    if ascending {
        let out = stable_sort_positions(cs.as_slice());
        proof {
            order_is_permutation(out@, cs@.len() as int);
        }
        out
    } else {
        let mut keys: Vec<Desc<usize>> = Vec::new();
        let mut i: usize = 0;
        while i < cs.len()
            invariant
                i <= cs@.len(),
                keys@.len() == i,
                forall|k: int| 0 <= k < i ==> (#[trigger] keys@[k]).0 == cs@[k],
            decreases cs@.len() - i,
        {
            keys.push(Desc(cs[i]));
            i += 1;
        }
        let out = stable_sort_positions(keys.as_slice());
        proof {
            order_is_permutation(out@, cs@.len() as int);
            assert forall|a: int, b: int| 0 <= a < b < out@.len() implies
                cs@[out@[b] as int] <= cs@[out@[a] as int] by {
                assert(crate::utils::ordering::stable_le(keys@, out@[a], out@[b]));
            }
        }
        out
    }
}

/// The frequency table of the rows: each key of the selected columns with
/// the number of rows that have it, ordered by that number (ascending or
/// descending), and only the first `n` when `n` is positive. Rows that do
/// not hold every selected column are left out. Keys with equal counts come
/// in an order that the hash map leaves open.
pub fn frequency_table(col: &Columns, rows: &Vec<Vec<String>>, ascending: bool, n: i32) -> (r: Vec<(String, usize)>)
    requires
        forall|k: int| 0 <= k < col.selected().len() ==> #[trigger] col.selected()[k] <= col.max_col(),
    ensures
        ({
            let ks = counted_keys(rows_text(rows@), col.selected(), col.max_col());
            &&& n > 0 ==> r@.len() <= n
            &&& forall|i: int| 0 <= i < r@.len() ==> occurrences(ks, (#[trigger] r@[i]).0@) == r@[i].1 && r@[i].1 > 0
            &&& forall|i: int, j: int| 0 <= i < j < r@.len() ==> (#[trigger] r@[i]).0@ != (#[trigger] r@[j]).0@
            &&& forall|i: int, j: int| 0 <= i < j < r@.len() ==> if ascending {
                (#[trigger] r@[i]).1 <= (#[trigger] r@[j]).1
            } else {
                r@[j].1 <= r@[i].1
            }
            &&& forall|k: Seq<char>| occurrences(ks, k) > 0 && !(#[trigger] table_keys(r@).contains(k)) ==> {
                &&& n > 0
                &&& r@.len() == n
                &&& if ascending { r@.last().1 <= occurrences(ks, k) } else { occurrences(ks, k) <= r@.last().1 }
            }
        }),
{
    let ghost ks = counted_keys(rows_text(rows@), col.selected(), col.max_col());
    let m = count_keys(col, rows);
    let ghost tm = tallies(m);
    let pairs = tally_pairs(m);
    let mut cs: Vec<usize> = Vec::new();
    let mut i: usize = 0;
    while i < pairs.len()
        invariant
            i <= pairs@.len(),
            cs@.len() == i,
            forall|k: int| 0 <= k < i ==> #[trigger] cs@[k] == pairs@[k].1,
        decreases pairs@.len() - i,
    {
        cs.push(pairs[i].1);
        i += 1;
    }
    let out = order_by_count(&cs, ascending);
    let limit: usize = if n > 0 && (n as usize) < out.len() { n as usize } else { out.len() };
    let mut r: Vec<(String, usize)> = Vec::new();
    let mut t: usize = 0;
    while t < limit
        invariant
            t <= limit <= out@.len(),
            out@.len() == pairs@.len(),
            cs@.len() == pairs@.len(),
            forall|a: int| 0 <= a < out@.len() ==> #[trigger] out@[a] < cs@.len(),
            r@.len() == t,
            forall|a: int| 0 <= a < t ==> (#[trigger] r@[a]).0@ == pairs@[out@[a] as int].0@
                && r@[a].1 == pairs@[out@[a] as int].1,
        decreases limit - t,
    {
        let p = &pairs[out[t]];
        r.push((p.0.clone(), p.1));
        t += 1;
    }
    proof {
        assert forall|i: int| 0 <= i < r@.len() implies occurrences(ks, (#[trigger] r@[i]).0@) == r@[i].1 && r@[i].1 > 0 by {
            let x = out@[i] as int;
            assert(tm.dom().contains(pairs@[x].0@));
        }
        assert forall|i: int, j: int| 0 <= i < j < r@.len() implies (#[trigger] r@[i]).0@ != (#[trigger] r@[j]).0@ by {
            let (x, y) = (out@[i] as int, out@[j] as int);
            assert(out@[i] != out@[j]);
            if x < y {
                assert(pairs@[x].0@ != pairs@[y].0@);
            } else {
                assert(pairs@[y].0@ != pairs@[x].0@);
            }
        }
        assert forall|i: int, j: int| 0 <= i < j < r@.len() implies if ascending {
            (#[trigger] r@[i]).1 <= (#[trigger] r@[j]).1
        } else {
            r@[j].1 <= r@[i].1
        } by {
            assert(cs@[out@[i] as int] == pairs@[out@[i] as int].1);
            assert(cs@[out@[j] as int] == pairs@[out@[j] as int].1);
        }
        assert forall|k: Seq<char>| occurrences(ks, k) > 0 && !(#[trigger] table_keys(r@).contains(k)) implies {
            &&& n > 0
            &&& r@.len() == n
            &&& if ascending { r@.last().1 <= occurrences(ks, k) } else { occurrences(ks, k) <= r@.last().1 }
        } by {
            assert(tm.dom().contains(k));
            assert(table_keys(pairs@).contains(k));
            let x = choose|x: int| 0 <= x < pairs@.len() && table_keys(pairs@)[x] == k;
            assert(pairs@[x].0@ == k);
            assert(out@.contains(x as usize));
            let a = choose|a: int| 0 <= a < out@.len() && out@[a] == x as usize;
            if a < limit {
                assert(table_keys(r@)[a] == k);
                assert(false);
            }
            assert(limit < out@.len());
            let last = limit - 1;
            assert(r@.last() == r@[last]);
            assert(cs@[out@[last] as int] == pairs@[out@[last] as int].1);
            assert(cs@[out@[a] as int] == pairs@[x].1);
        }
    }
    r
}

/// The header of a frequency table: the names of the selected columns and
/// `n`. The names are `col<i>` when the data has no header row, or when the
/// header row does not hold every selected column.
pub fn frequency_names(col: &Columns, header: Option<&Vec<String>>) -> (names: Vec<String>)
    requires
        forall|k: int| 0 <= k < col.selected().len() ==> #[trigger] col.selected()[k] <= col.max_col(),
    ensures
        names@.len() == col.selected().len() + 1,
        names@[col.selected().len() as int]@ == seq!['n'],
        forall|k: int| 0 <= k < col.selected().len() ==> #[trigger] names@[k]@ == match header {
            Some(h) => if col.max_col() < h@.len() {
                h@[col.selected()[k] as int]@
            } else {
                crate::utils::column::col_name(col.selected()[k])
            },
            None => crate::utils::column::col_name(col.selected()[k]),
        },
{
    match header {
        Some(h) => if col.max < h.len() {
            let fields = as_strs(h);
            col.select_owned_vector_and_append_n(fields.as_slice())
        } else {
            col.artificial_cols_with_appended_n()
        },
        None => col.artificial_cols_with_appended_n(),
    }
}

/// The counts of a frequency table, added up.
pub open spec fn total_count(t: Seq<(String, usize)>) -> int
    decreases t.len(),
{
    if t.len() == 0 { 0 } else { total_count(t.drop_last()) + t.last().1 }
}

/// The occurrences in `ks` of each of the keys, added up.
spec fn occurrences_of_all(ks: Seq<Seq<char>>, keys: Seq<Seq<char>>) -> int
    decreases keys.len(),
{
    if keys.len() == 0 { 0 } else { occurrences_of_all(ks, keys.drop_last()) + occurrences(ks, keys.last()) }
}

/// How many of the keys equal `x`.
spec fn copies(keys: Seq<Seq<char>>, x: Seq<char>) -> int
    decreases keys.len(),
{
    if keys.len() == 0 { 0 } else { copies(keys.drop_last(), x) + if keys.last() == x { 1int } else { 0int } }
}

proof fn lemma_occurrences_of_all_step(ks: Seq<Seq<char>>, x: Seq<char>, keys: Seq<Seq<char>>)
    ensures
        occurrences_of_all(ks.push(x), keys) == occurrences_of_all(ks, keys) + copies(keys, x),
    decreases keys.len(),
{
    assert(ks.push(x).drop_last() =~= ks);
    if keys.len() > 0 {
        lemma_occurrences_of_all_step(ks, x, keys.drop_last());
    }
}

proof fn lemma_occurrences_of_all_empty(keys: Seq<Seq<char>>)
    ensures
        occurrences_of_all(Seq::empty(), keys) == 0,
    decreases keys.len(),
{
    if keys.len() > 0 {
        lemma_occurrences_of_all_empty(keys.drop_last());
    }
}

proof fn lemma_one_copy(keys: Seq<Seq<char>>, x: Seq<char>)
    requires
        keys.no_duplicates(),
        keys.contains(x),
    ensures
        copies(keys, x) == 1,
    decreases keys.len(),
{
    let k2 = keys.drop_last();
    if keys.last() == x {
        assert forall|i: int| 0 <= i < k2.len() implies k2[i] != x by {
            assert(keys[i] != keys[keys.len() - 1]);
        }
        lemma_no_copy(k2, x);
    } else {
        let j = choose|j: int| 0 <= j < keys.len() && keys[j] == x;
        assert(k2[j] == x);
        lemma_one_copy(k2, x);
    }
}

proof fn lemma_no_copy(keys: Seq<Seq<char>>, x: Seq<char>)
    requires
        !keys.contains(x),
    ensures
        copies(keys, x) == 0,
    decreases keys.len(),
{
    if keys.len() > 0 {
        assert(keys[keys.len() - 1] == keys.last());
        lemma_no_copy(keys.drop_last(), x);
    }
}

proof fn lemma_occurrences_cover(ks: Seq<Seq<char>>, keys: Seq<Seq<char>>)
    requires
        keys.no_duplicates(),
        forall|i: int| 0 <= i < ks.len() ==> keys.contains(#[trigger] ks[i]),
    ensures
        occurrences_of_all(ks, keys) == ks.len(),
    decreases ks.len(),
{
    if ks.len() == 0 {
        lemma_occurrences_of_all_empty(keys);
        assert(ks =~= Seq::<Seq<char>>::empty());
    } else {
        let k2 = ks.drop_last();
        assert forall|i: int| 0 <= i < k2.len() implies keys.contains(#[trigger] k2[i]) by {
            assert(ks[i] == k2[i]);
        }
        lemma_occurrences_cover(k2, keys);
        assert(ks[ks.len() - 1] == ks.last());
        lemma_one_copy(keys, ks.last());
        lemma_occurrences_of_all_step(k2, ks.last(), keys);
        assert(k2.push(ks.last()) =~= ks);
    }
}

proof fn lemma_total_is_occurrences(ks: Seq<Seq<char>>, t: Seq<(String, usize)>)
    requires
        forall|i: int| 0 <= i < t.len() ==> occurrences(ks, (#[trigger] t[i]).0@) == t[i].1,
    ensures
        total_count(t) == occurrences_of_all(ks, table_keys(t)),
    decreases t.len(),
{
    if t.len() > 0 {
        let t2 = t.drop_last();
        assert forall|i: int| 0 <= i < t2.len() implies occurrences(ks, (#[trigger] t2[i]).0@) == t2[i].1 by {
            assert(t[i] == t2[i]);
        }
        lemma_total_is_occurrences(ks, t2);
        assert(table_keys(t).drop_last() =~= table_keys(t2));
        assert(t[t.len() - 1] == t.last());
    }
}

/// The counts of a whole frequency table add up to the number of rows
/// counted: each counted row has its key once in the table, with the
/// number of rows that have it.
pub proof fn frequency_counts_add_up(ks: Seq<Seq<char>>, t: Seq<(String, usize)>)
    requires
        forall|i: int| 0 <= i < t.len() ==> occurrences(ks, (#[trigger] t[i]).0@) == t[i].1,
        forall|i: int, j: int| 0 <= i < j < t.len() ==> (#[trigger] t[i]).0@ != (#[trigger] t[j]).0@,
        forall|i: int| 0 <= i < ks.len() ==> #[trigger] table_keys(t).contains(ks[i]),
    ensures
        total_count(t) == ks.len(),
{
    let keys = table_keys(t);
    assert forall|a: int, b: int| 0 <= a < keys.len() && 0 <= b < keys.len() && a != b implies keys[a] != keys[b] by {
        if a < b {
            assert(t[a].0@ != t[b].0@);
        } else {
            assert(t[b].0@ != t[a].0@);
        }
    }
    lemma_total_is_occurrences(ks, t);
    lemma_occurrences_cover(ks, keys);
}

} // verus!

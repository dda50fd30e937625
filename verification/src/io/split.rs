//! Splitting rows into files: by the value of a column, one file per value,
//! or in chunks of a fixed number of rows.
use vstd::prelude::*;
use dashmap::DashMap;
use crate::utils::filename::{str_to_filename, without_bad_chars};
use crate::utils::text::usize_to_string;
use vstd::utf8::encode_utf8;

verus! {

/// The positions of the rows that each key collects in a `DashMap`.
pub uninterp spec fn groups(m: DashMap<String, Vec<usize>>) -> Map<Seq<char>, Seq<usize>>;

/// The keys that a `DashMap` of flags holds.
pub uninterp spec fn marks(m: DashMap<String, bool>) -> Set<Seq<char>>;

/// No key collects anything.
pub open spec fn no_groups() -> Map<Seq<char>, Seq<usize>> {
    Map::empty()
}

/// No key is marked.
pub open spec fn no_marks() -> Set<Seq<char>> {
    Set::empty()
}

/// `DashMap::new()`: an empty map.
#[verifier::external_body]
fn new_groups() -> (m: DashMap<String, Vec<usize>>)
    ensures
        groups(m) == no_groups(),
{
    DashMap::new()
}

/// `m.entry(k).or_insert_with(Vec::new).push(i)`: `i` joins the positions of
/// `k`, which start empty.
#[verifier::external_body]
fn add_to_group(m: &mut DashMap<String, Vec<usize>>, k: String, i: usize)
    ensures
        groups(*final(m)) == groups(*old(m)).insert(
            k@,
            (if groups(*old(m)).dom().contains(k@) { groups(*old(m))[k@] } else { Seq::empty() }).push(i),
        ),
{
    m.entry(k).or_insert_with(Vec::new).push(i);
}

/// `DashMap::into_iter().collect()`: every key with its positions, each key
/// once, in an order that the source leaves open.
#[verifier::external_body]
fn group_pairs(m: DashMap<String, Vec<usize>>) -> (v: Vec<(String, Vec<usize>)>)
    ensures
        forall|i: int| 0 <= i < v@.len() ==> groups(m).dom().contains(#[trigger] v@[i].0@)
            && groups(m)[v@[i].0@] == v@[i].1@,
        forall|i: int, j: int| 0 <= i < j < v@.len() ==> (#[trigger] v@[i]).0@ != (#[trigger] v@[j]).0@,
        forall|k: Seq<char>| groups(m).dom().contains(k) ==> exists|i: int| 0 <= i < v@.len() && #[trigger] v@[i].0@ == k,
{
    m.into_iter().collect()
}

/// `DashMap::new()`: no key marked.
#[verifier::external_body]
fn new_marks() -> (m: DashMap<String, bool>)
    ensures
        marks(m) == no_marks(),
{
    DashMap::new()
}

/// `DashMap::contains_key`: whether `k` is marked.
#[verifier::external_body]
fn is_marked(m: &DashMap<String, bool>, k: &str) -> (b: bool)
    ensures
        b == marks(*m).contains(k@),
{
    m.contains_key(k)
}

/// `DashMap::insert(k, true)`: `k` is then marked.
#[verifier::external_body]
fn mark(m: &mut DashMap<String, bool>, k: String)
    ensures
        marks(*final(m)) == marks(*old(m)).insert(k@),
{
    m.insert(k, true);
}

/// The length of a text in bytes, as `str::len` gives it.
pub open spec fn byte_len(s: Seq<char>) -> usize {
    encode_utf8(s).len() as usize
}

/// For each row, the value it is filed under: field `col`, for a row whose
/// text is longer than `col` bytes; other rows are not filed.
pub open spec fn filed_values(lines: Seq<String>, rows: Seq<Vec<String>>, col: usize) -> Seq<Option<Seq<char>>> {
    Seq::new(rows.len(), |i: int| if col < byte_len(lines[i]@) {
        Some(rows[i]@[col as int]@)
    } else {
        None
    })
}

/// The positions, in order, of the rows filed under `v`.
pub open spec fn filed_under(vals: Seq<Option<Seq<char>>>, v: Seq<char>) -> Seq<usize>
    decreases vals.len(),
{
    if vals.len() == 0 {
        seq![]
    } else {
        let p = filed_under(vals.drop_last(), v);
        if vals.last() == Some(v) { p.push((vals.len() - 1) as usize) } else { p }
    }
}

/// The rows of a chunk grouped by the value of field `col`: each value with
/// the positions of the rows that hold it, in order. `rows` are the lines
/// split into fields; a line of `col` bytes or fewer is left out. Values
/// come in an order that the hash map leaves open.
pub fn group_by_column(lines: &Vec<String>, rows: &Vec<Vec<String>>, col: usize) -> (g: Vec<(String, Vec<usize>)>)
    requires
        lines@.len() == rows@.len(),
        forall|i: int| 0 <= i < rows@.len() && col < byte_len(lines@[i]@) ==> col < (#[trigger] rows@[i])@.len(),
    ensures
        forall|t: int| 0 <= t < g@.len() ==> (#[trigger] g@[t]).1@ == filed_under(filed_values(lines@, rows@, col), g@[t].0@)
            && g@[t].1@.len() > 0,
        forall|s: int, t: int| 0 <= s < t < g@.len() ==> (#[trigger] g@[s]).0@ != (#[trigger] g@[t]).0@,
        forall|i: int| 0 <= i < rows@.len() && #[trigger] filed_values(lines@, rows@, col)[i] is Some
            ==> exists|t: int| 0 <= t < g@.len() && #[trigger] g@[t].0@ == filed_values(lines@, rows@, col)[i]->0,
{
    let ghost vals = filed_values(lines@, rows@, col);
    let mut m = new_groups();
    let mut i: usize = 0;
    while i < rows.len()
        invariant
            i <= rows@.len(),
            lines@.len() == rows@.len(),
            vals == filed_values(lines@, rows@, col),
            forall|j: int| 0 <= j < rows@.len() && col < byte_len(lines@[j]@) ==> col < (#[trigger] rows@[j])@.len(),
            forall|k: Seq<char>| #[trigger] groups(m).dom().contains(k) ==> groups(m)[k] == filed_under(vals.take(i as int), k)
                && groups(m)[k].len() > 0,
            forall|k: Seq<char>| !(#[trigger] groups(m).dom().contains(k)) ==> filed_under(vals.take(i as int), k).len() == 0,
        decreases rows@.len() - i,
    {
        let ghost before = vals.take(i as int);
        assert(vals.take(i as int + 1).drop_last() =~= before);
        assert(vals.take(i as int + 1).last() == vals[i as int]);
        assert forall|k: Seq<char>| #[trigger] filed_under(vals.take(i as int + 1), k)
            == if vals[i as int] == Some(k) { filed_under(before, k).push(i) } else { filed_under(before, k) } by {
        }
        let line = lines[i].as_str();
        assert(line@ == lines@[i as int]@);
        if col < line.len() {
            let v = rows[i][col].clone();
            assert(vals[i as int] == Some(v@));
            add_to_group(&mut m, v, i);
        }
        i += 1;
    }
    assert(vals.take(rows@.len() as int) =~= vals);
    let g = group_pairs(m);
    proof {
        assert forall|j: int| 0 <= j < rows@.len() && #[trigger] vals[j] is Some
            implies exists|t: int| 0 <= t < g@.len() && #[trigger] g@[t].0@ == vals[j]->0 by {
            lemma_filed_under_holds(vals, j, vals[j]->0);
            assert(groups(m).dom().contains(vals[j]->0));
        }
    }
    g
}

proof fn lemma_filed_under_holds(vals: Seq<Option<Seq<char>>>, j: int, v: Seq<char>)
    requires
        0 <= j < vals.len(),
        vals[j] == Some(v),
    ensures
        filed_under(vals, v).len() > 0,
    decreases vals.len(),
{
    if j < vals.len() - 1 {
        lemma_filed_under_holds(vals.drop_last(), j, v);
    }
}

/// The file that the rows with field value `v` go to: `v` without the
/// characters a file name may not hold, then `.csv`.
pub fn value_file_name(v: &str) -> (name: String)
    ensures
        name@ == without_bad_chars(v@) + seq!['.', 'c', 's', 'v'],
{
    let mut name = str_to_filename(v);
    name.append(".csv");
    proof {
        reveal_strlit(".csv");
    }
    name
}

/// The file of the `chunk`-th chunk of a split into chunks of equal size:
/// `split<chunk>.csv`.
pub fn chunk_file_name(chunk: usize) -> (name: String)
    ensures
        name@ == seq!['s', 'p', 'l', 'i', 't'] + crate::utils::text::decimal_text(chunk as nat) + seq!['.', 'c', 's', 'v'],
{
    let mut name = String::new();
    name.append("split");
    let d = usize_to_string(chunk);
    name.append(d.as_str());
    name.append(".csv");
    proof {
        reveal_strlit("split");
        reveal_strlit(".csv");
    }
    name
}

/// The files of a split by value that have had the header row.
pub struct HeaderMarks {
    files: DashMap<String, bool>,
}

impl HeaderMarks {
    /// The files marked.
    pub closed spec fn marked(&self) -> Set<Seq<char>> {
        marks(self.files)
    }

    /// No file marked yet.
    pub fn new() -> (h: HeaderMarks)
        ensures
            h.marked() == no_marks(),
    {
        HeaderMarks { files: new_marks() }
    }
}

/// Whether a file of a split by value gets the header row before its rows:
/// when the data has a header and the file has not had it yet. The file is
/// then marked as having it.
pub fn header_first(no_header: bool, inserted: &mut HeaderMarks, file: &str) -> (b: bool)
    ensures
        b == (!no_header && !old(inserted).marked().contains(file@)),
        final(inserted).marked() == if b { old(inserted).marked().insert(file@) } else { old(inserted).marked() },
{
    if !no_header && !is_marked(&inserted.files, file) {
        mark(&mut inserted.files, file.to_owned());
        true
    } else {
        false
    }
}

proof fn lemma_filed_under_bound(vals: Seq<Option<Seq<char>>>, v: Seq<char>)
    requires
        vals.len() <= usize::MAX,
    ensures
        forall|k: int| 0 <= k < filed_under(vals, v).len() ==> (#[trigger] filed_under(vals, v)[k]) < vals.len(),
    decreases vals.len(),
{
    if vals.len() > 0 {
        let w = vals.drop_last();
        lemma_filed_under_bound(w, v);
        let p = filed_under(w, v);
        assert forall|k: int| 0 <= k < filed_under(vals, v).len() implies (#[trigger] filed_under(vals, v)[k]) < vals.len() by {
            if k < p.len() {
                assert(filed_under(vals, v)[k] == p[k]);
            }
        }
    }
}

proof fn lemma_filed_under_has(vals: Seq<Option<Seq<char>>>, v: Seq<char>, i: int)
    requires
        vals.len() <= usize::MAX,
        0 <= i < vals.len(),
    ensures
        filed_under(vals, v).contains(i as usize) <==> vals[i] == Some(v),
    decreases vals.len(),
{
    let n = vals.len() - 1;
    let w = vals.drop_last();
    let p = filed_under(w, v);
    lemma_filed_under_bound(w, v);
    if i < n {
        lemma_filed_under_has(w, v, i);
        assert(w[i] == vals[i]);
    } else {
        assert(!p.contains(i as usize)) by {
            if p.contains(i as usize) {
                let k = choose|k: int| 0 <= k < p.len() && p[k] == i as usize;
                assert(p[k] < w.len());
            }
        }
    }
    if vals.last() == Some(v) {
        let f = p.push(n as usize);
        assert(filed_under(vals, v) == f);
        if f.contains(i as usize) && !p.contains(i as usize) {
            let k = choose|k: int| 0 <= k < f.len() && f[k] == i as usize;
            assert(k == p.len());
        }
        if p.contains(i as usize) {
            let k = choose|k: int| 0 <= k < p.len() && p[k] == i as usize;
            assert(f[k] == i as usize);
        }
        if i == n {
            assert(f[p.len() as int] == i as usize);
        }
    }
}

/// Splitting by value puts every filed row in exactly one group: the group
/// of its value.
pub proof fn each_filed_row_in_one_group(vals: Seq<Option<Seq<char>>>, g: Seq<(String, Vec<usize>)>, i: int)
    requires
        vals.len() <= usize::MAX,
        0 <= i < vals.len(),
        vals[i] is Some,
        forall|t: int| 0 <= t < g.len() ==> (#[trigger] g[t]).1@ == filed_under(vals, g[t].0@),
        forall|s: int, t: int| 0 <= s < t < g.len() ==> (#[trigger] g[s]).0@ != (#[trigger] g[t]).0@,
        exists|t: int| 0 <= t < g.len() && #[trigger] g[t].0@ == vals[i]->0,
    ensures
        exists|t: int| 0 <= t < g.len() && (#[trigger] g[t]).1@.contains(i as usize),
        forall|s: int, t: int| 0 <= s < g.len() && 0 <= t < g.len() && (#[trigger] g[s]).1@.contains(i as usize)
            && (#[trigger] g[t]).1@.contains(i as usize) ==> s == t,
{
    let t = choose|t: int| 0 <= t < g.len() && #[trigger] g[t].0@ == vals[i]->0;
    lemma_filed_under_has(vals, g[t].0@, i);
    assert forall|s: int, u: int| 0 <= s < g.len() && 0 <= u < g.len() && (#[trigger] g[s]).1@.contains(i as usize)
        && (#[trigger] g[u]).1@.contains(i as usize) implies s == u by {
        lemma_filed_under_has(vals, g[s].0@, i);
        lemma_filed_under_has(vals, g[u].0@, i);
        if s < u {
            assert(g[s].0@ != g[u].0@);
        } else if u < s {
            assert(g[u].0@ != g[s].0@);
        }
    }
}

} // verus!

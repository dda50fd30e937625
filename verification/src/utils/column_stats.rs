//! Statistics of columns: per column its type, the number of missing
//! values and the set of distinct values. The numeric statistics (minimum,
//! maximum, total, mean) are floating-point values that the caller keeps;
//! for each field this module says what it adds to them.
use vstd::prelude::*;
use std::collections::HashSet;
use crate::io::unique::{key_set, key_set_insert, key_set_items, key_set_len, new_key_set};
use crate::utils::column_type::{CType, ColumnType, ColumnTypes};
use crate::utils::number::{f64_text, i64_text, is_f64, is_i64};
use crate::utils::text::{chars_of, split_str, split_text};
use crate::utils::util::{is_null, null_text};

verus! {

/// What a field adds to the numeric statistics of its column.
#[derive(Debug, Clone, Copy, PartialEq, Eq, Structural)]
pub enum NumericStep {
    /// Nothing: the value is missing, or the column does not hold numbers.
    Skip,
    /// The value, a floating-point number, goes into the minimum, the
    /// maximum and the total.
    Float,
    /// The value, an integer, goes into the minimum, the maximum and the
    /// total.
    Int,
    /// The value, a floating-point number in a column of integers that turns
    /// into a column of floats here, goes into the total only.
    FloatTotal,
}

/// The statistics of one column.
#[derive(Debug)]
pub struct CStat {
    pub col_index: usize,
    pub col_type: ColumnType,
    pub name: String,
    pub unique: usize,
    pub null: usize,
    /// The distinct values seen so far.
    pub unique_hashset: HashSet<String, ahash::RandomState>,
}

/// The statistics of one column, as values.
pub struct CStatView {
    pub col_index: usize,
    pub col_type: ColumnType,
    pub name: Seq<char>,
    pub unique: usize,
    pub null: usize,
    pub seen: Set<Seq<char>>,
}

impl View for CStat {
    type V = CStatView;

    open spec fn view(&self) -> CStatView {
        CStatView {
            col_index: self.col_index,
            col_type: self.col_type,
            name: self.name@,
            unique: self.unique,
            null: self.null,
            seen: key_set(self.unique_hashset),
        }
    }
}

/// A fresh statistic of a column.
pub open spec fn fresh_stat(col_index: usize, col_type: ColumnType, name: Seq<char>) -> CStatView {
    CStatView { col_index, col_type, name, unique: 0, null: 0, seen: Set::empty() }
}

/// The statistic of a column once the field `f` is seen, and what the field
/// adds to the numeric statistics. A missing value is counted; any other
/// value joins the distinct values unless the column holds floats. A value
/// that does not fit the column's type widens the type.
pub open spec fn stat_after(c: CStatView, f: Seq<char>) -> (CStatView, NumericStep) {
    if null_text(f) {
        (CStatView { null: (c.null + 1) as usize, ..c }, NumericStep::Skip)
    } else {
        let seen = if c.col_type != ColumnType::Float { c.seen.insert(f) } else { c.seen };
        let c2 = CStatView { seen, ..c };
        match c.col_type {
            ColumnType::Float => if f64_text(f) {
                (c2, NumericStep::Float)
            } else {
                (CStatView { col_type: ColumnType::String, ..c2 }, NumericStep::Skip)
            },
            ColumnType::Int => if i64_text(f) {
                (c2, NumericStep::Int)
            } else if f64_text(f) {
                (CStatView { col_type: ColumnType::Float, ..c2 }, NumericStep::FloatTotal)
            } else {
                (CStatView { col_type: ColumnType::String, ..c2 }, NumericStep::Skip)
            },
            _ => (c2, NumericStep::Skip),
        }
    }
}

/// The statistics of the selected columns of a table.
#[derive(Debug)]
pub struct ColumnStats {
    max_col: usize,
    cols: Vec<usize>,
    stat: Vec<CStat>,
    pub rows: usize,
}

impl ColumnStats {
    /// The statistics, one per column, in order.
    pub closed spec fn stats(&self) -> Seq<CStatView> {
        self.stat@.map_values(|c: CStat| c@)
    }

    /// The number of rows taken in.
    pub closed spec fn row_count(&self) -> usize {
        self.rows
    }

    /// The largest column index.
    pub closed spec fn max_index(&self) -> usize {
        self.max_col
    }

    /// Each column is counted, its index below the largest, and no column
    /// has more missing values than there are rows.
    pub closed spec fn wf(&self) -> bool {
        &&& self.cols@.len() == self.stat@.len()
        &&& forall|i: int| 0 <= i < self.cols@.len() ==> #[trigger] self.cols@[i] == self.stat@[i].col_index
            && self.cols@[i] <= self.max_col
        &&& forall|i: int| 0 <= i < self.stat@.len() ==> (#[trigger] self.stat@[i]).null <= self.rows
    }

    fn push(&mut self, col_index: usize, col_type: ColumnType, name: &str)
        requires
            old(self).wf(),
            forall|i: int| 0 <= i < old(self).stat@.len() ==> (#[trigger] old(self).stat@[i]).null == 0,
        ensures
            final(self).wf(),
            final(self).stats() == old(self).stats().push(fresh_stat(col_index, col_type, name@)),
            final(self).rows == old(self).rows,
            final(self).max_index() == if col_index > old(self).max_index() { col_index } else { old(self).max_index() },
            forall|i: int| 0 <= i < final(self).stat@.len() ==> (#[trigger] final(self).stat@[i]).null == 0,
    {
        let stat = CStat {
            col_index,
            col_type,
            name: name.to_owned(),
            unique: 0,
            null: 0,
            unique_hashset: new_key_set(),
        };
        self.cols.push(col_index);
        self.stat.push(stat);
        if col_index > self.max_col {
            self.max_col = col_index;
        }
        assert(self.stats() =~= old(self).stats().push(fresh_stat(col_index, col_type, name@)));
    }

    /// Empty statistics of the columns of `col_type`, each named by its
    /// field of `first_row`.
    pub fn new(col_type: &ColumnTypes, first_row: &[String]) -> (s: ColumnStats)
        requires
            forall|k: int| 0 <= k < col_type.types().len() ==> (#[trigger] col_type.types()[k]).col_index < first_row@.len(),
        ensures
            s.wf(),
            s.row_count() == 0,
            s.stats().len() == col_type.types().len(),
            forall|k: int| 0 <= k < col_type.types().len() ==> #[trigger] s.stats()[k] == fresh_stat(
                col_type.types()[k].col_index,
                col_type.types()[k].col_type,
                first_row@[col_type.types()[k].col_index as int]@,
            ),
    {
        let mut s = ColumnStats { max_col: 0, cols: Vec::new(), stat: Vec::new(), rows: 0 };
        let ts = col_type.iter();
        let mut k: usize = 0;
        while k < ts.len()
            invariant
                k <= ts@.len(),
                ts@ == col_type.types(),
                forall|j: int| 0 <= j < ts@.len() ==> (#[trigger] ts@[j]).col_index < first_row@.len(),
                s.wf(),
                s.rows == 0,
                forall|i: int| 0 <= i < s.stat@.len() ==> (#[trigger] s.stat@[i]).null == 0,
                s.stats().len() == k,
                forall|j: int| 0 <= j < k ==> #[trigger] s.stats()[j] == fresh_stat(
                    ts@[j].col_index,
                    ts@[j].col_type,
                    first_row@[ts@[j].col_index as int]@,
                ),
            decreases ts@.len() - k,
        {
            let c: CType = ts[k];
            s.push(c.col_index, c.col_type, first_row[c.col_index].as_str());
            k += 1;
        }
        s
    }

    /// The statistics, one per column, in order.
    pub fn iter(&self) -> (s: &[CStat])
        ensures
            s@.map_values(|c: CStat| c@) == self.stats(),
    {
        self.stat.as_slice()
    }

    /// Takes in the field `f` of the column with statistic `i`.
    fn parse_col(&mut self, i: usize, f: &str) -> (step: NumericStep)
        requires
            i < old(self).stat@.len(),
            old(self).stat@[i as int].null < usize::MAX,
        ensures
            final(self).stat@.len() == old(self).stat@.len(),
            final(self).cols@ == old(self).cols@,
            final(self).max_col == old(self).max_col,
            final(self).rows == old(self).rows,
            final(self).stats() == old(self).stats().update(i as int, stat_after(old(self).stats()[i as int], f@).0),
            step == stat_after(old(self).stats()[i as int], f@).1,
            forall|j: int| 0 <= j < final(self).stat@.len() ==> (#[trigger] final(self).stat@[j]).col_index
                == old(self).stat@[j].col_index,
            forall|j: int| 0 <= j < final(self).stat@.len() ==> (#[trigger] final(self).stat@[j]).null
                <= old(self).stat@[j].null + if j == i { 1int } else { 0int },
    {
        let ghost before = self.stats();
        assert(self.stat@[i as int]@ == before[i as int]);
        let mut c = self.stat.remove(i);
        let mut step = NumericStep::Skip;
        if is_null(f) {
            c.null = c.null + 1;
        } else {
            if c.col_type != ColumnType::Float {
                key_set_insert(&mut c.unique_hashset, f.to_owned());
            }
            let v = chars_of(f);
            match c.col_type {
                ColumnType::Float => {
                    if is_f64(&v) {
                        step = NumericStep::Float;
                    } else {
                        c.col_type = ColumnType::String;
                    }
                },
                ColumnType::Int => {
                    if is_i64(&v) {
                        step = NumericStep::Int;
                    } else if is_f64(&v) {
                        step = NumericStep::FloatTotal;
                        c.col_type = ColumnType::Float;
                    } else {
                        c.col_type = ColumnType::String;
                    }
                },
                _ => {},
            }
        }
        let ghost after = c@;
        assert(after == stat_after(before[i as int], f@).0);
        self.stat.insert(i, c);
        assert forall|j: int| 0 <= j < before.len() implies #[trigger] self.stats()[j]
            == before.update(i as int, after)[j] by {
            if j != i {
                assert(self.stat@[j] == old(self).stat@[j]);
            }
        }
        assert(self.stats() =~= before.update(i as int, stat_after(before[i as int], f@).0));
        step
    }

    /// Takes in a row: splits it at `sep` and takes each counted column's
    /// field, returning what each adds to the numeric statistics. A row
    /// without every counted column is left out and changes nothing.
    pub fn parse_line(&mut self, line: &str, sep: &str) -> (steps: Option<Vec<NumericStep>>)
        requires
            old(self).wf(),
            old(self).row_count() < usize::MAX,
        ensures
            final(self).wf(),
            final(self).max_index() == old(self).max_index(),
            ({
                let v = split_text(line@, sep@);
                if old(self).max_index() >= v.len() {
                    &&& steps is None
                    &&& final(self).stats() == old(self).stats()
                    &&& final(self).row_count() == old(self).row_count()
                } else {
                    &&& steps matches Some(st)
                    &&& final(self).row_count() == old(self).row_count() + 1
                    &&& st@.len() == old(self).stats().len()
                    &&& final(self).stats().len() == old(self).stats().len()
                    &&& forall|i: int| 0 <= i < st@.len() ==> (#[trigger] final(self).stats()[i], st@[i])
                        == stat_after(old(self).stats()[i], v[old(self).stats()[i].col_index as int])
                }
            }),
    {
        let v = split_str(line, sep);
        let ghost vt = split_text(line@, sep@);
        proof {
            assert(v@.len() == vt.len());
        }
        if self.max_col >= v.len() {
            return None;
        }
        let ghost before = self.stats();
        let mut steps: Vec<NumericStep> = Vec::new();
        let mut i: usize = 0;
        while i < self.cols.len()
            invariant
                i <= self.cols@.len(),
                self.cols@ == old(self).cols@,
                self.max_col == old(self).max_col,
                self.rows == old(self).rows,
                self.rows < usize::MAX,
                self.max_col < v@.len(),
                v@.map_values(|x: String| x@) == vt,
                self.stat@.len() == self.cols@.len(),
                forall|j: int| 0 <= j < self.cols@.len() ==> #[trigger] self.cols@[j] == self.stat@[j].col_index
                    && self.cols@[j] <= self.max_col,
                forall|j: int| 0 <= j < self.stat@.len() ==> (#[trigger] self.stat@[j]).null
                    <= self.rows + if j < i { 1int } else { 0int },
                before == old(self).stats(),
                steps@.len() == i,
                self.stats().len() == before.len(),
                forall|j: int| 0 <= j < i ==> (#[trigger] self.stats()[j], steps@[j])
                    == stat_after(before[j], vt[before[j].col_index as int]),
                forall|j: int| i <= j < before.len() ==> #[trigger] self.stats()[j] == before[j],
            decreases self.cols@.len() - i,
        {
            let c = self.cols[i];
            assert(self.stats()[i as int] == self.stat@[i as int]@);
            assert(self.stats()[i as int].col_index == c);
            assert(v@[c as int]@ == vt[c as int]);
            let ghost mid = self.stats();
            let step = self.parse_col(i, v[c].as_str());
            steps.push(step);
            i += 1;
        }
        self.rows = self.rows + 1;
        Some(steps)
    }

    /// Sets the number of distinct values of each column.
    pub fn finalize_stats(&mut self)
        ensures
            final(self).row_count() == old(self).row_count(),
            final(self).max_index() == old(self).max_index(),
            old(self).wf() ==> final(self).wf(),
            final(self).stats().len() == old(self).stats().len(),
            forall|i: int| 0 <= i < old(self).stats().len() ==> #[trigger] final(self).stats()[i]
                == (CStatView { unique: old(self).stats()[i].seen.len() as usize, ..old(self).stats()[i] }),
    {
        let ghost before = self.stats();
        let mut i: usize = 0;
        while i < self.stat.len()
            invariant
                i <= self.stat@.len(),
                self.cols@ == old(self).cols@,
                self.max_col == old(self).max_col,
                self.rows == old(self).rows,
                before == old(self).stats(),
                self.stat@.len() == before.len(),
                forall|j: int| 0 <= j < self.stat@.len() ==> (#[trigger] self.stat@[j]).col_index == old(self).stat@[j].col_index
                    && self.stat@[j].null == old(self).stat@[j].null,
                forall|j: int| 0 <= j < i ==> #[trigger] self.stats()[j]
                    == (CStatView { unique: before[j].seen.len() as usize, ..before[j] }),
                forall|j: int| i <= j < before.len() ==> #[trigger] self.stats()[j] == before[j],
            decreases self.stat@.len() - i,
        {
            let ghost mid = self.stats();
            let ghost old_stat = self.stat@;
            assert(old_stat[i as int]@ == mid[i as int]);
            let mut c = self.stat.remove(i);
            c.unique = key_set_len(&c.unique_hashset);
            let ghost after = c@;
            self.stat.insert(i, c);
            assert forall|j: int| 0 <= j < before.len() implies #[trigger] self.stats()[j]
                == mid.update(i as int, after)[j] by {
                if j != i {
                    assert(self.stat@[j] == old_stat[j]);
                }
            }
            assert(self.stats() =~= mid.update(i as int, CStatView { unique: before[i as int].seen.len() as usize, ..before[i as int] }));
            i += 1;
        }
    }

    /// Adds the statistics `other` of more rows of the same columns: the
    /// rows and missing values add up, the distinct values join, and each
    /// column takes the type that `other` found.
    pub fn merge(&mut self, other: ColumnStats)
        requires
            old(self).wf(),
            other.wf(),
            old(self).row_count() + other.row_count() <= usize::MAX,
        ensures
            final(self).wf(),
            final(self).row_count() == old(self).row_count() + other.row_count(),
            final(self).max_index() == old(self).max_index(),
            final(self).stats().len() == old(self).stats().len(),
            forall|i: int| 0 <= i < old(self).stats().len() ==> #[trigger] final(self).stats()[i] == if i < other.stats().len() {
                CStatView {
                    col_type: other.stats()[i].col_type,
                    null: (old(self).stats()[i].null + other.stats()[i].null) as usize,
                    seen: old(self).stats()[i].seen.union(other.stats()[i].seen),
                    ..old(self).stats()[i]
                }
            } else {
                old(self).stats()[i]
            },
    {
        let ghost before = self.stats();
        let ghost theirs = other.stats();
        self.rows = self.rows + other.rows;
        let n = if self.stat.len() < other.stat.len() { self.stat.len() } else { other.stat.len() };
        let mut i: usize = 0;
        while i < n
            invariant
                i <= n <= self.stat@.len(),
                n <= other.stat@.len(),
                n == if old(self).stat@.len() < other.stat@.len() { old(self).stat@.len() } else { other.stat@.len() },
                self.cols@ == old(self).cols@,
                self.max_col == old(self).max_col,
                self.rows == old(self).rows + other.rows,
                other.wf(),
                old(self).wf(),
                before == old(self).stats(),
                theirs == other.stats(),
                self.stat@.len() == before.len(),
                forall|j: int| 0 <= j < self.stat@.len() ==> (#[trigger] self.stat@[j]).col_index == old(self).stat@[j].col_index,
                forall|j: int| 0 <= j < self.stat@.len() ==> (#[trigger] self.stat@[j]).null <= self.rows,
                forall|j: int| 0 <= j < i ==> #[trigger] self.stats()[j] == (CStatView {
                    col_type: theirs[j].col_type,
                    null: (before[j].null + theirs[j].null) as usize,
                    seen: before[j].seen.union(theirs[j].seen),
                    ..before[j]
                }),
                forall|j: int| i <= j < before.len() ==> #[trigger] self.stats()[j] == before[j],
            decreases n - i,
        {
            let ghost mid = self.stats();
            let ghost old_stat = self.stat@;
            assert(old_stat[i as int]@ == mid[i as int]);
            let o = &other.stat[i];
            assert(other.stats()[i as int] == other.stat@[i as int]@);
            let mut c = self.stat.remove(i);
            assert(c@ == before[i as int]);
            assert(o@ == theirs[i as int]);
            c.col_type = o.col_type;
            c.null = c.null + o.null;
            add_all(&mut c.unique_hashset, &o.unique_hashset);
            let ghost after = c@;
            self.stat.insert(i, c);
            assert(old(self).stat@[i as int].null <= old(self).rows);
            assert(other.stat@[i as int].null <= other.rows);
            assert forall|j: int| 0 <= j < before.len() implies #[trigger] self.stats()[j]
                == mid.update(i as int, after)[j] && self.stat@[j].col_index == old(self).stat@[j].col_index
                && self.stat@[j].null <= self.rows by {
                if j != i {
                    assert(self.stat@[j] == old_stat[j]);
                }
            }
            assert(self.stats() =~= mid.update(i as int, CStatView {
                col_type: theirs[i as int].col_type,
                null: (before[i as int].null + theirs[i as int].null) as usize,
                seen: before[i as int].seen.union(theirs[i as int].seen),
                ..before[i as int]
            }));
            i += 1;
        }
    }
}

/// Adds every key of `other` to `set`.
fn add_all(set: &mut HashSet<String, ahash::RandomState>, other: &HashSet<String, ahash::RandomState>)
    ensures
        key_set(*final(set)) == key_set(*old(set)).union(key_set(*other)),
{
    let items = key_set_items(other);
    let ghost start = key_set(*set);
    let mut k: usize = 0;
    while k < items.len()
        invariant
            k <= items@.len(),
            start == key_set(*old(set)),
            forall|j: int| 0 <= j < items@.len() ==> key_set(*other).contains(#[trigger] items@[j]@),
            forall|x: Seq<char>| key_set(*other).contains(x) ==> exists|j: int| 0 <= j < items@.len() && #[trigger] items@[j]@ == x,
            key_set(*set) == start.union(Set::new(|x: Seq<char>| exists|j: int| 0 <= j < k && #[trigger] items@[j]@ == x)),
        decreases items@.len() - k,
    {
        key_set_insert(set, items[k].clone());
        assert(Set::new(|x: Seq<char>| exists|j: int| 0 <= j < k + 1 && #[trigger] items@[j]@ == x)
            =~= Set::new(|x: Seq<char>| exists|j: int| 0 <= j < k && #[trigger] items@[j]@ == x).insert(items@[k as int]@));
        assert(start.union(Set::new(|x: Seq<char>| exists|j: int| 0 <= j < k + 1 && #[trigger] items@[j]@ == x))
            =~= start.union(Set::new(|x: Seq<char>| exists|j: int| 0 <= j < k && #[trigger] items@[j]@ == x)).insert(items@[k as int]@));
        k += 1;
    }
    assert(Set::new(|x: Seq<char>| exists|j: int| 0 <= j < items@.len() && #[trigger] items@[j]@ == x)
        =~= key_set(*other));
}

impl Clone for ColumnStats {
    /// Empty statistics of the same columns: same names, indexes and types,
    /// no rows.
    fn clone(&self) -> (o: Self)
        ensures
            self.wf() ==> o.wf(),
            o.row_count() == 0,
            o.stats().len() == self.stats().len(),
            forall|i: int| 0 <= i < self.stats().len() ==> #[trigger] o.stats()[i] == fresh_stat(
                self.stats()[i].col_index,
                self.stats()[i].col_type,
                self.stats()[i].name,
            ),
    {
        let mut o = ColumnStats { max_col: self.max_col, cols: Vec::new(), stat: Vec::new(), rows: 0 };
        let mut k: usize = 0;
        while k < self.stat.len()
            invariant
                k <= self.stat@.len(),
                o.rows == 0,
                o.wf(),
                o.cols@.len() == o.stat@.len(),
                self.wf() ==> o.max_col == self.max_col,
                self.wf() ==> forall|j: int| 0 <= j < o.cols@.len() ==> #[trigger] o.cols@[j] == o.stat@[j].col_index
                    && o.cols@[j] <= o.max_col,
                forall|j: int| 0 <= j < o.stat@.len() ==> (#[trigger] o.stat@[j]).null == 0,
                o.stats().len() == k,
                forall|j: int| 0 <= j < k ==> #[trigger] o.stats()[j] == fresh_stat(
                    self.stats()[j].col_index,
                    self.stats()[j].col_type,
                    self.stats()[j].name,
                ),
            decreases self.stat@.len() - k,
        {
            let c = &self.stat[k];
            assert(c@ == self.stats()[k as int]);
            assert(self.wf() ==> self.cols@[k as int] == self.stat@[k as int].col_index);
            assert(self.wf() ==> c.col_index <= self.max_col);
            o.push(c.col_index, c.col_type, c.name.as_str());
            k += 1;
        }
        o
    }
}

} // verus!

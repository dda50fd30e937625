//! Guessing the type of a column from its values.
use vstd::prelude::*;
use crate::utils::column::{Columns, selected_or_all};
use crate::utils::number::{f64_text, i64_text, i64_text_is_f64_text, is_f64, is_i64};
use crate::utils::text::chars_of;
use crate::utils::util::{is_null, null_text};
use vstd::string::StringSliceAdditionalSpecFns;

verus! {

/// The type of a column. From `Null` on, the type only moves up to `Int`,
/// `Float` and `String`.
#[derive(Debug, Clone, Copy, PartialEq, Eq, Structural)]
pub enum ColumnType {
    Int,
    Float,
    String,
    Null,
}

/// The type of one column of a table, with the longest value in bytes.
#[derive(Debug, Clone, Copy)]
pub struct CType {
    pub col_index: usize,
    pub col_type: ColumnType,
    pub max_length: usize,
}

/// Column types, in the order of the columns they describe.
#[derive(Debug)]
pub struct ColumnTypes(Vec<CType>);

/// What a spreadsheet cell holds, as far as guessing a type needs it: an
/// integer, a floating-point number, or anything else (text, a date, an
/// error, nothing).
#[derive(Debug, Clone, Copy, PartialEq, Eq, Structural)]
pub enum CellKind {
    Int,
    Float,
    Other,
}

/// The type of a column of type `t` once the cell `c` is seen. A column of
/// floats stays one only while its cells are floats.
pub open spec fn type_after_cell(t: ColumnType, c: CellKind) -> ColumnType {
    match t {
        ColumnType::Null | ColumnType::Int => match c {
            CellKind::Int => ColumnType::Int,
            CellKind::Float => ColumnType::Float,
            CellKind::Other => ColumnType::String,
        },
        ColumnType::Float => if c == CellKind::Float { ColumnType::Float } else { ColumnType::String },
        ColumnType::String => ColumnType::String,
    }
}

/// The type guessed from the cells in turn; every cell counts.
pub open spec fn guess_cells_type(cells: Seq<CellKind>) -> ColumnType
    decreases cells.len(),
{
    if cells.len() == 0 {
        ColumnType::Null
    } else {
        type_after_cell(guess_cells_type(cells.drop_last()), cells.last())
    }
}

/// The cells of column `n` of the rows.
pub open spec fn cell_column(rows: Seq<Vec<CellKind>>, n: int) -> Seq<CellKind> {
    Seq::new(rows.len(), |i: int| rows[i]@[n])
}

/// The rows of a sheet that a guess looks at: after the header row, if
/// there is one, the next 5000.
pub open spec fn sheet_guess_rows(rows: Seq<Vec<CellKind>>, no_header: bool) -> Seq<Vec<CellKind>> {
    let body = if no_header || rows.len() == 0 { rows } else { rows.skip(1) };
    if body.len() < 5000 { body } else { body.take(5000) }
}

/// The place of a type in the order `Null < Int < Float < String`.
pub open spec fn rank(t: ColumnType) -> int {
    match t {
        ColumnType::Null => 0,
        ColumnType::Int => 1,
        ColumnType::Float => 2,
        ColumnType::String => 3,
    }
}

/// The type of a column of type `t` once the value `f` is seen.
pub open spec fn type_after(t: ColumnType, f: Seq<char>) -> ColumnType {
    match t {
        ColumnType::Null => if i64_text(f) {
            ColumnType::Int
        } else if f64_text(f) {
            ColumnType::Float
        } else {
            ColumnType::String
        },
        ColumnType::Int => if i64_text(f) {
            ColumnType::Int
        } else if f64_text(f) {
            ColumnType::Float
        } else {
            ColumnType::String
        },
        ColumnType::Float => if f64_text(f) { ColumnType::Float } else { ColumnType::String },
        ColumnType::String => ColumnType::String,
    }
}

/// The type guessed from the values in turn; missing values are skipped.
pub open spec fn guess_type(vals: Seq<Seq<char>>) -> ColumnType
    decreases vals.len(),
{
    if vals.len() == 0 {
        ColumnType::Null
    } else {
        let t = guess_type(vals.drop_last());
        if t == ColumnType::String || null_text(vals.last()) { t } else { type_after(t, vals.last()) }
    }
}

/// Some present value is not a number.
pub open spec fn has_non_number(vals: Seq<Seq<char>>) -> bool {
    exists|i: int| 0 <= i < vals.len() && !null_text(#[trigger] vals[i]) && !f64_text(vals[i])
}

/// Some present value is not an integer.
pub open spec fn has_non_int(vals: Seq<Seq<char>>) -> bool {
    exists|i: int| 0 <= i < vals.len() && !null_text(#[trigger] vals[i]) && !i64_text(vals[i])
}

/// Some value is present.
pub open spec fn has_value(vals: Seq<Seq<char>>) -> bool {
    exists|i: int| 0 <= i < vals.len() && !null_text(#[trigger] vals[i])
}

/// The narrowest type that holds every present value: `String` when a value
/// is not a number, `Float` when a value is not an integer, `Int` when some
/// value is present, else `Null`.
pub open spec fn narrowest_type(vals: Seq<Seq<char>>) -> ColumnType {
    if has_non_number(vals) {
        ColumnType::String
    } else if has_non_int(vals) {
        ColumnType::Float
    } else if has_value(vals) {
        ColumnType::Int
    } else {
        ColumnType::Null
    }
}

/// The values of column `n` in the rows.
pub open spec fn column_of(rows: Seq<Vec<&str>>, n: int) -> Seq<Seq<char>> {
    Seq::new(rows.len(), |i: int| rows[i]@[n]@)
}

/// The longest value of column `n` in the rows, in bytes; 0 for no rows.
pub open spec fn max_len(rows: Seq<Vec<&str>>, n: int) -> usize
    decreases rows.len(),
{
    if rows.len() == 0 {
        0
    } else {
        let m = max_len(rows.drop_last(), n);
        let l = rows.last()@[n].len();
        if l > m { l } else { m }
    }
}

/// Every row holds column `n`.
pub open spec fn rows_hold(rows: Seq<Vec<&str>>, n: int) -> bool {
    forall|i: int| 0 <= i < rows.len() ==> n < (#[trigger] rows[i])@.len()
}

/// Seeing a value never moves a type down.
pub proof fn type_after_never_lowers(t: ColumnType, f: Seq<char>)
    ensures
        rank(type_after(t, f)) >= rank(t),
        t == ColumnType::String ==> type_after(t, f) == ColumnType::String,
{
}

/// The guessed type of a column is the narrowest type that holds every
/// present value of the column.
pub proof fn guess_is_narrowest(vals: Seq<Seq<char>>)
    ensures
        guess_type(vals) == narrowest_type(vals),
    decreases vals.len(),
{
    if vals.len() > 0 {
        let init = vals.drop_last();
        let f = vals.last();
        let n = vals.len() - 1;
        guess_is_narrowest(init);
        assert(vals[n] == f);
        if i64_text(f) {
            i64_text_is_f64_text(f);
        }
        assert(has_non_number(vals) == (has_non_number(init) || (!null_text(f) && !f64_text(f)))) by {
            if has_non_number(vals) {
                let i = choose|i: int| 0 <= i < vals.len() && !null_text(#[trigger] vals[i]) && !f64_text(vals[i]);
                if i < n {
                    assert(init[i] == vals[i]);
                }
            }
            if has_non_number(init) {
                let i = choose|i: int| 0 <= i < init.len() && !null_text(#[trigger] init[i]) && !f64_text(init[i]);
                assert(vals[i] == init[i]);
            }
        }
        assert(has_non_int(vals) == (has_non_int(init) || (!null_text(f) && !i64_text(f)))) by {
            if has_non_int(vals) {
                let i = choose|i: int| 0 <= i < vals.len() && !null_text(#[trigger] vals[i]) && !i64_text(vals[i]);
                if i < n {
                    assert(init[i] == vals[i]);
                }
            }
            if has_non_int(init) {
                let i = choose|i: int| 0 <= i < init.len() && !null_text(#[trigger] init[i]) && !i64_text(init[i]);
                assert(vals[i] == init[i]);
            }
        }
        assert(has_value(vals) == (has_value(init) || !null_text(f))) by {
            if has_value(vals) {
                let i = choose|i: int| 0 <= i < vals.len() && !null_text(#[trigger] vals[i]);
                if i < n {
                    assert(init[i] == vals[i]);
                }
            }
            if has_value(init) {
                let i = choose|i: int| 0 <= i < init.len() && !null_text(#[trigger] init[i]);
                assert(vals[i] == init[i]);
            }
        }
        if has_non_int(init) && !has_non_number(init) {
            assert(has_value(init)) by {
                let i = choose|i: int| 0 <= i < init.len() && !null_text(#[trigger] init[i]) && !i64_text(init[i]);
            }
        }
    }
}

impl ColumnType {
    pub fn is_string(&self) -> (b: bool)
        ensures
            b == (*self == ColumnType::String),
    {
        *self == ColumnType::String
    }

    pub fn is_number(&self) -> (b: bool)
        ensures
            b == (*self == ColumnType::Int || *self == ColumnType::Float),
    {
        *self == ColumnType::Int || *self == ColumnType::Float
    }

    /// Moves the type on after the value `f`.
    pub fn update(&mut self, f: &str)
        ensures
            *final(self) == type_after(*old(self), f@),
    {
        let v = chars_of(f);
        match self {
            ColumnType::Null => {
                *self = if is_i64(&v) {
                    ColumnType::Int
                } else if is_f64(&v) {
                    ColumnType::Float
                } else {
                    ColumnType::String
                }
            },
            ColumnType::Int => {
                if !is_i64(&v) {
                    *self = if is_f64(&v) {
                        ColumnType::Float
                    } else {
                        ColumnType::String
                    }
                }
            },
            ColumnType::Float => {
                if !is_f64(&v) {
                    *self = ColumnType::String
                }
            },
            _ => {},
        }
    }

    /// The name of the type: `int`, `float`, `string` or `null`.
    /// Moves the type on as the cell `c` requires.
    pub fn update_by_excel_cell(&mut self, c: CellKind)
        ensures
            *final(self) == type_after_cell(*old(self), c),
    {
        match *self {
            ColumnType::Null | ColumnType::Int => {
                *self = match c {
                    CellKind::Int => ColumnType::Int,
                    CellKind::Float => ColumnType::Float,
                    CellKind::Other => ColumnType::String,
                };
            },
            ColumnType::Float => {
                if c != CellKind::Float {
                    *self = ColumnType::String;
                }
            },
            ColumnType::String => {},
        }
    }

    pub fn to_string(&self) -> (s: String)
        ensures
            s@ == column_type_text(*self),
    {
        proof {
            reveal_strlit("int");
            reveal_strlit("float");
            reveal_strlit("string");
            reveal_strlit("null");
            assert("int"@ =~= column_type_text(ColumnType::Int));
            assert("float"@ =~= column_type_text(ColumnType::Float));
            assert("string"@ =~= column_type_text(ColumnType::String));
            assert("null"@ =~= column_type_text(ColumnType::Null));
        }
        match *self {
            ColumnType::Float => String::from_str("float"),
            ColumnType::Int => String::from_str("int"),
            ColumnType::String => String::from_str("string"),
            ColumnType::Null => String::from_str("null"),
        }
    }
}

pub open spec fn column_type_text(t: ColumnType) -> Seq<char> {
    match t {
        ColumnType::Int => seq!['i', 'n', 't'],
        ColumnType::Float => seq!['f', 'l', 'o', 'a', 't'],
        ColumnType::String => seq!['s', 't', 'r', 'i', 'n', 'g'],
        ColumnType::Null => seq!['n', 'u', 'l', 'l'],
    }
}

/// The type of column `n` of the first `m` rows.
fn col_type_of_rows(n: usize, v: &[Vec<&str>], m: usize) -> (t: ColumnType)
    requires
        m <= v@.len(),
        rows_hold(v@.take(m as int), n as int),
    ensures
        t == guess_type(column_of(v@.take(m as int), n as int)),
{
    let mut ctype = ColumnType::Null;
    let mut i: usize = 0;
    while i < m
        invariant
            i <= m <= v@.len(),
            rows_hold(v@.take(m as int), n as int),
            ctype == guess_type(column_of(v@.take(i as int), n as int)),
        decreases m - i,
    {
        assert(v@.take(m as int)[i as int] == v@[i as int]);
        let ghost col = column_of(v@.take(i + 1), n as int);
        assert(col.drop_last() =~= column_of(v@.take(i as int), n as int));
        assert(col.last() == v@[i as int]@[n as int]@);
        if ctype.is_string() {
            proof {
                lemma_string_stays(v@, n as int, i as int, m as int);
            }
            return ctype;
        }
        let f = v[i][n];
        if !is_null(f) {
            ctype.update(f);
        }
        i += 1;
    }
    ctype
}

proof fn lemma_string_stays(rows: Seq<Vec<&str>>, n: int, i: int, m: int)
    requires
        0 <= i <= m <= rows.len(),
        guess_type(column_of(rows.take(i), n)) == ColumnType::String,
    ensures
        guess_type(column_of(rows.take(m), n)) == ColumnType::String,
    decreases m - i,
{
    if i < m {
        let col = column_of(rows.take(i + 1), n);
        assert(col.drop_last() =~= column_of(rows.take(i), n));
        lemma_string_stays(rows, n, i + 1, m);
    }
}

/// The type of column `n` of all the rows.
pub fn parse_col_type_at(n: usize, v: &[Vec<&str>]) -> (t: ColumnType)
    requires
        rows_hold(v@, n as int),
    ensures
        t == guess_type(column_of(v@, n as int)),
{
    assert(v@.take(v@.len() as int) =~= v@);
    col_type_of_rows(n, v, v.len())
}

/// The longest value of column `n` of the first `m` rows, in bytes.
fn max_length_of_rows(n: usize, v: &[Vec<&str>], m: usize) -> (l: usize)
    requires
        m <= v@.len(),
        rows_hold(v@.take(m as int), n as int),
    ensures
        l == max_len(v@.take(m as int), n as int),
{
    let mut l: usize = 0;
    let mut i: usize = 0;
    while i < m
        invariant
            i <= m <= v@.len(),
            rows_hold(v@.take(m as int), n as int),
            l == max_len(v@.take(i as int), n as int),
        decreases m - i,
    {
        assert(v@.take(m as int)[i as int] == v@[i as int]);
        assert(v@.take(i + 1).drop_last() =~= v@.take(i as int));
        assert(v@.take(i + 1).last() == v@[i as int]);
        let k = v[i][n].len();
        if k > l {
            l = k;
        }
        i += 1;
    }
    l
}

/// The longest value of column `n`, in bytes; 0 for no rows.
pub fn max_length_at(n: usize, v: &[Vec<&str>]) -> (l: usize)
    requires
        rows_hold(v@, n as int),
    ensures
        l == max_len(v@, n as int),
{
    assert(v@.take(v@.len() as int) =~= v@);
    max_length_of_rows(n, v, v.len())
}

/// The rows that a guess looks at: the first 5000.
pub open spec fn guess_rows(rows: Seq<Vec<&str>>) -> Seq<Vec<&str>> {
    if rows.len() < 5000 { rows } else { rows.take(5000) }
}

impl ColumnTypes {
    /// The column types, in order.
    pub closed spec fn types(&self) -> Seq<CType> {
        self.0@
    }

    fn push(&mut self, col_index: usize, col_type: ColumnType, max_length: usize)
        ensures
            final(self).types() == old(self).types().push((CType { col_index, col_type, max_length })),
    {
        self.0.push(CType { col_index, col_type, max_length });
    }

    /// The columns `cols` with the types `ts`: column `cols[k]` has type
    /// `ts[k]`, and no length is recorded.
    pub fn from_types(cols: &[usize], ts: &[ColumnType]) -> (g: ColumnTypes)
        requires
            cols@.len() == ts@.len(),
        ensures
            g.types().len() == ts@.len(),
            forall|k: int| 0 <= k < ts@.len() ==> #[trigger] g.types()[k]
                == (CType { col_index: cols@[k], col_type: ts@[k], max_length: 0 }),
    {
        let mut g = ColumnTypes(Vec::new());
        let mut k: usize = 0;
        while k < ts.len()
            invariant
                k <= ts@.len(),
                cols@.len() == ts@.len(),
                g.types().len() == k,
                forall|j: int| 0 <= j < k ==> #[trigger] g.types()[j]
                    == (CType { col_index: cols@[j], col_type: ts@[j], max_length: 0 }),
            decreases ts@.len() - k,
        {
            g.push(cols[k], ts[k], 0);
            k += 1;
        }
        g
    }

    /// The column types, in order.
    pub fn iter(&self) -> (s: &[CType])
        ensures
            s@ == self.types(),
    {
        self.0.as_slice()
    }

    /// Guesses the type of each selected column (each column of the first
    /// row when all are selected) from the first 5000 rows.
    pub fn guess_from_io(v: &[Vec<&str>], cols: &Columns) -> (g: ColumnTypes)
        requires
            v@.len() > 0,
            forall|k: int| 0 <= k < selected_or_all(cols.selects_all(), cols.selected(), v@[0]@.len() as usize).len()
                ==> rows_hold(guess_rows(v@), #[trigger] selected_or_all(cols.selects_all(), cols.selected(), v@[0]@.len() as usize)[k] as int),
        ensures
            ({
                let sel = selected_or_all(cols.selects_all(), cols.selected(), v@[0]@.len() as usize);
                &&& g.types().len() == sel.len()
                &&& forall|k: int| 0 <= k < sel.len() ==> #[trigger] g.types()[k] == (CType {
                    col_index: sel[k],
                    col_type: guess_type(column_of(guess_rows(v@), sel[k] as int)),
                    max_length: max_len(guess_rows(v@), sel[k] as int),
                })
            }),
    {
        let m: usize = if v.len() < 5000 { v.len() } else { 5000 };
        proof {
            if v@.len() < 5000 {
                assert(v@.take(m as int) =~= v@);
            }
        }
        let sel = cols.col_vec_or_length_of(v[0].len());
        let mut guess = ColumnTypes(Vec::new());
        let mut k: usize = 0;
        while k < sel.len()
            invariant
                k <= sel@.len(),
                m <= v@.len(),
                v@.take(m as int) == guess_rows(v@),
                sel@ == selected_or_all(cols.selects_all(), cols.selected(), v@[0]@.len() as usize),
                forall|j: int| 0 <= j < sel@.len() ==> rows_hold(guess_rows(v@), #[trigger] sel@[j] as int),
                guess.types().len() == k,
                forall|j: int| 0 <= j < k ==> #[trigger] guess.types()[j] == (CType {
                    col_index: sel@[j],
                    col_type: guess_type(column_of(guess_rows(v@), sel@[j] as int)),
                    max_length: max_len(guess_rows(v@), sel@[j] as int),
                }),
            decreases sel@.len() - k,
        {
            let c = sel[k];
            assert(rows_hold(guess_rows(v@), sel@[k as int] as int));
            let t = col_type_of_rows(c, v, m);
            let l = max_length_of_rows(c, v, m);
            guess.push(c, t, l);
            k += 1;
        }
        guess
    }
}

/// The type of each column of the rows, all rows holding at least as many
/// fields as the first.
pub fn col_type(v: &[Vec<String>]) -> (ts: Vec<ColumnType>)
    requires
        v@.len() > 0,
        forall|i: int| 0 <= i < v@.len() ==> v@[0]@.len() <= (#[trigger] v@[i])@.len(),
    ensures
        ts@.len() == v@[0]@.len(),
        forall|c: int| 0 <= c < ts@.len() ==> #[trigger] ts@[c]
            == guess_type(Seq::new(v@.len(), |i: int| v@[i]@[c]@)),
{
    let n = v[0].len();
    let mut ts: Vec<ColumnType> = Vec::new();
    let mut c: usize = 0;
    while c < n
        invariant
            c <= n,
            v@.len() > 0,
            n == v@[0]@.len(),
            forall|i: int| 0 <= i < v@.len() ==> v@[0]@.len() <= (#[trigger] v@[i])@.len(),
            ts@.len() == c,
            forall|j: int| 0 <= j < c ==> #[trigger] ts@[j]
                == guess_type(Seq::new(v@.len(), |i: int| v@[i]@[j]@)),
        decreases n - c,
    {
        let mut typ = ColumnType::Null;
        let mut i: usize = 0;
        while i < v.len() && !typ.is_string()
            invariant
                c < n,
                n == v@[0]@.len(),
                v@.len() > 0,
                i <= v@.len(),
                forall|r: int| 0 <= r < v@.len() ==> v@[0]@.len() <= (#[trigger] v@[r])@.len(),
                typ == guess_type(Seq::new(i as nat, |r: int| v@[r]@[c as int]@)),
            decreases v@.len() - i,
        {
            assert(Seq::new((i + 1) as nat, |r: int| v@[r]@[c as int]@).drop_last()
                =~= Seq::new(i as nat, |r: int| v@[r]@[c as int]@));
            let f = v[i][c].as_str();
            if !is_null(f) {
                typ.update(f);
            }
            i += 1;
        }
        proof {
            if typ == ColumnType::String {
                lemma_string_stays_owned(v@, c as int, i as int, v@.len() as int);
            } else {
                assert(Seq::new(v@.len(), |r: int| v@[r]@[c as int]@)
                    =~= Seq::new(i as nat, |r: int| v@[r]@[c as int]@));
            }
        }
        ts.push(typ);
        c += 1;
    }
    ts
}

proof fn lemma_string_stays_owned(rows: Seq<Vec<String>>, c: int, i: int, m: int)
    requires
        0 <= i <= m <= rows.len(),
        guess_type(Seq::new(i as nat, |r: int| rows[r]@[c]@)) == ColumnType::String,
    ensures
        guess_type(Seq::new(m as nat, |r: int| rows[r]@[c]@)) == ColumnType::String,
    decreases m - i,
{
    if i < m {
        assert(Seq::new((i + 1) as nat, |r: int| rows[r]@[c]@).drop_last()
            =~= Seq::new(i as nat, |r: int| rows[r]@[c]@));
        lemma_string_stays_owned(rows, c, i + 1, m);
    }
}

/// The type of column `n` of the rows of cells `lo..hi`.
fn cell_type_in(n: usize, v: &[Vec<CellKind>], lo: usize, hi: usize) -> (t: ColumnType)
    requires
        lo <= hi <= v@.len(),
        forall|i: int| lo <= i < hi ==> n < (#[trigger] v@[i])@.len(),
    ensures
        t == guess_cells_type(cell_column(v@.subrange(lo as int, hi as int), n as int)),
{
    let mut ctype = ColumnType::Null;
    let mut i: usize = lo;
    while i < hi
        invariant
            lo <= i <= hi <= v@.len(),
            forall|r: int| lo <= r < hi ==> n < (#[trigger] v@[r])@.len(),
            ctype == guess_cells_type(cell_column(v@.subrange(lo as int, i as int), n as int)),
        decreases hi - i,
    {
        assert(cell_column(v@.subrange(lo as int, i + 1), n as int).drop_last()
            =~= cell_column(v@.subrange(lo as int, i as int), n as int));
        if ctype.is_string() {
            proof {
                lemma_cells_string_stays(v@, n as int, lo as int, i as int, hi as int);
            }
            return ctype;
        }
        ctype.update_by_excel_cell(v[i][n]);
        i += 1;
    }
    ctype
}

proof fn lemma_cells_string_stays(rows: Seq<Vec<CellKind>>, n: int, lo: int, i: int, m: int)
    requires
        0 <= lo <= i <= m <= rows.len(),
        guess_cells_type(cell_column(rows.subrange(lo, i), n)) == ColumnType::String,
    ensures
        guess_cells_type(cell_column(rows.subrange(lo, m), n)) == ColumnType::String,
    decreases m - i,
{
    if i < m {
        assert(cell_column(rows.subrange(lo, i + 1), n).drop_last() =~= cell_column(rows.subrange(lo, i), n));
        lemma_cells_string_stays(rows, n, lo, i + 1, m);
    }
}

/// The type of column `n` of all the rows of cells.
pub fn parse_excel_col_type_at(n: usize, v: &[Vec<CellKind>]) -> (t: ColumnType)
    requires
        forall|i: int| 0 <= i < v@.len() ==> n < (#[trigger] v@[i])@.len(),
    ensures
        t == guess_cells_type(cell_column(v@, n as int)),
{
    assert(v@.subrange(0, v@.len() as int) =~= v@);
    cell_type_in(n, v, 0, v.len())
}

impl ColumnTypes {
    /// Guesses the type of each selected column of a sheet (each column of
    /// the first row looked at when all are selected) from the 5000 rows
    /// after the header; `None` when there are no such rows. The longest
    /// value is not measured for a sheet and is 0.
    pub fn guess_from_excel(rows: &[Vec<CellKind>], no_header: bool, cols: &Columns) -> (g: Option<ColumnTypes>)
        requires
            forall|i: int, k: int| 0 <= i < sheet_guess_rows(rows@, no_header).len()
                && 0 <= k < selected_or_all(cols.selects_all(), cols.selected(), sheet_guess_rows(rows@, no_header)[0]@.len() as usize).len()
                ==> #[trigger] selected_or_all(cols.selects_all(), cols.selected(), sheet_guess_rows(rows@, no_header)[0]@.len() as usize)[k]
                    < (#[trigger] sheet_guess_rows(rows@, no_header)[i])@.len(),
        ensures
            (g is None) == (sheet_guess_rows(rows@, no_header).len() == 0),
            g matches Some(g) ==> {
                let lines = sheet_guess_rows(rows@, no_header);
                let sel = selected_or_all(cols.selects_all(), cols.selected(), lines[0]@.len() as usize);
                &&& g.types().len() == sel.len()
                &&& forall|k: int| 0 <= k < sel.len() ==> #[trigger] g.types()[k] == (CType {
                    col_index: sel[k],
                    col_type: guess_cells_type(cell_column(lines, sel[k] as int)),
                    max_length: 0,
                })
            },
    {
        let ghost lines = sheet_guess_rows(rows@, no_header);
        let skip: usize = if no_header { 0 } else { 1 };
        if rows.len() <= skip {
            assert(lines.len() == 0);
            return None;
        }
        let rest = rows.len() - skip;
        let m: usize = if rest < 5000 { rest } else { 5000 };
        let hi = skip + m;
        assert(lines =~= rows@.subrange(skip as int, hi as int));
        let sel = cols.col_vec_or_length_of(rows[skip].len());
        let mut guess = ColumnTypes(Vec::new());
        let mut k: usize = 0;
        while k < sel.len()
            invariant
                k <= sel@.len(),
                skip < hi <= rows@.len(),
                lines == rows@.subrange(skip as int, hi as int),
                lines.len() > 0,
                sel@ == selected_or_all(cols.selects_all(), cols.selected(), lines[0]@.len() as usize),
                forall|i: int, j: int| 0 <= i < lines.len() && 0 <= j < sel@.len()
                    ==> #[trigger] sel@[j] < (#[trigger] lines[i])@.len(),
                guess.types().len() == k,
                forall|j: int| 0 <= j < k ==> #[trigger] guess.types()[j] == (CType {
                    col_index: sel@[j],
                    col_type: guess_cells_type(cell_column(lines, sel@[j] as int)),
                    max_length: 0,
                }),
            decreases sel@.len() - k,
        {
            let c = sel[k];
            assert forall|i: int| skip <= i < hi implies c < (#[trigger] rows@[i])@.len() by {
                assert(lines[i - skip] == rows@[i]);
                assert(sel@[k as int] < lines[i - skip]@.len());
            }
            let t = cell_type_in(c, rows, skip, hi);
            guess.push(c, t, 0);
            k += 1;
        }
        Some(guess)
    }
}

/// A column whose cells are all of one kind is of the type of that kind:
/// integers give `Int`, floats `Float`, anything else `String`.
pub proof fn uniform_cells_keep_their_type(cells: Seq<CellKind>, k: CellKind)
    requires
        cells.len() > 0,
        forall|i: int| 0 <= i < cells.len() ==> cells[i] == k,
    ensures
        guess_cells_type(cells) == match k {
            CellKind::Int => ColumnType::Int,
            CellKind::Float => ColumnType::Float,
            CellKind::Other => ColumnType::String,
        },
    decreases cells.len(),
{
    let d = cells.drop_last();
    assert(cells.last() == cells[cells.len() - 1]);
    assert forall|i: int| 0 <= i < d.len() implies d[i] == k by {
        assert(d[i] == cells[i]);
    }
    if cells.len() > 1 {
        uniform_cells_keep_their_type(d, k);
    } else {
        assert(d.len() == 0);
    }
}

/// A column of integers followed by floats is a column of floats: a float
/// widens integers, and further floats keep it so.
pub proof fn ints_then_floats_are_float(cells: Seq<CellKind>, m: int)
    requires
        0 <= m < cells.len(),
        forall|i: int| 0 <= i < m ==> cells[i] == CellKind::Int,
        forall|i: int| m <= i < cells.len() ==> cells[i] == CellKind::Float,
    ensures
        guess_cells_type(cells) == ColumnType::Float,
    decreases cells.len(),
{
    let d = cells.drop_last();
    assert(cells.last() == cells[cells.len() - 1]);
    assert forall|i: int| 0 <= i < d.len() implies d[i] == cells[i] by {}
    if cells.len() - 1 > m {
        ints_then_floats_are_float(d, m);
    } else if m > 0 {
        uniform_cells_keep_their_type(d, CellKind::Int);
    } else {
        assert(d.len() == 0);
    }
}

proof fn lemma_cell_string_stays(cells: Seq<CellKind>, n: int)
    requires
        0 <= n <= cells.len(),
        guess_cells_type(cells.take(n)) == ColumnType::String,
    ensures
        guess_cells_type(cells) == ColumnType::String,
    decreases cells.len() - n,
{
    if n < cells.len() {
        assert(cells.take(n + 1).drop_last() =~= cells.take(n));
        lemma_cell_string_stays(cells, n + 1);
    } else {
        assert(cells.take(n) =~= cells);
    }
}

/// A cell that is neither an integer nor a float makes the column a column
/// of text, wherever it stands.
pub proof fn other_cell_makes_string(cells: Seq<CellKind>, i: int)
    requires
        0 <= i < cells.len(),
        cells[i] == CellKind::Other,
    ensures
        guess_cells_type(cells) == ColumnType::String,
{
    assert(cells.take(i + 1).drop_last() =~= cells.take(i));
    assert(cells.take(i + 1).last() == CellKind::Other);
    lemma_cell_string_stays(cells, i + 1);
}

} // verus!

//! Parsing a column selection such as `0,1,3`, `0-2,5`, `-1` or `-3--1`.
//!
//! A negative column counts from the end of the row: `-1` is the last
//! column of a row with `total` columns.
use vstd::prelude::*;
use crate::utils::number::{i32_value, parse_i32, parse_usize, usize_value};
use crate::utils::text::{
    chars_of, decimal_text, is_blank, is_blank_chars, push_char, split_str, split_text,
    string_from_chars, usize_to_string,
};

verus! {

/// Why a column selection was refused.
#[derive(Debug, Clone, Copy, PartialEq, Eq, Structural)]
pub enum ColumnsErrorKind {
    /// A column is not a number.
    Syntax,
    /// A negative column lies before the first column.
    NotExist,
    /// A range whose first column is after its last column.
    MinAboveMax,
    /// A negative column, while the number of columns is unknown.
    MissingTotal,
}

/// A refused column selection, with the text that caused it.
#[derive(Debug)]
pub struct ColumnsError {
    pub kind: ColumnsErrorKind,
    pub column: String,
}

pub open spec fn count_char(s: Seq<char>, c: char) -> nat
    decreases s.len(),
{
    if s.len() == 0 {
        0
    } else {
        count_char(s.drop_last(), c) + if s.last() == c { 1nat } else { 0nat }
    }
}

/// The position of the occurrence of `c` numbered `n` (from 0) at or after
/// position `i`; `s.len()` when there is none.
pub open spec fn find_from(s: Seq<char>, c: char, n: nat, i: int) -> int
    decreases s.len() - i,
{
    if i < 0 || i >= s.len() {
        s.len() as int
    } else if s[i] == c {
        if n == 0 { i } else { find_from(s, c, (n - 1) as nat, i + 1) }
    } else {
        find_from(s, c, n, i + 1)
    }
}

pub open spec fn starts_with_dash(s: Seq<char>) -> bool {
    s.len() > 0 && s[0] == '-'
}

/// One column: a number, or a negative number counted from `total`.
pub open spec fn true_col(c: Seq<char>, total: Option<usize>) -> Result<usize, ColumnsErrorKind> {
    if starts_with_dash(c) {
        match total {
            None => Err(ColumnsErrorKind::MissingTotal),
            Some(t) => match i32_value(c) {
                None => Err(ColumnsErrorKind::Syntax),
                Some(v) => if t + v < 0 {
                    Err(ColumnsErrorKind::NotExist)
                } else {
                    Ok((t + v) as usize)
                },
            },
        }
    } else {
        match usize_value(c) {
            None => Err(ColumnsErrorKind::Syntax),
            Some(u) => Ok(u),
        }
    }
}

/// The first and last column of one piece of a selection, or why it is
/// refused, with the text that caused it.
pub open spec fn piece_bounds(p: Seq<char>, total: Option<usize>)
    -> Result<(usize, usize), (ColumnsErrorKind, Seq<char>)>
{
    let neg = starts_with_dash(p);
    let dashes = count_char(p, '-');
    if (neg && dashes == 1) || (!neg && dashes == 0) {
        match true_col(p, total) {
            Err(k) => Err((k, p)),
            Ok(c) => Ok((c, c)),
        }
    } else {
        let k = find_from(p, '-', if neg { 1 } else { 0 }, 0);
        let first = p.subrange(0, k);
        let second = p.subrange(k + 1, p.len() as int);
        match true_col(first, total) {
            Err(e) => Err((e, first)),
            Ok(lo) => match true_col(second, total) {
                Err(e) => Err((e, second)),
                Ok(hi) => if lo > hi { Err((ColumnsErrorKind::MinAboveMax, p)) } else { Ok((lo, hi)) },
            },
        }
    }
}

/// `cols` with `c` appended, unless it is there already.
pub open spec fn add_one(cols: Seq<usize>, c: usize) -> Seq<usize> {
    if cols.contains(c) { cols } else { cols.push(c) }
}

/// `cols` with each of the columns `lo..=hi` added in turn.
pub open spec fn add_range(cols: Seq<usize>, lo: int, hi: int) -> Seq<usize>
    decreases hi - lo + 1,
{
    if lo > hi || lo < 0 || lo > usize::MAX {
        cols
    } else {
        add_range(add_one(cols, lo as usize), lo + 1, hi)
    }
}

/// The columns selected by the pieces, added to `cols` in turn; blank
/// pieces are skipped.
pub open spec fn parse_pieces(pieces: Seq<Seq<char>>, total: Option<usize>, cols: Seq<usize>)
    -> Result<Seq<usize>, (ColumnsErrorKind, Seq<char>)>
    decreases pieces.len(),
{
    if pieces.len() == 0 {
        Ok(cols)
    } else if is_blank(pieces[0]) {
        parse_pieces(pieces.drop_first(), total, cols)
    } else {
        match piece_bounds(pieces[0], total) {
            Err(e) => Err(e),
            Ok(b) => parse_pieces(pieces.drop_first(), total, add_range(cols, b.0 as int, b.1 as int)),
        }
    }
}

/// The columns that the selection `raw` names, in order of first mention.
pub open spec fn parse_columns(raw: Seq<char>, total: Option<usize>)
    -> Result<Seq<usize>, (ColumnsErrorKind, Seq<char>)>
{
    if raw.len() == 0 {
        Ok(seq![])
    } else {
        parse_pieces(split_text(raw, seq![',']), total, seq![])
    }
}

/// The largest element of a non-empty sequence.
pub open spec fn seq_max(s: Seq<usize>) -> usize
    decreases s.len(),
{
    if s.len() <= 1 {
        if s.len() == 1 { s[0] } else { 0 }
    } else {
        let m = seq_max(s.drop_last());
        if s.last() > m { s.last() } else { m }
    }
}

/// No element occurs twice.
pub open spec fn distinct(s: Seq<usize>) -> bool {
    forall|i: int, j: int| 0 <= i < j < s.len() ==> s[i] != s[j]
}

/// "col" followed by the number `i`.
pub open spec fn col_name(i: usize) -> Seq<char> {
    seq!['c', 'o', 'l'] + decimal_text(i as nat)
}

/// The fields named by `cols`, joined with commas.
pub open spec fn joined(fields: Seq<Seq<char>>, cols: Seq<usize>) -> Seq<char>
    decreases cols.len(),
{
    if cols.len() == 0 {
        seq![]
    } else if cols.len() == 1 {
        fields[cols[0] as int]
    } else {
        joined(fields, cols.drop_last()) + seq![','] + fields[cols.last() as int]
    }
}

/// A selection of columns.
#[derive(Debug)]
pub struct Columns {
    pub raw: String,
    pub total: Option<usize>,
    pub cols: Vec<usize>,
    pub max: usize,
    pub select_all: bool,
    pub parsed: bool,
}

impl Columns {
    pub closed spec fn raw_text(&self) -> Seq<char> {
        self.raw@
    }

    pub closed spec fn total_spec(&self) -> Option<usize> {
        self.total
    }

    /// A known number of columns fits in `i32`, as negative columns need.
    pub closed spec fn wf(&self) -> bool {
        self.total is Some ==> self.total->0 <= i32::MAX
    }

    /// The selected columns.
    pub open spec fn selected(&self) -> Seq<usize> {
        self.cols@
    }

    pub open spec fn max_col(&self) -> usize {
        self.max
    }

    pub closed spec fn selects_all(&self) -> bool {
        self.select_all
    }

    pub closed spec fn is_parsed(&self) -> bool {
        self.parsed
    }

    /// The selection `raw`, not parsed yet; all columns are selected until
    /// it is.
    pub fn new(raw: &str) -> (c: Columns)
        ensures
            c.wf(),
            c.raw_text() == raw@,
            c.total_spec() is None,
            c.selected().len() == 0,
            c.max_col() == 0,
            c.selects_all(),
            !c.is_parsed(),
    {
        Columns { raw: raw.to_owned(), total: None, cols: Vec::new(), max: 0, select_all: true, parsed: false }
    }

    /// Sets the number of columns of a row, which negative columns count
    /// from.
    pub fn total_col(self, total: usize) -> (c: Columns)
        requires
            total <= i32::MAX,
        ensures
            c.wf(),
            c.total_spec() == Some(total),
            c.raw_text() == self.raw_text(),
            c.selected() == self.selected(),
            c.max_col() == self.max_col(),
            c.selects_all() == self.selects_all(),
            c.is_parsed() == self.is_parsed(),
    {
        let mut c = self;
        c.total = Some(total);
        c
    }

    /// Takes the number of columns from `first_row`, split at `sep`.
    pub fn total_col_of(self, first_row: &str, sep: &str) -> (c: Columns)
        requires
            split_text(first_row@, sep@).len() <= i32::MAX,
        ensures
            c.wf(),
            c.total_spec() == Some(split_text(first_row@, sep@).len() as usize),
            c.raw_text() == self.raw_text(),
            c.selected() == self.selected(),
            c.max_col() == self.max_col(),
            c.selects_all() == self.selects_all(),
            c.is_parsed() == self.is_parsed(),
    {
        let v = split_str(first_row, sep);
        assert(v@.map_values(|x: String| x@).len() == v@.len());
        let n = v.len();
        self.total_col(n)
    }

    /// Parses the selection. An empty selection selects all columns.
    #[verifier::loop_isolation(false)]
    pub fn parse(self) -> (r: Result<Columns, ColumnsError>)
        requires
            self.wf(),
            parse_columns(self.raw_text(), self.total_spec()) matches Ok(cs)
                ==> (self.raw_text().len() == 0 || cs.len() > 0),
        ensures
            (r is Ok) == (parse_columns(self.raw_text(), self.total_spec()) is Ok),
            r matches Ok(c) ==> {
                let cs = parse_columns(self.raw_text(), self.total_spec())->Ok_0;
                &&& c.is_parsed()
                &&& c.wf()
                &&& c.raw_text() == self.raw_text()
                &&& c.total_spec() == self.total_spec()
                &&& self.raw_text().len() == 0 ==> (c.selected() == self.selected()
                    && c.max_col() == self.max_col() && c.selects_all() == self.selects_all())
                &&& self.raw_text().len() > 0 ==> (c.selected() == cs && c.max_col() == seq_max(cs)
                    && !c.selects_all() && distinct(cs))
                &&& self.raw_text().len() > 0 ==> forall|k: int| 0 <= k < c.selected().len()
                    ==> #[trigger] c.selected()[k] <= c.max_col()
            },
            r matches Err(e) ==> e.kind == parse_columns(self.raw_text(), self.total_spec())->Err_0.0
                && e.column@ == parse_columns(self.raw_text(), self.total_spec())->Err_0.1,
    {
        let ghost raw0 = self.raw_text();
        let ghost total0 = self.total_spec();
        let mut c = self;
        c.parsed = true;
        if c.raw.as_str().is_empty() {
            proof {
                assert(c.raw@.len() == 0);
            }
            return Ok(c);
        }
        let pieces = split_str(c.raw.as_str(), ",");
        proof {
            reveal_strlit(",");
            assert(","@ =~= seq![',']);
        }
        let ghost all = pieces@.map_values(|x: String| x@);
        let ghost total = c.total;
        let mut cols: Vec<usize> = Vec::new();
        let mut i: usize = 0;
        assert(all.subrange(0, all.len() as int) =~= all);
        assert(all == split_text(c.raw@, seq![',']));
        while i < pieces.len()
            invariant
                i <= pieces.len(),
                all == pieces@.map_values(|x: String| x@),
                total == c.total,
                total == total0,
                raw0.len() > 0,
                parse_pieces(all, total, seq![]) == parse_columns(raw0, total0),
                total is Some ==> total->0 <= i32::MAX,
                distinct(cols@),
                parse_pieces(all.subrange(i as int, all.len() as int), total, cols@)
                    == parse_pieces(all, total, seq![]),
            decreases pieces.len() - i,
        {
            let p = chars_of(pieces[i].as_str());
            assert(all.subrange(i as int, all.len() as int).drop_first()
                =~= all.subrange(i + 1, all.len() as int));
            assert(all.subrange(i as int, all.len() as int)[0] == p@);
            if !is_blank_chars(&p) {
                match Self::piece_bounds(&p, c.total) {
                    Err(e) => {
                        assert(parse_pieces(all.subrange(i as int, all.len() as int), total, cols@)
                            == Err::<Seq<usize>, (ColumnsErrorKind, Seq<char>)>(piece_bounds(p@, total)->Err_0));
                        return Err(e);
                    },
                    Ok((lo, hi)) => {
                        push_range(&mut cols, lo, hi);
                    },
                }
            }
            i += 1;
        }
        proof {
            assert(all.subrange(i as int, all.len() as int).len() == 0);
        }
        c.max = max_of(&cols);
        proof {
            lemma_seq_max_bounds(cols@);
        }
        c.select_all = cols.len() == 0;
        c.cols = cols;
        Ok(c)
    }

    /// The first and last column of one non-blank piece of the selection.
    fn piece_bounds(p: &Vec<char>, total: Option<usize>) -> (r: Result<(usize, usize), ColumnsError>)
        requires
            total is Some ==> total->0 <= i32::MAX,
        ensures
            match (r, piece_bounds(p@, total)) {
                (Ok(b), Ok(sb)) => b == sb,
                (Err(e), Err(se)) => e.kind == se.0 && e.column@ == se.1,
                _ => false,
            },
    {
        let neg = p.len() > 0 && p[0] == '-';
        let dashes = count_dashes(p);
        if (neg && dashes == 1) || (!neg && dashes == 0) {
            match true_col_of(p, total) {
                Err(k) => Err(ColumnsError { kind: k, column: string_from_chars(p, 0, p.len()) }),
                Ok(c) => Ok((c, c)),
            }
        } else {
            let k = find_dash(p, if neg { 1 } else { 0 });
            proof {
                assert(p@.skip(0) =~= p@);
                if neg {
                    lemma_count_char_split(p@, '-', 1);
                    let one = p@.take(1);
                    assert(one.drop_last() =~= Seq::<char>::empty());
                    assert(count_char(Seq::<char>::empty(), '-') == 0);
                    assert(count_char(one, '-') == 1);
                }
                lemma_find_from_found(p@, '-', if neg { 1 } else { 0 }, 0);
            }
            let first = crate::utils::number::tail_from(&take_chars(p, k), 0);
            let second = crate::utils::number::tail_from(p, k + 1);
            proof {
                assert(first@ =~= p@.subrange(0, k as int));
            }
            match true_col_of(&first, total) {
                Err(e) => Err(ColumnsError { kind: e, column: string_from_chars(&first, 0, first.len()) }),
                Ok(lo) => match true_col_of(&second, total) {
                    Err(e) => Err(ColumnsError { kind: e, column: string_from_chars(&second, 0, second.len()) }),
                    Ok(hi) => if lo > hi {
                        Err(ColumnsError {
                            kind: ColumnsErrorKind::MinAboveMax,
                            column: string_from_chars(p, 0, p.len()),
                        })
                    } else {
                        Ok((lo, hi))
                    },
                },
            }
        }
    }

    /// The selected columns, in order.
    pub fn iter(&self) -> (s: &[usize])
        ensures
            s@ == self.selected(),
    {
        self.cols.as_slice()
    }

    /// `col<i>` for each selected column `i`, then `n`.
    pub fn artificial_cols_with_appended_n(&self) -> (v: Vec<String>)
        ensures
            v@.len() == self.selected().len() + 1,
            forall|k: int| 0 <= k < self.selected().len() ==> #[trigger] v@[k]@ == col_name(self.selected()[k]),
            v@[self.selected().len() as int]@ == seq!['n'],
    {
        let mut v: Vec<String> = Vec::new();
        let mut k: usize = 0;
        while k < self.cols.len()
            invariant
                k <= self.selected().len(),
                v@.len() == k,
                forall|j: int| 0 <= j < k ==> #[trigger] v@[j]@ == col_name(self.selected()[j]),
            decreases self.selected().len() - k,
        {
            v.push(col_name_of(self.cols[k]));
            k += 1;
        }
        let mut n = String::new();
        push_char(&mut n, 'n');
        v.push(n);
        v
    }

    /// `col0`, `col1`, ... up to `col<n - 1>`.
    pub fn artificial_n_cols(&self, n: usize) -> (v: Vec<String>)
        ensures
            v@.len() == n,
            forall|k: int| 0 <= k < n ==> #[trigger] v@[k]@ == col_name(k as usize),
    {
        let mut v: Vec<String> = Vec::new();
        let mut k: usize = 0;
        while k < n
            invariant
                k <= n,
                v@.len() == k,
                forall|j: int| 0 <= j < k ==> #[trigger] v@[j]@ == col_name(j as usize),
            decreases n - k,
        {
            v.push(col_name_of(k));
            k += 1;
        }
        v
    }

    /// The selected fields of `all`, joined with commas.
    pub fn select_owned_string(&self, all: &[&str]) -> (s: String)
        requires
            forall|k: int| 0 <= k < self.selected().len() ==> #[trigger] self.selected()[k] < all@.len(),
        ensures
            s@ == joined(all@.map_values(|x: &str| x@), self.selected()),
    {
        let ghost fields = all@.map_values(|x: &str| x@);
        let mut s = String::new();
        let mut k: usize = 0;
        while k < self.cols.len()
            invariant
                k <= self.selected().len(),
                fields == all@.map_values(|x: &str| x@),
                forall|j: int| 0 <= j < self.selected().len() ==> #[trigger] self.selected()[j] < all@.len(),
                s@ == joined(fields, self.selected().take(k as int)),
            decreases self.selected().len() - k,
        {
            let ghost before = s@;
            if k > 0 {
                push_char(&mut s, ',');
            }
            let f = all[self.cols[k]];
            s.append(f);
            k += 1;
            proof {
                let t = self.selected().take(k as int);
                assert(t.drop_last() =~= self.selected().take(k - 1));
                if k == 1 {
                    assert(before =~= Seq::<char>::empty());
                    assert(s@ =~= fields[t[0] as int]);
                } else {
                    assert(s@ =~= before + seq![','] + fields[t.last() as int]);
                }
            }
        }
        assert(self.selected().take(self.selected().len() as int) =~= self.selected());
        s
    }

    /// The selected fields of `all`, in the order selected.
    pub fn select_fields<'a>(&self, all: &[&'a str]) -> (v: Vec<&'a str>)
        requires
            forall|k: int| 0 <= k < self.selected().len() ==> #[trigger] self.selected()[k] < all@.len(),
        ensures
            v@.len() == self.selected().len(),
            forall|k: int| 0 <= k < self.selected().len() ==> #[trigger] v@[k] == all@[self.selected()[k] as int],
    {
        let mut v: Vec<&'a str> = Vec::new();
        let mut k: usize = 0;
        while k < self.cols.len()
            invariant
                k <= self.selected().len(),
                v@.len() == k,
                forall|j: int| 0 <= j < self.selected().len() ==> #[trigger] self.selected()[j] < all@.len(),
                forall|j: int| 0 <= j < k ==> #[trigger] v@[j] == all@[self.selected()[j] as int],
            decreases self.selected().len() - k,
        {
            v.push(all[self.cols[k]]);
            k += 1;
        }
        v
    }

    /// The selected fields of `all`, then `n`.
    pub fn select_owned_vector_and_append_n(&self, all: &[&str]) -> (v: Vec<String>)
        requires
            forall|k: int| 0 <= k < self.selected().len() ==> #[trigger] self.selected()[k] < all@.len(),
        ensures
            v@.len() == self.selected().len() + 1,
            forall|k: int| 0 <= k < self.selected().len() ==> #[trigger] v@[k]@ == all@[self.selected()[k] as int]@,
            v@[self.selected().len() as int]@ == seq!['n'],
    {
        let mut v: Vec<String> = Vec::new();
        let mut k: usize = 0;
        while k < self.cols.len()
            invariant
                k <= self.selected().len(),
                v@.len() == k,
                forall|j: int| 0 <= j < self.selected().len() ==> #[trigger] self.selected()[j] < all@.len(),
                forall|j: int| 0 <= j < k ==> #[trigger] v@[j]@ == all@[self.selected()[j] as int]@,
            decreases self.selected().len() - k,
        {
            v.push(all[self.cols[k]].to_owned());
            k += 1;
        }
        let mut n = String::new();
        push_char(&mut n, 'n');
        v.push(n);
        v
    }

    /// The selected columns, or all columns `0..n` when the selection
    /// selects all.
    pub fn col_vec_or_length_of(&self, n: usize) -> (v: Vec<usize>)
        ensures
            v@ == selected_or_all(self.selects_all(), self.selected(), n),
    {
        if self.select_all {
            let mut v: Vec<usize> = Vec::new();
            let mut k: usize = 0;
            while k < n
                invariant
                    k <= n,
                    v@ == Seq::new(k as nat, |j: int| j as usize),
                decreases n - k,
            {
                v.push(k);
                k += 1;
                assert(v@ =~= Seq::new(k as nat, |j: int| j as usize));
            }
            v
        } else {
            self.cols.clone()
        }
    }
}

/// The columns `0..n` when `all` holds, else `cols`.
pub open spec fn selected_or_all(all: bool, cols: Seq<usize>, n: usize) -> Seq<usize> {
    if all { Seq::new(n as nat, |j: int| j as usize) } else { cols }
}

fn col_name_of(i: usize) -> (s: String)
    ensures
        s@ == col_name(i),
{
    let mut s = String::new();
    push_char(&mut s, 'c');
    push_char(&mut s, 'o');
    push_char(&mut s, 'l');
    let d = usize_to_string(i);
    s.append(d.as_str());
    assert(s@ =~= col_name(i));
    s
}

fn count_dashes(p: &Vec<char>) -> (n: usize)
    ensures
        n == count_char(p@, '-'),
{
    let mut n: usize = 0;
    let mut i: usize = 0;
    while i < p.len()
        invariant
            i <= p.len(),
            n == count_char(p@.take(i as int), '-'),
            n <= i,
        decreases p.len() - i,
    {
        assert(p@.take(i + 1).drop_last() =~= p@.take(i as int));
        if p[i] == '-' {
            n += 1;
        }
        i += 1;
    }
    assert(p@.take(p@.len() as int) =~= p@);
    n
}

proof fn lemma_count_char_split(s: Seq<char>, c: char, i: int)
    requires
        0 <= i <= s.len(),
    ensures
        count_char(s, c) == count_char(s.take(i), c) + count_char(s.skip(i), c),
    decreases s.len(),
{
    if s.len() == 0 {
        assert(s.take(i) =~= s);
        assert(s.skip(i) =~= s);
    } else if i == s.len() {
        assert(s.take(i) =~= s);
        assert(s.skip(i) =~= Seq::<char>::empty());
    } else {
        lemma_count_char_split(s.drop_last(), c, i);
        assert(s.drop_last().take(i) =~= s.take(i));
        assert(s.skip(i).drop_last() =~= s.drop_last().skip(i));
        assert(s.skip(i).last() == s.last());
    }
}

/// When `s[i..]` holds more than `n` occurrences of `c`, `find_from` finds one.
proof fn lemma_find_from_found(s: Seq<char>, c: char, n: nat, i: int)
    requires
        0 <= i <= s.len(),
        count_char(s.skip(i), c) > n,
    ensures
        i <= find_from(s, c, n, i) < s.len(),
        s[find_from(s, c, n, i)] == c,
    decreases s.len() - i,
{
    if i == s.len() {
        assert(s.skip(i) =~= Seq::<char>::empty());
    } else {
        let t = s.skip(i);
        lemma_count_char_split(t, c, 1);
        assert(t.skip(1) =~= s.skip(i + 1));
        let one = t.take(1);
        assert(one.drop_last() =~= Seq::<char>::empty());
        assert(one.last() == s[i]);
        assert(count_char(Seq::<char>::empty(), c) == 0);
        assert(count_char(one, c) == if s[i] == c { 1nat } else { 0nat });
        if s[i] == c {
            if n > 0 {
                lemma_find_from_found(s, c, (n - 1) as nat, i + 1);
            }
        } else {
            lemma_find_from_found(s, c, n, i + 1);
        }
    }
}

/// `find_from(p, '-', n, 0)`.
fn find_dash(p: &Vec<char>, n: usize) -> (k: usize)
    ensures
        k == find_from(p@, '-', n as nat, 0),
{
    let mut left = n;
    let mut i: usize = 0;
    while i < p.len()
        invariant
            i <= p.len(),
            find_from(p@, '-', left as nat, i as int) == find_from(p@, '-', n as nat, 0),
        decreases p.len() - i,
    {
        if p[i] == '-' {
            if left == 0 {
                return i;
            }
            left -= 1;
        }
        i += 1;
    }
    p.len()
}

fn take_chars(p: &Vec<char>, k: usize) -> (t: Vec<char>)
    requires
        k <= p.len(),
    ensures
        t@ == p@.subrange(0, k as int),
{
    let mut t: Vec<char> = Vec::new();
    let mut i: usize = 0;
    while i < k
        invariant
            i <= k <= p.len(),
            t@ == p@.subrange(0, i as int),
        decreases k - i,
    {
        t.push(p[i]);
        i += 1;
        assert(t@ =~= p@.subrange(0, i as int));
    }
    t
}

/// The column that `c` names.
pub fn true_col_of(c: &Vec<char>, total: Option<usize>) -> (r: Result<usize, ColumnsErrorKind>)
    requires
        total is Some ==> total->0 <= i32::MAX,
    ensures
        r == true_col(c@, total),
{
    if c.len() > 0 && c[0] == '-' {
        match total {
            None => Err(ColumnsErrorKind::MissingTotal),
            Some(t) => match parse_i32(c) {
                None => Err(ColumnsErrorKind::Syntax),
                Some(v) => {
                    let i = t as i64 + v as i64;
                    if i < 0 {
                        Err(ColumnsErrorKind::NotExist)
                    } else {
                        Ok(i as usize)
                    }
                },
            },
        }
    } else {
        match parse_usize(c) {
            None => Err(ColumnsErrorKind::Syntax),
            Some(u) => Ok(u),
        }
    }
}

/// Adds `c` to `cols` unless it is there already.
fn push_col(cols: &mut Vec<usize>, c: usize)
    requires
        distinct(old(cols)@),
    ensures
        final(cols)@ == add_one(old(cols)@, c),
        distinct(final(cols)@),
{
    let mut i: usize = 0;
    while i < cols.len()
        invariant
            i <= cols.len(),
            cols@ == old(cols)@,
            distinct(cols@),
            forall|k: int| 0 <= k < i ==> cols@[k] != c,
        decreases cols.len() - i,
    {
        if cols[i] == c {
            assert(cols@.contains(c));
            return;
        }
        i += 1;
    }
    assert(!cols@.contains(c));
    cols.push(c);
}

/// Adds the columns `lo..=hi` to `cols` in turn.
fn push_range(cols: &mut Vec<usize>, lo: usize, hi: usize)
    requires
        lo <= hi,
        distinct(old(cols)@),
    ensures
        final(cols)@ == add_range(old(cols)@, lo as int, hi as int),
        distinct(final(cols)@),
{
    let mut i = lo;
    loop
        invariant
            lo <= i <= hi,
            distinct(cols@),
            add_range(cols@, i as int, hi as int) == add_range(old(cols)@, lo as int, hi as int),
        decreases hi - i,
    {
        let ghost before = cols@;
        push_col(cols, i);
        assert(add_range(before, i as int, hi as int) == add_range(cols@, i + 1, hi as int));
        if i == hi {
            return;
        }
        i += 1;
    }
}

proof fn lemma_seq_max_bounds(s: Seq<usize>)
    ensures
        forall|k: int| 0 <= k < s.len() ==> #[trigger] s[k] <= seq_max(s),
    decreases s.len(),
{
    if s.len() > 1 {
        lemma_seq_max_bounds(s.drop_last());
        assert forall|k: int| 0 <= k < s.len() implies #[trigger] s[k] <= seq_max(s) by {
            if k < s.len() - 1 {
                assert(s[k] == s.drop_last()[k]);
            }
        }
    }
}

/// The largest of the columns.
fn max_of(cols: &Vec<usize>) -> (m: usize)
    ensures
        cols@.len() > 0 ==> m == seq_max(cols@),
{
    let mut m: usize = 0;
    let mut i: usize = 0;
    while i < cols.len()
        invariant
            i <= cols.len(),
            i > 0 ==> m == seq_max(cols@.take(i as int)),
        decreases cols.len() - i,
    {
        assert(cols@.take(i + 1).drop_last() =~= cols@.take(i as int));
        if i == 0 || cols[i] > m {
            m = cols[i];
        }
        i += 1;
    }
    assert(cols@.take(cols@.len() as int) =~= cols@);
    m
}

/// The columns `lo..=hi`, in order.
pub open spec fn range_seq(lo: int, hi: int) -> Seq<usize> {
    if lo > hi { seq![] } else { Seq::new((hi - lo + 1) as nat, |i: int| (lo + i) as usize) }
}

/// Every column that the pieces name, in the order named, repeats
/// included; blank pieces name none.
pub open spec fn mentions(pieces: Seq<Seq<char>>, total: Option<usize>) -> Seq<usize>
    decreases pieces.len(),
{
    if pieces.len() == 0 {
        seq![]
    } else if is_blank(pieces[0]) {
        mentions(pieces.drop_first(), total)
    } else {
        match piece_bounds(pieces[0], total) {
            Err(_) => seq![],
            Ok(b) => range_seq(b.0 as int, b.1 as int) + mentions(pieces.drop_first(), total),
        }
    }
}

/// Every column that the selection `raw` names, in the order named.
pub open spec fn named_columns(raw: Seq<char>, total: Option<usize>) -> Seq<usize> {
    mentions(split_text(raw, seq![',']), total)
}

/// The position where `c` first occurs in `m`, or -1.
pub open spec fn first_pos(m: Seq<usize>, c: usize) -> int
    decreases m.len(),
{
    if m.len() == 0 {
        -1
    } else {
        let p = first_pos(m.drop_last(), c);
        if p >= 0 { p } else if m.last() == c { m.len() - 1 } else { -1 }
    }
}

/// `cols` lists the columns of `m` once each, in order of first mention.
pub open spec fn lists_first_mentions(cols: Seq<usize>, m: Seq<usize>) -> bool {
    &&& distinct(cols)
    &&& forall|c: usize| cols.contains(c) <==> m.contains(c)
    &&& forall|i: int, j: int| 0 <= i < j < cols.len() ==> first_pos(m, cols[i]) < first_pos(m, cols[j])
}

proof fn lemma_first_pos(m: Seq<usize>, c: usize)
    ensures
        m.contains(c) ==> 0 <= first_pos(m, c) < m.len() && m[first_pos(m, c)] == c,
        !m.contains(c) ==> first_pos(m, c) == -1,
    decreases m.len(),
{
    if m.len() > 0 {
        let d = m.drop_last();
        lemma_first_pos(d, c);
        if d.contains(c) {
            let k = choose|k: int| 0 <= k < d.len() && d[k] == c;
            assert(m[k] == c);
        }
        if m.contains(c) && !d.contains(c) {
            let k = choose|k: int| 0 <= k < m.len() && m[k] == c;
            if k < m.len() - 1 {
                assert(d[k] == c);
            }
        }
        if !m.contains(c) && d.contains(c) {
            let k = choose|k: int| 0 <= k < d.len() && d[k] == c;
            assert(m[k] == c);
        }
    }
}

proof fn lemma_add_one_lists(cols: Seq<usize>, m: Seq<usize>, c: usize)
    requires
        lists_first_mentions(cols, m),
    ensures
        lists_first_mentions(add_one(cols, c), m.push(c)),
{
    let m2 = m.push(c);
    assert(m2.drop_last() =~= m);
    assert forall|x: usize| m.contains(x) implies first_pos(m2, x) == first_pos(m, x) by {
        lemma_first_pos(m, x);
    }
    assert forall|x: usize| m2.contains(x) <==> (m.contains(x) || x == c) by {
        if m2.contains(x) && x != c {
            let k = choose|k: int| 0 <= k < m2.len() && m2[k] == x;
            assert(m[k] == x);
        }
        if m.contains(x) {
            let k = choose|k: int| 0 <= k < m.len() && m[k] == x;
            assert(m2[k] == x);
        }
        if x == c {
            assert(m2[m.len() as int] == x);
        }
    }
    if cols.contains(c) {
        assert forall|i: int| 0 <= i < cols.len() implies first_pos(m2, #[trigger] cols[i]) == first_pos(m, cols[i]) by {
            assert(cols.contains(cols[i]));
        }
    } else {
        let n = cols.push(c);
        lemma_first_pos(m, c);
        assert(first_pos(m2, c) == m.len());
        assert forall|i: int| 0 <= i < cols.len() implies first_pos(m2, #[trigger] cols[i]) == first_pos(m, cols[i])
            && first_pos(m, cols[i]) < m.len() by {
            assert(cols.contains(cols[i]));
            lemma_first_pos(m, cols[i]);
        }
        assert forall|x: usize| n.contains(x) <==> m2.contains(x) by {
            if n.contains(x) && x != c {
                let k = choose|k: int| 0 <= k < n.len() && n[k] == x;
                assert(cols[k] == x);
            }
            if cols.contains(x) {
                let k = choose|k: int| 0 <= k < cols.len() && cols[k] == x;
                assert(n[k] == x);
            }
            if x == c {
                assert(n[cols.len() as int] == x);
            }
        }
        assert forall|i: int, j: int| 0 <= i < j < n.len() implies n[i] != n[j] by {
            if j == cols.len() {
                assert(cols.contains(n[i]));
            }
        }
        assert forall|i: int, j: int| 0 <= i < j < n.len() implies first_pos(m2, n[i]) < first_pos(m2, n[j]) by {
            assert(n[i] == cols[i]);
            if j < cols.len() {
                assert(n[j] == cols[j]);
            }
        }
    }
}

proof fn lemma_add_range_lists(cols: Seq<usize>, m: Seq<usize>, lo: int, hi: int)
    requires
        lists_first_mentions(cols, m),
        0 <= lo,
        hi <= usize::MAX,
    ensures
        lists_first_mentions(add_range(cols, lo, hi), m + range_seq(lo, hi)),
    decreases hi - lo + 1,
{
    if lo > hi {
        assert(m + range_seq(lo, hi) =~= m);
    } else {
        lemma_add_one_lists(cols, m, lo as usize);
        lemma_add_range_lists(add_one(cols, lo as usize), m.push(lo as usize), lo + 1, hi);
        assert(m.push(lo as usize) + range_seq(lo + 1, hi) =~= m + range_seq(lo, hi));
    }
}

proof fn lemma_parse_pieces_lists(pieces: Seq<Seq<char>>, total: Option<usize>, cols: Seq<usize>, m: Seq<usize>)
    requires
        lists_first_mentions(cols, m),
        parse_pieces(pieces, total, cols) is Ok,
    ensures
        lists_first_mentions(parse_pieces(pieces, total, cols)->Ok_0, m + mentions(pieces, total)),
    decreases pieces.len(),
{
    if pieces.len() == 0 {
        assert(m + mentions(pieces, total) =~= m);
    } else if is_blank(pieces[0]) {
        lemma_parse_pieces_lists(pieces.drop_first(), total, cols, m);
    } else {
        let b = piece_bounds(pieces[0], total)->Ok_0;
        let r = range_seq(b.0 as int, b.1 as int);
        lemma_add_range_lists(cols, m, b.0 as int, b.1 as int);
        lemma_parse_pieces_lists(pieces.drop_first(), total, add_range(cols, b.0 as int, b.1 as int), m + r);
        assert(m + r + mentions(pieces.drop_first(), total) =~= m + mentions(pieces, total));
    }
}

/// A selection lists every column it names exactly once, in the order in
/// which each is first named: `2,0-2` gives 2, 0, 1.
pub proof fn selection_lists_named_columns_once(raw: Seq<char>, total: Option<usize>)
    requires
        raw.len() > 0,
        parse_columns(raw, total) is Ok,
    ensures
        lists_first_mentions(parse_columns(raw, total)->Ok_0, named_columns(raw, total)),
{
    let e = Seq::<usize>::empty();
    assert(lists_first_mentions(e, e));
    lemma_parse_pieces_lists(split_text(raw, seq![',']), total, e, e);
    assert(e + named_columns(raw, total) =~= named_columns(raw, total));
}

} // verus!

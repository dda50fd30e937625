//! Sorting rows by one or two columns, as text; `-c 0,1D` sorts by column 0
//! ascending, then by column 1 descending. A column marked `N` compares
//! numbers, which callers sort as floating-point values.
use vstd::prelude::*;
use crate::utils::number::{all_digits, digits_value, is_digit, parse_usize, usize_value};
use crate::utils::ordering::{
    KeyPair, TextKey, lemma_text_order_antisymmetric, positions, stable_le, stable_sort_positions,
};
use crate::utils::text::{
    chars_of, contains_text, split_from, split_str, split_text, string_from_chars, text_order,
};

verus! {

#[derive(Debug, Clone, Copy, PartialEq, Eq, Structural)]
pub struct SortColumn {
    pub col: usize,
    pub ascending: bool,
    pub numeric: bool,
}

#[derive(Debug, Clone, Copy, PartialEq, Eq, Structural)]
pub enum SortColumnsErrorKind {
    /// A column that is not a number; the text is the piece.
    Syntax,
    /// No column given.
    NoColumn,
    /// More than two columns given.
    TooMany,
}

#[derive(Debug)]
pub struct SortColumnsError {
    pub kind: SortColumnsErrorKind,
    pub text: String,
}

/// The columns to sort by, one or two.
#[derive(Debug)]
pub struct SortColumns(Vec<SortColumn>);

pub open spec fn is_flag(c: char) -> bool {
    c == 'n' || c == 'N' || c == 'd' || c == 'D'
}

/// `j` without one trailing `n`, `N`, `d` or `D`.
pub open spec fn strip_flag(j: Seq<char>) -> Seq<char> {
    if j.len() > 0 && is_flag(j.last()) { j.drop_last() } else { j }
}

/// `s` without its spaces.
pub open spec fn without_spaces(s: Seq<char>) -> Seq<char>
    decreases s.len(),
{
    if s.len() == 0 {
        seq![]
    } else {
        let r = without_spaces(s.drop_last());
        if s.last() == ' ' { r } else { r.push(s.last()) }
    }
}

/// The columns of the pieces, or the first piece that names no column.
pub open spec fn sort_pieces(pieces: Seq<Seq<char>>) -> Result<Seq<SortColumn>, Seq<char>>
    decreases pieces.len(),
{
    if pieces.len() == 0 {
        Ok(seq![])
    } else {
        match sort_pieces(pieces.drop_last()) {
            Err(e) => Err(e),
            Ok(cs) => {
                let i = pieces.last();
                let j = strip_flag(strip_flag(without_spaces(i)));
                if j.len() == 0 {
                    Ok(cs)
                } else {
                    match usize_value(j) {
                        None => Err(i),
                        Some(col) => Ok(cs.push(SortColumn {
                            col,
                            ascending: !(contains_text(i, seq!['d']) || contains_text(i, seq!['D'])),
                            numeric: contains_text(i, seq!['n']) || contains_text(i, seq!['N']),
                        })),
                    }
                }
            },
        }
    }
}

/// The columns that `cols` names, or why it is refused and the text that
/// caused it.
pub open spec fn sort_columns_of(cols: Seq<char>) -> Result<Seq<SortColumn>, (SortColumnsErrorKind, Seq<char>)> {
    match sort_pieces(split_text(cols, seq![','])) {
        Err(i) => Err((SortColumnsErrorKind::Syntax, i)),
        Ok(cs) => if cs.len() == 0 {
            Err((SortColumnsErrorKind::NoColumn, seq![]))
        } else if cs.len() > 2 {
            Err((SortColumnsErrorKind::TooMany, seq![]))
        } else {
            Ok(cs)
        },
    }
}

/// Field `c` of the fields, or an empty text when there are fewer.
pub open spec fn field_or_empty(fields: Seq<Seq<char>>, c: int) -> Seq<char> {
    if 0 <= c < fields.len() { fields[c] } else { seq![] }
}

/// Position `i` comes no later than `j` when sorting by the texts `f`, in
/// the given direction, equal texts keeping their order.
pub open spec fn text_stable_le(f: Seq<Seq<char>>, ascending: bool, i: usize, j: usize) -> bool {
    let o = if ascending { text_order(f[i as int], f[j as int]) } else { text_order(f[j as int], f[i as int]) };
    o < 0 || (o == 0 && i <= j)
}

/// The positions are sorted by the texts `f`, equal texts in their order.
pub open spec fn text_sorted(f: Seq<Seq<char>>, ascending: bool, s: Seq<usize>) -> bool {
    forall|a: int, b: int| 0 <= a < b < s.len() ==> text_stable_le(f, ascending, #[trigger] s[a], #[trigger] s[b])
}

/// Position `i` comes no later than `j` when sorting by the texts `f`, then
/// by the texts `g`, each in its direction, equal pairs keeping their order.
pub open spec fn pair_stable_le(
    f: Seq<Seq<char>>, fa: bool, g: Seq<Seq<char>>, ga: bool, i: usize, j: usize,
) -> bool {
    let o1 = if fa { text_order(f[i as int], f[j as int]) } else { text_order(f[j as int], f[i as int]) };
    let o2 = if ga { text_order(g[i as int], g[j as int]) } else { text_order(g[j as int], g[i as int]) };
    o1 < 0 || (o1 == 0 && (o2 < 0 || (o2 == 0 && i <= j)))
}

pub open spec fn pair_sorted(f: Seq<Seq<char>>, fa: bool, g: Seq<Seq<char>>, ga: bool, s: Seq<usize>) -> bool {
    forall|a: int, b: int| 0 <= a < b < s.len() ==> pair_stable_le(f, fa, g, ga, #[trigger] s[a], #[trigger] s[b])
}

/// The positions `0..n`, each once.
pub open spec fn is_order_of(s: Seq<usize>, n: int) -> bool {
    s.to_multiset() == positions(0, n).to_multiset()
}

/// The text of field `c` of each line split at `sep`, empty where a line has
/// fewer fields.
pub open spec fn column_texts(lines: Seq<String>, sep: Seq<char>, c: int) -> Seq<Seq<char>> {
    Seq::new(lines.len(), |i: int| field_or_empty(split_text(lines[i]@, sep), c))
}

/// The text of field `c` of each row, empty where a row has fewer fields.
pub open spec fn row_texts(rows: Seq<Vec<String>>, c: int) -> Seq<Seq<char>> {
    Seq::new(rows.len(), |i: int| field_or_empty(rows[i]@.map_values(|x: String| x@), c))
}

proof fn lemma_sort_pieces_error_stays(ps: Seq<Seq<char>>, k: int, e: Seq<char>)
    requires
        0 <= k <= ps.len(),
        sort_pieces(ps.take(k)) == Err::<Seq<SortColumn>, Seq<char>>(e),
    ensures
        sort_pieces(ps) == Err::<Seq<SortColumn>, Seq<char>>(e),
    decreases ps.len() - k,
{
    if k < ps.len() {
        assert(ps.take(k + 1).drop_last() =~= ps.take(k));
        lemma_sort_pieces_error_stays(ps, k + 1, e);
    } else {
        assert(ps.take(k) =~= ps);
    }
}

/// `v` without its spaces.
fn drop_spaces(v: &Vec<char>) -> (w: Vec<char>)
    ensures
        w@ == without_spaces(v@),
{
    let mut w: Vec<char> = Vec::new();
    let mut i: usize = 0;
    while i < v.len()
        invariant
            i <= v@.len(),
            w@ == without_spaces(v@.take(i as int)),
        decreases v@.len() - i,
    {
        assert(v@.take(i as int + 1).drop_last() =~= v@.take(i as int));
        if v[i] != ' ' {
            w.push(v[i]);
        }
        i += 1;
    }
    assert(v@.take(v@.len() as int) =~= v@);
    w
}

/// `v` without one trailing flag letter.
fn drop_flag(v: Vec<char>) -> (w: Vec<char>)
    ensures
        w@ == strip_flag(v@),
{
    let mut w = v;
    let n = w.len();
    if n > 0 {
        let c = w[n - 1];
        if c == 'n' || c == 'N' || c == 'd' || c == 'D' {
            w.pop();
        }
    }
    w
}

/// Whether `v` holds the character `c`.
fn has_char(v: &Vec<char>, c: char) -> (b: bool)
    ensures
        b == contains_text(v@, seq![c]),
{
    let mut i: usize = 0;
    while i < v.len()
        invariant
            i <= v@.len(),
            forall|k: int| 0 <= k < i ==> v@[k] != c,
        decreases v@.len() - i,
    {
        if v[i] == c {
            assert(v@.subrange(i as int, i as int + 1) =~= seq![c]);
            return true;
        }
        i += 1;
    }
    proof {
        if contains_text(v@, seq![c]) {
            let k = choose|k: int| 0 <= k && k + 1 <= v@.len() && #[trigger] v@.subrange(k, k + 1) == seq![c];
            assert(v@.subrange(k, k + 1)[0] == v@[k]);
        }
    }
    false
}

/// Field `c` of `line` split at `sep`, or an empty text when there are fewer.
fn field_chars(line: &str, sep: &str, c: usize) -> (f: Vec<char>)
    ensures
        f@ == field_or_empty(split_text(line@, sep@), c as int),
{
    let parts = split_str(line, sep);
    proof {
        assert(parts@.len() == split_text(line@, sep@).len());
    }
    if c < parts.len() {
        assert(parts@[c as int]@ == split_text(line@, sep@)[c as int]);
        chars_of(parts[c].as_str())
    } else {
        Vec::new()
    }
}

/// Field `c` of each line, as `column_texts` gives it.
fn column_chars(lines: &Vec<String>, sep: &str, c: usize) -> (f: Vec<Vec<char>>)
    ensures
        f@.len() == lines@.len(),
        f@.map_values(|v: Vec<char>| v@) == column_texts(lines@, sep@, c as int),
{
    let mut f: Vec<Vec<char>> = Vec::new();
    let mut i: usize = 0;
    while i < lines.len()
        invariant
            i <= lines@.len(),
            f@.len() == i,
            forall|k: int| 0 <= k < i ==> (#[trigger] f@[k])@ == field_or_empty(split_text(lines@[k]@, sep@), c as int),
        decreases lines@.len() - i,
    {
        f.push(field_chars(lines[i].as_str(), sep, c));
        i += 1;
    }
    assert(f@.map_values(|v: Vec<char>| v@) =~= column_texts(lines@, sep@, c as int));
    f
}

/// Field `c` of each row, as `row_texts` gives it.
fn row_chars(rows: &Vec<Vec<String>>, c: usize) -> (f: Vec<Vec<char>>)
    ensures
        f@.len() == rows@.len(),
        f@.map_values(|v: Vec<char>| v@) == row_texts(rows@, c as int),
{
    let mut f: Vec<Vec<char>> = Vec::new();
    let mut i: usize = 0;
    while i < rows.len()
        invariant
            i <= rows@.len(),
            f@.len() == i,
            forall|k: int| 0 <= k < i ==> (#[trigger] f@[k])@ == field_or_empty(rows@[k]@.map_values(|x: String| x@), c as int),
        decreases rows@.len() - i,
    {
        let row = &rows[i];
        if c < row.len() {
            f.push(chars_of(row[c].as_str()));
        } else {
            f.push(Vec::new());
        }
        i += 1;
    }
    assert(f@.map_values(|v: Vec<char>| v@) =~= row_texts(rows@, c as int));
    f
}

impl SortColumns {
    /// The columns, in the order they are sorted by.
    pub closed spec fn cols(&self) -> Seq<SortColumn> {
        self.0@
    }

    /// The columns named by `cols`: pieces between commas, each a column
    /// number followed by flags, `N` for numbers and `D` for descending
    /// order; spaces are ignored and empty pieces skipped.
    pub fn from(cols: &str) -> (r: Result<SortColumns, SortColumnsError>)
        ensures
            match sort_columns_of(cols@) {
                Ok(cs) => r is Ok && r->Ok_0.cols() == cs,
                Err((k, t)) => r is Err && r->Err_0.kind == k && r->Err_0.text@ == t,
            },
    {
        let pieces = split_str(cols, ",");
        let ghost ps = pieces@.map_values(|x: String| x@);
        proof {
            reveal_strlit(",");
            assert(","@ =~= seq![',']);
            assert(ps.take(0) =~= Seq::<Seq<char>>::empty());
        }
        let mut r: Vec<SortColumn> = Vec::new();
        let mut k: usize = 0;
        while k < pieces.len()
            invariant
                k <= pieces@.len(),
                ps == pieces@.map_values(|x: String| x@),
                ps == split_text(cols@, seq![',']),
                sort_pieces(ps.take(k as int)) == Ok::<Seq<SortColumn>, Seq<char>>(r@),
            decreases pieces@.len() - k,
        {
            assert(ps.take(k as int + 1).drop_last() =~= ps.take(k as int));
            assert(ps.take(k as int + 1).last() == ps[k as int]);
            let i = chars_of(pieces[k].as_str());
            let j = drop_flag(drop_flag(drop_spaces(&i)));
            if j.len() > 0 {
                match parse_usize(&j) {
                    Some(col) => {
                        let d = has_char(&i, 'd') || has_char(&i, 'D');
                        let n = has_char(&i, 'n') || has_char(&i, 'N');
                        r.push(SortColumn { col, ascending: !d, numeric: n });
                    },
                    None => {
                        proof {
                            lemma_sort_pieces_error_stays(ps, k as int + 1, ps[k as int]);
                        }
                        return Err(SortColumnsError { kind: SortColumnsErrorKind::Syntax, text: pieces[k].clone() });
                    },
                }
            }
            k += 1;
        }
        assert(ps.take(pieces@.len() as int) =~= ps);
        if r.len() == 0 {
            return Err(SortColumnsError { kind: SortColumnsErrorKind::NoColumn, text: String::new() });
        }
        if r.len() > 2 {
            return Err(SortColumnsError { kind: SortColumnsErrorKind::TooMany, text: String::new() });
        }
        Ok(SortColumns(r))
    }

    /// The columns, in the order they are sorted by.
    pub fn columns(&self) -> (c: &[SortColumn])
        ensures
            c@ == self.cols(),
    {
        self.0.as_slice()
    }

    /// The order of the lines sorted by the text of the first column, empty
    /// where a line has fewer fields; equal texts keep their order.
    pub fn sort_str_column(&self, lines: &Vec<String>, sep: &str) -> (out: Vec<usize>)
        requires
            self.cols().len() >= 1,
        ensures
            is_order_of(out@, lines@.len() as int),
            text_sorted(column_texts(lines@, sep@, self.cols()[0].col as int), self.cols()[0].ascending, out@),
    {
        let c = self.0[0];
        let f = column_chars(lines, sep, c.col);
        sort_by_text(&f, c.ascending)
    }

    /// The order of the lines sorted by the text of the first column and
    /// then by that of the second; equal pairs keep their order. Every line
    /// holds both columns.
    pub fn sort_str_str_columns(&self, lines: &Vec<String>, sep: &str) -> (out: Vec<usize>)
        requires
            self.cols().len() >= 2,
            forall|i: int| 0 <= i < lines@.len() ==> {
                let n = #[trigger] split_text(lines@[i]@, sep@).len();
                self.cols()[0].col < n && self.cols()[1].col < n
            },
        ensures
            is_order_of(out@, lines@.len() as int),
            pair_sorted(
                column_texts(lines@, sep@, self.cols()[0].col as int),
                self.cols()[0].ascending,
                column_texts(lines@, sep@, self.cols()[1].col as int),
                self.cols()[1].ascending,
                out@,
            ),
    {
        let c1 = self.0[0];
        let c2 = self.0[1];
        let f = column_chars(lines, sep, c1.col);
        let g = column_chars(lines, sep, c2.col);
        sort_by_two_texts(&f, c1.ascending, &g, c2.ascending)
    }

    /// The order of the rows sorted by the text of the first column; equal
    /// texts keep their order. Every row holds the column.
    pub fn sort_excel_str_column(&self, rows: &Vec<Vec<String>>) -> (out: Vec<usize>)
        requires
            self.cols().len() >= 1,
            forall|i: int| 0 <= i < rows@.len() ==> self.cols()[0].col < (#[trigger] rows@[i])@.len(),
        ensures
            is_order_of(out@, rows@.len() as int),
            text_sorted(row_texts(rows@, self.cols()[0].col as int), self.cols()[0].ascending, out@),
    {
        let c = self.0[0];
        let f = row_chars(rows, c.col);
        sort_by_text(&f, c.ascending)
    }

    /// The order of the rows sorted by the text of the first column and then
    /// by that of the second; equal pairs keep their order. Every row holds
    /// both columns.
    pub fn sort_excel_str_str_columns(&self, rows: &Vec<Vec<String>>) -> (out: Vec<usize>)
        requires
            self.cols().len() >= 2,
            forall|i: int| 0 <= i < rows@.len() ==> self.cols()[0].col < (#[trigger] rows@[i])@.len()
                && self.cols()[1].col < rows@[i]@.len(),
        ensures
            is_order_of(out@, rows@.len() as int),
            pair_sorted(
                row_texts(rows@, self.cols()[0].col as int),
                self.cols()[0].ascending,
                row_texts(rows@, self.cols()[1].col as int),
                self.cols()[1].ascending,
                out@,
            ),
    {
        let c1 = self.0[0];
        let c2 = self.0[1];
        let f = row_chars(rows, c1.col);
        let g = row_chars(rows, c2.col);
        sort_by_two_texts(&f, c1.ascending, &g, c2.ascending)
    }
}

/// The text keys of the texts.
fn text_keys<const ASC: bool>(f: &Vec<Vec<char>>) -> (keys: Vec<TextKey<ASC>>)
    ensures
        keys@.len() == f@.len(),
        forall|i: int| 0 <= i < f@.len() ==> (#[trigger] keys@[i]).0@ == f@[i]@,
{
    let mut keys: Vec<TextKey<ASC>> = Vec::new();
    let mut i: usize = 0;
    while i < f.len()
        invariant
            i <= f@.len(),
            keys@.len() == i,
            forall|k: int| 0 <= k < i ==> (#[trigger] keys@[k]).0@ == f@[k]@,
        decreases f@.len() - i,
    {
        keys.push(TextKey(f[i].clone()));
        i += 1;
    }
    keys
}

/// The pairs of text keys of the texts.
fn pair_keys<const A: bool, const B: bool>(f: &Vec<Vec<char>>, g: &Vec<Vec<char>>) -> (keys: Vec<KeyPair<TextKey<A>, TextKey<B>>>)
    requires
        f@.len() == g@.len(),
    ensures
        keys@.len() == f@.len(),
        forall|i: int| 0 <= i < f@.len() ==> (#[trigger] keys@[i]).0.0@ == f@[i]@ && keys@[i].1.0@ == g@[i]@,
{
    let mut keys: Vec<KeyPair<TextKey<A>, TextKey<B>>> = Vec::new();
    let mut i: usize = 0;
    while i < f.len()
        invariant
            i <= f@.len(),
            f@.len() == g@.len(),
            keys@.len() == i,
            forall|k: int| 0 <= k < i ==> (#[trigger] keys@[k]).0.0@ == f@[k]@ && keys@[k].1.0@ == g@[k]@,
        decreases f@.len() - i,
    {
        keys.push(KeyPair(TextKey(f[i].clone()), TextKey(g[i].clone())));
        i += 1;
    }
    keys
}

fn sorted_by<const ASC: bool>(f: &Vec<Vec<char>>) -> (out: Vec<usize>)
    ensures
        is_order_of(out@, f@.len() as int),
        text_sorted(f@.map_values(|v: Vec<char>| v@), ASC, out@),
{
    let ghost fv = f@.map_values(|v: Vec<char>| v@);
    let keys = text_keys::<ASC>(f);
    let out = stable_sort_positions(keys.as_slice());
    proof {
        assert forall|a: int, b: int| 0 <= a < b < out@.len() implies
            text_stable_le(fv, ASC, #[trigger] out@[a], #[trigger] out@[b]) by {
            let (i, j) = (out@[a], out@[b]);
            assert(stable_le(keys@, i, j));
            assert(keys@[i as int].0@ == fv[i as int]);
            assert(keys@[j as int].0@ == fv[j as int]);
            lemma_text_order_antisymmetric(fv[i as int], fv[j as int]);
        }
    }
    out
}

fn sorted_by_pair<const A: bool, const B: bool>(f: &Vec<Vec<char>>, g: &Vec<Vec<char>>) -> (out: Vec<usize>)
    requires
        f@.len() == g@.len(),
    ensures
        is_order_of(out@, f@.len() as int),
        pair_sorted(f@.map_values(|v: Vec<char>| v@), A, g@.map_values(|v: Vec<char>| v@), B, out@),
{
    let ghost fv = f@.map_values(|v: Vec<char>| v@);
    let ghost gv = g@.map_values(|v: Vec<char>| v@);
    let keys = pair_keys::<A, B>(f, g);
    let out = stable_sort_positions(keys.as_slice());
    proof {
        assert forall|a: int, b: int| 0 <= a < b < out@.len() implies
            pair_stable_le(fv, A, gv, B, #[trigger] out@[a], #[trigger] out@[b]) by {
            let (i, j) = (out@[a], out@[b]);
            assert(stable_le(keys@, i, j));
            assert(keys@[i as int].0.0@ == fv[i as int]);
            assert(keys@[j as int].0.0@ == fv[j as int]);
            assert(keys@[i as int].1.0@ == gv[i as int]);
            assert(keys@[j as int].1.0@ == gv[j as int]);
            lemma_text_order_antisymmetric(fv[i as int], fv[j as int]);
            lemma_text_order_antisymmetric(gv[i as int], gv[j as int]);
        }
    }
    out
}

/// The positions of the texts, sorted by text in the given direction, equal
/// texts in their order.
pub fn sort_by_text(f: &Vec<Vec<char>>, ascending: bool) -> (out: Vec<usize>)
    ensures
        is_order_of(out@, f@.len() as int),
        text_sorted(f@.map_values(|v: Vec<char>| v@), ascending, out@),
{
    if ascending {
        sorted_by::<true>(f)
    } else {
        sorted_by::<false>(f)
    }
}

/// The positions of the pairs `(f[i], g[i])`, sorted by `f` and then by `g`,
/// each in its direction, equal pairs in their order.
pub fn sort_by_two_texts(f: &Vec<Vec<char>>, fa: bool, g: &Vec<Vec<char>>, ga: bool) -> (out: Vec<usize>)
    requires
        f@.len() == g@.len(),
    ensures
        is_order_of(out@, f@.len() as int),
        pair_sorted(f@.map_values(|v: Vec<char>| v@), fa, g@.map_values(|v: Vec<char>| v@), ga, out@),
{
    match (fa, ga) {
        (true, true) => sorted_by_pair::<true, true>(f, g),
        (true, false) => sorted_by_pair::<true, false>(f, g),
        (false, true) => sorted_by_pair::<false, true>(f, g),
        (false, false) => sorted_by_pair::<false, false>(f, g),
    }
}

proof fn lemma_split_without_comma(s: Seq<char>, i: int)
    requires
        0 <= i <= s.len(),
        !s.contains(','),
    ensures
        split_from(s, seq![','], 0, i) == seq![s],
    decreases s.len() - i,
{
    if i + 1 <= s.len() {
        assert(s.subrange(i, i + 1) != seq![',']) by {
            if s.subrange(i, i + 1) == seq![','] {
                assert(s.subrange(i, i + 1)[0] == s[i]);
            }
        }
        lemma_split_without_comma(s, i + 1);
    } else {
        assert(s.subrange(0, s.len() as int) =~= s);
    }
}

proof fn lemma_without_spaces_none(s: Seq<char>)
    requires
        !s.contains(' '),
    ensures
        without_spaces(s) == s,
    decreases s.len(),
{
    if s.len() > 0 {
        assert(!s.drop_last().contains(' ')) by {
            if s.drop_last().contains(' ') {
                let k = choose|k: int| 0 <= k < s.drop_last().len() && s.drop_last()[k] == ' ';
                assert(s[k] == ' ');
            }
        }
        lemma_without_spaces_none(s.drop_last());
        assert(s.last() == s[s.len() - 1]);
        assert(s.drop_last().push(s.last()) =~= s);
    }
}

proof fn lemma_contains_one(s: Seq<char>, x: char)
    ensures
        contains_text(s, seq![x]) == s.contains(x),
{
    if s.contains(x) {
        let k = choose|k: int| 0 <= k < s.len() && s[k] == x;
        assert(s.subrange(k, k + 1) =~= seq![x]);
    }
    if contains_text(s, seq![x]) {
        let k = choose|k: int| 0 <= k && k + 1 <= s.len() && #[trigger] s.subrange(k, k + 1) == seq![x];
        assert(s.subrange(k, k + 1)[0] == s[k]);
    }
}

/// A sort column is descending exactly when its flags hold `d` or `D`, and
/// numeric exactly when they hold `n` or `N`, in whatever order the flags
/// are written: `0DN` and `0ND` both sort column 0 numerically, descending.
pub proof fn sort_flags_in_any_order(c: Seq<char>, flags: Seq<char>)
    requires
        c.len() > 0,
        all_digits(c),
        digits_value(c) <= usize::MAX,
        flags.len() <= 2,
        forall|i: int| 0 <= i < flags.len()
            ==> (#[trigger] flags[i] == 'd' || flags[i] == 'D' || flags[i] == 'n' || flags[i] == 'N'),
    ensures
        sort_columns_of(c + flags) == Ok::<Seq<SortColumn>, (SortColumnsErrorKind, Seq<char>)>(seq![SortColumn {
            col: digits_value(c) as usize,
            ascending: !(flags.contains('d') || flags.contains('D')),
            numeric: flags.contains('n') || flags.contains('N'),
        }]),
{
    let s = c + flags;
    assert forall|x: char| !is_digit(x) implies (s.contains(x) == flags.contains(x)) by {
        if s.contains(x) {
            let k = choose|k: int| 0 <= k < s.len() && s[k] == x;
            if k < c.len() {
                assert(s[k] == c[k]);
                assert(is_digit(c[k]));
            } else {
                assert(flags[k - c.len()] == x);
            }
        }
        if flags.contains(x) {
            let k = choose|k: int| 0 <= k < flags.len() && flags[k] == x;
            assert(s[k + c.len()] == x);
        }
    }
    assert(!is_digit(',') && !is_digit(' ') && !is_digit('d') && !is_digit('D') && !is_digit('n') && !is_digit('N'));
    assert(!flags.contains(',')) by {
        if flags.contains(',') {
            let k = choose|k: int| 0 <= k < flags.len() && flags[k] == ',';
        }
    }
    assert(!flags.contains(' ')) by {
        if flags.contains(' ') {
            let k = choose|k: int| 0 <= k < flags.len() && flags[k] == ' ';
        }
    }
    lemma_split_without_comma(s, 0);
    assert(split_text(s, seq![',']) == seq![s]);
    lemma_without_spaces_none(s);
    lemma_contains_one(s, 'd');
    lemma_contains_one(s, 'D');
    lemma_contains_one(s, 'n');
    lemma_contains_one(s, 'N');
    // the flags come off, leaving the column
    assert(!is_flag(c.last())) by {
        assert(c.last() == c[c.len() - 1]);
        assert(is_digit(c[c.len() - 1]));
    }
    if flags.len() == 0 {
        assert(s =~= c);
    } else if flags.len() == 1 {
        assert(s.drop_last() =~= c);
        assert(is_flag(s.last())) by { assert(s.last() == flags[0]); }
    } else {
        assert(s.drop_last() =~= c.push(flags[0]));
        assert(s.drop_last().drop_last() =~= c);
        assert(is_flag(s.last())) by { assert(s.last() == flags[1]); }
        assert(is_flag(s.drop_last().last())) by { assert(s.drop_last().last() == flags[0]); }
    }
    assert(strip_flag(strip_flag(without_spaces(s))) == c);
    assert(usize_value(c) == Some(digits_value(c) as usize)) by {
        assert(is_digit(c[0]));
    }
    let ps = seq![s];
    assert(ps.drop_last() =~= Seq::<Seq<char>>::empty());
    assert(sort_pieces(ps.drop_last()) == Ok::<Seq<SortColumn>, Seq<char>>(seq![]));
    assert(Seq::<SortColumn>::empty().push(SortColumn {
        col: digits_value(c) as usize,
        ascending: !(flags.contains('d') || flags.contains('D')),
        numeric: flags.contains('n') || flags.contains('N'),
    }) =~= seq![SortColumn {
        col: digits_value(c) as usize,
        ascending: !(flags.contains('d') || flags.contains('D')),
        numeric: flags.contains('n') || flags.contains('N'),
    }]);
}

} // verus!

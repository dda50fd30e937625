//! Row filters such as `0=a,b`, `1N>=3` or `0=a&2!=x`.
//!
//! Each filter names a column (a trailing `n` or `N` compares numbers), an
//! operator (`=`, `!=`, `>`, `>=`, `<`, `<=`) and a value; `=` and `!=` take
//! a comma-separated list of values. Filters joined by `&` must all hold.
//! The value of `>`, `>=`, `<` or `<=` may be an arithmetic expression over
//! columns, such as `0>@1-10*(@3+2)`; it is told by the `@` it holds, and
//! its filter compares numbers.
//! Text filters are decided here; numeric ones compare floating-point
//! numbers, which callers do with the checked values kept here.
use vstd::prelude::*;
use crate::utils::column::{ColumnsErrorKind, true_col};
use crate::utils::expr::{compile, expr_of, tokens_of, ExprTree, ExprTreeView};
use crate::utils::number::{all_digits, digits_value, f64_text, is_digit, is_f64};
use crate::utils::text::{
    chars_of, compare_chars, contains_chars, contains_text, split_str, split_text, string_from_chars,
    text_order,
};

verus! {

/// The length of the comparison operator that starts at `i` in `s`: 2 for
/// `!=`, `>=` and `<=`, 1 for `=`, `>` and `<`, 0 where none starts. Where
/// both fit, the two-character operator is the one taken.
pub open spec fn op_len_at(s: Seq<char>, i: int) -> int {
    if 0 <= i && i + 1 < s.len() && s[i + 1] == '=' && (s[i] == '!' || s[i] == '>' || s[i] == '<') {
        2
    } else if 0 <= i < s.len() && (s[i] == '=' || s[i] == '>' || s[i] == '<') {
        1
    } else {
        0
    }
}

/// The pieces of `s` between comparison operators, scanning from position
/// `i` inside a piece that starts at `start`: the leftmost operator is cut
/// out, and the scan goes on after it.
pub open spec fn comparison_pieces_from(s: Seq<char>, start: int, i: int) -> Seq<Seq<char>>
    decreases s.len() - i,
{
    if i < 0 || i >= s.len() {
        seq![s.subrange(start, s.len() as int)]
    } else if op_len_at(s, i) > 0 {
        seq![s.subrange(start, i)] + comparison_pieces_from(s, i + op_len_at(s, i), i + op_len_at(s, i))
    } else {
        comparison_pieces_from(s, start, i + 1)
    }
}

/// The pieces of `text` around its comparison operators, in order.
pub open spec fn comparison_split(text: Seq<char>) -> Seq<Seq<char>> {
    comparison_pieces_from(text, 0, 0)
}

/// The length of the operator at `i`, computed.
fn op_len_of(s: &Vec<char>, i: usize) -> (m: usize)
    requires
        i < s.len(),
    ensures
        m == op_len_at(s@, i as int),
{
    if i + 1 < s.len() && s[i + 1] == '=' && (s[i] == '!' || s[i] == '>' || s[i] == '<') {
        2
    } else if s[i] == '=' || s[i] == '>' || s[i] == '<' {
        1
    } else {
        0
    }
}

/// `text` split at its comparison operators, each piece as a new string.
pub fn split_at_comparison(text: &str) -> (v: Vec<String>)
    ensures
        v@.map_values(|s: String| s@) == comparison_split(text@),
{
    let sv = chars_of(text);
    let n = sv.len();
    let mut v: Vec<String> = Vec::new();
    let mut start: usize = 0;
    let mut i: usize = 0;
    while i < n
        invariant
            n == sv.len(),
            start <= i <= n,
            v@.map_values(|x: String| x@) + comparison_pieces_from(sv@, start as int, i as int)
                == comparison_pieces_from(sv@, 0, 0),
        decreases n - i,
    {
        let m = op_len_of(&sv, i);
        if m > 0 {
            let piece = string_from_chars(&sv, start, i);
            let ghost before = v@.map_values(|x: String| x@);
            let ghost old_start = start as int;
            let ghost old_i = i as int;
            v.push(piece);
            assert(v@.map_values(|x: String| x@) =~= before.push(piece@));
            i = i + m;
            start = i;
            assert(comparison_pieces_from(sv@, old_start, old_i)
                == seq![sv@.subrange(old_start, old_i)] + comparison_pieces_from(sv@, i as int, i as int));
            assert(v@.map_values(|x: String| x@) + comparison_pieces_from(sv@, start as int, i as int)
                =~= before + comparison_pieces_from(sv@, old_start, old_i));
        } else {
            i = i + 1;
        }
    }
    let last = string_from_chars(&sv, start, n);
    let ghost before = v@.map_values(|x: String| x@);
    v.push(last);
    assert(v@.map_values(|x: String| x@) =~= before.push(last@));
    assert(v@.map_values(|x: String| x@) =~= comparison_split(text@));
    v
}

#[derive(Debug, Clone, Copy, PartialEq, Eq, Structural)]
pub enum Op {
    Equal,
    NotEqual,
    Gt,
    Ge,
    Lt,
    Le,
}

/// Why a filter was refused.
#[derive(Debug, Clone, Copy, PartialEq, Eq, Structural)]
pub enum FilterErrorKind {
    /// A filter that is not `column operator value`.
    Syntax,
    /// A column that is refused, as in a column selection.
    Column(ColumnsErrorKind),
    /// A value of a numeric filter that is not a number.
    NotANumber,
    /// A value with a column reference that is not an expression.
    Expression,
}

/// A refused filter, with the text that caused it.
#[derive(Debug)]
pub struct FilterError {
    pub kind: FilterErrorKind,
    pub text: String,
}

/// One filter, as values.
pub struct FilterItemView {
    pub col: usize,
    pub is_numeric: bool,
    pub op: Op,
    pub value: Seq<char>,
    pub values: Seq<Seq<char>>,
    pub expr: Option<ExprTreeView>,
}

/// One filter. A numeric filter keeps the text of its numbers; one whose
/// value is an expression over columns keeps the expression too.
#[derive(Debug)]
pub struct FilterItem {
    pub col: usize,
    pub is_numeric: bool,
    pub op: Op,
    pub str_value: String,
    pub str_values: Vec<String>,
    pub expr: Option<ExprTree>,
}

impl View for FilterItem {
    type V = FilterItemView;

    open spec fn view(&self) -> FilterItemView {
        FilterItemView {
            col: self.col,
            is_numeric: self.is_numeric,
            op: self.op,
            value: self.str_value@,
            values: self.str_values@.map_values(|s: String| s@),
            expr: match self.expr {
                Some(t) => Some(t@),
                None => None,
            },
        }
    }
}

/// The operator of a filter; the first of `!=`, `>=`, `<=`, `=`, `>`, `<`
/// that it holds.
pub open spec fn op_of(one: Seq<char>) -> Option<Op> {
    if contains_text(one, seq!['!', '=']) {
        Some(Op::NotEqual)
    } else if contains_text(one, seq!['>', '=']) {
        Some(Op::Ge)
    } else if contains_text(one, seq!['<', '=']) {
        Some(Op::Le)
    } else if contains_text(one, seq!['=']) {
        Some(Op::Equal)
    } else if contains_text(one, seq!['>']) {
        Some(Op::Gt)
    } else if contains_text(one, seq!['<']) {
        Some(Op::Lt)
    } else {
        None
    }
}

/// The first value that is not a number.
pub open spec fn first_non_number(vals: Seq<Seq<char>>) -> Option<Seq<char>>
    decreases vals.len(),
{
    if vals.len() == 0 {
        None
    } else if !f64_text(vals[0]) {
        Some(vals[0])
    } else {
        first_non_number(vals.drop_first())
    }
}

/// One filter, or why it is refused, with the text that caused it.
pub open spec fn parse_item(one: Seq<char>, total: Option<usize>)
    -> Result<FilterItemView, (FilterErrorKind, Seq<char>)>
{
    let v = comparison_split(one);
    if v.len() != 2 {
        Err((FilterErrorKind::Syntax, one))
    } else {
        let c0 = v[0];
        let numeric = c0.len() > 0 && (c0.last() == 'n' || c0.last() == 'N');
        let ctext = if numeric { c0.drop_last() } else { c0 };
        match true_col(ctext, total) {
            Err(k) => Err((FilterErrorKind::Column(k), ctext)),
            Ok(col) => match op_of(one) {
                None => Ok(FilterItemView { col, is_numeric: numeric, op: Op::NotEqual, value: seq![], values: seq![], expr: None }),
                Some(op) => if op == Op::Equal || op == Op::NotEqual {
                    let vals = split_text(v[1], seq![',']);
                    if numeric && first_non_number(vals) is Some {
                        Err((FilterErrorKind::NotANumber, first_non_number(vals)->Some_0))
                    } else {
                        Ok(FilterItemView { col, is_numeric: numeric, op, value: seq![], values: vals, expr: None })
                    }
                } else if contains_text(v[1], seq!['@']) {
                    match tokens_of(v[1]) {
                        Ok(t) => match expr_of(t) {
                            Some(tree) => Ok(FilterItemView {
                                col, is_numeric: true, op, value: v[1], values: seq![], expr: Some(tree),
                            }),
                            None => Err((FilterErrorKind::Expression, v[1])),
                        },
                        Err(_) => Err((FilterErrorKind::Expression, v[1])),
                    }
                } else {
                    if numeric && !f64_text(v[1]) {
                        Err((FilterErrorKind::NotANumber, v[1]))
                    } else {
                        Ok(FilterItemView { col, is_numeric: numeric, op, value: v[1], values: seq![], expr: None })
                    }
                },
            },
        }
    }
}

/// The pieces that are not empty, in order.
pub open spec fn nonempty_pieces(ps: Seq<Seq<char>>) -> Seq<Seq<char>>
    decreases ps.len(),
{
    if ps.len() == 0 {
        seq![]
    } else {
        let r = nonempty_pieces(ps.drop_last());
        if ps.last().len() == 0 { r } else { r.push(ps.last()) }
    }
}

/// The filters of the pieces, or the error of the first piece refused.
pub open spec fn parse_items(pieces: Seq<Seq<char>>, total: Option<usize>)
    -> Result<Seq<FilterItemView>, (FilterErrorKind, Seq<char>)>
    decreases pieces.len(),
{
    if pieces.len() == 0 {
        Ok(seq![])
    } else {
        match parse_items(pieces.drop_last(), total) {
            Err(e) => Err(e),
            Ok(items) => match parse_item(pieces.last(), total) {
                Err(e) => Err(e),
                Ok(it) => Ok(items.push(it)),
            },
        }
    }
}

/// The filters that `raw` names.
pub open spec fn parse_filter(raw: Seq<char>, total: Option<usize>)
    -> Result<Seq<FilterItemView>, (FilterErrorKind, Seq<char>)>
{
    if raw.len() == 0 { Ok(seq![]) } else { parse_items(nonempty_pieces(split_text(raw, seq!['&'])), total) }
}

/// Whether a text filter holds of a row.
pub open spec fn text_item_holds(it: FilterItemView, row: Seq<Seq<char>>) -> bool {
    let f = row[it.col as int];
    match it.op {
        Op::Equal => it.values.contains(f),
        Op::NotEqual => !it.values.contains(f),
        Op::Ge => text_order(f, it.value) >= 0,
        Op::Gt => text_order(f, it.value) > 0,
        Op::Le => text_order(f, it.value) <= 0,
        Op::Lt => text_order(f, it.value) < 0,
    }
}

#[derive(Debug)]
pub struct Filter {
    raw: String,
    total: Option<usize>,
    filters: Vec<FilterItem>,
    pub parsed: bool,
}

fn parse_one(one: &str, total: Option<usize>) -> (r: Result<FilterItem, FilterError>)
    requires
        total is Some ==> total->0 <= i32::MAX,
    ensures
        (r is Ok) == (parse_item(one@, total) is Ok),
        r matches Ok(it) ==> it@ == parse_item(one@, total)->Ok_0,
        r matches Err(e) ==> e.kind == parse_item(one@, total)->Err_0.0
            && e.text@ == parse_item(one@, total)->Err_0.1,
{
    let v = split_at_comparison(one);
    if v.len() != 2 {
        return Err(FilterError { kind: FilterErrorKind::Syntax, text: one.to_owned() });
    }
    let c0 = chars_of(v[0].as_str());
    let numeric = c0.len() > 0 && (c0[c0.len() - 1] == 'n' || c0[c0.len() - 1] == 'N');
    let ctext = if numeric { crate::utils::text::take_prefix(&c0, c0.len() - 1) } else { c0 };
    proof {
        if numeric {
            assert(ctext@ =~= v@[0]@.drop_last());
        }
    }
    let col = match crate::utils::column::true_col_of(&ctext, total) {
        Err(k) => {
            return Err(FilterError {
                kind: FilterErrorKind::Column(k),
                text: crate::utils::text::string_from_chars(&ctext, 0, ctext.len()),
            });
        },
        Ok(c) => c,
    };
    let ov = chars_of(one);
    let op = op_in(&ov);
    let no_values: Vec<String> = Vec::new();
    assert(no_values@.map_values(|s: String| s@) =~= Seq::<Seq<char>>::empty());
    match op {
        None => Ok(FilterItem {
            col, is_numeric: numeric, op: Op::NotEqual, str_value: String::new(), str_values: no_values, expr: None,
        }),
        Some(op) => {
            if op == Op::Equal || op == Op::NotEqual {
                let vals = split_str(v[1].as_str(), ",");
                proof {
                    reveal_strlit(",");
                    assert(","@ =~= seq![',']);
                }
                if numeric {
                    match first_non_number_of(&vals) {
                        Some(k) => {
                            return Err(FilterError { kind: FilterErrorKind::NotANumber, text: vals[k].clone() });
                        },
                        None => {},
                    }
                }
                Ok(FilterItem { col, is_numeric: numeric, op, str_value: String::new(), str_values: vals, expr: None })
            } else {
                let w = v[1].clone();
                let at = one_char('@');
                if contains_chars(&chars_of(w.as_str()), &at) {
                    return match compile(w.as_str()) {
                        Ok(tree) => Ok(FilterItem {
                            col, is_numeric: true, op, str_value: w, str_values: no_values, expr: Some(tree),
                        }),
                        Err(_) => Err(FilterError { kind: FilterErrorKind::Expression, text: w }),
                    };
                }
                if numeric && !is_f64(&chars_of(w.as_str())) {
                    return Err(FilterError { kind: FilterErrorKind::NotANumber, text: w });
                }
                Ok(FilterItem { col, is_numeric: numeric, op, str_value: w, str_values: no_values, expr: None })
            }
        },
    }
}

/// The position of the first value that is not a number.
fn first_non_number_of(vals: &Vec<String>) -> (r: Option<usize>)
    ensures
        match r {
            Some(k) => k < vals@.len() && first_non_number(vals@.map_values(|s: String| s@)) == Some(vals@[k as int]@),
            None => first_non_number(vals@.map_values(|s: String| s@)) is None,
        },
{
    let ghost all = vals@.map_values(|s: String| s@);
    let mut i: usize = 0;
    assert(all.skip(0) =~= all);
    while i < vals.len()
        invariant
            i <= vals@.len(),
            all == vals@.map_values(|s: String| s@),
            first_non_number(all) == first_non_number(all.skip(i as int)),
        decreases vals@.len() - i,
    {
        assert(all.skip(i as int)[0] == vals@[i as int]@);
        assert(all.skip(i as int).drop_first() =~= all.skip(i + 1));
        if !is_f64(&chars_of(vals[i].as_str())) {
            return Some(i);
        }
        i += 1;
    }
    assert(all.skip(i as int).len() == 0);
    None
}

/// `op_of(one)`, computed.
fn op_in(one: &Vec<char>) -> (r: Option<Op>)
    ensures
        r == op_of(one@),
{
    let ne = two_chars('!', '=');
    let ge = two_chars('>', '=');
    let le = two_chars('<', '=');
    let eq = one_char('=');
    let gt = one_char('>');
    let lt = one_char('<');
    if contains_chars(one, &ne) {
        Some(Op::NotEqual)
    } else if contains_chars(one, &ge) {
        Some(Op::Ge)
    } else if contains_chars(one, &le) {
        Some(Op::Le)
    } else if contains_chars(one, &eq) {
        Some(Op::Equal)
    } else if contains_chars(one, &gt) {
        Some(Op::Gt)
    } else if contains_chars(one, &lt) {
        Some(Op::Lt)
    } else {
        None
    }
}

fn one_char(a: char) -> (v: Vec<char>)
    ensures
        v@ == seq![a],
{
    let mut v: Vec<char> = Vec::new();
    v.push(a);
    assert(v@ =~= seq![a]);
    v
}

fn two_chars(a: char, b: char) -> (v: Vec<char>)
    ensures
        v@ == seq![a, b],
{
    let mut v: Vec<char> = Vec::new();
    v.push(a);
    v.push(b);
    assert(v@ =~= seq![a, b]);
    v
}

impl Filter {
    pub closed spec fn raw_text(&self) -> Seq<char> {
        self.raw@
    }

    pub closed spec fn total_spec(&self) -> Option<usize> {
        self.total
    }

    /// The filters, in order.
    pub closed spec fn items(&self) -> Seq<FilterItemView> {
        self.filters@.map_values(|f: FilterItem| f@)
    }

    pub closed spec fn is_parsed(&self) -> bool {
        self.parsed
    }

    /// A known number of columns fits in `i32`, as negative columns need.
    pub closed spec fn wf(&self) -> bool {
        self.total is Some ==> self.total->0 <= i32::MAX
    }

    /// The filter `raw`, not parsed yet.
    pub fn new(raw: &str) -> (f: Filter)
        ensures
            f.wf(),
            f.raw_text() == raw@,
            f.total_spec() is None,
            f.items().len() == 0,
            !f.is_parsed(),
    {
        Filter { raw: raw.to_owned(), total: None, filters: Vec::new(), parsed: false }
    }

    pub fn is_empty(&self) -> (b: bool)
        ensures
            b == (self.items().len() == 0),
    {
        self.filters.len() == 0
    }

    /// Sets the number of columns of a row, which negative columns count
    /// from.
    pub fn total_col(self, total: usize) -> (f: Filter)
        requires
            total <= i32::MAX,
        ensures
            f.wf(),
            f.total_spec() == Some(total),
            f.raw_text() == self.raw_text(),
            f.items() == self.items(),
            f.is_parsed() == self.is_parsed(),
    {
        let mut f = self;
        f.total = Some(total);
        f
    }

    /// Takes the number of columns from `first_row`, split at `sep`.
    pub fn total_col_of(self, first_row: &str, sep: &str) -> (f: Filter)
        requires
            split_text(first_row@, sep@).len() <= i32::MAX,
        ensures
            f.wf(),
            f.total_spec() == Some(split_text(first_row@, sep@).len() as usize),
            f.raw_text() == self.raw_text(),
            f.items() == self.items(),
            f.is_parsed() == self.is_parsed(),
    {
        let v = split_str(first_row, sep);
        assert(v@.map_values(|x: String| x@).len() == v@.len());
        let n = v.len();
        self.total_col(n)
    }

    /// Parses the filters.
    #[verifier::loop_isolation(false)]
    pub fn parse(self) -> (r: Result<Filter, FilterError>)
        requires
            self.wf(),
        ensures
            (r is Ok) == (parse_filter(self.raw_text(), self.total_spec()) is Ok),
            r matches Ok(f) ==> {
                &&& f.is_parsed()
                &&& f.wf()
                &&& f.raw_text() == self.raw_text()
                &&& f.total_spec() == self.total_spec()
                &&& (self.raw_text().len() == 0 ==> f.items() == self.items())
                &&& (self.raw_text().len() > 0 ==> f.items()
                    == parse_filter(self.raw_text(), self.total_spec())->Ok_0)
            },
            r matches Err(e) ==> e.kind == parse_filter(self.raw_text(), self.total_spec())->Err_0.0
                && e.text@ == parse_filter(self.raw_text(), self.total_spec())->Err_0.1,
    {
        let ghost raw0 = self.raw_text();
        let ghost total0 = self.total_spec();
        let mut f = self;
        f.parsed = true;
        if f.raw.as_str().is_empty() {
            return Ok(f);
        }
        let pieces = split_str(f.raw.as_str(), "&");
        proof {
            reveal_strlit("&");
            assert("&"@ =~= seq!['&']);
        }
        let ghost all = pieces@.map_values(|x: String| x@);
        let mut items: Vec<FilterItem> = Vec::new();
        let mut i: usize = 0;
        assert(all.take(0) =~= Seq::<Seq<char>>::empty());
        assert(nonempty_pieces(all.take(0)) =~= Seq::<Seq<char>>::empty());
        assert(items@.map_values(|x: FilterItem| x@) =~= Seq::<FilterItemView>::empty());
        while i < pieces.len()
            invariant
                i <= pieces@.len(),
                all == pieces@.map_values(|x: String| x@),
                f.total == total0,
                total0 is Some ==> total0->0 <= i32::MAX,
                parse_items(nonempty_pieces(all.take(i as int)), total0)
                    == Ok::<Seq<FilterItemView>, (FilterErrorKind, Seq<char>)>(items@.map_values(|x: FilterItem| x@)),
            decreases pieces@.len() - i,
        {
            let ghost before = items@.map_values(|x: FilterItem| x@);
            assert(all.take(i + 1).drop_last() =~= all.take(i as int));
            assert(all.take(i + 1).last() == pieces@[i as int]@);
            if pieces[i].as_str().is_empty() {
                assert(nonempty_pieces(all.take(i + 1)) == nonempty_pieces(all.take(i as int)));
            } else {
                assert(nonempty_pieces(all.take(i + 1)) == nonempty_pieces(all.take(i as int)).push(pieces@[i as int]@));
                match parse_one(pieces[i].as_str(), f.total) {
                    Err(e) => {
                        proof {
                            let np = nonempty_pieces(all.take(i as int));
                            let np1 = nonempty_pieces(all.take(i + 1));
                            assert(np1.drop_last() =~= np);
                            assert(np1.last() == pieces@[i as int]@);
                            assert(parse_items(np1, total0) == Err::<Seq<FilterItemView>, (FilterErrorKind, Seq<char>)>(
                                parse_item(pieces@[i as int]@, total0)->Err_0));
                            lemma_parse_items_error_stays(all, i as int, total0);
                            assert(all.take(all.len() as int) =~= all);
                        }
                        return Err(e);
                    },
                    Ok(it) => {
                        proof {
                            let np = nonempty_pieces(all.take(i as int));
                            let np1 = nonempty_pieces(all.take(i + 1));
                            assert(np1.drop_last() =~= np);
                            assert(np1.last() == pieces@[i as int]@);
                            assert(parse_items(np1, total0) == Ok::<Seq<FilterItemView>, (FilterErrorKind, Seq<char>)>(
                                before.push(it@)));
                        }
                        items.push(it);
                        assert(items@.map_values(|x: FilterItem| x@) =~= before.push(it@));
                    },
                }
            }
            i += 1;
        }
        assert(all.take(all.len() as int) =~= all);
        f.filters = items;
        Ok(f)
    }

    /// The filters, in order.
    pub fn items_list(&self) -> (s: &[FilterItem])
        ensures
            s@.map_values(|f: FilterItem| f@) == self.items(),
    {
        self.filters.as_slice()
    }

    /// Whether every text filter holds of `row`; numeric filters are left
    /// to the caller.
    pub fn text_record_is_valid(&self, row: &[&str]) -> (b: bool)
        requires
            forall|k: int| 0 <= k < self.items().len() ==> (#[trigger] self.items()[k]).col < row@.len(),
        ensures
            b == (forall|k: int| 0 <= k < self.items().len() && !(#[trigger] self.items()[k]).is_numeric
                ==> text_item_holds(self.items()[k], row@.map_values(|x: &str| x@))),
    {
        let ghost rv = row@.map_values(|x: &str| x@);
        let mut k: usize = 0;
        while k < self.filters.len()
            invariant
                k <= self.items().len(),
                rv == row@.map_values(|x: &str| x@),
                forall|j: int| 0 <= j < self.items().len() ==> (#[trigger] self.items()[j]).col < row@.len(),
                forall|j: int| 0 <= j < k && !(#[trigger] self.items()[j]).is_numeric
                    ==> text_item_holds(self.items()[j], rv),
            decreases self.items().len() - k,
        {
            let it = &self.filters[k];
            assert(self.items()[k as int] == it@);
            if !it.is_numeric {
                if !text_item_holds_of(it, row) {
                    return false;
                }
            }
            k += 1;
        }
        true
    }
}

proof fn lemma_parse_items_error_stays(all: Seq<Seq<char>>, i: int, total: Option<usize>)
    requires
        0 <= i < all.len(),
        parse_items(nonempty_pieces(all.take(i + 1)), total) is Err,
    ensures
        parse_items(nonempty_pieces(all), total) == parse_items(nonempty_pieces(all.take(i + 1)), total),
    decreases all.len() - i,
{
    if i + 1 < all.len() {
        let t = all.take(i + 2);
        assert(t.drop_last() =~= all.take(i + 1));
        let np = nonempty_pieces(t);
        if t.last().len() != 0 {
            assert(np.drop_last() == nonempty_pieces(all.take(i + 1)));
        }
        lemma_parse_items_error_stays(all, i + 1, total);
    } else {
        assert(all.take(i + 1) =~= all);
    }
}

/// Whether the text filter `it` holds of `row`.
fn text_item_holds_of(it: &FilterItem, row: &[&str]) -> (b: bool)
    requires
        it.col < row@.len(),
    ensures
        b == text_item_holds(it@, row@.map_values(|x: &str| x@)),
{
    let f = chars_of(row[it.col]);
    match it.op {
        Op::Equal => contains_value(&it.str_values, &f),
        Op::NotEqual => !contains_value(&it.str_values, &f),
        Op::Ge => compare_chars(&f, &chars_of(it.str_value.as_str())) >= 0,
        Op::Gt => compare_chars(&f, &chars_of(it.str_value.as_str())) > 0,
        Op::Le => compare_chars(&f, &chars_of(it.str_value.as_str())) <= 0,
        Op::Lt => compare_chars(&f, &chars_of(it.str_value.as_str())) < 0,
    }
}

/// Whether one of `vals` equals `f`.
fn contains_value(vals: &Vec<String>, f: &Vec<char>) -> (b: bool)
    ensures
        b == vals@.map_values(|s: String| s@).contains(f@),
{
    let ghost all = vals@.map_values(|s: String| s@);
    let mut i: usize = 0;
    while i < vals.len()
        invariant
            i <= vals@.len(),
            all == vals@.map_values(|s: String| s@),
            forall|j: int| 0 <= j < i ==> all[j] != f@,
        decreases vals@.len() - i,
    {
        let v = chars_of(vals[i].as_str());
        if crate::utils::text::same_chars(&v, f) {
            assert(all[i as int] == f@);
            return true;
        }
        i += 1;
    }
    false
}

/// `a` is a proper prefix of `b`.
pub open spec fn is_proper_prefix(a: Seq<char>, b: Seq<char>) -> bool {
    a.len() < b.len() && b.subrange(0, a.len() as int) == a
}

proof fn lemma_prefix_comes_first(a: Seq<char>, b: Seq<char>)
    requires
        is_proper_prefix(a, b),
    ensures
        text_order(a, b) < 0,
    decreases a.len(),
{
    if a.len() > 0 {
        assert(b.subrange(0, a.len() as int)[0] == a[0]);
        assert(b.drop_first().subrange(0, a.drop_first().len() as int) =~= a.drop_first()) by {
            assert forall|i: int| 0 <= i < a.len() - 1 implies
                b.drop_first().subrange(0, a.len() - 1)[i] == a.drop_first()[i] by {
                assert(b.subrange(0, a.len() as int)[i + 1] == a[i + 1]);
            }
        }
        lemma_prefix_comes_first(a.drop_first(), b.drop_first());
    }
}

/// How the order filters of a text filter relate, for any row: `<=` holds
/// exactly when `<` holds or the field equals the value, `>=` likewise with
/// `>`; `<` holds exactly when `>=` does not, and `>` exactly when `<=` does
/// not; a field that is a proper prefix of the value comes before it.
pub proof fn text_order_filters_agree(it: FilterItemView, row: Seq<Seq<char>>)
    requires
        it.col < row.len(),
    ensures
        ({
            let f = row[it.col as int];
            let with = |op: Op| text_item_holds(FilterItemView { op, ..it }, row);
            &&& with(Op::Le) == (with(Op::Lt) || f == it.value)
            &&& with(Op::Ge) == (with(Op::Gt) || f == it.value)
            &&& with(Op::Lt) == !with(Op::Ge)
            &&& with(Op::Gt) == !with(Op::Le)
            &&& (is_proper_prefix(f, it.value) ==> with(Op::Lt) && with(Op::Le) && !with(Op::Gt))
            &&& (is_proper_prefix(it.value, f) ==> with(Op::Gt) && with(Op::Ge) && !with(Op::Lt))
        }),
{
    let f = row[it.col as int];
    crate::utils::ordering::lemma_text_order_antisymmetric(f, it.value);
    if f == it.value {
        crate::utils::ordering::lemma_text_order_reflexive(f);
    }
    if is_proper_prefix(f, it.value) {
        lemma_prefix_comes_first(f, it.value);
    }
    if is_proper_prefix(it.value, f) {
        lemma_prefix_comes_first(it.value, f);
        crate::utils::ordering::lemma_text_order_antisymmetric(it.value, f);
    }
}

/// A text `=` filter holds exactly when the field is one of its values, and
/// `!=` exactly when `=` does not.
pub proof fn text_equality_filters_agree(it: FilterItemView, row: Seq<Seq<char>>)
    requires
        it.col < row.len(),
    ensures
        text_item_holds(FilterItemView { op: Op::Equal, ..it }, row)
            == (exists|k: int| 0 <= k < it.values.len() && it.values[k] == row[it.col as int]),
        text_item_holds(FilterItemView { op: Op::NotEqual, ..it }, row)
            == !text_item_holds(FilterItemView { op: Op::Equal, ..it }, row),
{
}

/// The characters that comparison operators are made of.
pub open spec fn is_operator_char(ch: char) -> bool {
    ch == '!' || ch == '=' || ch == '<' || ch == '>'
}

/// How an operator is written in a filter.
pub open spec fn op_text(op: Op) -> Seq<char> {
    match op {
        Op::Equal => seq!['='],
        Op::NotEqual => seq!['!', '='],
        Op::Gt => seq!['>'],
        Op::Ge => seq!['>', '='],
        Op::Lt => seq!['<'],
        Op::Le => seq!['<', '='],
    }
}

/// `s` holds operator characters only at positions `lo..lo + w`.
pub open spec fn operators_only_in(s: Seq<char>, lo: int, w: int) -> bool {
    forall|i: int| 0 <= i < s.len() && !(lo <= i < lo + w) ==> !is_operator_char(#[trigger] s[i])
}

proof fn lemma_has_one(s: Seq<char>, lo: int, w: int, x: char)
    requires
        0 <= lo,
        1 <= w <= 2,
        lo + w <= s.len(),
        operators_only_in(s, lo, w),
        is_operator_char(x),
    ensures
        contains_text(s, seq![x]) == (s[lo] == x || (w == 2 && s[lo + 1] == x)),
{
    if contains_text(s, seq![x]) {
        let k = choose|k: int| 0 <= k && k + 1 <= s.len() && #[trigger] s.subrange(k, k + 1) == seq![x];
        assert(s.subrange(k, k + 1)[0] == s[k]);
        assert(is_operator_char(s[k]));
        assert(lo <= k < lo + w);
    }
    if s[lo] == x {
        assert(s.subrange(lo, lo + 1) =~= seq![x]);
        assert(contains_text(s, seq![x]));
    }
    if w == 2 && s[lo + 1] == x {
        let k = lo + 1;
        let t = seq![x];
        assert(s.subrange(k, k + t.len()) =~= t);
        assert(0 <= k && k + t.len() <= s.len());
        assert(contains_text(s, t));
    }
}

proof fn lemma_has_two(s: Seq<char>, lo: int, w: int, x: char)
    requires
        0 <= lo,
        1 <= w <= 2,
        lo + w <= s.len(),
        operators_only_in(s, lo, w),
        is_operator_char(x),
    ensures
        contains_text(s, seq![x, '=']) == (w == 2 && s[lo] == x && s[lo + 1] == '='),
{
    if contains_text(s, seq![x, '=']) {
        let k = choose|k: int| 0 <= k && k + 2 <= s.len() && #[trigger] s.subrange(k, k + 2) == seq![x, '='];
        assert(s.subrange(k, k + 2)[0] == s[k]);
        assert(s.subrange(k, k + 2)[1] == s[k + 1]);
    }
    if w == 2 && s[lo] == x && s[lo + 1] == '=' {
        assert(s.subrange(lo, lo + 2) =~= seq![x, '=']);
    }
}

proof fn lemma_pieces_skip_plain(s: Seq<char>, start: int, i: int, j: int)
    requires
        0 <= start <= i <= j <= s.len(),
        forall|k: int| i <= k < j ==> !is_operator_char(#[trigger] s[k]),
    ensures
        comparison_pieces_from(s, start, i) == comparison_pieces_from(s, start, j),
    decreases j - i,
{
    if i < j {
        assert(!is_operator_char(s[i]));
        assert(op_len_at(s, i) == 0);
        lemma_pieces_skip_plain(s, start, i + 1, j);
    }
}

/// A filter written as a column number, an operator and a value without
/// operator characters or `@` is read with that very operator: its column,
/// and its value (or its list of values for `=` and `!=`).
pub proof fn filter_operator_is_read_as_written(c: Seq<char>, op: Op, v: Seq<char>)
    requires
        c.len() > 0,
        all_digits(c),
        digits_value(c) <= usize::MAX,
        forall|i: int| 0 <= i < v.len() ==> !is_operator_char(#[trigger] v[i]) && v[i] != '@',
    ensures
        parse_item(c + op_text(op) + v, None) == Ok::<FilterItemView, (FilterErrorKind, Seq<char>)>(
            if op == Op::Equal || op == Op::NotEqual {
                FilterItemView {
                    col: digits_value(c) as usize,
                    is_numeric: false,
                    op,
                    value: seq![],
                    values: split_text(v, seq![',']),
                    expr: None,
                }
            } else {
                FilterItemView {
                    col: digits_value(c) as usize,
                    is_numeric: false,
                    op,
                    value: v,
                    values: seq![],
                    expr: None,
                }
            },
        ),
{
    let t = op_text(op);
    let s = c + t + v;
    let lo = c.len() as int;
    let w = t.len() as int;
    let n = s.len() as int;
    assert(1 <= w <= 2);
    assert forall|i: int| 0 <= i < lo implies s[i] == c[i] && !is_operator_char(s[i]) by {
        assert(is_digit(c[i]));
    }
    assert forall|i: int| lo + w <= i < n implies s[i] == v[i - lo - w] && !is_operator_char(s[i]) && s[i] != '@' by {
        assert(!is_operator_char(v[i - lo - w]));
    }
    assert(forall|i: int| 0 <= i < w ==> s[lo + i] == t[i]);
    assert(operators_only_in(s, lo, w)) by {
        assert forall|i: int| 0 <= i < s.len() && !(lo <= i < lo + w) implies !is_operator_char(#[trigger] s[i]) by {
            if i < lo {
                assert(s[i] == c[i]);
            } else {
                assert(s[i] == v[i - lo - w]);
            }
        }
    }
    // the split at the operator
    lemma_pieces_skip_plain(s, 0, 0, lo);
    assert(op_len_at(s, lo) == w) by {
        if w == 1 && lo + 1 < n {
            assert(!is_operator_char(s[lo + 1]));
        }
    }
    lemma_pieces_skip_plain(s, lo + w, lo + w, n);
    assert(s.subrange(0, lo) =~= c);
    assert(s.subrange(lo + w, n) =~= v);
    assert(comparison_split(s) == seq![c] + seq![v]);
    assert(seq![c] + seq![v] =~= seq![c, v]);
    // the column
    assert(c.last() == c[c.len() - 1]);
    assert(is_digit(c[c.len() - 1]));
    assert(is_digit(c[0]));
    assert(true_col(c, None) == Ok::<usize, ColumnsErrorKind>(digits_value(c) as usize));
    // the operator
    lemma_has_two(s, lo, w, '!');
    lemma_has_two(s, lo, w, '>');
    lemma_has_two(s, lo, w, '<');
    lemma_has_one(s, lo, w, '=');
    lemma_has_one(s, lo, w, '>');
    lemma_has_one(s, lo, w, '<');
    assert(op_of(s) == Some(op));
    // no expression in the value
    if contains_text(v, seq!['@']) {
        let k = choose|k: int| 0 <= k && k + 1 <= v.len() && #[trigger] v.subrange(k, k + 1) == seq!['@'];
        assert(v.subrange(k, k + 1)[0] == v[k]);
    }
}

} // verus!

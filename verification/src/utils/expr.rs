//! Arithmetic expressions over columns, such as `@1 + 1` or
//! `(@1+1)/(2^2)`.
//!
//! A column is written `@N` (or `cN`), a number in decimal notation. The
//! operators are `+`, `-`, `*`, `/`, `%` and `^`, with parentheses to group.
//! `^` binds tightest, then `*`, `/` and `%`, then `+` and `-`; each is
//! left-associative. Spaces are ignored. The text is turned into tokens,
//! then the tokens into a tree; the arithmetic itself is left to callers.
use vstd::prelude::*;
use crate::utils::number::{
    all_digits, digit_run, digits_value, f64_text, is_digit, is_f64, parse_usize, usize_value,
};
use crate::utils::text::{chars_of, string_from_chars};

verus! {

/// Why an expression was refused.
#[derive(Debug, Clone, Copy, PartialEq, Eq, Structural)]
pub enum ExprErrorKind {
    /// A character that starts no token.
    Unrecognized,
    /// A number that is not a decimal number.
    BadNumber,
    /// A column after `@` or `c` that is not a column number.
    BadColumn,
    /// Tokens that do not form an expression.
    Syntax,
}

/// A refused expression, with the text that caused it (empty for
/// `Syntax`).
#[derive(Debug)]
pub struct ExprError {
    pub kind: ExprErrorKind,
    pub text: String,
}

/// One token of an expression.
#[derive(Debug, PartialEq)]
pub enum ExprToken {
    /// A column, from `@N` or `cN`.
    Col(usize),
    /// A number, as its text.
    Num(String),
    /// One of `+ - * / % ^`.
    Op(char),
    LParen,
    RParen,
}

/// A token, as values.
pub enum ExprTokenView {
    Col(usize),
    Num(Seq<char>),
    Op(char),
    LParen,
    RParen,
}

impl View for ExprToken {
    type V = ExprTokenView;

    open spec fn view(&self) -> ExprTokenView {
        match self {
            ExprToken::Col(c) => ExprTokenView::Col(*c),
            ExprToken::Num(s) => ExprTokenView::Num(s@),
            ExprToken::Op(c) => ExprTokenView::Op(*c),
            ExprToken::LParen => ExprTokenView::LParen,
            ExprToken::RParen => ExprTokenView::RParen,
        }
    }
}

/// A parsed expression.
#[derive(Debug, PartialEq)]
pub enum ExprTree {
    Col(usize),
    /// A number, as its text.
    Num(String),
    /// An operator with its left and right operands.
    Bin(char, Box<ExprTree>, Box<ExprTree>),
}

/// A parsed expression, as values.
pub enum ExprTreeView {
    Col(usize),
    Num(Seq<char>),
    Bin(char, Box<ExprTreeView>, Box<ExprTreeView>),
}

/// The tree `t`, as values.
pub open spec fn tree_view(t: ExprTree) -> ExprTreeView
    decreases t,
{
    match t {
        ExprTree::Col(c) => ExprTreeView::Col(c),
        ExprTree::Num(s) => ExprTreeView::Num(s@),
        ExprTree::Bin(op, l, r) => ExprTreeView::Bin(op, Box::new(tree_view(*l)), Box::new(tree_view(*r))),
    }
}

impl View for ExprTree {
    type V = ExprTreeView;

    open spec fn view(&self) -> ExprTreeView {
        tree_view(*self)
    }
}

/// `s` without its spaces.
pub open spec fn drop_spaces(s: Seq<char>) -> Seq<char>
    decreases s.len(),
{
    if s.len() == 0 {
        s
    } else {
        let r = drop_spaces(s.drop_last());
        if s.last() == ' ' { r } else { r.push(s.last()) }
    }
}

/// Tab, line feed and carriage return, which may stand between tokens
/// but not at the end.
pub open spec fn is_expr_white(c: char) -> bool {
    c == '\t' || c == '\n' || c == '\r'
}

/// The characters that continue a number or a column number.
pub open spec fn is_number_char(c: char) -> bool {
    is_digit(c) || c == '.' || c == '_' || c == 'e'
}

pub open spec fn is_op_char(c: char) -> bool {
    c == '+' || c == '-' || c == '*' || c == '/' || c == '^' || c == '%'
}

/// The number of characters from position `i` on that continue a number.
pub open spec fn number_run(s: Seq<char>, i: int) -> nat
    decreases s.len() - i,
{
    if 0 <= i < s.len() && is_number_char(s[i]) { 1 + number_run(s, i + 1) } else { 0 }
}

/// `r` with `prefix` in front of its tokens.
pub open spec fn after(prefix: Seq<ExprTokenView>, r: Result<Seq<ExprTokenView>, (ExprErrorKind, Seq<char>)>)
    -> Result<Seq<ExprTokenView>, (ExprErrorKind, Seq<char>)>
{
    match r {
        Ok(rest) => Ok(prefix + rest),
        Err(e) => Err(e),
    }
}

/// The tokens of the spaceless text `s` from position `i` on, or why it is
/// refused, with the text that caused it.
pub open spec fn tokens_from(s: Seq<char>, i: int) -> Result<Seq<ExprTokenView>, (ExprErrorKind, Seq<char>)>
    decreases (if i < s.len() { s.len() - i } else { 0 }),
{
    if i < 0 || i >= s.len() {
        Ok(seq![])
    } else {
        let c = s[i];
        if is_expr_white(c) {
            if i + 1 >= s.len() {
                Err((ExprErrorKind::Unrecognized, seq![c]))
            } else {
                tokens_from(s, i + 1)
            }
        } else if c == '(' {
            after(seq![ExprTokenView::LParen], tokens_from(s, i + 1))
        } else if c == ')' {
            after(seq![ExprTokenView::RParen], tokens_from(s, i + 1))
        } else if is_op_char(c) {
            after(seq![ExprTokenView::Op(c)], tokens_from(s, i + 1))
        } else if is_digit(c) {
            let j = i + 1 + number_run(s, i + 1);
            let text = s.subrange(i, j);
            if f64_text(text) {
                after(seq![ExprTokenView::Num(text)], tokens_from(s, j))
            } else {
                Err((ExprErrorKind::BadNumber, text))
            }
        } else if c == '@' || c == 'c' {
            let j = i + 1 + number_run(s, i + 1);
            let text = s.subrange(i + 1, j);
            match usize_value(text) {
                Some(v) => after(seq![ExprTokenView::Col(v)], tokens_from(s, j)),
                None => Err((ExprErrorKind::BadColumn, text)),
            }
        } else {
            Err((ExprErrorKind::Unrecognized, seq![c]))
        }
    }
}

/// The tokens of `source`, or why it is refused.
pub open spec fn tokens_of(source: Seq<char>) -> Result<Seq<ExprTokenView>, (ExprErrorKind, Seq<char>)> {
    tokens_from(drop_spaces(source), 0)
}

/// How a token changes the depth of parentheses.
pub open spec fn paren_step(t: ExprTokenView) -> int {
    match t {
        ExprTokenView::LParen => 1,
        ExprTokenView::RParen => -1,
        _ => 0,
    }
}

/// The depth of parentheses before token `n`.
pub open spec fn depth(t: Seq<ExprTokenView>, n: int) -> int
    decreases n,
{
    if n <= 0 { 0 } else { depth(t, n - 1) + paren_step(t[n - 1]) }
}

/// The operators of a rank: 3 for `+ -`, 2 for `* / %`, 1 for `^`.
pub open spec fn rank_op(rank: nat, c: char) -> bool {
    ||| rank == 3 && (c == '+' || c == '-')
    ||| rank == 2 && (c == '*' || c == '/' || c == '%')
    ||| rank == 1 && c == '^'
}

/// Token `k` is an operator of the rank outside all parentheses.
pub open spec fn splits_at(t: Seq<ExprTokenView>, rank: nat, k: int) -> bool {
    &&& 0 <= k < t.len()
    &&& depth(t, k) == 0
    &&& t[k] matches ExprTokenView::Op(c) && rank_op(rank, c)
}

/// The last token before `n` where the expression splits at the rank, or
/// -1.
pub open spec fn last_split(t: Seq<ExprTokenView>, rank: nat, n: int) -> int
    decreases n,
{
    if n <= 0 {
        -1
    } else if splits_at(t, rank, n - 1) {
        n - 1
    } else {
        last_split(t, rank, n - 1)
    }
}

pub open spec fn op_char(t: ExprTokenView) -> char {
    match t {
        ExprTokenView::Op(c) => c,
        _ => ' ',
    }
}

/// The tree of the tokens `t` read at a rank: at rank 0 a column, a number
/// or an expression in parentheses; above it, the operands of the last
/// operator of the rank outside parentheses, or else `t` at the rank below.
/// Taking the last operator makes each rank left-associative.
pub open spec fn tree_at(t: Seq<ExprTokenView>, rank: nat) -> Option<ExprTreeView>
    decreases t.len(), rank,
{
    if rank == 0 {
        if t.len() == 1 {
            match t[0] {
                ExprTokenView::Col(c) => Some(ExprTreeView::Col(c)),
                ExprTokenView::Num(n) => Some(ExprTreeView::Num(n)),
                _ => None,
            }
        } else if t.len() >= 2 && t[0] is LParen && t.last() is RParen {
            tree_at(t.subrange(1, t.len() - 1), 3)
        } else {
            None
        }
    } else {
        let k = last_split(t, rank, t.len() as int);
        if !(0 <= k < t.len()) {
            tree_at(t, (rank - 1) as nat)
        } else {
            let l = tree_at(t.subrange(0, k), rank);
            let r = tree_at(t.subrange(k + 1, t.len() as int), (rank - 1) as nat);
            if l is Some && r is Some {
                Some(ExprTreeView::Bin(op_char(t[k]), Box::new(l->0), Box::new(r->0)))
            } else {
                None
            }
        }
    }
}

/// The expression of the tokens `t`, if they form one. No tokens at all
/// stand for the number 0.
pub open spec fn expr_of(t: Seq<ExprTokenView>) -> Option<ExprTreeView> {
    if t.len() == 0 {
        Some(ExprTreeView::Num(seq!['0']))
    } else {
        tree_at(t, 3)
    }
}

/// `source` without its spaces.
fn without_spaces(source: &str) -> (v: Vec<char>)
    ensures
        v@ == drop_spaces(source@),
{
    let s = chars_of(source);
    let mut v: Vec<char> = Vec::new();
    let mut i: usize = 0;
    assert(s@.take(0) =~= Seq::<char>::empty());
    while i < s.len()
        invariant
            i <= s.len(),
            v@ == drop_spaces(s@.take(i as int)),
        decreases s.len() - i,
    {
        assert(s@.take(i + 1).drop_last() =~= s@.take(i as int));
        if s[i] != ' ' {
            v.push(s[i]);
        }
        i += 1;
    }
    assert(s@.take(s@.len() as int) =~= s@);
    v
}

/// The end of the run of number characters that starts at `i`.
fn number_end(s: &Vec<char>, i: usize) -> (j: usize)
    requires
        i <= s.len(),
    ensures
        j == i + number_run(s@, i as int),
        j <= s.len(),
{
    let mut j = i;
    while j < s.len() && (is_digit_char(s[j]) || s[j] == '.' || s[j] == '_' || s[j] == 'e')
        invariant
            i <= j <= s.len(),
            number_run(s@, i as int) == (j - i) + number_run(s@, j as int),
        decreases s.len() - j,
    {
        j += 1;
    }
    j
}

fn is_digit_char(c: char) -> (b: bool)
    ensures
        b == is_digit(c),
{
    '0' <= c && c <= '9'
}

/// The tokens of `source`.
pub fn tokenize(source: &str) -> (r: Result<Vec<ExprToken>, ExprError>)
    ensures
        (r is Ok) == (tokens_of(source@) is Ok),
        r matches Ok(v) ==> v@.map_values(|t: ExprToken| t@) == tokens_of(source@)->Ok_0,
        r matches Err(e) ==> e.kind == tokens_of(source@)->Err_0.0 && e.text@ == tokens_of(source@)->Err_0.1,
{
    let s = without_spaces(source);
    let n = s.len();
    let mut toks: Vec<ExprToken> = Vec::new();
    let mut i: usize = 0;
    assert(toks@.map_values(|t: ExprToken| t@) =~= Seq::<ExprTokenView>::empty());
    assert(after(seq![], tokens_from(s@, 0)) == tokens_from(s@, 0)) by {
        match tokens_from(s@, 0) {
            Ok(rest) => { assert(Seq::<ExprTokenView>::empty() + rest =~= rest); },
            Err(e) => {},
        }
    }
    while i < n
        invariant
            n == s.len(),
            s@ == drop_spaces(source@),
            i <= n,
            after(toks@.map_values(|t: ExprToken| t@), tokens_from(s@, i as int)) == tokens_from(s@, 0),
        decreases n - i,
    {
        let ghost before = toks@.map_values(|t: ExprToken| t@);
        let c = s[i];
        let tok: ExprToken;
        let next: usize;
        if c == '\t' || c == '\n' || c == '\r' {
            if i + 1 >= n {
                let mut text = String::new();
                crate::utils::text::push_char(&mut text, c);
                assert(text@ =~= seq![c]);
                assert(tokens_from(s@, i as int)
                    == Err::<Seq<ExprTokenView>, (ExprErrorKind, Seq<char>)>((ExprErrorKind::Unrecognized, seq![c])));
                return Err(ExprError { kind: ExprErrorKind::Unrecognized, text });
            }
            i += 1;
            continue;
        } else if c == '(' {
            tok = ExprToken::LParen;
            next = i + 1;
        } else if c == ')' {
            tok = ExprToken::RParen;
            next = i + 1;
        } else if c == '+' || c == '-' || c == '*' || c == '/' || c == '^' || c == '%' {
            tok = ExprToken::Op(c);
            next = i + 1;
        } else if is_digit_char(c) {
            let j = number_end(&s, i + 1);
            let text = string_from_chars(&s, i, j);
            if !is_f64(&chars_of(text.as_str())) {
                return Err(ExprError { kind: ExprErrorKind::BadNumber, text });
            }
            tok = ExprToken::Num(text);
            next = j;
        } else if c == '@' || c == 'c' {
            let j = number_end(&s, i + 1);
            let digits = take_range(&s, i + 1, j);
            match parse_usize(&digits) {
                Some(v) => {
                    tok = ExprToken::Col(v);
                    next = j;
                },
                None => {
                    let text = string_from_chars(&s, i + 1, j);
                    return Err(ExprError { kind: ExprErrorKind::BadColumn, text });
                },
            }
        } else {
            let mut text = String::new();
            crate::utils::text::push_char(&mut text, c);
            assert(text@ =~= seq![c]);
            assert(tokens_from(s@, i as int)
                == Err::<Seq<ExprTokenView>, (ExprErrorKind, Seq<char>)>((ExprErrorKind::Unrecognized, seq![c])));
            return Err(ExprError { kind: ExprErrorKind::Unrecognized, text });
        }
        proof {
            assert(tokens_from(s@, i as int) == after(seq![tok@], tokens_from(s@, next as int)));
            match tokens_from(s@, next as int) {
                Ok(rest) => {
                    assert(before + (seq![tok@] + rest) =~= before.push(tok@) + rest);
                },
                Err(e) => {},
            }
        }
        toks.push(tok);
        assert(toks@.map_values(|t: ExprToken| t@) =~= before.push(tok@));
        i = next;
    }
    proof {
        match tokens_from(s@, 0) {
            Ok(all) => {
                assert(toks@.map_values(|t: ExprToken| t@) + Seq::<ExprTokenView>::empty()
                    =~= toks@.map_values(|t: ExprToken| t@));
            },
            Err(e) => {},
        }
    }
    Ok(toks)
}

/// `s[i..j]` as a new vector.
fn take_range(s: &Vec<char>, i: usize, j: usize) -> (v: Vec<char>)
    requires
        i <= j <= s.len(),
    ensures
        v@ == s@.subrange(i as int, j as int),
{
    let mut v: Vec<char> = Vec::new();
    let mut k = i;
    while k < j
        invariant
            i <= k <= j <= s.len(),
            v@ == s@.subrange(i as int, k as int),
        decreases j - k,
    {
        v.push(s[k]);
        k += 1;
        assert(v@ =~= s@.subrange(i as int, k as int));
    }
    v
}

/// The tokens, as values.
pub open spec fn tokens_view(tokens: Seq<ExprToken>) -> Seq<ExprTokenView> {
    tokens.map_values(|t: ExprToken| t@)
}

/// Whether `c` is an operator of the rank.
fn is_rank_op(rank: u8, c: char) -> (b: bool)
    ensures
        b == rank_op(rank as nat, c),
{
    (rank == 3 && (c == '+' || c == '-')) || (rank == 2 && (c == '*' || c == '/' || c == '%'))
        || (rank == 1 && c == '^')
}

/// Where `tokens[lo..hi]` splits at the rank: `last_split`, computed.
fn last_split_in(tokens: &[ExprToken], lo: usize, hi: usize, rank: u8) -> (k: Option<usize>)
    requires
        lo <= hi <= tokens@.len(),
    ensures
        ({
            let sub = tokens_view(tokens@).subrange(lo as int, hi as int);
            match k {
                Some(k) => lo <= k < hi && last_split(sub, rank as nat, hi - lo) == k - lo,
                None => last_split(sub, rank as nat, hi - lo) < 0,
            }
        }),
{
    let ghost sub = tokens_view(tokens@).subrange(lo as int, hi as int);
    let mut d: i128 = 0;
    let mut found: Option<usize> = None;
    let mut i = lo;
    while i < hi
        invariant
            lo <= i <= hi <= tokens@.len(),
            sub == tokens_view(tokens@).subrange(lo as int, hi as int),
            d == depth(sub, i - lo),
            -(i - lo) <= d <= i - lo,
            match found {
                Some(k) => lo <= k < i && last_split(sub, rank as nat, i - lo) == k - lo,
                None => last_split(sub, rank as nat, i - lo) < 0,
            },
        decreases hi - i,
    {
        assert(sub[i - lo] == tokens@[i as int]@);
        match &tokens[i] {
            ExprToken::Op(c) => {
                if d == 0 && is_rank_op(rank, *c) {
                    found = Some(i);
                }
            },
            ExprToken::LParen => {
                d = d + 1;
            },
            ExprToken::RParen => {
                d = d - 1;
            },
            _ => {},
        }
        i += 1;
    }
    found
}

/// The tree of `tokens[lo..hi]` at the rank: `tree_at`, computed.
fn parse_range(tokens: &[ExprToken], lo: usize, hi: usize, rank: u8) -> (r: Option<ExprTree>)
    requires
        lo <= hi <= tokens@.len(),
        rank <= 3,
    ensures
        ({
            let sub = tokens_view(tokens@).subrange(lo as int, hi as int);
            match r {
                Some(t) => tree_at(sub, rank as nat) == Some(t@),
                None => tree_at(sub, rank as nat) is None,
            }
        }),
    decreases hi - lo, rank,
{
    let ghost all = tokens_view(tokens@);
    let ghost sub = all.subrange(lo as int, hi as int);
    if rank == 0 {
        if hi - lo == 1 {
            assert(sub[0] == tokens@[lo as int]@);
            match &tokens[lo] {
                ExprToken::Col(c) => Some(ExprTree::Col(*c)),
                ExprToken::Num(n) => Some(ExprTree::Num(n.clone())),
                _ => None,
            }
        } else if hi - lo >= 2 && is_lparen(&tokens[lo]) && is_rparen(&tokens[hi - 1]) {
            assert(sub[0] == tokens@[lo as int]@);
            assert(sub.last() == tokens@[hi - 1]@);
            assert(sub.subrange(1, sub.len() - 1) =~= all.subrange(lo + 1, hi - 1));
            parse_range(tokens, lo + 1, hi - 1, 3)
        } else {
            proof {
                if hi - lo >= 2 {
                    assert(sub[0] == tokens@[lo as int]@);
                    assert(sub.last() == tokens@[hi - 1]@);
                }
            }
            None
        }
    } else {
        match last_split_in(tokens, lo, hi, rank) {
            None => parse_range(tokens, lo, hi, rank - 1),
            Some(k) => {
                assert(sub.subrange(0, k - lo) =~= all.subrange(lo as int, k as int));
                assert(sub.subrange(k - lo + 1, sub.len() as int) =~= all.subrange(k + 1, hi as int));
                assert(sub[k - lo] == tokens@[k as int]@);
                let l = parse_range(tokens, lo, k, rank);
                match l {
                    None => None,
                    Some(l) => {
                        let r = parse_range(tokens, k + 1, hi, rank - 1);
                        match r {
                            None => None,
                            Some(r) => {
                                let op = match &tokens[k] {
                                    ExprToken::Op(c) => *c,
                                    _ => ' ',
                                };
                                Some(ExprTree::Bin(op, Box::new(l), Box::new(r)))
                            },
                        }
                    },
                }
            },
        }
    }
}

fn is_lparen(t: &ExprToken) -> (b: bool)
    ensures
        b == (t@ is LParen),
{
    match t {
        ExprToken::LParen => true,
        _ => false,
    }
}

fn is_rparen(t: &ExprToken) -> (b: bool)
    ensures
        b == (t@ is RParen),
{
    match t {
        ExprToken::RParen => true,
        _ => false,
    }
}

/// The expression that `tokens` form.
pub fn parse_expr(tokens: &[ExprToken]) -> (r: Result<ExprTree, ExprError>)
    ensures
        (r is Ok) == (expr_of(tokens_view(tokens@)) is Some),
        r matches Ok(t) ==> expr_of(tokens_view(tokens@)) == Some(t@),
        r matches Err(e) ==> e.kind == ExprErrorKind::Syntax && e.text@ == Seq::<char>::empty(),
{
    if tokens.len() == 0 {
        let mut zero = String::new();
        crate::utils::text::push_char(&mut zero, '0');
        assert(zero@ =~= seq!['0']);
        return Ok(ExprTree::Num(zero));
    }
    assert(tokens_view(tokens@).subrange(0, tokens@.len() as int) =~= tokens_view(tokens@));
    match parse_range(tokens, 0, tokens.len(), 3) {
        Some(t) => Ok(t),
        None => Err(ExprError { kind: ExprErrorKind::Syntax, text: String::new() }),
    }
}

/// The expression written in `source`.
pub fn compile(source: &str) -> (r: Result<ExprTree, ExprError>)
    ensures
        (r is Ok) == (tokens_of(source@) matches Ok(t) && expr_of(t) is Some),
        r matches Ok(tree) ==> expr_of(tokens_of(source@)->Ok_0) == Some(tree@),
        r matches Err(e) ==> match tokens_of(source@) {
            Err(te) => e.kind == te.0 && e.text@ == te.1,
            Ok(_) => e.kind == ExprErrorKind::Syntax && e.text@ == Seq::<char>::empty(),
        },
{
    let toks = tokenize(source)?;
    parse_expr(toks.as_slice())
}

/// The largest column that the tree names, or 0 where it names none.
pub open spec fn max_col(t: ExprTreeView) -> usize
    decreases t,
{
    match t {
        ExprTreeView::Col(c) => c,
        ExprTreeView::Num(_) => 0,
        ExprTreeView::Bin(_, l, r) => {
            let a = max_col(*l);
            let b = max_col(*r);
            if a >= b { a } else { b }
        },
    }
}

/// Whether the tree names column `col`.
pub open spec fn uses_col(t: ExprTreeView, col: usize) -> bool
    decreases t,
{
    match t {
        ExprTreeView::Col(c) => c == col,
        ExprTreeView::Num(_) => false,
        ExprTreeView::Bin(_, l, r) => uses_col(*l, col) || uses_col(*r, col),
    }
}

impl ExprTree {
    /// The largest column named, or 0.
    pub fn max_column(&self) -> (m: usize)
        ensures
            m == max_col(self@),
        decreases self,
    {
        match self {
            ExprTree::Col(c) => *c,
            ExprTree::Num(_) => 0,
            ExprTree::Bin(_, l, r) => {
                let a = l.max_column();
                let b = r.max_column();
                if a >= b { a } else { b }
            },
        }
    }

    /// Whether column `col` is named.
    pub fn contains_column(&self, col: usize) -> (b: bool)
        ensures
            b == uses_col(self@, col),
        decreases self,
    {
        match self {
            ExprTree::Col(c) => *c == col,
            ExprTree::Num(_) => false,
            ExprTree::Bin(_, l, r) => l.contains_column(col) || r.contains_column(col),
        }
    }
}

/// An expression, parsed and ready to be evaluated.
#[derive(Debug)]
pub struct CompiledExpr {
    pub tree: ExprTree,
}

impl CompiledExpr {
    /// The expression of no tokens: the number 0.
    pub fn new() -> (c: CompiledExpr)
        ensures
            c.tree@ == ExprTreeView::Num(seq!['0']),
    {
        let mut zero = String::new();
        crate::utils::text::push_char(&mut zero, '0');
        assert(zero@ =~= seq!['0']);
        CompiledExpr { tree: ExprTree::Num(zero) }
    }

    /// Whether column `col` is named.
    pub fn contains_column(&self, col: &usize) -> (b: bool)
        ensures
            b == uses_col(self.tree@, *col),
    {
        self.tree.contains_column(*col)
    }

    /// The largest column named, or 0.
    pub fn max_column(&self) -> (m: usize)
        ensures
            m == max_col(self.tree@),
    {
        self.tree.max_column()
    }
}

/// The parser of expressions.
pub struct AST;

impl AST {
    /// The expression written in `source`, as `compile` gives it.
    pub fn parse(source: &str) -> (r: Result<CompiledExpr, ExprError>)
        ensures
            (r is Ok) == (tokens_of(source@) matches Ok(t) && expr_of(t) is Some),
            r matches Ok(c) ==> expr_of(tokens_of(source@)->Ok_0) == Some(c.tree@),
            r matches Err(e) ==> match tokens_of(source@) {
                Err(te) => e.kind == te.0 && e.text@ == te.1,
                Ok(_) => e.kind == ExprErrorKind::Syntax && e.text@ == Seq::<char>::empty(),
            },
    {
        match compile(source) {
            Ok(tree) => Ok(CompiledExpr { tree }),
            Err(e) => Err(e),
        }
    }
}

/// Every prefix of `t` closes no more parentheses than it opens, and all of
/// `t` closes as many as it opens.
pub open spec fn balanced(t: Seq<ExprTokenView>) -> bool {
    &&& forall|k: int| 0 <= k <= t.len() ==> #[trigger] depth(t, k) >= 0
    &&& depth(t, t.len() as int) == 0
}

/// The depth inside a part of `t` is the depth in `t` less the depth where
/// the part starts.
proof fn lemma_depth_of_part(t: Seq<ExprTokenView>, a: int, b: int, j: int)
    requires
        0 <= a <= b <= t.len(),
        0 <= j <= b - a,
    ensures
        depth(t.subrange(a, b), j) == depth(t, a + j) - depth(t, a),
    decreases j,
{
    if j > 0 {
        lemma_depth_of_part(t, a, b, j - 1);
        assert(t.subrange(a, b)[j - 1] == t[a + j - 1]);
    }
}

/// Tokens that form a tree at some rank are balanced.
proof fn lemma_tree_balanced(t: Seq<ExprTokenView>, rank: nat)
    requires
        tree_at(t, rank) is Some,
    ensures
        balanced(t),
    decreases t.len(), rank,
{
    if rank == 0 {
        if t.len() == 1 {
            assert(depth(t, 1) == depth(t, 0) + paren_step(t[0]));
            assert forall|k: int| 0 <= k <= t.len() implies #[trigger] depth(t, k) >= 0 by {
                if k == 1 {
                    assert(depth(t, 1) == 0);
                }
            }
        } else {
            let n = t.len() as int;
            let inner = t.subrange(1, n - 1);
            assert(n >= 2 && t[0] is LParen && t.last() is RParen);
            assert(depth(t, 1) == depth(t, 0) + paren_step(t[0]));
            lemma_tree_balanced(inner, 3);
            assert forall|k: int| 0 <= k <= t.len() implies #[trigger] depth(t, k) >= 0 by {
                if 1 <= k <= n - 1 {
                    lemma_depth_of_part(t, 1, n - 1, k - 1);
                    assert(depth(t, 1) == 1);
                    assert(depth(inner, k - 1) >= 0);
                } else if k == n {
                    lemma_depth_of_part(t, 1, n - 1, n - 2);
                    assert(depth(inner, n - 2) == 0);
                    assert(depth(t, 1) == 1);
                    assert(depth(t, n) == depth(t, n - 1) + paren_step(t[n - 1]));
                }
            }
            lemma_depth_of_part(t, 1, n - 1, n - 2);
            assert(depth(t, 1) == 1);
            assert(depth(t, n) == depth(t, n - 1) + paren_step(t[n - 1]));
        }
    } else {
        let n = t.len() as int;
        let k = last_split(t, rank, n);
        if !(0 <= k < n) {
            lemma_tree_balanced(t, (rank - 1) as nat);
        } else {
            lemma_last_split_splits(t, rank, n);
            let left = t.subrange(0, k);
            let right = t.subrange(k + 1, n);
            lemma_tree_balanced(left, rank);
            lemma_tree_balanced(right, (rank - 1) as nat);
            assert(depth(t, 0) == 0);
            assert(depth(t, k + 1) == depth(t, k) + paren_step(t[k]));
            assert forall|j: int| 0 <= j <= t.len() implies #[trigger] depth(t, j) >= 0 by {
                if j <= k {
                    lemma_depth_of_part(t, 0, k, j);
                    assert(depth(left, j) >= 0);
                } else {
                    lemma_depth_of_part(t, k + 1, n, j - k - 1);
                    assert(depth(right, j - k - 1) >= 0);
                }
            }
            lemma_depth_of_part(t, k + 1, n, n - k - 1);
        }
    }
}

/// Where `last_split` finds a position, the tokens split there.
proof fn lemma_last_split_splits(t: Seq<ExprTokenView>, rank: nat, n: int)
    requires
        n >= 0,
    ensures
        last_split(t, rank, n) < n,
        last_split(t, rank, n) >= 0 ==> splits_at(t, rank, last_split(t, rank, n)),
    decreases n,
{
    if n > 0 && !splits_at(t, rank, n - 1) {
        lemma_last_split_splits(t, rank, n - 1);
    }
}

/// Where no position before `n` splits, `last_split` finds none.
proof fn lemma_no_split(t: Seq<ExprTokenView>, rank: nat, n: int)
    requires
        forall|k: int| 0 <= k < n ==> !#[trigger] splits_at(t, rank, k),
    ensures
        last_split(t, rank, n) < 0,
    decreases n,
{
    if n > 0 {
        lemma_no_split(t, rank, n - 1);
    }
}

/// An expression in parentheses is the same expression.
pub proof fn parens_keep_expression(t: Seq<ExprTokenView>)
    requires
        t.len() > 0,
        expr_of(t) is Some,
    ensures
        expr_of(seq![ExprTokenView::LParen] + t + seq![ExprTokenView::RParen]) == expr_of(t),
{
    let u = seq![ExprTokenView::LParen] + t + seq![ExprTokenView::RParen];
    let n = u.len() as int;
    lemma_tree_balanced(t, 3);
    assert(u.subrange(1, n - 1) =~= t);
    assert forall|k: int| 1 <= k <= n - 1 implies #[trigger] depth(u, k) >= 1 by {
        lemma_depth_of_part(u, 1, n - 1, k - 1);
        assert(depth(u, 1) == depth(u, 0) + paren_step(u[0]));
        assert(depth(t, k - 1) >= 0);
    }
    assert forall|r: nat, k: int| 0 <= k < n implies !#[trigger] splits_at(u, r, k) by {
        if 1 <= k <= n - 2 {
            assert(depth(u, k) >= 1);
        }
    }
    lemma_no_split(u, 3, n);
    lemma_no_split(u, 2, n);
    lemma_no_split(u, 1, n);
    assert(tree_at(u, 3) == tree_at(u, 2));
    assert(tree_at(u, 2) == tree_at(u, 1));
    assert(tree_at(u, 1) == tree_at(u, 0));
    assert(tree_at(u, 0) == tree_at(t, 3));
}

proof fn lemma_drop_spaces_twice(s: Seq<char>)
    ensures
        drop_spaces(drop_spaces(s)) == drop_spaces(s),
    decreases s.len(),
{
    if s.len() > 0 {
        lemma_drop_spaces_twice(s.drop_last());
        let r = drop_spaces(s.drop_last());
        if s.last() != ' ' {
            assert(r.push(s.last()).drop_last() =~= r);
        }
    }
}

/// Spaces in an expression change nothing: the text without them has the
/// same tokens.
pub proof fn spaces_do_not_matter(source: Seq<char>)
    ensures
        tokens_of(drop_spaces(source)) == tokens_of(source),
{
    lemma_drop_spaces_twice(source);
}

/// A column or a number token.
pub open spec fn is_atom(t: ExprTokenView) -> bool {
    t is Col || t is Num
}

/// The tree of a column or number token.
pub open spec fn atom_tree(t: ExprTokenView) -> ExprTreeView {
    match t {
        ExprTokenView::Col(c) => ExprTreeView::Col(c),
        ExprTokenView::Num(n) => ExprTreeView::Num(n),
        _ => ExprTreeView::Num(seq![]),
    }
}

/// How tightly an operator binds: `+ -` loosest, then `* / %`, then `^`;
/// 0 for what is no operator.
pub open spec fn binding(c: char) -> int {
    if c == '+' || c == '-' {
        1
    } else if c == '*' || c == '/' || c == '%' {
        2
    } else if c == '^' {
        3
    } else {
        0
    }
}

proof fn lemma_atom_at(a: ExprTokenView, rank: nat)
    requires
        is_atom(a),
        rank <= 3,
    ensures
        tree_at(seq![a], rank) == Some(atom_tree(a)),
    decreases rank,
{
    let t = seq![a];
    assert(depth(t, 0) == 0);
    assert(!splits_at(t, rank, 0));
    assert(last_split(t, rank, 1) == last_split(t, rank, 0));
    if rank > 0 {
        lemma_atom_at(a, (rank - 1) as nat);
    }
}

proof fn lemma_three_at(a: ExprTokenView, o: char, b: ExprTokenView, rank: nat)
    requires
        is_atom(a),
        is_atom(b),
        binding(o) >= 1,
        4 - binding(o) <= rank <= 3,
    ensures
        tree_at(seq![a, ExprTokenView::Op(o), b], rank)
            == Some(ExprTreeView::Bin(o, Box::new(atom_tree(a)), Box::new(atom_tree(b)))),
    decreases rank,
{
    let t = seq![a, ExprTokenView::Op(o), b];
    assert(depth(t, 1) == depth(t, 0) + paren_step(t[0]));
    assert(depth(t, 2) == depth(t, 1) + paren_step(t[1]));
    assert(depth(t, 1) == 0 && depth(t, 2) == 0);
    assert(!splits_at(t, rank, 0));
    assert(!splits_at(t, rank, 2));
    assert(last_split(t, rank, 0) == -1);
    assert(last_split(t, rank, 1) == -1);
    if rank == 4 - binding(o) {
        assert(splits_at(t, rank, 1));
        assert(last_split(t, rank, 2) == 1);
        assert(last_split(t, rank, 3) == 1);
        assert(t.subrange(0, 1) =~= seq![a]);
        assert(t.subrange(2, 3) =~= seq![b]);
        lemma_atom_at(a, rank);
        lemma_atom_at(b, (rank - 1) as nat);
    } else {
        assert(!splits_at(t, rank, 1));
        assert(last_split(t, rank, 2) == -1);
        assert(last_split(t, rank, 3) == -1);
        lemma_three_at(a, o, b, (rank - 1) as nat);
    }
}

proof fn lemma_five_at(a: ExprTokenView, o1: char, b: ExprTokenView, o2: char, c: ExprTokenView, rank: nat)
    requires
        is_atom(a),
        is_atom(b),
        is_atom(c),
        binding(o1) >= 1,
        binding(o2) >= 1,
        4 - binding(o1) <= rank <= 3,
        4 - binding(o2) <= rank,
    ensures
        tree_at(seq![a, ExprTokenView::Op(o1), b, ExprTokenView::Op(o2), c], rank) == Some(
            if binding(o1) < binding(o2) {
                ExprTreeView::Bin(o1, Box::new(atom_tree(a)),
                    Box::new(ExprTreeView::Bin(o2, Box::new(atom_tree(b)), Box::new(atom_tree(c)))))
            } else {
                ExprTreeView::Bin(o2,
                    Box::new(ExprTreeView::Bin(o1, Box::new(atom_tree(a)), Box::new(atom_tree(b)))),
                    Box::new(atom_tree(c)))
            },
        ),
    decreases rank,
{
    let t = seq![a, ExprTokenView::Op(o1), b, ExprTokenView::Op(o2), c];
    assert(depth(t, 1) == depth(t, 0) + paren_step(t[0]));
    assert(depth(t, 2) == depth(t, 1) + paren_step(t[1]));
    assert(depth(t, 3) == depth(t, 2) + paren_step(t[2]));
    assert(depth(t, 4) == depth(t, 3) + paren_step(t[3]));
    assert(depth(t, 1) == 0 && depth(t, 2) == 0 && depth(t, 3) == 0 && depth(t, 4) == 0);
    assert(!splits_at(t, rank, 0));
    assert(!splits_at(t, rank, 2));
    assert(!splits_at(t, rank, 4));
    assert(splits_at(t, rank, 1) == (rank == 4 - binding(o1)));
    assert(splits_at(t, rank, 3) == (rank == 4 - binding(o2)));
    assert(last_split(t, rank, 0) == -1);
    assert(last_split(t, rank, 1) == -1);
    assert(last_split(t, rank, 3) == last_split(t, rank, 2));
    assert(last_split(t, rank, 5) == last_split(t, rank, 4));
    if rank == 4 - binding(o2) {
        assert(last_split(t, rank, 5) == 3);
        assert(t.subrange(0, 3) =~= seq![a, ExprTokenView::Op(o1), b]);
        assert(t.subrange(4, 5) =~= seq![c]);
        lemma_three_at(a, o1, b, rank);
        lemma_atom_at(c, (rank - 1) as nat);
    } else if rank == 4 - binding(o1) {
        assert(last_split(t, rank, 5) == 1);
        assert(t.subrange(0, 1) =~= seq![a]);
        assert(t.subrange(2, 5) =~= seq![b, ExprTokenView::Op(o2), c]);
        lemma_atom_at(a, rank);
        lemma_three_at(b, o2, c, (rank - 1) as nat);
    } else {
        assert(last_split(t, rank, 5) == -1);
        lemma_five_at(a, o1, b, o2, c, (rank - 1) as nat);
    }
}

/// Precedence and associativity: in `a o1 b o2 c`, over columns and
/// numbers, the operator that binds tighter takes its neighbours first,
/// and of two that bind alike the left one does (`1+6%4` is `1+(6%4)`,
/// `6%4+1` is `(6%4)+1`, `1-2-3` is `(1-2)-3`).
pub proof fn operators_bind_by_precedence(a: ExprTokenView, o1: char, b: ExprTokenView, o2: char, c: ExprTokenView)
    requires
        is_atom(a),
        is_atom(b),
        is_atom(c),
        binding(o1) >= 1,
        binding(o2) >= 1,
    ensures
        expr_of(seq![a, ExprTokenView::Op(o1), b, ExprTokenView::Op(o2), c]) == Some(
            if binding(o1) < binding(o2) {
                ExprTreeView::Bin(o1, Box::new(atom_tree(a)),
                    Box::new(ExprTreeView::Bin(o2, Box::new(atom_tree(b)), Box::new(atom_tree(c)))))
            } else {
                ExprTreeView::Bin(o2,
                    Box::new(ExprTreeView::Bin(o1, Box::new(atom_tree(a)), Box::new(atom_tree(b)))),
                    Box::new(atom_tree(c)))
            },
        ),
{
    lemma_five_at(a, o1, b, o2, c, 3);
}

/// A single operator between two columns or numbers joins them.
pub proof fn operator_joins_operands(a: ExprTokenView, o: char, b: ExprTokenView)
    requires
        is_atom(a),
        is_atom(b),
        binding(o) >= 1,
    ensures
        expr_of(seq![a, ExprTokenView::Op(o), b])
            == Some(ExprTreeView::Bin(o, Box::new(atom_tree(a)), Box::new(atom_tree(b)))),
{
    lemma_three_at(a, o, b, 3);
}

proof fn lemma_digits_runs(d: Seq<char>, i: int)
    requires
        all_digits(d),
        0 <= i <= d.len(),
    ensures
        number_run(d, i) == d.len() - i,
        digit_run(d, i) == d.len() - i,
    decreases d.len() - i,
{
    if i < d.len() {
        assert(is_digit(d[i]));
        lemma_digits_runs(d, i + 1);
    }
}

proof fn lemma_no_spaces(s: Seq<char>)
    requires
        forall|i: int| 0 <= i < s.len() ==> #[trigger] s[i] != ' ',
    ensures
        drop_spaces(s) == s,
    decreases s.len(),
{
    if s.len() > 0 {
        assert forall|i: int| 0 <= i < s.drop_last().len() implies #[trigger] s.drop_last()[i] != ' ' by {
            assert(s.drop_last()[i] == s[i]);
        }
        lemma_no_spaces(s.drop_last());
        assert(s.last() == s[s.len() - 1]);
        assert(s.drop_last().push(s.last()) =~= s);
    }
}

/// Decimal digits are one number token, and `@` or `c` before them one
/// column token with their value.
pub proof fn digits_are_one_token(d: Seq<char>)
    requires
        d.len() > 0,
        all_digits(d),
    ensures
        tokens_of(d) == Ok::<Seq<ExprTokenView>, (ExprErrorKind, Seq<char>)>(seq![ExprTokenView::Num(d)]),
        digits_value(d) <= usize::MAX ==> tokens_of(seq!['@'] + d)
            == Ok::<Seq<ExprTokenView>, (ExprErrorKind, Seq<char>)>(seq![ExprTokenView::Col(digits_value(d) as usize)]),
        digits_value(d) <= usize::MAX ==> tokens_of(seq!['c'] + d)
            == Ok::<Seq<ExprTokenView>, (ExprErrorKind, Seq<char>)>(seq![ExprTokenView::Col(digits_value(d) as usize)]),
{
    assert forall|i: int| 0 <= i < d.len() implies #[trigger] d[i] != ' ' by {
        assert(is_digit(d[i]));
    }
    lemma_no_spaces(d);
    lemma_digits_runs(d, 0);
    lemma_digits_runs(d, 1);
    assert(is_digit(d[0]));
    assert(d.subrange(0, d.len() as int) =~= d);
    assert(d.subrange(0, d.len() as int).len() == d.len());
    assert(f64_text(d));
    assert(tokens_from(d, d.len() as int) == Ok::<Seq<ExprTokenView>, (ExprErrorKind, Seq<char>)>(seq![]));
    assert(seq![ExprTokenView::Num(d)] + Seq::<ExprTokenView>::empty() =~= seq![ExprTokenView::Num(d)]);
    let col = ExprTokenView::Col(digits_value(d) as usize);
    assert(seq![col] + Seq::<ExprTokenView>::empty() =~= seq![col]);
    let at = seq!['@'] + d;
    let ce = seq!['c'] + d;
    assert forall|i: int| 0 <= i < at.len() implies #[trigger] at[i] != ' ' by {
        if i > 0 {
            assert(at[i] == d[i - 1]);
            assert(is_digit(d[i - 1]));
        }
    }
    assert forall|i: int| 0 <= i < ce.len() implies #[trigger] ce[i] != ' ' by {
        if i > 0 {
            assert(ce[i] == d[i - 1]);
            assert(is_digit(d[i - 1]));
        }
    }
    lemma_no_spaces(at);
    lemma_no_spaces(ce);
    assert(at.drop_first() =~= d);
    assert(ce.drop_first() =~= d);
    assert(all_digits(at.drop_first()));
    lemma_digits_runs_after(at, d);
    lemma_digits_runs_after(ce, d);
    assert(at.subrange(1, at.len() as int) =~= d);
    assert(ce.subrange(1, ce.len() as int) =~= d);
    assert(usize_value(d) == (if digits_value(d) <= usize::MAX { Some(digits_value(d) as usize) } else { None }));
    assert(tokens_from(at, at.len() as int) == Ok::<Seq<ExprTokenView>, (ExprErrorKind, Seq<char>)>(seq![]));
    assert(tokens_from(ce, ce.len() as int) == Ok::<Seq<ExprTokenView>, (ExprErrorKind, Seq<char>)>(seq![]));
}

proof fn lemma_digits_runs_after(s: Seq<char>, d: Seq<char>)
    requires
        s.len() == d.len() + 1,
        all_digits(d),
        forall|i: int| 1 <= i < s.len() ==> s[i] == d[i - 1],
    ensures
        number_run(s, 1) == d.len(),
{
    lemma_run_shift(s, d, 1);
}

proof fn lemma_run_shift(s: Seq<char>, d: Seq<char>, i: int)
    requires
        s.len() == d.len() + 1,
        all_digits(d),
        forall|k: int| 1 <= k < s.len() ==> s[k] == d[k - 1],
        1 <= i <= s.len(),
    ensures
        number_run(s, i) == s.len() - i,
    decreases s.len() - i,
{
    if i < s.len() {
        assert(s[i] == d[i - 1]);
        assert(is_digit(d[i - 1]));
        lemma_run_shift(s, d, i + 1);
    }
}

} // verus!

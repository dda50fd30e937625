//! Recognising the decimal numbers that std's `str::parse` accepts.
use vstd::prelude::*;

verus! {

pub open spec fn is_digit(c: char) -> bool {
    '0' <= c && c <= '9'
}

pub open spec fn digit_value(c: char) -> nat {
    (c as int - '0' as int) as nat
}

/// Every character of `d` is an ASCII digit.
pub open spec fn all_digits(d: Seq<char>) -> bool {
    forall|i: int| 0 <= i < d.len() ==> is_digit(#[trigger] d[i])
}

/// The value of the decimal digits `d`.
pub open spec fn digits_value(d: Seq<char>) -> nat
    decreases d.len(),
{
    if d.len() == 0 {
        0
    } else {
        digits_value(d.drop_last()) * 10 + digit_value(d.last())
    }
}

pub open spec fn is_sign(c: char) -> bool {
    c == '+' || c == '-'
}

/// `s` without its leading sign, if it has one.
pub open spec fn unsigned_part(s: Seq<char>) -> Seq<char> {
    if s.len() > 0 && is_sign(s[0]) { s.drop_first() } else { s }
}

pub open spec fn is_negative_text(s: Seq<char>) -> bool {
    s.len() > 0 && s[0] == '-'
}

/// The value that `s.parse::<i128>()` would give, written as an integer:
/// an optional sign, then at least one ASCII digit.
pub open spec fn signed_value(s: Seq<char>) -> Option<int> {
    let d = unsigned_part(s);
    if d.len() >= 1 && all_digits(d) {
        if is_negative_text(s) { Some(-(digits_value(d) as int)) } else { Some(digits_value(d) as int) }
    } else {
        None
    }
}

/// What `s.parse::<i64>()` accepts.
pub open spec fn i64_text(s: Seq<char>) -> bool {
    match signed_value(s) {
        Some(v) => i64::MIN <= v <= i64::MAX,
        None => false,
    }
}

/// What `s.parse::<i32>()` gives.
pub open spec fn i32_value(s: Seq<char>) -> Option<i32> {
    match signed_value(s) {
        Some(v) => if i32::MIN <= v <= i32::MAX { Some(v as i32) } else { None },
        None => None,
    }
}

/// What `s.parse::<usize>()` gives: an optional `+`, then at least one
/// ASCII digit, within the range of `usize`.
pub open spec fn usize_value(s: Seq<char>) -> Option<usize> {
    let d = if s.len() > 0 && s[0] == '+' { s.drop_first() } else { s };
    if d.len() >= 1 && all_digits(d) && digits_value(d) <= usize::MAX {
        Some(digits_value(d) as usize)
    } else {
        None
    }
}

/// The number of ASCII digits in `s` from position `i` on, up to the first
/// other character.
pub open spec fn digit_run(s: Seq<char>, i: int) -> nat
    decreases s.len() - i,
{
    if 0 <= i < s.len() && is_digit(s[i]) { 1 + digit_run(s, i + 1) } else { 0 }
}

pub open spec fn lower(c: char) -> char {
    if 'A' <= c && c <= 'Z' { ((c as u32) + 32) as char } else { c }
}

/// `s` equals `w` when ASCII letters of `s` are taken in lower case.
pub open spec fn equals_ignoring_case(s: Seq<char>, w: Seq<char>) -> bool {
    s.len() == w.len() && forall|i: int| 0 <= i < s.len() ==> lower(#[trigger] s[i]) == w[i]
}

/// An exponent: `e` or `E`, an optional sign, at least one digit.
pub open spec fn exponent_text(e: Seq<char>) -> bool {
    let rest = e.drop_first();
    let d = unsigned_part(rest);
    e.len() >= 2 && lower(e[0]) == 'e' && d.len() >= 1 && all_digits(d)
}

/// A decimal number: `digits`, `digits.digits?` or `.digits`, then an
/// optional exponent.
pub open spec fn number_text(t: Seq<char>) -> bool {
    let i = digit_run(t, 0) as int;
    if i < t.len() && t[i] == '.' {
        let f = digit_run(t, i + 1) as int;
        i + f >= 1 && {
            let rest = t.subrange(i + 1 + f, t.len() as int);
            rest.len() == 0 || exponent_text(rest)
        }
    } else {
        i >= 1 && {
            let rest = t.subrange(i, t.len() as int);
            rest.len() == 0 || exponent_text(rest)
        }
    }
}

/// What `s.parse::<f64>()` accepts, following the grammar in std's
/// documentation: an optional sign, then `inf`, `infinity` or `nan` in any
/// case, or a decimal number.
pub open spec fn f64_text(s: Seq<char>) -> bool {
    let t = unsigned_part(s);
    ||| equals_ignoring_case(t, seq!['i', 'n', 'f'])
    ||| equals_ignoring_case(t, seq!['i', 'n', 'f', 'i', 'n', 'i', 't', 'y'])
    ||| equals_ignoring_case(t, seq!['n', 'a', 'n'])
    ||| number_text(t)
}

proof fn lemma_digit_run_bound(s: Seq<char>, i: int)
    requires
        0 <= i,
    ensures
        i + digit_run(s, i) <= if i <= s.len() { s.len() as int } else { i },
        forall|k: int| i <= k < i + digit_run(s, i) ==> is_digit(#[trigger] s[k]),
        i + digit_run(s, i) < s.len() ==> !is_digit(s[i + digit_run(s, i)]),
    decreases s.len() - i,
{
    if 0 <= i < s.len() && is_digit(s[i]) {
        lemma_digit_run_bound(s, i + 1);
    }
}

/// Every text that `parse::<i64>` accepts, `parse::<f64>` accepts too.
pub proof fn i64_text_is_f64_text(s: Seq<char>)
    requires
        i64_text(s),
    ensures
        f64_text(s),
{
    let t = unsigned_part(s);
    lemma_digits_run_whole(t);
    assert(t.subrange(t.len() as int, t.len() as int).len() == 0);
}

proof fn lemma_digits_run_whole(t: Seq<char>)
    requires
        all_digits(t),
    ensures
        digit_run(t, 0) == t.len(),
{
    lemma_digit_run_from(t, 0);
}

proof fn lemma_digit_run_from(t: Seq<char>, i: int)
    requires
        all_digits(t),
        0 <= i <= t.len(),
    ensures
        digit_run(t, i) == t.len() - i,
    decreases t.len() - i,
{
    if i < t.len() {
        lemma_digit_run_from(t, i + 1);
    }
}

/// Moving from a prefix of digits to the whole never lowers the value.
proof fn lemma_digits_value_prefix(d: Seq<char>, k: int)
    requires
        0 <= k <= d.len(),
    ensures
        digits_value(d.take(k)) <= digits_value(d),
    decreases d.len() - k,
{
    if k < d.len() {
        assert(d.take(k + 1).drop_last() =~= d.take(k));
        lemma_digits_value_prefix(d, k + 1);
        assert(digits_value(d.take(k + 1)) >= digits_value(d.take(k)) * 10) by (nonlinear_arith)
            requires
                digits_value(d.take(k + 1)) == digits_value(d.take(k)) * 10 + digit_value(d.take(k + 1).last());
    }
    assert(d.take(d.len() as int) =~= d);
}

/// The value of the digits `v[from..]`, when it is at most `limit`.
fn digits_upto(v: &Vec<char>, from: usize, limit: u64) -> (r: Option<u64>)
    requires
        from <= v.len(),
        v@.len() - from >= 1,
        all_digits(v@.subrange(from as int, v@.len() as int)),
    ensures
        match r {
            Some(x) => x == digits_value(v@.subrange(from as int, v@.len() as int))
                && x <= limit,
            None => digits_value(v@.subrange(from as int, v@.len() as int)) > limit,
        },
{
    let ghost d = v@.subrange(from as int, v@.len() as int);
    let mut acc: u64 = 0;
    let mut i = from;
    while i < v.len()
        invariant
            from <= i <= v.len(),
            d == v@.subrange(from as int, v@.len() as int),
            all_digits(d),
            acc as nat == digits_value(d.take(i - from)),
            acc <= limit,
        decreases v.len() - i,
    {
        let c = v[i];
        assert(c == d[i - from]);
        let dv = (c as u32 - '0' as u32) as u64;
        assert(d.take(i - from + 1).drop_last() =~= d.take(i - from));
        assert(d.take(i - from + 1).last() == c);
        if dv > limit || acc > (limit - dv) / 10 {
            proof {
                if dv <= limit {
                    assert(acc * 10 + dv > limit) by (nonlinear_arith)
                        requires acc > (limit - dv) / 10, dv <= limit;
                }
                lemma_digits_value_prefix(d, i - from + 1);
            }
            return None;
        }
        assert(acc * 10 + dv <= limit) by (nonlinear_arith)
            requires acc <= (limit - dv) / 10, dv <= limit;
        acc = acc * 10 + dv;
        i += 1;
    }
    assert(d.take(i - from) =~= d);
    Some(acc)
}


/// `v[k..]` as a new vector.
pub fn tail_from(v: &Vec<char>, k: usize) -> (t: Vec<char>)
    requires
        k <= v.len(),
    ensures
        t@ == v@.subrange(k as int, v@.len() as int),
{
    let mut t: Vec<char> = Vec::new();
    let mut i = k;
    while i < v.len()
        invariant
            k <= i <= v.len(),
            t@ == v@.subrange(k as int, i as int),
        decreases v.len() - i,
    {
        t.push(v[i]);
        i += 1;
        assert(t@ =~= v@.subrange(k as int, i as int));
    }
    t
}

fn is_digit_char(c: char) -> (b: bool)
    ensures
        b == is_digit(c),
{
    '0' <= c && c <= '9'
}

/// Whether `v[from..]` is all digits.
fn digits_from(v: &Vec<char>, from: usize) -> (b: bool)
    requires
        from <= v.len(),
    ensures
        b == all_digits(v@.subrange(from as int, v@.len() as int)),
{
    let mut i = from;
    while i < v.len()
        invariant
            from <= i <= v.len(),
            forall|k: int| from <= k < i ==> is_digit(v@[k]),
        decreases v.len() - i,
    {
        if !is_digit_char(v[i]) {
            assert(v@.subrange(from as int, v@.len() as int)[i - from] == v@[i as int]);
            return false;
        }
        i += 1;
    }
    assert forall|j: int| 0 <= j < v@.subrange(from as int, v@.len() as int).len()
        implies is_digit(#[trigger] v@.subrange(from as int, v@.len() as int)[j]) by {
        assert(v@.subrange(from as int, v@.len() as int)[j] == v@[from + j]);
    }
    true
}

/// `s.parse::<usize>()`, as an `Option`.
pub fn parse_usize(v: &Vec<char>) -> (r: Option<usize>)
    ensures
        r == usize_value(v@),
{
    let from: usize = if v.len() > 0 && v[0] == '+' { 1 } else { 0 };
    proof {
        if from == 1 {
            assert(v@.drop_first() =~= v@.subrange(1, v@.len() as int));
        } else {
            assert(v@ =~= v@.subrange(0, v@.len() as int));
        }
    }
    if v.len() - from < 1 || !digits_from(v, from) {
        return None;
    }
    match digits_upto(v, from, usize::MAX as u64) {
        Some(x) => Some(x as usize),
        None => None,
    }
}

/// `s.parse::<i32>()`, as an `Option`.
pub fn parse_i32(v: &Vec<char>) -> (r: Option<i32>)
    ensures
        r == i32_value(v@),
{
    let signed = v.len() > 0 && (v[0] == '+' || v[0] == '-');
    let neg = v.len() > 0 && v[0] == '-';
    let from: usize = if signed { 1 } else { 0 };
    proof {
        if signed {
            assert(v@.drop_first() =~= v@.subrange(1, v@.len() as int));
        } else {
            assert(v@ =~= v@.subrange(0, v@.len() as int));
        }
    }
    if v.len() - from < 1 || !digits_from(v, from) {
        return None;
    }
    if neg {
        match digits_upto(v, from, 2147483648u64) {
            Some(x) => {
                let r = (0i64 - x as i64) as i32;
                Some(r)
            },
            None => None,
        }
    } else {
        match digits_upto(v, from, 2147483647u64) {
            Some(x) => Some(x as i32),
            None => None,
        }
    }
}

/// Whether `s.parse::<i64>()` succeeds.
pub fn is_i64(v: &Vec<char>) -> (b: bool)
    ensures
        b == i64_text(v@),
{
    let signed = v.len() > 0 && (v[0] == '+' || v[0] == '-');
    let neg = v.len() > 0 && v[0] == '-';
    let from: usize = if signed { 1 } else { 0 };
    proof {
        if signed {
            assert(v@.drop_first() =~= v@.subrange(1, v@.len() as int));
        } else {
            assert(v@ =~= v@.subrange(0, v@.len() as int));
        }
    }
    if v.len() - from < 1 || !digits_from(v, from) {
        return false;
    }
    let limit: u64 = if neg { 9223372036854775808u64 } else { 9223372036854775807u64 };
    match digits_upto(v, from, limit) {
        Some(_) => true,
        None => false,
    }
}

fn lower_char(c: char) -> (l: char)
    ensures
        l == lower(c),
{
    if 'A' <= c && c <= 'Z' {
        ((c as u8) + 32) as char
    } else {
        c
    }
}

/// Whether `t`, with ASCII letters in lower case, equals `w`.
fn equals_word(t: &Vec<char>, w: &str) -> (b: bool)
    ensures
        b == equals_ignoring_case(t@, w@),
{
    let n = w.unicode_len();
    if t.len() != n {
        return false;
    }
    let mut i: usize = 0;
    while i < n
        invariant
            n == t.len(),
            n == w@.len(),
            i <= n,
            forall|k: int| 0 <= k < i ==> lower(#[trigger] t@[k]) == w@[k],
        decreases n - i,
    {
        if lower_char(t[i]) != w.get_char(i) {
            return false;
        }
        i += 1;
    }
    true
}

/// `digit_run(v, i)`, computed.
fn run_of_digits(v: &Vec<char>, i: usize) -> (n: usize)
    requires
        i <= v.len(),
    ensures
        n == digit_run(v@, i as int),
        i + n <= v.len(),
{
    let mut j = i;
    while j < v.len() && is_digit_char(v[j])
        invariant
            i <= j <= v.len(),
            digit_run(v@, i as int) == (j - i) + digit_run(v@, j as int),
        decreases v.len() - j,
    {
        j += 1;
    }
    j - i
}

fn is_exponent(e: &Vec<char>) -> (b: bool)
    ensures
        b == exponent_text(e@),
{
    if e.len() < 2 || lower_char(e[0]) != 'e' {
        return false;
    }
    let from: usize = if e[1] == '+' || e[1] == '-' { 2 } else { 1 };
    proof {
        let rest = e@.drop_first();
        if from == 2 {
            assert(rest.drop_first() =~= e@.subrange(2, e@.len() as int));
        } else {
            assert(rest =~= e@.subrange(1, e@.len() as int));
        }
    }
    e.len() - from >= 1 && digits_from(e, from)
}

fn is_number(t: &Vec<char>) -> (b: bool)
    ensures
        b == number_text(t@),
{
    let i = run_of_digits(t, 0);
    if i < t.len() && t[i] == '.' {
        let f = run_of_digits(t, i + 1);
        if i + f < 1 {
            return false;
        }
        let rest = tail_from(t, i + 1 + f);
        rest.len() == 0 || is_exponent(&rest)
    } else {
        if i < 1 {
            return false;
        }
        let rest = tail_from(t, i);
        rest.len() == 0 || is_exponent(&rest)
    }
}

/// Whether `s.parse::<f64>()` succeeds.
pub fn is_f64(v: &Vec<char>) -> (b: bool)
    ensures
        b == f64_text(v@),
{
    let from: usize = if v.len() > 0 && (v[0] == '+' || v[0] == '-') { 1 } else { 0 };
    let t = tail_from(v, from);
    proof {
        if from == 1 {
            assert(v@.drop_first() =~= t@);
        } else {
            assert(v@ =~= t@);
        }
        reveal_strlit("inf");
        reveal_strlit("infinity");
        reveal_strlit("nan");
        assert("inf"@ =~= seq!['i', 'n', 'f']);
        assert("infinity"@ =~= seq!['i', 'n', 'f', 'i', 'n', 'i', 't', 'y']);
        assert("nan"@ =~= seq!['n', 'a', 'n']);
    }
    equals_word(&t, "inf") || equals_word(&t, "infinity") || equals_word(&t, "nan") || is_number(&t)
}

} // verus!

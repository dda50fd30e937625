//! Character-level helpers shared by the parsers of this crate.
use vstd::prelude::*;

verus! {

/// The characters of `s`, in order.
pub fn chars_of(s: &str) -> (v: Vec<char>)
    ensures
        v@ == s@,
{
    broadcast use vstd::string::group_string_axioms;
    let mut v: Vec<char> = Vec::new();
    for c in it: s.chars()
        invariant
            v@ == it.seq().take(it.index() as int),
    {
        v.push(c);
    }
    v
}


/// Whether `v` holds exactly the characters of `lit`.
pub fn is_text(v: &Vec<char>, lit: &str) -> (b: bool)
    ensures
        b == (v@ == lit@),
{
    let n = lit.unicode_len();
    if v.len() != n {
        return false;
    }
    let mut i: usize = 0;
    while i < n
        invariant
            n == v.len(),
            n == lit@.len(),
            i <= n,
            forall|k: int| 0 <= k < i ==> v@[k] == lit@[k],
        decreases n - i,
    {
        if v[i] != lit.get_char(i) {
            return false;
        }
        i += 1;
    }
    assert(v@ =~= lit@);
    true
}

/// `s` ends with `t`.
pub open spec fn has_suffix(s: Seq<char>, t: Seq<char>) -> bool {
    t.len() <= s.len() && s.subrange(s.len() - t.len(), s.len() as int) == t
}

/// Whether `v` ends with the characters of `lit`.
pub fn ends_with_text(v: &Vec<char>, lit: &str) -> (b: bool)
    ensures
        b == has_suffix(v@, lit@),
{
    let n = lit.unicode_len();
    if v.len() < n {
        return false;
    }
    let off = v.len() - n;
    let mut i: usize = 0;
    while i < n
        invariant
            n == lit@.len(),
            off + n == v.len(),
            i <= n,
            forall|k: int| 0 <= k < i ==> v@[off + k] == lit@[k],
        decreases n - i,
    {
        if v[off + i] != lit.get_char(i) {
            assert(v@.subrange(off as int, v@.len() as int)[i as int] != lit@[i as int]);
            return false;
        }
        i += 1;
    }
    assert(v@.subrange(off as int, v@.len() as int) =~= lit@);
    true
}

/// The pieces of `s` between the matches of the non-empty pattern `p`,
/// scanning from position `i` inside a piece that starts at `start`; matches
/// are found from left to right and do not overlap.
pub open spec fn split_from(s: Seq<char>, p: Seq<char>, start: int, i: int) -> Seq<Seq<char>>
    decreases s.len() - i,
{
    if p.len() == 0 || i < 0 || i + p.len() > s.len() {
        seq![s.subrange(start, s.len() as int)]
    } else if s.subrange(i, i + p.len()) == p {
        seq![s.subrange(start, i)] + split_from(s, p, i + p.len(), i + p.len())
    } else {
        split_from(s, p, start, i + 1)
    }
}

/// Each character of `s` as a one-character piece.
pub open spec fn singles(s: Seq<char>) -> Seq<Seq<char>> {
    Seq::new(s.len(), |i: int| seq![s[i]])
}

/// The pieces of `s` split at `p`, as std's `str::split` with a `&str`
/// pattern gives them. An empty pattern matches before and after every
/// character.
pub open spec fn split_text(s: Seq<char>, p: Seq<char>) -> Seq<Seq<char>> {
    if p.len() == 0 {
        seq![Seq::<char>::empty()] + singles(s) + seq![Seq::<char>::empty()]
    } else {
        split_from(s, p, 0, 0)
    }
}

/// Whether `s[i..i + p.len()]` equals `p`.
fn matches_at(s: &Vec<char>, p: &Vec<char>, i: usize) -> (b: bool)
    requires
        i + p.len() <= s.len(),
    ensures
        b == (s@.subrange(i as int, i + p.len()) == p@),
{
    let mut k: usize = 0;
    while k < p.len()
        invariant
            i + p.len() <= s.len(),
            k <= p.len(),
            forall|j: int| 0 <= j < k ==> s@[i + j] == p@[j],
        decreases p.len() - k,
    {
        if s[i + k] != p[k] {
            assert(s@.subrange(i as int, i + p.len())[k as int] != p@[k as int]);
            return false;
        }
        k += 1;
    }
    assert(s@.subrange(i as int, i + p.len()) =~= p@);
    true
}

/// `s.split(p)`, each piece as a new string.
pub fn split_str(s: &str, p: &str) -> (v: Vec<String>)
    ensures
        v@.map_values(|x: String| x@) == split_text(s@, p@),
{
    let sv = chars_of(s);
    let pv = chars_of(p);
    let mut v: Vec<String> = Vec::new();
    if pv.len() == 0 {
        v.push(String::new());
        let mut i: usize = 0;
        while i < sv.len()
            invariant
                i <= sv.len(),
                v@.map_values(|x: String| x@) == seq![Seq::<char>::empty()] + singles(sv@.take(i as int)),
            decreases sv.len() - i,
        {
            let piece = string_from_chars(&sv, i, i + 1);
            let ghost before = v@.map_values(|x: String| x@);
            v.push(piece);
            i += 1;
            assert(sv@.subrange(i - 1, i as int) =~= seq![sv@[i - 1]]);
            assert(singles(sv@.take(i as int)) =~= singles(sv@.take(i - 1)).push(seq![sv@[i - 1]]));
            assert(v@.map_values(|x: String| x@) =~= before.push(piece@));
        }
        let ghost before = v@.map_values(|x: String| x@);
        v.push(String::new());
        assert(sv@.take(sv@.len() as int) =~= sv@);
        assert(v@.map_values(|x: String| x@) =~= before.push(Seq::<char>::empty()));
        return v;
    }
    let n = sv.len();
    let m = pv.len();
    let mut start: usize = 0;
    let mut i: usize = 0;
    while i < n && m <= n - i
        invariant
            n == sv.len(),
            m == pv.len(),
            m >= 1,
            start <= i,
            i <= n,
            v@.map_values(|x: String| x@) + split_from(sv@, pv@, start as int, i as int)
                == split_from(sv@, pv@, 0, 0),
        decreases n - i,
    {
        if matches_at(&sv, &pv, i) {
            let piece = string_from_chars(&sv, start, i);
            let ghost before = v@.map_values(|x: String| x@);
            let ghost old_start = start as int;
            let ghost old_i = i as int;
            v.push(piece);
            assert(v@.map_values(|x: String| x@) =~= before.push(piece@));
            i = i + m;
            start = i;
            assert(split_from(sv@, pv@, old_start, old_i)
                == seq![sv@.subrange(old_start, old_i)] + split_from(sv@, pv@, i as int, i as int));
            assert(v@.map_values(|x: String| x@) + split_from(sv@, pv@, start as int, i as int)
                =~= before + split_from(sv@, pv@, old_start, old_i));
        } else {
            i = i + 1;
        }
    }
    let last = string_from_chars(&sv, start, n);
    let ghost before = v@.map_values(|x: String| x@);
    v.push(last);
    assert(v@.map_values(|x: String| x@) =~= before.push(last@));
    assert(v@.map_values(|x: String| x@) =~= split_text(s@, p@));
    v
}

/// The characters that `char::is_whitespace` accepts: those with the
/// Unicode `White_Space` property.
pub open spec fn is_white(c: char) -> bool {
    ||| ('\u{9}' <= c && c <= '\u{d}')
    ||| c == ' '
    ||| c == '\u{85}'
    ||| c == '\u{a0}'
    ||| c == '\u{1680}'
    ||| ('\u{2000}' <= c && c <= '\u{200a}')
    ||| c == '\u{2028}'
    ||| c == '\u{2029}'
    ||| c == '\u{202f}'
    ||| c == '\u{205f}'
    ||| c == '\u{3000}'
}

/// `s` holds only white space, so that `s.trim()` is empty.
pub open spec fn is_blank(s: Seq<char>) -> bool {
    forall|i: int| 0 <= i < s.len() ==> is_white(#[trigger] s[i])
}

pub fn is_white_char(c: char) -> (b: bool)
    ensures
        b == is_white(c),
{
    ('\u{9}' <= c && c <= '\u{d}') || c == ' ' || c == '\u{85}' || c == '\u{a0}' || c == '\u{1680}'
        || ('\u{2000}' <= c && c <= '\u{200a}') || c == '\u{2028}' || c == '\u{2029}'
        || c == '\u{202f}' || c == '\u{205f}' || c == '\u{3000}'
}

/// Whether `v` holds only white space.
pub fn is_blank_chars(v: &Vec<char>) -> (b: bool)
    ensures
        b == is_blank(v@),
{
    let mut i: usize = 0;
    while i < v.len()
        invariant
            i <= v.len(),
            forall|k: int| 0 <= k < i ==> is_white(#[trigger] v@[k]),
        decreases v.len() - i,
    {
        if !is_white_char(v[i]) {
            return false;
        }
        i += 1;
    }
    true
}

/// The decimal digits of `n`, as `n.to_string()` writes them.
pub open spec fn decimal_text(n: nat) -> Seq<char>
    decreases n,
{
    if n < 10 {
        seq![(('0' as int) + n) as char]
    } else {
        decimal_text(n / 10) + seq![(('0' as int) + (n % 10)) as char]
    }
}

/// `n.to_string()`.
pub fn usize_to_string(n: usize) -> (s: String)
    ensures
        s@ == decimal_text(n as nat),
    decreases n,
{
    let d = (n % 10) as u8;
    let c = ('0' as u8 + d) as char;
    if n < 10 {
        let mut s = String::new();
        push_char(&mut s, c);
        assert(s@ =~= decimal_text(n as nat));
        s
    } else {
        let mut s = usize_to_string(n / 10);
        push_char(&mut s, c);
        assert(s@ =~= decimal_text(n as nat));
        s
    }
}

/// `s` holds `t` somewhere.
pub open spec fn contains_text(s: Seq<char>, t: Seq<char>) -> bool {
    exists|i: int| 0 <= i && i + t.len() <= s.len() && #[trigger] s.subrange(i, i + t.len()) == t
}

/// Whether `s` holds `t` somewhere.
pub fn contains_chars(s: &Vec<char>, t: &Vec<char>) -> (b: bool)
    ensures
        b == contains_text(s@, t@),
{
    if t.len() > s.len() {
        return false;
    }
    if t.len() == 0 {
        assert(s@.subrange(0, 0 + t@.len() as int) =~= t@);
        return true;
    }
    let mut i: usize = 0;
    while i <= s.len() - t.len()
        invariant
            1 <= t.len() <= s.len(),
            i <= s.len() - t.len() + 1,
            forall|j: int| 0 <= j < i ==> #[trigger] s@.subrange(j, j + t.len()) != t@,
        decreases s.len() - t.len() + 1 - i,
    {
        if matches_at(s, t, i) {
            return true;
        }
        i += 1;
    }
    false
}

/// Lexicographic order of texts by characters, which is the order of
/// `str` (by bytes) as UTF-8 keeps the order of code points: negative when
/// `a` comes first, zero when equal, positive when `b` comes first.
pub open spec fn text_order(a: Seq<char>, b: Seq<char>) -> int
    decreases a.len(),
{
    if a.len() == 0 {
        if b.len() == 0 { 0 } else { -1 }
    } else if b.len() == 0 {
        1
    } else if a[0] < b[0] {
        -1
    } else if a[0] > b[0] {
        1
    } else {
        text_order(a.drop_first(), b.drop_first())
    }
}

/// `text_order(a, b)`, computed.
pub fn compare_chars(a: &Vec<char>, b: &Vec<char>) -> (r: i8)
    ensures
        r as int == text_order(a@, b@),
{
    let mut i: usize = 0;
    assert(a@.skip(0) =~= a@);
    assert(b@.skip(0) =~= b@);
    while i < a.len() && i < b.len() && a[i] == b[i]
        invariant
            i <= a.len(),
            i <= b.len(),
            text_order(a@, b@) == text_order(a@.skip(i as int), b@.skip(i as int)),
        decreases a.len() - i,
    {
        assert(a@.skip(i as int).drop_first() =~= a@.skip(i + 1));
        assert(b@.skip(i as int).drop_first() =~= b@.skip(i + 1));
        i += 1;
    }
    assert(a@.skip(i as int).len() == a@.len() - i);
    assert(b@.skip(i as int).len() == b@.len() - i);
    if i == a.len() {
        if i == b.len() { 0 } else { -1 }
    } else if i == b.len() {
        1
    } else {
        assert(a@.skip(i as int)[0] == a@[i as int]);
        assert(b@.skip(i as int)[0] == b@[i as int]);
        if a[i] < b[i] { -1 } else { 1 }
    }
}

/// `v[..k]` as a new vector.
pub fn take_prefix(v: &Vec<char>, k: usize) -> (t: Vec<char>)
    requires
        k <= v.len(),
    ensures
        t@ == v@.subrange(0, k as int),
{
    let mut t: Vec<char> = Vec::new();
    let mut i: usize = 0;
    while i < k
        invariant
            i <= k <= v.len(),
            t@ == v@.subrange(0, i as int),
        decreases k - i,
    {
        t.push(v[i]);
        i += 1;
        assert(t@ =~= v@.subrange(0, i as int));
    }
    t
}

/// Whether `a` and `b` hold the same characters.
pub fn same_chars(a: &Vec<char>, b: &Vec<char>) -> (r: bool)
    ensures
        r == (a@ == b@),
{
    if a.len() != b.len() {
        return false;
    }
    let mut i: usize = 0;
    while i < a.len()
        invariant
            a.len() == b.len(),
            i <= a.len(),
            forall|k: int| 0 <= k < i ==> a@[k] == b@[k],
        decreases a.len() - i,
    {
        if a[i] != b[i] {
            return false;
        }
        i += 1;
    }
    assert(a@ =~= b@);
    true
}

/// The strings of `v`, borrowed.
pub fn as_strs(v: &Vec<String>) -> (r: Vec<&str>)
    ensures
        r@.len() == v@.len(),
        forall|i: int| 0 <= i < v@.len() ==> #[trigger] r@[i]@ == v@[i]@,
        r@.map_values(|x: &str| x@) == v@.map_values(|x: String| x@),
{
    let mut r: Vec<&str> = Vec::new();
    let mut i: usize = 0;
    while i < v.len()
        invariant
            i <= v@.len(),
            r@.len() == i,
            forall|j: int| 0 <= j < i ==> #[trigger] r@[j]@ == v@[j]@,
        decreases v@.len() - i,
    {
        r.push(v[i].as_str());
        i += 1;
    }
    assert(r@.map_values(|x: &str| x@) =~= v@.map_values(|x: String| x@));
    r
}

/// Appends `c` to `s` (std's `String::push`).
#[verifier::external_body]
pub(crate) fn push_char(s: &mut String, c: char)
    ensures
        final(s)@ == old(s)@.push(c),
{
    s.push(c);
}

/// A new string holding `v[i..j]`.
pub fn string_from_chars(v: &Vec<char>, i: usize, j: usize) -> (s: String)
    requires
        i <= j <= v.len(),
    ensures
        s@ == v@.subrange(i as int, j as int),
{
    let mut s = String::new();
    let mut k = i;
    while k < j
        invariant
            i <= k <= j <= v.len(),
            s@ == v@.subrange(i as int, k as int),
        decreases j - k,
    {
        push_char(&mut s, v[k]);
        k += 1;
        assert(s@ =~= v@.subrange(i as int, k as int));
    }
    s
}

} // verus!

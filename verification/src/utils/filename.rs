//! File names derived from field values.
use vstd::prelude::*;
use crate::utils::text::{chars_of, push_char};

verus! {

/// A character that a file name may not hold.
pub open spec fn bad_filename_char(c: char) -> bool {
    c == '<' || c == '>' || c == ':' || c == '\\' || c == '/' || c == '"' || c == '?' || c == '*'
}

/// `s` without the characters that a file name may not hold.
pub open spec fn without_bad_chars(s: Seq<char>) -> Seq<char>
    decreases s.len(),
{
    if s.len() == 0 {
        seq![]
    } else {
        let r = without_bad_chars(s.drop_last());
        if bad_filename_char(s.last()) { r } else { r.push(s.last()) }
    }
}

pub fn str_to_filename(s: &str) -> (name: String)
    ensures
        name@ == without_bad_chars(s@),
{
    let v = chars_of(s);
    let mut name = String::new();
    let mut i: usize = 0;
    while i < v.len()
        invariant
            i <= v.len(),
            name@ == without_bad_chars(v@.take(i as int)),
        decreases v.len() - i,
    {
        let c = v[i];
        assert(v@.take(i + 1).drop_last() =~= v@.take(i as int));
        if !(c == '<' || c == '>' || c == ':' || c == '\\' || c == '/' || c == '"' || c == '?' || c == '*') {
            push_char(&mut name, c);
        }
        i += 1;
    }
    assert(v@.take(v@.len() as int) =~= v@);
    name
}

/// A name made from a text holds none of the characters that a file name
/// may not hold.
pub proof fn filename_has_no_bad_chars(s: Seq<char>)
    ensures
        forall|i: int| 0 <= i < without_bad_chars(s).len() ==> !bad_filename_char(#[trigger] without_bad_chars(s)[i]),
    decreases s.len(),
{
    if s.len() > 0 {
        filename_has_no_bad_chars(s.drop_last());
        let r = without_bad_chars(s.drop_last());
        assert forall|i: int| 0 <= i < without_bad_chars(s).len() implies !bad_filename_char(#[trigger] without_bad_chars(s)[i]) by {
            if i < r.len() {
                assert(without_bad_chars(s)[i] == r[i]);
            }
        }
    }
}

proof fn lemma_clean_text_stays(t: Seq<char>)
    requires
        forall|i: int| 0 <= i < t.len() ==> !bad_filename_char(#[trigger] t[i]),
    ensures
        without_bad_chars(t) == t,
    decreases t.len(),
{
    if t.len() > 0 {
        lemma_clean_text_stays(t.drop_last());
        assert(t.drop_last().push(t.last()) =~= t);
    }
}

/// Making a file name of a file name changes nothing.
pub proof fn filename_cleaning_is_idempotent(s: Seq<char>)
    ensures
        without_bad_chars(without_bad_chars(s)) == without_bad_chars(s),
{
    filename_has_no_bad_chars(s);
    lemma_clean_text_stays(without_bad_chars(s));
}

} // verus!

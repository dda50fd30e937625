//! Small predicates on field values and separators.
use vstd::prelude::*;
use crate::utils::text::{chars_of, is_text};

verus! {

/// A field value that stands for a missing value.
pub open spec fn null_text(s: Seq<char>) -> bool {
    ||| s.len() == 0
    ||| s == seq!['N', 'A']
    ||| s == seq!['N', 'a']
    ||| s == seq!['n', 'a']
    ||| s == seq!['N', 'U', 'L', 'L']
    ||| s == seq!['N', 'u', 'l', 'l']
    ||| s == seq!['n', 'u', 'l', 'l']
}

/// A separator given on the command line that stands for a tab.
pub open spec fn tab_text(s: Seq<char>) -> bool {
    ||| s == seq!['\\', 't']
    ||| s == seq!['\'', '\\', 't', '\'']
    ||| s == seq!['"', '\\', 't', '"']
}

pub fn is_null(s: &str) -> (b: bool)
    ensures
        b == null_text(s@),
{
    let v = chars_of(s);
    proof {
        reveal_strlit("NA");
        reveal_strlit("Na");
        reveal_strlit("na");
        reveal_strlit("NULL");
        reveal_strlit("Null");
        reveal_strlit("null");
        assert("NA"@ =~= seq!['N', 'A']);
        assert("Na"@ =~= seq!['N', 'a']);
        assert("na"@ =~= seq!['n', 'a']);
        assert("NULL"@ =~= seq!['N', 'U', 'L', 'L']);
        assert("Null"@ =~= seq!['N', 'u', 'l', 'l']);
        assert("null"@ =~= seq!['n', 'u', 'l', 'l']);
    }
    v.len() == 0 || is_text(&v, "NA") || is_text(&v, "Na") || is_text(&v, "na")
        || is_text(&v, "NULL") || is_text(&v, "Null") || is_text(&v, "null")
}

pub fn is_tab(sep: &str) -> (b: bool)
    ensures
        b == tab_text(sep@),
{
    let v = chars_of(sep);
    proof {
        reveal_strlit("\\t");
        reveal_strlit("'\\t'");
        reveal_strlit("\"\\t\"");
        assert("\\t"@ =~= seq!['\\', 't']);
        assert("'\\t'"@ =~= seq!['\'', '\\', 't', '\'']);
        assert("\"\\t\""@ =~= seq!['"', '\\', 't', '"']);
    }
    is_text(&v, "\\t") || is_text(&v, "'\\t'") || is_text(&v, "\"\\t\"")
}

/// The separator that `sep` stands for: a tab for the ways of writing one,
/// else `sep` itself.
pub open spec fn sep_of(sep: Seq<char>) -> Seq<char> {
    if tab_text(sep) { seq!['\t'] } else { sep }
}

/// The separator itself, or a tab where the separator stands for one.
pub fn valid_sep(sep: &str) -> (s: String)
    ensures
        s@ == sep_of(sep@),
{
    if is_tab(sep) {
        proof {
            reveal_strlit("\t");
            assert("\t"@ =~= seq!['\t']);
        }
        String::from_str("\t")
    } else {
        sep.to_owned()
    }
}

/// Reading a separator that was already read gives it back: the tab that
/// `valid_sep` gives does not itself stand for a tab.
pub proof fn valid_sep_is_idempotent(sep: Seq<char>)
    ensures
        sep_of(sep_of(sep)) == sep_of(sep),
{
}

} // verus!

//! Output formats of the `to` command.
use vstd::prelude::*;
use crate::utils::text::{chars_of, ends_with_text, has_suffix, is_text};

verus! {

pub open spec fn csv_text() -> Seq<char> { seq!['c', 's', 'v'] }
pub open spec fn txt_text() -> Seq<char> { seq!['t', 'x', 't'] }
pub open spec fn tsv_text() -> Seq<char> { seq!['t', 's', 'v'] }
pub open spec fn xlsx_text() -> Seq<char> { seq!['x', 'l', 's', 'x'] }
pub open spec fn xls_text() -> Seq<char> { seq!['x', 'l', 's'] }

/// A bare file suffix, such as `csv`, rather than a file name.
pub open spec fn file_suffix_text(f: Seq<char>) -> bool {
    f == csv_text() || f == txt_text() || f == tsv_text() || f == xlsx_text() || f == xls_text()
}

proof fn reveal_suffixes()
    ensures
        "csv"@ == csv_text(),
        "txt"@ == txt_text(),
        "tsv"@ == tsv_text(),
        "xlsx"@ == xlsx_text(),
        "xls"@ == xls_text(),
        "export."@ == seq!['e', 'x', 'p', 'o', 'r', 't', '.'],
{
    reveal_strlit("csv");
    reveal_strlit("txt");
    reveal_strlit("tsv");
    reveal_strlit("xlsx");
    reveal_strlit("xls");
    reveal_strlit("export.");
    assert("csv"@ =~= csv_text());
    assert("txt"@ =~= txt_text());
    assert("tsv"@ =~= tsv_text());
    assert("xlsx"@ =~= xlsx_text());
    assert("xls"@ =~= xls_text());
    assert("export."@ =~= seq!['e', 'x', 'p', 'o', 'r', 't', '.']);
}

pub fn is_file_suffix(f: &str) -> (b: bool)
    ensures
        b == file_suffix_text(f@),
{
    let v = chars_of(f);
    proof {
        reveal_suffixes();
    }
    is_text(&v, "csv") || is_text(&v, "txt") || is_text(&v, "tsv") || is_text(&v, "xlsx")
        || is_text(&v, "xls")
}

pub fn is_valid_plain_text(f: &str) -> (b: bool)
    ensures
        b == (has_suffix(f@, csv_text()) || has_suffix(f@, txt_text()) || has_suffix(f@, tsv_text())),
{
    let v = chars_of(f);
    proof {
        reveal_suffixes();
    }
    ends_with_text(&v, "csv") || ends_with_text(&v, "txt") || ends_with_text(&v, "tsv")
}

pub fn is_valid_excel(f: &str) -> (b: bool)
    ensures
        b == (has_suffix(f@, xlsx_text()) || has_suffix(f@, xls_text())),
{
    let v = chars_of(f);
    proof {
        reveal_suffixes();
    }
    ends_with_text(&v, "xlsx") || ends_with_text(&v, "xls")
}

/// The name of the output file: a bare suffix `s` becomes `export.s`, any
/// other name stays as it is.
pub fn out_filename(out: &str) -> (name: String)
    ensures
        file_suffix_text(out@) ==> name@ == seq!['e', 'x', 'p', 'o', 'r', 't', '.'] + out@,
        !file_suffix_text(out@) ==> name@ == out@,
{
    proof {
        reveal_suffixes();
    }
    if is_file_suffix(out) {
        let mut name = String::from_str("export.");
        name.append(out);
        name
    } else {
        out.to_owned()
    }
}

} // verus!

//! The `to` command on piped data: which file to write, in which format,
//! with which separators.
use vstd::prelude::*;
use crate::utils::text::{chars_of, ends_with_text, has_suffix};
use crate::utils::to::{csv_text, is_valid_excel, is_valid_plain_text, tsv_text, txt_text, xls_text, xlsx_text};
use crate::utils::util::{sep_of, valid_sep};

verus! {

/// What `str::to_lowercase` gives for a text.
pub uninterp spec fn lowercase_of(s: Seq<char>) -> Seq<char>;

/// `str::to_lowercase`: the text in lower case, by Unicode's rules.
#[verifier::external_body]
fn lowercase(s: &str) -> (r: String)
    ensures
        r@ == lowercase_of(s@),
{
    s.to_lowercase()
}

/// The options of the `to` command.
pub struct To {
    pub sep: String,
    pub out: String,
    pub outsep: String,
    pub no_header: bool,
}

/// The kind of file that the data goes to.
#[derive(Debug, Clone, Copy, PartialEq, Eq, Structural)]
pub enum Target {
    /// A text file of separated values.
    PlainText,
    /// A spreadsheet.
    Excel,
}

/// How to write the data: the kind of file, its name in lower case, the
/// separator of the input and that of the output.
#[derive(Debug)]
pub struct ToPlan {
    pub target: Target,
    pub out: String,
    pub sep: String,
    pub outsep: String,
}

/// The output file name, in lower case, names no known format.
#[derive(Debug)]
pub struct ToError {
    pub out: String,
}

impl To {
    /// Decides how to write piped data to the output file: a text file when
    /// the lower-cased name ends in `csv`, `txt` or `tsv` (`tsv` files take a
    /// tab as output separator), a spreadsheet when it ends in `xlsx` or
    /// `xls`, and an error otherwise.
    pub fn io_run(&self) -> (r: Result<ToPlan, ToError>)
        ensures
            ({
                let out = lowercase_of(self.out@);
                let plain = has_suffix(out, csv_text()) || has_suffix(out, txt_text()) || has_suffix(out, tsv_text());
                let excel = has_suffix(out, xlsx_text()) || has_suffix(out, xls_text());
                match r {
                    Ok(p) => {
                        &&& (plain || excel)
                        &&& p.target == if plain { Target::PlainText } else { Target::Excel }
                        &&& p.out@ == out
                        &&& p.sep@ == sep_of(self.sep@)
                        &&& p.outsep@ == if has_suffix(out, tsv_text()) { seq!['\t'] } else { self.outsep@ }
                    },
                    Err(e) => !plain && !excel && e.out@ == out,
                }
            }),
    {
        let sep = valid_sep(self.sep.as_str());
        let out = lowercase(self.out.as_str());
        let v = chars_of(out.as_str());
        proof {
            reveal_strlit("tsv");
            reveal_strlit("\t");
            assert("tsv"@ =~= tsv_text());
            assert("\t"@ =~= seq!['\t']);
        }
        let outsep = if ends_with_text(&v, "tsv") {
            String::from_str("\t")
        } else {
            self.outsep.clone()
        };
        if is_valid_plain_text(out.as_str()) {
            Ok(ToPlan { target: Target::PlainText, out, sep, outsep })
        } else if is_valid_excel(out.as_str()) {
            Ok(ToPlan { target: Target::Excel, out, sep, outsep })
        } else {
            Err(ToError { out })
        }
    }
}

} // verus!

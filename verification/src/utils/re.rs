//! Regular expressions: case-insensitive ones over text, as the `search`
//! command uses them, and ones over raw bytes, which the `clean` and `to`
//! commands use to erase or replace what they match on each line.
use vstd::prelude::*;
use regex::{Regex, RegexBuilder};

verus! {

#[verifier::external_type_specification]
#[verifier::external_body]
pub struct ExRegex(regex::Regex);

#[verifier::external_type_specification]
#[verifier::external_body]
pub struct ExBytesRegex(regex::bytes::Regex);

#[verifier::external_type_specification]
#[verifier::external_body]
pub struct ExRegexError(regex::Error);

/// Whether the regex crate compiles `pattern` with case-insensitive
/// matching: a function of the pattern alone.
pub uninterp spec fn case_insensitive_pattern_compiles(pattern: Seq<char>) -> bool;

/// Whether `pattern`, compiled with case-insensitive matching, matches
/// somewhere in `text`.
pub uninterp spec fn case_insensitive_match(pattern: Seq<char>, text: Seq<char>) -> bool;

/// Whether the regex crate compiles `pattern` as a regex over bytes.
pub uninterp spec fn bytes_pattern_compiles(pattern: Seq<char>) -> bool;

/// What `bytes` becomes when every match of `pattern` in it is replaced by
/// `rep`, as `regex::bytes::Regex::replace_all` does it.
pub uninterp spec fn bytes_replaced_all(pattern: Seq<char>, bytes: Seq<u8>, rep: Seq<u8>) -> Seq<u8>;

/// `RegexBuilder::new(pattern).case_insensitive(true).build()`. Whether it
/// succeeds is named by `case_insensitive_pattern_compiles`.
#[verifier::external_body]
fn build_case_insensitive(pattern: &str) -> (r: Result<Regex, regex::Error>)
    ensures
        (r is Ok) == case_insensitive_pattern_compiles(pattern@),
{
    RegexBuilder::new(pattern).case_insensitive(true).build()
}

/// `Regex::is_match` on the regex of `re`, which was compiled from
/// `re.pattern()` with case-insensitive matching.
#[verifier::external_body]
fn regex_is_match(re: &Re, v: &str) -> (b: bool)
    ensures
        b == case_insensitive_match(re.pattern(), v@),
{
    re.re.is_match(v)
}

/// `regex::bytes::Regex::new(pattern)`. Whether it succeeds is named by
/// `bytes_pattern_compiles`.
#[verifier::external_body]
fn build_bytes(pattern: &str) -> (r: Result<regex::bytes::Regex, regex::Error>)
    ensures
        (r is Ok) == bytes_pattern_compiles(pattern@),
{
    regex::bytes::Regex::new(pattern)
}

/// `regex::bytes::Regex::replace_all(bytes, rep)` on the regex of `re`, which
/// was compiled from `re.pattern()`; the result is copied out.
#[verifier::external_body]
fn bytes_replace_all(re: &BytesRe, bytes: &[u8], rep: &[u8]) -> (r: Vec<u8>)
    ensures
        r@ == bytes_replaced_all(re.pattern(), bytes@, rep@),
{
    re.re.replace_all(bytes, rep).into_owned()
}

/// The message of a regex error (`Display` of `regex::Error`); nothing is
/// claimed of its text.
#[verifier::external_body]
fn regex_error_message(e: &regex::Error) -> String {
    e.to_string()
}

/// A pattern that did not compile, with the regex crate's message.
#[derive(Debug)]
pub struct RegexError {
    pub message: String,
}

/// A compiled, case-insensitive regular expression, with its pattern.
pub struct Re {
    re: Regex,
    pattern: String,
}

impl Re {
    /// The pattern that the regex was compiled from.
    pub closed spec fn pattern(&self) -> Seq<char> {
        self.pattern@
    }

    pub fn new(pattern: &str) -> (r: Result<Re, RegexError>)
        ensures
            (r is Ok) == case_insensitive_pattern_compiles(pattern@),
            r matches Ok(re) ==> re.pattern() == pattern@,
    {
        match build_case_insensitive(pattern) {
            Ok(re) => Ok(Re { re, pattern: pattern.to_owned() }),
            Err(e) => Err(RegexError { message: regex_error_message(&e) }),
        }
    }

    /// Whether the pattern matches somewhere in `v`, ignoring case.
    pub fn is_match(&self, v: &str) -> (b: bool)
        ensures
            b == case_insensitive_match(self.pattern(), v@),
    {
        regex_is_match(self, v)
    }
}

/// A compiled regular expression over bytes, with its pattern.
pub struct BytesRe {
    re: regex::bytes::Regex,
    pattern: String,
}

impl BytesRe {
    /// The pattern that the regex was compiled from.
    pub closed spec fn pattern(&self) -> Seq<char> {
        self.pattern@
    }

    pub fn new(pattern: &str) -> (r: Result<BytesRe, RegexError>)
        ensures
            (r is Ok) == bytes_pattern_compiles(pattern@),
            r matches Ok(re) ==> re.pattern() == pattern@,
    {
        match build_bytes(pattern) {
            Ok(re) => Ok(BytesRe { re, pattern: pattern.to_owned() }),
            Err(e) => Err(RegexError { message: regex_error_message(&e) }),
        }
    }

    /// `bytes` with every match replaced by `rep`.
    pub fn replace_all(&self, bytes: &[u8], rep: &[u8]) -> (r: Vec<u8>)
        ensures
            r@ == bytes_replaced_all(self.pattern(), bytes@, rep@),
    {
        bytes_replace_all(self, bytes, rep)
    }

    /// A line of the `clean` command: `line` with every match erased.
    pub fn erase(&self, line: &[u8]) -> (r: Vec<u8>)
        ensures
            r@ == bytes_replaced_all(self.pattern(), line@, seq![]),
    {
        let empty: Vec<u8> = Vec::new();
        self.replace_all(line, empty.as_slice())
    }
}

} // verus!

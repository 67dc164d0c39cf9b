//! Regular expressions of the `regex` crate, over bytes and over text.

use vstd::prelude::*;

verus! {

#[verifier::external_type_specification]
#[verifier::external_body]
pub struct ExBytesRegex(regex::bytes::Regex);

#[verifier::external_type_specification]
#[verifier::external_body]
pub struct ExTextRegex(regex::Regex);

/// The pattern that a compiled byte regex was built from.
pub uninterp spec fn bytes_pattern(re: regex::bytes::Regex) -> Seq<char>;

/// The pattern that a compiled text regex was built from.
pub uninterp spec fn text_pattern(re: regex::Regex) -> Seq<char>;

/// What the byte-regex compiler says against a pattern, if anything.
pub uninterp spec fn bytes_regex_error(pattern: Seq<char>) -> Option<Seq<char>>;

/// What the text-regex compiler says against a pattern, if anything.
pub uninterp spec fn text_regex_error(pattern: Seq<char>) -> Option<Seq<char>>;

/// A byte pattern matches somewhere in a line.
pub uninterp spec fn bytes_matches(pattern: Seq<char>, line: Seq<u8>) -> bool;

/// A text pattern matches somewhere in a text.
pub uninterp spec fn text_matches(pattern: Seq<char>, s: Seq<char>) -> bool;

/// What a named group of a byte pattern captures at its first match in a line;
/// nothing when the pattern has no such group or the group takes no part.
pub uninterp spec fn bytes_capture(pattern: Seq<char>, line: Seq<u8>, group: Seq<char>) -> Option<
    Seq<u8>,
>;

/// `regex::bytes::Regex::new`, with its error shown as text. Compiles exactly
/// the patterns without an error; the result remembers its pattern.
#[verifier::external_body]
pub(crate) fn compile_bytes(pattern: &str) -> (r: Result<regex::bytes::Regex, String>)
    ensures
        match r {
            Ok(re) => bytes_regex_error(pattern@) is None && bytes_pattern(re) == pattern@,
            Err(e) => bytes_regex_error(pattern@) == Some(e@),
        },
{
    regex::bytes::Regex::new(pattern).map_err(|e| e.to_string())
}

/// `regex::Regex::new`, with its error shown as text. Compiles exactly the
/// patterns without an error; the result remembers its pattern.
#[verifier::external_body]
pub(crate) fn compile_text(pattern: &str) -> (r: Result<regex::Regex, String>)
    ensures
        match r {
            Ok(re) => text_regex_error(pattern@) is None && text_pattern(re) == pattern@,
            Err(e) => text_regex_error(pattern@) == Some(e@),
        },
{
    regex::Regex::new(pattern).map_err(|e| e.to_string())
}

/// `regex::bytes::Regex::is_match`, a function of the pattern and the line.
#[verifier::external_body]
pub(crate) fn is_match_bytes(re: &regex::bytes::Regex, line: &[u8]) -> (r: bool)
    ensures
        r == bytes_matches(bytes_pattern(*re), line@),
{
    re.is_match(line)
}

/// `regex::Regex::is_match`, a function of the pattern and the text.
#[verifier::external_body]
pub(crate) fn is_match_text(re: &regex::Regex, s: &str) -> (r: bool)
    ensures
        r == text_matches(text_pattern(*re), s@),
{
    re.is_match(s)
}

/// `regex::bytes::Regex::captures` and, of its result, `Captures::name`: the
/// outer option is whether the pattern matches, the inner what the group
/// captured.
#[verifier::external_body]
pub(crate) fn capture<'a>(re: &regex::bytes::Regex, line: &'a [u8], group: &str) -> (r: Option<
    Option<&'a [u8]>,
>)
    ensures
        match r {
            None => !bytes_matches(bytes_pattern(*re), line@),
            Some(None) => bytes_matches(bytes_pattern(*re), line@) && bytes_capture(
                bytes_pattern(*re),
                line@,
                group@,
            ) is None,
            Some(Some(b)) => bytes_matches(bytes_pattern(*re), line@) && bytes_capture(
                bytes_pattern(*re),
                line@,
                group@,
            ) == Some(b@),
        },
{
    re.captures(line).map(|c| c.name(group).map(|m| m.as_bytes()))
}

} // verus!

//! Regular expressions, compiled and run by the `regex` crate.
use vstd::prelude::*;

verus! {

#[verifier::external_type_specification]
#[verifier::external_body]
pub struct ExRegex(regex::Regex);

/// Whether the `regex` crate accepts `pattern` (`regex::Regex::new` returns `Ok`).
pub uninterp spec fn regex_compiles(pattern: Seq<char>) -> bool;

/// The text of the error that `regex::Regex::new` reports for `pattern`.
pub uninterp spec fn regex_error(pattern: Seq<char>) -> Seq<char>;

/// Whether the regex compiled from `pattern` matches somewhere in `text`
/// (`regex::Regex::is_match`).
pub uninterp spec fn regex_is_match(pattern: Seq<char>, text: Seq<char>) -> bool;

/// A regex together with the text it was compiled from.
pub struct RegexPattern {
    source: String,
    compiled: regex::Regex,
}

impl View for RegexPattern {
    type V = Seq<char>;

    closed spec fn view(&self) -> Seq<char> {
        self.source@
    }
}

/// Compiles `pattern` (`regex::Regex::new`); the error is the crate's message.
#[verifier::external_body]
pub(crate) fn compile_regex(pattern: &str) -> (r: Result<RegexPattern, String>)
    ensures
        r is Ok <==> regex_compiles(pattern@),
        r matches Ok(p) ==> p@ == pattern@,
        r matches Err(e) ==> e@ == regex_error(pattern@),
{
    match regex::Regex::new(pattern) {
        Ok(compiled) => Ok(RegexPattern { source: pattern.to_owned(), compiled }),
        Err(error) => Err(error.to_string()),
    }
}

/// Whether the compiled regex matches somewhere in `text` (`regex::Regex::is_match`).
#[verifier::external_body]
pub(crate) fn regex_matches(pattern: &RegexPattern, text: &str) -> (r: bool)
    ensures
        r == regex_is_match(pattern@, text@),
{
    pattern.compiled.is_match(text)
}

/// The characters that `regex::escape` puts a backslash in front of.
pub open spec fn spec_is_regex_meta(c: char) -> bool {
    c == '\\' || c == '.' || c == '+' || c == '*' || c == '?' || c == '(' || c == ')' || c == '|'
        || c == '[' || c == ']' || c == '{' || c == '}' || c == '^' || c == '$' || c == '#' || c
        == '&' || c == '-' || c == '~'
}

/// `regex::escape` of a one-character text: the character, after a backslash
/// where it is a metacharacter.
#[verifier::external_body]
pub(crate) fn escape_char(c: char) -> (r: String)
    ensures
        r@ == (if spec_is_regex_meta(c) {
            seq!['\\', c]
        } else {
            seq![c]
        }),
{
    regex::escape(&c.to_string())
}

} // verus!

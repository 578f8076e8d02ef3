//! The file name filter: a regular expression that a file's name has to
//! match for the file to be read.

use regex::Regex;
use vstd::prelude::*;

verus! {

/// `regex::Regex`, a compiled regular expression. Nothing of its inside is
/// known here.
#[verifier::external_type_specification]
#[verifier::external_body]
pub struct ExRegex(regex::Regex);

/// `regex::Error`, what the compiler of regular expressions reports.
#[verifier::external_type_specification]
#[verifier::external_body]
pub struct ExRegexError(regex::Error);

/// The filter used where none is asked for: names that end in `.java`.
pub const DEFAULT_FILE_NAME_FILTER: &'static str = "^.*[.]java$";

/// The text that a regular expression was compiled from: what
/// `Regex::as_str` returns for it.
pub uninterp spec fn regex_source(pattern: Regex) -> Seq<char>;

/// Whether a regular expression matches somewhere in `text`: what
/// `Regex::is_match` returns for the two.
pub uninterp spec fn regex_is_match(pattern: Regex, text: Seq<char>) -> bool;

/// The message that an error of the compiler displays: what `to_string`
/// returns for a `regex::Error`.
pub uninterp spec fn regex_error_message(error: regex::Error) -> Seq<char>;

/// Whether the compiler accepts `pattern`: whether `Regex::new` returns a
/// regular expression for it. That depends on the pattern alone.
pub uninterp spec fn regex_compiles(pattern: Seq<char>) -> bool;

/// The message of the error that `Regex::new` returns for a pattern that it
/// does not accept.
pub uninterp spec fn regex_refusal(pattern: Seq<char>) -> Seq<char>;

/// Calls `Regex::new`. The contract gives the compiler's verdict on the
/// pattern its name. Of a regular expression that comes back it claims that
/// it holds `pattern` as its source text, and of an error that its message is
/// the one named for the pattern.
#[verifier::external_body]
fn compile(pattern: &str) -> (compiled: Result<Regex, regex::Error>)
    ensures
        compiled is Ok <==> regex_compiles(pattern@),
        compiled matches Ok(re) ==> regex_source(re) == pattern@,
        compiled matches Err(error) ==> regex_error_message(error) == regex_refusal(pattern@),
{
    Regex::new(pattern)
}

/// Calls `to_string` on a `regex::Error`, which gives the message that the
/// error displays. The contract gives the message its name.
#[verifier::external_body]
fn message_of(error: &regex::Error) -> (message: String)
    ensures
        message@ == regex_error_message(*error),
{
    error.to_string()
}

/// Calls `Regex::is_match`. The contract gives the answer its name.
#[verifier::external_body]
pub(crate) fn is_match(pattern: &Regex, text: &str) -> (found: bool)
    ensures
        found == regex_is_match(*pattern, text@),
{
    pattern.is_match(text)
}

/// A pattern that could not be compiled.
#[derive(Debug, PartialEq, Eq)]
pub struct InvalidPattern {
    /// The pattern as it was given.
    pub pattern: String,
    /// What the compiler said of it.
    pub reason: String,
}

/// The pattern that the filter is made from: the one asked for, or the
/// default where none is.
pub open spec fn chosen_pattern(asked: Option<&str>) -> Seq<char> {
    match asked {
        Some(pattern) => pattern@,
        None => DEFAULT_FILE_NAME_FILTER@,
    }
}

/// What the attempt to compile `pattern` comes to: the regular expression
/// itself, or the pattern with the reason why it is none.
pub fn filter_outcome(pattern: &str, compiled: Result<Regex, regex::Error>) -> (outcome: Result<
    Regex,
    InvalidPattern,
>)
    ensures
        match compiled {
            Ok(re) => outcome == Ok::<Regex, InvalidPattern>(re),
            Err(error) => outcome matches Err(invalid) && invalid.pattern@ == pattern@
                && invalid.reason@ == regex_error_message(error),
        },
{
    match compiled {
        Ok(re) => Ok(re),
        Err(error) => Err(InvalidPattern { pattern: pattern.to_owned(), reason: message_of(&error) }),
    }
}

/// Compiles the file name filter from the pattern asked for, or from the
/// default. There is a filter exactly where the compiler accepts the chosen
/// pattern; otherwise the pattern comes back with the compiler's reason.
pub fn file_name_filter(asked: Option<&str>) -> (outcome: Result<Regex, InvalidPattern>)
    ensures
        outcome is Ok <==> regex_compiles(chosen_pattern(asked)),
        match outcome {
            Ok(re) => regex_source(re) == chosen_pattern(asked),
            Err(invalid) => invalid.pattern@ == chosen_pattern(asked) && invalid.reason@
                == regex_refusal(chosen_pattern(asked)),
        },
{
    let pattern = match asked {
        Some(pattern) => pattern,
        None => DEFAULT_FILE_NAME_FILTER,
    };
    filter_outcome(pattern, compile(pattern))
}

} // verus!

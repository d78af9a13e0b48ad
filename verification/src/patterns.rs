//! Text rewriting and testing by pattern. The regular expressions are those
//! of the `regex` crate; what a pattern does to a text is given a name here,
//! and nothing is proved about it.

use vstd::prelude::*;

verus! {

/// What `regex::Regex::new(pattern)` followed by `Regex::replace_all(text,
/// replacement)` returns: the text with every match replaced, or `None`
/// where the pattern does not compile.
pub uninterp spec fn regex_replaced(
    pattern: Seq<char>,
    text: Seq<char>,
    replacement: Seq<char>,
) -> Option<Seq<char>>;

/// What `regex::Regex::new(pattern)` followed by `Regex::is_match(text)`
/// returns: whether the pattern matches anywhere in the text, or `None`
/// where the pattern does not compile.
pub uninterp spec fn regex_matched(pattern: Seq<char>, text: Seq<char>) -> Option<bool>;

/// What `str::replace` returns: `text` with every occurrence of `from`
/// replaced by `to`.
pub uninterp spec fn text_replaced(text: Seq<char>, from: Seq<char>, to: Seq<char>) -> Seq<char>;

/// Calls `regex::Regex::new` and, on the compiled pattern,
/// `Regex::replace_all`. The contract only names the result: the same three
/// strings always give the same answer.
#[verifier::external_body]
pub(crate) fn regex_replace_all(pattern: &str, text: &str, replacement: &str) -> (out: Option<
    String,
>)
    ensures
        text_view(out) == regex_replaced(pattern@, text@, replacement@),
{
    match regex::Regex::new(pattern) {
        Ok(re) => Some(re.replace_all(text, replacement).into_owned()),
        Err(_) => None,
    }
}

/// Calls `regex::Regex::new` and, on the compiled pattern, `Regex::is_match`.
/// The contract only names the result.
#[verifier::external_body]
pub(crate) fn regex_is_match(pattern: &str, text: &str) -> (out: Option<bool>)
    ensures
        out == regex_matched(pattern@, text@),
{
    match regex::Regex::new(pattern) {
        Ok(re) => Some(re.is_match(text)),
        Err(_) => None,
    }
}

/// Calls `str::replace`. The contract only names the result.
#[verifier::external_body]
pub(crate) fn text_replace(text: &str, from: &str, to: &str) -> (out: String)
    ensures
        out@ == text_replaced(text@, from@, to@),
{
    text.replace(from, to)
}

/// The view of a text that may be missing.
pub open spec fn text_view(text: Option<String>) -> Option<Seq<char>> {
    match text {
        Some(s) => Some(s@),
        None => None,
    }
}

} // verus!

//! The default canonicalization of a license text, and the plain records
//! that a corpus is handed over in.

use vstd::prelude::*;
use crate::detecting::DetectionError;
use crate::patterns::{regex_replace_all, regex_replaced};

verus! {

/// The pattern of a structured preamble: what stands between two marker
/// lines of three dashes, the markers included.
pub const SPDX_HEADING_PATTERN: &'static str = r"(---\n)(\n|.)+(---\n)";

/// The pattern of what the default canonicalization takes out: blanks, tabs
/// and line ends.
pub const WHITESPACE_PATTERN: &'static str = r"( |\t|\n|\r|\n\r|\r\n)";

/// A known text with its fingerprint, as a store holds it.
#[derive(Debug, Clone)]
pub struct ComputedLicense {
    pub name: String,
    pub hash: String,
}

/// A list of fingerprinted texts.
#[derive(Debug, Clone)]
pub struct ComputedLicenseList {
    pub licenses: Vec<ComputedLicense>,
}

/// A text of the corpus as it was read: its name and its content.
pub struct RawLicense {
    pub name: String,
    pub text: String,
}

impl DeepView for ComputedLicense {
    type V = (Seq<char>, Seq<char>);

    open spec fn deep_view(&self) -> (Seq<char>, Seq<char>) {
        (self.name@, self.hash@)
    }
}

impl DeepView for RawLicense {
    type V = (Seq<char>, Seq<char>);

    open spec fn deep_view(&self) -> (Seq<char>, Seq<char>) {
        (self.name@, self.text@)
    }
}

/// `text` without the matches of `pattern`, or an error for a pattern that
/// is no regular expression.
pub open spec fn without_matches(pattern: Seq<char>, text: Seq<char>) -> Result<
    Seq<char>,
    DetectionError,
> {
    match regex_replaced(pattern, text, Seq::empty()) {
        Some(out) => Ok(out),
        None => Err(DetectionError::MalformedInput),
    }
}

/// What is left of `text` once `pattern`, one of the two patterns of this
/// module, has been taken out.
pub open spec fn stripped_of(pattern: Seq<char>, text: Seq<char>) -> Seq<char> {
    match without_matches(pattern, text) {
        Ok(out) => out,
        Err(_) => text,
    }
}

/// The text without its structured preamble.
pub open spec fn without_heading(text: Seq<char>) -> Seq<char> {
    stripped_of(SPDX_HEADING_PATTERN@, text)
}

/// The text without blanks, tabs and line ends.
pub open spec fn without_whitespace(text: Seq<char>) -> Seq<char> {
    stripped_of(WHITESPACE_PATTERN@, text)
}

/// The default canonical form of a license text: neither preamble nor
/// whitespace.
pub open spec fn canonical(text: Seq<char>) -> Seq<char> {
    without_whitespace(without_heading(text))
}

/// Takes the matches of `pattern` out of `text`. A pattern that is no
/// regular expression is an error.
pub fn strip_pattern(pattern: &str, text: &str) -> (out: Result<String, DetectionError>)
    ensures
        (match out {
            Ok(stripped) => Ok(stripped@),
            Err(e) => Err(e),
        }) == without_matches(pattern@, text@),
{
    proof {
        reveal_strlit("");
    }
    assert(""@ == Seq::<char>::empty());
    match regex_replace_all(pattern, text, "") {
        Some(out) => Ok(out),
        None => Err(DetectionError::MalformedInput),
    }
}

/// Takes the structured preamble out of a license text.
pub fn strip_spdx_heading(l: &str) -> (out: String)
    ensures
        out@ == without_heading(l@),
{
    match strip_pattern(SPDX_HEADING_PATTERN, l) {
        Ok(out) => out,
        Err(_) => l.to_owned(),
    }
}

/// Takes blanks, tabs and line ends out of a license text.
pub fn strip_license(l: &str) -> (out: String)
    ensures
        out@ == without_whitespace(l@),
{
    match strip_pattern(WHITESPACE_PATTERN, l) {
        Ok(out) => out,
        Err(_) => l.to_owned(),
    }
}

} // verus!

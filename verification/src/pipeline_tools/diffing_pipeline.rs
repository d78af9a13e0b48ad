//! An adjustment pipe that looks for a pattern in what a modified text adds
//! to its original.

use vstd::prelude::*;
use vstd::string::StringSliceAdditionalSpecFns;
use vstd::utf8::encode_utf8;
use crate::detecting::DetectionError;
use crate::patterns::{regex_is_match, regex_matched};
use crate::pipeline_tools::adjustment::{
    adjusted_confidence, conclude, PipeLineAction, PipelineTriggerInstruction,
};

verus! {

/// One step of a character diff.
#[derive(Clone, Copy, Debug, PartialEq, Eq, Structural)]
pub enum DiffItem {
    /// A character that only the first text has.
    Left(char),
    /// A character that both texts have.
    Both(char, char),
    /// A character that only the second text has.
    Right(char),
}

/// What `diff::chars(original, modified)` returns, step by step.
pub uninterp spec fn diff_of_chars(original: Seq<char>, modified: Seq<char>) -> Seq<DiffItem>;

/// Whether a table with a row for each byte of one text and a column for
/// each byte of the other, and one more of each, can be laid out.
pub open spec fn fits_table(rows: nat, columns: nat) -> bool {
    (rows + 1) * (columns + 1) <= usize::MAX / 8
}

/// Whether two texts can be compared character by character.
pub open spec fn diffable(original: Seq<char>, modified: Seq<char>) -> bool {
    fits_table(encode_utf8(original).len(), encode_utf8(modified).len())
}

/// Calls `diff::chars` and hands its steps on, each in the variant it came
/// in. The texts are bounded because the crate lays out a table of their
/// lengths multiplied. The contract only names the result.
#[verifier::external_body]
pub(crate) fn char_diff(original: &str, modified: &str) -> (items: Vec<DiffItem>)
    requires
        fits_table(original.spec_bytes().len(), modified.spec_bytes().len()),
    ensures
        items@ == diff_of_chars(original@, modified@),
{
    let mut items = Vec::new();
    for step in diff::chars(original, modified) {
        items.push(
            match step {
                diff::Result::Left(l) => DiffItem::Left(l),
                diff::Result::Both(l, r) => DiffItem::Both(l, r),
                diff::Result::Right(r) => DiffItem::Right(r),
            },
        );
    }
    items
}

/// Decides whether a table of `rows + 1` by `columns + 1` can be laid out.
pub fn table_fits(rows: usize, columns: usize) -> (fits: bool)
    ensures
        fits == fits_table(rows as nat, columns as nat),
{
    assert((rows + 1) * (columns + 1) >= rows + 1 && (rows + 1) * (columns + 1) >= columns + 1)
        by (nonlinear_arith);
    if rows == usize::MAX || columns == usize::MAX {
        return false;
    }
    let cells = (rows + 1).checked_mul(columns + 1);
    if cells.is_none() {
        return false;
    }
    cells.unwrap() <= usize::MAX / 8
}

pub assume_specification[ String::push ](text: &mut String, c: char)
    ensures
        final(text)@ == old(text)@.push(c),
;

/// The characters that only the modified text has, in order.
pub open spec fn added_chars(items: Seq<DiffItem>) -> Seq<char>
    decreases items.len(),
{
    if items.len() == 0 {
        Seq::empty()
    } else {
        match items.last() {
            DiffItem::Right(c) => added_chars(items.drop_last()).push(c),
            _ => added_chars(items.drop_last()),
        }
    }
}

/// Collects what a diff marks as added.
pub fn added_text(items: &Vec<DiffItem>) -> (text: String)
    ensures
        text@ == added_chars(items@),
{
    let mut text = String::new();
    let mut i: usize = 0;
    while i < items.len()
        invariant
            i <= items.len(),
            text@ == added_chars(items@.take(i as int)),
        decreases items.len() - i,
    {
        assert(items@.take(i + 1).drop_last() == items@.take(i as int));
        match items[i] {
            DiffItem::Right(c) => {
                text.push(c);
            },
            _ => {},
        }
        i += 1;
    }
    assert(items@.take(items.len() as int) == items@);
    text
}

/// A pipe that applies `action` where its trigger holds and `regex` matches
/// somewhere in what `modified_license` adds to `original_license`.
pub struct DiffingPipeLine {
    /// The text as the catalog has it.
    pub original_license: String,
    /// The text as it was found.
    pub modified_license: String,
    /// The pattern to look for in what was added.
    pub regex: String,
    /// When the pipe runs at all.
    pub run_condition: PipelineTriggerInstruction,
    /// What happens to the confidence where the pattern matches.
    pub action: PipeLineAction,
}

impl DiffingPipeLine {
    /// The text in which the pipe looks for its pattern.
    pub open spec fn added(&self) -> Seq<char> {
        added_chars(diff_of_chars(self.original_license@, self.modified_license@))
    }

    /// What the pipe makes of `confidence`: the confidence as it came where
    /// the trigger does not hold, an error where the texts are too long to
    /// be compared, and else what the pattern decides.
    pub open spec fn outcome(&self, confidence: u8) -> Result<u8, DetectionError> {
        if !self.run_condition.triggers(confidence) {
            Ok(confidence)
        } else if !diffable(self.original_license@, self.modified_license@) {
            Err(DetectionError::InputTooLarge)
        } else {
            adjusted_confidence(
                self.run_condition,
                self.action,
                confidence,
                regex_matched(self.regex@, self.added()),
            )
        }
    }

    /// Runs the pipe on `confidence`. The texts are only compared where the
    /// trigger holds.
    pub fn run(&self, confidence: u8) -> (outcome: Result<u8, DetectionError>)
        ensures
            outcome == self.outcome(confidence),
    {
        if self.run_condition.should_run(confidence) {
            let original = self.original_license.as_str();
            let modified = self.modified_license.as_str();
            if !table_fits(original.as_bytes().len(), modified.as_bytes().len()) {
                return Err(DetectionError::InputTooLarge);
            }
            let items = char_diff(original, modified);
            let diff_text = added_text(&items);
            let matched = regex_is_match(self.regex.as_str(), diff_text.as_str());
            conclude(&self.action, confidence, matched)
        } else {
            Ok(confidence)
        }
    }
}

} // verus!

//! An adjustment pipe that looks for a pattern in a text.

use vstd::prelude::*;
use crate::detecting::DetectionError;
use crate::patterns::{regex_is_match, regex_matched};
use crate::pipeline_tools::adjustment::{
    adjusted_confidence, conclude, PipeLineAction, PipelineTriggerInstruction,
};

verus! {

/// A pipe that applies `action` where its trigger holds and `regex` matches
/// somewhere in `license_text`.
pub struct RegexPipeLine {
    /// The pattern to look for.
    pub regex: String,
    /// The text in which to look for it.
    pub license_text: String,
    /// When the pipe runs at all.
    pub run_condition: PipelineTriggerInstruction,
    /// What happens to the confidence where the pattern matches.
    pub action: PipeLineAction,
}

impl RegexPipeLine {
    /// Runs the pipe on `confidence`. The pattern is only looked at where the
    /// trigger holds.
    pub fn run(&self, confidence: u8) -> (outcome: Result<u8, DetectionError>)
        ensures
            outcome == adjusted_confidence(
                self.run_condition,
                self.action,
                confidence,
                regex_matched(self.regex@, self.license_text@),
            ),
    {
        if self.run_condition.should_run(confidence) {
            let matched = regex_is_match(self.regex.as_str(), self.license_text.as_str());
            conclude(&self.action, confidence, matched)
        } else {
            Ok(confidence)
        }
    }
}

} // verus!

//! The parts of an adjustment pipe: a condition on the running confidence
//! that decides whether the pipe runs, and an action that moves the
//! confidence and keeps it between 0 and 100.

use vstd::prelude::*;
use crate::detecting::DetectionError;

verus! {

/// The highest confidence, in percent.
pub const MAX_CONFIDENCE: u8 = 100;

/// How the running confidence is held against a trigger's value.
#[derive(Clone, Copy, Debug, PartialEq, Eq, Structural)]
pub enum PipelineTriggerCondition {
    GreaterThan,
    LessThan,
    GreaterThanOrEqual,
    LessThanOrEqual,
    Equal,
    NotEqual,
    Always,
}

/// When a pipe runs: the relation in which the running confidence has to
/// stand to `value`.
#[derive(Clone, Copy, Debug, PartialEq, Eq, Structural)]
pub struct PipelineTriggerInstruction {
    pub condition: PipelineTriggerCondition,
    pub value: u8,
}

/// What an action does with its magnitude.
#[derive(Clone, Copy, Debug, PartialEq, Eq, Structural)]
pub enum PipelineActionType {
    Add,
    Subtract,
    SetTo,
}

/// An adjustment of the confidence by `value`.
#[derive(Clone, Copy, Debug, PartialEq, Eq, Structural)]
pub struct PipeLineAction {
    pub action: PipelineActionType,
    pub value: u8,
}

/// `x`, held to the range of a confidence.
pub open spec fn clamp_confidence(x: int) -> int {
    if x < 0 {
        0
    } else if x > 100 {
        100
    } else {
        x
    }
}

impl PipelineTriggerInstruction {
    /// Whether a pipe with this trigger runs at `confidence`.
    pub open spec fn triggers(&self, confidence: u8) -> bool {
        match self.condition {
            PipelineTriggerCondition::GreaterThan => confidence > self.value,
            PipelineTriggerCondition::LessThan => confidence < self.value,
            PipelineTriggerCondition::GreaterThanOrEqual => confidence >= self.value,
            PipelineTriggerCondition::LessThanOrEqual => confidence <= self.value,
            PipelineTriggerCondition::Equal => confidence == self.value,
            PipelineTriggerCondition::NotEqual => confidence != self.value,
            PipelineTriggerCondition::Always => true,
        }
    }

    /// Decides whether the pipe runs at `confidence`.
    pub fn should_run(&self, confidence: u8) -> (runs: bool)
        ensures
            runs == self.triggers(confidence),
    {
        match self.condition {
            PipelineTriggerCondition::GreaterThan => confidence > self.value,
            PipelineTriggerCondition::LessThan => confidence < self.value,
            PipelineTriggerCondition::GreaterThanOrEqual => confidence >= self.value,
            PipelineTriggerCondition::LessThanOrEqual => confidence <= self.value,
            PipelineTriggerCondition::Equal => confidence == self.value,
            PipelineTriggerCondition::NotEqual => confidence != self.value,
            PipelineTriggerCondition::Always => true,
        }
    }
}

impl PipeLineAction {
    /// The confidence after the action: the sum, the difference or the
    /// magnitude itself, held to the range 0 to 100.
    pub open spec fn applied(&self, confidence: u8) -> int {
        match self.action {
            PipelineActionType::Add => clamp_confidence(confidence + self.value),
            PipelineActionType::Subtract => clamp_confidence(confidence - self.value),
            PipelineActionType::SetTo => clamp_confidence(self.value as int),
        }
    }

    /// Applies the action to `confidence`.
    pub fn run(&self, confidence: u8) -> (adjusted: u8)
        ensures
            adjusted == self.applied(confidence),
            adjusted <= MAX_CONFIDENCE,
    {
        let raw: u8 = match self.action {
            PipelineActionType::Add => confidence.saturating_add(self.value),
            PipelineActionType::Subtract => confidence.saturating_sub(self.value),
            PipelineActionType::SetTo => self.value,
        };
        if raw > MAX_CONFIDENCE {
            MAX_CONFIDENCE
        } else {
            raw
        }
    }
}

/// What a pipe returns once its trigger and its pattern have been looked at:
/// the adjusted confidence where the pipe runs and the pattern matched, the
/// confidence as it came where the pipe does not run or nothing matched, and
/// an error where the pipe runs and its pattern is no regular expression.
pub open spec fn adjusted_confidence(
    trigger: PipelineTriggerInstruction,
    action: PipeLineAction,
    confidence: u8,
    matched: Option<bool>,
) -> Result<u8, DetectionError> {
    if !trigger.triggers(confidence) {
        Ok(confidence)
    } else {
        match matched {
            None => Err(DetectionError::MalformedInput),
            Some(true) => Ok(action.applied(confidence) as u8),
            Some(false) => Ok(confidence),
        }
    }
}

/// Concludes a pipe that runs: `matched` is what the pattern said.
pub fn conclude(action: &PipeLineAction, confidence: u8, matched: Option<bool>) -> (outcome: Result<
    u8,
    DetectionError,
>)
    ensures
        outcome == (match matched {
            None => Err(DetectionError::MalformedInput),
            Some(true) => Ok(action.applied(confidence) as u8),
            Some(false) => Ok(confidence),
        }),
{
    match matched {
        None => Err(DetectionError::MalformedInput),
        Some(true) => Ok(action.run(confidence)),
        Some(false) => Ok(confidence),
    }
}

/// No action leaves the range of a confidence, whatever it starts from.
pub proof fn lemma_action_stays_in_range(action: PipeLineAction, confidence: u8)
    ensures
        0 <= action.applied(confidence) <= 100,
{
}

/// A pipe that always runs runs at every confidence.
pub proof fn lemma_always_triggers(value: u8, confidence: u8)
    ensures
        (PipelineTriggerInstruction {
            condition: PipelineTriggerCondition::Always,
            value,
        }).triggers(confidence),
{
}

} // verus!

use whichlicense_detection::pipeline_tools::adjustment::conclude;
use whichlicense_detection::{
    DetectionError, PipeLineAction, PipelineActionType, PipelineTriggerCondition,
    PipelineTriggerInstruction,
};

fn action(kind: PipelineActionType, value: u8) -> PipeLineAction {
    PipeLineAction { action: kind, value }
}

fn trigger(condition: PipelineTriggerCondition, value: u8) -> PipelineTriggerInstruction {
    PipelineTriggerInstruction { condition, value }
}

#[test]
fn add_is_clamped_to_100() {
    assert_eq!(action(PipelineActionType::Add, 5).run(255), 100);
    assert_eq!(action(PipelineActionType::Add, 5).run(98), 100);
    assert_eq!(action(PipelineActionType::Add, 5).run(95), 100);
    assert_eq!(action(PipelineActionType::Add, 5).run(94), 99);
    assert_eq!(action(PipelineActionType::Add, 255).run(255), 100);
}

#[test]
fn subtract_is_clamped_to_0() {
    assert_eq!(action(PipelineActionType::Subtract, 5).run(0), 0);
    assert_eq!(action(PipelineActionType::Subtract, 5).run(4), 0);
    assert_eq!(action(PipelineActionType::Subtract, 5).run(50), 45);
    // a confidence that comes in above the range leaves within it
    assert_eq!(action(PipelineActionType::Subtract, 5).run(255), 100);
    assert_eq!(action(PipelineActionType::Subtract, 200).run(255), 55);
}

#[test]
fn set_is_clamped_to_100() {
    assert_eq!(action(PipelineActionType::SetTo, 255).run(3), 100);
    assert_eq!(action(PipelineActionType::SetTo, 100).run(3), 100);
    assert_eq!(action(PipelineActionType::SetTo, 42).run(3), 42);
    assert_eq!(action(PipelineActionType::SetTo, 0).run(99), 0);
}

#[test]
fn every_action_stays_in_range_for_every_input() {
    for kind in [PipelineActionType::Add, PipelineActionType::Subtract, PipelineActionType::SetTo] {
        for value in [0u8, 1, 5, 99, 100, 101, 200, 255] {
            for confidence in 0u8..=255 {
                assert!(action(kind, value).run(confidence) <= 100);
            }
        }
    }
}

#[test]
fn triggers_compare_as_they_are_named() {
    assert!(trigger(PipelineTriggerCondition::GreaterThan, 50).should_run(51));
    assert!(!trigger(PipelineTriggerCondition::GreaterThan, 50).should_run(50));
    assert!(!trigger(PipelineTriggerCondition::GreaterThan, 50).should_run(49));
    assert!(trigger(PipelineTriggerCondition::LessThanOrEqual, 50).should_run(50));
    assert!(!trigger(PipelineTriggerCondition::LessThanOrEqual, 50).should_run(51));
    assert!(trigger(PipelineTriggerCondition::LessThan, 50).should_run(49));
    assert!(!trigger(PipelineTriggerCondition::LessThan, 50).should_run(50));
    assert!(trigger(PipelineTriggerCondition::GreaterThanOrEqual, 50).should_run(50));
    assert!(!trigger(PipelineTriggerCondition::GreaterThanOrEqual, 50).should_run(49));
    assert!(trigger(PipelineTriggerCondition::Equal, 50).should_run(50));
    assert!(!trigger(PipelineTriggerCondition::Equal, 50).should_run(51));
    assert!(trigger(PipelineTriggerCondition::NotEqual, 50).should_run(51));
    assert!(!trigger(PipelineTriggerCondition::NotEqual, 50).should_run(50));
}

#[test]
fn always_runs_at_every_confidence() {
    for value in [0u8, 50, 255] {
        for confidence in 0u8..=255 {
            assert!(trigger(PipelineTriggerCondition::Always, value).should_run(confidence));
        }
    }
}

#[test]
fn conclude_follows_what_the_pattern_said() {
    let add = action(PipelineActionType::Add, 5);
    assert_eq!(conclude(&add, 10, Some(true)), Ok(15));
    assert_eq!(conclude(&add, 10, Some(false)), Ok(10));
    assert_eq!(conclude(&add, 10, None), Err(DetectionError::MalformedInput));
}

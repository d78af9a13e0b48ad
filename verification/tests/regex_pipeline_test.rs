use whichlicense_detection::pipeline_tools::regex_pipeline::RegexPipeLine;
use whichlicense_detection::{
    DetectionError, PipeLineAction, PipelineActionType, PipelineTriggerCondition,
    PipelineTriggerInstruction,
};

#[test]
fn regex_pipeline_executes() {
    let regex_pipeline = RegexPipeLine {
        regex: String::from("some text"),
        license_text: String::from("this is a sample license with some text"),
        run_condition: PipelineTriggerInstruction {
            condition: PipelineTriggerCondition::GreaterThan,
            value: 50,
        },
        action: PipeLineAction { action: PipelineActionType::Add, value: 5 },
    };

    let result = regex_pipeline.run(95);

    assert_eq!(result, Ok(100))
}

#[test]
fn regex_pipeline_executes_on_truthy_regex_condition() {
    let regex_pipeline = RegexPipeLine {
        regex: String::from(r"\d{4}-\d{2}-\d{2}"), // date finding regex
        license_text: String::from("this is a sample license created on 2014-01-01"),
        run_condition: PipelineTriggerInstruction {
            condition: PipelineTriggerCondition::Always,
            // does not matter on always
            value: 10,
        },
        action: PipeLineAction { action: PipelineActionType::Add, value: 5 },
    };

    let result = regex_pipeline.run(10);

    assert_eq!(result, Ok(15))
}

#[test]
fn regex_pipeline_does_not_execute_on_falsy_regex_condition() {
    let regex_pipeline = RegexPipeLine {
        regex: String::from(r"\d{4}-\d{2}-\d{2}"), // date finding regex
        license_text: String::from("this is a sample license created on NO DATE"),
        run_condition: PipelineTriggerInstruction {
            condition: PipelineTriggerCondition::Always,
            // does not matter on always
            value: 10,
        },
        action: PipeLineAction { action: PipelineActionType::Add, value: 5 },
    };

    let result = regex_pipeline.run(10);

    assert_eq!(result, Ok(10))
}

#[test]
fn regex_pipeline_passes_through_when_not_triggered() {
    let regex_pipeline = RegexPipeLine {
        regex: String::from("some text"),
        license_text: String::from("this is a sample license with some text"),
        run_condition: PipelineTriggerInstruction {
            condition: PipelineTriggerCondition::GreaterThan,
            value: 50,
        },
        action: PipeLineAction { action: PipelineActionType::Add, value: 5 },
    };

    assert_eq!(regex_pipeline.run(50), Ok(50));
    assert_eq!(regex_pipeline.run(51), Ok(56));
}

#[test]
fn regex_pipeline_reports_a_malformed_pattern() {
    let regex_pipeline = RegexPipeLine {
        regex: String::from("(unclosed"),
        license_text: String::from("this is a sample license"),
        run_condition: PipelineTriggerInstruction {
            condition: PipelineTriggerCondition::LessThan,
            value: 20,
        },
        action: PipeLineAction { action: PipelineActionType::Subtract, value: 5 },
    };

    // the pattern is only looked at where the trigger holds
    assert_eq!(regex_pipeline.run(10), Err(DetectionError::MalformedInput));
    assert_eq!(regex_pipeline.run(20), Ok(20));
}

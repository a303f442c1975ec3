use machinegen::report::{call_report, CallReport, Level};

#[test]
fn each_selector_stands_for_its_level() {
    assert_eq!(Level::from_selector("info"), Level::Info);
    assert_eq!(Level::from_selector("debug"), Level::Debug);
    assert_eq!(Level::from_selector("fatal"), Level::Fatal);
    assert_eq!(Level::from_selector("error"), Level::Error);
    assert_eq!(Level::from_selector("warning"), Level::Warning);
    assert_eq!(Level::from_selector("success"), Level::Success);
}

#[test]
fn any_other_selector_is_plain() {
    assert_eq!(Level::from_selector(""), Level::Plain);
    assert_eq!(Level::from_selector("Info"), Level::Plain);
    assert_eq!(Level::from_selector("verbose"), Level::Plain);
}

#[test]
fn only_a_fatal_message_ends_the_program() {
    assert!(Level::Fatal.is_fatal());
    assert!(!Level::Error.is_fatal());
    assert!(!Level::Info.is_fatal());
    assert!(!Level::Debug.is_fatal());
    assert!(!Level::Warning.is_fatal());
    assert!(!Level::Success.is_fatal());
    assert!(!Level::Plain.is_fatal());
}

#[test]
fn a_call_that_succeeded_is_reported_with_the_success_message() {
    assert_eq!(
        call_report(Ok(true), "done", "went wrong"),
        CallReport { level: Level::Success, message: "done".to_string(), succeeded: true }
    );
}

#[test]
fn a_call_that_failed_is_reported_with_the_error_message() {
    assert_eq!(
        call_report(Ok(false), "done", "went wrong"),
        CallReport { level: Level::Error, message: "went wrong".to_string(), succeeded: false }
    );
}

#[test]
fn a_call_that_could_not_be_made_is_reported_with_the_reason() {
    assert_eq!(
        call_report(Err("no such program".to_string()), "done", "went wrong"),
        CallReport { level: Level::Error, message: "no such program".to_string(), succeeded: false }
    );
}

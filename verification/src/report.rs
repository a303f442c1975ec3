//! How a message is reported: the level that a selector stands for, and
//! what is said of a call that has ended.
use vstd::prelude::*;

verus! {

/// The level of a message.
#[derive(Debug, Clone, Copy, PartialEq, Eq, Structural)]
pub enum Level {
    Info,
    Debug,
    Fatal,
    Error,
    Warning,
    Success,
    Plain,
}

impl Level {
    /// The level that a selector stands for: the one it names in lower
    /// case, and `Plain` for any other text.
    pub open spec fn of(selector: Seq<char>) -> Level {
        if selector == "info"@ {
            Level::Info
        } else if selector == "debug"@ {
            Level::Debug
        } else if selector == "fatal"@ {
            Level::Fatal
        } else if selector == "error"@ {
            Level::Error
        } else if selector == "warning"@ {
            Level::Warning
        } else if selector == "success"@ {
            Level::Success
        } else {
            Level::Plain
        }
    }

    /// The level that `selector` stands for.
    pub fn from_selector(selector: &str) -> (level: Level)
        ensures
            level == Level::of(selector@),
    {
        let selector = selector.to_owned();
        if selector == "info".to_owned() {
            Level::Info
        } else if selector == "debug".to_owned() {
            Level::Debug
        } else if selector == "fatal".to_owned() {
            Level::Fatal
        } else if selector == "error".to_owned() {
            Level::Error
        } else if selector == "warning".to_owned() {
            Level::Warning
        } else if selector == "success".to_owned() {
            Level::Success
        } else {
            Level::Plain
        }
    }

    /// Whether the program ends once the message is out: it does after a
    /// fatal one.
    pub fn is_fatal(&self) -> (fatal: bool)
        ensures
            fatal == (*self == Level::Fatal),
    {
        match self {
            Level::Fatal => true,
            _ => false,
        }
    }
}

/// What is said of a call that has ended.
#[derive(Debug, PartialEq, Eq)]
pub struct CallReport {
    /// The level of the message.
    pub level: Level,
    /// The message.
    pub message: String,
    /// Whether the call succeeded.
    pub succeeded: bool,
}

/// The report of a call that has ended. `outcome` holds whether the call
/// ended in success, or why it could not be made. A call that ended in
/// success is reported as a success with `success_message`; one that did
/// not, as an error with `error_message`; one that could not be made, as
/// an error with the reason.
pub fn call_report(outcome: Result<bool, String>, success_message: &str, error_message: &str) -> (report:
    CallReport)
    ensures
        report.succeeded == (outcome == Ok::<bool, String>(true)),
        report.level == if report.succeeded {
            Level::Success
        } else {
            Level::Error
        },
        report.message@ == match outcome {
            Ok(true) => success_message@,
            Ok(false) => error_message@,
            Err(reason) => reason@,
        },
{
    match outcome {
        Ok(true) => CallReport {
            level: Level::Success,
            message: success_message.to_owned(),
            succeeded: true,
        },
        Ok(false) => CallReport {
            level: Level::Error,
            message: error_message.to_owned(),
            succeeded: false,
        },
        Err(reason) => CallReport { level: Level::Error, message: reason, succeeded: false },
    }
}

} // verus!

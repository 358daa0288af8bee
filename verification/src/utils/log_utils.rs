//! The levels of logging.

use crate::processor::key_order::same_text;
use crate::processor::text::{lowercase_of, to_lowercase};
use vstd::prelude::*;

verus! {

/// How much is logged.
#[derive(Debug, Clone, Copy, PartialEq, Eq, Structural)]
pub enum LogLevel {
    Trace,
    Debug,
    Info,
    Warn,
    Error,
}

/// The level that a word in lower case names, if it names one.
pub open spec fn named_level(lowered: Seq<char>) -> Option<LogLevel> {
    if lowered == "trace"@ {
        Some(LogLevel::Trace)
    } else if lowered == "debug"@ {
        Some(LogLevel::Debug)
    } else if lowered == "info"@ {
        Some(LogLevel::Info)
    } else if lowered == "warn"@ {
        Some(LogLevel::Warn)
    } else if lowered == "error"@ {
        Some(LogLevel::Error)
    } else {
        None
    }
}

/// The level that a word in lower case names: one of `trace`, `debug`,
/// `info`, `warn` and `error`. `None` for any other word.
pub fn level_named(lowered: &str) -> (level: Option<LogLevel>)
    ensures
        level == named_level(lowered@),
{
    if same_text(lowered, "trace") {
        Some(LogLevel::Trace)
    } else if same_text(lowered, "debug") {
        Some(LogLevel::Debug)
    } else if same_text(lowered, "info") {
        Some(LogLevel::Info)
    } else if same_text(lowered, "warn") {
        Some(LogLevel::Warn)
    } else if same_text(lowered, "error") {
        Some(LogLevel::Error)
    } else {
        None
    }
}

/// The level that a word names, in whatever case it is written. A word
/// that names no level stands for `info`.
pub fn parse_log_level(level: &str) -> (parsed: LogLevel)
    ensures
        parsed == match named_level(lowercase_of(level@)) {
            Some(named) => named,
            None => LogLevel::Info,
        },
{
    let lowered = to_lowercase(level);
    match level_named(lowered.as_str()) {
        Some(named) => named,
        None => LogLevel::Info,
    }
}

} // verus!

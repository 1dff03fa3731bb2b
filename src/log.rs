//! Log lines: a severity prefix, then the message.

use vstd::prelude::*;
use crate::text::append_str;

verus! {

#[derive(Clone, Copy, Debug, PartialEq, Eq, Structural)]
pub enum LoggerSeverity {
    Info,
    Warning,
    Error,
}

pub open spec fn prefix_of(severity: LoggerSeverity) -> Seq<char> {
    match severity {
        LoggerSeverity::Info => "[INFO]"@,
        LoggerSeverity::Warning => "[WARNING]"@,
        LoggerSeverity::Error => "[ERROR]"@,
    }
}

/// The text of a log line: the severity's prefix, a space, the message.
pub fn log_line(severity: LoggerSeverity, message: &str) -> (r: String)
    ensures
        r@ == prefix_of(severity) + " "@ + message@,
{
    let mut r = String::new();
    match severity {
        LoggerSeverity::Info => append_str(&mut r, "[INFO]"),
        LoggerSeverity::Warning => append_str(&mut r, "[WARNING]"),
        LoggerSeverity::Error => append_str(&mut r, "[ERROR]"),
    }
    append_str(&mut r, " ");
    append_str(&mut r, message);
    assert(r@ =~= prefix_of(severity) + " "@ + message@);
    r
}

} // verus!

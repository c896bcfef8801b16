//! What the program's logger prints: which records, and how a line reads.

use vstd::prelude::*;
use vstd::string::StringExecFns;

verus! {

/// How grave a record is, from the gravest down.
#[derive(Debug, Clone, Copy, PartialEq, Eq, Structural)]
pub enum LogLevel {
    Error,
    Warn,
    Info,
    Debug,
    Trace,
}

/// The name of a level as it is printed.
pub open spec fn level_name(level: LogLevel) -> Seq<char> {
    match level {
        LogLevel::Error => "ERROR"@,
        LogLevel::Warn => "WARN"@,
        LogLevel::Info => "INFO"@,
        LogLevel::Debug => "DEBUG"@,
        LogLevel::Trace => "TRACE"@,
    }
}

impl LogLevel {
    /// The name of the level as it is printed.
    pub fn name(&self) -> (text: &'static str)
        ensures
            text@ == level_name(*self),
    {
        match self {
            LogLevel::Error => "ERROR",
            LogLevel::Warn => "WARN",
            LogLevel::Info => "INFO",
            LogLevel::Debug => "DEBUG",
            LogLevel::Trace => "TRACE",
        }
    }
}

/// The logger of the program. It prints errors, warnings and information, and
/// leaves out what is less grave.
pub struct Logger;

impl Logger {
    /// Whether a record of this level is printed.
    pub fn enabled(&self, level: LogLevel) -> (printed: bool)
        ensures
            printed == (level is Error || level is Warn || level is Info),
    {
        match level {
            LogLevel::Error => true,
            LogLevel::Warn => true,
            LogLevel::Info => true,
            _ => false,
        }
    }

    /// The line that is printed for a record: the time, the level, a tab and the
    /// message.
    pub fn line(&self, time: &str, level: LogLevel, message: &str) -> (line: String)
        ensures
            line@ == time@ + " "@ + level_name(level) + "\t"@ + message@,
    {
        let mut line = String::from_str(time);
        line.append(" ");
        line.append(level.name());
        line.append("\t");
        line.append(message);
        line
    }
}

} // verus!

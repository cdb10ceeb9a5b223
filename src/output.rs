use vstd::prelude::*;

verus! {

/// Where a plain line of text goes.
pub trait Output {
    fn write(&self, line: &str);
}

/// Severity of a diagnostic message.
#[derive(Debug, Clone, Copy, PartialEq, Eq, Structural)]
pub enum LogLevel {
    Error,
    Warn,
    Info,
    Debug,
    Trace,
}

/// Where leveled diagnostic messages go.
pub trait Log {
    fn log(&self, level: LogLevel, message: &str);
}

/// A diagnostic sink: takes both plain lines and leveled messages.
pub trait Out: Output + Log {}

} // verus!

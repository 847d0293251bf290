//! The logging switch: a handle that says which records are written.

use vstd::prelude::*;

verus! {

/// The severity of a log record, most severe first.
#[derive(Clone, Copy, Debug, PartialEq, Eq, Structural)]
pub enum Level {
    Error,
    Warn,
    Info,
    Debug,
    Trace,
}

impl Level {
    /// Whether the severity is that of information or above.
    pub open spec fn at_least_info(self) -> bool {
        self == Level::Error || self == Level::Warn || self == Level::Info
    }

    /// The name under which records of this severity are written.
    pub open spec fn name(self) -> Seq<char> {
        match self {
            Level::Error => "ERROR"@,
            Level::Warn => "WARN"@,
            Level::Info => "INFO"@,
            Level::Debug => "DEBUG"@,
            Level::Trace => "TRACE"@,
        }
    }

    /// The name under which records of this severity are written.
    pub fn label(&self) -> (r: &'static str)
        ensures
            r@ == self.name(),
    {
        match self {
            Level::Error => "ERROR",
            Level::Warn => "WARN",
            Level::Info => "INFO",
            Level::Debug => "DEBUG",
            Level::Trace => "TRACE",
        }
    }
}

/// A logger that can be switched on and off. It is handed to whoever logs;
/// there is no logger behind the scenes.
#[derive(Clone, Copy, Debug, PartialEq, Eq, Structural)]
pub struct LLamaLogger {
    pub enabled: bool,
}

impl LLamaLogger {
    /// A logger that is switched on.
    pub fn new() -> (r: LLamaLogger)
        ensures
            r.enabled,
    {
        LLamaLogger { enabled: true }
    }

    /// Switches the logger on or off.
    pub fn set_enabled(&mut self, enabled: bool)
        ensures
            final(self).enabled == enabled,
    {
        self.enabled = enabled;
    }

    /// Whether records of severity `level` pass the logger's filter, switched
    /// on or not: those of information and above do.
    pub fn enabled(&self, level: Level) -> (r: bool)
        ensures
            r == level.at_least_info(),
    {
        match level {
            Level::Error => true,
            Level::Warn => true,
            Level::Info => true,
            Level::Debug => false,
            Level::Trace => false,
        }
    }

    /// Whether a record of severity `level` is written: where the logger is
    /// switched on and the record passes its filter.
    pub fn writes(&self, level: Level) -> (r: bool)
        ensures
            r == (self.enabled && level.at_least_info()),
    {
        self.enabled(level) && self.enabled
    }
}

} // verus!

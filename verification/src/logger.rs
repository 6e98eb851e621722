//! Structured log lines with component context. The library formats the
//! lines; the caller supplies timestamps and writes them out.

use crate::bytes::{append_slice, append_str};
use vstd::prelude::*;
use vstd::string::StringSliceAdditionalSpecFns;

verus! {

/// The severity of a log line.
#[derive(Debug, Clone, Copy, PartialEq, Eq, Structural)]
pub enum LogLevel {
    Debug,
    Info,
    Warn,
    Error,
}

/// The label a severity prints as.
pub open spec fn level_label_spec(level: LogLevel) -> Seq<u8> {
    match level {
        LogLevel::Debug => "DEBUG".spec_bytes(),
        LogLevel::Info => "INFO".spec_bytes(),
        LogLevel::Warn => "WARN".spec_bytes(),
        LogLevel::Error => "ERROR".spec_bytes(),
    }
}

/// A scoped logger for one component.
#[derive(Debug, PartialEq, Eq)]
pub struct Logger {
    pub component: Vec<u8>,
}

/// The shape of every log line:
/// `[timestamp] [component] [LEVEL] message`.
pub open spec fn log_line_spec(
    component: Seq<u8>,
    timestamp: Seq<u8>,
    level: LogLevel,
    message: Seq<u8>,
) -> Seq<u8> {
    "[".spec_bytes() + timestamp + "] [".spec_bytes() + component + "] [".spec_bytes()
        + level_label_spec(level) + "] ".spec_bytes() + message
}

impl Logger {
    /// A logger for the named component.
    pub fn new(component: Vec<u8>) -> (r: Logger)
        ensures
            r.component@ == component@,
    {
        Logger { component }
    }

    /// One formatted line at the given severity.
    pub fn line(&self, timestamp: &[u8], level: LogLevel, message: &[u8]) -> (r: Vec<u8>)
        ensures
            r@ == log_line_spec(self.component@, timestamp@, level, message@),
    {
        let mut out: Vec<u8> = Vec::new();
        append_str(&mut out, "[");
        append_slice(&mut out, timestamp);
        append_str(&mut out, "] [");
        append_slice(&mut out, self.component.as_slice());
        append_str(&mut out, "] [");
        match level {
            LogLevel::Debug => append_str(&mut out, "DEBUG"),
            LogLevel::Info => append_str(&mut out, "INFO"),
            LogLevel::Warn => append_str(&mut out, "WARN"),
            LogLevel::Error => append_str(&mut out, "ERROR"),
        }
        append_str(&mut out, "] ");
        append_slice(&mut out, message);
        assert(out@ =~= log_line_spec(self.component@, timestamp@, level, message@));
        out
    }

    /// A debug line; release builds may discard it unprinted.
    pub fn debug(&self, timestamp: &[u8], message: &[u8]) -> (r: Vec<u8>)
        ensures
            r@ == log_line_spec(self.component@, timestamp@, LogLevel::Debug, message@),
    {
        self.line(timestamp, LogLevel::Debug, message)
    }

    /// An info line.
    pub fn info(&self, timestamp: &[u8], message: &[u8]) -> (r: Vec<u8>)
        ensures
            r@ == log_line_spec(self.component@, timestamp@, LogLevel::Info, message@),
    {
        self.line(timestamp, LogLevel::Info, message)
    }

    /// A warning line.
    pub fn warn(&self, timestamp: &[u8], message: &[u8]) -> (r: Vec<u8>)
        ensures
            r@ == log_line_spec(self.component@, timestamp@, LogLevel::Warn, message@),
    {
        self.line(timestamp, LogLevel::Warn, message)
    }

    /// An error line.
    pub fn error(&self, timestamp: &[u8], message: &[u8]) -> (r: Vec<u8>)
        ensures
            r@ == log_line_spec(self.component@, timestamp@, LogLevel::Error, message@),
    {
        self.line(timestamp, LogLevel::Error, message)
    }

    /// An error line with the cause appended after a colon.
    pub fn error_with_context(&self, timestamp: &[u8], message: &[u8], cause: &[u8]) -> (r: Vec<
        u8,
    >)
        ensures
            r@ == log_line_spec(self.component@, timestamp@, LogLevel::Error, message@)
                + ": ".spec_bytes() + cause@,
    {
        let mut out = self.line(timestamp, LogLevel::Error, message);
        append_str(&mut out, ": ");
        append_slice(&mut out, cause);
        assert(out@ =~= log_line_spec(self.component@, timestamp@, LogLevel::Error, message@)
            + ": ".spec_bytes() + cause@);
        out
    }
}

} // verus!

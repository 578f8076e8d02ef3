//! What the program reports while it runs: which messages are let through.
//!
//! Installing a logger and printing are left to the caller.

use vstd::prelude::*;

verus! {

/// How serious a message is, the most serious first.
#[derive(Clone, Copy, Debug, PartialEq, Eq, Structural)]
pub enum LogLevel {
    Error,
    Warn,
    Info,
    Debug,
    Trace,
}

/// The least serious level that is let through, or `Off` for none.
#[derive(Clone, Copy, Debug, PartialEq, Eq, Structural)]
pub enum LogLevelFilter {
    Off,
    Error,
    Warn,
    Info,
    Debug,
    Trace,
}

/// The program's logger. It prints a message as its level, a dash and its
/// text.
#[derive(Clone, Copy, Debug)]
pub struct SimpleLogger;

impl SimpleLogger {
    /// Whether the logger takes messages of this level: those of `Info` and
    /// of anything more serious.
    pub fn enabled(&self, level: LogLevel) -> (taken: bool)
        ensures
            taken == (level is Error || level is Warn || level is Info),
    {
        match level {
            LogLevel::Error | LogLevel::Warn | LogLevel::Info => true,
            LogLevel::Debug | LogLevel::Trace => false,
        }
    }
}

/// The filter that the program starts with: errors alone are let through.
pub fn init() -> (filter: LogLevelFilter)
    ensures
        filter == LogLevelFilter::Error,
{
    LogLevelFilter::Error
}

} // verus!

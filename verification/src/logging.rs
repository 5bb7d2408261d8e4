//! Logging configuration.
//!
//! [`LoggingBuilder`] collects the settings of the log output: the minimum
//! level, the output format, an optional target filter and which source
//! details to include. [`LoggingBuilder::filter_directive`] turns the level
//! and target into the filter directive the subscriber is built from.

use vstd::prelude::*;
use vstd::string::StringExecFns;

verus! {

/// Output format of the logs.
#[derive(Debug, Clone, Copy, PartialEq, Eq, Structural)]
pub enum LogFormat {
    /// JSON structured logging (the default, for production).
    Json,
    /// Pretty colorful output (for development).
    Pretty,
    /// Compact single-line output.
    Compact,
}

impl Default for LogFormat {
    fn default() -> (r: Self)
        ensures
            r == LogFormat::Json,
    {
        LogFormat::Json
    }
}

/// Minimum severity of the logs that are shown.
#[derive(Debug, Clone, Copy, PartialEq, Eq, Structural)]
pub enum LogLevel {
    /// Most verbose.
    Trace,
    Debug,
    Info,
    Warn,
    /// Least verbose.
    Error,
}

/// How a level is written in a filter directive.
pub open spec fn level_text(level: LogLevel) -> Seq<char> {
    match level {
        LogLevel::Trace => "TRACE"@,
        LogLevel::Debug => "DEBUG"@,
        LogLevel::Info => "INFO"@,
        LogLevel::Warn => "WARN"@,
        LogLevel::Error => "ERROR"@,
    }
}

impl LogLevel {
    /// How the level is written in a filter directive.
    pub fn as_str(&self) -> (r: &'static str)
        ensures
            r@ == level_text(*self),
    {
        match self {
            LogLevel::Trace => "TRACE",
            LogLevel::Debug => "DEBUG",
            LogLevel::Info => "INFO",
            LogLevel::Warn => "WARN",
            LogLevel::Error => "ERROR",
        }
    }
}

/// The target that holds this crate's own logs.
pub const DI_TARGET: &'static str = "dependency_injector";

/// Settings of the log output.
#[derive(Debug, Clone)]
pub struct LoggingBuilder {
    level: LogLevel,
    format: LogFormat,
    target: Option<&'static str>,
    with_file: bool,
    with_line_number: bool,
    with_thread_ids: bool,
    with_thread_names: bool,
}

impl LoggingBuilder {
    /// The minimum level.
    pub closed spec fn spec_level(self) -> LogLevel {
        self.level
    }

    /// The output format.
    pub closed spec fn spec_format(self) -> LogFormat {
        self.format
    }

    /// The target filter.
    pub closed spec fn spec_target(self) -> Option<&'static str> {
        self.target
    }

    /// The four source-detail flags: file, line number, thread ids, thread
    /// names.
    pub closed spec fn spec_details(self) -> (bool, bool, bool, bool) {
        (self.with_file, self.with_line_number, self.with_thread_ids, self.with_thread_names)
    }

    /// The settings of `self` with the level replaced by `level`.
    pub open spec fn same_but_level(self, other: Self, level: LogLevel) -> bool {
        &&& other.spec_level() == level
        &&& other.spec_format() == self.spec_format()
        &&& other.spec_target() == self.spec_target()
        &&& other.spec_details() == self.spec_details()
    }

    /// The settings of `self` with the format replaced by `format`.
    pub open spec fn same_but_format(self, other: Self, format: LogFormat) -> bool {
        &&& other.spec_level() == self.spec_level()
        &&& other.spec_format() == format
        &&& other.spec_target() == self.spec_target()
        &&& other.spec_details() == self.spec_details()
    }

    /// Default settings: level DEBUG, JSON format, no target filter, no
    /// source details.
    pub fn new() -> (r: Self)
        ensures
            r.spec_level() == LogLevel::Debug,
            r.spec_format() == LogFormat::Json,
            r.spec_target() is None,
            r.spec_details() == (false, false, false, false),
    {
        LoggingBuilder {
            level: LogLevel::Debug,
            format: LogFormat::Json,
            target: None,
            with_file: false,
            with_line_number: false,
            with_thread_ids: false,
            with_thread_names: false,
        }
    }

    /// Set the minimum level.
    pub fn with_level(self, level: LogLevel) -> (r: Self)
        ensures
            self.same_but_level(r, level),
    {
        LoggingBuilder { level, ..self }
    }

    /// Set the level to TRACE (most verbose).
    pub fn trace(self) -> (r: Self)
        ensures
            self.same_but_level(r, LogLevel::Trace),
    {
        self.with_level(LogLevel::Trace)
    }

    /// Set the level to DEBUG.
    pub fn debug(self) -> (r: Self)
        ensures
            self.same_but_level(r, LogLevel::Debug),
    {
        self.with_level(LogLevel::Debug)
    }

    /// Set the level to INFO.
    pub fn info(self) -> (r: Self)
        ensures
            self.same_but_level(r, LogLevel::Info),
    {
        self.with_level(LogLevel::Info)
    }

    /// Set the level to WARN.
    pub fn warn(self) -> (r: Self)
        ensures
            self.same_but_level(r, LogLevel::Warn),
    {
        self.with_level(LogLevel::Warn)
    }

    /// Set the level to ERROR (least verbose).
    pub fn error(self) -> (r: Self)
        ensures
            self.same_but_level(r, LogLevel::Error),
    {
        self.with_level(LogLevel::Error)
    }

    /// Only show logs of `target`.
    pub fn with_target_filter(self, target: &'static str) -> (r: Self)
        ensures
            r.spec_level() == self.spec_level(),
            r.spec_format() == self.spec_format(),
            r.spec_target() == Some(target),
            r.spec_details() == self.spec_details(),
    {
        LoggingBuilder { target: Some(target), ..self }
    }

    /// Only show this crate's logs.
    pub fn di_only(self) -> (r: Self)
        ensures
            r.spec_level() == self.spec_level(),
            r.spec_format() == self.spec_format(),
            r.spec_target() == Some(DI_TARGET),
            r.spec_details() == self.spec_details(),
    {
        self.with_target_filter(DI_TARGET)
    }

    /// Include file names in the output.
    pub fn with_file(self) -> (r: Self)
        ensures
            r.spec_level() == self.spec_level(),
            r.spec_format() == self.spec_format(),
            r.spec_target() == self.spec_target(),
            r.spec_details() == (true, self.spec_details().1, self.spec_details().2, self.spec_details().3),
    {
        LoggingBuilder { with_file: true, ..self }
    }

    /// Include line numbers in the output.
    pub fn with_line_number(self) -> (r: Self)
        ensures
            r.spec_level() == self.spec_level(),
            r.spec_format() == self.spec_format(),
            r.spec_target() == self.spec_target(),
            r.spec_details() == (self.spec_details().0, true, self.spec_details().2, self.spec_details().3),
    {
        LoggingBuilder { with_line_number: true, ..self }
    }

    /// Include thread ids in the output.
    pub fn with_thread_ids(self) -> (r: Self)
        ensures
            r.spec_level() == self.spec_level(),
            r.spec_format() == self.spec_format(),
            r.spec_target() == self.spec_target(),
            r.spec_details() == (self.spec_details().0, self.spec_details().1, true, self.spec_details().3),
    {
        LoggingBuilder { with_thread_ids: true, ..self }
    }

    /// Include thread names in the output.
    pub fn with_thread_names(self) -> (r: Self)
        ensures
            r.spec_level() == self.spec_level(),
            r.spec_format() == self.spec_format(),
            r.spec_target() == self.spec_target(),
            r.spec_details() == (self.spec_details().0, self.spec_details().1, self.spec_details().2, true),
    {
        LoggingBuilder { with_thread_names: true, ..self }
    }

    /// Use the JSON format.
    pub fn json(self) -> (r: Self)
        ensures
            self.same_but_format(r, LogFormat::Json),
    {
        LoggingBuilder { format: LogFormat::Json, ..self }
    }

    /// Use the pretty format.
    pub fn pretty(self) -> (r: Self)
        ensures
            self.same_but_format(r, LogFormat::Pretty),
    {
        LoggingBuilder { format: LogFormat::Pretty, ..self }
    }

    /// Use the compact format.
    pub fn compact(self) -> (r: Self)
        ensures
            self.same_but_format(r, LogFormat::Compact),
    {
        LoggingBuilder { format: LogFormat::Compact, ..self }
    }

    /// The minimum level.
    pub fn level(&self) -> (r: LogLevel)
        ensures
            r == self.spec_level(),
    {
        self.level
    }

    /// The output format.
    pub fn format(&self) -> (r: LogFormat)
        ensures
            r == self.spec_format(),
    {
        self.format
    }

    /// The target filter.
    pub fn target(&self) -> (r: Option<&'static str>)
        ensures
            r == self.spec_target(),
    {
        self.target
    }

    /// Whether file names are included.
    pub fn includes_file(&self) -> (r: bool)
        ensures
            r == self.spec_details().0,
    {
        self.with_file
    }

    /// Whether line numbers are included.
    pub fn includes_line_number(&self) -> (r: bool)
        ensures
            r == self.spec_details().1,
    {
        self.with_line_number
    }

    /// Whether thread ids are included.
    pub fn includes_thread_ids(&self) -> (r: bool)
        ensures
            r == self.spec_details().2,
    {
        self.with_thread_ids
    }

    /// Whether thread names are included.
    pub fn includes_thread_names(&self) -> (r: bool)
        ensures
            r == self.spec_details().3,
    {
        self.with_thread_names
    }

    /// The filter directive: `target=LEVEL` with a target filter, else
    /// `LEVEL`.
    pub fn filter_directive(&self) -> (r: String)
        ensures
            r@ == match self.spec_target() {
                Some(t) => t@ + "="@ + level_text(self.spec_level()),
                None => level_text(self.spec_level()),
            },
    {
        match self.target {
            Some(t) => {
                let mut d = String::from_str(t);
                d.append("=");
                d.append(self.level.as_str());
                d
            },
            None => String::from_str(self.level.as_str()),
        }
    }
}

impl Default for LoggingBuilder {
    fn default() -> (r: Self)
        ensures
            r.spec_level() == LogLevel::Debug,
            r.spec_format() == LogFormat::Json,
            r.spec_target() is None,
            r.spec_details() == (false, false, false, false),
    {
        LoggingBuilder::new()
    }
}

/// A builder with the default settings.
pub fn builder() -> (r: LoggingBuilder)
    ensures
        r.spec_level() == LogLevel::Debug,
        r.spec_format() == LogFormat::Json,
        r.spec_target() is None,
        r.spec_details() == (false, false, false, false),
{
    LoggingBuilder::new()
}

} // verus!

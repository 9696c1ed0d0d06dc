//! Records, trace windows and the errors of the pipeline.

use crate::text::{precedes, text_le};
use vstd::prelude::*;
use vstd::string::*;

verus! {

/// Why an operation stopped.
#[derive(Debug, Clone, Copy, PartialEq, Eq, Structural)]
pub enum LogError {
    /// A pattern is not a regular expression that compiles.
    InvalidPattern,
    /// A record has no timestamp that the time format can read.
    InvalidTimestamp,
    /// The name pattern cannot be rendered for a bucket.
    InvalidFileName,
    /// The time a trace took is more than a duration can hold.
    InvalidDuration,
}

impl LogError {
    /// A sentence that names the error.
    pub fn message(&self) -> (r: &'static str)
        ensures
            r@ == match *self {
                LogError::InvalidPattern => "the pattern is not a valid regular expression"@,
                LogError::InvalidTimestamp => "a record has no readable timestamp"@,
                LogError::InvalidFileName => "the output name cannot be rendered"@,
                LogError::InvalidDuration => "the duration of a trace is out of range"@,
            },
    {
        match self {
            LogError::InvalidPattern => "the pattern is not a valid regular expression",
            LogError::InvalidTimestamp => "a record has no readable timestamp",
            LogError::InvalidFileName => "the output name cannot be rendered",
            LogError::InvalidDuration => "the duration of a trace is out of range",
        }
    }
}

/// What a reader hands out: a record, or the end of its source.
#[derive(Debug, Clone, PartialEq, Eq)]
pub enum Log {
    EOF,
    Line(String),
}

/// The mathematical content of a [`Log`].
pub enum LogView {
    EOF,
    Line(Seq<char>),
}

impl View for Log {
    type V = LogView;

    open spec fn view(&self) -> LogView {
        match *self {
            Log::EOF => LogView::EOF,
            Log::Line(text) => LogView::Line(text@),
        }
    }
}

/// A record together with the source it came from.
#[derive(Debug)]
pub struct LogLine {
    file: String,
    line: String,
}

/// The mathematical content of a [`LogLine`].
pub struct LogLineView {
    pub file: Seq<char>,
    pub line: Seq<char>,
}

impl View for LogLine {
    type V = LogLineView;

    closed spec fn view(&self) -> LogLineView {
        LogLineView { file: self.file@, line: self.line@ }
    }
}

impl DeepView for LogLine {
    type V = LogLineView;

    open spec fn deep_view(&self) -> LogLineView {
        self@
    }
}

impl LogLine {
    /// The record `line` of the source `file`.
    pub fn new(file: &str, line: &str) -> (r: LogLine)
        ensures
            r@.file == file@,
            r@.line == line@,
    {
        LogLine { file: file.to_owned(), line: line.to_owned() }
    }

    /// The name of the source.
    pub fn filename(&self) -> (r: String)
        ensures
            r@ == self@.file,
    {
        self.file.clone()
    }

    /// The text of the record.
    pub fn value(&self) -> (r: String)
        ensures
            r@ == self@.line,
    {
        self.line.clone()
    }

    /// The text of the record, borrowed.
    pub fn text(&self) -> (r: &str)
        ensures
            r@ == self@.line,
    {
        self.line.as_str()
    }

    /// The name of the source, borrowed.
    pub fn source(&self) -> (r: &str)
        ensures
            r@ == self@.file,
    {
        self.file.as_str()
    }

    /// Whether this record comes before `other` in a merge, or may: records
    /// are ordered by their text alone.
    pub fn precedes(&self, other: &LogLine) -> (r: bool)
        ensures
            r == text_le(self@.line, other@.line),
            !r ==> text_le(other@.line, self@.line),
    {
        precedes(self.line.as_str(), other.line.as_str())
    }
}

/// The time window of one correlation id: the earliest and the latest
/// timestamp among its records, in milliseconds.
#[derive(Debug, Clone, PartialEq, Eq)]
pub struct LogDuration {
    pub trace_id: String,
    pub start_time: i64,
    pub end_time: i64,
}

/// The mathematical content of a [`LogDuration`].
pub struct LogDurationView {
    pub trace_id: Seq<char>,
    pub start_time: i64,
    pub end_time: i64,
}

impl LogDurationView {
    /// The time from the first record of the trace to its last.
    pub open spec fn elapsed(self) -> int {
        self.end_time - self.start_time
    }

    /// The window grown to take in a record at `millis`.
    pub open spec fn widened(self, millis: i64) -> LogDurationView {
        LogDurationView {
            trace_id: self.trace_id,
            start_time: if millis < self.start_time {
                millis
            } else {
                self.start_time
            },
            end_time: if millis > self.end_time {
                millis
            } else {
                self.end_time
            },
        }
    }
}

impl View for LogDuration {
    type V = LogDurationView;

    open spec fn view(&self) -> LogDurationView {
        LogDurationView {
            trace_id: self.trace_id@,
            start_time: self.start_time,
            end_time: self.end_time,
        }
    }
}

impl DeepView for LogDuration {
    type V = LogDurationView;

    open spec fn deep_view(&self) -> LogDurationView {
        self@
    }
}

} // verus!

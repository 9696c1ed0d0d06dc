//! The rotating sink.
//!
//! The sink keeps track of the destination that is open and decides, for
//! each record, whether the destination has to change. It touches no file:
//! it hands out the actions to carry out, in order.

use crate::clock::{render_name, rendered_name};
use crate::models::line::LogError;
use vstd::prelude::*;
use vstd::string::*;

verus! {

/// The highest compression level there is.
pub const MAX_COMPRESS_LEVEL: u32 = 9;

/// One thing a sink asks to be done to its destinations.
#[derive(Debug, Clone, PartialEq, Eq)]
pub enum SinkAction {
    /// Create the destination `name`, with the directories above it, and
    /// open it: at its end when `append`, emptied otherwise. With a `level`
    /// above zero what is written passes through a compressor of that level.
    Open { name: String, append: bool, level: u32 },
    /// Flush and close the destination `name`, then delete it if it holds
    /// nothing, or if `unwritten`.
    Close { name: String, unwritten: bool },
    /// Write `text` and a line separator to the open destination.
    Write { text: String },
    /// Flush the open destination.
    Flush,
}

/// The mathematical content of a [`SinkAction`].
pub enum SinkActionView {
    Open { name: Seq<char>, append: bool, level: u32 },
    Close { name: Seq<char>, unwritten: bool },
    Write { text: Seq<char> },
    Flush,
}

impl View for SinkAction {
    type V = SinkActionView;

    open spec fn view(&self) -> SinkActionView {
        match *self {
            SinkAction::Open { name, append, level } => SinkActionView::Open {
                name: name@,
                append,
                level,
            },
            SinkAction::Close { name, unwritten } => SinkActionView::Close {
                name: name@,
                unwritten,
            },
            SinkAction::Write { text } => SinkActionView::Write { text: text@ },
            SinkAction::Flush => SinkActionView::Flush,
        }
    }
}

impl DeepView for SinkAction {
    type V = SinkActionView;

    open spec fn deep_view(&self) -> SinkActionView {
        self@
    }
}

/// The name pattern as it is rendered: compressed output gets the suffix
/// `.gz`.
pub open spec fn suffixed(pattern: Seq<char>, level: u32) -> Seq<char> {
    if level > 0 {
        pattern + seq!['.', 'g', 'z']
    } else {
        pattern
    }
}

/// The level handed to the compressor: the configured one, at most 9.
pub open spec fn effective_level(level: u32) -> u32 {
    if level > MAX_COMPRESS_LEVEL {
        MAX_COMPRESS_LEVEL
    } else {
        level
    }
}

/// The name of the destination of the bucket `hour`.
pub open spec fn destination_name(pattern: Seq<char>, level: u32, hour: i64) -> Option<Seq<char>> {
    rendered_name(suffixed(pattern, level), hour)
}

/// The state of a sink.
pub struct SinkView {
    /// The name pattern, as configured.
    pub pattern: Seq<char>,
    /// The compression level, as configured.
    pub compress_level: u32,
    /// The name of the open destination.
    pub filename: Seq<char>,
    /// Whether the sink has not been written to yet.
    pub empty_content: bool,
}

impl SinkView {
    /// A destination whose name is the pattern itself is the same for every
    /// bucket, so it is opened at its end.
    pub open spec fn appendable(self, name: Seq<char>) -> bool {
        name == suffixed(self.pattern, self.compress_level)
    }

    /// The action that opens the destination `name`.
    pub open spec fn open_action(self, name: Seq<char>) -> SinkActionView {
        SinkActionView::Open {
            name,
            append: self.appendable(name),
            level: effective_level(self.compress_level),
        }
    }

    /// The action that opens the current destination.
    pub open spec fn opening(self) -> SinkActionView {
        self.open_action(self.filename)
    }

    /// The action that closes the current destination. A compressed
    /// destination that was never written to is deleted whatever it holds.
    pub open spec fn closing(self) -> SinkActionView {
        SinkActionView::Close {
            name: self.filename,
            unwritten: self.compress_level > 0 && self.empty_content,
        }
    }

    /// A new sink: its destination is that of bucket 0.
    pub open spec fn fresh(pattern: Seq<char>, level: u32) -> Option<SinkView> {
        match destination_name(pattern, level, 0) {
            Some(name) => Some(
                SinkView { pattern, compress_level: level, filename: name, empty_content: true },
            ),
            None => None,
        }
    }

    /// The sink after `text` was written to the destination `name`, and
    /// the actions that the write asks for: the text is written to the open
    /// destination if that is `name`, and otherwise the open destination
    /// is closed and `name` opened first.
    pub open spec fn moved(self, name: Seq<char>, text: Seq<char>) -> (
        SinkView,
        Seq<SinkActionView>,
    ) {
        let next = SinkView { filename: name, empty_content: false, ..self };
        let write = SinkActionView::Write { text };
        if name == self.filename {
            (next, seq![write])
        } else {
            (next, seq![self.closing(), self.open_action(name), write])
        }
    }

    /// The sink after `text` was written for the bucket `hour`, and the
    /// actions that the write asks for: those of a write to the
    /// destination of the bucket. `None` when the bucket has no name.
    pub open spec fn written(self, hour: i64, text: Seq<char>) -> Option<
        (SinkView, Seq<SinkActionView>),
    > {
        match destination_name(self.pattern, self.compress_level, hour) {
            Some(name) => Some(self.moved(name, text)),
            None => None,
        }
    }
}

/// The rotating sink.
#[derive(Debug)]
pub struct WrappedFileWriter {
    // controls whether output is compressed, from 0 to 9
    compress_level: u32,
    // name of the open destination
    filename: String,
    // name pattern of the destinations
    pattern: String,
    // true until the first write
    empty_content: bool,
}

impl View for WrappedFileWriter {
    type V = SinkView;

    closed spec fn view(&self) -> SinkView {
        SinkView {
            pattern: self.pattern@,
            compress_level: self.compress_level,
            filename: self.filename@,
            empty_content: self.empty_content,
        }
    }
}

impl WrappedFileWriter {
    /// A sink for the name pattern `filename_pattern`. Its first destination
    /// is that of bucket 0; [`WrappedFileWriter::opening`] tells how to open
    /// it. Fails when the pattern cannot be rendered.
    pub fn new(filename_pattern: &str, compress_level: u32) -> (r: Result<
        WrappedFileWriter,
        LogError,
    >)
        ensures
            match r {
                Ok(sink) => SinkView::fresh(filename_pattern@, compress_level) == Some(sink@),
                Err(e) => e == LogError::InvalidFileName && SinkView::fresh(
                    filename_pattern@,
                    compress_level,
                ) is None,
            },
    {
        match WrappedFileWriter::as_filename(filename_pattern, 0, compress_level) {
            Some((filename, _)) => Ok(
                WrappedFileWriter {
                    compress_level,
                    filename,
                    pattern: filename_pattern.to_owned(),
                    empty_content: true,
                },
            ),
            None => Err(LogError::InvalidFileName),
        }
    }

    /// The action that opens the current destination.
    pub fn opening(&self) -> (r: SinkAction)
        ensures
            r@ == self@.opening(),
    {
        let rendered = WrappedFileWriter::rendered_pattern(
            self.pattern.as_str(),
            self.compress_level,
        );
        SinkAction::Open {
            name: self.filename.clone(),
            append: self.filename == rendered,
            level: WrappedFileWriter::clamp_level(self.compress_level),
        }
    }

    /// Writes `line` to the destination `filename`: hands out the actions
    /// that bring the text there, and makes `filename` the open
    /// destination.
    pub fn write_to(&mut self, filename: String, line: &str) -> (r: Vec<SinkAction>)
        ensures
            (final(self)@, r.deep_view()) == old(self)@.moved(filename@, line@),
    {
        let rendered = WrappedFileWriter::rendered_pattern(
            self.pattern.as_str(),
            self.compress_level,
        );
        let appendable = filename == rendered;
        self.rotate(filename, appendable, line)
    }

    fn rotate(&mut self, filename: String, appendable: bool, line: &str) -> (r: Vec<SinkAction>)
        requires
            appendable == old(self)@.appendable(filename@),
        ensures
            (final(self)@, r.deep_view()) == old(self)@.moved(filename@, line@),
    {
        let mut actions: Vec<SinkAction> = Vec::new();
        if !(self.filename == filename) {
            actions.push(
                SinkAction::Close {
                    name: self.filename.clone(),
                    unwritten: self.compress_level > 0 && self.empty_content,
                },
            );
            actions.push(
                SinkAction::Open {
                    name: filename.clone(),
                    append: appendable,
                    level: WrappedFileWriter::clamp_level(self.compress_level),
                },
            );
            self.filename = filename;
        }
        actions.push(SinkAction::Write { text: line.to_owned() });
        self.empty_content = false;
        proof {
            assert(actions.deep_view() =~= old(self)@.moved(filename@, line@).1);
        }
        actions
    }

    /// Writes `line` for the bucket `log_hour`: hands out the actions that
    /// bring the text to the bucket's destination. When the bucket has no
    /// name the sink stays as it was.
    pub fn write(&mut self, log_hour: i64, line: &str) -> (r: Result<Vec<SinkAction>, LogError>)
        ensures
            match r {
                Ok(actions) => old(self)@.written(log_hour, line@) == Some(
                    (final(self)@, actions.deep_view()),
                ),
                Err(e) => e == LogError::InvalidFileName && old(self)@.written(log_hour, line@)
                    is None && final(self)@ == old(self)@,
            },
    {
        match WrappedFileWriter::as_filename(self.pattern.as_str(), log_hour, self.compress_level) {
            Some((filename, appendable)) => Ok(self.rotate(filename, appendable, line)),
            None => Err(LogError::InvalidFileName),
        }
    }

    /// The name pattern with the suffix of compressed output.
    fn rendered_pattern(log_file_pattern: &str, compress_level: u32) -> (r: String)
        ensures
            r@ == suffixed(log_file_pattern@, compress_level),
    {
        let mut pattern = log_file_pattern.to_owned();
        if compress_level > 0 {
            proof {
                reveal_strlit(".gz");
                assert(".gz"@ =~= seq!['.', 'g', 'z']);
            }
            pattern.append(".gz");
        }
        pattern
    }

    /// The level handed to the compressor.
    fn clamp_level(compress_level: u32) -> (r: u32)
        ensures
            r == effective_level(compress_level),
    {
        if compress_level > MAX_COMPRESS_LEVEL {
            MAX_COMPRESS_LEVEL
        } else {
            compress_level
        }
    }

    /// The name of the destination of the bucket `log_hour`, and whether it
    /// is the pattern itself.
    fn as_filename(log_file_pattern: &str, log_hour: i64, compress_level: u32) -> (r: Option<
        (String, bool),
    >)
        ensures
            match r {
                Some((name, appendable)) => destination_name(
                    log_file_pattern@,
                    compress_level,
                    log_hour,
                ) == Some(name@) && appendable == (name@ == suffixed(
                    log_file_pattern@,
                    compress_level,
                )),
                None => destination_name(log_file_pattern@, compress_level, log_hour) is None,
            },
    {
        let pattern = WrappedFileWriter::rendered_pattern(log_file_pattern, compress_level);
        match render_name(pattern.as_str(), log_hour) {
            Some(new_file) => {
                let appendable = new_file == pattern;
                Some((new_file, appendable))
            },
            None => None,
        }
    }

    /// Asks for the open destination to be flushed. The sink stays as it is,
    /// so flushing twice is flushing once.
    pub fn flush(&mut self) -> (r: SinkAction)
        ensures
            r@ == SinkActionView::Flush,
            final(self)@ == old(self)@,
    {
        SinkAction::Flush
    }
}

} // verus!

//! The record reassembler.
//!
//! A record is a line that matches the start pattern together with the
//! lines that follow it up to the next such line. The reader is fed the raw
//! lines of its source one at a time, and hands out each record as soon as
//! the line that follows it has been seen.

use crate::models::line::{Log, LogError, LogView};
use crate::pattern::{regex_compiles, regex_is_match, Pattern};
use crate::text::{join_lines, joined};
use vstd::prelude::*;
use vstd::string::*;

verus! {

/// Whether `line` begins a record.
pub open spec fn starts_record(pattern: Seq<char>, line: Seq<char>) -> bool {
    regex_is_match(pattern, line)
}

/// The lines of a source, grouped into records: a new group begins with the
/// first line and with every line that begins a record.
pub open spec fn groups(pattern: Seq<char>, lines: Seq<Seq<char>>) -> Seq<Seq<Seq<char>>>
    decreases lines.len(),
{
    if lines.len() == 0 {
        Seq::empty()
    } else {
        let before = groups(pattern, lines.drop_last());
        if before.len() == 0 || starts_record(pattern, lines.last()) {
            before.push(seq![lines.last()])
        } else {
            before.update(before.len() - 1, before.last().push(lines.last()))
        }
    }
}

/// The records of a source: each group of lines joined by line breaks.
pub open spec fn records(pattern: Seq<char>, lines: Seq<Seq<char>>) -> Seq<Seq<char>> {
    groups(pattern, lines).map_values(|group: Seq<Seq<char>>| joined(group))
}

/// Grouping loses no line and keeps their order: the groups, put end to
/// end, are the lines of the source. In particular the lines that follow the
/// last start of a record are part of the last record.
pub proof fn lemma_groups_cover_lines(pattern: Seq<char>, lines: Seq<Seq<char>>)
    ensures
        groups(pattern, lines).flatten() == lines,
        lines.len() > 0 ==> groups(pattern, lines).len() > 0,
        forall|k: int| 0 <= k < groups(pattern, lines).len() ==> (#[trigger] groups(
            pattern,
            lines,
        )[k]).len() > 0,
    decreases lines.len(),
{
    broadcast use Seq::lemma_flatten_push;

    if lines.len() == 0 {
        assert(groups(pattern, lines).flatten() =~= lines);
    } else {
        let before = groups(pattern, lines.drop_last());
        let line = lines.last();
        lemma_groups_cover_lines(pattern, lines.drop_last());
        assert(lines =~= lines.drop_last().push(line));
        if before.len() == 0 || starts_record(pattern, line) {
            assert(before.push(seq![line]).flatten() =~= before.flatten() + seq![line]);
        } else {
            let grown = before.last().push(line);
            assert(before =~= before.drop_last().push(before.last()));
            assert(before.update(before.len() - 1, grown) =~= before.drop_last().push(grown));
            assert(before.drop_last().push(grown).flatten() =~= before.drop_last().flatten()
                + grown);
            assert(before.drop_last().push(before.last()).flatten() =~= before.drop_last().flatten()
                + before.last());
            assert(groups(pattern, lines).flatten() =~= lines);
        }
    }
}

/// Every record but the first begins with a line that matches the start
/// pattern, and no later line of any record does.
pub proof fn lemma_records_begin_at_starts(pattern: Seq<char>, lines: Seq<Seq<char>>)
    ensures
        forall|k: int, j: int|
            0 <= k < groups(pattern, lines).len() && 0 <= j < groups(pattern, lines)[k].len() && (k
                > 0 || j > 0) ==> (starts_record(
                pattern,
                #[trigger] groups(pattern, lines)[k][j],
            ) <==> j == 0),
    decreases lines.len(),
{
    if lines.len() > 0 {
        lemma_records_begin_at_starts(pattern, lines.drop_last());
        lemma_groups_cover_lines(pattern, lines.drop_last());
    }
}

/// Reassembly is idempotent: where every line after the first begins a
/// record, each line is a record of its own, so records that are one line
/// each are reassembled to themselves.
pub proof fn lemma_reassembly_idempotent(pattern: Seq<char>, lines: Seq<Seq<char>>)
    requires
        forall|i: int| 1 <= i < lines.len() ==> starts_record(pattern, #[trigger] lines[i]),
    ensures
        records(pattern, lines) == lines,
{
    lemma_single_line_groups(pattern, lines);
    assert(records(pattern, lines) =~= lines);
}

proof fn lemma_single_line_groups(pattern: Seq<char>, lines: Seq<Seq<char>>)
    requires
        forall|i: int| 1 <= i < lines.len() ==> starts_record(pattern, #[trigger] lines[i]),
    ensures
        groups(pattern, lines) == lines.map_values(|line: Seq<char>| seq![line]),
    decreases lines.len(),
{
    if lines.len() > 0 {
        lemma_single_line_groups(pattern, lines.drop_last());
    }
    assert(groups(pattern, lines) =~= lines.map_values(|line: Seq<char>| seq![line]));
}

/// The text of a line that may be missing.
pub open spec fn opt_line(raw: Option<&str>) -> Option<Seq<char>> {
    match raw {
        Some(line) => Some(line@),
        None => None,
    }
}

/// The state of a reader.
pub struct ReaderView {
    /// The name of the source.
    pub file: Seq<char>,
    /// The start pattern.
    pub pattern: Seq<char>,
    /// Whether the source is compressed.
    pub compressed: bool,
    /// The lines of the record that is being read.
    pub buffer: Seq<Seq<char>>,
}

impl ReaderView {
    /// The reader after it took `line`, which begins a record or does not,
    /// and the record that this completes.
    ///
    /// A line that begins a record completes the record before it. Any other
    /// line, and the first line of the source, joins the record that is
    /// being read.
    pub open spec fn took(self, line: Seq<char>, starts: bool) -> (ReaderView, Option<LogView>) {
        if starts && self.buffer.len() > 0 {
            (ReaderView { buffer: seq![line], ..self }, Some(LogView::Line(joined(self.buffer))))
        } else {
            (ReaderView { buffer: self.buffer.push(line), ..self }, None)
        }
    }

    /// The reader after its source ended, and what it hands out: the record
    /// that was being read, and after it the end.
    pub open spec fn ended(self) -> (ReaderView, LogView) {
        if self.buffer.len() > 0 {
            (ReaderView { buffer: Seq::empty(), ..self }, LogView::Line(joined(self.buffer)))
        } else {
            (self, LogView::EOF)
        }
    }

    /// The reader after it was fed `raw`, the next line of its source or
    /// `None` at its end, and what it hands out.
    pub open spec fn fed(self, raw: Option<Seq<char>>) -> (ReaderView, Option<LogView>) {
        match raw {
            Some(line) => self.took(line, starts_record(self.pattern, line)),
            None => (self.ended().0, Some(self.ended().1)),
        }
    }
}

/// The reader after it took the lines `lines` one by one, and the records
/// it handed out on the way.
pub open spec fn fed_lines(start: ReaderView, lines: Seq<Seq<char>>) -> (
    ReaderView,
    Seq<Seq<char>>,
)
    decreases lines.len(),
{
    if lines.len() == 0 {
        (start, Seq::empty())
    } else {
        let before = fed_lines(start, lines.drop_last());
        let step = before.0.fed(Some(lines.last()));
        match step.1 {
            Some(LogView::Line(text)) => (step.0, before.1.push(text)),
            _ => (step.0, before.1),
        }
    }
}

/// What a reader hands out in all when it is fed the lines `lines` and then
/// the end of the source.
pub open spec fn fed_source(start: ReaderView, lines: Seq<Seq<char>>) -> Seq<Seq<char>> {
    let fed = fed_lines(start, lines);
    match fed.0.ended().1 {
        LogView::Line(text) => fed.1.push(text),
        LogView::EOF => fed.1,
    }
}

proof fn lemma_fed_lines(start: ReaderView, lines: Seq<Seq<char>>)
    requires
        start.buffer.len() == 0,
    ensures
        fed_lines(start, lines).0.pattern == start.pattern,
        lines.len() == 0 ==> fed_lines(start, lines) == (start, Seq::<Seq<char>>::empty()),
        lines.len() > 0 ==> ({
            let g = groups(start.pattern, lines);
            &&& g.len() > 0
            &&& g.last().len() > 0
            &&& fed_lines(start, lines).0.buffer == g.last()
            &&& fed_lines(start, lines).1 == records(start.pattern, lines).drop_last()
        }),
    decreases lines.len(),
{
    if lines.len() > 0 {
        let before = lines.drop_last();
        lemma_fed_lines(start, before);
        let pattern = start.pattern;
        let g = groups(pattern, lines);
        let fed = fed_lines(start, lines);
        if before.len() == 0 {
            assert(groups(pattern, before).len() == 0);
            assert(g =~= seq![seq![lines.last()]]);
            assert(fed_lines(start, before).1.len() == 0);
            assert(records(pattern, lines).len() == 1);
        } else if starts_record(pattern, lines.last()) {
            let h = groups(pattern, before);
            assert(g == h.push(seq![lines.last()]));
            assert(fed.1 =~= records(pattern, before).drop_last().push(joined(h.last())));
        }
        assert(fed.1 =~= records(pattern, lines).drop_last());
    }
}

/// Feeding a reader the lines of a source one by one, and then the end of
/// the source, hands out the records of the source: no record is lost, not
/// the last one either, and none comes twice.
pub proof fn lemma_feeding_hands_out_the_records(start: ReaderView, lines: Seq<Seq<char>>)
    requires
        start.buffer.len() == 0,
    ensures
        fed_source(start, lines) == records(start.pattern, lines),
{
    lemma_fed_lines(start, lines);
    assert(fed_source(start, lines) =~= records(start.pattern, lines));
}

/// The record reassembler of one source.
pub struct WrappedFileReader {
    file: String,
    pattern: Pattern,
    compressed: bool,
    buffer: Vec<String>,
}

impl View for WrappedFileReader {
    type V = ReaderView;

    closed spec fn view(&self) -> ReaderView {
        ReaderView {
            file: self.file@,
            pattern: self.pattern@,
            compressed: self.compressed,
            buffer: self.buffer.deep_view(),
        }
    }
}

impl WrappedFileReader {
    /// A reader for the source `file`, whose records begin with a match of
    /// `pattern`. Fails when the pattern does not compile.
    pub fn new(file: &str, pattern: &str, compressed: bool) -> (r: Result<
        WrappedFileReader,
        LogError,
    >)
        ensures
            r is Ok <==> regex_compiles(pattern@),
            r matches Ok(reader) ==> reader@ == (ReaderView {
                file: file@,
                pattern: pattern@,
                compressed,
                buffer: Seq::empty(),
            }),
            r matches Err(e) ==> e == LogError::InvalidPattern,
    {
        match Pattern::new(pattern) {
            Some(pattern) => {
                let reader = WrappedFileReader {
                    file: file.to_owned(),
                    pattern,
                    compressed,
                    buffer: Vec::new(),
                };
                assert(reader.buffer.deep_view() =~= Seq::empty());
                Ok(reader)
            },
            None => Err(LogError::InvalidPattern),
        }
    }

    /// The name of the source.
    pub fn filename(&self) -> (r: String)
        ensures
            r@ == self@.file,
    {
        self.file.clone()
    }

    /// Whether the source is compressed.
    pub fn compressed(&self) -> (r: bool)
        ensures
            r == self@.compressed,
    {
        self.compressed
    }

    /// Takes the next line of the source, which begins a record if `starts`
    /// says so. Hands out the record that this completes.
    pub fn take_line(&mut self, line: &str, starts: bool) -> (r: Option<Log>)
        ensures
            final(self)@ == old(self)@.took(line@, starts).0,
            match r {
                Some(log) => old(self)@.took(line@, starts).1 == Some(log@),
                None => old(self)@.took(line@, starts).1 is None,
            },
    {
        if starts && self.buffer.len() > 0 {
            // next record: hand out the lines before it
            let full_log = join_lines(&self.buffer);
            self.buffer.clear();
            self.buffer.push(line.to_owned());
            assert(self.buffer.deep_view() =~= seq![line@]);
            Some(Log::Line(full_log))
        } else {
            // same record: keep the line and wait for the next
            self.buffer.push(line.to_owned());
            assert(self.buffer.deep_view() =~= old(self).buffer.deep_view().push(line@));
            None
        }
    }

    /// Takes the end of the source. Hands out the record that was being
    /// read, and the end of input once nothing is left.
    pub fn end(&mut self) -> (r: Log)
        ensures
            final(self)@ == old(self)@.ended().0,
            r@ == old(self)@.ended().1,
    {
        if self.buffer.len() > 0 {
            let full_log = join_lines(&self.buffer);
            self.buffer.clear();
            assert(self.buffer.deep_view() =~= Seq::empty());
            Log::Line(full_log)
        } else {
            Log::EOF
        }
    }

    /// Feeds the reader the next line of its source, or `None` at its end.
    /// Hands out the record that this completes, the end of input once
    /// nothing is left, or `None` while the record is still being read.
    pub fn next_log(&mut self, raw: Option<&str>) -> (r: Option<Log>)
        ensures
            final(self)@ == old(self)@.fed(opt_line(raw)).0,
            match r {
                Some(log) => old(self)@.fed(opt_line(raw)).1 == Some(log@),
                None => old(self)@.fed(opt_line(raw)).1 is None,
            },
    {
        match raw {
            Some(line) => {
                let starts = self.pattern.matches(line);
                self.take_line(line, starts)
            },
            None => Some(self.end()),
        }
    }

    /// Reassembles the records of a whole source from its lines.
    pub fn reassemble(pattern: &Pattern, lines: &Vec<String>) -> (r: Vec<String>)
        ensures
            r.deep_view() == records(pattern@, lines.deep_view()),
    {
        let mut reader = WrappedFileReader {
            file: String::new(),
            pattern: pattern.duplicate(),
            compressed: false,
            buffer: Vec::new(),
        };
        let mut out: Vec<String> = Vec::new();
        let ghost all = lines.deep_view();
        let ghost start = reader@;
        let mut i: usize = 0;
        assert(reader.buffer.deep_view() =~= Seq::empty());
        assert(out.deep_view() =~= Seq::empty());
        while i < lines.len()
            invariant
                i <= lines.len(),
                all == lines.deep_view(),
                (reader@, out.deep_view()) == fed_lines(start, all.take(i as int)),
            decreases lines.len() - i,
        {
            let ghost seen = out.deep_view();
            proof {
                assert(all.take(i + 1).drop_last() =~= all.take(i as int));
                assert(all.take(i + 1).last() == lines[i as int]@);
            }
            match reader.next_log(Some(lines[i].as_str())) {
                Some(Log::Line(text)) => {
                    let ghost added = text@;
                    out.push(text);
                    assert(out.deep_view() =~= seen.push(added));
                },
                _ => {},
            }
            i += 1;
        }
        let ghost seen = out.deep_view();
        match reader.end() {
            Log::Line(text) => {
                let ghost added = text@;
                out.push(text);
                assert(out.deep_view() =~= seen.push(added));
            },
            Log::EOF => {},
        }
        proof {
            assert(all.take(lines.len() as int) =~= all);
            lemma_feeding_hands_out_the_records(start, all);
        }
        out
    }
}

} // verus!

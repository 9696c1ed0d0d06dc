//! The trace duration grouper: finds the correlation ids whose records span
//! more than a given time, and collects the records of each.

use crate::clock::{
    bucket_key, bucket_of, duration_text, elapsed_text, read_millis, record_millis,
};
use crate::models::line::{LogDuration, LogDurationView, LogError};
use crate::models::plan::{Outcome, OutcomeView, Plan, PlanView};
use crate::models::reader::{records, WrappedFileReader};
use crate::models::writer::SinkAction;
use crate::pattern::{opt_text, regex_compiles, regex_first_group, Pattern};
use crate::reducer::{LogSource, LogSourceView};
use crate::text::{join_lines, joined, same_text};
use vstd::prelude::*;
use vstd::string::*;

verus! {

/// A record that carries a correlation id, with its timestamp.
#[derive(Debug, Clone, PartialEq, Eq)]
pub struct TraceRecord {
    pub trace_id: String,
    pub millis: i64,
    pub text: String,
}

/// The mathematical content of a [`TraceRecord`].
pub struct TraceRecordView {
    pub trace_id: Seq<char>,
    pub millis: i64,
    pub text: Seq<char>,
}

impl View for TraceRecord {
    type V = TraceRecordView;

    open spec fn view(&self) -> TraceRecordView {
        TraceRecordView { trace_id: self.trace_id@, millis: self.millis, text: self.text@ }
    }
}

impl DeepView for TraceRecord {
    type V = TraceRecordView;

    open spec fn deep_view(&self) -> TraceRecordView {
        self@
    }
}

/// The correlation id of a record: what group 1 of the trace pattern
/// captures in its text.
pub open spec fn correlation_id(trace_pattern: Seq<char>, text: Seq<char>) -> Option<Seq<char>> {
    regex_first_group(trace_pattern, text)
}

/// A record as the grouper sees it, given the correlation id and the
/// timestamp that were read from it. A record without a correlation id is
/// passed over; one with an id and without a timestamp is an error.
pub open spec fn stamped_with(
    trace_id: Option<Seq<char>>,
    millis: Option<i64>,
    text: Seq<char>,
) -> Result<Option<TraceRecordView>, LogError> {
    match trace_id {
        Some(trace_id) => match millis {
            Some(millis) => Ok(Some(TraceRecordView { trace_id, millis, text })),
            None => Err(LogError::InvalidTimestamp),
        },
        None => Ok(None),
    }
}

/// A record as the grouper sees it: its correlation id is what the trace
/// pattern captures, and its timestamp what the start pattern captures and
/// the time format reads.
pub open spec fn stamped(
    trace_pattern: Seq<char>,
    pattern: Seq<char>,
    format: Seq<char>,
    text: Seq<char>,
) -> Result<Option<TraceRecordView>, LogError> {
    stamped_with(correlation_id(trace_pattern, text), record_millis(pattern, format, text), text)
}

/// The records among `texts` that carry a correlation id, in their order,
/// or the first error.
pub open spec fn stamped_all(
    trace_pattern: Seq<char>,
    pattern: Seq<char>,
    format: Seq<char>,
    texts: Seq<Seq<char>>,
) -> Result<Seq<TraceRecordView>, LogError>
    decreases texts.len(),
{
    if texts.len() == 0 {
        Ok(Seq::empty())
    } else {
        match stamped_all(trace_pattern, pattern, format, texts.drop_last()) {
            Ok(before) => match stamped(trace_pattern, pattern, format, texts.last()) {
                Ok(Some(record)) => Ok(before.push(record)),
                Ok(None) => Ok(before),
                Err(e) => Err(e),
            },
            Err(e) => Err(e),
        }
    }
}

/// The content of what [`stamp`] returns.
pub open spec fn stamp_view(r: Result<Option<TraceRecord>, LogError>) -> Result<
    Option<TraceRecordView>,
    LogError,
> {
    match r {
        Ok(Some(record)) => Ok(Some(record@)),
        Ok(None) => Ok(None),
        Err(e) => Err(e),
    }
}

/// The content of what [`stamp_all`] returns.
pub open spec fn stamps_view(r: Result<Vec<TraceRecord>, LogError>) -> Result<
    Seq<TraceRecordView>,
    LogError,
> {
    match r {
        Ok(found) => Ok(found.deep_view()),
        Err(e) => Err(e),
    }
}

/// Makes the record of the grouper out of the text of a record and the
/// correlation id and timestamp read from it.
pub fn stamp_with(trace_id: Option<String>, millis: Option<i64>, text: &str) -> (r: Result<
    Option<TraceRecord>,
    LogError,
>)
    ensures
        stamp_view(r) == stamped_with(opt_text(trace_id), millis, text@),
{
    match trace_id {
        Some(trace_id) => match millis {
            Some(millis) => Ok(Some(TraceRecord { trace_id, millis, text: text.to_owned() })),
            None => Err(LogError::InvalidTimestamp),
        },
        None => Ok(None),
    }
}

/// Reads the correlation id and the timestamp of the record `text`.
pub fn stamp(trace: &Pattern, pattern: &Pattern, log_time_format: &str, text: &str) -> (r: Result<
    Option<TraceRecord>,
    LogError,
>)
    ensures
        stamp_view(r) == stamped(trace@, pattern@, log_time_format@, text@),
{
    match trace.capture(text) {
        Some(trace_id) => {
            let millis = read_millis(pattern, log_time_format, text);
            stamp_with(Some(trace_id), millis, text)
        },
        None => stamp_with(None, None, text),
    }
}

/// Reads the correlation id and the timestamp of each of `records`, and
/// keeps those that carry an id.
pub fn stamp_all(
    trace: &Pattern,
    pattern: &Pattern,
    log_time_format: &str,
    records: &Vec<String>,
) -> (r: Result<Vec<TraceRecord>, LogError>)
    ensures
        stamps_view(r) == stamped_all(
            trace@,
            pattern@,
            log_time_format@,
            records.deep_view(),
        ),
{
    let ghost texts = records.deep_view();
    let mut found: Vec<TraceRecord> = Vec::new();
    let mut failure: Option<LogError> = None;
    let mut i: usize = 0;
    assert(found.deep_view() =~= Seq::empty());
    while i < records.len()
        invariant
            i <= records.len(),
            texts == records.deep_view(),
            match failure {
                Some(e) => stamped_all(trace@, pattern@, log_time_format@, texts.take(i as int))
                    == Err::<Seq<TraceRecordView>, LogError>(e),
                None => stamped_all(trace@, pattern@, log_time_format@, texts.take(i as int))
                    == Ok::<Seq<TraceRecordView>, LogError>(found.deep_view()),
            },
        decreases records.len() - i,
    {
        proof {
            assert(texts.take(i + 1).drop_last() =~= texts.take(i as int));
        }
        if failure.is_none() {
            let ghost before = found.deep_view();
            match stamp(trace, pattern, log_time_format, records[i].as_str()) {
                Ok(Some(record)) => {
                    let ghost added = record@;
                    found.push(record);
                    assert(found.deep_view() =~= before.push(added));
                },
                Ok(None) => {},
                Err(e) => {
                    failure = Some(e);
                },
            }
        }
        i += 1;
    }
    proof {
        assert(texts.take(records.len() as int) =~= texts);
    }
    match failure {
        Some(e) => Err(e),
        None => Ok(found),
    }
}

/// Whether some window belongs to the correlation id `id`.
pub open spec fn has_window(windows: Seq<LogDurationView>, id: Seq<char>) -> bool {
    exists|i: int| 0 <= i < windows.len() && #[trigger] windows[i].trace_id == id
}

/// The windows after a record of `id` at the time `millis` was seen: the
/// window of `id` grows to take in the time, and a first record opens a
/// window of its own.
pub open spec fn observed(windows: Seq<LogDurationView>, id: Seq<char>, millis: i64) -> Seq<
    LogDurationView,
> {
    if has_window(windows, id) {
        windows.map_values(
            |w: LogDurationView|
                if w.trace_id == id {
                    w.widened(millis)
                } else {
                    w
                },
        )
    } else {
        windows.push(LogDurationView { trace_id: id, start_time: millis, end_time: millis })
    }
}

/// Takes a record of `trace_id` at the time `millis` into the windows. The
/// windows are looked through one by one.
pub fn observe(windows: &mut Vec<LogDuration>, trace_id: &str, millis: i64)
    ensures
        final(windows).deep_view() == observed(old(windows).deep_view(), trace_id@, millis),
        one_window_per_id(old(windows).deep_view()) ==> one_window_per_id(
            final(windows).deep_view(),
        ),
{
    let ghost before = windows.deep_view();
    proof {
        if one_window_per_id(before) {
            lemma_observed_keeps_ids(before, trace_id@, millis);
        }
    }
    let mut found = false;
    let mut i: usize = 0;
    while i < windows.len()
        invariant
            i <= windows.len(),
            windows.len() == before.len(),
            found ==> has_window(before, trace_id@),
            !found ==> forall|j: int| 0 <= j < i ==> (#[trigger] before[j]).trace_id != trace_id@,
            forall|j: int| i <= j < windows.len() ==> #[trigger] windows.deep_view()[j] == before[j],
            forall|j: int|
                0 <= j < i ==> #[trigger] windows.deep_view()[j] == if before[j].trace_id
                    == trace_id@ {
                    before[j].widened(millis)
                } else {
                    before[j]
                },
        decreases windows.len() - i,
    {
        let ghost now = windows.deep_view();
        assert(now[i as int] == before[i as int]);
        if same_text(windows[i].trace_id.as_str(), trace_id) {
            if millis < windows[i].start_time {
                windows[i].start_time = millis;
            }
            if millis > windows[i].end_time {
                windows[i].end_time = millis;
            }
            found = true;
            assert(windows.deep_view()[i as int] == before[i as int].widened(millis));
        }
        assert forall|j: int| 0 <= j < windows.len() && j != i implies #[trigger] windows.deep_view()[j]
            == now[j] by {}
        i += 1;
    }
    if !found {
        let ghost scanned = windows.deep_view();
        assert(scanned =~= before);
        assert(!has_window(before, trace_id@));
        let window = LogDuration {
            trace_id: trace_id.to_owned(),
            start_time: millis,
            end_time: millis,
        };
        let ghost opened = window@;
        windows.push(window);
        assert(windows.deep_view() =~= scanned.push(opened));
    } else {
        assert(windows.deep_view() =~= observed(before, trace_id@, millis));
    }
}

/// The windows of the correlation ids of `stamped`, in the order in which
/// the ids first occur.
pub open spec fn windows_of(stamped: Seq<TraceRecordView>) -> Seq<LogDurationView>
    decreases stamped.len(),
{
    if stamped.len() == 0 {
        Seq::empty()
    } else {
        observed(windows_of(stamped.drop_last()), stamped.last().trace_id, stamped.last().millis)
    }
}

/// No two windows belong to one correlation id.
pub open spec fn one_window_per_id(windows: Seq<LogDurationView>) -> bool {
    forall|a: int, b: int|
        0 <= a < b < windows.len() ==> (#[trigger] windows[a]).trace_id != (
        #[trigger] windows[b]).trace_id
}

/// The window `w` is that of the record `r`, and holds its time.
pub open spec fn covers(w: LogDurationView, r: TraceRecordView) -> bool {
    w.trace_id == r.trace_id && w.start_time <= r.millis <= w.end_time
}

/// The time of the record `r` lies in the window of its correlation id.
pub open spec fn covered(windows: Seq<LogDurationView>, r: TraceRecordView) -> bool {
    exists|k: int| 0 <= k < windows.len() && covers(#[trigger] windows[k], r)
}

/// The window `w` begins at the time of a record of its correlation id.
pub open spec fn begins_with_record(w: LogDurationView, stamped: Seq<TraceRecordView>) -> bool {
    exists|i: int|
        0 <= i < stamped.len() && (#[trigger] stamped[i]).trace_id == w.trace_id
            && stamped[i].millis == w.start_time
}

/// The window `w` ends at the time of a record of its correlation id.
pub open spec fn ends_with_record(w: LogDurationView, stamped: Seq<TraceRecordView>) -> bool {
    exists|i: int|
        0 <= i < stamped.len() && (#[trigger] stamped[i]).trace_id == w.trace_id
            && stamped[i].millis == w.end_time
}

/// The records `stamped` have their windows in `windows`: there is one
/// window for each correlation id; the time of every record lies in the
/// window of its id; and every window begins at the time of a record of
/// its id and ends at the time of one. So the window of an id reaches from
/// the earliest of its records to the latest.
pub open spec fn spans(windows: Seq<LogDurationView>, stamped: Seq<TraceRecordView>) -> bool {
    &&& one_window_per_id(windows)
    &&& forall|i: int| 0 <= i < stamped.len() ==> covered(windows, #[trigger] stamped[i])
    &&& forall|k: int|
        0 <= k < windows.len() ==> begins_with_record(#[trigger] windows[k], stamped)
            && ends_with_record(windows[k], stamped)
}

proof fn lemma_observed_keeps_ids(windows: Seq<LogDurationView>, id: Seq<char>, millis: i64)
    requires
        one_window_per_id(windows),
    ensures
        one_window_per_id(observed(windows, id, millis)),
{
    let new = observed(windows, id, millis);
    if has_window(windows, id) {
        assert forall|a: int, b: int| 0 <= a < b < new.len() implies (#[trigger] new[a]).trace_id
            != (#[trigger] new[b]).trace_id by {
            assert(windows[a].trace_id != windows[b].trace_id);
        }
    } else {
        assert forall|a: int, b: int| 0 <= a < b < new.len() implies (#[trigger] new[a]).trace_id
            != (#[trigger] new[b]).trace_id by {
            if b < windows.len() {
                assert(windows[a].trace_id != windows[b].trace_id);
            } else {
                assert(windows[a].trace_id != id);
            }
        }
    }
}

proof fn lemma_observed_keeps_cover(
    windows: Seq<LogDurationView>,
    id: Seq<char>,
    millis: i64,
    r: TraceRecordView,
)
    requires
        covered(windows, r),
    ensures
        covered(observed(windows, id, millis), r),
{
    let new = observed(windows, id, millis);
    let k = choose|k: int| 0 <= k < windows.len() && covers(#[trigger] windows[k], r);
    assert(covers(new[k], r));
}

proof fn lemma_observed_covers_record(windows: Seq<LogDurationView>, r: TraceRecordView)
    ensures
        covered(observed(windows, r.trace_id, r.millis), r),
{
    let new = observed(windows, r.trace_id, r.millis);
    if has_window(windows, r.trace_id) {
        let k = choose|k: int| 0 <= k < windows.len() && #[trigger] windows[k].trace_id
            == r.trace_id;
        assert(covers(new[k], r));
    } else {
        assert(covers(new[windows.len() as int], r));
    }
}

proof fn lemma_observed_keeps_ends(
    windows: Seq<LogDurationView>,
    before: Seq<TraceRecordView>,
    r: TraceRecordView,
    k: int,
)
    requires
        0 <= k < observed(windows, r.trace_id, r.millis).len(),
        k < windows.len() ==> begins_with_record(windows[k], before) && ends_with_record(
            windows[k],
            before,
        ),
    ensures
        begins_with_record(observed(windows, r.trace_id, r.millis)[k], before.push(r)),
        ends_with_record(observed(windows, r.trace_id, r.millis)[k], before.push(r)),
{
    let new = observed(windows, r.trace_id, r.millis);
    let stamped = before.push(r);
    let n = before.len() as int;
    assert(stamped[n] == r);
    if k < windows.len() {
        let i = choose|i: int|
            0 <= i < before.len() && (#[trigger] before[i]).trace_id == windows[k].trace_id
                && before[i].millis == windows[k].start_time;
        let j = choose|j: int|
            0 <= j < before.len() && (#[trigger] before[j]).trace_id == windows[k].trace_id
                && before[j].millis == windows[k].end_time;
        assert(stamped[i] == before[i]);
        assert(stamped[j] == before[j]);
        if new[k].start_time != windows[k].start_time {
            assert(stamped[n].millis == new[k].start_time);
        }
        if new[k].end_time != windows[k].end_time {
            assert(stamped[n].millis == new[k].end_time);
        }
    }
}

/// The windows found by the first pass are those of the records: one for
/// each correlation id, from the earliest record of the id to its latest.
pub proof fn lemma_windows_span_records(stamped: Seq<TraceRecordView>)
    ensures
        spans(windows_of(stamped), stamped),
    decreases stamped.len(),
{
    if stamped.len() > 0 {
        let before = stamped.drop_last();
        let record = stamped.last();
        let old = windows_of(before);
        let new = windows_of(stamped);
        lemma_windows_span_records(before);
        assert(stamped =~= before.push(record));
        lemma_observed_keeps_ids(old, record.trace_id, record.millis);
        assert forall|i: int| 0 <= i < stamped.len() implies covered(new, #[trigger] stamped[i]) by {
            if i < before.len() {
                assert(covered(old, before[i]));
                lemma_observed_keeps_cover(old, record.trace_id, record.millis, before[i]);
            } else {
                lemma_observed_covers_record(old, record);
            }
        }
        assert forall|k: int| 0 <= k < new.len() implies begins_with_record(
            #[trigger] new[k],
            stamped,
        ) && ends_with_record(new[k], stamped) by {
            if k < old.len() {
                assert(begins_with_record(old[k], before));
            }
            lemma_observed_keeps_ends(old, before, record, k);
        }
    }
}

/// The first pass: finds the window of every correlation id.
pub fn collect_windows(stamped: &Vec<TraceRecord>) -> (r: Vec<LogDuration>)
    ensures
        r.deep_view() == windows_of(stamped.deep_view()),
        one_window_per_id(r.deep_view()),
{
    proof {
        lemma_windows_span_records(stamped.deep_view());
    }
    let ghost all = stamped.deep_view();
    let mut windows: Vec<LogDuration> = Vec::new();
    let mut i: usize = 0;
    assert(windows.deep_view() =~= Seq::empty());
    while i < stamped.len()
        invariant
            i <= stamped.len(),
            all == stamped.deep_view(),
            windows.deep_view() == windows_of(all.take(i as int)),
        decreases stamped.len() - i,
    {
        proof {
            assert(all.take(i + 1).drop_last() =~= all.take(i as int));
        }
        observe(&mut windows, stamped[i].trace_id.as_str(), stamped[i].millis);
        i += 1;
    }
    proof {
        assert(all.take(stamped.len() as int) =~= all);
    }
    windows
}

/// A trace that is being collected: its window and its records so far.
#[derive(Debug, Clone, PartialEq, Eq)]
pub struct OpenTrace {
    pub window: LogDuration,
    pub lines: Vec<String>,
}

/// The mathematical content of an [`OpenTrace`].
pub struct OpenTraceView {
    pub window: LogDurationView,
    pub lines: Seq<Seq<char>>,
}

impl View for OpenTrace {
    type V = OpenTraceView;

    open spec fn view(&self) -> OpenTraceView {
        OpenTraceView { window: self.window@, lines: self.lines.deep_view() }
    }
}

impl DeepView for OpenTrace {
    type V = OpenTraceView;

    open spec fn deep_view(&self) -> OpenTraceView {
        self@
    }
}

/// No two traces belong to one correlation id.
pub open spec fn one_trace_per_id(open: Seq<OpenTraceView>) -> bool {
    forall|a: int, b: int|
        0 <= a < b < open.len() ==> (#[trigger] open[a]).window.trace_id != (
        #[trigger] open[b]).window.trace_id
}

/// Whether some trace belongs to the correlation id `id`.
pub open spec fn has_trace(open: Seq<OpenTraceView>, id: Seq<char>) -> bool {
    exists|i: int| 0 <= i < open.len() && (#[trigger] open[i]).window.trace_id == id
}

/// The traces to collect: one, with no record yet, for each window that
/// spans more than `min_cost_time`.
pub open spec fn qualified(windows: Seq<LogDurationView>, min_cost_time: i64) -> Seq<
    OpenTraceView,
>
    decreases windows.len(),
{
    if windows.len() == 0 {
        Seq::empty()
    } else {
        let before = qualified(windows.drop_last(), min_cost_time);
        if windows.last().elapsed() > min_cost_time {
            before.push(OpenTraceView { window: windows.last(), lines: Seq::empty() })
        } else {
            before
        }
    }
}

/// Keeps the windows that span more than `min_cost_time` milliseconds, as
/// traces to collect.
pub fn long_traces(windows: &Vec<LogDuration>, min_cost_time: i64) -> (r: Vec<OpenTrace>)
    ensures
        r.deep_view() == qualified(windows.deep_view(), min_cost_time),
        one_window_per_id(windows.deep_view()) ==> one_trace_per_id(r.deep_view()),
{
    proof {
        if one_window_per_id(windows.deep_view()) {
            lemma_qualified_keeps_ids(windows.deep_view(), min_cost_time);
        }
    }
    let ghost all = windows.deep_view();
    let mut open: Vec<OpenTrace> = Vec::new();
    let mut i: usize = 0;
    assert(open.deep_view() =~= Seq::empty());
    while i < windows.len()
        invariant
            i <= windows.len(),
            all == windows.deep_view(),
            open.deep_view() == qualified(all.take(i as int), min_cost_time),
        decreases windows.len() - i,
    {
        proof {
            assert(all.take(i + 1).drop_last() =~= all.take(i as int));
        }
        let window = &windows[i];
        let elapsed: i128 = window.end_time as i128 - window.start_time as i128;
        if elapsed > min_cost_time as i128 {
            let ghost before = open.deep_view();
            let lines: Vec<String> = Vec::new();
            assert(lines.deep_view() =~= Seq::empty());
            let trace = OpenTrace {
                window: LogDuration {
                    trace_id: window.trace_id.clone(),
                    start_time: window.start_time,
                    end_time: window.end_time,
                },
                lines,
            };
            let ghost added = trace@;
            open.push(trace);
            assert(open.deep_view() =~= before.push(added));
        }
        i += 1;
    }
    proof {
        assert(all.take(windows.len() as int) =~= all);
    }
    open
}

/// The traces after the record `text` of `id` was taken in: it joins the
/// records of the trace of `id`, if that is being collected.
pub open spec fn collected(open: Seq<OpenTraceView>, id: Seq<char>, text: Seq<char>) -> Seq<
    OpenTraceView,
> {
    open.map_values(
        |t: OpenTraceView|
            if t.window.trace_id == id {
                OpenTraceView { lines: t.lines.push(text), ..t }
            } else {
                t
            },
    )
}

/// Takes the record `text` of `trace_id` into the traces.
pub fn collect(open: &mut Vec<OpenTrace>, trace_id: &str, text: &str)
    ensures
        final(open).deep_view() == collected(old(open).deep_view(), trace_id@, text@),
        one_trace_per_id(old(open).deep_view()) ==> one_trace_per_id(final(open).deep_view()),
{
    proof {
        if one_trace_per_id(open.deep_view()) {
            lemma_collected_keeps_ids(open.deep_view(), trace_id@, text@);
        }
    }
    let ghost before = open.deep_view();
    let mut i: usize = 0;
    while i < open.len()
        invariant
            i <= open.len(),
            open.len() == before.len(),
            forall|j: int| i <= j < open.len() ==> #[trigger] open.deep_view()[j] == before[j],
            forall|j: int|
                0 <= j < i ==> #[trigger] open.deep_view()[j] == collected(
                    before,
                    trace_id@,
                    text@,
                )[j],
        decreases open.len() - i,
    {
        let ghost now = open.deep_view();
        assert(now[i as int] == before[i as int]);
        if same_text(open[i].window.trace_id.as_str(), trace_id) {
            let ghost held = open[i as int].lines.deep_view();
            open[i].lines.push(text.to_owned());
            assert(open[i as int].lines.deep_view() =~= held.push(text@));
        }
        assert forall|j: int| 0 <= j < open.len() && j != i implies #[trigger] open.deep_view()[j]
            == now[j] by {}
        i += 1;
    }
    assert(open.deep_view() =~= collected(before, trace_id@, text@));
}

/// Whether no further record of the trace can come once the stream has
/// reached `watermark`: its window ends before.
pub open spec fn has_ended(t: OpenTraceView, watermark: i64) -> bool {
    t.window.end_time < watermark
}

/// The traces that have ended at `watermark`, in their order.
pub open spec fn ended(open: Seq<OpenTraceView>, watermark: i64) -> Seq<OpenTraceView>
    decreases open.len(),
{
    if open.len() == 0 {
        Seq::empty()
    } else if has_ended(open.last(), watermark) {
        ended(open.drop_last(), watermark).push(open.last())
    } else {
        ended(open.drop_last(), watermark)
    }
}

/// The traces that have not ended at `watermark`, in their order.
pub open spec fn still_open(open: Seq<OpenTraceView>, watermark: i64) -> Seq<OpenTraceView>
    decreases open.len(),
{
    if open.len() == 0 {
        Seq::empty()
    } else if has_ended(open.last(), watermark) {
        still_open(open.drop_last(), watermark)
    } else {
        still_open(open.drop_last(), watermark).push(open.last())
    }
}

proof fn lemma_qualified_keeps_ids(windows: Seq<LogDurationView>, min_cost_time: i64)
    requires
        one_window_per_id(windows),
    ensures
        one_trace_per_id(qualified(windows, min_cost_time)),
        forall|id: Seq<char>| #[trigger]
            has_trace(qualified(windows, min_cost_time), id) ==> has_window(windows, id),
    decreases windows.len(),
{
    let new = qualified(windows, min_cost_time);
    if windows.len() > 0 {
        let rest = windows.drop_last();
        let before = qualified(rest, min_cost_time);
        assert(one_window_per_id(rest)) by {
            assert forall|a: int, b: int| 0 <= a < b < rest.len() implies (#[trigger] rest[a]).trace_id
                != (#[trigger] rest[b]).trace_id by {
                assert(windows[a].trace_id != windows[b].trace_id);
            }
        }
        lemma_qualified_keeps_ids(rest, min_cost_time);
        assert forall|id: Seq<char>| #[trigger] has_trace(new, id) implies has_window(
            windows,
            id,
        ) by {
            let i = choose|i: int| 0 <= i < new.len() && (#[trigger] new[i]).window.trace_id == id;
            if i < before.len() {
                assert(before[i].window.trace_id == id);
                assert(has_trace(before, id));
                let k = choose|k: int| 0 <= k < rest.len() && #[trigger] rest[k].trace_id == id;
                assert(windows[k].trace_id == id);
            } else {
                assert(windows[windows.len() - 1].trace_id == id);
            }
        }
        assert forall|a: int, b: int| 0 <= a < b < new.len() implies (#[trigger] new[a]).window.trace_id
            != (#[trigger] new[b]).window.trace_id by {
            if b < before.len() {
                assert(before[a].window.trace_id != before[b].window.trace_id);
            } else {
                let id = new[a].window.trace_id;
                assert(before[a].window.trace_id == id);
                assert(has_trace(before, id));
                let k = choose|k: int| 0 <= k < rest.len() && #[trigger] rest[k].trace_id == id;
                assert(windows[k].trace_id != windows[windows.len() - 1].trace_id);
            }
        }
    }
}

proof fn lemma_collected_keeps_ids(open: Seq<OpenTraceView>, id: Seq<char>, text: Seq<char>)
    requires
        one_trace_per_id(open),
    ensures
        one_trace_per_id(collected(open, id, text)),
{
    let new = collected(open, id, text);
    assert forall|a: int, b: int| 0 <= a < b < new.len() implies (#[trigger] new[a]).window.trace_id
        != (#[trigger] new[b]).window.trace_id by {
        assert(open[a].window.trace_id != open[b].window.trace_id);
    }
}

proof fn lemma_settling_keeps_ids(open: Seq<OpenTraceView>, watermark: i64)
    requires
        one_trace_per_id(open),
    ensures
        one_trace_per_id(still_open(open, watermark)),
        one_trace_per_id(ended(open, watermark)),
        forall|id: Seq<char>| #[trigger]
            has_trace(still_open(open, watermark), id) ==> has_trace(open, id),
        forall|id: Seq<char>| #[trigger] has_trace(ended(open, watermark), id) ==> has_trace(open, id),
    decreases open.len(),
{
    let kept = still_open(open, watermark);
    let gone = ended(open, watermark);
    if open.len() > 0 {
        let rest = open.drop_last();
        let last = open.last();
        let kept_before = still_open(rest, watermark);
        let gone_before = ended(rest, watermark);
        assert(one_trace_per_id(rest)) by {
            assert forall|a: int, b: int| 0 <= a < b < rest.len() implies (
            #[trigger] rest[a]).window.trace_id != (#[trigger] rest[b]).window.trace_id by {
                assert(open[a].window.trace_id != open[b].window.trace_id);
            }
        }
        lemma_settling_keeps_ids(rest, watermark);
        assert forall|id: Seq<char>| #[trigger] has_trace(kept, id) implies has_trace(open, id) by {
            let i = choose|i: int| 0 <= i < kept.len() && (#[trigger] kept[i]).window.trace_id == id;
            if i < kept_before.len() {
                assert(kept_before[i].window.trace_id == id);
                assert(has_trace(kept_before, id));
                let k = choose|k: int| 0 <= k < rest.len() && (#[trigger] rest[k]).window.trace_id
                    == id;
                assert(open[k].window.trace_id == id);
            } else {
                assert(open[open.len() - 1].window.trace_id == id);
            }
        }
        assert forall|id: Seq<char>| #[trigger] has_trace(gone, id) implies has_trace(open, id) by {
            let i = choose|i: int| 0 <= i < gone.len() && (#[trigger] gone[i]).window.trace_id == id;
            if i < gone_before.len() {
                assert(gone_before[i].window.trace_id == id);
                assert(has_trace(gone_before, id));
                let k = choose|k: int| 0 <= k < rest.len() && (#[trigger] rest[k]).window.trace_id
                    == id;
                assert(open[k].window.trace_id == id);
            } else {
                assert(open[open.len() - 1].window.trace_id == id);
            }
        }
        assert forall|a: int, b: int| 0 <= a < b < kept.len() implies (#[trigger] kept[a]).window.trace_id
            != (#[trigger] kept[b]).window.trace_id by {
            if b < kept_before.len() {
                assert(kept_before[a].window.trace_id != kept_before[b].window.trace_id);
            } else {
                let id = kept[a].window.trace_id;
                assert(kept_before[a].window.trace_id == id);
                assert(has_trace(kept_before, id));
                let k = choose|k: int| 0 <= k < rest.len() && (#[trigger] rest[k]).window.trace_id
                    == id;
                assert(open[k].window.trace_id != open[open.len() - 1].window.trace_id);
            }
        }
        assert forall|a: int, b: int| 0 <= a < b < gone.len() implies (#[trigger] gone[a]).window.trace_id
            != (#[trigger] gone[b]).window.trace_id by {
            if b < gone_before.len() {
                assert(gone_before[a].window.trace_id != gone_before[b].window.trace_id);
            } else {
                let id = gone[a].window.trace_id;
                assert(gone_before[a].window.trace_id == id);
                assert(has_trace(gone_before, id));
                let k = choose|k: int| 0 <= k < rest.len() && (#[trigger] rest[k]).window.trace_id
                    == id;
                assert(open[k].window.trace_id != open[open.len() - 1].window.trace_id);
            }
        }
    }
}

proof fn lemma_none_ended(open: Seq<OpenTraceView>, watermark: i64)
    requires
        forall|j: int| 0 <= j < open.len() ==> !has_ended(#[trigger] open[j], watermark),
    ensures
        ended(open, watermark) == Seq::<OpenTraceView>::empty(),
        still_open(open, watermark) == open,
    decreases open.len(),
{
    if open.len() > 0 {
        lemma_none_ended(open.drop_last(), watermark);
        assert(open.drop_last().push(open.last()) =~= open);
    } else {
        assert(still_open(open, watermark) =~= open);
    }
}

/// Whether some trace of `open` has ended at `watermark`.
pub open spec fn some_ended(open: Seq<OpenTraceView>, watermark: i64) -> bool {
    exists|j: int| 0 <= j < open.len() && has_ended(#[trigger] open[j], watermark)
}

/// Whether some trace of `open` has ended at `watermark`.
fn any_ended(open: &Vec<OpenTrace>, watermark: i64) -> (r: bool)
    ensures
        r == some_ended(open.deep_view(), watermark),
{
    let mut i: usize = 0;
    while i < open.len()
        invariant
            i <= open.len(),
            forall|j: int| 0 <= j < i ==> !has_ended(#[trigger] open.deep_view()[j], watermark),
        decreases open.len() - i,
    {
        if open[i].window.end_time < watermark {
            assert(has_ended(open.deep_view()[i as int], watermark));
            return true;
        }
        i += 1;
    }
    false
}

/// Takes the traces that have ended at `watermark` out of `open`.
pub fn settle(open: &mut Vec<OpenTrace>, watermark: i64) -> (done: Vec<OpenTrace>)
    ensures
        done.deep_view() == ended(old(open).deep_view(), watermark),
        final(open).deep_view() == still_open(old(open).deep_view(), watermark),
        one_trace_per_id(old(open).deep_view()) ==> one_trace_per_id(final(open).deep_view())
            && one_trace_per_id(done.deep_view()),
{
    let ghost all = open.deep_view();
    proof {
        if one_trace_per_id(all) {
            lemma_settling_keeps_ids(all, watermark);
        }
    }
    let mut done: Vec<OpenTrace> = Vec::new();
    if !any_ended(open, watermark) {
        proof {
            assert forall|j: int| 0 <= j < all.len() implies !has_ended(
                #[trigger] all[j],
                watermark,
            ) by {}
            lemma_none_ended(all, watermark);
            assert(done.deep_view() =~= Seq::<OpenTraceView>::empty());
        }
        return done;
    }
    let n = open.len();
    let mut turned: Vec<OpenTrace> = Vec::new();
    while open.len() > 0
        invariant
            open.len() + turned.len() == n,
            n == all.len(),
            forall|j: int| 0 <= j < open.len() ==> #[trigger] open.deep_view()[j] == all[j],
            forall|j: int|
                0 <= j < turned.len() ==> #[trigger] turned.deep_view()[j] == all[n - 1 - j],
        decreases open.len(),
    {
        let ghost left = open.deep_view();
        let ghost moved = turned.deep_view();
        match open.pop() {
            Some(trace) => {
                let ghost last = trace@;
                assert(last == left[left.len() - 1]);
                turned.push(trace);
                assert(open.deep_view() =~= left.drop_last());
                assert(turned.deep_view() =~= moved.push(last));
                assert forall|j: int| 0 <= j < turned.len() implies #[trigger] turned.deep_view()[j]
                    == all[n - 1 - j] by {
                    if j < moved.len() {
                        assert(moved[j] == all[n - 1 - j]);
                    }
                }
            },
            None => {},
        }
    }
    assert(done.deep_view() =~= ended(all.take(0), watermark));
    assert(open.deep_view() =~= still_open(all.take(0), watermark));
    while turned.len() > 0
        invariant
            turned.len() <= n,
            n == all.len(),
            forall|j: int|
                0 <= j < turned.len() ==> #[trigger] turned.deep_view()[j] == all[n - 1 - j],
            done.deep_view() == ended(all.take(n - turned.len()), watermark),
            open.deep_view() == still_open(all.take(n - turned.len()), watermark),
        decreases turned.len(),
    {
        let ghost k = n - turned.len();
        let ghost moved = turned.deep_view();
        let ghost kept = open.deep_view();
        let ghost gone = done.deep_view();
        match turned.pop() {
            Some(trace) => {
                let ghost next = trace@;
                proof {
                    assert(turned.deep_view() =~= moved.drop_last());
                    assert(next == moved[moved.len() - 1]);
                    assert(next == all[k]);
                    assert forall|j: int| 0 <= j < turned.len() implies #[trigger] turned.deep_view()[j]
                        == all[n - 1 - j] by {
                        assert(moved[j] == all[n - 1 - j]);
                    }
                    assert(all.take(k + 1).drop_last() =~= all.take(k));
                    assert(all.take(k + 1).last() == next);
                }
                if trace.window.end_time < watermark {
                    done.push(trace);
                    assert(done.deep_view() =~= gone.push(next));
                } else {
                    open.push(trace);
                    assert(open.deep_view() =~= kept.push(next));
                }
            },
            None => {},
        }
    }
    proof {
        assert(all.take(n as int) =~= all);
    }
    done
}

/// The line drawn on either side of the time in the header of a group.
pub open spec fn rule() -> Seq<char> {
    "========================="@
}

/// The header of a group: the time the trace took, between two rules.
pub open spec fn header(elapsed: Seq<char>) -> Seq<char> {
    rule() + seq![' '] + elapsed + seq![' '] + rule()
}

/// What ends a group: three line breaks.
pub open spec fn separator() -> Seq<char> {
    seq!['\n', '\n', '\n']
}

/// The text of a group: the header that states the time `took`, the
/// records `lines`, and the separator, joined by line breaks.
pub open spec fn group_of(took: Seq<char>, lines: Seq<Seq<char>>) -> Seq<char> {
    joined(seq![header(took)] + lines + seq![separator()])
}

/// The text of the group of a trace: it states the time from the first
/// record of the trace to its last. `None` where no duration holds the
/// time.
pub open spec fn group_text(t: OpenTraceView) -> Option<Seq<char>> {
    let elapsed = t.window.elapsed();
    if i64::MIN <= elapsed <= i64::MAX {
        match duration_text(elapsed as i64) {
            Some(took) => Some(group_of(took, t.lines)),
            None => None,
        }
    } else {
        None
    }
}

/// Builds the text of a group from the text of the time it took and its
/// records.
pub fn group_with(took: &str, lines: &Vec<String>) -> (r: String)
    ensures
        r@ == group_of(took@, lines.deep_view()),
{
    let mut head = String::from_str("=========================");
    proof {
        reveal_strlit(" ");
        reveal_strlit("\n\n\n");
        assert(" "@ =~= seq![' ']);
        assert("\n\n\n"@ =~= separator());
    }
    head.append(" ");
    head.append(took);
    head.append(" ");
    head.append("=========================");
    assert(head@ =~= header(took@));
    let ghost all = lines.deep_view();
    let mut parts: Vec<String> = Vec::new();
    parts.push(head);
    assert(parts.deep_view() =~= seq![header(took@)] + all.take(0));
    let mut i: usize = 0;
    while i < lines.len()
        invariant
            i <= lines.len(),
            all == lines.deep_view(),
            parts.deep_view() == seq![header(took@)] + all.take(i as int),
        decreases lines.len() - i,
    {
        let ghost before = parts.deep_view();
        parts.push(lines[i].clone());
        assert(parts.deep_view() =~= before.push(all[i as int]));
        assert(before.push(all[i as int]) =~= seq![header(took@)] + all.take(i + 1));
        i += 1;
    }
    let ghost before = parts.deep_view();
    parts.push(String::from_str("\n\n\n"));
    proof {
        assert(all.take(lines.len() as int) =~= all);
        assert(parts.deep_view() =~= before.push(separator()));
        assert(before.push(separator()) =~= seq![header(took@)] + all + seq![separator()]);
    }
    join_lines(&parts)
}

/// Builds the text of the group of `trace`.
pub fn group_lines(trace: &OpenTrace) -> (r: Option<String>)
    ensures
        opt_text(r) == group_text(trace@),
{
    match trace.window.end_time.checked_sub(trace.window.start_time) {
        Some(elapsed) => match elapsed_text(elapsed) {
            Some(took) => Some(group_with(took.as_str(), &trace.lines)),
            None => None,
        },
        None => None,
    }
}

/// The plan after the group of the trace `t` was written to the bucket in
/// which the trace ends. A trace whose time no duration holds stops the
/// plan.
pub open spec fn flush_trace(plan: PlanView, t: OpenTraceView) -> PlanView {
    match group_text(t) {
        Some(text) => plan.write(bucket_key(t.window.end_time as int) as i64, text),
        None => plan.fail(LogError::InvalidDuration),
    }
}

/// The plan after the groups of `traces` were written, in their order.
pub open spec fn flush_traces(plan: PlanView, traces: Seq<OpenTraceView>) -> PlanView
    decreases traces.len(),
{
    if traces.len() == 0 {
        plan
    } else {
        flush_trace(flush_traces(plan, traces.drop_last()), traces.last())
    }
}

/// Once a plan has stopped, the traces that follow change nothing.
pub proof fn lemma_stopped_plan_writes_no_trace(
    plan: PlanView,
    traces: Seq<OpenTraceView>,
    written: int,
)
    requires
        0 <= written <= traces.len(),
        written < traces.len() ==> flush_traces(plan, traces.take(written)).failure is Some,
    ensures
        flush_traces(plan, traces) == flush_traces(plan, traces.take(written)),
    decreases traces.len() - written,
{
    if written < traces.len() {
        assert(traces.take(written + 1).drop_last() =~= traces.take(written));
        lemma_stopped_plan_writes_no_trace(plan, traces, written + 1);
    } else {
        assert(traces.take(written) =~= traces);
    }
}

/// Writes the group of each of `traces` to the bucket in which the trace
/// ends.
pub fn write_long_logs(plan: &mut Plan, traces: &Vec<OpenTrace>)
    ensures
        final(plan)@ == flush_traces(old(plan)@, traces.deep_view()),
{
    let ghost all = traces.deep_view();
    let ghost start = plan@;
    let mut i: usize = 0;
    while i < traces.len() && plan.failure().is_none()
        invariant
            i <= traces.len(),
            all == traces.deep_view(),
            plan@ == flush_traces(start, all.take(i as int)),
        decreases traces.len() - i,
    {
        proof {
            assert(all.take(i + 1).drop_last() =~= all.take(i as int));
        }
        let trace = &traces[i];
        match group_lines(trace) {
            Some(text) => {
                let log_hour = bucket_of(trace.window.end_time);
                plan.write(log_hour, text.as_str());
            },
            None => {
                plan.fail(LogError::InvalidDuration);
            },
        }
        i += 1;
    }
    proof {
        lemma_stopped_plan_writes_no_trace(start, all, i as int);
    }
}

/// The second pass at one record: the record joins its trace; then every
/// trace that has ended at the time of the record is written and leaves the
/// traces that are open.
pub open spec fn absorbed(open: Seq<OpenTraceView>, plan: PlanView, record: TraceRecordView) -> (
    Seq<OpenTraceView>,
    PlanView,
) {
    let held = collected(open, record.trace_id, record.text);
    (still_open(held, record.millis), flush_traces(plan, ended(held, record.millis)))
}

/// Takes one record into the second pass.
pub fn absorb(open: &mut Vec<OpenTrace>, plan: &mut Plan, record: &TraceRecord)
    ensures
        (final(open).deep_view(), final(plan)@) == absorbed(
            old(open).deep_view(),
            old(plan)@,
            record@,
        ),
        one_trace_per_id(old(open).deep_view()) ==> one_trace_per_id(final(open).deep_view()),
{
    collect(open, record.trace_id.as_str(), record.text.as_str());
    let done = settle(open, record.millis);
    write_long_logs(plan, &done);
}

/// The second pass over `stamped`: the traces still open after it, and the
/// plan.
pub open spec fn grouped(open: Seq<OpenTraceView>, plan: PlanView, stamped: Seq<TraceRecordView>) -> (
    Seq<OpenTraceView>,
    PlanView,
)
    decreases stamped.len(),
{
    if stamped.len() == 0 {
        (open, plan)
    } else {
        let before = grouped(open, plan, stamped.drop_last());
        absorbed(before.0, before.1, stamped.last())
    }
}

/// Whether none of the first `count` records is later than the end of the
/// trace `t`.
pub open spec fn outlives(t: OpenTraceView, stamped: Seq<TraceRecordView>, count: int) -> bool {
    forall|j: int| 0 <= j < count && j < stamped.len() ==> (#[trigger] stamped[j]).millis
        <= t.window.end_time
}

/// The trace `t` with the records of its correlation id among `records`
/// added to its own, in their order.
pub open spec fn gathered(t: OpenTraceView, records: Seq<TraceRecordView>) -> OpenTraceView
    decreases records.len(),
{
    if records.len() == 0 {
        t
    } else {
        let before = gathered(t, records.drop_last());
        if records.last().trace_id == t.window.trace_id {
            OpenTraceView { lines: before.lines.push(records.last().text), ..before }
        } else {
            before
        }
    }
}

/// The traces of `open` that none of the first `count` records is later
/// than, each with its records among those.
pub open spec fn survivors(
    open: Seq<OpenTraceView>,
    stamped: Seq<TraceRecordView>,
    count: int,
) -> Seq<OpenTraceView>
    decreases open.len(),
{
    if open.len() == 0 {
        Seq::empty()
    } else {
        let before = survivors(open.drop_last(), stamped, count);
        if outlives(open.last(), stamped, count) {
            before.push(gathered(open.last(), stamped.take(count)))
        } else {
            before
        }
    }
}

/// The traces of `open` for which the record at `at` is the first that is
/// later than their end, each with its records up to that one.
pub open spec fn leavers(open: Seq<OpenTraceView>, stamped: Seq<TraceRecordView>, at: int) -> Seq<
    OpenTraceView,
>
    decreases open.len(),
{
    if open.len() == 0 {
        Seq::empty()
    } else {
        let before = leavers(open.drop_last(), stamped, at);
        if outlives(open.last(), stamped, at) && open.last().window.end_time < stamped[at].millis {
            before.push(gathered(open.last(), stamped.take(at + 1)))
        } else {
            before
        }
    }
}

proof fn lemma_gathered_keeps_window(t: OpenTraceView, records: Seq<TraceRecordView>)
    ensures
        gathered(t, records).window == t.window,
    decreases records.len(),
{
    if records.len() > 0 {
        lemma_gathered_keeps_window(t, records.drop_last());
    }
}

proof fn lemma_step_of_survivors(open: Seq<OpenTraceView>, stamped: Seq<TraceRecordView>, at: int)
    requires
        0 <= at < stamped.len(),
    ensures
        ({
            let held = collected(
                survivors(open, stamped, at),
                stamped[at].trace_id,
                stamped[at].text,
            );
            &&& still_open(held, stamped[at].millis) == survivors(open, stamped, at + 1)
            &&& ended(held, stamped[at].millis) == leavers(open, stamped, at)
        }),
    decreases open.len(),
{
    let record = stamped[at];
    let now = survivors(open, stamped, at);
    let held = collected(now, record.trace_id, record.text);
    if open.len() == 0 {
        assert(held =~= Seq::<OpenTraceView>::empty());
    } else {
        let t = open.last();
        let rest = survivors(open.drop_last(), stamped, at);
        let rest_held = collected(rest, record.trace_id, record.text);
        lemma_step_of_survivors(open.drop_last(), stamped, at);
        assert(outlives(t, stamped, at + 1) <==> outlives(t, stamped, at) && record.millis
            <= t.window.end_time) by {
            if outlives(t, stamped, at) && record.millis <= t.window.end_time {
                assert forall|j: int| 0 <= j < at + 1 && j < stamped.len() implies (
                #[trigger] stamped[j]).millis <= t.window.end_time by {
                    if j < at {
                        assert(stamped[j].millis <= t.window.end_time);
                    }
                }
            }
            if outlives(t, stamped, at + 1) {
                assert(stamped[at].millis <= t.window.end_time);
            }
        }
        if outlives(t, stamped, at) {
            let grown = gathered(t, stamped.take(at + 1));
            lemma_gathered_keeps_window(t, stamped.take(at));
            assert(stamped.take(at + 1).drop_last() =~= stamped.take(at));
            assert(stamped.take(at + 1).last() == record);
            assert(held =~= rest_held.push(grown));
            assert(held.drop_last() =~= rest_held);
            lemma_gathered_keeps_window(t, stamped.take(at + 1));
        } else {
            assert(held == rest_held);
        }
    }
}

/// When traces are written.
///
/// A trace is written at the first record whose timestamp is later than
/// the end of the trace, not before, and then leaves the traces that are
/// open; so it is written once. After `at` records the open traces are
/// those that none of the records was later than, each with its records so
/// far, and the record at `at` writes those whose end it is the first to
/// exceed. A trace that no record is later than, such as one that ends with
/// the last record, is still open after the last record, and is written
/// when the source ends.
pub proof fn lemma_flush_timing(
    open: Seq<OpenTraceView>,
    plan: PlanView,
    stamped: Seq<TraceRecordView>,
    at: int,
)
    requires
        0 <= at <= stamped.len(),
    ensures
        grouped(open, plan, stamped.take(at)).0 == survivors(open, stamped, at),
        at < stamped.len() ==> grouped(open, plan, stamped.take(at + 1)).1 == flush_traces(
            grouped(open, plan, stamped.take(at)).1,
            leavers(open, stamped, at),
        ),
    decreases at,
{
    if at == 0 {
        assert(stamped.take(0) =~= Seq::<TraceRecordView>::empty());
        lemma_survivors_at_start(open, stamped);
    } else {
        lemma_flush_timing(open, plan, stamped, at - 1);
        lemma_step_of_survivors(open, stamped, at - 1);
        assert(stamped.take(at).drop_last() =~= stamped.take(at - 1));
        assert(stamped.take(at).last() == stamped[at - 1]);
    }
    if at < stamped.len() {
        lemma_step_of_survivors(open, stamped, at);
        assert(stamped.take(at + 1).drop_last() =~= stamped.take(at));
        assert(stamped.take(at + 1).last() == stamped[at]);
    }
}

proof fn lemma_survivors_at_start(open: Seq<OpenTraceView>, stamped: Seq<TraceRecordView>)
    ensures
        survivors(open, stamped, 0) == open,
    decreases open.len(),
{
    if open.len() > 0 {
        lemma_survivors_at_start(open.drop_last(), stamped);
        assert(stamped.take(0) =~= Seq::<TraceRecordView>::empty());
    }
    assert(survivors(open, stamped, 0) =~= open);
}

/// The records come in the order of time.
pub open spec fn in_time_order(stamped: Seq<TraceRecordView>) -> bool {
    forall|a: int, b: int|
        0 <= a <= b < stamped.len() ==> (#[trigger] stamped[a]).millis <= (
        #[trigger] stamped[b]).millis
}

proof fn lemma_qualified_are_windows(windows: Seq<LogDurationView>, min_cost_time: i64, i: int)
    requires
        0 <= i < qualified(windows, min_cost_time).len(),
    ensures
        qualified(windows, min_cost_time)[i].lines == Seq::<Seq<char>>::empty(),
        qualified(windows, min_cost_time)[i].window.elapsed() > min_cost_time,
        exists|k: int|
            0 <= k < windows.len() && #[trigger] windows[k] == qualified(
                windows,
                min_cost_time,
            )[i].window,
    decreases windows.len(),
{
    let before = qualified(windows.drop_last(), min_cost_time);
    if i < before.len() {
        lemma_qualified_are_windows(windows.drop_last(), min_cost_time, i);
        let k = choose|k: int|
            0 <= k < windows.drop_last().len() && #[trigger] windows.drop_last()[k]
                == before[i].window;
        assert(windows[k] == before[i].window);
    } else {
        assert(windows[windows.len() - 1] == qualified(windows, min_cost_time)[i].window);
    }
}

proof fn lemma_gathered_stops(t: OpenTraceView, stamped: Seq<TraceRecordView>, count: int)
    requires
        0 <= count <= stamped.len(),
        forall|j: int| count <= j < stamped.len() ==> (#[trigger] stamped[j]).trace_id
            != t.window.trace_id,
    ensures
        gathered(t, stamped) == gathered(t, stamped.take(count)),
    decreases stamped.len() - count,
{
    if count < stamped.len() {
        assert(stamped.take(count + 1).drop_last() =~= stamped.take(count));
        assert(stamped.take(count + 1).last() == stamped[count]);
        lemma_gathered_stops(t, stamped, count + 1);
    } else {
        assert(stamped.take(count) =~= stamped);
    }
}

/// In a stream in the order of time, a trace is whole when it is written.
///
/// When the record at `at` is later than the end of a trace that took long
/// enough to be collected, no record of the trace follows: the window of
/// the trace holds the time of each of its records, and the records from
/// `at` on are later than the window. So the group written at that record,
/// which holds the records of the trace up to it, holds all of them.
pub proof fn lemma_trace_is_whole_when_written(
    stamped: Seq<TraceRecordView>,
    min_cost_time: i64,
    i: int,
    at: int,
)
    requires
        in_time_order(stamped),
        0 <= i < qualified(windows_of(stamped), min_cost_time).len(),
        0 <= at < stamped.len(),
        qualified(windows_of(stamped), min_cost_time)[i].window.end_time < stamped[at].millis,
    ensures
        ({
            let t = qualified(windows_of(stamped), min_cost_time)[i];
            &&& forall|j: int| at <= j < stamped.len() ==> (#[trigger] stamped[j]).trace_id
                != t.window.trace_id
            &&& gathered(t, stamped.take(at + 1)) == gathered(t, stamped)
        }),
{
    let windows = windows_of(stamped);
    let t = qualified(windows, min_cost_time)[i];
    lemma_qualified_are_windows(windows, min_cost_time, i);
    let k = choose|k: int| 0 <= k < windows.len() && #[trigger] windows[k] == t.window;
    assert forall|j: int| at <= j < stamped.len() implies (#[trigger] stamped[j]).trace_id
        != t.window.trace_id by {
        if stamped[j].trace_id == t.window.trace_id {
            lemma_record_lies_in_its_window(stamped, k, j);
            assert(stamped[at].millis <= stamped[j].millis);
        }
    }
    lemma_gathered_stops(t, stamped, at + 1);
}

proof fn lemma_one_window_of_an_id(windows: Seq<LogDurationView>, a: int, b: int)
    requires
        one_window_per_id(windows),
        0 <= a < windows.len(),
        0 <= b < windows.len(),
        windows[a].trace_id == windows[b].trace_id,
    ensures
        a == b,
{
    if a < b {
        assert(windows[a].trace_id != windows[b].trace_id);
    } else if b < a {
        assert(windows[b].trace_id != windows[a].trace_id);
    }
}

/// The time of every record lies in the window of its correlation id.
pub proof fn lemma_record_lies_in_its_window(stamped: Seq<TraceRecordView>, k: int, j: int)
    requires
        0 <= k < windows_of(stamped).len(),
        0 <= j < stamped.len(),
        stamped[j].trace_id == windows_of(stamped)[k].trace_id,
    ensures
        windows_of(stamped)[k].start_time <= stamped[j].millis <= windows_of(stamped)[k].end_time,
{
    let windows = windows_of(stamped);
    lemma_windows_span_records(stamped);
    assert(covered(windows, stamped[j]));
    let c = choose|c: int| 0 <= c < windows.len() && covers(#[trigger] windows[c], stamped[j]);
    lemma_one_window_of_an_id(windows, c, k);
}

/// Once a plan has stopped, the records that follow leave it as it is.
pub proof fn lemma_stopped_plan_takes_no_record(
    open: Seq<OpenTraceView>,
    plan: PlanView,
    stamped: Seq<TraceRecordView>,
    taken: int,
)
    requires
        0 <= taken <= stamped.len(),
        taken < stamped.len() ==> grouped(open, plan, stamped.take(taken)).1.failure is Some,
    ensures
        grouped(open, plan, stamped).1 == grouped(open, plan, stamped.take(taken)).1,
    decreases stamped.len() - taken,
{
    if taken < stamped.len() {
        let before = grouped(open, plan, stamped.take(taken));
        let record = stamped[taken];
        assert(stamped.take(taken + 1).drop_last() =~= stamped.take(taken));
        assert(stamped.take(taken + 1).last() == record);
        let done = ended(collected(before.0, record.trace_id, record.text), record.millis);
        lemma_stopped_plan_writes_no_trace(before.1, done, 0);
        assert(done.take(0) =~= Seq::<OpenTraceView>::empty());
        lemma_stopped_plan_takes_no_record(open, plan, stamped, taken + 1);
    } else {
        assert(stamped.take(taken) =~= stamped);
    }
}

/// What tracing the records of one source comes to. The records that
/// carry a correlation id are read first, and an error among them ends the
/// source before anything is written. Then a sink is opened, the records
/// pass through the traces that took longer than `min_cost_time`, the
/// traces left open at the end are written, and the sink is flushed.
pub open spec fn traced_records(
    texts: Seq<Seq<char>>,
    min_cost_time: i64,
    pattern: Seq<char>,
    format: Seq<char>,
    trace_pattern: Seq<char>,
    name_pattern: Seq<char>,
) -> OutcomeView {
    match stamped_all(trace_pattern, pattern, format, texts) {
        Ok(stamped) => {
            let open = qualified(windows_of(stamped), min_cost_time);
            let run = grouped(open, PlanView::open(name_pattern, 0), stamped);
            flush_traces(run.1, run.0).flush().outcome()
        },
        Err(e) => OutcomeView { actions: Seq::empty(), failure: Some(e) },
    }
}

/// What tracing one source comes to: the lines of the source are
/// reassembled into records, and the records are traced.
pub open spec fn traced_file(
    lines: Seq<Seq<char>>,
    min_cost_time: i64,
    pattern: Seq<char>,
    format: Seq<char>,
    trace_pattern: Seq<char>,
    name_pattern: Seq<char>,
) -> OutcomeView {
    traced_records(
        records(pattern, lines),
        min_cost_time,
        pattern,
        format,
        trace_pattern,
        name_pattern,
    )
}

/// The state of the first pass over a source.
pub struct FirstPassView {
    /// The trace pattern.
    pub trace: Seq<char>,
    /// The start pattern.
    pub pattern: Seq<char>,
    /// The time format.
    pub format: Seq<char>,
    /// The windows found so far.
    pub windows: Seq<LogDurationView>,
    /// The error that ended the pass.
    pub failure: Option<LogError>,
}

impl FirstPassView {
    /// The pass before its first record.
    pub open spec fn begin(trace: Seq<char>, pattern: Seq<char>, format: Seq<char>) -> FirstPassView {
        FirstPassView { trace, pattern, format, windows: Seq::empty(), failure: None }
    }

    /// The pass after the record `text`: the window of its correlation id
    /// takes in its time. A record with an id and without a readable
    /// timestamp ends the pass, and a pass that has ended takes no record.
    pub open spec fn took(self, text: Seq<char>) -> FirstPassView {
        if self.failure is Some {
            self
        } else {
            match stamped(self.trace, self.pattern, self.format, text) {
                Ok(Some(record)) => FirstPassView {
                    windows: observed(self.windows, record.trace_id, record.millis),
                    ..self
                },
                Ok(None) => self,
                Err(e) => FirstPassView { failure: Some(e), ..self },
            }
        }
    }

    /// The pass after the records `texts`, in their order.
    pub open spec fn took_all(self, texts: Seq<Seq<char>>) -> FirstPassView
        decreases texts.len(),
    {
        if texts.len() == 0 {
            self
        } else {
            self.took_all(texts.drop_last()).took(texts.last())
        }
    }

    /// The second pass that follows: it collects the traces that took more
    /// than `min_cost_time` and opens a sink. After a first pass that an
    /// error ended, the second pass is stopped by that error before a sink
    /// is opened.
    pub open spec fn second(self, min_cost_time: i64, name_pattern: Seq<char>) -> SecondPassView {
        match self.failure {
            Some(e) => SecondPassView {
                trace: self.trace,
                pattern: self.pattern,
                format: self.format,
                open: Seq::empty(),
                plan: PlanView::stopped(e),
            },
            None => SecondPassView {
                trace: self.trace,
                pattern: self.pattern,
                format: self.format,
                open: qualified(self.windows, min_cost_time),
                plan: PlanView::open(name_pattern, 0),
            },
        }
    }
}

/// The state of the second pass over a source.
pub struct SecondPassView {
    /// The trace pattern.
    pub trace: Seq<char>,
    /// The start pattern.
    pub pattern: Seq<char>,
    /// The time format.
    pub format: Seq<char>,
    /// The traces that are being collected.
    pub open: Seq<OpenTraceView>,
    /// The plan so far.
    pub plan: PlanView,
}

impl SecondPassView {
    /// The pass after the record `text`: a record with a correlation id
    /// joins its trace and writes the traces that have ended at its time.
    /// A pass whose plan has stopped takes no record.
    pub open spec fn took(self, text: Seq<char>) -> SecondPassView {
        if self.plan.failure is Some {
            self
        } else {
            match stamped(self.trace, self.pattern, self.format, text) {
                Ok(Some(record)) => SecondPassView {
                    open: absorbed(self.open, self.plan, record).0,
                    plan: absorbed(self.open, self.plan, record).1,
                    ..self
                },
                Ok(None) => self,
                Err(e) => SecondPassView { plan: self.plan.fail(e), ..self },
            }
        }
    }

    /// The pass after the records `texts`, in their order.
    pub open spec fn took_all(self, texts: Seq<Seq<char>>) -> SecondPassView
        decreases texts.len(),
    {
        if texts.len() == 0 {
            self
        } else {
            self.took_all(texts.drop_last()).took(texts.last())
        }
    }

    /// What the pass comes to when the source has ended: the traces still
    /// open are written, and the sink is flushed.
    pub open spec fn finished(self) -> OutcomeView {
        flush_traces(self.plan, self.open).flush().outcome()
    }
}

proof fn lemma_first_pass(
    trace: Seq<char>,
    pattern: Seq<char>,
    format: Seq<char>,
    texts: Seq<Seq<char>>,
)
    ensures
        ({
            let pass = FirstPassView::begin(trace, pattern, format).took_all(texts);
            &&& pass.trace == trace
            &&& pass.pattern == pattern
            &&& pass.format == format
            &&& match stamped_all(trace, pattern, format, texts) {
                Ok(stamped) => pass.failure is None && pass.windows == windows_of(stamped),
                Err(e) => pass.failure == Some(e),
            }
        }),
    decreases texts.len(),
{
    if texts.len() > 0 {
        lemma_first_pass(trace, pattern, format, texts.drop_last());
        match stamped_all(trace, pattern, format, texts.drop_last()) {
            Ok(before) => {
                match stamped(trace, pattern, format, texts.last()) {
                    Ok(Some(record)) => {
                        assert(before.push(record).drop_last() =~= before);
                    },
                    _ => {},
                }
            },
            Err(e) => {},
        }
    }
}

proof fn lemma_stopped_second_pass_stays(pass: SecondPassView, texts: Seq<Seq<char>>)
    requires
        pass.plan.failure is Some,
    ensures
        pass.took_all(texts) == pass,
    decreases texts.len(),
{
    if texts.len() > 0 {
        lemma_stopped_second_pass_stays(pass, texts.drop_last());
    }
}

proof fn lemma_second_pass(pass: SecondPassView, texts: Seq<Seq<char>>)
    requires
        stamped_all(pass.trace, pass.pattern, pass.format, texts) is Ok,
    ensures
        ({
            let stamped = stamped_all(pass.trace, pass.pattern, pass.format, texts)->Ok_0;
            let after = pass.took_all(texts);
            let run = grouped(pass.open, pass.plan, stamped);
            &&& after.trace == pass.trace
            &&& after.pattern == pass.pattern
            &&& after.format == pass.format
            &&& after.plan == run.1
            &&& after.plan.failure is None ==> after.open == run.0
        }),
    decreases texts.len(),
{
    if texts.len() > 0 {
        let before = texts.drop_last();
        lemma_second_pass(pass, before);
        let stamped_before = stamped_all(pass.trace, pass.pattern, pass.format, before)->Ok_0;
        let was = pass.took_all(before);
        let run = grouped(pass.open, pass.plan, stamped_before);
        match stamped(pass.trace, pass.pattern, pass.format, texts.last()) {
            Ok(Some(record)) => {
                assert(stamped_before.push(record).drop_last() =~= stamped_before);
                if was.plan.failure is Some {
                    let done = ended(collected(run.0, record.trace_id, record.text), record.millis);
                    lemma_stopped_plan_writes_no_trace(run.1, done, 0);
                    assert(done.take(0) =~= Seq::<OpenTraceView>::empty());
                }
            },
            _ => {},
        }
    }
}

/// The two passes trace the source: a first pass over the records of a
/// source, the second pass that follows it over the same records, and its
/// end come to what tracing the records comes to.
pub proof fn lemma_passes_trace_the_records(
    texts: Seq<Seq<char>>,
    min_cost_time: i64,
    pattern: Seq<char>,
    format: Seq<char>,
    trace_pattern: Seq<char>,
    name_pattern: Seq<char>,
)
    ensures
        FirstPassView::begin(trace_pattern, pattern, format).took_all(texts).second(
            min_cost_time,
            name_pattern,
        ).took_all(texts).finished() == traced_records(
            texts,
            min_cost_time,
            pattern,
            format,
            trace_pattern,
            name_pattern,
        ),
{
    let first = FirstPassView::begin(trace_pattern, pattern, format).took_all(texts);
    let second = first.second(min_cost_time, name_pattern);
    let after = second.took_all(texts);
    lemma_first_pass(trace_pattern, pattern, format, texts);
    match stamped_all(trace_pattern, pattern, format, texts) {
        Ok(stamped) => {
            lemma_second_pass(second, texts);
            let run = grouped(second.open, second.plan, stamped);
            if after.plan.failure is Some {
                lemma_stopped_plan_writes_no_trace(after.plan, after.open, 0);
                lemma_stopped_plan_writes_no_trace(after.plan, run.0, 0);
                assert(after.open.take(0) =~= run.0.take(0));
            }
        },
        Err(e) => {
            lemma_stopped_second_pass_stays(second, texts);
            assert(flush_traces(second.plan, second.open) == second.plan);
        },
    }
}

/// What tracing the sources comes to, one after the other.
pub open spec fn traced_files(
    files: Seq<LogSourceView>,
    min_cost_time: i64,
    pattern: Seq<char>,
    format: Seq<char>,
    trace_pattern: Seq<char>,
    name_pattern: Seq<char>,
) -> OutcomeView
    decreases files.len(),
{
    if files.len() == 0 {
        OutcomeView { actions: Seq::empty(), failure: None }
    } else {
        traced_files(
            files.drop_last(),
            min_cost_time,
            pattern,
            format,
            trace_pattern,
            name_pattern,
        ).followed_by(
            traced_file(
                files.last().lines,
                min_cost_time,
                pattern,
                format,
                trace_pattern,
                name_pattern,
            ),
        )
    }
}

/// What tracing comes to: both patterns have to compile; then each source
/// is traced by itself.
pub open spec fn traced(
    files: Seq<LogSourceView>,
    min_cost_time: i64,
    pattern: Seq<char>,
    format: Seq<char>,
    trace_pattern: Seq<char>,
    name_pattern: Seq<char>,
) -> OutcomeView {
    if regex_compiles(trace_pattern) && regex_compiles(pattern) {
        traced_files(files, min_cost_time, pattern, format, trace_pattern, name_pattern)
    } else {
        OutcomeView { actions: Seq::empty(), failure: Some(LogError::InvalidPattern) }
    }
}

/// The first pass over a source: it takes the records of the source one by
/// one and finds the window of every correlation id.
pub struct FirstPass {
    trace: Pattern,
    start: Pattern,
    format: String,
    windows: Vec<LogDuration>,
    failure: Option<LogError>,
}

impl View for FirstPass {
    type V = FirstPassView;

    closed spec fn view(&self) -> FirstPassView {
        FirstPassView {
            trace: self.trace@,
            pattern: self.start@,
            format: self.format@,
            windows: self.windows.deep_view(),
            failure: self.failure,
        }
    }
}

impl FirstPass {
    /// A first pass with the trace pattern `trace`, the start pattern
    /// `start` and the time format `log_time_format`.
    pub fn new(trace: Pattern, start: Pattern, log_time_format: &str) -> (r: FirstPass)
        ensures
            r@ == FirstPassView::begin(trace@, start@, log_time_format@),
    {
        let windows: Vec<LogDuration> = Vec::new();
        assert(windows.deep_view() =~= Seq::empty());
        FirstPass { trace, start, format: log_time_format.to_owned(), windows, failure: None }
    }

    /// Takes the next record of the source.
    pub fn take(&mut self, record: &str)
        ensures
            final(self)@ == old(self)@.took(record@),
    {
        if self.failure.is_some() {
            return ;
        }
        match stamp(&self.trace, &self.start, self.format.as_str(), record) {
            Ok(Some(found)) => {
                observe(&mut self.windows, found.trace_id.as_str(), found.millis);
            },
            Ok(None) => {},
            Err(e) => {
                self.failure = Some(e);
            },
        }
    }

    /// The error that ended the pass.
    pub fn failure(&self) -> (r: Option<LogError>)
        ensures
            r == self@.failure,
    {
        self.failure
    }

    /// The number of windows found so far.
    pub fn found(&self) -> (r: usize)
        ensures
            r == self@.windows.len(),
    {
        self.windows.len()
    }

    /// Ends the first pass at the end of the source and begins the second,
    /// which is to take the same records again.
    pub fn second(self, min_cost_time: i64, output_file_pattern: &str) -> (r: SecondPass)
        ensures
            r@ == self@.second(min_cost_time, output_file_pattern@),
    {
        match self.failure {
            Some(e) => {
                let open: Vec<OpenTrace> = Vec::new();
                assert(open.deep_view() =~= Seq::empty());
                SecondPass {
                    trace: self.trace,
                    start: self.start,
                    format: self.format,
                    open,
                    plan: Plan::stopped(e),
                }
            },
            None => SecondPass {
                trace: self.trace,
                start: self.start,
                format: self.format,
                open: long_traces(&self.windows, min_cost_time),
                plan: Plan::open(output_file_pattern, 0),
            },
        }
    }
}

/// The second pass over a source: it takes the records of the source one
/// by one again, collects those of the long traces, and writes each trace
/// when it has ended.
pub struct SecondPass {
    trace: Pattern,
    start: Pattern,
    format: String,
    open: Vec<OpenTrace>,
    plan: Plan,
}

impl View for SecondPass {
    type V = SecondPassView;

    closed spec fn view(&self) -> SecondPassView {
        SecondPassView {
            trace: self.trace@,
            pattern: self.start@,
            format: self.format@,
            open: self.open.deep_view(),
            plan: self.plan@,
        }
    }
}

impl SecondPass {
    /// Takes the next record of the source.
    pub fn take(&mut self, record: &str)
        ensures
            final(self)@ == old(self)@.took(record@),
    {
        if self.plan.failure().is_some() {
            return ;
        }
        match stamp(&self.trace, &self.start, self.format.as_str(), record) {
            Ok(Some(found)) => {
                absorb(&mut self.open, &mut self.plan, &found);
            },
            Ok(None) => {},
            Err(e) => {
                self.plan.fail(e);
            },
        }
    }

    /// The failure that stopped the pass.
    pub fn failure(&self) -> (r: Option<LogError>)
        ensures
            r == self@.plan.failure,
    {
        self.plan.failure()
    }

    /// The number of traces that are being collected.
    pub fn collecting(&self) -> (r: usize)
        ensures
            r == self@.open.len(),
    {
        self.open.len()
    }

    /// Takes the actions gathered so far out of the plan.
    pub fn take_actions(&mut self) -> (r: Vec<SinkAction>)
        ensures
            r.deep_view() == old(self)@.plan.actions,
            final(self)@ == (SecondPassView { plan: old(self)@.plan.drained(), ..old(self)@ }),
    {
        self.plan.take_actions()
    }

    /// Ends the pass at the end of the source: writes the traces that are
    /// still open and flushes the sink.
    pub fn finish(self) -> (r: Outcome)
        ensures
            r@ == self@.finished(),
    {
        let mut plan = self.plan;
        write_long_logs(&mut plan, &self.open);
        plan.flush();
        plan.finish()
    }
}

/// Traces one source: finds the correlation ids whose records span more
/// than `min_cost_time` milliseconds and plans the writing of the records
/// of each as one group. The records of the source pass through a first
/// and a second pass.
pub fn trace_file(
    lines: &Vec<String>,
    min_cost_time: i64,
    pattern: &Pattern,
    log_time_format: &str,
    trace: &Pattern,
    output_file_pattern: &str,
) -> (r: Outcome)
    ensures
        r@ == traced_file(
            lines.deep_view(),
            min_cost_time,
            pattern@,
            log_time_format@,
            trace@,
            output_file_pattern@,
        ),
{
    let records = WrappedFileReader::reassemble(pattern, lines);
    let ghost texts = records.deep_view();
    let mut first = FirstPass::new(trace.duplicate(), pattern.duplicate(), log_time_format);
    let ghost begun = first@;
    let mut i: usize = 0;
    while i < records.len()
        invariant
            i <= records.len(),
            texts == records.deep_view(),
            first@ == begun.took_all(texts.take(i as int)),
        decreases records.len() - i,
    {
        proof {
            assert(texts.take(i + 1).drop_last() =~= texts.take(i as int));
        }
        first.take(records[i].as_str());
        i += 1;
    }
    let mut second = first.second(min_cost_time, output_file_pattern);
    let ghost again = second@;
    let mut j: usize = 0;
    while j < records.len()
        invariant
            j <= records.len(),
            texts == records.deep_view(),
            second@ == again.took_all(texts.take(j as int)),
        decreases records.len() - j,
    {
        proof {
            assert(texts.take(j + 1).drop_last() =~= texts.take(j as int));
        }
        second.take(records[j].as_str());
        j += 1;
    }
    proof {
        assert(texts.take(records.len() as int) =~= texts);
        lemma_passes_trace_the_records(
            texts,
            min_cost_time,
            pattern@,
            log_time_format@,
            trace@,
            output_file_pattern@,
        );
    }
    second.finish()
}

/// Traces each of `files` by itself, one after the other, and stops at the
/// first failure.
pub fn trace_log(
    files: &Vec<LogSource>,
    min_cost_time: i64,
    pattern: &str,
    log_time_format: &str,
    trace_pattern: &str,
    output_file_pattern: &str,
) -> (r: Outcome)
    ensures
        r@ == traced(
            files.deep_view(),
            min_cost_time,
            pattern@,
            log_time_format@,
            trace_pattern@,
            output_file_pattern@,
        ),
{
    let trace = match Pattern::new(trace_pattern) {
        Some(trace) => trace,
        None => {
            return Outcome::failed(LogError::InvalidPattern);
        },
    };
    let start = match Pattern::new(pattern) {
        Some(start) => start,
        None => {
            return Outcome::failed(LogError::InvalidPattern);
        },
    };
    let ghost all = files.deep_view();
    let mut outcome = Outcome::new();
    let mut i: usize = 0;
    while i < files.len()
        invariant
            i <= files.len(),
            all == files.deep_view(),
            start@ == pattern@,
            trace@ == trace_pattern@,
            outcome@ == traced_files(
                all.take(i as int),
                min_cost_time,
                pattern@,
                log_time_format@,
                trace_pattern@,
                output_file_pattern@,
            ),
        decreases files.len() - i,
    {
        proof {
            assert(all.take(i + 1).drop_last() =~= all.take(i as int));
        }
        if outcome.failure.is_none() {
            let next = trace_file(
                &files[i].lines,
                min_cost_time,
                &start,
                log_time_format,
                &trace,
                output_file_pattern,
            );
            outcome.extend(next);
        }
        i += 1;
    }
    proof {
        assert(all.take(files.len() as int) =~= all);
    }
    outcome
}

} // verus!

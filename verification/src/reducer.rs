//! The chronological merge: many sources of records, each in order, become
//! one stream in order.

use crate::clock::{bucket_key, bucket_of, read_millis, record_millis};
use crate::models::line::{LogError, LogLine, LogLineView};
use crate::models::plan::{Outcome, OutcomeView, Plan, PlanView};
use crate::models::reader::{records, WrappedFileReader};
use crate::models::store::{
    lemma_opening_asks_for_no_text, lemma_texts_asked_concat, lemma_write_asks_for_its_text,
    texts_asked,
};
use crate::models::writer::{destination_name, SinkAction};
use crate::pattern::{regex_compiles, Pattern};
use crate::text::{lemma_bytes_le_reflexive, lemma_bytes_le_transitive, text_le};
use vstd::prelude::*;
use vstd::string::*;
use vstd::utf8::encode_utf8;

verus! {

/// A named source and its lines or records, held in memory.
#[derive(Debug, Clone, PartialEq, Eq)]
pub struct LogSource {
    pub name: String,
    pub lines: Vec<String>,
}

/// The mathematical content of a [`LogSource`].
pub struct LogSourceView {
    pub name: Seq<char>,
    pub lines: Seq<Seq<char>>,
}

impl View for LogSource {
    type V = LogSourceView;

    open spec fn view(&self) -> LogSourceView {
        LogSourceView { name: self.name@, lines: self.lines.deep_view() }
    }
}

impl DeepView for LogSource {
    type V = LogSourceView;

    open spec fn deep_view(&self) -> LogSourceView {
        self@
    }
}

/// The record at position `at` of the source `s`, with the source's name.
pub open spec fn record_at(sources: Seq<LogSourceView>, s: int, at: int) -> LogLineView {
    LogLineView { file: sources[s].name, line: sources[s].lines[at] }
}

/// `text` is a least one among the next records of the sources: it precedes
/// or equals the record at the cursor of every source that has one left.
pub open spec fn least_among(
    sources: Seq<LogSourceView>,
    cursors: Seq<int>,
    text: Seq<char>,
) -> bool {
    forall|s: int|
        #![trigger cursors[s]]
        0 <= s < sources.len() && 0 <= cursors[s] < sources[s].lines.len() ==> text_le(
            text,
            sources[s].lines[cursors[s]],
        )
}

/// `out` is what a merge has sent out when it has taken `cursors[s]`
/// records from each source `s`, and `origin` names the source of each
/// record of `out`: every record sent out was the next one of its source,
/// and a least one among the next records of all sources.
pub open spec fn merge_run(
    sources: Seq<LogSourceView>,
    cursors: Seq<int>,
    out: Seq<LogLineView>,
    origin: Seq<int>,
) -> bool
    decreases out.len(),
{
    &&& cursors.len() == sources.len()
    &&& origin.len() == out.len()
    &&& if out.len() == 0 {
        forall|s: int| 0 <= s < cursors.len() ==> cursors[s] == 0
    } else {
        let s = origin.last();
        let before = cursors.update(s, cursors[s] - 1);
        &&& 0 <= s < sources.len()
        &&& 0 < cursors[s] <= sources[s].lines.len()
        &&& out.last() == record_at(sources, s, cursors[s] - 1)
        &&& least_among(sources, before, out.last().line)
        &&& merge_run(sources, before, out.drop_last(), origin.drop_last())
    }
}

/// The number of records of each source.
pub open spec fn lengths(sources: Seq<LogSourceView>) -> Seq<int> {
    Seq::new(sources.len(), |s: int| sources[s].lines.len() as int)
}

/// `out` is a merge of `sources`: a run that has taken every record of
/// every source. Which of two equal records comes first is left open.
pub open spec fn is_merge(sources: Seq<LogSourceView>, out: Seq<LogLineView>) -> bool {
    exists|origin: Seq<int>| merge_run(sources, lengths(sources), out, origin)
}

/// The number of records that are still to be taken when `cursors[s]`
/// records of each source `s` were taken.
pub open spec fn pending(lengths: Seq<int>, cursors: Seq<int>) -> int
    decreases lengths.len(),
{
    if lengths.len() == 0 || cursors.len() != lengths.len() {
        0
    } else {
        pending(lengths.drop_last(), cursors.drop_last()) + lengths.last() - cursors.last()
    }
}

proof fn lemma_pending_bounds(lengths: Seq<int>, cursors: Seq<int>)
    requires
        cursors.len() == lengths.len(),
        forall|s: int| 0 <= s < lengths.len() ==> cursors[s] <= lengths[s],
    ensures
        pending(lengths, cursors) >= 0,
    decreases lengths.len(),
{
    if lengths.len() > 0 {
        lemma_pending_bounds(lengths.drop_last(), cursors.drop_last());
    }
}

proof fn lemma_pending_step(lengths: Seq<int>, cursors: Seq<int>, s: int)
    requires
        cursors.len() == lengths.len(),
        0 <= s < lengths.len(),
    ensures
        pending(lengths, cursors.update(s, cursors[s] + 1)) == pending(lengths, cursors) - 1,
    decreases lengths.len(),
{
    let moved = cursors.update(s, cursors[s] + 1);
    if s == lengths.len() - 1 {
        assert(moved.drop_last() =~= cursors.drop_last());
    } else {
        lemma_pending_step(lengths.drop_last(), cursors.drop_last(), s);
        assert(moved.drop_last() =~= cursors.drop_last().update(s, cursors[s] + 1));
    }
}

/// The texts never decrease from one position to a later one.
pub open spec fn non_decreasing(texts: Seq<Seq<char>>) -> bool {
    forall|i: int, j: int| 0 <= i <= j < texts.len() ==> text_le(texts[i], texts[j])
}

/// The texts of a stream of records.
pub open spec fn texts_of(out: Seq<LogLineView>) -> Seq<Seq<char>> {
    out.map_values(|record: LogLineView| record.line)
}

proof fn lemma_run_in_order(
    sources: Seq<LogSourceView>,
    cursors: Seq<int>,
    out: Seq<LogLineView>,
    origin: Seq<int>,
)
    requires
        merge_run(sources, cursors, out, origin),
        forall|s: int| 0 <= s < sources.len() ==> non_decreasing(#[trigger] sources[s].lines),
    ensures
        non_decreasing(texts_of(out)),
        forall|k: int| 0 <= k < out.len() ==> least_among(sources, cursors, #[trigger] out[k].line),
    decreases out.len(),
{
    if out.len() > 0 {
        let s = origin.last();
        let before = cursors.update(s, cursors[s] - 1);
        let sent = out.drop_last();
        let last = out.last().line;
        lemma_run_in_order(sources, before, sent, origin.drop_last());
        assert(sources[s].lines[before[s]] == last);
        assert forall|k: int| 0 <= k < out.len() implies text_le(
            #[trigger] out[k].line,
            last,
        ) by {
            if k < out.len() - 1 {
                assert(least_among(sources, before, sent[k].line));
            } else {
                lemma_bytes_le_reflexive(encode_utf8(last));
            }
        }
        assert forall|k: int| 0 <= k < out.len() implies least_among(
            sources,
            cursors,
            #[trigger] out[k].line,
        ) by {
            assert forall|t: int|
                #![trigger cursors[t]]
                0 <= t < sources.len() && 0 <= cursors[t] < sources[t].lines.len() implies text_le(
                out[k].line,
                sources[t].lines[cursors[t]],
            ) by {
                let next = sources[t].lines[cursors[t]];
                if t == s {
                    assert(non_decreasing(sources[s].lines));
                    assert(text_le(last, next));
                } else {
                    assert(before[t] == cursors[t]);
                    assert(text_le(last, next));
                }
                lemma_bytes_le_transitive(
                    encode_utf8(out[k].line),
                    encode_utf8(last),
                    encode_utf8(next),
                );
            }
        }
        assert forall|i: int, j: int| 0 <= i <= j < out.len() implies text_le(
            texts_of(out)[i],
            texts_of(out)[j],
        ) by {
            if j < out.len() - 1 {
                assert(text_le(texts_of(sent)[i], texts_of(sent)[j]));
            }
        }
    }
}

/// Merging sources that are each in order gives a stream in order: no
/// record of the output precedes one before it.
pub proof fn lemma_merge_in_order(sources: Seq<LogSourceView>, out: Seq<LogLineView>)
    requires
        is_merge(sources, out),
        forall|s: int| 0 <= s < sources.len() ==> non_decreasing(#[trigger] sources[s].lines),
    ensures
        non_decreasing(texts_of(out)),
{
    let origin = choose|origin: Seq<int>| merge_run(sources, lengths(sources), out, origin);
    lemma_run_in_order(sources, lengths(sources), out, origin);
}

proof fn lemma_run_of_one(
    sources: Seq<LogSourceView>,
    cursors: Seq<int>,
    out: Seq<LogLineView>,
    origin: Seq<int>,
)
    requires
        sources.len() == 1,
        merge_run(sources, cursors, out, origin),
    ensures
        out.len() == cursors[0],
        forall|k: int| 0 <= k < out.len() ==> #[trigger] out[k] == record_at(sources, 0, k),
    decreases out.len(),
{
    if out.len() > 0 {
        let before = cursors.update(0, cursors[0] - 1);
        lemma_run_of_one(sources, before, out.drop_last(), origin.drop_last());
        assert forall|k: int| 0 <= k < out.len() implies #[trigger] out[k] == record_at(
            sources,
            0,
            k,
        ) by {
            if k < out.len() - 1 {
                assert(out.drop_last()[k] == out[k]);
            }
        }
    }
}

/// Merging a single source changes nothing: the output is the records of
/// the source, in their order.
pub proof fn lemma_merge_of_one_source(sources: Seq<LogSourceView>, out: Seq<LogLineView>)
    requires
        sources.len() == 1,
        is_merge(sources, out),
    ensures
        texts_of(out) == sources[0].lines,
        forall|k: int| 0 <= k < out.len() ==> (#[trigger] out[k]).file == sources[0].name,
{
    let origin = choose|origin: Seq<int>| merge_run(sources, lengths(sources), out, origin);
    lemma_run_of_one(sources, lengths(sources), out, origin);
    assert(texts_of(out) =~= sources[0].lines);
}

proof fn lemma_run_counts(
    sources: Seq<LogSourceView>,
    cursors: Seq<int>,
    out: Seq<LogLineView>,
    origin: Seq<int>,
)
    requires
        merge_run(sources, cursors, out, origin),
    ensures
        forall|s: int| 0 <= s < sources.len() ==> 0 <= #[trigger] cursors[s] <= sources[s].lines.len(),
        out.len() + pending(lengths(sources), cursors) == pending(
            lengths(sources),
            Seq::new(sources.len(), |s: int| 0int),
        ),
    decreases out.len(),
{
    let zero = Seq::new(sources.len(), |s: int| 0int);
    if out.len() > 0 {
        let s = origin.last();
        let before = cursors.update(s, cursors[s] - 1);
        lemma_run_counts(sources, before, out.drop_last(), origin.drop_last());
        lemma_pending_step(lengths(sources), before, s);
        assert(before.update(s, before[s] + 1) =~= cursors);
    } else {
        assert(cursors =~= zero);
    }
}

/// The number of records that the sources hold.
pub open spec fn record_count(sources: Seq<LogSourceView>) -> int {
    pending(lengths(sources), Seq::new(sources.len(), |s: int| 0int))
}

/// A merge sends out as many records as the sources hold: none is lost and
/// none is sent twice.
pub proof fn lemma_merge_keeps_count(sources: Seq<LogSourceView>, out: Seq<LogLineView>)
    requires
        is_merge(sources, out),
    ensures
        out.len() == record_count(sources),
{
    let origin = choose|origin: Seq<int>| merge_run(sources, lengths(sources), out, origin);
    lemma_run_counts(sources, lengths(sources), out, origin);
    lemma_pending_done(lengths(sources));
}

proof fn lemma_pending_done(lengths: Seq<int>)
    ensures
        pending(lengths, lengths) == 0,
    decreases lengths.len(),
{
    if lengths.len() > 0 {
        lemma_pending_done(lengths.drop_last());
    }
}

/// The slot of one source in the working set of a merge.
#[derive(Debug)]
pub enum Slot {
    /// The next record of the source has to be supplied.
    Waiting,
    /// The next record of the source, not yet sent out.
    Ready(LogLine),
    /// The source has no record left.
    Closed,
}

/// The mathematical content of a [`Slot`].
pub enum SlotView {
    Waiting,
    Ready(LogLineView),
    Closed,
}

impl View for Slot {
    type V = SlotView;

    open spec fn view(&self) -> SlotView {
        match *self {
            Slot::Waiting => SlotView::Waiting,
            Slot::Ready(head) => SlotView::Ready(head@),
            Slot::Closed => SlotView::Closed,
        }
    }
}

impl DeepView for Slot {
    type V = SlotView;

    open spec fn deep_view(&self) -> SlotView {
        self@
    }
}

/// What a merge does next.
#[derive(Debug)]
pub enum MergeStep {
    /// The next record of the source with this slot has to be supplied, or
    /// the end of the source.
    Need(usize),
    /// This record, of the source with this slot, is sent out.
    Send(usize, LogLine),
    /// Every source has ended and every record was sent out.
    Done,
}

/// The slot after the next record of its source, or the end of the source,
/// was supplied.
pub open spec fn supplied(head: Option<LogLineView>) -> SlotView {
    match head {
        Some(line) => SlotView::Ready(line),
        None => SlotView::Closed,
    }
}

/// The record of an optional line.
pub open spec fn head_view(head: Option<LogLine>) -> Option<LogLineView> {
    match head {
        Some(line) => Some(line@),
        None => None,
    }
}

/// The number of slots that wait for a record.
pub open spec fn waiting(slots: Seq<SlotView>) -> int
    decreases slots.len(),
{
    if slots.len() == 0 {
        0
    } else if slots.last() is Waiting {
        waiting(slots.drop_last()) + 1
    } else {
        waiting(slots.drop_last())
    }
}

proof fn lemma_waiting_update(slots: Seq<SlotView>, at: int, slot: SlotView)
    requires
        0 <= at < slots.len(),
    ensures
        waiting(slots.update(at, slot)) == waiting(slots) - (if slots[at] is Waiting {
            1int
        } else {
            0int
        }) + (if slot is Waiting {
            1int
        } else {
            0int
        }),
    decreases slots.len(),
{
    let new = slots.update(at, slot);
    if at == slots.len() - 1 {
        assert(new.drop_last() =~= slots.drop_last());
    } else {
        lemma_waiting_update(slots.drop_last(), at, slot);
        assert(new.drop_last() =~= slots.drop_last().update(at, slot));
    }
}

proof fn lemma_waiting_bounds(slots: Seq<SlotView>)
    ensures
        waiting(slots) >= 0,
    decreases slots.len(),
{
    if slots.len() > 0 {
        lemma_waiting_bounds(slots.drop_last());
    }
}

/// The working set of a merge: for each source a slot. The merge says, step
/// by step, what it does next: it asks for the next record of a source
/// whose slot waits, and once no slot waits it sends out a least one of
/// the records that are ready.
pub struct MergeEngine {
    slots: Vec<Slot>,
}

impl View for MergeEngine {
    type V = Seq<SlotView>;

    closed spec fn view(&self) -> Seq<SlotView> {
        self.slots.deep_view()
    }
}

impl MergeEngine {
    /// A working set for `sources` sources: every slot waits.
    pub fn new(sources: usize) -> (r: MergeEngine)
        ensures
            r@.len() == sources,
            forall|s: int| 0 <= s < sources ==> r@[s] is Waiting,
    {
        let mut slots: Vec<Slot> = Vec::new();
        let mut s: usize = 0;
        while s < sources
            invariant
                s <= sources,
                slots.len() == s,
                forall|j: int| 0 <= j < s ==> slots.deep_view()[j] is Waiting,
            decreases sources - s,
        {
            let ghost filled = slots.deep_view();
            slots.push(Slot::Waiting);
            assert(slots.deep_view() =~= filled.push(SlotView::Waiting));
            s += 1;
        }
        MergeEngine { slots }
    }

    /// The number of slots.
    pub fn slots(&self) -> (r: usize)
        ensures
            r == self@.len(),
    {
        self.slots.len()
    }

    /// Supplies what the merge asked for: `head`, the next record of the
    /// source with the slot `slot`, or `None` at the end of the source.
    /// Returns `false`, and changes nothing, where no such slot waits.
    pub fn supply(&mut self, slot: usize, head: Option<LogLine>) -> (r: bool)
        ensures
            r == (slot < old(self)@.len() && old(self)@[slot as int] is Waiting),
            r ==> final(self)@ == old(self)@.update(slot as int, supplied(head_view(head))),
            !r ==> final(self)@ == old(self)@,
    {
        if slot >= self.slots.len() {
            return false;
        }
        match &self.slots[slot] {
            Slot::Waiting => {},
            _ => {
                return false;
            },
        }
        let ghost before = self.slots.deep_view();
        let filled = match head {
            Some(line) => Slot::Ready(line),
            None => Slot::Closed,
        };
        let ghost now = filled@;
        self.slots.set(slot, filled);
        assert(self.slots.deep_view() =~= before.update(slot as int, now));
        true
    }

    /// Takes the next step of the merge. While a slot waits, the step asks
    /// for the record of one such slot and changes nothing. Once none
    /// waits, the step takes a least record out of the working set, which
    /// no record in any slot precedes, and its slot waits for the next
    /// record. When every slot is closed the merge is done.
    pub fn step(&mut self) -> (r: MergeStep)
        ensures
            match r {
                MergeStep::Need(slot) => {
                    &&& slot < old(self)@.len()
                    &&& old(self)@[slot as int] is Waiting
                    &&& final(self)@ == old(self)@
                },
                MergeStep::Send(slot, line) => {
                    &&& slot < old(self)@.len()
                    &&& old(self)@[slot as int] == SlotView::Ready(line@)
                    &&& final(self)@ == old(self)@.update(slot as int, SlotView::Waiting)
                    &&& forall|s: int|
                        0 <= s < old(self)@.len() ==> !((#[trigger] old(self)@[s]) is Waiting)
                    &&& forall|s: int|
                        0 <= s < old(self)@.len() ==> (#[trigger] old(self)@[s] matches SlotView::Ready(
                            head,
                        ) ==> text_le(line@.line, head.line))
                },
                MergeStep::Done => {
                    &&& final(self)@ == old(self)@
                    &&& forall|s: int| 0 <= s < old(self)@.len() ==> old(self)@[s] is Closed
                },
            },
    {
        let ghost slots = self.slots.deep_view();
        let mut best: Option<usize> = None;
        let mut i: usize = 0;
        while i < self.slots.len()
            invariant
                i <= self.slots.len(),
                slots == self.slots.deep_view(),
                forall|s: int| 0 <= s < i ==> !((#[trigger] slots[s]) is Waiting),
                match best {
                    Some(b) => {
                        &&& b < i
                        &&& slots[b as int] is Ready
                        &&& forall|s: int|
                            0 <= s < i ==> (#[trigger] slots[s] matches SlotView::Ready(head)
                                ==> text_le(slots[b as int]->Ready_0.line, head.line))
                    },
                    None => forall|s: int| 0 <= s < i ==> slots[s] is Closed,
                },
            decreases self.slots.len() - i,
        {
            match &self.slots[i] {
                Slot::Waiting => {
                    return MergeStep::Need(i);
                },
                Slot::Ready(head) => {
                    match best {
                        Some(b) => {
                            match &self.slots[b] {
                                Slot::Ready(least) => {
                                    if !least.precedes(head) {
                                        proof {
                                            let low = encode_utf8(head@.line);
                                            let mid = encode_utf8(least@.line);
                                            lemma_bytes_le_reflexive(low);
                                            assert forall|s: int| 0 <= s < i + 1 implies (
                                            #[trigger] slots[s] matches SlotView::Ready(other)
                                                ==> text_le(head@.line, other.line)) by {
                                                if s < i && slots[s] is Ready {
                                                    lemma_bytes_le_transitive(
                                                        low,
                                                        mid,
                                                        encode_utf8(slots[s]->Ready_0.line),
                                                    );
                                                }
                                            }
                                        }
                                        best = Some(i);
                                    }
                                },
                                _ => {},
                            }
                        },
                        None => {
                            proof {
                                lemma_bytes_le_reflexive(encode_utf8(head@.line));
                            }
                            best = Some(i);
                        },
                    }
                },
                Slot::Closed => {},
            }
            i += 1;
        }
        match best {
            Some(b) => {
                let mut taken = Slot::Waiting;
                self.slots.set_and_swap(b, &mut taken);
                assert(self.slots.deep_view() =~= slots.update(b as int, SlotView::Waiting));
                match taken {
                    Slot::Ready(line) => MergeStep::Send(b, line),
                    _ => MergeStep::Done,
                }
            },
            None => MergeStep::Done,
        }
    }
}

/// Merges the records of `sources` into one stream: each record is sent out
/// once, after the records before it in its source, and each record sent
/// out is a least one among those that are next in their sources.
pub fn merge_records(sources: &Vec<LogSource>) -> (out: Vec<LogLine>)
    ensures
        is_merge(sources.deep_view(), out.deep_view()),
{
    let n = sources.len();
    let ghost all = sources.deep_view();
    let mut engine = MergeEngine::new(n);
    let mut cursors: Vec<usize> = Vec::new();
    let mut s: usize = 0;
    while s < n
        invariant
            s <= n,
            cursors.len() == s,
            forall|j: int| 0 <= j < s ==> cursors[j] == 0,
        decreases n - s,
    {
        cursors.push(0);
        s += 1;
    }
    let mut out: Vec<LogLine> = Vec::new();
    let ghost mut origin: Seq<int> = Seq::empty();
    let ghost mut taken: Seq<int> = Seq::new(n as nat, |j: int| 0int);
    proof {
        assert(out.deep_view() =~= Seq::empty());
        lemma_waiting_bounds(engine@);
        lemma_pending_bounds(lengths(all), taken);
    }
    loop
        invariant
            n == sources.len(),
            all == sources.deep_view(),
            cursors.len() == n,
            taken.len() == n,
            engine@.len() == n,
            merge_run(all, taken, out.deep_view(), origin),
            forall|j: int| 0 <= j < n ==> 0 <= #[trigger] taken[j] <= all[j].lines.len(),
            forall|j: int|
                0 <= j < n ==> (match #[trigger] engine@[j] {
                    SlotView::Ready(head) => {
                        &&& taken[j] < all[j].lines.len()
                        &&& cursors[j] == taken[j] + 1
                        &&& head == record_at(all, j, taken[j])
                    },
                    SlotView::Waiting => cursors[j] == taken[j],
                    SlotView::Closed => taken[j] == all[j].lines.len() && cursors[j] == taken[j],
                }),
            pending(lengths(all), taken) >= 0,
            waiting(engine@) >= 0,
        ensures
            merge_run(all, lengths(all), out.deep_view(), origin),
        decreases 2 * pending(lengths(all), taken) + waiting(engine@),
    {
        let ghost sent = out.deep_view();
        let ghost slots = engine@;
        match engine.step() {
            MergeStep::Need(slot) => {
                let source = &sources[slot];
                let at = cursors[slot];
                if at < source.lines.len() {
                    let head = LogLine::new(source.name.as_str(), source.lines[at].as_str());
                    proof {
                        lemma_waiting_update(slots, slot as int, SlotView::Ready(head@));
                    }
                    engine.supply(slot, Some(head));
                    cursors.set(slot, at + 1);
                } else {
                    proof {
                        lemma_waiting_update(slots, slot as int, SlotView::Closed);
                    }
                    engine.supply(slot, None);
                }
                proof {
                    lemma_waiting_bounds(engine@);
                }
            },
            MergeStep::Send(slot, line) => {
                let ghost moved = taken.update(slot as int, taken[slot as int] + 1);
                proof {
                    lemma_pending_step(lengths(all), taken, slot as int);
                    lemma_pending_bounds(lengths(all), moved);
                    lemma_waiting_update(slots, slot as int, SlotView::Waiting);
                    lemma_waiting_bounds(engine@);
                    assert(moved.update(slot as int, moved[slot as int] - 1) =~= taken);
                    assert(least_among(all, taken, line@.line)) by {
                        assert forall|j: int|
                            #![trigger taken[j]]
                            0 <= j < all.len() && 0 <= taken[j] < all[j].lines.len() implies text_le(
                            line@.line,
                            all[j].lines[taken[j]],
                        ) by {
                            assert(slots[j] is Ready);
                        }
                    }
                }
                out.push(line);
                proof {
                    assert(out.deep_view() =~= sent.push(line@));
                    assert(out.deep_view().drop_last() =~= sent);
                    assert(origin.push(slot as int).drop_last() =~= origin);
                    origin = origin.push(slot as int);
                    taken = moved;
                }
            },
            MergeStep::Done => {
                proof {
                    assert forall|j: int| 0 <= j < n implies taken[j] == lengths(all)[j] by {
                        assert(slots[j] is Closed);
                    }
                    assert(taken =~= lengths(all));
                }
                break ;
            },
        }
    }
    out
}

/// The sources with their lines reassembled into records.
pub open spec fn record_sources(pattern: Seq<char>, files: Seq<LogSourceView>) -> Seq<
    LogSourceView,
> {
    files.map_values(
        |file: LogSourceView| LogSourceView { name: file.name, lines: records(pattern, file.lines) },
    )
}

/// The plan after the record `text` was written to the bucket of the time
/// `millis` read from it. A record without a timestamp stops the plan.
pub open spec fn write_at(plan: PlanView, millis: Option<i64>, text: Seq<char>) -> PlanView {
    match millis {
        Some(millis) => plan.write(bucket_key(millis as int) as i64, text),
        None => plan.fail(LogError::InvalidTimestamp),
    }
}

/// The plan after the record `text` was written to the bucket of its
/// timestamp: the time that the start pattern captures and the time format
/// reads.
pub open spec fn write_record(
    plan: PlanView,
    pattern: Seq<char>,
    format: Seq<char>,
    text: Seq<char>,
) -> PlanView {
    write_at(plan, record_millis(pattern, format, text), text)
}

/// The plan after the records `texts` were written, in their order.
pub open spec fn write_records(
    plan: PlanView,
    pattern: Seq<char>,
    format: Seq<char>,
    texts: Seq<Seq<char>>,
) -> PlanView
    decreases texts.len(),
{
    if texts.len() == 0 {
        plan
    } else {
        write_record(
            write_records(plan, pattern, format, texts.drop_last()),
            pattern,
            format,
            texts.last(),
        )
    }
}

/// Once a plan has stopped, the records that follow change nothing.
pub proof fn lemma_stopped_plan_stays(
    plan: PlanView,
    pattern: Seq<char>,
    format: Seq<char>,
    texts: Seq<Seq<char>>,
    written: int,
)
    requires
        0 <= written <= texts.len(),
        written < texts.len() ==> write_records(
            plan,
            pattern,
            format,
            texts.take(written),
        ).failure is Some,
    ensures
        write_records(plan, pattern, format, texts) == write_records(
            plan,
            pattern,
            format,
            texts.take(written),
        ),
    decreases texts.len() - written,
{
    if written < texts.len() {
        assert(texts.take(written + 1).drop_last() =~= texts.take(written));
        lemma_stopped_plan_stays(plan, pattern, format, texts, written + 1);
    } else {
        assert(texts.take(written) =~= texts);
    }
}

/// `outcome` is what reducing `files` comes to: the sink is opened; the
/// start pattern has to compile; then the records of a merge of the sources
/// are written, each to the bucket of its timestamp, and the sink is
/// flushed.
pub open spec fn is_reduction(
    files: Seq<LogSourceView>,
    pattern: Seq<char>,
    format: Seq<char>,
    name_pattern: Seq<char>,
    level: u32,
    outcome: OutcomeView,
) -> bool {
    let opened = PlanView::open(name_pattern, level);
    if regex_compiles(pattern) {
        exists|merged: Seq<LogLineView>|
            is_merge(record_sources(pattern, files), merged) && outcome == write_records(
                opened,
                pattern,
                format,
                #[trigger] texts_of(merged),
            ).flush().outcome()
    } else {
        outcome == opened.fail(LogError::InvalidPattern).outcome()
    }
}

proof fn lemma_records_arrive(
    plan: PlanView,
    pattern: Seq<char>,
    format: Seq<char>,
    texts: Seq<Seq<char>>,
)
    requires
        write_records(plan, pattern, format, texts).failure is None,
        plan.sink is Some,
    ensures
        write_records(plan, pattern, format, texts).sink is Some,
        texts_asked(write_records(plan, pattern, format, texts).actions) == texts_asked(
            plan.actions,
        ) + texts,
    decreases texts.len(),
{
    if texts.len() == 0 {
        assert(texts_asked(plan.actions) + texts =~= texts_asked(plan.actions));
    } else {
        let before = write_records(plan, pattern, format, texts.drop_last());
        let text = texts.last();
        lemma_records_arrive(plan, pattern, format, texts.drop_last());
        let millis = record_millis(pattern, format, text).unwrap();
        let hour = bucket_key(millis as int) as i64;
        let sink = before.sink.unwrap();
        let name = destination_name(sink.pattern, sink.compress_level, hour).unwrap();
        lemma_write_asks_for_its_text(sink, name, text);
        lemma_texts_asked_concat(before.actions, sink.moved(name, text).1);
        assert(texts_asked(plan.actions) + texts.drop_last() + seq![text] =~= texts_asked(
            plan.actions,
        ) + texts) by {
            assert(texts.drop_last().push(text) =~= texts);
        }
    }
}

proof fn lemma_reduction_writes_a_merge(
    files: Seq<LogSourceView>,
    pattern: Seq<char>,
    format: Seq<char>,
    name_pattern: Seq<char>,
    level: u32,
    outcome: OutcomeView,
)
    requires
        is_reduction(files, pattern, format, name_pattern, level, outcome),
        outcome.failure is None,
    ensures
        exists|merged: Seq<LogLineView>|
            is_merge(record_sources(pattern, files), merged) && texts_asked(outcome.actions)
                == #[trigger] texts_of(merged),
{
    let opened = PlanView::open(name_pattern, level);
    let sources = record_sources(pattern, files);
    let merged = choose|merged: Seq<LogLineView>|
        is_merge(sources, merged) && outcome == write_records(
            opened,
            pattern,
            format,
            #[trigger] texts_of(merged),
        ).flush().outcome();
    let written = write_records(opened, pattern, format, texts_of(merged));
    lemma_opening_asks_for_no_text(name_pattern, level);
    if opened.failure is Some {
        assert(texts_of(merged).take(0) =~= Seq::<Seq<char>>::empty());
        lemma_stopped_plan_stays(opened, pattern, format, texts_of(merged), 0);
    }
    lemma_records_arrive(opened, pattern, format, texts_of(merged));
    assert(texts_asked(written.flush().actions) == texts_asked(written.actions)) by {
        assert(written.flush().actions.drop_last() =~= written.actions);
    }
    assert(texts_asked(outcome.actions) =~= texts_of(merged));
}

/// What a reduction writes is in the order of the record texts.
///
/// Where the records of each source are in order and nothing fails, the
/// texts that the reduction asks to be written are the records of all
/// sources, none before one that precedes it.
pub proof fn lemma_reduction_in_order(
    files: Seq<LogSourceView>,
    pattern: Seq<char>,
    format: Seq<char>,
    name_pattern: Seq<char>,
    level: u32,
    outcome: OutcomeView,
)
    requires
        is_reduction(files, pattern, format, name_pattern, level, outcome),
        outcome.failure is None,
        forall|s: int|
            0 <= s < files.len() ==> non_decreasing(
                #[trigger] record_sources(pattern, files)[s].lines,
            ),
    ensures
        non_decreasing(texts_asked(outcome.actions)),
        texts_asked(outcome.actions).len() == record_count(record_sources(pattern, files)),
{
    let sources = record_sources(pattern, files);
    lemma_reduction_writes_a_merge(files, pattern, format, name_pattern, level, outcome);
    let merged = choose|merged: Seq<LogLineView>|
        is_merge(sources, merged) && texts_asked(outcome.actions) == #[trigger] texts_of(merged);
    lemma_merge_in_order(sources, merged);
    lemma_merge_keeps_count(sources, merged);
}

/// Reducing one source writes its records as they are: where nothing
/// fails, the texts that the reduction asks to be written are the records
/// of the source, the last one too, in their order, and no other.
pub proof fn lemma_reduction_of_one_source(
    files: Seq<LogSourceView>,
    pattern: Seq<char>,
    format: Seq<char>,
    name_pattern: Seq<char>,
    level: u32,
    outcome: OutcomeView,
)
    requires
        is_reduction(files, pattern, format, name_pattern, level, outcome),
        outcome.failure is None,
        files.len() == 1,
    ensures
        texts_asked(outcome.actions) == records(pattern, files[0].lines),
{
    let sources = record_sources(pattern, files);
    lemma_reduction_writes_a_merge(files, pattern, format, name_pattern, level, outcome);
    let merged = choose|merged: Seq<LogLineView>|
        is_merge(sources, merged) && texts_asked(outcome.actions) == #[trigger] texts_of(merged);
    lemma_merge_of_one_source(sources, merged);
}

/// The record `text` can be written: it has a timestamp that the format
/// reads, and the bucket of the timestamp has a destination name.
pub open spec fn writable(
    pattern: Seq<char>,
    format: Seq<char>,
    name_pattern: Seq<char>,
    level: u32,
    text: Seq<char>,
) -> bool {
    record_millis(pattern, format, text) matches Some(millis) && destination_name(
        name_pattern,
        level,
        bucket_key(millis as int) as i64,
    ) is Some
}

/// The sources can be reduced: the first destination has a name, the start
/// pattern compiles, and every record of every source can be written.
pub open spec fn reducible(
    files: Seq<LogSourceView>,
    pattern: Seq<char>,
    format: Seq<char>,
    name_pattern: Seq<char>,
    level: u32,
) -> bool {
    &&& destination_name(name_pattern, level, 0) is Some
    &&& regex_compiles(pattern)
    &&& forall|s: int, i: int|
        0 <= s < files.len() && 0 <= i < record_sources(pattern, files)[s].lines.len()
            ==> writable(
            pattern,
            format,
            name_pattern,
            level,
            #[trigger] record_sources(pattern, files)[s].lines[i],
        )
}

/// `text` is a record of one of the sources.
pub open spec fn held_by(sources: Seq<LogSourceView>, text: Seq<char>) -> bool {
    exists|s: int, i: int|
        0 <= s < sources.len() && 0 <= i < sources[s].lines.len() && #[trigger] sources[s].lines[i]
            == text
}

/// `text` is among the records sent out.
pub open spec fn sent_in(out: Seq<LogLineView>, text: Seq<char>) -> bool {
    exists|k: int| 0 <= k < out.len() && (#[trigger] out[k]).line == text
}

proof fn lemma_run_sends_records_of_sources(
    sources: Seq<LogSourceView>,
    cursors: Seq<int>,
    out: Seq<LogLineView>,
    origin: Seq<int>,
    k: int,
)
    requires
        merge_run(sources, cursors, out, origin),
        0 <= k < out.len(),
    ensures
        held_by(sources, out[k].line),
    decreases out.len(),
{
    let last = origin.last();
    if k < out.len() - 1 {
        let before = cursors.update(last, cursors[last] - 1);
        lemma_run_sends_records_of_sources(sources, before, out.drop_last(), origin.drop_last(), k);
    } else {
        assert(sources[last].lines[cursors[last] - 1] == out[k].line);
    }
}

proof fn lemma_run_sends_what_it_took(
    sources: Seq<LogSourceView>,
    cursors: Seq<int>,
    out: Seq<LogLineView>,
    origin: Seq<int>,
    s: int,
    i: int,
)
    requires
        merge_run(sources, cursors, out, origin),
        0 <= s < sources.len(),
        0 <= i < cursors[s],
    ensures
        sent_in(out, sources[s].lines[i]),
    decreases out.len(),
{
    if out.len() > 0 {
        let last = origin.last();
        let before = cursors.update(last, cursors[last] - 1);
        let sent = out.drop_last();
        if s == last && i == cursors[last] - 1 {
            assert(out[out.len() - 1].line == sources[s].lines[i]);
        } else {
            lemma_run_sends_what_it_took(sources, before, sent, origin.drop_last(), s, i);
            let k = choose|k: int| 0 <= k < sent.len() && (#[trigger] sent[k]).line
                == sources[s].lines[i];
            assert(out[k].line == sources[s].lines[i]);
        }
    }
}

/// A merge sends out the records of the sources and no other: every record
/// sent out is a record of a source, and every record of a source is sent
/// out.
pub proof fn lemma_merge_sends_the_records(sources: Seq<LogSourceView>, out: Seq<LogLineView>)
    requires
        is_merge(sources, out),
    ensures
        forall|k: int| 0 <= k < out.len() ==> held_by(sources, (#[trigger] out[k]).line),
        forall|s: int, i: int|
            0 <= s < sources.len() && 0 <= i < sources[s].lines.len() ==> sent_in(
                out,
                #[trigger] sources[s].lines[i],
            ),
{
    let origin = choose|origin: Seq<int>| merge_run(sources, lengths(sources), out, origin);
    assert forall|k: int| 0 <= k < out.len() implies held_by(sources, (#[trigger] out[k]).line) by {
        lemma_run_sends_records_of_sources(sources, lengths(sources), out, origin, k);
    }
    assert forall|s: int, i: int|
        0 <= s < sources.len() && 0 <= i < sources[s].lines.len() implies sent_in(
        out,
        #[trigger] sources[s].lines[i],
    ) by {
        assert(lengths(sources)[s] == sources[s].lines.len());
        lemma_run_sends_what_it_took(sources, lengths(sources), out, origin, s, i);
    }
}

proof fn lemma_writable_records_are_written(
    plan: PlanView,
    pattern: Seq<char>,
    format: Seq<char>,
    texts: Seq<Seq<char>>,
)
    requires
        plan.failure is None,
        plan.sink is Some,
    ensures
        ({
            let sink = plan.sink.unwrap();
            let written = write_records(plan, pattern, format, texts);
            &&& written.failure is None <==> forall|k: int|
                0 <= k < texts.len() ==> writable(
                    pattern,
                    format,
                    sink.pattern,
                    sink.compress_level,
                    #[trigger] texts[k],
                )
            &&& written.sink is Some
            &&& written.sink.unwrap().pattern == sink.pattern
            &&& written.sink.unwrap().compress_level == sink.compress_level
        }),
    decreases texts.len(),
{
    if texts.len() > 0 {
        let sink = plan.sink.unwrap();
        let before = texts.drop_last();
        lemma_writable_records_are_written(plan, pattern, format, before);
        let written = write_records(plan, pattern, format, texts);
        assert forall|k: int| 0 <= k < before.len() implies before[k] == texts[k] by {}
        if written.failure is None {
            assert forall|k: int| 0 <= k < texts.len() implies writable(
                pattern,
                format,
                sink.pattern,
                sink.compress_level,
                #[trigger] texts[k],
            ) by {
                if k < before.len() {
                    assert(writable(
                        pattern,
                        format,
                        sink.pattern,
                        sink.compress_level,
                        before[k],
                    ));
                }
            }
        }
        if forall|k: int|
            0 <= k < texts.len() ==> writable(
                pattern,
                format,
                sink.pattern,
                sink.compress_level,
                #[trigger] texts[k],
            ) {
            assert forall|k: int| 0 <= k < before.len() implies writable(
                pattern,
                format,
                sink.pattern,
                sink.compress_level,
                #[trigger] before[k],
            ) by {
                assert(writable(pattern, format, sink.pattern, sink.compress_level, texts[k]));
            }
            assert(writable(
                pattern,
                format,
                sink.pattern,
                sink.compress_level,
                texts[texts.len() - 1],
            ));
        }
    }
}

/// When a reduction succeeds: it ends without a failure if and only if the
/// sources can be reduced, that is, the first destination has a name, the
/// start pattern compiles, and every record of every source has a
/// timestamp that the format reads and a bucket that has a name.
pub proof fn lemma_reduction_succeeds(
    files: Seq<LogSourceView>,
    pattern: Seq<char>,
    format: Seq<char>,
    name_pattern: Seq<char>,
    level: u32,
    outcome: OutcomeView,
)
    requires
        is_reduction(files, pattern, format, name_pattern, level, outcome),
    ensures
        outcome.failure is None <==> reducible(files, pattern, format, name_pattern, level),
{
    let opened = PlanView::open(name_pattern, level);
    let sources = record_sources(pattern, files);
    if regex_compiles(pattern) {
        let merged = choose|merged: Seq<LogLineView>|
            is_merge(sources, merged) && outcome == write_records(
                opened,
                pattern,
                format,
                #[trigger] texts_of(merged),
            ).flush().outcome();
        let texts = texts_of(merged);
        if destination_name(name_pattern, level, 0) is Some {
            lemma_merge_sends_the_records(sources, merged);
            lemma_writable_records_are_written(opened, pattern, format, texts);
            if reducible(files, pattern, format, name_pattern, level) {
                assert forall|k: int| 0 <= k < texts.len() implies writable(
                    pattern,
                    format,
                    name_pattern,
                    level,
                    #[trigger] texts[k],
                ) by {
                    assert(held_by(sources, merged[k].line));
                }
            }
            if outcome.failure is None {
                assert forall|s: int, i: int|
                    0 <= s < files.len() && 0 <= i < sources[s].lines.len() implies writable(
                    pattern,
                    format,
                    name_pattern,
                    level,
                    #[trigger] sources[s].lines[i],
                ) by {
                    assert(sent_in(merged, sources[s].lines[i]));
                    let k = choose|k: int|
                        0 <= k < merged.len() && (#[trigger] merged[k]).line
                            == sources[s].lines[i];
                    assert(writable(pattern, format, name_pattern, level, texts[k]));
                }
            }
        } else {
            assert(texts.take(0) =~= Seq::<Seq<char>>::empty());
            lemma_stopped_plan_stays(opened, pattern, format, texts, 0);
        }
    }
}

/// Writes the record `text` to the bucket of the time `millis` that was
/// read from it.
pub fn write_log_at(plan: &mut Plan, millis: Option<i64>, text: &str)
    ensures
        final(plan)@ == write_at(old(plan)@, millis, text@),
{
    match millis {
        Some(millis) => {
            plan.write(bucket_of(millis), text);
        },
        None => {
            plan.fail(LogError::InvalidTimestamp);
        },
    }
}

/// Writes the record `text` to the bucket of its timestamp.
pub fn write_log(plan: &mut Plan, pattern: &Pattern, log_time_format: &str, text: &str)
    ensures
        final(plan)@ == write_record(old(plan)@, pattern@, log_time_format@, text@),
{
    let millis = read_millis(pattern, log_time_format, text);
    write_log_at(plan, millis, text);
}

/// Reassembles the records of every source.
pub fn read_sources(pattern: &Pattern, files: &Vec<LogSource>) -> (r: Vec<LogSource>)
    ensures
        r.deep_view() == record_sources(pattern@, files.deep_view()),
{
    let mut sources: Vec<LogSource> = Vec::new();
    let mut i: usize = 0;
    assert(sources.deep_view() =~= record_sources(pattern@, files.deep_view()).take(0));
    while i < files.len()
        invariant
            i <= files.len(),
            sources.deep_view() == record_sources(pattern@, files.deep_view()).take(i as int),
        decreases files.len() - i,
    {
        let ghost before = sources.deep_view();
        let file = &files[i];
        let source = LogSource {
            name: file.name.clone(),
            lines: WrappedFileReader::reassemble(pattern, &file.lines),
        };
        let ghost added = source@;
        sources.push(source);
        proof {
            assert(sources.deep_view() =~= before.push(added));
            assert(before.push(added) =~= record_sources(pattern@, files.deep_view()).take(i + 1));
        }
        i += 1;
    }
    assert(record_sources(pattern@, files.deep_view()).take(files.len() as int)
        =~= record_sources(pattern@, files.deep_view()));
    sources
}

/// The plan of a reduction when it begins: the sink is opened, and a start
/// pattern that does not compile stops the plan.
pub open spec fn begun(pattern: Seq<char>, name_pattern: Seq<char>, level: u32) -> PlanView {
    if regex_compiles(pattern) {
        PlanView::open(name_pattern, level)
    } else {
        PlanView::open(name_pattern, level).fail(LogError::InvalidPattern)
    }
}

/// The state of a reduction that is under way.
pub struct ReductionView {
    /// The start pattern.
    pub pattern: Seq<char>,
    /// Whether the start pattern compiles.
    pub compiled: bool,
    /// The time format.
    pub format: Seq<char>,
    /// The plan so far.
    pub plan: PlanView,
}

impl ReductionView {
    /// The reduction after the record `text` was written to the bucket of
    /// its timestamp. Without a start pattern there is no timestamp to
    /// read, and nothing is written.
    pub open spec fn wrote(self, text: Seq<char>) -> ReductionView {
        if self.compiled {
            ReductionView {
                plan: write_record(self.plan, self.pattern, self.format, text),
                ..self
            }
        } else {
            self
        }
    }
}

/// The writing side of a reduction: it is begun, takes the merged records
/// one by one, and is finished. Whoever carries out the actions takes them
/// as they come.
pub struct Reduction {
    pattern: String,
    start: Option<Pattern>,
    format: String,
    plan: Plan,
}

impl View for Reduction {
    type V = ReductionView;

    closed spec fn view(&self) -> ReductionView {
        ReductionView {
            pattern: match self.start {
                Some(start) => start@,
                None => self.pattern@,
            },
            compiled: self.start is Some,
            format: self.format@,
            plan: self.plan@,
        }
    }
}

impl Reduction {
    /// Begins a reduction: opens the sink and checks the start pattern.
    pub fn begin(
        pattern: &str,
        log_time_format: &str,
        output_file_pattern: &str,
        compress_level: u32,
    ) -> (r: Reduction)
        ensures
            r@ == (ReductionView {
                pattern: pattern@,
                compiled: regex_compiles(pattern@),
                format: log_time_format@,
                plan: begun(pattern@, output_file_pattern@, compress_level),
            }),
    {
        let mut plan = Plan::open(output_file_pattern, compress_level);
        let start = Pattern::new(pattern);
        if start.is_none() {
            plan.fail(LogError::InvalidPattern);
        }
        Reduction {
            pattern: pattern.to_owned(),
            start,
            format: log_time_format.to_owned(),
            plan,
        }
    }

    /// Writes the next record of the merged stream to the bucket of its
    /// timestamp.
    pub fn write(&mut self, record: &str)
        ensures
            final(self)@ == old(self)@.wrote(record@),
    {
        match &self.start {
            Some(start) => {
                write_log(&mut self.plan, start, self.format.as_str(), record);
            },
            None => {},
        }
    }

    /// The failure that stopped the reduction.
    pub fn failure(&self) -> (r: Option<LogError>)
        ensures
            r == self@.plan.failure,
    {
        self.plan.failure()
    }

    /// Takes the actions gathered so far out of the plan.
    pub fn take_actions(&mut self) -> (r: Vec<SinkAction>)
        ensures
            r.deep_view() == old(self)@.plan.actions,
            final(self)@ == (ReductionView { plan: old(self)@.plan.drained(), ..old(self)@ }),
    {
        self.plan.take_actions()
    }

    /// Ends the reduction: the sink is flushed.
    pub fn finish(self) -> (r: Outcome)
        ensures
            r@ == self@.plan.flush().outcome(),
    {
        let mut plan = self.plan;
        plan.flush();
        plan.finish()
    }
}

/// Reduces the sources `files` to one stream in the order of the record
/// texts, and plans its writing to a rotating sink.
///
/// The lines of each source are reassembled into records by the start
/// pattern `pattern`, the records of all sources are merged, and each is
/// written to the bucket of the timestamp that `pattern` captures and
/// `log_time_format` reads. The reduction ends without a failure exactly
/// where the first destination has a name, the pattern compiles, and every
/// record has a readable timestamp and a bucket with a name.
pub fn reduce_logs(
    files: &Vec<LogSource>,
    pattern: &str,
    log_time_format: &str,
    output_file_pattern: &str,
    compress_level: u32,
) -> (r: Outcome)
    ensures
        is_reduction(
            files.deep_view(),
            pattern@,
            log_time_format@,
            output_file_pattern@,
            compress_level,
            r@,
        ),
        r@.failure is None <==> reducible(
            files.deep_view(),
            pattern@,
            log_time_format@,
            output_file_pattern@,
            compress_level,
        ),
{
    let mut reduction = Reduction::begin(
        pattern,
        log_time_format,
        output_file_pattern,
        compress_level,
    );
    let ghost opened = PlanView::open(output_file_pattern@, compress_level);
    let ghost texts = Seq::<Seq<char>>::empty();
    match Pattern::new(pattern) {
        Some(start) => {
            let sources = read_sources(&start, files);
            let merged = merge_records(&sources);
            proof {
                texts = texts_of(merged.deep_view());
            }
            let mut k: usize = 0;
            while k < merged.len() && reduction.failure().is_none()
                invariant
                    k <= merged.len(),
                    texts == texts_of(merged.deep_view()),
                    reduction@ == (ReductionView {
                        pattern: pattern@,
                        compiled: true,
                        format: log_time_format@,
                        plan: write_records(opened, pattern@, log_time_format@, texts.take(k as int)),
                    }),
                decreases merged.len() - k,
            {
                proof {
                    assert(texts.take(k + 1).drop_last() =~= texts.take(k as int));
                }
                reduction.write(merged[k].text());
                k += 1;
            }
            proof {
                lemma_stopped_plan_stays(opened, pattern@, log_time_format@, texts, k as int);
            }
        },
        None => {},
    }
    let outcome = reduction.finish();
    proof {
        assert(is_reduction(
            files.deep_view(),
            pattern@,
            log_time_format@,
            output_file_pattern@,
            compress_level,
            outcome@,
        ));
        lemma_reduction_succeeds(
            files.deep_view(),
            pattern@,
            log_time_format@,
            output_file_pattern@,
            compress_level,
            outcome@,
        );
    }
    outcome
}

} // verus!

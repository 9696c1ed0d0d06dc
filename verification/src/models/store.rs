//! What the actions of a sink do to the destinations.
//!
//! The destinations are modelled as a map from names to the texts written
//! to them. The model gives the actions their meaning, and the laws below
//! state over it what a sink achieves.

use crate::models::plan::PlanView;
use crate::models::writer::{
    destination_name, effective_level, suffixed, SinkActionView, SinkView,
};
use vstd::prelude::*;

verus! {

/// The destinations: what each one holds, and which one is open.
pub struct Destinations {
    /// The texts that each destination holds, in the order written.
    pub files: Map<Seq<char>, Seq<Seq<char>>>,
    /// The name of the open destination.
    pub open: Option<Seq<char>>,
}

impl Destinations {
    /// No destination at all.
    pub open spec fn empty() -> Destinations {
        Destinations { files: Map::empty(), open: None }
    }

    /// What the destination `name` holds; nothing where there is none.
    pub open spec fn content(self, name: Seq<char>) -> Seq<Seq<char>> {
        if self.files.contains_key(name) {
            self.files[name]
        } else {
            Seq::empty()
        }
    }

    /// The destinations after one action was carried out.
    pub open spec fn apply(self, action: SinkActionView) -> Destinations {
        match action {
            SinkActionView::Open { name, append, level } => Destinations {
                files: self.files.insert(
                    name,
                    if append {
                        self.content(name)
                    } else {
                        Seq::empty()
                    },
                ),
                open: Some(name),
            },
            SinkActionView::Close { name, unwritten } => Destinations {
                files: if self.files.contains_key(name) && (self.files[name].len() == 0
                    || unwritten) {
                    self.files.remove(name)
                } else {
                    self.files
                },
                open: if self.open == Some(name) {
                    None
                } else {
                    self.open
                },
            },
            SinkActionView::Write { text } => match self.open {
                Some(name) => Destinations {
                    files: self.files.insert(name, self.content(name).push(text)),
                    ..self
                },
                None => self,
            },
            SinkActionView::Flush => self,
        }
    }

    /// The destinations after the actions were carried out, in their order.
    pub open spec fn run(self, actions: Seq<SinkActionView>) -> Destinations
        decreases actions.len(),
    {
        if actions.len() == 0 {
            self
        } else {
            self.run(actions.drop_last()).apply(actions.last())
        }
    }
}

/// One write to a sink: a text and the bucket it is for.
pub struct WriteView {
    pub hour: i64,
    pub text: Seq<char>,
}

/// The plan after the writes `writes`, in their order.
pub open spec fn written_all(plan: PlanView, writes: Seq<WriteView>) -> PlanView
    decreases writes.len(),
{
    if writes.len() == 0 {
        plan
    } else {
        written_all(plan, writes.drop_last()).write(writes.last().hour, writes.last().text)
    }
}

/// The name of the destination of the write at position `i`.
pub open spec fn name_at(pattern: Seq<char>, level: u32, writes: Seq<WriteView>, i: int) -> Option<
    Seq<char>,
> {
    destination_name(pattern, level, writes[i].hour)
}

/// The texts among `writes` whose bucket has the destination `name`, in
/// their order.
pub open spec fn texts_for(
    pattern: Seq<char>,
    level: u32,
    writes: Seq<WriteView>,
    name: Seq<char>,
) -> Seq<Seq<char>>
    decreases writes.len(),
{
    if writes.len() == 0 {
        Seq::empty()
    } else {
        let before = texts_for(pattern, level, writes.drop_last(), name);
        if destination_name(pattern, level, writes.last().hour) == Some(name) {
            before.push(writes.last().text)
        } else {
            before
        }
    }
}

/// The texts of all of `writes`, in their order.
pub open spec fn texts_written(writes: Seq<WriteView>) -> Seq<Seq<char>> {
    writes.map_values(|w: WriteView| w.text)
}

/// Every bucket written to has a name, the writes to one destination follow
/// one another without a write to another destination between them, and
/// the destination of bucket 0, which a sink opens first, is written first
/// or never. A stream in the order of time has this shape wherever later
/// buckets get other names.
pub open spec fn in_runs(pattern: Seq<char>, level: u32, writes: Seq<WriteView>) -> bool {
    &&& destination_name(pattern, level, 0) is Some
    &&& forall|i: int| 0 <= i < writes.len() ==> (#[trigger] name_at(pattern, level, writes, i)) is Some
    &&& forall|i: int, j: int|
        0 <= i < j < writes.len() && name_at(pattern, level, writes, i) == name_at(
            pattern,
            level,
            writes,
            j,
        ) ==> #[trigger] name_at(pattern, level, writes, j - 1) == #[trigger] name_at(
            pattern,
            level,
            writes,
            i,
        )
    &&& forall|j: int|
        0 < j < writes.len() && #[trigger] name_at(pattern, level, writes, j) == destination_name(
            pattern,
            level,
            0,
        ) ==> name_at(pattern, level, writes, j - 1) == destination_name(pattern, level, 0)
}

/// A stream in the order of time is written in runs: where the buckets
/// never go back, two buckets have the same destination only if they are
/// the same bucket, and no bucket before bucket 0 is written to, the
/// writes to each destination follow one another.
pub proof fn lemma_ordered_buckets_are_in_runs(
    pattern: Seq<char>,
    level: u32,
    writes: Seq<WriteView>,
)
    requires
        destination_name(pattern, level, 0) is Some,
        forall|i: int| 0 <= i < writes.len() ==> (#[trigger] name_at(pattern, level, writes, i)) is Some,
        forall|i: int, j: int|
            0 <= i <= j < writes.len() ==> 0 <= (#[trigger] writes[i]).hour <= (
            #[trigger] writes[j]).hour,
        forall|i: int, j: int|
            0 <= i < writes.len() && 0 <= j < writes.len() && #[trigger] name_at(
                pattern,
                level,
                writes,
                i,
            ) == #[trigger] name_at(pattern, level, writes, j) ==> writes[i].hour
                == writes[j].hour,
        forall|i: int|
            0 <= i < writes.len() && #[trigger] name_at(pattern, level, writes, i)
                == destination_name(pattern, level, 0) ==> writes[i].hour == 0,
    ensures
        in_runs(pattern, level, writes),
{
    assert forall|i: int, j: int|
        0 <= i < j < writes.len() && name_at(pattern, level, writes, i) == name_at(
            pattern,
            level,
            writes,
            j,
        ) implies #[trigger] name_at(pattern, level, writes, j - 1) == #[trigger] name_at(
        pattern,
        level,
        writes,
        i,
    ) by {
        assert(writes[i].hour == writes[j].hour);
        assert(writes[i].hour <= writes[j - 1].hour);
        assert(writes[j - 1].hour <= writes[j].hour);
    }
    assert forall|j: int|
        0 < j < writes.len() && #[trigger] name_at(pattern, level, writes, j) == destination_name(
            pattern,
            level,
            0,
        ) implies name_at(pattern, level, writes, j - 1) == destination_name(pattern, level, 0) by {
        assert(writes[j].hour == 0);
        assert(writes[j - 1].hour <= writes[j].hour);
        assert(0 <= writes[j - 1].hour);
    }
}

/// Whether some write among `writes` is for a bucket with the destination
/// `name`.
pub open spec fn written_to(
    pattern: Seq<char>,
    level: u32,
    writes: Seq<WriteView>,
    name: Seq<char>,
) -> bool {
    exists|i: int| 0 <= i < writes.len() && #[trigger] name_at(pattern, level, writes, i) == Some(name)
}

/// The sink of a plan after `writes`: its destination is that of the last
/// write.
pub open spec fn sink_after(pattern: Seq<char>, level: u32, writes: Seq<WriteView>) -> SinkView {
    SinkView {
        pattern,
        compress_level: level,
        filename: if writes.len() == 0 {
            destination_name(pattern, level, 0).unwrap()
        } else {
            name_at(pattern, level, writes, writes.len() - 1).unwrap()
        },
        empty_content: writes.len() == 0,
    }
}

/// Carrying out actions one after the other is carrying out their
/// concatenation.
pub proof fn lemma_run_concat(
    store: Destinations,
    first: Seq<SinkActionView>,
    second: Seq<SinkActionView>,
)
    ensures
        store.run(first + second) == store.run(first).run(second),
    decreases second.len(),
{
    if second.len() == 0 {
        assert(first + second =~= first);
    } else {
        lemma_run_concat(store, first, second.drop_last());
        assert((first + second).drop_last() =~= first + second.drop_last());
    }
}

proof fn lemma_run_one(store: Destinations, a: SinkActionView)
    ensures
        store.run(seq![a]) == store.apply(a),
{
    reveal_with_fuel(Destinations::run, 2);
    assert(seq![a].drop_last() =~= Seq::<SinkActionView>::empty());
}

proof fn lemma_run_three(store: Destinations, a: SinkActionView, b: SinkActionView, c: SinkActionView)
    ensures
        store.run(seq![a, b, c]) == store.apply(a).apply(b).apply(c),
{
    lemma_run_concat(store, seq![a], seq![b]);
    lemma_run_concat(store, seq![a, b], seq![c]);
    lemma_run_one(store, a);
    lemma_run_one(store.apply(a), b);
    lemma_run_one(store.apply(a).apply(b), c);
    assert(seq![a] + seq![b] =~= seq![a, b]);
    assert(seq![a, b] + seq![c] =~= seq![a, b, c]);
}

/// What one write does to the destinations, when the destination of the
/// sink is the open one: a write for the same destination adds its text
/// there; any other closes that destination, which goes if it holds nothing
/// or was never written to while compressed, and begins an emptied or, with
/// a plain name, a continued destination with the text.
pub proof fn lemma_write_effect(store: Destinations, sink: SinkView, hour: i64, text: Seq<char>)
    requires
        destination_name(sink.pattern, sink.compress_level, hour) is Some,
        store.open == Some(sink.filename),
        store.files.contains_key(sink.filename),
    ensures
        ({
            let name = destination_name(sink.pattern, sink.compress_level, hour).unwrap();
            let after = store.run(sink.written(hour, text).unwrap().1);
            let held = store.files[sink.filename];
            let kept = if held.len() == 0 || (sink.compress_level > 0 && sink.empty_content) {
                store.files.remove(sink.filename)
            } else {
                store.files
            };
            let begun = if sink.appendable(name) && kept.contains_key(name) {
                kept[name]
            } else {
                Seq::empty()
            };
            &&& after.open == Some(name)
            &&& name == sink.filename ==> after.files == store.files.insert(name, held.push(text))
            &&& name != sink.filename ==> after.files == kept.insert(name, begun.push(text))
        }),
{
    let name = destination_name(sink.pattern, sink.compress_level, hour).unwrap();
    let asked = sink.written(hour, text).unwrap().1;
    let write = SinkActionView::Write { text };
    if name == sink.filename {
        assert(asked =~= seq![write]);
        lemma_run_one(store, write);
    } else {
        assert(asked =~= seq![sink.closing(), sink.open_action(name), write]);
        lemma_run_three(store, sink.closing(), sink.open_action(name), write);
        let closed = store.apply(sink.closing());
        let opened = closed.apply(sink.open_action(name));
        let after = opened.apply(write);
        assert(after.files =~= opened.files.insert(name, opened.files[name].push(text)));
    }
}

proof fn lemma_written_all_step(pattern: Seq<char>, level: u32, writes: Seq<WriteView>)
    requires
        destination_name(pattern, level, 0) is Some,
        forall|i: int| 0 <= i < writes.len() ==> (#[trigger] name_at(pattern, level, writes, i)) is Some,
    ensures
        ({
            let plan = written_all(PlanView::open(pattern, level), writes);
            &&& plan.failure is None
            &&& plan.sink == Some(sink_after(pattern, level, writes))
            &&& writes.len() > 0 ==> plan.actions == written_all(
                PlanView::open(pattern, level),
                writes.drop_last(),
            ).actions + sink_after(pattern, level, writes.drop_last()).written(
                writes.last().hour,
                writes.last().text,
            ).unwrap().1
        }),
    decreases writes.len(),
{
    if writes.len() > 0 {
        let before = writes.drop_last();
        assert forall|i: int| 0 <= i < before.len() implies (#[trigger] name_at(
            pattern,
            level,
            before,
            i,
        )) is Some by {
            assert(name_at(pattern, level, writes, i) is Some);
        }
        lemma_written_all_step(pattern, level, before);
        assert(name_at(pattern, level, writes, writes.len() - 1) is Some);
    }
}

proof fn lemma_no_texts_for_absent_name(
    pattern: Seq<char>,
    level: u32,
    writes: Seq<WriteView>,
    name: Seq<char>,
)
    requires
        !written_to(pattern, level, writes, name),
    ensures
        texts_for(pattern, level, writes, name).len() == 0,
    decreases writes.len(),
{
    if writes.len() > 0 {
        let before = writes.drop_last();
        assert(!written_to(pattern, level, before, name)) by {
            if written_to(pattern, level, before, name) {
                let i = choose|i: int|
                    0 <= i < before.len() && #[trigger] name_at(pattern, level, before, i) == Some(
                        name,
                    );
                assert(name_at(pattern, level, writes, i) == Some(name));
            }
        }
        lemma_no_texts_for_absent_name(pattern, level, before, name);
        assert(name_at(pattern, level, writes, writes.len() - 1) != Some(name));
    }
}

proof fn lemma_written_to_step(
    pattern: Seq<char>,
    level: u32,
    writes: Seq<WriteView>,
    name: Seq<char>,
)
    requires
        writes.len() > 0,
    ensures
        written_to(pattern, level, writes, name) <==> written_to(
            pattern,
            level,
            writes.drop_last(),
            name,
        ) || name_at(pattern, level, writes, writes.len() - 1) == Some(name),
{
    let before = writes.drop_last();
    if written_to(pattern, level, before, name) {
        let i = choose|i: int|
            0 <= i < before.len() && #[trigger] name_at(pattern, level, before, i) == Some(name);
        assert(name_at(pattern, level, writes, i) == Some(name));
    }
    if written_to(pattern, level, writes, name) {
        let i = choose|i: int|
            0 <= i < writes.len() && #[trigger] name_at(pattern, level, writes, i) == Some(name);
        if i < writes.len() - 1 {
            assert(name_at(pattern, level, before, i) == Some(name));
        }
    }
}

proof fn lemma_runs_of_prefix(pattern: Seq<char>, level: u32, writes: Seq<WriteView>)
    requires
        in_runs(pattern, level, writes),
        writes.len() > 0,
    ensures
        in_runs(pattern, level, writes.drop_last()),
        writes.len() > 1 && name_at(pattern, level, writes, writes.len() - 1) != name_at(
            pattern,
            level,
            writes,
            writes.len() - 2,
        ) ==> !written_to(
            pattern,
            level,
            writes.drop_last(),
            name_at(pattern, level, writes, writes.len() - 1).unwrap(),
        ),
{
    let before = writes.drop_last();
    let n = writes.len() as int;
    assert forall|i: int| 0 <= i < before.len() implies (#[trigger] name_at(
        pattern,
        level,
        before,
        i,
    )) is Some by {
        assert(name_at(pattern, level, writes, i) is Some);
    }
    assert forall|i: int, j: int|
        0 <= i < j < before.len() && name_at(pattern, level, before, i) == name_at(
            pattern,
            level,
            before,
            j,
        ) implies #[trigger] name_at(pattern, level, before, j - 1) == #[trigger] name_at(
        pattern,
        level,
        before,
        i,
    ) by {
        assert(name_at(pattern, level, writes, j - 1) == name_at(pattern, level, writes, i));
    }
    assert forall|j: int|
        0 < j < before.len() && #[trigger] name_at(pattern, level, before, j) == destination_name(
            pattern,
            level,
            0,
        ) implies name_at(pattern, level, before, j - 1) == destination_name(pattern, level, 0) by {
        assert(name_at(pattern, level, writes, j) == destination_name(pattern, level, 0));
    }
    if n > 1 && name_at(pattern, level, writes, n - 1) != name_at(pattern, level, writes, n - 2) {
        let name = name_at(pattern, level, writes, n - 1).unwrap();
        assert(name_at(pattern, level, writes, n - 1) is Some);
        if written_to(pattern, level, before, name) {
            let i = choose|i: int|
                0 <= i < before.len() && #[trigger] name_at(pattern, level, before, i) == Some(
                    name,
                );
            assert(name_at(pattern, level, writes, i) == name_at(pattern, level, writes, n - 1));
            assert(name_at(pattern, level, writes, n - 1 - 1) == name_at(pattern, level, writes, i));
        }
    }
}

/// The texts that the actions write, in their order.
pub open spec fn texts_asked(actions: Seq<SinkActionView>) -> Seq<Seq<char>>
    decreases actions.len(),
{
    if actions.len() == 0 {
        Seq::empty()
    } else {
        let before = texts_asked(actions.drop_last());
        match actions.last() {
            SinkActionView::Write { text } => before.push(text),
            _ => before,
        }
    }
}

pub proof fn lemma_texts_asked_concat(first: Seq<SinkActionView>, second: Seq<SinkActionView>)
    ensures
        texts_asked(first + second) == texts_asked(first) + texts_asked(second),
    decreases second.len(),
{
    if second.len() == 0 {
        assert(first + second =~= first);
        assert(texts_asked(first) + texts_asked(second) =~= texts_asked(first));
    } else {
        lemma_texts_asked_concat(first, second.drop_last());
        assert((first + second).drop_last() =~= first + second.drop_last());
        assert(texts_asked(first + second) =~= texts_asked(first) + texts_asked(second));
    }
}

/// A write asks for its text to be written, and for no other.
pub proof fn lemma_write_asks_for_its_text(sink: SinkView, name: Seq<char>, text: Seq<char>)
    ensures
        texts_asked(sink.moved(name, text).1) == seq![text],
{
    reveal_with_fuel(texts_asked, 4);
    let asked = sink.moved(name, text).1;
    let write = SinkActionView::Write { text };
    if name == sink.filename {
        assert(asked =~= seq![write]);
        assert(asked.drop_last() =~= Seq::<SinkActionView>::empty());
    } else {
        assert(asked =~= seq![sink.closing(), sink.open_action(name), write]);
        assert(asked.drop_last() =~= seq![sink.closing(), sink.open_action(name)]);
        assert(asked.drop_last().drop_last() =~= seq![sink.closing()]);
        assert(asked.drop_last().drop_last().drop_last() =~= Seq::<SinkActionView>::empty());
    }
    assert(texts_asked(asked) =~= seq![text]);
}

/// Opening a sink and flushing it ask for no text to be written.
pub proof fn lemma_opening_asks_for_no_text(pattern: Seq<char>, level: u32)
    ensures
        texts_asked(PlanView::open(pattern, level).actions) == Seq::<Seq<char>>::empty(),
{
    reveal_with_fuel(texts_asked, 2);
    let opened = PlanView::open(pattern, level);
    if opened.actions.len() > 0 {
        assert(opened.actions.drop_last() =~= Seq::<SinkActionView>::empty());
    }
    assert(texts_asked(opened.actions) =~= Seq::<Seq<char>>::empty());
}

/// The texts arrive in the order in which they were written: where every
/// bucket has a name, the texts that the sink asks to be written are the
/// texts written to it, one for one and in their order, whatever the
/// destinations they go to.
pub proof fn lemma_writes_arrive_in_order(pattern: Seq<char>, level: u32, writes: Seq<WriteView>)
    requires
        destination_name(pattern, level, 0) is Some,
        forall|i: int| 0 <= i < writes.len() ==> (#[trigger] name_at(pattern, level, writes, i)) is Some,
    ensures
        written_all(PlanView::open(pattern, level), writes).failure is None,
        texts_asked(written_all(PlanView::open(pattern, level), writes).actions) == texts_written(
            writes,
        ),
    decreases writes.len(),
{
    let opened = PlanView::open(pattern, level);
    lemma_written_all_step(pattern, level, writes);
    if writes.len() == 0 {
        let start = SinkView::fresh(pattern, level).unwrap();
        assert(opened.actions =~= seq![start.opening()]);
        reveal_with_fuel(texts_asked, 2);
        assert(opened.actions.drop_last() =~= Seq::<SinkActionView>::empty());
        assert(texts_asked(opened.actions) =~= texts_written(writes));
    } else {
        let before = writes.drop_last();
        let last = writes.last();
        assert forall|i: int| 0 <= i < before.len() implies (#[trigger] name_at(
            pattern,
            level,
            before,
            i,
        )) is Some by {
            assert(name_at(pattern, level, writes, i) is Some);
        }
        lemma_writes_arrive_in_order(pattern, level, before);
        let sink = sink_after(pattern, level, before);
        let asked = sink.written(last.hour, last.text).unwrap().1;
        assert(name_at(pattern, level, writes, writes.len() - 1) is Some);
        lemma_texts_asked_concat(written_all(opened, before).actions, asked);
        lemma_write_asks_for_its_text(
            sink,
            destination_name(pattern, level, last.hour).unwrap(),
            last.text,
        );
        assert(texts_written(writes) =~= texts_written(before).push(last.text));
    }
}

/// The level of compression changes the names of the destinations and
/// nothing of what is written: the texts that a sink asks to be written are
/// the same at every level at which the buckets have names.
pub proof fn lemma_level_leaves_the_texts(
    pattern: Seq<char>,
    plain: u32,
    packed: u32,
    writes: Seq<WriteView>,
)
    requires
        destination_name(pattern, plain, 0) is Some,
        destination_name(pattern, packed, 0) is Some,
        forall|i: int| 0 <= i < writes.len() ==> (#[trigger] name_at(pattern, plain, writes, i)) is Some,
        forall|i: int| 0 <= i < writes.len() ==> (#[trigger] name_at(pattern, packed, writes, i)) is Some,
    ensures
        texts_asked(written_all(PlanView::open(pattern, plain), writes).actions) == texts_asked(
            written_all(PlanView::open(pattern, packed), writes).actions,
        ),
{
    lemma_writes_arrive_in_order(pattern, plain, writes);
    lemma_writes_arrive_in_order(pattern, packed, writes);
}

/// The destinations hold, for each name written to, the texts written for
/// its buckets, and there is no other destination.
pub open spec fn holds_buckets(
    store: Destinations,
    pattern: Seq<char>,
    level: u32,
    writes: Seq<WriteView>,
) -> bool {
    &&& forall|name: Seq<char>| #[trigger]
        store.files.contains_key(name) <==> written_to(pattern, level, writes, name)
    &&& forall|name: Seq<char>| #[trigger]
        store.files.contains_key(name) ==> store.files[name] == texts_for(
            pattern,
            level,
            writes,
            name,
        )
}

/// Each destination holds the records of its bucket, and nothing else.
///
/// When the writes to each destination follow one another, carrying out
/// what the sink asks for, where no destination was before, leaves one
/// destination for each name written to, and it holds the texts written for
/// its buckets in the order of the writes. A bucket that was not written to
/// leaves no destination: the one opened first is gone unless the first
/// write was for it.
pub proof fn lemma_destinations_hold_their_buckets(
    pattern: Seq<char>,
    level: u32,
    writes: Seq<WriteView>,
)
    requires
        in_runs(pattern, level, writes),
        writes.len() > 0,
    ensures
        ({
            let plan = written_all(PlanView::open(pattern, level), writes);
            let after = Destinations::empty().run(plan.actions);
            &&& plan.failure is None
            &&& after.open == name_at(pattern, level, writes, writes.len() - 1)
            &&& holds_buckets(after, pattern, level, writes)
        }),
    decreases writes.len(),
{
    let opened = PlanView::open(pattern, level);
    let first = destination_name(pattern, level, 0).unwrap();
    let n = writes.len() as int;
    let before = writes.drop_last();
    let last = writes.last();
    let name = name_at(pattern, level, writes, n - 1).unwrap();
    let plan_before = written_all(opened, before);
    let plan = written_all(opened, writes);
    let store_before = Destinations::empty().run(plan_before.actions);
    let after = Destinations::empty().run(plan.actions);
    let sink = sink_after(pattern, level, before);
    assert(name_at(pattern, level, writes, n - 1) is Some);
    lemma_written_all_step(pattern, level, writes);
    lemma_runs_of_prefix(pattern, level, writes);
    lemma_run_concat(
        Destinations::empty(),
        plan_before.actions,
        sink.written(last.hour, last.text).unwrap().1,
    );
    if n == 1 {
        let start = SinkView::fresh(pattern, level).unwrap();
        assert(sink == start);
        assert(opened.actions =~= seq![start.opening()]);
        lemma_run_one(Destinations::empty(), start.opening());
        assert(store_before.files =~= Map::<Seq<char>, Seq<Seq<char>>>::empty().insert(
            first,
            Seq::empty(),
        ));
        lemma_write_effect(store_before, sink, last.hour, last.text);
        assert(after.files =~= Map::<Seq<char>, Seq<Seq<char>>>::empty().insert(
            name,
            seq![last.text],
        ));
        assert(texts_for(pattern, level, before, name) =~= Seq::<Seq<char>>::empty());
        assert(texts_for(pattern, level, writes, name) =~= seq![last.text]);
        assert forall|other: Seq<char>| #[trigger]
            after.files.contains_key(other) <==> written_to(pattern, level, writes, other) by {
            lemma_written_to_step(pattern, level, writes, other);
        }
    } else {
        lemma_destinations_hold_their_buckets(pattern, level, before);
        let previous = name_at(pattern, level, writes, n - 2).unwrap();
        assert(name_at(pattern, level, before, n - 2) == Some(previous));
        assert(written_to(pattern, level, before, previous));
        assert(store_before.files.contains_key(previous));
        assert(texts_for(pattern, level, before, previous).len() > 0) by {
            assert(before.last() == writes[n - 2]);
        }
        lemma_write_effect(store_before, sink, last.hour, last.text);
        if name != previous {
            lemma_no_texts_for_absent_name(pattern, level, before, name);
            assert(!store_before.files.contains_key(name));
            assert(after.files =~= store_before.files.insert(name, seq![last.text]));
            assert(texts_for(pattern, level, writes, name) =~= seq![last.text]);
        }
        assert forall|other: Seq<char>| #[trigger]
            after.files.contains_key(other) <==> written_to(pattern, level, writes, other) by {
            lemma_written_to_step(pattern, level, writes, other);
        }
        assert forall|other: Seq<char>| #[trigger] after.files.contains_key(other) implies after.files[other]
            == texts_for(pattern, level, writes, other) by {
            if other != name {
                assert(store_before.files.contains_key(other));
            }
        }
    }
}

/// The suffix of the names of compressed destinations.
pub open spec fn packed_suffix() -> Seq<char> {
    seq!['.', 'g', 'z']
}

/// The name of the bucket `hour` at the compression level `packed` is its
/// name without compression, followed by the suffix of compressed
/// destinations.
pub open spec fn packed_like_plain(pattern: Seq<char>, packed: u32, hour: i64) -> bool {
    &&& destination_name(pattern, 0, hour) is Some
    &&& destination_name(pattern, packed, hour) == Some(
        destination_name(pattern, 0, hour).unwrap() + packed_suffix(),
    )
}

/// The names of the first destination and of the buckets written to differ
/// between the two levels by the suffix alone.
pub open spec fn packed_names_like_plain(
    pattern: Seq<char>,
    packed: u32,
    writes: Seq<WriteView>,
) -> bool {
    &&& packed_like_plain(pattern, packed, 0)
    &&& forall|i: int| 0 <= i < writes.len() ==> packed_like_plain(
        pattern,
        packed,
        (#[trigger] writes[i]).hour,
    )
}

proof fn lemma_suffix_cancels(a: Seq<char>, b: Seq<char>, suffix: Seq<char>)
    requires
        a + suffix == b + suffix,
    ensures
        a == b,
{
    assert((a + suffix).len() == a.len() + suffix.len());
    assert((b + suffix).len() == b.len() + suffix.len());
    assert forall|i: int| 0 <= i < a.len() implies a[i] == b[i] by {
        assert((a + suffix)[i] == a[i]);
        assert((b + suffix)[i] == b[i]);
    }
    assert(a =~= b);
}

proof fn lemma_packed_names_agree(
    pattern: Seq<char>,
    packed: u32,
    writes: Seq<WriteView>,
    i: int,
    j: int,
)
    requires
        packed_names_like_plain(pattern, packed, writes),
        0 <= i < writes.len(),
        0 <= j < writes.len(),
    ensures
        name_at(pattern, packed, writes, i) == name_at(pattern, packed, writes, j) <==> name_at(
            pattern,
            0,
            writes,
            i,
        ) == name_at(pattern, 0, writes, j),
        name_at(pattern, packed, writes, i) == destination_name(pattern, packed, 0) <==> name_at(
            pattern,
            0,
            writes,
            i,
        ) == destination_name(pattern, 0, 0),
        name_at(pattern, packed, writes, i) is Some,
        name_at(pattern, 0, writes, i) is Some,
{
    assert(packed_like_plain(pattern, packed, writes[i].hour));
    assert(packed_like_plain(pattern, packed, writes[j].hour));
    let a = name_at(pattern, 0, writes, i).unwrap();
    let b = name_at(pattern, 0, writes, j).unwrap();
    let first = destination_name(pattern, 0, 0).unwrap();
    if a + packed_suffix() == b + packed_suffix() {
        lemma_suffix_cancels(a, b, packed_suffix());
    }
    if a + packed_suffix() == first + packed_suffix() {
        lemma_suffix_cancels(a, first, packed_suffix());
    }
}

proof fn lemma_packed_texts(
    pattern: Seq<char>,
    packed: u32,
    writes: Seq<WriteView>,
    name: Seq<char>,
)
    requires
        packed_names_like_plain(pattern, packed, writes),
    ensures
        texts_for(pattern, packed, writes, name + packed_suffix()) == texts_for(
            pattern,
            0,
            writes,
            name,
        ),
        written_to(pattern, packed, writes, name + packed_suffix()) <==> written_to(
            pattern,
            0,
            writes,
            name,
        ),
    decreases writes.len(),
{
    if writes.len() > 0 {
        let before = writes.drop_last();
        let n = writes.len() as int;
        assert forall|i: int| 0 <= i < before.len() implies packed_like_plain(
            pattern,
            packed,
            (#[trigger] before[i]).hour,
        ) by {
            assert(packed_like_plain(pattern, packed, writes[i].hour));
        }
        lemma_packed_texts(pattern, packed, before, name);
        lemma_written_to_step(pattern, packed, writes, name + packed_suffix());
        lemma_written_to_step(pattern, 0, writes, name);
        assert(packed_like_plain(pattern, packed, writes[n - 1].hour));
        let last = name_at(pattern, 0, writes, n - 1).unwrap();
        if last + packed_suffix() == name + packed_suffix() {
            lemma_suffix_cancels(last, name, packed_suffix());
        }
    } else {
        assert(!written_to(pattern, packed, writes, name + packed_suffix()));
        assert(!written_to(pattern, 0, writes, name));
    }
}

proof fn lemma_packed_in_runs(pattern: Seq<char>, packed: u32, writes: Seq<WriteView>)
    requires
        in_runs(pattern, 0, writes),
        packed_names_like_plain(pattern, packed, writes),
    ensures
        in_runs(pattern, packed, writes),
{
    assert forall|i: int| 0 <= i < writes.len() implies (#[trigger] name_at(
        pattern,
        packed,
        writes,
        i,
    )) is Some by {
        lemma_packed_names_agree(pattern, packed, writes, i, i);
    }
    assert forall|i: int, j: int|
        0 <= i < j < writes.len() && name_at(pattern, packed, writes, i) == name_at(
            pattern,
            packed,
            writes,
            j,
        ) implies #[trigger] name_at(pattern, packed, writes, j - 1) == #[trigger] name_at(
        pattern,
        packed,
        writes,
        i,
    ) by {
        lemma_packed_names_agree(pattern, packed, writes, i, j);
        lemma_packed_names_agree(pattern, packed, writes, j - 1, i);
        assert(name_at(pattern, 0, writes, j - 1) == name_at(pattern, 0, writes, i));
    }
    assert forall|j: int|
        0 < j < writes.len() && #[trigger] name_at(pattern, packed, writes, j) == destination_name(
            pattern,
            packed,
            0,
        ) implies name_at(pattern, packed, writes, j - 1) == destination_name(
        pattern,
        packed,
        0,
    ) by {
        lemma_packed_names_agree(pattern, packed, writes, j, j);
        lemma_packed_names_agree(pattern, packed, writes, j - 1, j);
        assert(name_at(pattern, 0, writes, j) == destination_name(pattern, 0, 0));
    }
}

/// The name of the compressed destination that goes with `name`.
pub open spec fn packed_name(name: Seq<char>) -> Seq<char> {
    name + packed_suffix()
}

/// The destinations `packed` are the destinations `plain` under their
/// compressed names: there is one for each, and no other, and it holds the
/// same texts in the same order.
pub open spec fn same_but_for_names(plain: Destinations, packed: Destinations) -> bool {
    &&& forall|name: Seq<char>|
        plain.files.contains_key(name) <==> packed.files.contains_key(#[trigger] packed_name(name))
    &&& forall|name: Seq<char>|
        plain.files.contains_key(name) ==> packed.files[#[trigger] packed_name(name)]
            == plain.files[name]
    &&& forall|other: Seq<char>| #[trigger]
        packed.files.contains_key(other) ==> exists|name: Seq<char>|
            other == #[trigger] packed_name(name)
}

proof fn lemma_packed_destination_has_a_plain_name(
    pattern: Seq<char>,
    packed: u32,
    writes: Seq<WriteView>,
    other: Seq<char>,
)
    requires
        packed_names_like_plain(pattern, packed, writes),
        written_to(pattern, packed, writes, other),
    ensures
        exists|name: Seq<char>| other == #[trigger] packed_name(name),
{
    let i = choose|i: int|
        0 <= i < writes.len() && #[trigger] name_at(pattern, packed, writes, i) == Some(other);
    assert(packed_like_plain(pattern, packed, writes[i].hour));
    let name = name_at(pattern, 0, writes, i).unwrap();
    assert(other == packed_name(name));
}

/// Compressed or not, the destinations are the same but for their names.
///
/// Where the names at the two levels differ by the suffix alone, the same
/// writes leave a compressed destination for each destination that they
/// leave without compression, and no other, and the two are asked to hold
/// the same texts in the same order.
pub proof fn lemma_levels_leave_the_same_destinations(
    pattern: Seq<char>,
    packed: u32,
    writes: Seq<WriteView>,
)
    requires
        in_runs(pattern, 0, writes),
        packed_names_like_plain(pattern, packed, writes),
        writes.len() > 0,
    ensures
        written_all(PlanView::open(pattern, 0), writes).failure is None,
        written_all(PlanView::open(pattern, packed), writes).failure is None,
        same_but_for_names(
            Destinations::empty().run(written_all(PlanView::open(pattern, 0), writes).actions),
            Destinations::empty().run(
                written_all(PlanView::open(pattern, packed), writes).actions,
            ),
        ),
{
    lemma_packed_in_runs(pattern, packed, writes);
    lemma_destinations_hold_their_buckets(pattern, 0, writes);
    lemma_destinations_hold_their_buckets(pattern, packed, writes);
    let plain = Destinations::empty().run(written_all(PlanView::open(pattern, 0), writes).actions);
    let after = Destinations::empty().run(
        written_all(PlanView::open(pattern, packed), writes).actions,
    );
    assert(holds_buckets(plain, pattern, 0, writes));
    assert(holds_buckets(after, pattern, packed, writes));
    assert forall|name: Seq<char>|
        plain.files.contains_key(name) <==> after.files.contains_key(
            #[trigger] packed_name(name),
        ) by {
        lemma_packed_texts(pattern, packed, writes, name);
    }
    assert forall|name: Seq<char>| plain.files.contains_key(name) implies after.files[
        #[trigger] packed_name(name)] == plain.files[name] by {
        lemma_packed_texts(pattern, packed, writes, name);
    }
    assert forall|other: Seq<char>| #[trigger] after.files.contains_key(other) implies exists|
        name: Seq<char>,
    | other == #[trigger] packed_name(name) by {
        lemma_packed_destination_has_a_plain_name(pattern, packed, writes, other);
    }
}

/// A sink that is never written to leaves the destination it opened.
pub proof fn lemma_unwritten_sink_leaves_its_first_destination(
    pattern: Seq<char>,
    level: u32,
    store: Destinations,
)
    requires
        destination_name(pattern, level, 0) is Some,
    ensures
        ({
            let plan = PlanView::open(pattern, level).flush();
            let after = store.run(plan.actions);
            let first = destination_name(pattern, level, 0).unwrap();
            &&& plan.failure is None
            &&& after.files.contains_key(first)
            &&& after.open == Some(first)
        }),
{
    let start = SinkView::fresh(pattern, level).unwrap();
    let plan = PlanView::open(pattern, level).flush();
    assert(plan.actions =~= seq![start.opening()] + seq![SinkActionView::Flush]);
    lemma_run_concat(store, seq![start.opening()], seq![SinkActionView::Flush]);
    lemma_run_one(store, start.opening());
    lemma_run_one(store.apply(start.opening()), SinkActionView::Flush);
}

/// With a name pattern that holds no time, every bucket has the same
/// destination, and it gathers all records: what the destination held
/// before stays, the texts written follow it in their order, and no other
/// destination is touched.
pub proof fn lemma_plain_name_gathers_all(
    pattern: Seq<char>,
    level: u32,
    writes: Seq<WriteView>,
    store: Destinations,
)
    requires
        destination_name(pattern, level, 0) == Some(suffixed(pattern, level)),
        forall|i: int|
            0 <= i < writes.len() ==> #[trigger] name_at(pattern, level, writes, i) == Some(
                suffixed(pattern, level),
            ),
    ensures
        ({
            let name = suffixed(pattern, level);
            let plan = written_all(PlanView::open(pattern, level), writes);
            let after = store.run(plan.actions);
            &&& plan.failure is None
            &&& after.open == Some(name)
            &&& after.files.contains_key(name)
            &&& after.files[name] == store.content(name) + texts_written(writes)
            &&& forall|other: Seq<char>|
                other != name ==> (#[trigger] after.files.contains_key(other)
                    <==> store.files.contains_key(other))
            &&& forall|other: Seq<char>|
                other != name && store.files.contains_key(other) ==> #[trigger] after.files[other]
                    == store.files[other]
        }),
    decreases writes.len(),
{
    let name = suffixed(pattern, level);
    let opened = PlanView::open(pattern, level);
    let start = SinkView::fresh(pattern, level).unwrap();
    let plan = written_all(opened, writes);
    let after = store.run(plan.actions);
    lemma_written_all_step(pattern, level, writes);
    if writes.len() == 0 {
        assert(opened.actions =~= seq![start.opening()]);
        lemma_run_one(store, start.opening());
        assert(texts_written(writes) =~= Seq::<Seq<char>>::empty());
        assert(after.files[name] =~= store.content(name) + texts_written(writes));
    } else {
        let before = writes.drop_last();
        let last = writes.last();
        let n = writes.len() as int;
        assert forall|i: int| 0 <= i < before.len() implies #[trigger] name_at(
            pattern,
            level,
            before,
            i,
        ) == Some(name) by {
            assert(name_at(pattern, level, writes, i) == Some(name));
        }
        lemma_plain_name_gathers_all(pattern, level, before, store);
        let plan_before = written_all(opened, before);
        let store_before = store.run(plan_before.actions);
        let sink = sink_after(pattern, level, before);
        assert(name_at(pattern, level, writes, n - 1) == Some(name));
        if n > 1 {
            assert(name_at(pattern, level, before, n - 2) == Some(name));
        }
        assert(sink.filename == name);
        lemma_run_concat(store, plan_before.actions, sink.written(last.hour, last.text).unwrap().1);
        lemma_write_effect(store_before, sink, last.hour, last.text);
        assert(texts_written(writes) =~= texts_written(before).push(last.text));
        assert(after.files[name] =~= store.content(name) + texts_written(writes));
    }
}

} // verus!

//! The record of what a sink has asked for.
//!
//! A plan owns one sink and gathers the actions that writing to it calls
//! for, in order, up to the first failure. Whoever carries the actions out
//! takes them from the plan as they come, or all at the end.

use crate::models::line::LogError;
use crate::models::writer::{SinkAction, SinkActionView, SinkView, WrappedFileWriter};
use vstd::prelude::*;

verus! {

/// The state of a plan.
pub struct PlanView {
    /// The sink, once it is open.
    pub sink: Option<SinkView>,
    /// The actions asked for and not yet taken.
    pub actions: Seq<SinkActionView>,
    /// The failure that stopped the plan.
    pub failure: Option<LogError>,
}

impl PlanView {
    /// A plan that has stopped stays as it is; any other stops with `e`.
    pub open spec fn fail(self, e: LogError) -> PlanView {
        if self.failure is Some {
            self
        } else {
            PlanView { failure: Some(e), ..self }
        }
    }

    /// A plan that was stopped before a sink was opened.
    pub open spec fn stopped(e: LogError) -> PlanView {
        PlanView { sink: None, actions: Seq::empty(), failure: Some(e) }
    }

    /// A new plan: it opens the destination of bucket 0, or fails where
    /// that has no name.
    pub open spec fn open(pattern: Seq<char>, level: u32) -> PlanView {
        match SinkView::fresh(pattern, level) {
            Some(sink) => PlanView {
                sink: Some(sink),
                actions: seq![sink.opening()],
                failure: None,
            },
            None => PlanView {
                sink: None,
                actions: Seq::empty(),
                failure: Some(LogError::InvalidFileName),
            },
        }
    }

    /// The plan after `text` was written for the bucket `hour`. A plan that
    /// has stopped takes no more writes, and a bucket without a name stops
    /// the plan.
    pub open spec fn write(self, hour: i64, text: Seq<char>) -> PlanView {
        if self.failure is Some {
            self
        } else {
            match self.sink {
                Some(sink) => match sink.written(hour, text) {
                    Some((next, asked)) => PlanView {
                        sink: Some(next),
                        actions: self.actions + asked,
                        failure: None,
                    },
                    None => self.fail(LogError::InvalidFileName),
                },
                None => self,
            }
        }
    }

    /// The plan after a flush was asked for.
    pub open spec fn flush(self) -> PlanView {
        if self.failure is Some || self.sink is None {
            self
        } else {
            PlanView { actions: self.actions.push(SinkActionView::Flush), ..self }
        }
    }

    /// The plan after its actions were taken.
    pub open spec fn drained(self) -> PlanView {
        PlanView { actions: Seq::empty(), ..self }
    }

    /// What the plan comes to: its actions and its failure.
    pub open spec fn outcome(self) -> OutcomeView {
        OutcomeView { actions: self.actions, failure: self.failure }
    }
}

/// What an operation comes to: the actions to carry out, in order, and the
/// failure that stopped it, if one did. The actions before a failure stand.
#[derive(Debug, Clone, PartialEq, Eq)]
pub struct Outcome {
    pub actions: Vec<SinkAction>,
    pub failure: Option<LogError>,
}

/// The mathematical content of an [`Outcome`].
pub struct OutcomeView {
    pub actions: Seq<SinkActionView>,
    pub failure: Option<LogError>,
}

impl OutcomeView {
    /// The outcome followed by that of a later plan: a failure ends it.
    pub open spec fn followed_by(self, next: OutcomeView) -> OutcomeView {
        if self.failure is Some {
            self
        } else {
            OutcomeView { actions: self.actions + next.actions, failure: next.failure }
        }
    }
}

impl View for Outcome {
    type V = OutcomeView;

    open spec fn view(&self) -> OutcomeView {
        OutcomeView { actions: self.actions.deep_view(), failure: self.failure }
    }
}

/// The sink of the option `sink`, as a state.
pub open spec fn sink_view(sink: Option<WrappedFileWriter>) -> Option<SinkView> {
    match sink {
        Some(writer) => Some(writer@),
        None => None,
    }
}

/// One sink and the actions it has asked for.
#[derive(Debug)]
pub struct Plan {
    sink: Option<WrappedFileWriter>,
    actions: Vec<SinkAction>,
    failure: Option<LogError>,
}

impl View for Plan {
    type V = PlanView;

    closed spec fn view(&self) -> PlanView {
        PlanView {
            sink: sink_view(self.sink),
            actions: self.actions.deep_view(),
            failure: self.failure,
        }
    }
}

impl Plan {
    /// A plan for a new sink with the name pattern `filename_pattern`.
    pub fn open(filename_pattern: &str, compress_level: u32) -> (r: Plan)
        ensures
            r@ == PlanView::open(filename_pattern@, compress_level),
    {
        match WrappedFileWriter::new(filename_pattern, compress_level) {
            Ok(writer) => {
                let mut actions: Vec<SinkAction> = Vec::new();
                actions.push(writer.opening());
                assert(actions.deep_view() =~= seq![writer@.opening()]);
                Plan { sink: Some(writer), actions, failure: None }
            },
            Err(e) => {
                let actions: Vec<SinkAction> = Vec::new();
                assert(actions.deep_view() =~= Seq::empty());
                Plan { sink: None, actions, failure: Some(e) }
            },
        }
    }

    /// A plan that is stopped by `e` before a sink is opened: it asks for
    /// nothing.
    pub fn stopped(e: LogError) -> (r: Plan)
        ensures
            r@ == PlanView::stopped(e),
    {
        let actions: Vec<SinkAction> = Vec::new();
        assert(actions.deep_view() =~= Seq::empty());
        Plan { sink: None, actions, failure: Some(e) }
    }

    /// Stops the plan with `e`, unless it has stopped already.
    pub fn fail(&mut self, e: LogError)
        ensures
            final(self)@ == old(self)@.fail(e),
    {
        if self.failure.is_none() {
            self.failure = Some(e);
        }
    }

    /// The failure that stopped the plan.
    pub fn failure(&self) -> (r: Option<LogError>)
        ensures
            r == self@.failure,
    {
        self.failure
    }

    /// Writes `line` for the bucket `log_hour` to the sink of the plan.
    pub fn write(&mut self, log_hour: i64, line: &str)
        ensures
            final(self)@ == old(self)@.write(log_hour, line@),
    {
        if self.failure.is_some() {
            return ;
        }
        let ghost before = self.actions.deep_view();
        let mut sink = self.sink.take();
        match &mut sink {
            Some(writer) => {
                match writer.write(log_hour, line) {
                    Ok(mut asked) => {
                        let ghost more = asked.deep_view();
                        self.actions.append(&mut asked);
                        assert(self.actions.deep_view() =~= before + more);
                    },
                    Err(e) => {
                        self.failure = Some(e);
                    },
                }
            },
            None => {},
        }
        self.sink = sink;
    }

    /// Asks for the open destination to be flushed.
    pub fn flush(&mut self)
        ensures
            final(self)@ == old(self)@.flush(),
    {
        if self.failure.is_some() {
            return ;
        }
        let ghost before = self.actions.deep_view();
        let mut sink = self.sink.take();
        match &mut sink {
            Some(writer) => {
                let asked = writer.flush();
                self.actions.push(asked);
                assert(self.actions.deep_view() =~= before.push(SinkActionView::Flush));
            },
            None => {},
        }
        self.sink = sink;
    }

    /// Takes the actions gathered so far out of the plan.
    pub fn take_actions(&mut self) -> (r: Vec<SinkAction>)
        ensures
            r.deep_view() == old(self)@.actions,
            final(self)@ == old(self)@.drained(),
    {
        let mut taken: Vec<SinkAction> = Vec::new();
        assert(taken.deep_view() =~= Seq::empty());
        let ghost before = self.actions.deep_view();
        taken.append(&mut self.actions);
        assert(taken.deep_view() =~= before);
        assert(self.actions.deep_view() =~= Seq::empty());
        taken
    }

    /// Ends the plan: what it has asked for, and what stopped it.
    pub fn finish(self) -> (r: Outcome)
        ensures
            r@ == self@.outcome(),
    {
        Outcome { actions: self.actions, failure: self.failure }
    }
}

impl Outcome {
    /// Nothing to do, and no failure.
    pub fn new() -> (r: Outcome)
        ensures
            r@ == (OutcomeView { actions: Seq::empty(), failure: None }),
    {
        let actions: Vec<SinkAction> = Vec::new();
        assert(actions.deep_view() =~= Seq::empty());
        Outcome { actions, failure: None }
    }

    /// Only the failure `e`.
    pub fn failed(e: LogError) -> (r: Outcome)
        ensures
            r@ == (OutcomeView { actions: Seq::empty(), failure: Some(e) }),
    {
        let actions: Vec<SinkAction> = Vec::new();
        assert(actions.deep_view() =~= Seq::empty());
        Outcome { actions, failure: Some(e) }
    }

    /// Continues the outcome with that of a later plan, unless a failure
    /// has ended it.
    pub fn extend(&mut self, next: Outcome)
        ensures
            final(self)@ == old(self)@.followed_by(next@),
    {
        if self.failure.is_none() {
            let ghost before = self.actions.deep_view();
            let mut next = next;
            let ghost more = next.actions.deep_view();
            self.actions.append(&mut next.actions);
            assert(self.actions.deep_view() =~= before + more);
            self.failure = next.failure;
        }
    }
}

} // verus!

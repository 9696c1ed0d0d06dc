//! Equality and order of records. A record is the same as another when it
//! has the same text and comes from the same source; records are ordered by
//! their text, and records with one text by the name of their source.

use crate::models::line::LogLine;
use crate::text::{lemma_text_order, precedes, same_text, text_le};
use core::cmp::Ordering;
use vstd::prelude::*;
use vstd::std_specs::cmp::{PartialEqSpec, PartialOrdSpec};

verus! {

impl PartialEq for LogLine {
    fn eq(&self, other: &Self) -> (r: bool) {
        same_text(self.source(), other.source()) && same_text(self.text(), other.text())
    }
}

impl vstd::std_specs::cmp::PartialEqSpecImpl for LogLine {
    open spec fn obeys_eq_spec() -> bool {
        true
    }

    open spec fn eq_spec(&self, other: &Self) -> bool {
        self@ == other@
    }
}

impl Eq for LogLine {

}

impl PartialOrd for LogLine {
    fn partial_cmp(&self, other: &Self) -> (r: Option<Ordering>) {
        if !precedes(self.text(), other.text()) {
            Some(Ordering::Greater)
        } else if !precedes(other.text(), self.text()) {
            Some(Ordering::Less)
        } else if !precedes(self.source(), other.source()) {
            Some(Ordering::Greater)
        } else if !precedes(other.source(), self.source()) {
            Some(Ordering::Less)
        } else {
            Some(Ordering::Equal)
        }
    }
}

impl vstd::std_specs::cmp::PartialOrdSpecImpl for LogLine {
    open spec fn obeys_partial_cmp_spec() -> bool {
        true
    }

    open spec fn partial_cmp_spec(&self, other: &Self) -> Option<Ordering> {
        if !text_le(self@.line, other@.line) {
            Some(Ordering::Greater)
        } else if !text_le(other@.line, self@.line) {
            Some(Ordering::Less)
        } else if !text_le(self@.file, other@.file) {
            Some(Ordering::Greater)
        } else if !text_le(other@.file, self@.file) {
            Some(Ordering::Less)
        } else {
            Some(Ordering::Equal)
        }
    }
}

/// The order agrees with equality: two records are equal in the order if
/// and only if they are the same record, text and source. A record with
/// the text of another from another source is a record of its own.
pub proof fn lemma_equal_in_order_is_same_record(a: LogLine, b: LogLine)
    ensures
        a.partial_cmp_spec(&b) == Some(Ordering::Equal) <==> a.eq_spec(&b),
        a.eq_spec(&b) <==> a@.file == b@.file && a@.line == b@.line,
{
    lemma_text_order(a@.line, b@.line, b@.line);
    lemma_text_order(a@.file, b@.file, b@.file);
}

} // verus!

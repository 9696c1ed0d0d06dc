//! Patterns over record text, matched by the `regex` crate.
//!
//! What a regular expression matches is not restated here: the results of
//! the crate's functions are given names, and the contracts of the library
//! speak of those names.

use regex::Regex;
use vstd::prelude::*;
use vstd::string::*;

verus! {

/// Whether `regex::Regex::new` accepts `pattern`.
pub uninterp spec fn regex_compiles(pattern: Seq<char>) -> bool;

/// Whether the regular expression `pattern` has a match anywhere in `text`:
/// the result of `regex::Regex::is_match`.
pub uninterp spec fn regex_is_match(pattern: Seq<char>, text: Seq<char>) -> bool;

/// The part of `text` that the capture group `group` holds in the leftmost
/// match of `pattern`, as `regex::Regex::captures` reports it; `None` when
/// there is no match, no such group, or the group took no part in the
/// match.
pub uninterp spec fn regex_group(pattern: Seq<char>, text: Seq<char>, group: usize) -> Option<
    Seq<char>,
>;

/// The capture group that holds what the library reads from a record: the
/// timestamp in a start pattern, the correlation id in a trace pattern.
pub const FIRST_GROUP: usize = 1;

/// What the first capture group of `pattern` holds in `text`.
pub open spec fn regex_first_group(pattern: Seq<char>, text: Seq<char>) -> Option<Seq<char>> {
    regex_group(pattern, text, FIRST_GROUP)
}

/// The text inside an optional string.
pub open spec fn opt_text(s: Option<String>) -> Option<Seq<char>> {
    match s {
        Some(t) => Some(t@),
        None => None,
    }
}

/// Calls `regex::Regex::new` and reports whether it returned a regex.
/// Trusted: the result is the named outcome of compiling `pattern`.
#[verifier::external_body]
fn compiles(pattern: &str) -> (r: bool)
    ensures
        r == regex_compiles(pattern@),
{
    Regex::new(pattern).is_ok()
}

/// Compiles `pattern` with `regex::Regex::new` and calls
/// `regex::Regex::is_match` on it. Trusted: the result is the named match
/// result for `pattern` and `text`. A pattern that does not compile is
/// left out: the call would panic.
#[verifier::external_body]
fn is_match(pattern: &str, text: &str) -> (r: bool)
    requires
        regex_compiles(pattern@),
    ensures
        r == regex_is_match(pattern@, text@),
{
    Regex::new(pattern).unwrap().is_match(text)
}

/// Compiles `pattern` with `regex::Regex::new`, calls
/// `regex::Regex::captures` on it and copies out what the capture group
/// `group` matched. Trusted: the result is the named content of that group
/// for `pattern` and `text`. A pattern that does not compile is left out:
/// the call would panic.
#[verifier::external_body]
fn group_of_match(pattern: &str, text: &str, group: usize) -> (r: Option<String>)
    requires
        regex_compiles(pattern@),
    ensures
        opt_text(r) == regex_group(pattern@, text@, group),
{
    match Regex::new(pattern).unwrap().captures(text) {
        Some(found) => match found.get(group) {
            Some(part) => Some(part.as_str().to_string()),
            None => None,
        },
        None => None,
    }
}

/// A pattern that is known to compile.
///
/// The pattern is kept as text and compiled for each match, so that what a
/// match gives depends on the two texts alone.
pub struct Pattern {
    source: String,
}

impl Pattern {
    #[verifier::type_invariant]
    spec fn compiled(&self) -> bool {
        regex_compiles(self.source@)
    }

    /// The text of the pattern.
    pub closed spec fn view(&self) -> Seq<char> {
        self.source@
    }

    /// Accepts `source` when it is a regular expression that compiles.
    pub fn new(source: &str) -> (r: Option<Pattern>)
        ensures
            r is Some <==> regex_compiles(source@),
            r matches Some(p) ==> p@ == source@,
    {
        if compiles(source) {
            Some(Pattern { source: source.to_owned() })
        } else {
            None
        }
    }

    /// The text of the pattern.
    pub fn source(&self) -> (r: &str)
        ensures
            r@ == self@,
    {
        self.source.as_str()
    }

    /// Whether the pattern has a match anywhere in `text`.
    pub fn matches(&self, text: &str) -> (r: bool)
        ensures
            r == regex_is_match(self@, text@),
    {
        proof {
            use_type_invariant(self);
        }
        is_match(self.source.as_str(), text)
    }

    /// What the first capture group of the pattern holds in `text`, if
    /// anything.
    pub fn capture(&self, text: &str) -> (r: Option<String>)
        ensures
            opt_text(r) == regex_first_group(self@, text@),
    {
        proof {
            use_type_invariant(self);
        }
        group_of_match(self.source.as_str(), text, FIRST_GROUP)
    }

    /// A copy of the pattern.
    pub fn duplicate(&self) -> (r: Pattern)
        ensures
            r@ == self@,
    {
        proof {
            use_type_invariant(self);
        }
        Pattern { source: self.source.clone() }
    }
}

} // verus!

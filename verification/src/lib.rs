//! Verified core of a log reduction tool: record reassembly, chronological
//! merging, a rotating output sink and the extraction of long-running traces.
//!
//! The library decides; it performs no input or output. Readers hand it raw
//! lines, and it hands back records and the actions a sink has to carry out.
//!
//! - [`models`] holds the records, the reader that reassembles them, the
//!   sink, and the meaning of what the sink asks for.
//! - [`reducer`] merges the records of many sources into one stream in
//!   order and plans its writing.
//! - [`tracer`] finds the correlation ids whose records span a long time
//!   and plans the writing of each as one group.
//! - [`pattern`], [`clock`] and [`text`] hold what these rest on: matching,
//!   time, and the order of texts.

pub mod clock;
pub mod models;
pub mod pattern;
pub mod reducer;
pub mod text;
pub mod tracer;

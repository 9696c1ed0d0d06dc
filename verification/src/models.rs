//! The data of the pipeline and its two ends: the reader that reassembles
//! records from raw lines, and the sink that rotates over destinations.

pub mod line;
pub mod order;
pub mod plan;
pub mod reader;
pub mod store;
pub mod writer;

pub use line::{Log, LogDuration, LogError, LogLine};
pub use plan::{Outcome, Plan};
pub use reader::WrappedFileReader;
pub use writer::{SinkAction, WrappedFileWriter};

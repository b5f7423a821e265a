//! File output for a log pipeline: a sink that appends records to one file,
//! and a router that spreads records over files named per record. The sinks
//! are state machines: the caller performs each open, write, flush and
//! shutdown and reports how it went, and the sinks decide what happens next.

pub mod event;
pub mod encoding;
pub mod template;
pub mod file;
pub mod partitioned_file;

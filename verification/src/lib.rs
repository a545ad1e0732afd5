//! A log-structured merge engine: a sorted in-memory write buffer that is
//! merged, whenever it fills up, with the sorted segments of the current
//! generation into a new generation of size-bounded segments.
//!
//! - [`decimal`]: the decimal text of keys and revisions.
//! - [`codec`]: the line of a record, `<key>::<value>\n`.
//! - [`segment`]: the text of a segment and what it stores.
//! - [`memtable`]: the write buffer.
//! - [`merge`]: the two-way merge and the cut into segments.
//! - [`store`]: the tree of generations.
//! - [`generation`]: what the segments of a generation store together,
//!   and how a key finds its segment.
//! - [`lsm`]: the engine.
//!
//! Every function here is verified against the contract it carries. The
//! engine keeps its segments in memory, as the texts that would stand in
//! the files; writing them to a disk is left to the caller.

pub mod decimal;
pub mod codec;
pub mod segment;
pub mod memtable;
pub mod merge;
pub mod store;
pub mod generation;
pub mod lsm;

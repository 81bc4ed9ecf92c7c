//! A sort-based shuffle repartitioner.
//!
//! The repartitioner takes in batches of rows, assigns each row to one of `N`
//! output partitions by its hash, and in the end produces a data file that
//! holds the rows grouped by partition and an index file that holds the
//! offset at which each partition begins, so that a reader gets one
//! partition with one seek and one contiguous read.
//!
//! Rows are buffered until memory is asked back or the input ends. The buffer
//! is then frozen: its rows are sorted by partition and hash, cut into
//! sub-batches, serialized, and kept as a spill with an offset table of
//! `N + 1` entries. A spill lives in one of three tiers, the process heap, a
//! managed off-heap buffer, or a temporary file, and is promoted from one to
//! the next when memory has to be freed. The terminal write merges all spills
//! partition by partition with a loser tree over one cursor for each spill.
//!
//! The library decides and accounts; it does not touch record batches,
//! buffers or files. A driver hands it the hashes and the memory size of each
//! batch, serializes the sub-batches that a freeze plan names, moves the bytes
//! of a spill when it is promoted, and performs the copies of the merge plan.
//!
//! - [`partition`]: from a hash to a partition id.
//! - [`sort_key`]: the sort tuple of a row and the sort by partition.
//! - [`sub_batch`], [`freeze`]: the freeze plan.
//! - [`spill`]: the storage tiers, the offset table, and the assembly of a
//!   spill from serialized sub-batches.
//! - [`loser_tree`], [`cursor`], [`merge`]: the merge plan.
//! - [`index_file`]: the bytes of the index file.
//! - [`protocol`], [`repartitioner`]: the operator and what each of its steps
//!   does.

pub mod cursor;
pub mod freeze;
pub mod index_file;
pub mod loser_tree;
pub mod merge;
pub mod partition;
pub mod protocol;
pub mod repartitioner;
pub mod sort_key;
pub mod spill;
pub mod sub_batch;

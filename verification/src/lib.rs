//! Parallel scanning of a directory tree, as a verified library.
//!
//! A scan walks a tree with many workers at once. Each worker pops a
//! directory from a shared queue, lists it, hands the batch of its
//! entries to the aggregator and pushes the directories it found back
//! onto the queue. The scan is over when the queue is quiescent: empty,
//! with every worker parked in a pop. The aggregator sums the batches up
//! into a tree of statistics per directory, from which the report is
//! made.
//!
//! The library holds the rules of all this on plain values, and no thread
//! or file is touched by it: a program around it lists the directories,
//! shares the queue among its threads and prints.
//!
//! - `path`, `lex`, `util`: paths as byte strings, their order, the
//!   extension of a name.
//! - `entry`, `filter`, `worker`: the entries of a directory, the filters,
//!   and the batch that a worker makes of a listing.
//! - `worker_queue`, `orchestrator`, `scan`: the steps of the queue and of
//!   the thread that leads the scan, and the course of a scan over a tree.
//! - `topn`, `dirtree`, `exttable`, `stats`, `laws`: rankings, the tree,
//!   the bytes per extension, the aggregation, and what holds of it in
//!   whatever order the batches come.
//! - `record`, `report`: the lines of the file list and the sections of
//!   the usage report.
//! - `duration`, `config`, `tstatus`: duration literals, the settings, and
//!   the statuses of the threads.

pub mod config;
pub mod dirtree;
pub mod duration;
pub mod entry;
pub mod exttable;
pub mod filter;
pub mod laws;
pub mod lex;
pub mod orchestrator;
pub mod path;
pub mod record;
pub mod report;
pub mod scan;
pub mod stats;
pub mod topn;
pub mod tstatus;
pub mod util;
pub mod worker;
pub mod worker_queue;

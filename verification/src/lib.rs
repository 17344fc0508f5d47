//! Line counts of the files in a set of worktrees.
//!
//! [`cache::LineCountCache`] holds the counts of every entry and adds them up for
//! directories. [`worker::LineCountWorker`] keeps them up to date: it asks for
//! what has changed in batches and takes in the results as they come.
//! [`store::LineCountStore`] keeps counts from one session to the next, and
//! [`counting`] decides which files are counted and which counts can be trusted.
//!
//! What holds of the library as a whole stands in the modules whose names end in
//! `_laws`, and in `distinct`, `rows`, `counting` and `transaction` beside what
//! it is about.

#![allow(unused_imports)]

pub mod cache;
pub mod cache_laws;
pub mod candidate;
pub mod clock;
pub mod count_laws;
pub mod counting;
pub mod counting_laws;
pub mod counts;
pub mod distinct;
pub mod filter;
pub mod filter_laws;
pub mod follow_laws;
pub mod mtime;
pub mod order;
pub mod ordered_map;
pub mod path_laws;
pub mod progress;
pub mod queue;
pub mod rel_path;
pub mod rows;
pub mod schedule;
pub mod step_laws;
pub mod store;
pub mod store_laws;
pub mod sum;
pub mod text;
pub mod transaction;
pub mod update;
pub mod view_laws;
pub mod worker;
pub mod worker_laws;
pub mod worktree;

pub use cache::LineCountCache;
pub use candidate::{FileFingerprint, LineCountCandidate, Metadata};
pub use clock::unix_timestamp;
pub use counts::{
    is_unscanned_directory, EntryFingerprint, FileLineCount, LineCountAggregate, LineCountRequest,
    LineCountTotal, ProjectLineCount, ProjectLineCountFingerprint,
};
pub use filter::LineCountFilter;
pub use mtime::MTime;
pub use order::{Key, Precedence};
pub use ordered_map::OrderedMap;
pub use rel_path::{InvalidRelPath, RelPath};
pub use store::{LineCountStore, WorktreeRoot};
pub use update::LineCountUpdate;
pub use worker::{LineCountBatch, LineCountWorker};
pub use worktree::{Entry, EntryKind, PathStyle, Snapshot, UpdatedEntriesSet, WorktreeId};

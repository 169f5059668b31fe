//! Durable, atomic, ordered event streams, with what is built on them.
//!
//! - [`store`], [`reader`]: conditional appends, fences, forks, retention,
//!   reads, snapshots and compaction jobs, over an ordered key layout
//!   ([`kv`]). An [`EventStore`] works on the records that a transaction has
//!   read and logs what it writes; committing the log is the caller's.
//! - [`fuse`]: filesystem volumes as streams of deltas, with checkpoints,
//!   replicas, directory mirrors and the decisions behind a mount.
//! - [`sqlite`]: databases replicated page by page from their write-ahead log.
//!
//! What the operations promise together is stated and proved in [`stream`],
//! [`branches`] and [`folds`], what each of them keeps in [`upkeep`], what holds
//! of several calls in [`promises`], what single operations are for in
//! [`guarantees`], and the rest next to the types it is about.
pub mod aggregate;
pub mod branches;
pub mod digits;
pub mod envelope;
pub mod error;
pub mod folds;
pub mod footprint;
pub mod fork;
pub mod fuse;
pub mod guarantees;
pub mod jobs;
pub mod kv;
pub mod layout;
pub mod numbered;
pub mod order;
pub mod promises;
pub mod reader;
pub mod snapshot;
pub mod stamp;
pub mod sqlite;
pub mod store;
pub mod stream;
pub mod table;
pub mod text;
pub mod upkeep;
pub mod wire;

pub use aggregate::Aggregate;
pub use envelope::{Event, ExpectedVersion, NewEvent, Version};
pub use error::Error;
pub use jobs::{JobEvent, JobStatus};
pub use reader::EventStoreReader;
pub use snapshot::{CompactionRecord, SnapshotRecord};
pub use store::reads::{PageLimit, VersionRange};
pub use store::{CommitInfo, CommitTicket, EventStore, Transaction};

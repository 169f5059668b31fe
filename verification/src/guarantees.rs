//! What the operations are for, each stated of what goes in and what comes
//! out: bytes, versions, records and keys.
pub mod answers;
pub mod appends;
pub mod directories;
pub mod encodings;
pub mod handles;
pub mod jobs;
pub mod mirrors;
pub mod reads;
pub mod records;
pub mod replicas;
pub mod restore;
pub mod retention;
pub mod tails;
pub mod volumes;
pub mod wal;

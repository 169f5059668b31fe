//! Snapshots and the records that announce them.
use vstd::prelude::*;
use vstd::string::*;

use crate::envelope::Version;
use crate::stamp::now_ms;
use crate::table::Dup;

verus! {

/// Folded state of a stream at `through_version`; rehydration resumes at +1.
#[derive(Debug)]
pub struct SnapshotRecord {
    pub through_version: Version,
    pub ts_ms: i64,
    pub state: Vec<u8>,
}

pub struct SnapshotView {
    pub through_version: Version,
    pub ts_ms: i64,
    pub state: Seq<u8>,
}

impl View for SnapshotRecord {
    type V = SnapshotView;

    open spec fn view(&self) -> SnapshotView {
        SnapshotView {
            through_version: self.through_version,
            ts_ms: self.ts_ms,
            state: self.state@,
        }
    }
}

impl Dup for SnapshotRecord {
    fn dup(&self) -> (r: Self) {
        SnapshotRecord {
            through_version: self.through_version,
            ts_ms: self.ts_ms,
            state: self.state.dup(),
        }
    }
}

/// Written by every successful compaction: the hook for listeners (rebuild
/// projections, invalidate caches, schedule retention).
#[derive(Debug)]
pub struct CompactionRecord {
    pub stream: String,
    pub through_version: Version,
    pub events_compacted: u64,
    /// Correlates to a job lifecycle, for compactions that answered a
    /// request.
    pub job_id: Option<String>,
    pub ts_ms: i64,
}

pub struct CompactionView {
    pub stream: Seq<char>,
    pub through_version: Version,
    pub events_compacted: u64,
    pub job_id: Option<Seq<char>>,
    pub ts_ms: i64,
}

pub open spec fn opt_text(s: Option<String>) -> Option<Seq<char>> {
    match s {
        Some(s) => Some(s@),
        None => None,
    }
}

impl View for CompactionRecord {
    type V = CompactionView;

    open spec fn view(&self) -> CompactionView {
        CompactionView {
            stream: self.stream@,
            through_version: self.through_version,
            events_compacted: self.events_compacted,
            job_id: opt_text(self.job_id),
            ts_ms: self.ts_ms,
        }
    }
}

impl Dup for CompactionRecord {
    fn dup(&self) -> (r: Self) {
        CompactionRecord {
            stream: self.stream.clone(),
            through_version: self.through_version,
            events_compacted: self.events_compacted,
            job_id: match &self.job_id {
                Some(id) => Some(id.clone()),
                None => None,
            },
            ts_ms: self.ts_ms,
        }
    }
}

/// The record that announces a checkpoint of `name`.
pub open spec fn checkpoint_record(
    name: Seq<char>,
    through: Version,
    ts_ms: i64,
) -> CompactionView {
    CompactionView {
        stream: name,
        through_version: through,
        events_compacted: 0,
        job_id: None,
        ts_ms,
    }
}

/// The record that announces a checkpoint of `name` through a version.
pub fn record(name: &str, through_version: Version) -> (r: CompactionRecord)
    ensures
        r@ == checkpoint_record(name@, through_version, r.ts_ms),
{
    CompactionRecord {
        stream: name.to_owned(),
        through_version,
        events_compacted: 0,
        job_id: None,
        ts_ms: now_ms(),
    }
}

} // verus!

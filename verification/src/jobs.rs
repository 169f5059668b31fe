//! Compaction job lifecycle, journaled as records.
//!
//! Compaction is a process (requested, claimed, then completed or failed), so
//! its state is recorded as a journal and [`JobStatus`] is derived by folding
//! it. Completion lives in the correlated compaction record, which also
//! announces the published snapshot.
use vstd::prelude::*;
use vstd::string::*;

use crate::stamp::now_ms;
use crate::table::{views, Dup};
use crate::text::{debug_text, quoted};

verus! {

pub const JOBS_KEY: &'static str = "$jobs";

/// One lifecycle transition.
#[derive(Debug)]
pub enum JobEvent {
    Requested { job_id: String, stream: String, ts_ms: i64 },
    Claimed { job_id: String, worker: String, ts_ms: i64 },
    Failed { job_id: String, error: String, ts_ms: i64 },
}

pub enum JobEventView {
    Requested { job_id: Seq<char>, stream: Seq<char>, ts_ms: i64 },
    Claimed { job_id: Seq<char>, worker: Seq<char>, ts_ms: i64 },
    Failed { job_id: Seq<char>, error: Seq<char>, ts_ms: i64 },
}

impl View for JobEvent {
    type V = JobEventView;

    open spec fn view(&self) -> JobEventView {
        match self {
            JobEvent::Requested { job_id, stream, ts_ms } => JobEventView::Requested {
                job_id: job_id@,
                stream: stream@,
                ts_ms: *ts_ms,
            },
            JobEvent::Claimed { job_id, worker, ts_ms } => JobEventView::Claimed {
                job_id: job_id@,
                worker: worker@,
                ts_ms: *ts_ms,
            },
            JobEvent::Failed { job_id, error, ts_ms } => JobEventView::Failed {
                job_id: job_id@,
                error: error@,
                ts_ms: *ts_ms,
            },
        }
    }
}

impl JobEventView {
    pub open spec fn job_id(self) -> Seq<char> {
        match self {
            JobEventView::Requested { job_id, .. } => job_id,
            JobEventView::Claimed { job_id, .. } => job_id,
            JobEventView::Failed { job_id, .. } => job_id,
        }
    }

    pub open spec fn ts_ms(self) -> i64 {
        match self {
            JobEventView::Requested { ts_ms, .. } => ts_ms,
            JobEventView::Claimed { ts_ms, .. } => ts_ms,
            JobEventView::Failed { ts_ms, .. } => ts_ms,
        }
    }

    /// The state that a job is in after this transition.
    pub open spec fn status(self) -> JobStatusView {
        match self {
            JobEventView::Requested { .. } => JobStatusView::Pending,
            JobEventView::Claimed { worker, .. } => JobStatusView::Claimed { worker },
            JobEventView::Failed { error, .. } => JobStatusView::Failed { error },
        }
    }
}

impl Dup for JobEvent {
    fn dup(&self) -> (r: Self) {
        match self {
            JobEvent::Requested { job_id, stream, ts_ms } => JobEvent::Requested {
                job_id: job_id.clone(),
                stream: stream.clone(),
                ts_ms: *ts_ms,
            },
            JobEvent::Claimed { job_id, worker, ts_ms } => JobEvent::Claimed {
                job_id: job_id.clone(),
                worker: worker.clone(),
                ts_ms: *ts_ms,
            },
            JobEvent::Failed { job_id, error, ts_ms } => JobEvent::Failed {
                job_id: job_id.clone(),
                error: error.clone(),
                ts_ms: *ts_ms,
            },
        }
    }
}

impl JobEvent {
    pub fn requested(job_id: String, stream: String) -> (r: Self)
        ensures
            r@ == (JobEventView::Requested {
                job_id: job_id@,
                stream: stream@,
                ts_ms: r@.ts_ms(),
            }),
    {
        JobEvent::Requested { job_id, stream, ts_ms: now_ms() }
    }

    pub fn claimed(job_id: String, worker: String) -> (r: Self)
        ensures
            r@ == (JobEventView::Claimed {
                job_id: job_id@,
                worker: worker@,
                ts_ms: r@.ts_ms(),
            }),
    {
        JobEvent::Claimed { job_id, worker, ts_ms: now_ms() }
    }

    pub fn failed(job_id: String, error: String) -> (r: Self)
        ensures
            r@ == (JobEventView::Failed { job_id: job_id@, error: error@, ts_ms: r@.ts_ms() }),
    {
        JobEvent::Failed { job_id, error, ts_ms: now_ms() }
    }

    pub fn job_id(&self) -> (r: &str)
        ensures
            r@ == self@.job_id(),
    {
        match self {
            JobEvent::Requested { job_id, .. } => job_id.as_str(),
            JobEvent::Claimed { job_id, .. } => job_id.as_str(),
            JobEvent::Failed { job_id, .. } => job_id.as_str(),
        }
    }
}

/// Derived state of a compaction job.
#[derive(Debug, PartialEq, Eq)]
pub enum JobStatus {
    /// Requested and waiting for a worker.
    Pending,
    /// Claimed but not completed. A claim older than the chosen timeout can be
    /// retried; snapshot publication is atomic and the latest snapshot wins.
    Claimed { worker: String },
    /// A compaction record with this job id was published.
    Completed,
    Failed { error: String },
}

pub enum JobStatusView {
    Pending,
    Claimed { worker: Seq<char> },
    Completed,
    Failed { error: Seq<char> },
}

impl View for JobStatus {
    type V = JobStatusView;

    open spec fn view(&self) -> JobStatusView {
        match self {
            JobStatus::Pending => JobStatusView::Pending,
            JobStatus::Claimed { worker } => JobStatusView::Claimed { worker: worker@ },
            JobStatus::Completed => JobStatusView::Completed,
            JobStatus::Failed { error } => JobStatusView::Failed { error: error@ },
        }
    }
}

pub open spec fn opt_status(s: Option<JobStatus>) -> Option<JobStatusView> {
    match s {
        Some(s) => Some(s@),
        None => None,
    }
}

/// A job is in the state that its last transition left it in; without one it
/// is unknown.
pub open spec fn folded(events: Seq<JobEventView>) -> Option<JobStatusView> {
    if events.len() == 0 {
        None
    } else {
        Some(events.last().status())
    }
}

pub fn fold(events: &Vec<JobEvent>) -> (r: Option<JobStatus>)
    ensures
        opt_status(r) == folded(views(events@)),
{
    if events.len() == 0 {
        return None;
    }
    match &events[events.len() - 1] {
        JobEvent::Requested { .. } => Some(JobStatus::Pending),
        JobEvent::Claimed { worker, .. } => Some(JobStatus::Claimed { worker: worker.clone() }),
        JobEvent::Failed { error, .. } => Some(JobStatus::Failed { error: error.clone() }),
    }
}

/// A status as text.
pub open spec fn status_text(s: Option<JobStatusView>) -> Seq<char> {
    match s {
        None => "None"@,
        Some(JobStatusView::Pending) => "Some(Pending)"@,
        Some(JobStatusView::Claimed { worker }) => "Some(Claimed { worker: "@ + debug_text(worker)
            + " })"@,
        Some(JobStatusView::Completed) => "Some(Completed)"@,
        Some(JobStatusView::Failed { error }) => "Some(Failed { error: "@ + debug_text(error)
            + " })"@,
    }
}

/// A status as text.
pub fn status_message(s: &Option<JobStatus>) -> (r: String)
    ensures
        r@ == status_text(opt_status(*s)),
{
    match s {
        None => "None".to_owned(),
        Some(JobStatus::Pending) => "Some(Pending)".to_owned(),
        Some(JobStatus::Claimed { worker }) => {
            let mut msg = "Some(Claimed { worker: ".to_owned();
            msg.append(quoted(worker.as_str()).as_str());
            msg.append(" })");
            msg
        },
        Some(JobStatus::Completed) => "Some(Completed)".to_owned(),
        Some(JobStatus::Failed { error }) => {
            let mut msg = "Some(Failed { error: ".to_owned();
            msg.append(quoted(error.as_str()).as_str());
            msg.append(" })");
            msg
        },
    }
}

} // verus!

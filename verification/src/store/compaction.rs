//! Snapshots, compaction and the compaction job journal.
use vstd::prelude::*;
use vstd::string::*;

use crate::aggregate::{fold_from, Aggregate};
use crate::digits::{be_bytes, dec16, push_dec16};
use crate::envelope::{EnvelopeView, Event, Version};
use crate::error::{refuse, says, Error};
use crate::fork::{history_between, history_of};
use crate::jobs::{
    self, folded, opt_status, status_text, JobEvent, JobEventView, JobStatus, JobStatusView,
};
use crate::kv::{
    compactions_prefix, get_be_or_zero, has_good_tail, is_fault, jobs_prefix, seq_key, snap_prefix,
    snap_prefix_of, Db, Records, Value, ValueView, COMPACTIONS_PREFIX, Fault, JOBS_PREFIX,
    SEQ_KEY,
};
use crate::numbered::{find_numbered, numbered, numbers};
use crate::order::copy_of;
use crate::snapshot::{opt_text, CompactionRecord, CompactionView, SnapshotRecord, SnapshotView};
use crate::stamp::{is_id, new_id, now_ms};
use crate::store::{current_version, number_cell, seq_of, EventStore};
use crate::table::{listing, under, views, Dup, Key};
use crate::text::{same_text, utf8};

verus! {

/// The snapshots of a stream, oldest first.
pub open spec fn snapshots(db: Db, stream: Seq<u8>) -> Seq<(Seq<u8>, ValueView)> {
    numbered(db, snap_prefix_of(stream), 0, None)
}

/// The keys of a stream's snapshots, which end in the digits of a sequence.
pub open spec fn snap_range(stream: Seq<u8>) -> spec_fn(Seq<u8>) -> bool {
    numbers(snap_prefix_of(stream), 0, None)
}

/// Whether the latest snapshot, where there is one, is one.
pub open spec fn snapshot_readable(db: Db, stream: Seq<u8>) -> bool {
    let rows = snapshots(db, stream);
    rows.len() > 0 ==> rows.last().1 is Snapshot
}

/// The latest snapshot.
pub open spec fn snapshot_of(db: Db, stream: Seq<u8>) -> Option<SnapshotView> {
    let rows = snapshots(db, stream);
    if rows.len() > 0 {
        Some(rows.last().1->Snapshot_0)
    } else {
        None
    }
}

/// The latest snapshot of `stream` among `db`'s records.
pub fn latest_snapshot(db: &Records, stream: &str) -> (r: Result<Option<SnapshotRecord>, Error>)
    ensures
        match r {
            Ok(Some(s)) => snapshot_readable(db@, utf8(stream@)) && snapshot_of(
                db@,
                utf8(stream@),
            ) == Some(s@),
            Ok(None) => snapshot_readable(db@, utf8(stream@)) && snapshot_of(
                db@,
                utf8(stream@),
            ) is None,
            Err(e) => !snapshot_readable(db@, utf8(stream@)) && e is Encoding,
        },
{
    let prefix = snap_prefix(stream);
    let at = find_numbered(db, prefix.as_slice(), 0, None);
    let ghost rows = snapshots(db@, utf8(stream@));
    if at.len() == 0 {
        return Ok(None);
    }
    let last: usize = at[at.len() - 1];
    assert(rows.last() == db.entries()[last as int]);
    match db.value_at(last) {
        Value::Snapshot(s) => Ok(Some(s.dup())),
        _ => Err(Error::Encoding("unexpected kind of record".to_owned())),
    }
}

/// The compaction announcements, in key order.
pub open spec fn compactions(db: Db) -> Seq<(Seq<u8>, ValueView)> {
    listing(db, under(compactions_prefix()))
}

pub open spec fn all_compactions(rows: Seq<(Seq<u8>, ValueView)>) -> bool {
    forall|i: int| 0 <= i < rows.len() ==> (#[trigger] rows[i]).1 is Compaction
}

pub open spec fn compaction_views(rows: Seq<(Seq<u8>, ValueView)>) -> Seq<CompactionView> {
    Seq::new(rows.len(), |i: int| rows[i].1->Compaction_0)
}

/// All compaction records among `db`'s records.
pub fn compaction_records(db: &Records) -> (r: Result<Vec<CompactionRecord>, Error>)
    ensures
        match r {
            Ok(c) => all_compactions(compactions(db@)) && views(c@) == compaction_views(
                compactions(db@),
            ),
            Err(e) => !all_compactions(compactions(db@)) && e is Encoding,
        },
{
    let none: Vec<u8> = Vec::new();
    assert(none@ =~= Seq::<u8>::empty());
    let (a, b) = db.range(COMPACTIONS_PREFIX.as_bytes(), none.as_slice(), None);
    let ghost rows = compactions(db@);
    assert(rows == db.entries().subrange(a as int, b as int));
    let mut out: Vec<CompactionRecord> = Vec::new();
    let mut i: usize = a;
    while i < b
        invariant
            a <= i <= b <= db.entries().len(),
            rows == compactions(db@),
            rows == db.entries().subrange(a as int, b as int),
            out.len() == i - a,
            forall|j: int|
                0 <= j < i - a ==> (#[trigger] rows[j]).1 == ValueView::Compaction(out@[j]@),
        decreases b - i,
    {
        assert(rows[i - a] == db.entries()[i as int]);
        match db.value_at(i) {
            Value::Compaction(c) => out.push(c.dup()),
            _ => return Err(Error::Encoding("unexpected kind of record".to_owned())),
        }
        i += 1;
    }
    assert(views(out@) =~= compaction_views(rows));
    Ok(out)
}

/// The job journal, in key order.
pub open spec fn journal(db: Db) -> Seq<(Seq<u8>, ValueView)> {
    listing(db, under(jobs_prefix()))
}

pub open spec fn all_jobs(rows: Seq<(Seq<u8>, ValueView)>) -> bool {
    forall|i: int| 0 <= i < rows.len() ==> (#[trigger] rows[i]).1 is Job
}

/// The journaled transitions of one job, in order.
pub open spec fn transitions(rows: Seq<(Seq<u8>, ValueView)>, job_id: Seq<char>) -> Seq<
    JobEventView,
>
    decreases rows.len(),
{
    if rows.len() == 0 {
        Seq::empty()
    } else {
        let rest = transitions(rows.drop_last(), job_id);
        let e = rows.last().1->Job_0;
        if e.job_id() == job_id {
            rest.push(e)
        } else {
            rest
        }
    }
}

/// The transitions of `job_id` among `db`'s records.
pub fn job_events(db: &Records, job_id: &str) -> (r: Result<Vec<JobEvent>, Error>)
    ensures
        match r {
            Ok(e) => all_jobs(journal(db@)) && views(e@) == transitions(journal(db@), job_id@),
            Err(e) => !all_jobs(journal(db@)) && e is Encoding,
        },
{
    let none: Vec<u8> = Vec::new();
    assert(none@ =~= Seq::<u8>::empty());
    let (a, b) = db.range(JOBS_PREFIX.as_bytes(), none.as_slice(), None);
    let ghost rows = journal(db@);
    assert(rows == db.entries().subrange(a as int, b as int));
    let mut out: Vec<JobEvent> = Vec::new();
    let mut i: usize = a;
    assert(rows.take(0) =~= Seq::empty());
    assert(views(out@) =~= Seq::<JobEventView>::empty());
    while i < b
        invariant
            a <= i <= b <= db.entries().len(),
            rows == journal(db@),
            rows == db.entries().subrange(a as int, b as int),
            all_jobs(rows.take(i - a)),
            views(out@) == transitions(rows.take(i - a), job_id@),
        decreases b - i,
    {
        let ghost t = rows.take(i + 1 - a);
        let ghost before = views(out@);
        proof {
            assert(t.drop_last() =~= rows.take(i - a));
            assert(t.last() == rows[i - a]);
            assert(rows[i - a] == db.entries()[i as int]);
        }
        match db.value_at(i) {
            Value::Job(e) => {
                assert(all_jobs(t)) by {
                    assert forall|j: int| 0 <= j < t.len() implies (#[trigger] t[j]).1 is Job by {
                        if j < i - a {
                            assert(t[j] == rows.take(i - a)[j]);
                        }
                    }
                }
                if same_text(e.job_id(), job_id) {
                    out.push(e.dup());
                    assert(views(out@) =~= before.push(e@));
                }
            },
            _ => {
                assert(!(rows[i - a].1 is Job));
                return Err(Error::Encoding("unexpected kind of record".to_owned()));
            },
        }
        i += 1;
    }
    assert(rows.take(i - a) =~= rows);
    Ok(out)
}

/// The key of the n-th snapshot of a stream.
pub open spec fn snap_key_of(stream: Seq<u8>, seq: nat) -> Seq<u8> {
    snap_prefix_of(stream) + dec16(seq)
}

/// The snapshot, its announcement under `id`, and the bumped counter.
pub open spec fn published(
    db: Db,
    stream: Seq<u8>,
    record: CompactionView,
    state: Seq<u8>,
    id: Seq<char>,
) -> Db {
    db.insert(
        snap_key_of(stream, seq_of(db) + 1),
        ValueView::Snapshot(
            SnapshotView { through_version: record.through_version, ts_ms: record.ts_ms, state },
        ),
    ).insert(
        compactions_prefix() + utf8(id),
        ValueView::Compaction(record),
    ).insert(seq_key(), number_cell(seq_of(db) + 1))
}

/// What a publication does: both records and the counter, or nothing when the
/// counter is used up.
pub open spec fn publish_outcome(
    before: Db,
    after: Db,
    stream: Seq<u8>,
    record: CompactionView,
    state: Seq<u8>,
    id: Seq<char>,
    r: Result<(), Error>,
) -> bool {
    if seq_of(before) < u64::MAX {
        r is Ok && after == published(before, stream, record, state, id)
    } else {
        r is Err && says(r->Err_0, "sequences exhausted"@) && after == before
    }
}

/// The record of a compaction of the events `s`.
pub open spec fn record_of(
    stream: Seq<char>,
    s: Seq<EnvelopeView>,
    job_id: Option<Seq<char>>,
    ts_ms: i64,
) -> CompactionView {
    CompactionView {
        stream,
        through_version: s.last().version,
        events_compacted: s.len() as u64,
        job_id,
        ts_ms,
    }
}

/// What a compaction comes to, given the history `s` and the state that was
/// built from it.
pub open spec fn compact_outcome(
    before: Db,
    after: Db,
    stream: Seq<char>,
    s: Seq<EnvelopeView>,
    job_id: Option<Seq<char>>,
    state: Seq<u8>,
    id: Seq<char>,
    ts_ms: i64,
    r: Result<CompactionRecord, Error>,
) -> bool {
    if s.len() == 0 {
        r is Err && says(r->Err_0, "'"@ + stream + "' has no events to compact"@) && after
            == before
    } else if seq_of(before) >= u64::MAX {
        r is Err && says(r->Err_0, "sequences exhausted"@) && after == before
    } else {
        let record = record_of(stream, s, job_id, ts_ms);
        r is Ok && r->Ok_0@ == record && after == published(
            before,
            utf8(stream),
            record,
            state,
            id,
        )
    }
}

/// What a compaction comes to with some identifier and some time.
pub open spec fn compact_stamped(
    before: Db,
    after: Db,
    stream: Seq<char>,
    s: Seq<EnvelopeView>,
    job_id: Option<Seq<char>>,
    state: Seq<u8>,
    r: Result<CompactionRecord, Error>,
) -> bool {
    exists|id: Seq<char>, ts_ms: i64|
        is_id(id) && #[trigger] compact_outcome(
            before,
            after,
            stream,
            s,
            job_id,
            state,
            id,
            ts_ms,
            r,
        )
}

/// Journal records keyed by a fresh identifier.
pub open spec fn job_key_of(id: Seq<char>) -> Seq<u8> {
    jobs_prefix() + utf8(id)
}

fn job_key(id: &str) -> (r: Vec<u8>)
    ensures
        r@ == job_key_of(id@),
{
    let mut r = copy_of(JOBS_PREFIX.as_bytes());
    r.extend_from_slice(id.as_bytes());
    assert(r@ =~= job_key_of(id@));
    r
}

/// Whether one of the records answers `job_id`.
pub open spec fn is_answered(records: Seq<CompactionView>, job_id: Seq<char>) -> bool {
    exists|i: int| 0 <= i < records.len() && (#[trigger] records[i]).job_id == Some(job_id)
}

/// The status of a job: completed if a compaction record carries its id, else
/// what the journal says.
pub open spec fn status_of(db: Db, job_id: Seq<char>) -> Option<JobStatusView> {
    if is_answered(compaction_views(compactions(db)), job_id) {
        Some(JobStatusView::Completed)
    } else {
        folded(transitions(journal(db), job_id))
    }
}

/// Whether the status of a job can be read: the compaction records, and where
/// none answers the job its journal.
pub open spec fn status_readable(db: Db, job_id: Seq<char>) -> bool {
    &&& all_compactions(compactions(db))
    &&& is_answered(compaction_views(compactions(db)), job_id) || all_jobs(journal(db))
}

fn answered(records: &Vec<CompactionRecord>, job_id: &str) -> (r: bool)
    ensures
        r == is_answered(views(records@), job_id@),
{
    let mut i: usize = 0;
    while i < records.len()
        invariant
            i <= records.len(),
            forall|j: int|
                0 <= j < i ==> (#[trigger] views(records@)[j]).job_id != Some(job_id@),
        decreases records.len() - i,
    {
        if let Some(id) = &records[i].job_id {
            if same_text(id.as_str(), job_id) {
                assert(views(records@)[i as int].job_id == Some(job_id@));
                return true;
            }
        }
        i += 1;
    }
    false
}

impl EventStore {
    /// Latest snapshot for `stream`, if any.
    pub fn latest_snapshot(&self, stream: &str) -> (r: Result<Option<SnapshotRecord>, Error>)
        ensures
            match r {
                Ok(Some(s)) => snapshot_readable(self@, utf8(stream@)) && snapshot_of(
                    self@,
                    utf8(stream@),
                ) == Some(s@),
                Ok(None) => snapshot_readable(self@, utf8(stream@)) && snapshot_of(
                    self@,
                    utf8(stream@),
                ) is None,
                Err(e) => !snapshot_readable(self@, utf8(stream@)) && e is Encoding,
            },
    {
        latest_snapshot(self.db(), stream)
    }

    /// All compaction records written so far.
    pub fn compaction_records(&self) -> (r: Result<Vec<CompactionRecord>, Error>)
        ensures
            match r {
                Ok(c) => all_compactions(compactions(self@)) && views(c@) == compaction_views(
                    compactions(self@),
                ),
                Err(e) => !all_compactions(compactions(self@)) && e is Encoding,
            },
    {
        compaction_records(self.db())
    }

    /// Publishes an already durable snapshot for `stream` and announces the
    /// compaction under `id`, in one transaction.
    pub fn publish_snapshot_as(
        &mut self,
        stream: &str,
        record: CompactionRecord,
        state: Vec<u8>,
        id: &str,
    ) -> (r: Result<(), Error>)
        ensures
            publish_outcome(
                old(self)@,
                final(self)@,
                utf8(stream@),
                record@,
                state@,
                id@,
                r,
            ),
            final(self).base() == old(self).base(),
    {
        let seq = get_be_or_zero(self.db(), SEQ_KEY.as_bytes());
        if seq == u64::MAX {
            return Err(refuse("sequences exhausted"));
        }
        let seq: u64 = seq + 1;
        let mut snap_key = snap_prefix(stream);
        push_dec16(&mut snap_key, seq);
        let snap = SnapshotRecord {
            through_version: record.through_version,
            ts_ms: record.ts_ms,
            state,
        };
        let mut announce = copy_of(COMPACTIONS_PREFIX.as_bytes());
        announce.extend_from_slice(id.as_bytes());
        assert(announce@ =~= compactions_prefix() + utf8(id@));
        self.put(snap_key, Value::Snapshot(snap));
        self.put(announce, Value::Compaction(record));
        self.put(copy_of(SEQ_KEY.as_bytes()), Value::Bytes(be_bytes(seq)));
        Ok(())
    }

    /// Publishes an **already durable** snapshot for `stream` and announces
    /// the compaction, atomically, in one transaction. Any data referenced by
    /// `state` must be durable before this call.
    pub fn publish_snapshot(&mut self, stream: &str, record: CompactionRecord, state: Vec<u8>) -> (r:
        Result<(), Error>)
        ensures
            exists|id: Seq<char>| #[trigger]
                is_id(id) && publish_outcome(
                    old(self)@,
                    final(self)@,
                    utf8(stream@),
                    record@,
                    state@,
                    id,
                    r,
                ),
            final(self).base() == old(self).base(),
    {
        let id = new_id();
        self.publish_snapshot_as(stream, record, state, id.as_str())
    }

    /// Publishes the state built from `events`, the stream's history.
    pub fn compact_events(
        &mut self,
        stream: &str,
        events: &Vec<Event>,
        job_id: Option<String>,
        state: Vec<u8>,
        id: &str,
        ts_ms: i64,
    ) -> (r: Result<CompactionRecord, Error>)
        ensures
            compact_outcome(
                old(self)@,
                final(self)@,
                stream@,
                views(events@),
                opt_text(job_id),
                state@,
                id@,
                ts_ms,
                r,
            ),
            final(self).base() == old(self).base(),
    {
        if events.len() == 0 {
            let mut msg = "'".to_owned();
            msg.append(stream);
            msg.append("' has no events to compact");
            return Err(Error::InvalidInput(msg));
        }
        let record = CompactionRecord {
            stream: stream.to_owned(),
            through_version: events[events.len() - 1].version,
            events_compacted: events.len() as u64,
            job_id,
            ts_ms,
        };
        assert(views(events@).last() == events@[events.len() - 1]@);
        let copy = record.dup();
        match self.publish_snapshot_as(stream, copy, state, id) {
            Ok(_) => Ok(record),
            Err(e) => Err(e),
        }
    }

    fn compact_inner<F: FnOnce(&Vec<Event>) -> Result<Vec<u8>, Error>>(
        &mut self,
        stream: &str,
        job_id: Option<String>,
        build: F,
    ) -> (r: Result<CompactionRecord, Error>)
        requires
            forall|e: &Vec<Event>| #[trigger] build.requires((e,)),
        ensures
            build_outcome(old(self)@, final(self)@, stream@, opt_text(job_id), build, r),
            final(self).base() == old(self).base(),
    {
        let events = match history_between(self.db(), stream, 0, None) {
            Ok(e) => e,
            Err(e) => return Err(e),
        };
        let built = build(&events);
        assert(build.ensures((&events,), built));
        match built {
            Ok(state) => {
                let id = new_id();
                let now = now_ms();
                self.compact_events(stream, &events, job_id, state, id.as_str(), now)
            },
            Err(e) => Err(e),
        }
    }

    /// Folds `stream`'s full logical history, snapshots it with `build`, and
    /// publishes a [`CompactionRecord`] for listeners. Compaction is logical:
    /// events aren't deleted.
    pub fn compact_with<F: FnOnce(&Vec<Event>) -> Result<Vec<u8>, Error>>(
        &mut self,
        stream: &str,
        build: F,
    ) -> (r: Result<CompactionRecord, Error>)
        requires
            forall|e: &Vec<Event>| #[trigger] build.requires((e,)),
        ensures
            build_outcome(old(self)@, final(self)@, stream@, None, build, r),
            final(self).base() == old(self).base(),
    {
        self.compact_inner(stream, None, build)
    }

    /// [`compact_with`](Self::compact_with) answering a claimed compaction
    /// job.
    pub fn compact_job<F: FnOnce(&Vec<Event>) -> Result<Vec<u8>, Error>>(
        &mut self,
        stream: &str,
        job_id: String,
        build: F,
    ) -> (r: Result<CompactionRecord, Error>)
        requires
            forall|e: &Vec<Event>| #[trigger] build.requires((e,)),
        ensures
            build_outcome(old(self)@, final(self)@, stream@, Some(job_id@), build, r),
            final(self).base() == old(self).base(),
    {
        self.compact_inner(stream, Some(job_id), build)
    }

    /// Fold-based compaction for [`Aggregate`]s.
    pub fn compact<A: Aggregate>(&mut self, stream: &str) -> (r: Result<CompactionRecord, Error>)
        ensures
            match history_of(old(self)@, utf8(stream@), 0, None) {
                Ok(s) => match fold_from(A::start(), s).saved() {
                    Some(state) => compact_stamped(
                        old(self)@,
                        final(self)@,
                        stream@,
                        s,
                        None,
                        state,
                        r,
                    ),
                    None => r is Err && fold_from(A::start(), s).unsavable(r->Err_0)
                        && final(self)@ == old(self)@,
                },
                Err(f) => r is Err && is_fault(r->Err_0, f) && final(self)@ == old(self)@,
            },
            final(self).base() == old(self).base(),
    {
        let events = match history_between(self.db(), stream, 0, None) {
            Ok(e) => e,
            Err(e) => return Err(e),
        };
        let ghost s = views(events@);
        let mut state = A::initial();
        let mut i: usize = 0;
        assert(s.take(0) =~= Seq::<EnvelopeView>::empty());
        while i < events.len()
            invariant
                i <= events.len(),
                s == views(events@),
                history_of(old(self)@, utf8(stream@), 0, None) == Ok::<Seq<EnvelopeView>, Fault>(s),
                self@ == old(self)@,
                self.base() == old(self).base(),
                state == fold_from(A::start(), s.take(i as int)),
            decreases events.len() - i,
        {
            state.apply(&events[i]);
            proof {
                assert(s.take(i + 1).drop_last() =~= s.take(i as int));
                assert(s.take(i + 1).last() == events@[i as int]@);
            }
            i += 1;
        }
        assert(s.take(i as int) =~= s);
        match state.snapshot() {
            Ok(bytes) => {
                let id = new_id();
                let now = now_ms();
                let ghost state = bytes@;
                let r = self.compact_events(stream, &events, None, bytes, id.as_str(), now);
                assert(compact_outcome(
                    old(self)@,
                    self@,
                    stream@,
                    s,
                    None,
                    state,
                    id@,
                    now,
                    r,
                ));
                assert(compact_stamped(old(self)@, self@, stream@, s, None, state, r));
                r
            },
            Err(e) => Err(e),
        }
    }

    /// Requests compaction of `stream`; returns the job id. Requests are
    /// fire-and-forget durable facts: claiming, timing out, and completing are
    /// all derived from the journal.
    pub fn request_compaction(&mut self, stream: &str) -> (job_id: String)
        ensures
            is_id(job_id@),
            exists|id: Seq<char>, e: JobEventView|
                is_id(id) && e is Requested && e.job_id() == job_id@ && e->Requested_stream
                    == stream@ && final(self)@ == #[trigger] old(self)@.insert(
                    job_key_of(id),
                    ValueView::Job(e),
                ),
            final(self).base() == old(self).base(),
    {
        let job_id = new_id();
        let event = JobEvent::requested(job_id.clone(), stream.to_owned());
        let id = new_id();
        self.write_job(event, id.as_str());
        job_id
    }

    /// Claims a compaction job for `worker`: fails unless the job is
    /// [`JobStatus::Pending`]. The records are read and the claim written in
    /// one transaction, so concurrent claims cannot both win.
    pub fn claim_compaction(&mut self, job_id: &str, worker: &str) -> (r: Result<(), Error>)
        ensures
            exists|id: Seq<char>, ts_ms: i64|
                is_id(id) && #[trigger] claim_outcome(
                    old(self)@,
                    final(self)@,
                    job_id@,
                    worker@,
                    id,
                    ts_ms,
                    r,
                ),
            final(self).base() == old(self).base(),
    {
        let event = JobEvent::claimed(job_id.to_owned(), worker.to_owned());
        let id = new_id();
        let ghost ts = event@.ts_ms();
        let r = self.claim_as(job_id, event, id.as_str());
        assert(claim_outcome(old(self)@, self@, job_id@, worker@, id@, ts, r));
        r
    }

    /// Writes the claim `event` under `id` iff the job is pending.
    pub fn claim_as(&mut self, job_id: &str, event: JobEvent, id: &str) -> (r: Result<(), Error>)
        ensures
            if !status_readable(old(self)@, job_id@) {
                r is Err && r->Err_0 is Encoding && final(self)@ == old(self)@
            } else if status_of(old(self)@, job_id@) == Some(JobStatusView::Pending) {
                r is Ok && final(self)@ == old(self)@.insert(
                    job_key_of(id@),
                    ValueView::Job(event@),
                )
            } else {
                r is Err && says(
                    r->Err_0,
                    not_claimable(job_id@, status_of(old(self)@, job_id@)),
                ) && final(self)@ == old(self)@
            },
            final(self).base() == old(self).base(),
    {
        let status = match self.job_status(job_id) {
            Ok(s) => s,
            Err(e) => return Err(e),
        };
        match status {
            Some(JobStatus::Pending) => {
                self.write_job(event, id);
                Ok(())
            },
            other => {
                let mut msg = "job '".to_owned();
                msg.append(job_id);
                msg.append("' is not claimable: ");
                msg.append(jobs::status_message(&other).as_str());
                Err(Error::InvalidInput(msg))
            },
        }
    }

    /// Marks a job failed. Compaction compute is yours; so is reporting its
    /// failure.
    pub fn fail_compaction(&mut self, job_id: &str, error: &str)
        ensures
            exists|id: Seq<char>, ts_ms: i64|
                is_id(id) && final(self)@ == #[trigger] old(self)@.insert(
                    job_key_of(id),
                    ValueView::Job(
                        JobEventView::Failed { job_id: job_id@, error: error@, ts_ms },
                    ),
                ),
            final(self).base() == old(self).base(),
    {
        let event = JobEvent::failed(job_id.to_owned(), error.to_owned());
        let id = new_id();
        self.write_job(event, id.as_str());
    }

    /// Derived status of a job: `None` if unknown, else completed (a
    /// compaction record carries its id) or the journaled state.
    pub fn job_status(&self, job_id: &str) -> (r: Result<Option<JobStatus>, Error>)
        ensures
            match r {
                Ok(s) => status_readable(self@, job_id@) && opt_status(s) == status_of(
                    self@,
                    job_id@,
                ),
                Err(e) => !status_readable(self@, job_id@) && e is Encoding,
            },
    {
        let records = match self.compaction_records() {
            Ok(c) => c,
            Err(e) => return Err(e),
        };
        if answered(&records, job_id) {
            return Ok(Some(JobStatus::Completed));
        }
        match job_events(self.db(), job_id) {
            Ok(events) => Ok(jobs::fold(&events)),
            Err(e) => Err(e),
        }
    }

    /// Writes a journal record under `id`.
    pub fn write_job(&mut self, event: JobEvent, id: &str)
        ensures
            final(self)@ == old(self)@.insert(job_key_of(id@), ValueView::Job(event@)),
            final(self).base() == old(self).base(),
    {
        self.put(job_key(id), Value::Job(event));
    }

    /// Events not yet covered by any snapshot: the entire input a compaction
    /// policy needs.
    pub fn compaction_backlog(&self, stream: &str) -> (r: Result<u64, Error>)
        ensures
            match r {
                Ok(n) => has_good_tail(self@, utf8(stream@)) && snapshot_readable(
                    self@,
                    utf8(stream@),
                ) && n == backlog_of(self@, utf8(stream@)),
                Err(e) => e is Encoding && (!has_good_tail(self@, utf8(stream@))
                    || !snapshot_readable(self@, utf8(stream@))),
            },
    {
        let tip = match self.stream_version(stream) {
            Ok(v) => v,
            Err(e) => return Err(e),
        };
        let snap: Option<Version> = match self.latest_snapshot(stream) {
            Ok(Some(s)) => Some(s.through_version),
            Ok(None) => None,
            Err(e) => return Err(e),
        };
        match (tip, snap) {
            (None, _) => Ok(0),
            (Some(t), None) => if t == u64::MAX {
                Ok(t)
            } else {
                Ok(t + 1)
            },
            (Some(t), Some(s)) => if t > s {
                Ok(t - s)
            } else {
                Ok(0)
            },
        }
    }
}

/// One past the tail less one past the latest snapshot, at least 0 (and at
/// most what 64 bits hold).
pub open spec fn backlog_of(db: Db, stream: Seq<u8>) -> int {
    let tip = match current_version(db, stream) {
        Some(v) => v + 1,
        None => 0int,
    };
    let snap = match snapshot_of(db, stream) {
        Some(s) => s.through_version + 1,
        None => 0int,
    };
    let n = tip - snap;
    if n < 0 {
        0
    } else if n > u64::MAX {
        u64::MAX as int
    } else {
        n
    }
}

/// What a claim does: the claim is journaled iff the job is pending.
pub open spec fn claim_outcome(
    before: Db,
    after: Db,
    job_id: Seq<char>,
    worker: Seq<char>,
    id: Seq<char>,
    ts_ms: i64,
    r: Result<(), Error>,
) -> bool {
    if !status_readable(before, job_id) {
        r is Err && r->Err_0 is Encoding && after == before
    } else if status_of(before, job_id) == Some(JobStatusView::Pending) {
        r is Ok && after == before.insert(
            job_key_of(id),
            ValueView::Job(JobEventView::Claimed { job_id, worker, ts_ms }),
        )
    } else {
        r is Err && says(r->Err_0, not_claimable(job_id, status_of(before, job_id))) && after
            == before
    }
}

/// The answer to a claim of a job that is not pending.
pub open spec fn not_claimable(job_id: Seq<char>, status: Option<JobStatusView>) -> Seq<char> {
    "job '"@ + job_id + "' is not claimable: "@ + status_text(status)
}

/// What a compaction with `build` does: `build` gets the whole history; its
/// state is published, or its error handed on.
pub open spec fn build_outcome<F: FnOnce(&Vec<Event>) -> Result<Vec<u8>, Error>>(
    before: Db,
    after: Db,
    stream: Seq<char>,
    job_id: Option<Seq<char>>,
    build: F,
    r: Result<CompactionRecord, Error>,
) -> bool {
    match history_of(before, utf8(stream), 0, None) {
        Ok(s) => exists|events: &Vec<Event>, built: Result<Vec<u8>, Error>|
            views(events@) == s && #[trigger] build.ensures((events,), built) && match built {
                Ok(state) => compact_stamped(before, after, stream, s, job_id, state@, r),
                Err(e) => r == Err::<CompactionRecord, Error>(e) && after == before,
            },
        Err(f) => r is Err && is_fault(r->Err_0, f) && after == before,
    }
}

} // verus!

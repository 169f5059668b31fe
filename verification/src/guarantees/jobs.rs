//! What snapshots and compaction jobs say.
use vstd::prelude::*;
use vstd::string::*;

use crate::digits::dec16;
use crate::envelope::{EnvelopeView, Event, Version};
use crate::error::Error;
use crate::fork::history_of;
use crate::jobs::{folded, status_text, JobEventView, JobStatusView};
use crate::kv::{compactions_prefix, jobs_prefix, m_key_of, snap_prefix_of, Db, ValueView};
use crate::numbered::{number_key, number_of, number_written, numbered_exists, precedes};
use crate::order::{has_prefix, lex_lt};
use crate::snapshot::{checkpoint_record, CompactionRecord, CompactionView, SnapshotView};
use crate::stamp::is_id;
use crate::store::seq_of;
use crate::store::compaction::{
    all_compactions, backlog_of, build_outcome, claim_outcome, compact_outcome, compact_stamped,
    compaction_views, compactions, is_answered, journal, publish_outcome, published, record_of,
    snapshot_of, snapshot_readable, snapshots, status_of, status_readable, transitions,
};
use crate::table::{is_listing, lemma_under, listing_exists, under, views};
use crate::text::utf8;

verus! {

// ---- snapshots ------------------------------------------------------------

/// The latest snapshot of a stream is the one with the highest number.
pub proof fn latest_snapshot_is_highest(db: Db, s: Seq<u8>, q: nat)
    requires
        db.dom().finite(),
        q <= u64::MAX,
        db.contains_key(utf8("snap/"@) + s + utf8("/"@) + dec16(q)),
        forall|p: nat|
            q < p <= u64::MAX ==> !db.contains_key(
                #[trigger] (utf8("snap/"@) + s + utf8("/"@) + dec16(p)),
            ),
    ensures
        ({
            let v = db[utf8("snap/"@) + s + utf8("/"@) + dec16(q)];
            &&& snapshot_readable(db, s) <==> v is Snapshot
            &&& v is Snapshot ==> snapshot_of(db, s) == Some(v->Snapshot_0)
        }),
{
    crate::text::slash_bytes();
    let prefix = snap_prefix_of(s);
    reveal_strlit("/");
    vstd::utf8::is_ascii_chars_encode_utf8("/"@);
    assert(utf8("/"@) =~= seq![crate::text::SLASH]);
    let k = prefix + dec16(q);
    assert(k =~= utf8("snap/"@) + s + utf8("/"@) + dec16(q));
    numbered_exists(db, prefix, 0, None);
    number_written(prefix, q);
    let rows = snapshots(db, s);
    let i = choose|i: int| 0 <= i < rows.len() && #[trigger] rows[i].0 == k;
    if i < rows.len() - 1 {
        let last = rows.len() - 1;
        assert(precedes(prefix, rows[i].0, rows[last].0));
        number_key(prefix, rows[last].0);
        let p = number_of(prefix, rows[last].0)->0;
        assert(rows[last].0 =~= utf8("snap/"@) + s + utf8("/"@) + dec16(p));
        assert(db.contains_key(rows[last].0));
        assert(false);
    }
    assert(rows.last().0 == k);
}

/// Without a snapshot record there is no snapshot.
pub proof fn no_snapshot_without_record(db: Db, s: Seq<u8>)
    requires
        db.dom().finite(),
        forall|p: nat|
            p <= u64::MAX ==> !db.contains_key(
                #[trigger] (utf8("snap/"@) + s + utf8("/"@) + dec16(p)),
            ),
    ensures
        snapshot_readable(db, s),
        snapshot_of(db, s) is None,
{
    let prefix = snap_prefix_of(s);
    reveal_strlit("/");
    vstd::utf8::is_ascii_chars_encode_utf8("/"@);
    assert(utf8("/"@) =~= seq![crate::text::SLASH]);
    numbered_exists(db, prefix, 0, None);
    let rows = snapshots(db, s);
    if rows.len() > 0 {
        number_key(prefix, rows[0].0);
        let p = number_of(prefix, rows[0].0)->0;
        assert(rows[0].0 =~= utf8("snap/"@) + s + utf8("/"@) + dec16(p));
        assert(db.contains_key(rows[0].0));
    }
}

/// The backlog of a stream counts the versions past its latest snapshot, up to
/// its tail.
pub proof fn backlog_counts_uncovered(db: Db, s: Seq<u8>)
    ensures
        ({
            let tail = m_key_of(s, utf8("tail"@));
            let snap = snapshot_of(db, s);
            &&& !db.contains_key(tail) ==> backlog_of(db, s) == 0
            &&& db.contains_key(tail) && snap is None && db[tail]->Tail_0.version < u64::MAX
                ==> backlog_of(db, s) == db[tail]->Tail_0.version + 1
            &&& db.contains_key(tail) && snap is Some && snap->0.through_version
                <= db[tail]->Tail_0.version ==> backlog_of(db, s) == db[tail]->Tail_0.version
                - snap->0.through_version
            &&& db.contains_key(tail) && snap is Some && snap->0.through_version
                > db[tail]->Tail_0.version ==> backlog_of(db, s) == 0
        }),
{
}

/// The record of a compaction names its stream and job, covers the history
/// through its last event and counts the events.
pub proof fn compaction_is_recorded(
    stream: Seq<char>,
    s: Seq<EnvelopeView>,
    job_id: Option<Seq<char>>,
    ts_ms: i64,
)
    requires
        0 < s.len() <= u64::MAX,
    ensures
        ({
            let c = record_of(stream, s, job_id, ts_ms);
            &&& c.stream == stream
            &&& c.through_version == s[s.len() - 1].version
            &&& c.events_compacted == s.len()
            &&& c.job_id == job_id
            &&& c.ts_ms == ts_ms
        }),
{
}

/// A checkpoint announces itself with its name and version; it compacts no
/// events and answers no job.
pub proof fn checkpoint_is_recorded(name: Seq<char>, through: Version, ts_ms: i64)
    ensures
        ({
            let c = checkpoint_record(name, through, ts_ms);
            &&& c.stream == name
            &&& c.through_version == through
            &&& c.events_compacted == 0
            &&& c.job_id is None
            &&& c.ts_ms == ts_ms
        }),
{
}

/// A publication writes the snapshot under the next sequence number, the record
/// under its id, and the counter; nothing else.
pub proof fn publication_writes(
    db: Db,
    s: Seq<u8>,
    record: CompactionView,
    state: Seq<u8>,
    id: Seq<char>,
    k: Seq<u8>,
)
    requires
        seq_of(db) < u64::MAX,
    ensures
        ({
            let db2 = published(db, s, record, state, id);
            let snap = snap_prefix_of(s) + dec16(seq_of(db) + 1);
            let rec = utf8("j/compactions/"@) + utf8(id);
            &&& seq_of(db2) == seq_of(db) + 1
            &&& db2.contains_key(snap) && db2[snap] == ValueView::Snapshot(
                SnapshotView {
                    through_version: record.through_version,
                    ts_ms: record.ts_ms,
                    state,
                },
            )
            &&& db2.contains_key(rec) && db2[rec] == ValueView::Compaction(record)
            &&& k != snap && k != rec && k != utf8("g/seq"@) ==> db2.contains_key(k)
                == db.contains_key(k) && (db.contains_key(k) ==> db2[k] == db[k])
        }),
{
    crate::layout::store_parts();
    crate::digits::be8_roundtrip((seq_of(db) + 1) as u64);
    let snap = snap_prefix_of(s) + dec16(seq_of(db) + 1);
    let rec = compactions_prefix() + utf8(id);
    crate::layout::classes(s, 0, 0, Seq::empty());
    assert(snap[0] == 0x73);
    assert(rec[0] == 0x6a);
    assert(crate::kv::seq_key()[0] == 0x67);
}

// ---- jobs -----------------------------------------------------------------

proof fn answered_in_words(db: Db, job_id: Seq<char>)
    requires
        db.dom().finite(),
        all_compactions(compactions(db)),
    ensures
        is_answered(compaction_views(compactions(db)), job_id) <==> exists|k: Seq<u8>|
            #![trigger db.contains_key(k)]
            db.contains_key(k) && has_prefix(k, utf8("j/compactions/"@))
                && db[k]->Compaction_0.job_id == Some(job_id),
{
    let p = under(compactions_prefix());
    let rows = compactions(db);
    let cs = compaction_views(rows);
    listing_exists(db, p);
    assert(is_listing(db, p, rows));
    if is_answered(cs, job_id) {
        let i = choose|i: int| 0 <= i < cs.len() && (#[trigger] cs[i]).job_id == Some(job_id);
        let k = rows[i].0;
        lemma_under(compactions_prefix(), k);
        assert(db.contains_key(k));
        assert(rows[i].1 is Compaction);
    }
    if exists|k: Seq<u8>|
        #![trigger db.contains_key(k)]
        db.contains_key(k) && has_prefix(k, utf8("j/compactions/"@))
            && db[k]->Compaction_0.job_id == Some(job_id) {
        let k = choose|k: Seq<u8>|
            #![trigger db.contains_key(k)]
            db.contains_key(k) && has_prefix(k, utf8("j/compactions/"@))
                && db[k]->Compaction_0.job_id == Some(job_id);
        lemma_under(compactions_prefix(), k);
        assert(p(k));
        let i = choose|i: int| 0 <= i < rows.len() && #[trigger] rows[i].0 == k;
        assert(cs[i].job_id == Some(job_id));
    }
}

proof fn last_transition(rows: Seq<(Seq<u8>, ValueView)>, job_id: Seq<char>, i: int)
    requires
        0 <= i < rows.len(),
        rows[i].1->Job_0.job_id() == job_id,
        forall|j: int| i < j < rows.len() ==> (#[trigger] rows[j]).1->Job_0.job_id() != job_id,
    ensures
        transitions(rows, job_id).len() > 0,
        transitions(rows, job_id).last() == rows[i].1->Job_0,
    decreases rows.len(),
{
    let rest = rows.drop_last();
    if i < rest.len() {
        assert(rows[rows.len() - 1].1->Job_0.job_id() != job_id);
        assert forall|j: int| i < j < rest.len() implies (
        #[trigger] rest[j]).1->Job_0.job_id() != job_id by {
            assert(rows[j].1->Job_0.job_id() != job_id);
        }
        last_transition(rest, job_id, i);
    }
}

proof fn no_transition(rows: Seq<(Seq<u8>, ValueView)>, job_id: Seq<char>)
    requires
        forall|j: int| 0 <= j < rows.len() ==> (#[trigger] rows[j]).1->Job_0.job_id() != job_id,
    ensures
        transitions(rows, job_id).len() == 0,
    decreases rows.len(),
{
    if rows.len() > 0 {
        let rest = rows.drop_last();
        assert forall|j: int| 0 <= j < rest.len() implies (
        #[trigger] rest[j]).1->Job_0.job_id() != job_id by {
            assert(rows[j].1->Job_0.job_id() != job_id);
        }
        assert(rows[rows.len() - 1].1->Job_0.job_id() != job_id);
        no_transition(rest, job_id);
    }
}

/// The journal holds a transition of the job under the key.
pub open spec fn moves_job(db: Db, k: Seq<u8>, job_id: Seq<char>) -> bool {
    &&& db.contains_key(k)
    &&& has_prefix(k, utf8("j/jobs/"@))
    &&& match db[k]->Job_0 {
        JobEventView::Requested { job_id: id, .. } => id == job_id,
        JobEventView::Claimed { job_id: id, .. } => id == job_id,
        JobEventView::Failed { job_id: id, .. } => id == job_id,
    }
}

/// A job that a compaction record answers is completed, whatever the journal
/// says of it.
pub proof fn answered_job_is_completed(db: Db, job_id: Seq<char>)
    requires
        db.dom().finite(),
        all_compactions(compactions(db)),
    ensures
        (exists|k: Seq<u8>|
            #![trigger db.contains_key(k)]
            db.contains_key(k) && has_prefix(k, utf8("j/compactions/"@))
                && db[k]->Compaction_0.job_id == Some(job_id)) <==> status_of(db, job_id) == Some(
            JobStatusView::Completed,
        ),
{
    answered_in_words(db, job_id);
    let rows = journal(db);
    assert(folded(transitions(rows, job_id)) != Some(JobStatusView::Completed));
}

/// A job that no record answers is where the last entry of the journal left it:
/// waiting after a request, with its worker after a claim, failed with its error
/// after a failure; without an entry it is unknown.
pub proof fn job_is_where_last_entry_left_it(db: Db, job_id: Seq<char>, k: Seq<u8>)
    requires
        db.dom().finite(),
        all_compactions(compactions(db)),
        forall|c: Seq<u8>|
            #![trigger db.contains_key(c)]
            db.contains_key(c) && has_prefix(c, utf8("j/compactions/"@))
                ==> db[c]->Compaction_0.job_id != Some(job_id),
    ensures
        moves_job(db, k, job_id) && (forall|j: Seq<u8>| #[trigger]
            moves_job(db, j, job_id) ==> !lex_lt(k, j)) ==> status_of(db, job_id) == Some(
            match db[k]->Job_0 {
                JobEventView::Requested { .. } => JobStatusView::Pending,
                JobEventView::Claimed { worker, .. } => JobStatusView::Claimed { worker },
                JobEventView::Failed { error, .. } => JobStatusView::Failed { error },
            },
        ),
        (forall|j: Seq<u8>| !(#[trigger] moves_job(db, j, job_id))) ==> status_of(
            db,
            job_id,
        ) is None,
{
    answered_in_words(db, job_id);
    let p = under(jobs_prefix());
    let rows = journal(db);
    listing_exists(db, p);
    assert(is_listing(db, p, rows));
    if moves_job(db, k, job_id) && (forall|j: Seq<u8>| #[trigger]
        moves_job(db, j, job_id) ==> !lex_lt(k, j)) {
        lemma_under(jobs_prefix(), k);
        assert(db.contains_key(k) && p(k));
        let i = choose|i: int| 0 <= i < rows.len() && #[trigger] rows[i].0 == k;
        assert forall|j: int| i < j < rows.len() implies (
        #[trigger] rows[j]).1->Job_0.job_id() != job_id by {
            assert(lex_lt(rows[i].0, rows[j].0));
            lemma_under(jobs_prefix(), rows[j].0);
            assert(db.contains_key(rows[j].0));
            assert(!moves_job(db, rows[j].0, job_id));
        }
        last_transition(rows, job_id, i);
    }
    if forall|j: Seq<u8>| !(#[trigger] moves_job(db, j, job_id)) {
        assert forall|j: int| 0 <= j < rows.len() implies (
        #[trigger] rows[j]).1->Job_0.job_id() != job_id by {
            lemma_under(jobs_prefix(), rows[j].0);
            assert(db.contains_key(rows[j].0));
            assert(!moves_job(db, rows[j].0, job_id));
        }
        no_transition(rows, job_id);
    }
}

/// A claim goes through exactly if the job is waiting; it then adds one entry
/// to the journal, with the worker. Else nothing changes, and the answer says
/// where the job is.
pub proof fn claim_needs_waiting_job(
    before: Db,
    after: Db,
    job_id: Seq<char>,
    worker: Seq<char>,
    id: Seq<char>,
    ts_ms: i64,
    r: Result<(), Error>,
)
    requires
        claim_outcome(before, after, job_id, worker, id, ts_ms, r),
        status_readable(before, job_id),
    ensures
        r is Ok <==> status_of(before, job_id) == Some(JobStatusView::Pending),
        r is Ok ==> after == before.insert(
            utf8("j/jobs/"@) + utf8(id),
            ValueView::Job(JobEventView::Claimed { job_id, worker, ts_ms }),
        ),
        r is Err ==> after == before && r->Err_0 is InvalidInput && r->Err_0->InvalidInput_0@
            == "job '"@ + job_id + "' is not claimable: "@ + status_text(
            status_of(before, job_id),
        ),
{
}

/// A compaction succeeds exactly if there is an event to compact and a sequence
/// number left; it then answers with its record, which is published with the
/// state. Else nothing changes.
pub proof fn compaction_needs_events(
    before: Db,
    after: Db,
    stream: Seq<char>,
    s: Seq<EnvelopeView>,
    job_id: Option<Seq<char>>,
    state: Seq<u8>,
    id: Seq<char>,
    ts_ms: i64,
    r: Result<CompactionRecord, Error>,
)
    requires
        compact_outcome(before, after, stream, s, job_id, state, id, ts_ms, r),
        s.len() <= u64::MAX,
    ensures
        r is Ok <==> s.len() > 0 && seq_of(before) < u64::MAX,
        r is Err ==> after == before,
        r is Err && s.len() == 0 ==> r->Err_0 is InvalidInput && r->Err_0->InvalidInput_0@ == "'"@
            + stream + "' has no events to compact"@,
        r is Ok ==> r->Ok_0@.through_version == s[s.len() - 1].version
            && r->Ok_0@.events_compacted == s.len() && r->Ok_0@.job_id == job_id
            && r->Ok_0@.stream == stream,
        r is Ok ==> after == published(before, utf8(stream), r->Ok_0@, state, id),
{
}

/// A publication succeeds exactly if a sequence number is left.
pub proof fn publication_needs_sequence(
    before: Db,
    after: Db,
    stream: Seq<u8>,
    record: CompactionView,
    state: Seq<u8>,
    id: Seq<char>,
    r: Result<(), Error>,
)
    requires
        publish_outcome(before, after, stream, record, state, id, r),
    ensures
        r is Ok <==> seq_of(before) < u64::MAX,
        r is Ok ==> after == published(before, stream, record, state, id),
        r is Err ==> after == before,
{
}

/// The compactions of a store are the records under their prefix, and no other.
pub proof fn compactions_are_all_records(db: Db, c: CompactionView)
    requires
        db.dom().finite(),
        all_compactions(compactions(db)),
    ensures
        compaction_views(compactions(db)).contains(c) <==> exists|k: Seq<u8>|
            #![trigger db.contains_key(k)]
            db.contains_key(k) && has_prefix(k, utf8("j/compactions/"@)) && db[k]
                == ValueView::Compaction(c),
        compaction_views(compactions(db)).len() == compactions(db).len(),
{
    let p = under(compactions_prefix());
    let rows = compactions(db);
    let cs = compaction_views(rows);
    listing_exists(db, p);
    assert(is_listing(db, p, rows));
    if cs.contains(c) {
        let i = choose|i: int| 0 <= i < cs.len() && cs[i] == c;
        let k = rows[i].0;
        lemma_under(compactions_prefix(), k);
        assert(rows[i].1 is Compaction);
        assert(db.contains_key(k));
    }
    if exists|k: Seq<u8>|
        #![trigger db.contains_key(k)]
        db.contains_key(k) && has_prefix(k, utf8("j/compactions/"@)) && db[k]
            == ValueView::Compaction(c) {
        let k = choose|k: Seq<u8>|
            #![trigger db.contains_key(k)]
            db.contains_key(k) && has_prefix(k, utf8("j/compactions/"@)) && db[k]
                == ValueView::Compaction(c);
        lemma_under(compactions_prefix(), k);
        assert(p(k));
        let i = choose|i: int| 0 <= i < rows.len() && #[trigger] rows[i].0 == k;
        assert(cs[i] == c);
    }
}

/// A compaction that builds its own state succeeds only on a history that can be
/// read and is not empty; its record covers that history to the end. One that
/// fails changes nothing.
pub proof fn built_compaction_covers_history<F: FnOnce(&Vec<Event>) -> Result<Vec<u8>, Error>>(
    before: Db,
    after: Db,
    stream: Seq<char>,
    job_id: Option<Seq<char>>,
    build: F,
    r: Result<CompactionRecord, Error>,
)
    requires
        build_outcome(before, after, stream, job_id, build, r),
    ensures
        r is Err ==> after == before,
        r is Ok ==> ({
            let h = history_of(before, utf8(stream), 0, None);
            &&& h is Ok
            &&& h->Ok_0.len() > 0
            &&& r->Ok_0@.through_version == h->Ok_0[h->Ok_0.len() - 1].version
            &&& r->Ok_0@.job_id == job_id
            &&& r->Ok_0@.stream == stream
            &&& exists|events: &Vec<Event>, built: Result<Vec<u8>, Error>, id: Seq<char>|
                views(events@) == h->Ok_0 && #[trigger] build.ensures((events,), built)
                    && built is Ok && after == #[trigger] published(
                    before,
                    utf8(stream),
                    r->Ok_0@,
                    built->Ok_0@,
                    id,
                )
        }),
{
    let h = history_of(before, utf8(stream), 0, None);
    if h is Ok {
        let s = h->Ok_0;
        let (events, built) = choose|events: &Vec<Event>, built: Result<Vec<u8>, Error>|
            views(events@) == s && #[trigger] build.ensures((events,), built) && match built {
                Ok(state) => compact_stamped(before, after, stream, s, job_id, state@, r),
                Err(e) => r == Err::<CompactionRecord, Error>(e) && after == before,
            };
        if built is Ok {
            let state = built->Ok_0@;
            assert(compact_stamped(before, after, stream, s, job_id, state, r));
            let (id, ts_ms) = choose|id: Seq<char>, ts_ms: i64|
                is_id(id) && #[trigger] compact_outcome(
                    before,
                    after,
                    stream,
                    s,
                    job_id,
                    state,
                    id,
                    ts_ms,
                    r,
                );
            if r is Ok {
                assert(build.ensures((events,), built));
                assert(after == published(before, utf8(stream), r->Ok_0@, built->Ok_0@, id));
            }
        }
    }
}

} // verus!

//! What an append lets in, writes and answers.
use vstd::prelude::*;
use vstd::string::*;

use crate::digits::be8_roundtrip;
use crate::envelope::{ExpectedVersion, NewEventView, StampView};
use crate::error::{number_text, says, Error};
use crate::guarantees::reads::{cell_at, held_by_fork};
use crate::kv::{m_key_of, pinned, r_key_of, seq_key, ts_key_of, Db, ValueView};
use crate::layout::classes;
use crate::store::{
    append_info, append_outcome, appended, batch_too_long, caps_error, commit_outcome, committed,
    covers, envelope_at, events_written, explains, fenced, first_version, new_tail, plain_append,
    record_too_large, refusal, run_ops, seq_of, tail_ts, token_text, ts_at, AppendView, CommitInfo,
    OpView, Progress, Refusal,
};
use crate::stream::{goes_in, written_elsewhere, written_here};
use crate::text::utf8;

verus! {

// ---- what is let in -------------------------------------------------------

/// The stream's tail record, if it has one, is a tail.
pub open spec fn tail_is_good(db: Db, s: Seq<u8>) -> bool {
    db.contains_key(m_key_of(s, utf8("tail"@))) ==> db[m_key_of(s, utf8("tail"@))] is Tail
}

/// The token passes: none was given, or no fence is set, or the fence is it.
pub open spec fn token_passes(db: Db, s: Seq<u8>, token: Option<Seq<char>>) -> bool {
    token is Some && db.contains_key(m_key_of(s, utf8("fence"@))) ==> {
        let fence = db[m_key_of(s, utf8("fence"@))];
        fence is Bytes && token_text(fence->Bytes_0) == token->0
    }
}

/// The stream is where the caller expects it.
pub open spec fn stands_as_expected(db: Db, s: Seq<u8>, expected: ExpectedVersion) -> bool {
    let tail = m_key_of(s, utf8("tail"@));
    match expected {
        ExpectedVersion::Any => true,
        ExpectedVersion::NoStream => !db.contains_key(tail),
        ExpectedVersion::Exact(v) => db.contains_key(tail) && db[tail]->Tail_0.version == v,
    }
}

/// The version that an append starts at: the one asked for, or the one after
/// the tail, or the first.
pub open spec fn starts_at(db: Db, a: AppendView) -> int {
    let tail = m_key_of(a.stream, utf8("tail"@));
    if a.from_version is Some {
        a.from_version->0 as int
    } else if db.contains_key(tail) {
        db[tail]->Tail_0.version + 1
    } else {
        0
    }
}

/// An append is let in exactly if the tail can be read, the token passes, the
/// stream is where the caller expects it, there is something to write, no live
/// fork holds the version that it starts at, and versions and sequences are
/// left.
pub proof fn append_is_let_in(db: Db, seq: nat, a: AppendView)
    ensures
        refusal(db, seq, a) is None <==> {
            &&& tail_is_good(db, a.stream)
            &&& token_passes(db, a.stream, a.token)
            &&& stands_as_expected(db, a.stream, a.expected)
            &&& a.events.len() > 0
            &&& a.from_version is Some ==> forall|child: Seq<u8>|
                !(#[trigger] held_by_fork(db, a.stream, child, a.from_version->0 as nat))
            &&& starts_at(db, a) + a.events.len() <= u64::MAX + 1
            &&& seq + a.events.len() <= u64::MAX
        },
{
    if a.from_version is Some {
        crate::guarantees::reads::pin_in_words(db, a.stream, a.from_version->0 as nat);
    }
}

/// Why an append is turned away: a fence that another token set comes before a
/// conflict of versions, which comes before an empty batch, which comes before
/// a pin.
pub proof fn append_is_turned_away(db: Db, seq: nat, a: AppendView)
    requires
        tail_is_good(db, a.stream),
        db.contains_key(m_key_of(a.stream, utf8("fence"@))) ==> db[m_key_of(
            a.stream,
            utf8("fence"@),
        )] is Bytes,
    ensures
        refusal(db, seq, a) == Some(Refusal::Fenced) <==> !token_passes(db, a.stream, a.token),
        refusal(db, seq, a) == Some(Refusal::Conflict) <==> token_passes(db, a.stream, a.token)
            && !stands_as_expected(db, a.stream, a.expected),
        refusal(db, seq, a) == Some(Refusal::Empty) <==> token_passes(db, a.stream, a.token)
            && stands_as_expected(db, a.stream, a.expected) && a.events.len() == 0,
        refusal(db, seq, a) == Some(Refusal::Pinned) <==> token_passes(db, a.stream, a.token)
            && stands_as_expected(db, a.stream, a.expected) && a.events.len() > 0
            && a.from_version is Some && exists|child: Seq<u8>| #[trigger]
            held_by_fork(db, a.stream, child, a.from_version->0 as nat),
        refusal(db, seq, a) != Some(Refusal::BadRecord),
{
    if a.from_version is Some {
        crate::guarantees::reads::pin_in_words(db, a.stream, a.from_version->0 as nat);
    }
}

/// What a refusal says: a conflict names the stream, what was expected and the
/// version found; a fence names the stream and the token that holds it.
pub proof fn refusal_tells(e: Error, db: Db, a: AppendView)
    ensures
        explains(e, db, a, Refusal::Conflict) <==> (e matches Error::VersionConflict {
            stream,
            expected,
            actual,
        } && utf8(stream@) == a.stream && expected == a.expected && actual == (
        if db.contains_key(m_key_of(a.stream, utf8("tail"@))) {
            Some(db[m_key_of(a.stream, utf8("tail"@))]->Tail_0.version)
        } else {
            None
        })),
        explains(e, db, a, Refusal::Fenced) && db.contains_key(
            m_key_of(a.stream, utf8("fence"@)),
        ) ==> (e matches Error::FenceMismatch { stream, current_token } && utf8(stream@) == a.stream
            && current_token@ == token_text(db[m_key_of(a.stream, utf8("fence"@))]->Bytes_0)),
        explains(e, db, a, Refusal::Empty) <==> says(e, "empty batch"@),
        explains(e, db, a, Refusal::Pinned) <==> says(
            e,
            "version "@ + number_text(a.from_version->0 as nat) + " is pinned by a live fork"@,
        ),
{
}

/// The limits of a batch: a thousand records of a mebibyte each. What goes over
/// is answered with the count, or with the size of the first record too large.
pub proof fn batch_limits(events: Seq<NewEventView>, e: Error, i: int)
    ensures
        batch_too_long(events) <==> events.len() > 1000,
        record_too_large(events) <==> exists|j: int|
            0 <= j < events.len() && (#[trigger] events[j]).data.len() > 0x10_0000,
        events.len() > 1000 ==> (caps_error(events, e) <==> says(
            e,
            "batch of "@ + number_text(events.len()) + " records exceeds max 1000"@,
        )),
        events.len() <= 1000 && 0 <= i < events.len() && events[i].data.len() > 0x10_0000 && (
        forall|j: int| 0 <= j < i ==> (#[trigger] events[j]).data.len() <= 0x10_0000) ==> (
        caps_error(events, e) <==> says(
            e,
            "record data of "@ + number_text(events[i].data.len()) + " bytes exceeds max 1048576"@,
        )),
{
    if events.len() <= 1000 && 0 <= i < events.len() && events[i].data.len() > 0x10_0000 && (
    forall|j: int| 0 <= j < i ==> (#[trigger] events[j]).data.len() <= 0x10_0000) {
        assert(crate::store::first_too_large(events, i));
        if caps_error(events, e) {
            let k = choose|k: int| #[trigger]
                crate::store::first_too_large(events, k) && says(
                    e,
                    "record data of "@ + number_text(events[k].data.len())
                        + " bytes exceeds max 1048576"@,
                );
            if k < i {
                assert(events[k].data.len() <= 0x10_0000);
            }
            assert(k == i);
        }
    }
}

// ---- what is written ------------------------------------------------------

/// The time of an event is the latest of the tail's time and the clock readings
/// taken so far: it never goes back and never lags behind a reading.
pub proof fn time_is_latest(start: i64, stamps: Seq<StampView>, i: int)
    requires
        0 <= i < stamps.len(),
    ensures
        ts_at(start, stamps, i) >= start,
        forall|j: int| 0 <= j <= i ==> ts_at(start, stamps, i) >= (#[trigger] stamps[j]).now_ms,
        ts_at(start, stamps, i) == start || exists|j: int|
            0 <= j <= i && ts_at(start, stamps, i) == (#[trigger] stamps[j]).now_ms,
    decreases i,
{
    if i > 0 {
        time_is_latest(start, stamps, i - 1);
    } else {
        assert(ts_at(start, stamps, -1) == start);
    }
}

proof fn index_written(
    db: Db,
    seq: nat,
    a: AppendView,
    stamps: Seq<StampView>,
    n: int,
    i: int,
)
    requires
        0 <= i < n <= a.events.len(),
        a.index_ts,
    ensures
        ({
            let e = envelope_at(db, seq, a, stamps, i);
            events_written(db, seq, a, stamps, n).contains_key(
                ts_key_of(a.stream, e.ts_ms as int, e.version as nat),
            )
        }),
    decreases n,
{
    if i < n - 1 {
        index_written(db, seq, a, stamps, n - 1, i);
    }
}

/// The `i`-th event of an append stands at the `i`-th version from its start on,
/// with its type, data and metadata as they were given, the next sequence number
/// and its stamp's id. Its time is no earlier than the clock said, no earlier
/// than the tail's and no later than the new tail's, and the index knows it.
pub proof fn append_writes_event(db: Db, a: AppendView, stamps: Seq<StampView>, i: int)
    requires
        goes_in(db, a, stamps),
        0 <= i < a.events.len(),
    ensures
        ({
            let db2 = committed(db, a, stamps);
            let tail = m_key_of(a.stream, utf8("tail"@));
            let seq = if db.contains_key(utf8("g/seq"@)) {
                cell_at(db, utf8("g/seq"@))
            } else {
                0
            };
            let k = r_key_of(a.stream, (starts_at(db, a) + i) as nat);
            let e = db2[k]->Event_0;
            &&& db2.contains_key(k)
            &&& db2[k] is Event
            &&& e.version == starts_at(db, a) + i
            &&& e.seq == seq + 1 + i
            &&& e.id == stamps[i].id
            &&& e.event_type == a.events[i].event_type
            &&& e.data == a.events[i].data
            &&& e.metadata == a.events[i].metadata
            &&& e.ts_ms >= stamps[i].now_ms
            &&& e.ts_ms <= db2[tail]->Tail_0.ts_ms
            &&& db.contains_key(tail) ==> e.ts_ms >= db[tail]->Tail_0.ts_ms
            &&& a.index_ts ==> db2.contains_key(ts_key_of(a.stream, e.ts_ms as int, e.version as nat))
        }),
{
    let db2 = committed(db, a, stamps);
    let n = a.events.len() as int;
    let s = a.stream;
    let tail = m_key_of(s, utf8("tail"@));
    let e = envelope_at(db, seq_of(db), a, stamps, i);
    assert(first_version(db, a) == starts_at(db, a));
    let k = r_key_of(s, e.version as nat);
    assert(k == r_key_of(s, (starts_at(db, a) + i) as nat));
    written_here(db, seq_of(db), a, stamps, n, i);
    classes(s, e.version as nat, e.ts_ms as int, utf8("tail"@));
    crate::layout::store_parts();
    assert(k != tail && k != seq_key() && tail != seq_key()) by {
        assert(k[0] == 0x72 && tail[0] == 0x6d && seq_key()[0] == 0x67);
    }
    assert(db2[k] == ValueView::Event(e));
    assert(db2[tail] == ValueView::Tail(new_tail(db, a, stamps)));
    let start = tail_ts(db, s);
    time_is_latest(start, stamps, i);
    times_rise(start, stamps, i, n - 1);
    if a.index_ts {
        index_written(db, seq_of(db), a, stamps, n, i);
        assert(db2.contains_key(ts_key_of(s, e.ts_ms as int, e.version as nat)));
    }
}

/// An append moves the tail to its last event, never back, and the sequence
/// counter by the number of its events.
pub proof fn append_moves_tail(db: Db, a: AppendView, stamps: Seq<StampView>)
    requires
        goes_in(db, a, stamps),
    ensures
        ({
            let db2 = committed(db, a, stamps);
            let n = a.events.len();
            let tail = m_key_of(a.stream, utf8("tail"@));
            let seq = if db.contains_key(utf8("g/seq"@)) {
                cell_at(db, utf8("g/seq"@))
            } else {
                0
            };
            &&& db2.contains_key(tail) && db2[tail] is Tail
            &&& db2[tail]->Tail_0.version >= starts_at(db, a) + n - 1
            &&& db.contains_key(tail) ==> db2[tail]->Tail_0.version >= db[tail]->Tail_0.version
            &&& db2[tail]->Tail_0.version == starts_at(db, a) + n - 1 || (db.contains_key(tail)
                && db2[tail]->Tail_0.version == db[tail]->Tail_0.version)
            &&& db2.contains_key(utf8("g/seq"@))
            &&& cell_at(db2, utf8("g/seq"@)) == seq + n
        }),
{
    let db2 = committed(db, a, stamps);
    let n = a.events.len() as int;
    let tail = m_key_of(a.stream, utf8("tail"@));
    be8_roundtrip((seq_of(db) + n) as u64);
    classes(a.stream, 0, 0, utf8("tail"@));
    crate::layout::store_parts();
    assert(tail != seq_key()) by {
        assert(tail[0] == 0x6d && seq_key()[0] == 0x67);
    }
    assert(db2[tail] == ValueView::Tail(new_tail(db, a, stamps)));
    assert(first_version(db, a) == starts_at(db, a));
}

proof fn times_rise(start: i64, stamps: Seq<StampView>, i: int, j: int)
    requires
        -1 <= i <= j,
    ensures
        ts_at(start, stamps, i) <= ts_at(start, stamps, j),
    decreases j - i,
{
    if i < j {
        times_rise(start, stamps, i, j - 1);
    }
}

/// An append writes nothing else: a key that is no record and no index entry of
/// the stream at one of the versions written, not its tail and not the sequence
/// counter, is as it was.
pub proof fn append_leaves_the_rest(db: Db, a: AppendView, stamps: Seq<StampView>, k: Seq<u8>)
    requires
        goes_in(db, a, stamps),
        k != m_key_of(a.stream, utf8("tail"@)),
        k != utf8("g/seq"@),
        forall|i: int|
            0 <= i < a.events.len() ==> k != #[trigger] r_key_of(
                a.stream,
                (starts_at(db, a) + i) as nat,
            ),
        forall|i: int, ts: int|
            0 <= i < a.events.len() ==> k != #[trigger] ts_key_of(
                a.stream,
                ts,
                (starts_at(db, a) + i) as nat,
            ),
    ensures
        committed(db, a, stamps).contains_key(k) == db.contains_key(k),
        db.contains_key(k) ==> committed(db, a, stamps)[k] == db[k],
{
    let seq = seq_of(db);
    let n = a.events.len() as int;
    assert forall|i: int|
        #![trigger envelope_at(db, seq, a, stamps, i)]
        0 <= i < n implies k != r_key_of(
        a.stream,
        envelope_at(db, seq, a, stamps, i).version as nat,
    ) && k != ts_key_of(
        a.stream,
        envelope_at(db, seq, a, stamps, i).ts_ms as int,
        envelope_at(db, seq, a, stamps, i).version as nat,
    ) by {
        let e = envelope_at(db, seq, a, stamps, i);
        assert(e.version == starts_at(db, a) + i);
        assert(k != r_key_of(a.stream, (starts_at(db, a) + i) as nat));
        assert(k != ts_key_of(a.stream, e.ts_ms as int, (starts_at(db, a) + i) as nat));
    }
    written_elsewhere(db, seq, a, stamps, n, k);
}

/// What an append answers: it succeeds exactly if the batch is within the limits
/// and let in, and then gives the versions and the first sequence number
/// written; else nothing changes.
pub proof fn append_answers(
    before: Db,
    after: Db,
    a: AppendView,
    stamps: Seq<StampView>,
    r: Result<CommitInfo, Error>,
)
    requires
        append_outcome(before, after, a, stamps, r),
    ensures
        r is Ok <==> a.events.len() <= 1000 && (forall|j: int|
            0 <= j < a.events.len() ==> (#[trigger] a.events[j]).data.len() <= 0x10_0000)
            && refusal(before, seq_of(before), a) is None,
        r is Ok ==> after == committed(before, a, stamps),
        r is Ok ==> r->Ok_0.first_version == starts_at(before, a),
        r is Ok ==> r->Ok_0.last_version == starts_at(before, a) + a.events.len() - 1,
        r is Ok ==> r->Ok_0.start_sequence == seq_of(before) + 1,
        r is Err ==> after == before,
{
}

/// An append without conditions of its own starts at the tail, carries no token
/// and is indexed by time.
pub proof fn plain_append_is_plain(
    stream: Seq<u8>,
    expected: ExpectedVersion,
    events: Seq<NewEventView>,
)
    ensures
        ({
            let a = plain_append(stream, expected, events);
            &&& a.stream == stream
            &&& a.expected == expected
            &&& a.events == events
            &&& a.from_version is None
            &&& a.token is None
            &&& a.index_ts
        }),
{
}

// ---- fences ---------------------------------------------------------------

/// A fence is the token under the stream's fence key; no token, or an empty
/// one, takes it away. Nothing else changes.
pub proof fn fence_is_stored(db: Db, s: Seq<u8>, token: Option<Seq<char>>, k: Seq<u8>)
    ensures
        token is Some && token->0.len() > 0 ==> fenced(db, s, token).contains_key(
            m_key_of(s, utf8("fence"@)),
        ) && fenced(db, s, token)[m_key_of(s, utf8("fence"@))] == ValueView::Bytes(
            utf8(token->0),
        ),
        token is None || token->0.len() == 0 ==> !fenced(db, s, token).contains_key(
            m_key_of(s, utf8("fence"@)),
        ),
        k != m_key_of(s, utf8("fence"@)) ==> fenced(db, s, token).contains_key(k)
            == db.contains_key(k) && (db.contains_key(k) ==> fenced(db, s, token)[k] == db[k]),
{
}

// ---- transactions ---------------------------------------------------------

/// A transaction of one append does what the append does.
pub proof fn single_append_commits_alike(
    before: Db,
    after: Db,
    stream: Seq<char>,
    expected: ExpectedVersion,
    events: Seq<NewEventView>,
    stamps: Seq<StampView>,
    r: Result<Vec<CommitInfo>, Error>,
)
    requires
        commit_outcome(
            before,
            after,
            seq![OpView::Append { stream, expected, events }],
            seq![stamps],
            r,
        ),
    ensures
        append_outcome(
            before,
            after,
            plain_append(utf8(stream), expected, events),
            stamps,
            match r {
                Ok(infos) => Ok(infos@[0]),
                Err(e) => Err(e),
            },
        ),
        r is Ok ==> r->Ok_0@.len() == 1,
{
    let op = OpView::Append { stream, expected, events };
    let ops = seq![op];
    let all = seq![stamps];
    let a = plain_append(utf8(stream), expected, events);
    let none = Seq::<OpView>::empty();
    assert(ops.drop_last() =~= none);
    assert(ops.last() == op);
    assert(run_ops(before, none, all) == Some(
        Progress { db: before, seq: seq_of(before), infos: Seq::empty() },
    ));
    assert(crate::store::any_breaks_caps(ops) == crate::store::breaks_caps(op)) by {
        if crate::store::breaks_caps(op) {
            assert(crate::store::breaks_caps(ops[0]));
        }
    }
    if crate::store::breaks_caps(op) {
        let e = r->Err_0;
        let i = choose|i: int| #[trigger] crate::store::first_over_caps(ops, e, i);
        assert(i == 0);
        assert(ops[0] == op);
    } else {
        match run_ops(before, ops, all) {
            Some(p) => {
                assert(p.infos =~= seq![append_info(before, seq_of(before), a)]);
                assert(all[0] == stamps);
            },
            None => {
                let e = r->Err_0;
                let n = choose|n: int| #[trigger]
                    crate::store::first_refused(before, ops, all, e, n);
                assert(n == 0);
                assert(ops.take(0) =~= none);
                assert(ops[0] == op);
            },
        }
    }
}

/// A transaction goes through operation by operation: each sees what the ones
/// before it wrote, the sequence numbers run on without a gap, and one that is
/// refused stops all.
pub proof fn transaction_runs_in_order(
    db: Db,
    ops: Seq<OpView>,
    stamps: Seq<Seq<StampView>>,
    op: OpView,
)
    ensures
        run_ops(db, Seq::empty(), stamps) == Some(
            Progress { db, seq: seq_of(db), infos: Seq::empty() },
        ),
        run_ops(db, ops, stamps) is None ==> run_ops(db, ops.push(op), stamps) is None,
        run_ops(db, ops, stamps) is Some ==> ({
            let p = run_ops(db, ops, stamps)->0;
            let next = run_ops(db, ops.push(op), stamps);
            match op {
                OpView::Fence { stream, token } => next == Some(
                    Progress {
                        db: fenced(p.db, utf8(stream), token),
                        seq: p.seq,
                        infos: p.infos,
                    },
                ),
                OpView::Append { stream, expected, events } => {
                    let a = plain_append(utf8(stream), expected, events);
                    &&& next is Some <==> refusal(p.db, p.seq, a) is None
                    &&& next is Some ==> {
                        &&& next->0.db == appended(p.db, p.seq, a, stamps[ops.len() as int])
                        &&& next->0.seq == p.seq + events.len()
                        &&& next->0.infos.len() == p.infos.len() + 1
                        &&& next->0.infos.take(p.infos.len() as int) == p.infos
                        &&& next->0.infos.last().first_version == starts_at(p.db, a)
                        &&& next->0.infos.last().last_version == starts_at(p.db, a) + events.len()
                            - 1
                        &&& next->0.infos.last().start_sequence == p.seq + 1
                    }
                },
            }
        }),
{
    assert(ops.push(op).drop_last() =~= ops);
    if run_ops(db, ops, stamps) is Some && run_ops(db, ops.push(op), stamps) is Some {
        let p = run_ops(db, ops, stamps)->0;
        let next = run_ops(db, ops.push(op), stamps)->0;
        if op is Append {
            assert(next.infos.take(p.infos.len() as int) =~= p.infos);
        }
    }
}

/// A transaction is all or nothing: one that fails changes nothing, and one
/// that succeeds leaves the sequence counter where its last operation brought
/// it.
pub proof fn transaction_is_atomic(
    before: Db,
    after: Db,
    ops: Seq<OpView>,
    stamps: Seq<Seq<StampView>>,
    r: Result<Vec<CommitInfo>, Error>,
)
    requires
        commit_outcome(before, after, ops, stamps, r),
    ensures
        r is Err ==> after == before,
        r is Ok ==> run_ops(before, ops, stamps) is Some && r->Ok_0@ == run_ops(
            before,
            ops,
            stamps,
        )->0.infos,
        r is Ok && run_ops(before, ops, stamps)->0.seq <= u64::MAX ==> seq_of(after) == run_ops(
            before,
            ops,
            stamps,
        )->0.seq,
        r is Ok ==> forall|k: Seq<u8>|
            k != utf8("g/seq"@) ==> #[trigger] after.contains_key(k) == run_ops(
                before,
                ops,
                stamps,
            )->0.db.contains_key(k) && (after.contains_key(k) ==> after[k] == run_ops(
                before,
                ops,
                stamps,
            )->0.db[k]),
        r is Ok ==> forall|i: int, j: int|
            0 <= i < ops.len() && ops[i] is Append && 0 <= j < (#[trigger] ops[i]->events).len()
                ==> (#[trigger] ops[i]->events[j]).data.len() <= 0x10_0000 && ops[i]->events.len()
                <= 1000,
{
    if r is Ok {
        let p = run_ops(before, ops, stamps)->0;
        if p.seq <= u64::MAX {
            be8_roundtrip(p.seq as u64);
        }
        assert forall|i: int, j: int|
            0 <= i < ops.len() && ops[i] is Append && 0 <= j < (#[trigger] ops[i]->events).len()
                implies (#[trigger] ops[i]->events[j]).data.len() <= 0x10_0000
                && ops[i]->events.len() <= 1000 by {
            assert(!crate::store::breaks_caps(ops[i]));
            batch_limits(ops[i]->events, r->Err_0, j);
        }
    }
}

/// A ticket is durable exactly once the durable sequence has reached it.
pub proof fn ticket_is_reached(durable_seq: u64, target: u64)
    ensures
        covers(durable_seq, target) <==> durable_seq >= target,
{
}

} // verus!

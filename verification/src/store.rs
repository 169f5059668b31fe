//! The event store: appends, fences, forks, retention, reads and compaction,
//! over the key layout of [`crate::kv`].
//!
//! An [`EventStore`] works on the records that a transaction has read and
//! keeps a log of what it writes. The caller sends the log to the backend and
//! commits it there in one transaction.
use vstd::prelude::*;
use vstd::string::*;

pub mod compaction;
pub mod reads;
pub mod retention;

use crate::digits::{be, be_bytes};
use crate::envelope::{
    enveloped, Envelope, EnvelopeView, Event, ExpectedVersion, NewEvent, NewEventView, Stamp,
    StampView, Version,
};
use crate::error::{number_text, push_number, refuse, says, Error};
use crate::kv::{
    ceiling, get_be_or_zero, has_good_tail, m_key, m_key_of, number_at, pinned, r_key, r_key_of,
    seq_key, tail,
    tail_key, tail_of, ts_key, ts_key_of, Db, Records, TailRecord, Value, ValueView, SEQ_KEY,
};
use crate::order::copy_of;
use crate::table::{dup_all, views, Dup, Key, Table};
use crate::text::{same_text, utf8};

verus! {

/// Max records per append batch.
pub const MAX_BATCH_RECORDS: usize = 1000;

/// Commit-conflict retries per append.
pub const COMMIT_RETRIES: usize = 8;

/// Max size of a single record's payload.
pub const MAX_RECORD_BYTES: usize = 0x10_0000;

/// Outcome of a successful append.
#[derive(Debug, Clone, Copy, PartialEq, Eq)]
pub struct CommitInfo {
    pub first_version: Version,
    pub last_version: Version,
    /// Global sequence of the batch's first record; members are consecutive.
    pub start_sequence: u64,
}

/// One write of a transaction.
#[derive(Debug)]
pub enum Write {
    Put { key: Vec<u8>, value: Value },
    Delete { key: Vec<u8> },
}

pub enum WriteView {
    Put { key: Seq<u8>, value: ValueView },
    Delete { key: Seq<u8> },
}

impl View for Write {
    type V = WriteView;

    open spec fn view(&self) -> WriteView {
        match self {
            Write::Put { key, value } => WriteView::Put { key: key@, value: value@ },
            Write::Delete { key } => WriteView::Delete { key: key@ },
        }
    }
}

impl Dup for Write {
    fn dup(&self) -> (r: Self) {
        match self {
            Write::Put { key, value } => Write::Put { key: key.dup(), value: value.dup() },
            Write::Delete { key } => Write::Delete { key: key.dup() },
        }
    }
}

/// The store after one write.
pub open spec fn write_one(db: Db, w: WriteView) -> Db {
    match w {
        WriteView::Put { key, value } => db.insert(key, value),
        WriteView::Delete { key } => db.remove(key),
    }
}

/// The store after a run of writes.
pub open spec fn write_all(db: Db, ws: Seq<WriteView>) -> Db
    decreases ws.len(),
{
    if ws.len() == 0 {
        db
    } else {
        write_one(write_all(db, ws.drop_last()), ws.last())
    }
}

/// Durable, atomic, ordered event streams.
pub struct EventStore {
    records: Records,
    log: Vec<Write>,
    base: Ghost<Db>,
}

impl View for EventStore {
    type V = Db;

    closed spec fn view(&self) -> Db {
        self.records@
    }
}

impl EventStore {
    #[verifier::type_invariant]
    spec fn logged(&self) -> bool {
        self.records@ == write_all(self.base@, views(self.log@))
    }

    /// The contents that the log starts from.
    pub closed spec fn base(&self) -> Db {
        self.base@
    }

    /// The writes made so far.
    pub closed spec fn log(&self) -> Seq<WriteView> {
        views(self.log@)
    }

    /// An empty store.
    pub fn open_in_memory() -> (r: Self)
        ensures
            r@ == Db::empty(),
            r.base() == Db::empty(),
            r.log() == Seq::<WriteView>::empty(),
    {
        EventStore::over(Table::new())
    }

    /// A store that holds `records`, with nothing written yet.
    pub fn over(records: Records) -> (r: Self)
        ensures
            r@ == records@,
            r.base() == records@,
            r.log() == Seq::<WriteView>::empty(),
    {
        let log: Vec<Write> = Vec::new();
        assert(views(log@) =~= Seq::<WriteView>::empty());
        let ghost db = records@;
        EventStore { records, log, base: Ghost(db) }
    }

    /// The records.
    pub fn db(&self) -> (r: &Records)
        ensures
            r@ == self@,
    {
        &self.records
    }

    /// Hands over the writes made since the last call, in order: applied to
    /// the contents of that time they give the present contents.
    pub fn take_writes(&mut self) -> (ws: Vec<Write>)
        ensures
            write_all(old(self).base(), views(ws@)) == old(self)@,
            views(ws@) == old(self).log(),
            final(self)@ == old(self)@,
            final(self).base() == old(self)@,
            final(self).log() == Seq::<WriteView>::empty(),
    {
        let mut s = EventStore::open_in_memory();
        core::mem::swap(self, &mut s);
        proof {
            use_type_invariant(&s);
        }
        let EventStore { records, log, base: _ } = s;
        *self = EventStore::over(records);
        log
    }

    pub(crate) fn put(&mut self, key: Vec<u8>, value: Value)
        ensures
            final(self)@ == old(self)@.insert(key@, value@),
            final(self).base() == old(self).base(),
    {
        let mut s = EventStore::open_in_memory();
        core::mem::swap(self, &mut s);
        proof {
            use_type_invariant(&s);
        }
        let EventStore { mut records, mut log, base } = s;
        let ghost before = views(log@);
        let w = Write::Put { key: key.dup(), value: value.dup() };
        let ghost wv = w@;
        log.push(w);
        records.insert(key, value);
        proof {
            assert(views(log@) =~= before.push(wv));
            assert(before.push(wv).drop_last() =~= before);
        }
        *self = EventStore { records, log, base };
    }

    pub(crate) fn delete(&mut self, key: Vec<u8>)
        ensures
            final(self)@ == old(self)@.remove(key@),
            final(self).base() == old(self).base(),
    {
        let mut s = EventStore::open_in_memory();
        core::mem::swap(self, &mut s);
        proof {
            use_type_invariant(&s);
        }
        let EventStore { mut records, mut log, base } = s;
        let ghost before = views(log@);
        let _ = records.remove(key.as_slice());
        let w = Write::Delete { key };
        let ghost wv = w@;
        log.push(w);
        proof {
            assert(views(log@) =~= before.push(wv));
            assert(before.push(wv).drop_last() =~= before);
        }
        *self = EventStore { records, log, base };
    }

    /// A transaction: a copy to work on, to be put in place when it commits.
    fn begin(&self) -> (r: Self)
        ensures
            r@ == self@,
            r.base() == self.base(),
            r.log() == self.log(),
    {
        proof {
            use_type_invariant(self);
        }
        EventStore { records: self.records.dup(), log: dup_all(&self.log), base: self.base }
    }
}

// ---- appending ------------------------------------------------------------

pub open spec fn batch_too_long(events: Seq<NewEventView>) -> bool {
    events.len() > MAX_BATCH_RECORDS
}

pub open spec fn record_too_large(events: Seq<NewEventView>) -> bool {
    exists|i: int| 0 <= i < events.len() && (#[trigger] events[i]).data.len() > MAX_RECORD_BYTES
}

/// The first record over the size cap.
pub open spec fn first_too_large(events: Seq<NewEventView>, i: int) -> bool {
    &&& 0 <= i < events.len()
    &&& events[i].data.len() > MAX_RECORD_BYTES
    &&& forall|j: int| 0 <= j < i ==> (#[trigger] events[j]).data.len() <= MAX_RECORD_BYTES
}

/// The error of a batch that breaks a cap: the record cap first, then the
/// first record that is too large.
pub open spec fn caps_error(events: Seq<NewEventView>, e: Error) -> bool {
    if batch_too_long(events) {
        says(e, "batch of "@ + number_text(events.len()) + " records exceeds max 1000"@)
    } else {
        exists|i: int| #[trigger]
            first_too_large(events, i) && says(
                e,
                "record data of "@ + number_text(events[i].data.len())
                    + " bytes exceeds max 1048576"@,
            )
    }
}

/// Refuses a batch over the record cap or with a record over the size cap.
pub fn check_batch(events: &Vec<NewEvent>) -> (r: Result<(), Error>)
    ensures
        r is Ok <==> !batch_too_long(views(events@)) && !record_too_large(views(events@)),
        r is Err ==> caps_error(views(events@), r->Err_0),
{
    if events.len() > MAX_BATCH_RECORDS {
        let mut msg = "batch of ".to_owned();
        push_number(&mut msg, events.len() as u64);
        msg.append(" records exceeds max 1000");
        return Err(Error::InvalidInput(msg));
    }
    let mut i: usize = 0;
    while i < events.len()
        invariant
            i <= events.len(),
            events.len() <= MAX_BATCH_RECORDS,
            forall|j: int| 0 <= j < i ==> (#[trigger] events@[j]).data.len() <= MAX_RECORD_BYTES,
        decreases events.len() - i,
    {
        if events[i].data.len() > MAX_RECORD_BYTES {
            assert(first_too_large(views(events@), i as int));
            assert(views(events@)[i as int].data.len() > MAX_RECORD_BYTES);
            let mut msg = "record data of ".to_owned();
            push_number(&mut msg, events[i].data.len() as u64);
            msg.append(" bytes exceeds max 1048576");
            return Err(Error::InvalidInput(msg));
        }
        i += 1;
    }
    Ok(())
}

pub open spec fn fence_key(stream: Seq<u8>) -> Seq<u8> {
    m_key_of(stream, utf8("fence"@))
}

/// Whether the fence key, where it is set, holds a token.
pub open spec fn has_good_fence(db: Db, stream: Seq<u8>) -> bool {
    db.contains_key(fence_key(stream)) ==> db[fence_key(stream)] is Bytes
}

/// The text of a token's bytes, with replacement characters where they are
/// not UTF-8.
pub open spec fn token_text(bytes: Seq<u8>) -> Seq<char> {
    if vstd::utf8::valid_utf8(bytes) {
        vstd::utf8::decode_utf8(bytes)
    } else {
        lossy_text(bytes)
    }
}

/// The current fence token, if the stream is fenced.
pub open spec fn token_of(db: Db, stream: Seq<u8>) -> Option<Seq<char>> {
    if db.contains_key(fence_key(stream)) {
        Some(token_text(db[fence_key(stream)]->Bytes_0))
    } else {
        None
    }
}

/// What `String::from_utf8_lossy` makes of bytes that are not UTF-8.
pub uninterp spec fn lossy_text(bytes: Seq<u8>) -> Seq<char>;

/// `String::from_utf8_lossy`: the text that the bytes encode, with
/// replacement characters where they are not UTF-8.
#[verifier::external_body]
fn from_utf8_lossy(bytes: &[u8]) -> (r: String)
    ensures
        r@ == (if vstd::utf8::valid_utf8(bytes@) {
            vstd::utf8::decode_utf8(bytes@)
        } else {
            lossy_text(bytes@)
        }),
{
    String::from_utf8_lossy(bytes).into_owned()
}

/// One append: where, under which conditions, and what.
pub struct AppendView {
    pub stream: Seq<u8>,
    pub expected: ExpectedVersion,
    pub from_version: Option<Version>,
    pub token: Option<Seq<char>>,
    pub events: Seq<NewEventView>,
    pub index_ts: bool,
}

/// Why an append is refused.
pub enum Refusal {
    /// The tail or the fence key holds a record of another kind.
    BadRecord,
    /// The stream is fenced with another token.
    Fenced,
    /// The stream is not at the expected version.
    Conflict,
    /// There is nothing to append.
    Empty,
    /// A live fork inherits a version that the batch would replace.
    Pinned,
    /// The versions or the sequences of the batch do not fit in 64 bits.
    Full,
}

pub open spec fn current_version(db: Db, stream: Seq<u8>) -> Option<Version> {
    match tail_of(db, stream) {
        Some(t) => Some(t.version),
        None => None,
    }
}

pub open spec fn version_matches(expected: ExpectedVersion, current: Option<Version>) -> bool {
    match expected {
        ExpectedVersion::Any => true,
        ExpectedVersion::NoStream => current is None,
        ExpectedVersion::Exact(v) => current == Some(v),
    }
}

/// The version that the batch starts at.
pub open spec fn first_version(db: Db, a: AppendView) -> nat {
    match a.from_version {
        Some(v) => v as nat,
        None => match current_version(db, a.stream) {
            Some(v) => v as nat + 1,
            None => 0,
        },
    }
}

/// Whether an append in place starts at a version that a live fork inherits.
pub open spec fn replaces_pinned(db: Db, a: AppendView) -> bool {
    a.from_version is Some && pinned(db, a.stream, a.from_version->0 as nat)
}

pub open spec fn refusal(db: Db, seq: nat, a: AppendView) -> Option<Refusal> {
    if !has_good_tail(db, a.stream) {
        Some(Refusal::BadRecord)
    } else if a.token is Some && !has_good_fence(db, a.stream) {
        Some(Refusal::BadRecord)
    } else if a.token is Some && token_of(db, a.stream) is Some && token_of(db, a.stream)
        != a.token {
        Some(Refusal::Fenced)
    } else if !version_matches(a.expected, current_version(db, a.stream)) {
        Some(Refusal::Conflict)
    } else if a.events.len() == 0 {
        Some(Refusal::Empty)
    } else if replaces_pinned(db, a) {
        Some(Refusal::Pinned)
    } else if first_version(db, a) + a.events.len() - 1 > u64::MAX || seq + a.events.len()
        > u64::MAX {
        Some(Refusal::Full)
    } else {
        None
    }
}

/// The error for each refusal.
pub open spec fn explains(e: Error, db: Db, a: AppendView, why: Refusal) -> bool {
    match why {
        Refusal::BadRecord => e is Encoding,
        Refusal::Fenced => match e {
            Error::FenceMismatch { stream, current_token } => utf8(stream@) == a.stream && Some(
                current_token@,
            ) == token_of(db, a.stream),
            _ => false,
        },
        Refusal::Conflict => match e {
            Error::VersionConflict { stream, expected, actual } => utf8(stream@) == a.stream
                && expected == a.expected && actual == current_version(db, a.stream),
            _ => false,
        },
        Refusal::Empty => says(e, "empty batch"@),
        Refusal::Pinned => says(
            e,
            "version "@ + number_text(a.from_version->0 as nat) + " is pinned by a live fork"@,
        ),
        Refusal::Full => says(e, "versions exhausted"@),
    }
}

/// The time that the tail carries, 0 for a new stream.
pub open spec fn tail_ts(db: Db, stream: Seq<u8>) -> i64 {
    match tail_of(db, stream) {
        Some(t) => t.ts_ms,
        None => 0,
    }
}

/// The time of the i-th event of a batch: the clock, held at or above every
/// earlier time of the stream. `i = -1` is the tail's time.
pub open spec fn ts_at(start: i64, stamps: Seq<StampView>, i: int) -> i64
    decreases i + 1,
{
    if i < 0 {
        start
    } else {
        let prev = ts_at(start, stamps, i - 1);
        if stamps[i].now_ms > prev {
            stamps[i].now_ms
        } else {
            prev
        }
    }
}

/// The i-th envelope of an append.
pub open spec fn envelope_at(
    db: Db,
    seq: nat,
    a: AppendView,
    stamps: Seq<StampView>,
    i: int,
) -> EnvelopeView {
    enveloped(
        a.events[i],
        stamps[i].id,
        (first_version(db, a) + i) as u64,
        (seq + 1 + i) as u64,
        ts_at(tail_ts(db, a.stream), stamps, i),
    )
}

/// The store with the first `n` events of the batch written.
pub open spec fn events_written(
    db: Db,
    seq: nat,
    a: AppendView,
    stamps: Seq<StampView>,
    n: int,
) -> Db
    decreases n,
{
    if n <= 0 {
        db
    } else {
        let before = events_written(db, seq, a, stamps, n - 1);
        let e = envelope_at(db, seq, a, stamps, n - 1);
        let put = before.insert(r_key_of(a.stream, e.version as nat), ValueView::Event(e));
        if a.index_ts {
            put.insert(
                ts_key_of(a.stream, e.ts_ms as int, e.version as nat),
                ValueView::Bytes(Seq::empty()),
            )
        } else {
            put
        }
    }
}

/// The tail that the append leaves.
pub open spec fn new_tail(db: Db, a: AppendView, stamps: Seq<StampView>) -> TailRecord {
    let last = (first_version(db, a) + a.events.len() - 1) as u64;
    TailRecord {
        version: match current_version(db, a.stream) {
            Some(c) => if c < last {
                last
            } else {
                c
            },
            None => last,
        },
        ts_ms: ts_at(tail_ts(db, a.stream), stamps, a.events.len() - 1),
    }
}

/// The store after the append: the events, their time index, the new tail.
pub open spec fn appended(db: Db, seq: nat, a: AppendView, stamps: Seq<StampView>) -> Db {
    events_written(db, seq, a, stamps, a.events.len() as int).insert(
        tail_key(a.stream),
        ValueView::Tail(new_tail(db, a, stamps)),
    )
}

pub open spec fn append_info(db: Db, seq: nat, a: AppendView) -> CommitInfo {
    CommitInfo {
        first_version: first_version(db, a) as u64,
        last_version: (first_version(db, a) + a.events.len() - 1) as u64,
        start_sequence: (seq + 1) as u64,
    }
}

pub open spec fn opt_str(s: Option<&str>) -> Option<Seq<char>> {
    match s {
        Some(s) => Some(s@),
        None => None,
    }
}

impl EventStore {
    /// The fence check of an append that carries `token`.
    fn check_fence(&self, stream: &str, token: &str) -> (r: Result<(), Error>)
        ensures
            match r {
                Ok(_) => has_good_fence(self@, utf8(stream@)) && (token_of(self@, utf8(stream@))
                    is None || token_of(self@, utf8(stream@)) == Some(token@)),
                Err(Error::FenceMismatch { stream: s, current_token }) => has_good_fence(
                    self@,
                    utf8(stream@),
                ) && s@ == stream@ && token_of(self@, utf8(stream@)) == Some(current_token@)
                    && current_token@ != token@,
                Err(e) => !has_good_fence(self@, utf8(stream@)) && e is Encoding,
            },
    {
        match self.records.get(m_key(stream, "fence").as_slice()) {
            Some(Value::Bytes(b)) => {
                let current_token = from_utf8_lossy(b.as_slice());
                if same_text(current_token.as_str(), token) {
                    Ok(())
                } else {
                    Err(Error::FenceMismatch { stream: stream.to_owned(), current_token })
                }
            },
            Some(_) => Err(Error::Encoding("unexpected kind of record".to_owned())),
            None => Ok(()),
        }
    }

    /// One append's checks and writes, assigning versions, global sequences
    /// (`seq` is the cursor, bumped in place) and monotonic per-stream
    /// timestamps, with one stamp per event; updates the stream tail.
    pub fn replay_append_at(
        &mut self,
        seq: &mut u64,
        stream: &str,
        expected: ExpectedVersion,
        from_version: Option<Version>,
        token: Option<&str>,
        events: Vec<NewEvent>,
        stamps: Vec<Stamp>,
        index_ts: bool,
    ) -> (r: Result<CommitInfo, Error>)
        requires
            stamps.len() == events.len(),
        ensures
            ({
                let a = AppendView {
                    stream: utf8(stream@),
                    expected,
                    from_version,
                    token: opt_str(token),
                    events: views(events@),
                    index_ts,
                };
                let st = views(stamps@);
                match refusal(old(self)@, *old(seq) as nat, a) {
                    Some(why) => r is Err && explains(r->Err_0, old(self)@, a, why)
                        && final(self)@ == old(self)@ && *final(seq) == *old(seq),
                    None => r == Ok::<CommitInfo, Error>(
                        append_info(old(self)@, *old(seq) as nat, a),
                    ) && final(self)@ == appended(old(self)@, *old(seq) as nat, a, st)
                        && *final(seq) == *old(seq) + events.len(),
                }
            }),
            final(self).base() == old(self).base(),
    {
        let ghost a = AppendView {
            stream: utf8(stream@),
            expected,
            from_version,
            token: opt_str(token),
            events: views(events@),
            index_ts,
        };
        let ghost st = views(stamps@);
        let ghost db = self@;
        let ghost q = *seq as nat;
        let t = match tail(&self.records, stream) {
            Ok(t) => t,
            Err(e) => return Err(e),
        };
        let current: Option<Version> = match t {
            Some(t) => Some(t.version),
            None => None,
        };
        if let Some(token) = token {
            if let Err(e) = self.check_fence(stream, token) {
                return Err(e);
            }
        }
        let ok = match expected {
            ExpectedVersion::Any => true,
            ExpectedVersion::NoStream => current.is_none(),
            ExpectedVersion::Exact(v) => match current {
                Some(c) => c == v,
                None => false,
            },
        };
        if !ok {
            return Err(
                Error::VersionConflict { stream: stream.to_owned(), expected, actual: current },
            );
        }
        let count: usize = events.len();
        if count == 0 {
            return Err(refuse("empty batch"));
        }
        let n: u64 = count as u64;
        let first: u64 = match from_version {
            Some(v) => {
                if let Some(c) = ceiling(&self.records, stream) {
                    assert(pinned(self@, a.stream, v as nat) == (v <= c));
                    if v <= c {
                        let mut msg = "version ".to_owned();
                        push_number(&mut msg, v);
                        msg.append(" is pinned by a live fork");
                        return Err(Error::InvalidInput(msg));
                    }
                }
                assert(!pinned(self@, a.stream, v as nat));
                v
            },
            None => match current {
                Some(v) => if v == u64::MAX {
                    return Err(refuse("versions exhausted"));
                } else {
                    v + 1
                },
                None => 0,
            },
        };
        if n - 1 > u64::MAX - first || n > u64::MAX - *seq {
            return Err(refuse("versions exhausted"));
        }
        let last: u64 = first + (n - 1);
        let start_seq: u64 = *seq + 1;
        let start_ts: i64 = match t {
            Some(t) => t.ts_ms,
            None => 0,
        };
        // Timestamps never move backwards within a stream (may be equal).
        let mut last_ts: i64 = start_ts;
        let mut i: usize = 0;
        let ghost evs = events@;
        let ghost sts = stamps@;
        let mut events = events;
        let mut stamps = stamps;
        while i < count
            invariant
                i <= count,
                count == n,
                count == evs.len(),
                sts.len() == evs.len(),
                events@ == evs.skip(i as int),
                stamps@ == sts.skip(i as int),
                a.events == views(evs),
                a.stream == utf8(stream@),
                a.index_ts == index_ts,
                st == views(sts),
                first == first_version(db, a),
                first + n - 1 <= u64::MAX,
                start_seq == q + 1,
                q + n <= u64::MAX,
                start_ts == tail_ts(db, a.stream),
                last_ts == ts_at(start_ts, st, i - 1),
                self@ == events_written(db, q, a, st, i as int),
                self.base() == old(self).base(),
            decreases count - i,
        {
            let e = events.remove(0);
            let stamp = stamps.remove(0);
            proof {
                assert(e == evs[i as int]);
                assert(stamp == sts[i as int]);
                assert(events@ =~= evs.skip(i + 1));
                assert(stamps@ =~= sts.skip(i + 1));
                assert(st[i as int] == stamp@);
            }
            let version: u64 = first + i as u64;
            let mut env = Envelope::stamped(e, version, start_seq + i as u64, stamp);
            if env.ts_ms < last_ts {
                env.ts_ms = last_ts;
            }
            last_ts = env.ts_ms;
            proof {
                assert(a.events[i as int] == evs[i as int]@);
                assert(env@ == envelope_at(db, q, a, st, i as int));
            }
            let key = r_key(stream, version);
            self.put(key, Value::Event(env));
            if index_ts {
                let empty: Vec<u8> = Vec::new();
                assert(empty@ =~= Seq::empty());
                self.put(ts_key(stream, last_ts, version), Value::Bytes(empty));
            }
            i += 1;
        }
        *seq = start_seq + (n - 1);
        let version: u64 = match current {
            Some(c) => if c < last {
                last
            } else {
                c
            },
            None => last,
        };
        self.put(m_key(stream, "tail"), Value::Tail(TailRecord { version, ts_ms: last_ts }));
        Ok(CommitInfo { first_version: first, last_version: last, start_sequence: start_seq })
    }
}

/// The sequence counter.
pub open spec fn seq_of(db: Db) -> nat {
    number_at(db, seq_key())
}

/// A number as it is stored.
pub open spec fn number_cell(n: nat) -> ValueView {
    ValueView::Bytes(be(n, 8))
}

/// The store after a committed append: the batch and the bumped sequence
/// counter.
pub open spec fn committed(db: Db, a: AppendView, stamps: Seq<StampView>) -> Db {
    appended(db, seq_of(db), a, stamps).insert(seq_key(), number_cell(seq_of(db) + a.events.len()))
}

/// What an append does and returns: the whole batch lands, or nothing does.
pub open spec fn append_outcome(
    before: Db,
    after: Db,
    a: AppendView,
    stamps: Seq<StampView>,
    r: Result<CommitInfo, Error>,
) -> bool {
    if batch_too_long(a.events) || record_too_large(a.events) {
        r is Err && caps_error(a.events, r->Err_0) && after == before
    } else {
        match refusal(before, seq_of(before), a) {
            Some(why) => r is Err && explains(r->Err_0, before, a, why) && after == before,
            None => r == Ok::<CommitInfo, Error>(append_info(before, seq_of(before), a)) && after
                == committed(before, a, stamps),
        }
    }
}

/// One stamp per event, each with a fresh identifier.
pub open spec fn stamps_for(stamps: Seq<StampView>, n: nat) -> bool {
    &&& stamps.len() == n
    &&& forall|i: int| 0 <= i < n ==> crate::stamp::is_id((#[trigger] stamps[i]).id)
}

impl EventStore {
    /// Conditional append with the given stamps.
    pub fn append_stamped(
        &mut self,
        stream: &str,
        expected: ExpectedVersion,
        from_version: Option<Version>,
        token: Option<&str>,
        events: Vec<NewEvent>,
        stamps: Vec<Stamp>,
        index_ts: bool,
    ) -> (r: Result<CommitInfo, Error>)
        requires
            stamps.len() == events.len(),
        ensures
            append_outcome(
                old(self)@,
                final(self)@,
                (AppendView {
                    stream: utf8(stream@),
                    expected,
                    from_version,
                    token: opt_str(token),
                    events: views(events@),
                    index_ts,
                }),
                views(stamps@),
                r,
            ),
            final(self).base() == old(self).base(),
    {
        if let Err(e) = check_batch(&events) {
            return Err(e);
        }
        let mut seq: u64 = get_be_or_zero(&self.records, SEQ_KEY.as_bytes());
        let info = match self.replay_append_at(
            &mut seq,
            stream,
            expected,
            from_version,
            token,
            events,
            stamps,
            index_ts,
        ) {
            Ok(info) => info,
            Err(e) => return Err(e),
        };
        self.put(copy_of(SEQ_KEY.as_bytes()), Value::Bytes(be_bytes(seq)));
        Ok(info)
    }

    /// Conditional append in one transaction. The caller retries it against
    /// fresh records when the commit conflicts: the checks run again.
    pub fn commit_appends(
        &mut self,
        stream: &str,
        expected: ExpectedVersion,
        from_version: Option<Version>,
        token: Option<&str>,
        events: Vec<NewEvent>,
        index_ts: bool,
    ) -> (r: Result<CommitInfo, Error>)
        ensures
            exists|stamps: Seq<StampView>|
                #![trigger stamps_for(stamps, events.len() as nat)]
                stamps_for(stamps, events.len() as nat) && append_outcome(
                    old(self)@,
                    final(self)@,
                    (AppendView {
                        stream: utf8(stream@),
                        expected,
                        from_version,
                        token: opt_str(token),
                        events: views(events@),
                        index_ts,
                    }),
                    stamps,
                    r,
                ),
            final(self).base() == old(self).base(),
    {
        let stamps = Stamp::fresh_many(events.len());
        assert(stamps_for(views(stamps@), events.len() as nat));
        self.append_stamped(stream, expected, from_version, token, events, stamps, index_ts)
    }

    /// Atomically commits the batch to `stream` iff its version matches
    /// `expected`; the whole batch lands or none does. Retrying an already
    /// committed batch returns [`Error::VersionConflict`], never a duplicate.
    pub fn append(
        &mut self,
        stream: &str,
        expected: ExpectedVersion,
        events: Vec<NewEvent>,
    ) -> (r: Result<CommitInfo, Error>)
        ensures
            exists|stamps: Seq<StampView>|
                #![trigger stamps_for(stamps, events.len() as nat)]
                stamps_for(stamps, events.len() as nat) && append_outcome(
                    old(self)@,
                    final(self)@,
                    plain_append(utf8(stream@), expected, views(events@)),
                    stamps,
                    r,
                ),
            final(self).base() == old(self).base(),
    {
        self.commit_appends(stream, expected, None, None, events, true)
    }

    /// Appends `events` starting at `from_version`, overwriting any existing
    /// events at those versions. This lets a fenced writer resolve a conflict
    /// by replacing its tail in place. Versions that a live fork inherits stay
    /// as they are: an append that would replace one is refused.
    pub fn append_at(
        &mut self,
        stream: &str,
        from_version: Version,
        expected: ExpectedVersion,
        events: Vec<NewEvent>,
    ) -> (r: Result<CommitInfo, Error>)
        ensures
            exists|stamps: Seq<StampView>|
                #![trigger stamps_for(stamps, events.len() as nat)]
                stamps_for(stamps, events.len() as nat) && append_outcome(
                    old(self)@,
                    final(self)@,
                    (AppendView {
                        from_version: Some(from_version),
                        ..plain_append(utf8(stream@), expected, views(events@))
                    }),
                    stamps,
                    r,
                ),
            final(self).base() == old(self).base(),
    {
        self.commit_appends(stream, expected, Some(from_version), None, events, true)
    }

    /// Like [`append`](Self::append), but fails with [`Error::FenceMismatch`]
    /// if the stream is fenced and `token` isn't the current fence token.
    pub fn append_with_token(
        &mut self,
        stream: &str,
        token: &str,
        expected: ExpectedVersion,
        events: Vec<NewEvent>,
    ) -> (r: Result<CommitInfo, Error>)
        ensures
            exists|stamps: Seq<StampView>|
                #![trigger stamps_for(stamps, events.len() as nat)]
                stamps_for(stamps, events.len() as nat) && append_outcome(
                    old(self)@,
                    final(self)@,
                    (AppendView {
                        token: Some(token@),
                        ..plain_append(utf8(stream@), expected, views(events@))
                    }),
                    stamps,
                    r,
                ),
            final(self).base() == old(self).base(),
    {
        self.commit_appends(stream, expected, None, Some(token), events, true)
    }
}

/// An append at the tail, without a token, indexed by time.
pub open spec fn plain_append(
    stream: Seq<u8>,
    expected: ExpectedVersion,
    events: Seq<NewEventView>,
) -> AppendView {
    AppendView {
        stream,
        expected,
        from_version: None,
        token: None,
        events,
        index_ts: true,
    }
}

// ---- committing against a backend -----------------------------------------

/// A committed-but-not-yet-durable append. All tickets on a store share one
/// watermark, so awaiting the highest ticket awaits them all.
#[derive(Debug, Clone, Copy)]
pub struct CommitTicket {
    pub info: CommitInfo,
    /// Durability watermark target (backend log sequence).
    pub seq: u64,
}

/// How the backend answered a commit.
#[derive(Debug)]
pub enum CommitReply {
    /// Committed at a log sequence.
    Committed(u64),
    /// Another transaction wrote what this one read.
    Conflict,
    /// Any other failure.
    Failed(String),
}

/// What to do after a commit attempt.
#[derive(Debug)]
pub enum AfterCommit {
    Done(CommitTicket),
    /// Run the append again on fresh records; the counter is the number of
    /// retries so far.
    Retry(usize),
    /// Give up: read the tail and report [`Error::VersionConflict`] with it.
    Conflict,
    Fail(Error),
}

/// Decides after the commit of an append was answered: a conflict is retried
/// up to [`COMMIT_RETRIES`] times, then reported.
pub fn after_commit(info: CommitInfo, retries: usize, reply: CommitReply) -> (r: AfterCommit)
    ensures
        match reply {
            CommitReply::Committed(seq) => r == AfterCommit::Done(CommitTicket { info, seq }),
            CommitReply::Conflict => if retries < COMMIT_RETRIES {
                r == AfterCommit::Retry((retries + 1) as usize)
            } else {
                r == AfterCommit::Conflict
            },
            CommitReply::Failed(text) => r == AfterCommit::Fail(Error::Backend(text)),
        },
{
    match reply {
        CommitReply::Committed(seq) => AfterCommit::Done(CommitTicket { info, seq }),
        CommitReply::Conflict => if retries < COMMIT_RETRIES {
            AfterCommit::Retry(retries + 1)
        } else {
            AfterCommit::Conflict
        },
        CommitReply::Failed(text) => AfterCommit::Fail(Error::Backend(text)),
    }
}

impl EventStore {
    /// The error of an append whose retries are used up: where the stream
    /// stands now.
    pub fn lost_race(&self, stream: &str, expected: ExpectedVersion) -> (e: Error)
        ensures
            if has_good_tail(self@, utf8(stream@)) {
                match e {
                    Error::VersionConflict { stream: s, expected: x, actual } => s@ == stream@ && x
                        == expected && actual == current_version(self@, utf8(stream@)),
                    _ => false,
                }
            } else {
                e is Encoding
            },
    {
        match tail(&self.records, stream) {
            Ok(t) => {
                let actual: Option<Version> = match t {
                    Some(t) => Some(t.version),
                    None => None,
                };
                Error::VersionConflict { stream: stream.to_owned(), expected, actual }
            },
            Err(e) => e,
        }
    }
}

/// What a wait for durability comes to.
#[derive(Debug, Clone, Copy, PartialEq, Eq, Structural)]
pub enum Wait {
    /// Not yet.
    Pending,
    /// The watermark covers the target.
    Durable,
    /// The store closed before the watermark got there.
    Closed,
}

/// Whether a watermark covers a target.
pub open spec fn covers(durable_seq: u64, target: u64) -> bool {
    durable_seq >= target
}

/// Looks at the backend's watermark: durable once it covers `target`; given
/// up when the store closes first.
pub fn await_seq(durable_seq: u64, closed: bool, target: u64) -> (r: Wait)
    ensures
        r == (if covers(durable_seq, target) {
            Wait::Durable
        } else if closed {
            Wait::Closed
        } else {
            Wait::Pending
        }),
{
    if durable_seq >= target {
        Wait::Durable
    } else if closed {
        Wait::Closed
    } else {
        Wait::Pending
    }
}

/// Awaiting the highest ticket awaits them all.
pub proof fn highest_ticket_covers_all(durable_seq: u64, high: CommitTicket, low: CommitTicket)
    requires
        low.seq <= high.seq,
        covers(durable_seq, high.seq),
    ensures
        covers(durable_seq, low.seq),
{
}

// ---- fences and transactions ----------------------------------------------

/// The fence set to a non-empty token, cleared otherwise.
pub open spec fn fenced(db: Db, stream: Seq<u8>, token: Option<Seq<char>>) -> Db {
    if token is Some && token->0.len() > 0 {
        db.insert(fence_key(stream), ValueView::Bytes(utf8(token->0)))
    } else {
        db.remove(fence_key(stream))
    }
}

/// Bookkeeping for operations that write no events: the stream's tail as
/// first and last version (0 when empty), no sequence.
pub open spec fn tail_info(t: Option<TailRecord>) -> CommitInfo {
    let v = match t {
        Some(t) => t.version,
        None => 0,
    };
    CommitInfo { first_version: v, last_version: v, start_sequence: 0 }
}

pub fn tail_commit_info(t: Option<TailRecord>) -> (r: CommitInfo)
    ensures
        r == tail_info(t),
{
    let v: Version = match t {
        Some(t) => t.version,
        None => 0,
    };
    CommitInfo { first_version: v, last_version: v, start_sequence: 0 }
}

/// A cross-stream atomic transaction: appends and fence operations to be
/// committed together by [`EventStore::commit`].
#[derive(Debug)]
pub struct Transaction {
    pub ops: Vec<Op>,
}

#[derive(Debug)]
pub enum Op {
    Append { stream: String, expected: ExpectedVersion, events: Vec<NewEvent> },
    Fence { stream: String, token: Option<String> },
}

pub enum OpView {
    Append { stream: Seq<char>, expected: ExpectedVersion, events: Seq<NewEventView> },
    Fence { stream: Seq<char>, token: Option<Seq<char>> },
}

impl View for Op {
    type V = OpView;

    open spec fn view(&self) -> OpView {
        match self {
            Op::Append { stream, expected, events } => OpView::Append {
                stream: stream@,
                expected: *expected,
                events: views(events@),
            },
            Op::Fence { stream, token } => OpView::Fence {
                stream: stream@,
                token: crate::snapshot::opt_text(*token),
            },
        }
    }
}

impl Transaction {
    /// Queues a conditional append (same semantics as
    /// [`EventStore::append`]).
    pub fn append(
        &mut self,
        stream: &str,
        expected: ExpectedVersion,
        events: Vec<NewEvent>,
    ) -> (r: &mut Self)
        ensures
            views(r.ops@) == views(old(self).ops@).push(
                OpView::Append { stream: stream@, expected, events: views(events@) },
            ),
            *final(r) == *final(self),
    {
        let ghost before = views(self.ops@);
        let op = Op::Append { stream: stream.to_owned(), expected, events };
        let ghost v = op@;
        self.ops.push(op);
        assert(views(self.ops@) =~= before.push(v));
        self
    }

    /// Queues a fence set or clear (same semantics as [`EventStore::fence`]).
    pub fn fence(&mut self, stream: &str, token: Option<String>) -> (r: &mut Self)
        ensures
            views(r.ops@) == views(old(self).ops@).push(
                OpView::Fence { stream: stream@, token: crate::snapshot::opt_text(token) },
            ),
            *final(r) == *final(self),
    {
        let ghost before = views(self.ops@);
        let op = Op::Fence { stream: stream.to_owned(), token };
        let ghost v = op@;
        self.ops.push(op);
        assert(views(self.ops@) =~= before.push(v));
        self
    }
}

/// The run of a transaction's first operations: the store, the sequence
/// counter, and one commit per append.
pub struct Progress {
    pub db: Db,
    pub seq: nat,
    pub infos: Seq<CommitInfo>,
}

/// What one operation does to a run; `None` where it is refused.
pub open spec fn run_op(p: Progress, op: OpView, stamps: Seq<StampView>) -> Option<Progress> {
    match op {
        OpView::Append { stream, expected, events } => {
            let a = plain_append(utf8(stream), expected, events);
            if refusal(p.db, p.seq, a) is Some {
                None
            } else {
                Some(
                    Progress {
                        db: appended(p.db, p.seq, a, stamps),
                        seq: p.seq + events.len(),
                        infos: p.infos.push(append_info(p.db, p.seq, a)),
                    },
                )
            }
        },
        OpView::Fence { stream, token } => Some(
            Progress { db: fenced(p.db, utf8(stream), token), ..p },
        ),
    }
}

/// The run of a transaction's operations, one after the other, each seeing
/// what the earlier ones wrote.
pub open spec fn run_ops(db: Db, ops: Seq<OpView>, stamps: Seq<Seq<StampView>>) -> Option<Progress>
    decreases ops.len(),
{
    if ops.len() == 0 {
        Some(Progress { db, seq: seq_of(db), infos: Seq::empty() })
    } else {
        match run_ops(db, ops.drop_last(), stamps) {
            Some(p) => run_op(p, ops.last(), stamps[ops.len() - 1]),
            None => None,
        }
    }
}

/// The number of stamps that an operation takes.
pub open spec fn stamp_count(op: OpView) -> nat {
    match op {
        OpView::Append { events, .. } => events.len(),
        OpView::Fence { .. } => 0,
    }
}

pub open spec fn stamps_fit(ops: Seq<OpView>, stamps: Seq<Seq<StampView>>) -> bool {
    &&& stamps.len() == ops.len()
    &&& forall|i: int|
        0 <= i < ops.len() ==> (#[trigger] stamps[i]).len() == stamp_count(ops[i])
}

/// Whether a batch of the transaction breaks a cap.
pub open spec fn breaks_caps(op: OpView) -> bool {
    match op {
        OpView::Append { events, .. } => batch_too_long(events) || record_too_large(events),
        OpView::Fence { .. } => false,
    }
}

pub open spec fn any_breaks_caps(ops: Seq<OpView>) -> bool {
    exists|i: int| 0 <= i < ops.len() && breaks_caps(#[trigger] ops[i])
}

/// The operation is an append that is refused, with the reason.
pub open spec fn op_refused(p: Progress, op: OpView, e: Error) -> bool {
    &&& op is Append
    &&& ({
        let a = plain_append(utf8(op->Append_stream), op->expected, op->events);
        refusal(p.db, p.seq, a) is Some && explains(e, p.db, a, refusal(p.db, p.seq, a)->0)
    })
}

/// The first operation that is refused, with the reason.
pub open spec fn first_refused(
    db: Db,
    ops: Seq<OpView>,
    stamps: Seq<Seq<StampView>>,
    e: Error,
    n: int,
) -> bool {
    &&& 0 <= n < ops.len()
    &&& run_ops(db, ops.take(n), stamps) is Some
    &&& op_refused(run_ops(db, ops.take(n), stamps)->0, ops[n], e)
}

pub open spec fn refused_with(
    db: Db,
    ops: Seq<OpView>,
    stamps: Seq<Seq<StampView>>,
    e: Error,
) -> bool {
    exists|n: int| #[trigger] first_refused(db, ops, stamps, e, n)
}

/// The error of the first operation that breaks a cap.
pub open spec fn first_over_caps(ops: Seq<OpView>, e: Error, i: int) -> bool {
    &&& 0 <= i < ops.len()
    &&& breaks_caps(ops[i])
    &&& caps_error(ops[i]->Append_events, e)
    &&& forall|j: int| 0 <= j < i ==> !breaks_caps(#[trigger] ops[j])
}

pub open spec fn over_caps(ops: Seq<OpView>, e: Error) -> bool {
    exists|i: int| #[trigger] first_over_caps(ops, e, i)
}

/// Refuses a run of operations one of which breaks a cap.
fn check_caps(all: &Vec<Op>) -> (r: Result<(), Error>)
    ensures
        r is Ok <==> !any_breaks_caps(views(all@)),
        r is Err ==> over_caps(views(all@), r->Err_0),
{
    let ghost ops = views(all@);
    let mut i: usize = 0;
    while i < all.len()
        invariant
            i <= all.len(),
            ops == views(all@),
            forall|j: int| 0 <= j < i ==> !breaks_caps(#[trigger] ops[j]),
        decreases all.len() - i,
    {
        assert(ops[i as int] == all@[i as int]@);
        if let Op::Append { events, .. } = &all[i] {
            if let Err(e) = check_batch(events) {
                assert(first_over_caps(ops, e, i as int));
                return Err(e);
            }
        }
        i += 1;
    }
    Ok(())
}

/// What a transaction does and returns: all its operations, or none.
pub open spec fn commit_outcome(
    before: Db,
    after: Db,
    ops: Seq<OpView>,
    stamps: Seq<Seq<StampView>>,
    r: Result<Vec<CommitInfo>, Error>,
) -> bool {
    if any_breaks_caps(ops) {
        r is Err && after == before && over_caps(ops, r->Err_0)
    } else {
        match run_ops(before, ops, stamps) {
            Some(p) => r is Ok && r->Ok_0@ == p.infos && after == p.db.insert(
                seq_key(),
                number_cell(p.seq),
            ),
            None => r is Err && after == before && refused_with(before, ops, stamps, r->Err_0),
        }
    }
}

/// A fence holds until it is changed. Once it is set, an append with another
/// token is refused with the current one, and an append with the token or with
/// none fares as on an unfenced stream; once it is cleared no append is fenced
/// off.
pub proof fn fence_is_checked(db: Db, token: Seq<char>, seq: nat, a: AppendView)
    requires
        token.len() > 0,
    ensures
        ({
            let set = fenced(db, a.stream, Some(token));
            let cleared = fenced(db, a.stream, None);
            &&& token_of(set, a.stream) == Some(token)
            &&& a.token is Some && a.token != Some(token) && has_good_tail(db, a.stream)
                ==> refusal(set, seq, a) == Some(Refusal::Fenced)
            &&& a.token is None || a.token == Some(token) ==> refusal(set, seq, a) == refusal(
                cleared,
                seq,
                a,
            )
            &&& refusal(cleared, seq, a) != Some(Refusal::Fenced)
            &&& fenced(db, a.stream, Some(Seq::empty())) == cleared
        }),
{
    vstd::utf8::encode_utf8_valid_utf8(token);
    vstd::utf8::encode_utf8_decode_utf8(token);
    crate::layout::fixed_parts();
    let set = fenced(db, a.stream, Some(token));
    let cleared = fenced(db, a.stream, None);
    assert(tail_key(a.stream) != fence_key(a.stream)) by {
        crate::layout::fields_differ(a.stream, utf8("tail"@), a.stream, utf8("fence"@));
    }
    assert(tail_of(set, a.stream) == tail_of(db, a.stream));
    assert(tail_of(cleared, a.stream) == tail_of(db, a.stream));
    crate::layout::own_field_no_pin(a.stream, utf8("fence"@));
    crate::stream::fence_keeps_guards(db, a.stream, Some(token), a.stream);
    crate::stream::fence_keeps_guards(db, a.stream, None, a.stream);
    crate::stream::same_guards(db, set, a.stream);
    crate::stream::same_guards(db, cleared, a.stream);
}

/// One commit comes back per append of a transaction, in order.
pub proof fn one_commit_per_append(db: Db, ops: Seq<OpView>, stamps: Seq<Seq<StampView>>)
    requires
        run_ops(db, ops, stamps) is Some,
    ensures
        run_ops(db, ops, stamps)->0.infos.len() == appends_in(ops),
    decreases ops.len(),
{
    if ops.len() > 0 {
        one_commit_per_append(db, ops.drop_last(), stamps);
    }
}

/// The number of appends among operations.
pub open spec fn appends_in(ops: Seq<OpView>) -> nat
    decreases ops.len(),
{
    if ops.len() == 0 {
        0
    } else {
        appends_in(ops.drop_last()) + (if ops.last() is Append {
            1nat
        } else {
            0
        })
    }
}

impl EventStore {
    /// Sets or clears the stream fence.
    fn replay_fence(&mut self, stream: &str, token: Option<&str>)
        ensures
            final(self)@ == fenced(old(self)@, utf8(stream@), opt_str(token)),
            final(self).base() == old(self).base(),
    {
        let key = m_key(stream, "fence");
        match token {
            Some(t) => if !t.is_empty() {
                self.put(key, Value::Bytes(copy_of(t.as_bytes())));
            } else {
                self.delete(key);
            },
            None => self.delete(key),
        }
    }

    /// Sets (`Some`) or clears (`None` or empty) the stream's fence token.
    /// [`append_with_token`](Self::append_with_token) validates the token;
    /// [`append`](Self::append) does not require one.
    ///
    /// No events are written: the returned versions carry the stream's
    /// current tail (or 0) and `start_sequence` is 0.
    pub fn fence(&mut self, stream: &str, token: Option<&str>) -> (r: Result<CommitInfo, Error>)
        ensures
            if has_good_tail(old(self)@, utf8(stream@)) {
                r == Ok::<CommitInfo, Error>(tail_info(tail_of(old(self)@, utf8(stream@))))
                    && final(self)@ == fenced(old(self)@, utf8(stream@), opt_str(token))
            } else {
                r is Err && r->Err_0 is Encoding && final(self)@ == old(self)@
            },
            final(self).base() == old(self).base(),
    {
        let t = match tail(&self.records, stream) {
            Ok(t) => t,
            Err(e) => return Err(e),
        };
        self.replay_fence(stream, token);
        Ok(tail_commit_info(t))
    }

    /// Starts a cross-stream transaction: queue appends and fences, then
    /// [`commit`](Self::commit) them atomically.
    pub fn transaction(&self) -> (r: Transaction)
        ensures
            views(r.ops@) == Seq::<OpView>::empty(),
    {
        let r = Transaction { ops: Vec::new() };
        assert(views(r.ops@) =~= Seq::<OpView>::empty());
        r
    }

    /// Replays the transaction's operations (per-stream version checks,
    /// sequence and tail bookkeeping included) and commits once. Returns one
    /// [`CommitInfo`] per append, in order.
    pub fn commit(&mut self, txn: Transaction) -> (r: Result<Vec<CommitInfo>, Error>)
        ensures
            exists|stamps: Seq<Seq<StampView>>|
                #![trigger stamps_fit(views(txn.ops@), stamps)]
                stamps_fit(views(txn.ops@), stamps) && commit_outcome(
                    old(self)@,
                    final(self)@,
                    views(txn.ops@),
                    stamps,
                    r,
                ),
            final(self).base() == old(self).base(),
    {
        let mut stamps: Vec<Vec<Stamp>> = Vec::new();
        let mut i: usize = 0;
        while i < txn.ops.len()
            invariant
                i <= txn.ops.len(),
                stamps.len() == i,
                forall|j: int|
                    0 <= j < i ==> (#[trigger] stamps@[j]).len() == stamp_count(txn.ops@[j]@),
            decreases txn.ops.len() - i,
        {
            let n: usize = match &txn.ops[i] {
                Op::Append { events, .. } => events.len(),
                Op::Fence { .. } => 0,
            };
            stamps.push(Stamp::fresh_many(n));
            i += 1;
        }
        let ghost st = nested_views(stamps@);
        assert(stamps_fit(views(txn.ops@), st));
        self.commit_stamped(txn, stamps)
    }

    /// Runs one operation of a transaction.
    fn run_op(
        &mut self,
        seq: &mut u64,
        infos: &mut Vec<CommitInfo>,
        op: Op,
        stamps: Vec<Stamp>,
    ) -> (r: Result<(), Error>)
        requires
            stamps.len() == stamp_count(op@),
        ensures
            ({
                let p = Progress { db: old(self)@, seq: *old(seq) as nat, infos: old(infos)@ };
                match run_op(p, op@, views(stamps@)) {
                    Some(q) => r is Ok && final(self)@ == q.db && *final(seq) == q.seq
                        && final(infos)@ == q.infos,
                    None => r is Err && op_refused(p, op@, r->Err_0),
                }
            }),
            final(self).base() == old(self).base(),
    {
        match op {
            Op::Append { stream, expected, events } => {
                match self.replay_append_at(
                    seq,
                    stream.as_str(),
                    expected,
                    None,
                    None,
                    events,
                    stamps,
                    true,
                ) {
                    Ok(info) => {
                        infos.push(info);
                        Ok(())
                    },
                    Err(e) => Err(e),
                }
            },
            Op::Fence { stream, token } => {
                let token_ref: Option<&str> = match &token {
                    Some(x) => Some(x.as_str()),
                    None => None,
                };
                self.replay_fence(stream.as_str(), token_ref);
                Ok(())
            },
        }
    }

    /// [`commit`](Self::commit) with the given stamps, one run per operation.
    pub fn commit_stamped(&mut self, txn: Transaction, stamps: Vec<Vec<Stamp>>) -> (r: Result<
        Vec<CommitInfo>,
        Error,
    >)
        requires
            stamps_fit(views(txn.ops@), nested_views(stamps@)),
        ensures
            commit_outcome(
                old(self)@,
                final(self)@,
                views(txn.ops@),
                nested_views(stamps@),
                r,
            ),
            final(self).base() == old(self).base(),
    {
        let ghost db = self@;
        let ghost ops = views(txn.ops@);
        let ghost st = nested_views(stamps@);
        if let Err(e) = check_caps(&txn.ops) {
            return Err(e);
        }
        let mut t = self.begin();
        let mut seq: u64 = get_be_or_zero(&t.records, SEQ_KEY.as_bytes());
        let mut infos: Vec<CommitInfo> = Vec::new();
        let count: usize = txn.ops.len();
        let ghost all = txn.ops@;
        let ghost sts = stamps@;
        let mut queue: Vec<Op> = txn.ops;
        let mut stamps = stamps;
        let mut k: usize = 0;
        assert(ops.take(0) =~= Seq::<OpView>::empty());
        assert(infos@ =~= Seq::<CommitInfo>::empty());
        #[verifier::loop_isolation(false)]
        while k < count
            invariant
                k <= count,
                count == all.len(),
                queue@ == all.skip(k as int),
                stamps@ == sts.skip(k as int),
                ops == views(all),
                st == nested_views(sts),
                stamps_fit(ops, st),
                !any_breaks_caps(ops),
                self@ == db,
                db == old(self)@,
                self.base() == old(self).base(),
                t.base() == old(self).base(),
                run_ops(db, ops.take(k as int), st) is Some,
                run_ops(db, ops.take(k as int), st)->0.db == t@,
                run_ops(db, ops.take(k as int), st)->0.seq == seq,
                run_ops(db, ops.take(k as int), st)->0.infos == infos@,
            decreases count - k,
        {
            let ghost p = run_ops(db, ops.take(k as int), st)->0;
            let op = queue.remove(0);
            let stamp = stamps.remove(0);
            proof {
                assert(op == all[k as int]);
                assert(ops[k as int] == op@);
                assert(stamp == sts[k as int]);
                assert(st[k as int] == views(stamp@));
                assert(queue@ =~= all.skip(k + 1));
                assert(stamps@ =~= sts.skip(k + 1));
                assert(ops.take(k + 1).drop_last() =~= ops.take(k as int));
                assert(ops.take(k + 1).last() == op@);
                assert(st[k as int].len() == stamp_count(ops[k as int]));
            }
            if let Err(e) = t.run_op(&mut seq, &mut infos, op, stamp) {
                proof {
                    assert(first_refused(db, ops, st, e, k as int));
                    assert(refused_with(db, ops, st, e));
                    refused_prefix(db, ops, st, k + 1);
                }
                return Err(e);
            }
            k += 1;
        }
        assert(ops.take(k as int) =~= ops);
        t.put(copy_of(SEQ_KEY.as_bytes()), Value::Bytes(be_bytes(seq)));
        *self = t;
        Ok(infos)
    }
}

pub open spec fn nested_views(stamps: Seq<Vec<Stamp>>) -> Seq<Seq<StampView>> {
    Seq::new(stamps.len(), |i: int| views(stamps[i]@))
}

/// A refused prefix refuses the whole.
proof fn refused_prefix(db: Db, ops: Seq<OpView>, stamps: Seq<Seq<StampView>>, n: int)
    requires
        0 <= n <= ops.len(),
        run_ops(db, ops.take(n), stamps) is None,
    ensures
        run_ops(db, ops, stamps) is None,
    decreases ops.len() - n,
{
    if n == ops.len() {
        assert(ops.take(n) =~= ops);
    } else {
        assert(ops.take(n + 1).drop_last() =~= ops.take(n));
        refused_prefix(db, ops, stamps, n + 1);
    }
}

} // verus!

//! Key layout of the store and the shared read primitives.
//!
//! ```text
//! r/{stream}/{version:016}            event envelope
//! m/{stream}/tail                     TailRecord { version, ts_ms }
//! m/{stream}/fence                    token bytes
//! m/{stream}/trim                     u64be floor (hide v < floor)
//! m/{stream}/deleted                  deletion tombstone (empty)
//! m/{stream}/fork                     ForkRef { stream, at_version }
//! m/{stream}/forks/{child}            u64be at_version (pin registry)
//! m/{stream}/rollback/{from_v:016}    u64be txn watermark
//! i/{stream}/{ts:016}/{v:016}         time index (empty value)
//! snap/{stream}/{seq:016}             SnapshotRecord
//! j/compactions/{ulid}                CompactionRecord
//! j/jobs/{ulid}                       JobEvent
//! g/seq                               u64be global sequence counter
//! ```
use vstd::prelude::*;
use vstd::string::*;

use crate::digits::{
    cell, cell_value, dec16, dec16_signed, numeral, push_dec16, push_dec16_signed, read_numeral,
};
use crate::envelope::{Envelope, EnvelopeView, Event, Version};
use crate::error::{refuse, says, Error};
use crate::fork::{ForkRef, ForkView};
use crate::jobs::{JobEvent, JobEventView};
use crate::numbered::{find_numbered, key_number, number_of, numbered, numbers, opt_nat};
use crate::order::{after, copy_of, has_prefix, same};
use crate::snapshot::{CompactionRecord, CompactionView, SnapshotRecord, SnapshotView};
use crate::table::{is_listing, lemma_under, under, views, Dup, Key, Table};
use crate::text::{utf8, SLASH};

verus! {

pub open spec fn r_prefix_of(stream: Seq<u8>) -> Seq<u8> {
    seq![0x72u8, SLASH] + stream + seq![SLASH]
}

pub open spec fn r_key_of(stream: Seq<u8>, version: nat) -> Seq<u8> {
    r_prefix_of(stream) + dec16(version)
}

pub open spec fn m_key_of(stream: Seq<u8>, field: Seq<u8>) -> Seq<u8> {
    seq![0x6du8, SLASH] + stream + seq![SLASH] + field
}

pub open spec fn i_prefix_of(stream: Seq<u8>) -> Seq<u8> {
    seq![0x69u8, SLASH] + stream + seq![SLASH]
}

pub open spec fn ts_key_of(stream: Seq<u8>, ts_ms: int, version: nat) -> Seq<u8> {
    i_prefix_of(stream) + dec16_signed(ts_ms) + seq![SLASH] + dec16(version)
}

pub open spec fn snap_prefix_of(stream: Seq<u8>) -> Seq<u8> {
    utf8("snap/"@) + stream + seq![SLASH]
}

pub open spec fn compactions_prefix() -> Seq<u8> {
    utf8("j/compactions/"@)
}

pub open spec fn jobs_prefix() -> Seq<u8> {
    utf8("j/jobs/"@)
}

pub open spec fn seq_key() -> Seq<u8> {
    utf8("g/seq"@)
}

pub const COMPACTIONS_PREFIX: &'static str = "j/compactions/";

/// Prefix for compaction-job journal records: `j/jobs/{ulid}`.
pub const JOBS_PREFIX: &'static str = "j/jobs/";

pub const SEQ_KEY: &'static str = "g/seq";

/// `{class}/{stream}/`.
fn prefix_of(class: u8, stream: &[u8]) -> (r: Vec<u8>)
    ensures
        r@ == seq![class, SLASH] + stream@ + seq![SLASH],
{
    let mut r: Vec<u8> = Vec::new();
    r.push(class);
    r.push(SLASH);
    r.extend_from_slice(stream);
    r.push(SLASH);
    assert(r@ =~= seq![class, SLASH] + stream@ + seq![SLASH]);
    r
}

pub fn r_prefix(stream: &str) -> (r: Vec<u8>)
    ensures
        r@ == r_prefix_of(utf8(stream@)),
{
    prefix_of(0x72, stream.as_bytes())
}

pub fn r_key(stream: &str, version: Version) -> (r: Vec<u8>)
    ensures
        r@ == r_key_of(utf8(stream@), version as nat),
{
    let mut r = r_prefix(stream);
    push_dec16(&mut r, version);
    r
}

pub fn m_key(stream: &str, field: &str) -> (r: Vec<u8>)
    ensures
        r@ == m_key_of(utf8(stream@), utf8(field@)),
{
    m_key_bytes(stream.as_bytes(), field)
}

/// [`m_key`] of a stream known by its bytes.
pub fn m_key_bytes(stream: &[u8], field: &str) -> (r: Vec<u8>)
    ensures
        r@ == m_key_of(stream@, utf8(field@)),
{
    let mut r = prefix_of(0x6d, stream);
    r.extend_from_slice(field.as_bytes());
    assert(r@ =~= m_key_of(stream@, utf8(field@)));
    r
}

/// `i/{stream}/`.
pub fn i_prefix(stream: &str) -> (r: Vec<u8>)
    ensures
        r@ == i_prefix_of(utf8(stream@)),
{
    prefix_of(0x69, stream.as_bytes())
}

pub fn ts_key(stream: &str, ts_ms: i64, version: Version) -> (r: Vec<u8>)
    ensures
        r@ == ts_key_of(utf8(stream@), ts_ms as int, version as nat),
{
    let mut r = i_prefix(stream);
    push_dec16_signed(&mut r, ts_ms);
    r.push(SLASH);
    push_dec16(&mut r, version);
    assert(r@ =~= ts_key_of(utf8(stream@), ts_ms as int, version as nat));
    r
}

pub fn snap_prefix(stream: &str) -> (r: Vec<u8>)
    ensures
        r@ == snap_prefix_of(utf8(stream@)),
{
    let mut r = copy_of("snap/".as_bytes());
    r.extend_from_slice(stream.as_bytes());
    r.push(SLASH);
    assert(r@ =~= snap_prefix_of(utf8(stream@)));
    r
}

/// The field `rollback/{from:016}`.
pub open spec fn rollback_field(from: nat) -> Seq<u8> {
    utf8("rollback/"@) + dec16(from)
}

/// `m/{stream}/rollback/{from:016}`.
pub fn rollback_key(stream: &str, from: Version) -> (r: Vec<u8>)
    ensures
        r@ == m_key_of(utf8(stream@), rollback_field(from as nat)),
{
    let mut r = m_key(stream, "rollback/");
    push_dec16(&mut r, from);
    assert(r@ =~= m_key_of(utf8(stream@), rollback_field(from as nat)));
    r
}

/// The field `forks/{child}`.
pub open spec fn forks_field(child: Seq<u8>) -> Seq<u8> {
    utf8("forks/"@) + child
}

/// `m/{stream}/forks/{child}`.
pub fn pin_key(stream: &str, child: &str) -> (r: Vec<u8>)
    ensures
        r@ == m_key_of(utf8(stream@), forks_field(utf8(child@))),
{
    let mut r = m_key(stream, "forks/");
    r.extend_from_slice(child.as_bytes());
    assert(r@ =~= m_key_of(utf8(stream@), forks_field(utf8(child@))));
    r
}

/// What follows the last slash of a key.
pub open spec fn last_part(key: Seq<u8>) -> Seq<u8>
    decreases key.len(),
{
    if key.len() == 0 || key.last() == SLASH {
        Seq::empty()
    } else {
        last_part(key.drop_last()).push(key.last())
    }
}

/// What follows a slash, up to the end without another one, is the last part.
pub proof fn last_part_from(key: Seq<u8>, i: int)
    requires
        0 <= i <= key.len(),
        i > 0 ==> key[i - 1] == SLASH,
        forall|j: int| i <= j < key.len() ==> key[j] != SLASH,
    ensures
        last_part(key) == key.skip(i),
    decreases key.len(),
{
    if i < key.len() {
        last_part_from(key.drop_last(), i);
        assert(key.skip(i) =~= key.drop_last().skip(i).push(key.last()));
    } else {
        assert(key.skip(i) =~= Seq::<u8>::empty());
    }
}

/// The trailing `{version:016}` component of a key.
pub open spec fn suffix_of(key: Seq<u8>) -> Option<nat> {
    numeral(last_part(key))
}

/// Where the last part of a key starts.
pub fn last_part_at(key: &[u8]) -> (i: usize)
    ensures
        i <= key.len(),
        i > 0 ==> key@[i - 1] == SLASH,
        forall|j: int| i <= j < key.len() ==> key@[j] != SLASH,
        key@.skip(i as int) == last_part(key@),
{
    let mut i: usize = key.len();
    while i > 0
        invariant
            i <= key.len(),
            forall|j: int| i <= j < key.len() ==> key@[j] != SLASH,
        ensures
            i > 0 ==> key@[i - 1] == SLASH,
        decreases i,
    {
        if key[i - 1] == SLASH {
            break;
        }
        i -= 1;
    }
    proof {
        last_part_from(key@, i as int);
    }
    i
}

/// Parses the trailing `{version:016}` component of a record or index key.
pub fn version_suffix(key: &[u8]) -> (r: Result<Version, Error>)
    ensures
        match r {
            Ok(v) => suffix_of(key@) == Some(v as nat),
            Err(e) => suffix_of(key@) is None && says(e, "bad versioned key"@),
        },
{
    let i = last_part_at(key);
    let part = vstd::slice::slice_subrange(key, i, key.len());
    assert(part@ =~= key@.skip(i as int));
    match read_numeral(part) {
        Some(v) => Ok(v),
        None => Err(refuse("bad versioned key")),
    }
}

/// Where a stream ends: its last version and the time of its last event.
#[derive(Debug, Clone, Copy)]
pub struct TailRecord {
    pub version: Version,
    pub ts_ms: i64,
}

/// What a key of the store holds.
#[derive(Debug)]
pub enum Value {
    /// Raw bytes: counters, pins, tokens, markers.
    Bytes(Vec<u8>),
    Event(Envelope),
    Tail(TailRecord),
    Fork(ForkRef),
    Snapshot(SnapshotRecord),
    Compaction(CompactionRecord),
    Job(JobEvent),
}

pub enum ValueView {
    Bytes(Seq<u8>),
    Event(EnvelopeView),
    Tail(TailRecord),
    Fork(ForkView),
    Snapshot(SnapshotView),
    Compaction(CompactionView),
    Job(JobEventView),
}

impl View for Value {
    type V = ValueView;

    open spec fn view(&self) -> ValueView {
        match self {
            Value::Bytes(b) => ValueView::Bytes(b@),
            Value::Event(e) => ValueView::Event(e@),
            Value::Tail(t) => ValueView::Tail(*t),
            Value::Fork(f) => ValueView::Fork(f@),
            Value::Snapshot(s) => ValueView::Snapshot(s@),
            Value::Compaction(c) => ValueView::Compaction(c@),
            Value::Job(j) => ValueView::Job(j@),
        }
    }
}

impl Dup for Value {
    fn dup(&self) -> (r: Self) {
        match self {
            Value::Bytes(b) => Value::Bytes(b.dup()),
            Value::Event(e) => Value::Event(e.dup()),
            Value::Tail(t) => Value::Tail(*t),
            Value::Fork(f) => Value::Fork(f.dup()),
            Value::Snapshot(s) => Value::Snapshot(s.dup()),
            Value::Compaction(c) => Value::Compaction(c.dup()),
            Value::Job(j) => Value::Job(j.dup()),
        }
    }
}

/// The contents of the store.
pub type Db = Map<Seq<u8>, ValueView>;

/// Records of the store, by key.
pub type Records = Table<Vec<u8>, Value>;

/// The number in a cell; a record of another kind reads as 0.
pub open spec fn number(v: ValueView) -> nat {
    match v {
        ValueView::Bytes(b) => cell_value(b),
        _ => 0,
    }
}

pub open spec fn get_number(db: Db, key: Seq<u8>) -> Option<nat> {
    if db.contains_key(key) {
        Some(number(db[key]))
    } else {
        None
    }
}

fn number_in(v: &Value) -> (n: u64)
    ensures
        n == number(v@),
{
    match v {
        Value::Bytes(b) => cell(b.as_slice()),
        _ => 0,
    }
}

pub fn get_be(db: &Records, key: &[u8]) -> (r: Option<u64>)
    ensures
        match r {
            Some(n) => get_number(db@, key@) == Some(n as nat),
            None => get_number(db@, key@) is None,
        },
{
    match db.get(key) {
        Some(v) => Some(number_in(v)),
        None => None,
    }
}

/// The number at `key`, or 0.
pub open spec fn number_at(db: Db, key: Seq<u8>) -> nat {
    match get_number(db, key) {
        Some(n) => n,
        None => 0,
    }
}

pub fn get_be_or_zero(db: &Records, key: &[u8]) -> (n: u64)
    ensures
        n == number_at(db@, key@),
{
    match get_be(db, key) {
        Some(n) => n,
        None => 0,
    }
}

/// A record of a kind that its key does not promise.
fn wrong_kind() -> (e: Error)
    ensures
        e is Encoding,
        e->Encoding_0@ == "unexpected kind of record"@,
{
    Error::Encoding("unexpected kind of record".to_owned())
}

pub open spec fn tail_key(stream: Seq<u8>) -> Seq<u8> {
    m_key_of(stream, utf8("tail"@))
}

/// The stream's tail; meaningful where [`has_good_tail`] holds.
pub open spec fn tail_of(db: Db, stream: Seq<u8>) -> Option<TailRecord> {
    if db.contains_key(tail_key(stream)) {
        Some(db[tail_key(stream)]->Tail_0)
    } else {
        None
    }
}

/// Whether the tail key, where it is set, holds a tail.
pub open spec fn has_good_tail(db: Db, stream: Seq<u8>) -> bool {
    db.contains_key(tail_key(stream)) ==> db[tail_key(stream)] is Tail
}

pub fn tail(db: &Records, stream: &str) -> (r: Result<Option<TailRecord>, Error>)
    ensures
        match r {
            Ok(t) => has_good_tail(db@, utf8(stream@)) && t == tail_of(db@, utf8(stream@)),
            Err(e) => !has_good_tail(db@, utf8(stream@)) && e is Encoding,
        },
{
    let key = m_key(stream, "tail");
    match db.get(key.as_slice()) {
        Some(Value::Tail(t)) => Ok(Some(*t)),
        Some(_) => Err(wrong_kind()),
        None => Ok(None),
    }
}

pub open spec fn fork_key(stream: Seq<u8>) -> Seq<u8> {
    m_key_of(stream, utf8("fork"@))
}

/// The stream's branch point; meaningful where [`has_good_fork`] holds.
pub open spec fn fork_of(db: Db, stream: Seq<u8>) -> Option<ForkView> {
    if db.contains_key(fork_key(stream)) {
        Some(db[fork_key(stream)]->Fork_0)
    } else {
        None
    }
}

pub open spec fn has_good_fork(db: Db, stream: Seq<u8>) -> bool {
    db.contains_key(fork_key(stream)) ==> db[fork_key(stream)] is Fork
}

pub fn fork_ref(db: &Records, stream: &str) -> (r: Result<Option<ForkRef>, Error>)
    ensures
        match r {
            Ok(Some(f)) => has_good_fork(db@, utf8(stream@)) && fork_of(db@, utf8(stream@))
                == Some(f@),
            Ok(None) => has_good_fork(db@, utf8(stream@)) && fork_of(db@, utf8(stream@)) is None,
            Err(e) => !has_good_fork(db@, utf8(stream@)) && e is Encoding,
        },
{
    let key = m_key(stream, "fork");
    match db.get(key.as_slice()) {
        Some(Value::Fork(f)) => Ok(Some(f.dup())),
        Some(_) => Err(wrong_kind()),
        None => Ok(None),
    }
}

// ---- stream guards --------------------------------------------------------

pub open spec fn trim_key(stream: Seq<u8>) -> Seq<u8> {
    m_key_of(stream, utf8("trim"@))
}

/// The trim floor: versions below it are hidden.
pub open spec fn floor_of(db: Db, stream: Seq<u8>) -> nat {
    number_at(db, trim_key(stream))
}

pub open spec fn deleted_key(stream: Seq<u8>) -> Seq<u8> {
    m_key_of(stream, utf8("deleted"@))
}

pub open spec fn is_deleted(db: Db, stream: Seq<u8>) -> bool {
    db.contains_key(deleted_key(stream))
}

pub open spec fn forks_prefix(stream: Seq<u8>) -> Seq<u8> {
    m_key_of(stream, utf8("forks/"@))
}

/// Whether `child` was forked from `stream`.
pub open spec fn forked_from(db: Db, child: Seq<u8>, stream: Seq<u8>) -> bool {
    &&& db.contains_key(fork_key(child))
    &&& db[fork_key(child)] is Fork
    &&& utf8(db[fork_key(child)]->Fork_0.stream) == stream
}

/// The fork that the registry of `stream` names at `k`.
pub open spec fn pinning(stream: Seq<u8>, k: Seq<u8>) -> Seq<u8> {
    after(k, forks_prefix(stream).len() as int)
}

/// `k` is a pin on `stream`, held by a fork of it that has not been deleted.
/// (Where another stream is named in the registry, its metadata stands there
/// too: that is no pin.)
pub open spec fn live_pin(db: Db, stream: Seq<u8>, k: Seq<u8>) -> bool {
    &&& db.contains_key(k)
    &&& has_prefix(k, forks_prefix(stream))
    &&& forked_from(db, pinning(stream, k), stream)
    &&& !is_deleted(db, pinning(stream, k))
}

/// Whether a live fork inherits `version` of `stream`.
pub open spec fn pinned(db: Db, stream: Seq<u8>, version: nat) -> bool {
    exists|k: Seq<u8>| #[trigger] live_pin(db, stream, k) && version <= number(db[k])
}

/// `c` is the highest live pin on `stream`.
pub open spec fn is_ceiling(db: Db, stream: Seq<u8>, c: Option<Version>) -> bool {
    match c {
        Some(c) => {
            &&& exists|k: Seq<u8>| #[trigger] live_pin(db, stream, k) && number(db[k]) == c
            &&& forall|k: Seq<u8>| #[trigger] live_pin(db, stream, k) ==> number(db[k]) <= c
        },
        None => forall|k: Seq<u8>| !(#[trigger] live_pin(db, stream, k)),
    }
}

fn is_fork_of(db: &Records, child: &[u8], stream: &str) -> (r: bool)
    ensures
        r == forked_from(db@, child@, utf8(stream@)),
{
    let key = m_key_bytes(child, "fork");
    match db.get(key.as_slice()) {
        Some(Value::Fork(f)) => same(f.stream.as_str().as_bytes(), stream.as_bytes()),
        _ => false,
    }
}

/// Highest fork pin held by a non-deleted child (ancestors stay readable).
pub fn ceiling(db: &Records, stream: &str) -> (r: Option<Version>)
    ensures
        is_ceiling(db@, utf8(stream@), r),
        forall|v: nat| #[trigger] pinned(db@, utf8(stream@), v) == (r is Some && v <= r->0),
{
    let ghost s = utf8(stream@);
    let prefix = m_key(stream, "forks/");
    let none: Vec<u8> = Vec::new();
    let (a, b) = db.range(prefix.as_slice(), none.as_slice(), None);
    let ghost l = db.entries().subrange(a as int, b as int);
    assert(none@ =~= Seq::<u8>::empty());
    let mut best: Option<Version> = None;
    let mut i: usize = a;
    while i < b
        invariant
            a <= i <= b <= db.entries().len(),
            l == db.entries().subrange(a as int, b as int),
            is_listing(db@, under(prefix@), l),
            prefix@ == forks_prefix(s),
            s == utf8(stream@),
            best is Some ==> exists|k: Seq<u8>| #[trigger]
                live_pin(db@, s, k) && number(db@[k]) == best->0,
            forall|j: int|
                0 <= j < i - a && live_pin(db@, s, (#[trigger] l[j]).0) ==> best is Some && number(
                    l[j].1,
                ) <= best->0,
        decreases b - i,
    {
        let key = db.key_at(i).as_slice();
        let ghost row = l[i - a];
        proof {
            assert(row == db.entries()[i as int]);
            assert(db@.contains_key(row.0) && under(prefix@)(row.0));
            lemma_under(prefix@, row.0);
        }
        let child = vstd::slice::slice_subrange(key, prefix.len(), key.len());
        let gone = m_key_bytes(child, "deleted");
        if is_fork_of(db, child, stream) && !db.contains(gone.as_slice()) {
            let at = number_in(db.value_at(i));
            assert(live_pin(db@, s, row.0) && number(db@[row.0]) == at);
            best = match best {
                Some(c) => if c < at {
                    Some(at)
                } else {
                    Some(c)
                },
                None => Some(at),
            };
        }
        i += 1;
    }
    proof {
        assert forall|k: Seq<u8>| #[trigger] live_pin(db@, s, k) implies best is Some && number(
            db@[k],
        ) <= best->0 by {
            lemma_under(prefix@, k);
            assert(db@.contains_key(k) && under(prefix@)(k));
            let j = choose|j: int| 0 <= j < l.len() && #[trigger] l[j].0 == k;
            assert(live_pin(db@, s, l[j].0));
        }
        assert forall|v: nat| #[trigger] pinned(db@, s, v) == (best is Some && v <= best->0) by {
            if best is Some && v <= best->0 {
                let k = choose|k: Seq<u8>| #[trigger]
                    live_pin(db@, s, k) && number(db@[k]) == best->0;
                assert(live_pin(db@, s, k) && v <= number(db@[k]));
            }
        }
    }
    best
}

pub open spec fn rollback_prefix(stream: Seq<u8>) -> Seq<u8> {
    m_key_of(stream, utf8("rollback/"@))
}

/// `k` is a rollback window of `stream`: its prefix followed by the digits of
/// the version where the window starts.
pub open spec fn is_rollback(db: Db, stream: Seq<u8>, k: Seq<u8>) -> bool {
    &&& db.contains_key(k)
    &&& number_of(rollback_prefix(stream), k) is Some
}

/// The version at which the rollback window at `k` starts.
pub open spec fn rolled_from(stream: Seq<u8>, k: Seq<u8>) -> nat {
    number_of(rollback_prefix(stream), k)->0
}

/// Whether a rollback window hides an event: it starts at or below the
/// event's version, and its watermark lies below the event's sequence.
pub open spec fn rolled_back(db: Db, stream: Seq<u8>, version: nat, seq: nat) -> bool {
    exists|k: Seq<u8>| #[trigger]
        is_rollback(db, stream, k) && version >= rolled_from(stream, k) && seq > number(db[k])
}

/// Windows as pairs: hide `v >= .0` with sequence `> .1`.
pub open spec fn hides(windows: Seq<(Version, u64)>, version: nat, seq: nat) -> bool {
    exists|i: int|
        0 <= i < windows.len() && version >= (#[trigger] windows[i]).0 && seq > windows[i].1
}

/// (from_version, txn) windows: hide v >= from_version with sequence > txn.
pub fn rollbacks(db: &Records, stream: &str) -> (w: Vec<(Version, u64)>)
    ensures
        forall|v: nat, q: nat| #[trigger]
            hides(w@, v, q) == rolled_back(db@, utf8(stream@), v, q),
{
    let ghost s = utf8(stream@);
    let prefix = m_key(stream, "rollback/");
    let none: Vec<u8> = Vec::new();
    let (a, b) = db.range(prefix.as_slice(), none.as_slice(), None);
    let ghost l = db.entries().subrange(a as int, b as int);
    assert(none@ =~= Seq::<u8>::empty());
    let mut w: Vec<(Version, u64)> = Vec::new();
    let mut i: usize = a;
    while i < b
        invariant
            a <= i <= b <= db.entries().len(),
            l == db.entries().subrange(a as int, b as int),
            is_listing(db@, under(prefix@), l),
            prefix@ == rollback_prefix(s),
            s == utf8(stream@),
            forall|n: int| 0 <= n < w.len() ==> is_among(db@, s, l, i - a, #[trigger] w@[n]),
            forall|j: int|
                0 <= j < i - a && is_rollback(db@, s, (#[trigger] l[j]).0) ==> exists|n: int|
                    0 <= n < w.len() && is_window(db@, s, l[j].0, #[trigger] w@[n]),
        decreases b - i,
    {
        let key = db.key_at(i).as_slice();
        let ghost row = l[i - a];
        let ghost before = w@;
        proof {
            assert(row == db.entries()[i as int]);
            assert(db@.contains_key(row.0) && under(prefix@)(row.0));
            lemma_under(prefix@, row.0);
        }
        if let Some(from) = key_number(prefix.as_slice(), key) {
            w.push((from, number_in(db.value_at(i))));
            assert(is_window(db@, s, row.0, w@[before.len() as int]));
        }
        proof {
            assert forall|n: int| 0 <= n < w.len() implies is_among(
                db@,
                s,
                l,
                i + 1 - a,
                #[trigger] w@[n],
            ) by {
                if n < before.len() {
                    assert(is_among(db@, s, l, i - a, before[n]));
                    let j = choose|j: int|
                        0 <= j < i - a && #[trigger] is_window(db@, s, l[j].0, before[n]);
                    assert(is_window(db@, s, l[j].0, w@[n]));
                } else {
                    assert(is_window(db@, s, l[i - a].0, w@[n]));
                }
            }
            assert forall|j: int|
                0 <= j < i + 1 - a && is_rollback(db@, s, (#[trigger] l[j]).0) implies exists|
                n: int,
            |
                0 <= n < w.len() && is_window(db@, s, l[j].0, #[trigger] w@[n]) by {
                if j < i - a {
                    let n = choose|n: int|
                        0 <= n < before.len() && is_window(db@, s, l[j].0, #[trigger] before[n]);
                    assert(w@[n] == before[n]);
                } else {
                    assert(is_window(db@, s, l[j].0, w@[before.len() as int]));
                }
            }
        }
        i += 1;
    }
    proof {
        assert forall|v: nat, q: nat| #[trigger] hides(w@, v, q) == rolled_back(db@, s, v, q) by {
            if hides(w@, v, q) {
                let n = choose|n: int|
                    0 <= n < w@.len() && v >= (#[trigger] w@[n]).0 && q > w@[n].1;
                assert(is_among(db@, s, l, b - a, w@[n]));
                let j = choose|j: int|
                    0 <= j < b - a && #[trigger] is_window(db@, s, l[j].0, w@[n]);
                let k = l[j].0;
                assert(is_rollback(db@, s, k) && v >= rolled_from(s, k) && q > number(db@[k]));
            }
            if rolled_back(db@, s, v, q) {
                let k = choose|k: Seq<u8>| #[trigger]
                    is_rollback(db@, s, k) && v >= rolled_from(s, k) && q > number(db@[k]);
                lemma_under(prefix@, k);
                assert(db@.contains_key(k) && under(prefix@)(k));
                let j = choose|j: int| 0 <= j < l.len() && #[trigger] l[j].0 == k;
                assert(is_rollback(db@, s, l[j].0));
                let n = choose|n: int|
                    0 <= n < w.len() && is_window(db@, s, l[j].0, #[trigger] w@[n]);
                assert(v >= w@[n].0 && q > w@[n].1);
            }
        }
    }
    w
}

/// `w` is the window that one of the first `n` keys holds.
spec fn is_among(
    db: Db,
    stream: Seq<u8>,
    l: Seq<(Seq<u8>, ValueView)>,
    n: int,
    w: (Version, u64),
) -> bool {
    exists|j: int| 0 <= j < n && #[trigger] is_window(db, stream, l[j].0, w)
}

/// `w` is the window that the key `k` holds.
pub open spec fn is_window(db: Db, stream: Seq<u8>, k: Seq<u8>, w: (Version, u64)) -> bool {
    &&& is_rollback(db, stream, k)
    &&& rolled_from(stream, k) == w.0
    &&& number(db[k]) == w.1
}

// ---- reading events -------------------------------------------------------

pub open spec fn max(a: nat, b: nat) -> nat {
    if a < b {
        b
    } else {
        a
    }
}

/// Whether a read of `[lo, hi)` shows the event: in range, not trimmed, not
/// rolled back, and on a deleted stream pinned by a live fork.
pub open spec fn visible(
    db: Db,
    stream: Seq<u8>,
    lo: nat,
    hi: Option<nat>,
    e: EnvelopeView,
) -> bool {
    &&& max(lo, floor_of(db, stream)) <= e.version
    &&& hi is Some ==> e.version < hi->0
    &&& is_deleted(db, stream) ==> pinned(db, stream, e.version as nat)
    &&& !rolled_back(db, stream, e.version as nat, e.seq as nat)
}

/// The stored records that a read of `[lo, hi)` scans, in version order.
pub open spec fn scanned(db: Db, stream: Seq<u8>, lo: nat, hi: Option<nat>) -> Seq<
    (Seq<u8>, ValueView),
> {
    numbered(db, r_prefix_of(stream), max(lo, floor_of(db, stream)), hi)
}

/// The keys that a read of `[lo, hi)` scans: those of the stream's own records,
/// which end in the digits of a version.
pub open spec fn scan_range(db: Db, stream: Seq<u8>, lo: nat, hi: Option<nat>) -> spec_fn(
    Seq<u8>,
) -> bool {
    numbers(r_prefix_of(stream), max(lo, floor_of(db, stream)), hi)
}

pub open spec fn all_events(rows: Seq<(Seq<u8>, ValueView)>) -> bool {
    forall|i: int| 0 <= i < rows.len() ==> (#[trigger] rows[i]).1 is Event
}

/// The visible ones of the scanned events, in order.
pub open spec fn selected(
    db: Db,
    stream: Seq<u8>,
    lo: nat,
    hi: Option<nat>,
    rows: Seq<(Seq<u8>, ValueView)>,
) -> Seq<EnvelopeView>
    decreases rows.len(),
{
    if rows.len() == 0 {
        Seq::empty()
    } else {
        let rest = selected(db, stream, lo, hi, rows.drop_last());
        let e = rows.last().1->Event_0;
        if visible(db, stream, lo, hi, e) {
            rest.push(e)
        } else {
            rest
        }
    }
}

/// Whether nothing is left of `[lo, hi)` above the trim floor.
pub open spec fn empty_range(db: Db, stream: Seq<u8>, lo: nat, hi: Option<nat>) -> bool {
    hi is Some && max(lo, floor_of(db, stream)) >= hi->0
}

/// The events that a read of `[lo, hi)` gives.
pub open spec fn events_of(db: Db, stream: Seq<u8>, lo: nat, hi: Option<nat>) -> Seq<
    EnvelopeView,
> {
    if empty_range(db, stream, lo, hi) {
        Seq::empty()
    } else {
        selected(db, stream, lo, hi, scanned(db, stream, lo, hi))
    }
}

/// Whether a read of `[lo, hi)` meets only records of the kinds that their
/// keys promise.
pub open spec fn readable(db: Db, stream: Seq<u8>, lo: nat, hi: Option<nat>) -> bool {
    empty_range(db, stream, lo, hi) || all_events(scanned(db, stream, lo, hi))
}

/// Why a read fails.
pub enum Fault {
    /// A fork chain comes back to a stream.
    Cycle { stream: Seq<u8> },
    /// A record is not of the kind that its key promises.
    BadRecord,
}

/// The error for each fault.
pub open spec fn is_fault(e: Error, f: Fault) -> bool {
    match f {
        Fault::Cycle { stream } => e is InvalidInput && utf8(e->InvalidInput_0@) == utf8(
            "fork cycle at '"@,
        ) + stream + utf8("'"@),
        Fault::BadRecord => e is Encoding,
    }
}

/// What a read of `[lo, hi)` comes to.
pub open spec fn read_outcome(db: Db, stream: Seq<u8>, lo: nat, hi: Option<nat>) -> Result<
    Seq<EnvelopeView>,
    Fault,
> {
    if readable(db, stream, lo, hi) {
        Ok(events_of(db, stream, lo, hi))
    } else {
        Err(Fault::BadRecord)
    }
}

/// Whether a result says what a read came to.
pub open spec fn answers(
    r: Result<Vec<Event>, Error>,
    outcome: Result<Seq<EnvelopeView>, Fault>,
) -> bool {
    match (r, outcome) {
        (Ok(events), Ok(s)) => views(events@) == s,
        (Err(e), Err(f)) => is_fault(e, f),
        _ => false,
    }
}

fn hidden(windows: &Vec<(Version, u64)>, version: u64, seq: u64) -> (r: bool)
    ensures
        r == hides(windows@, version as nat, seq as nat),
{
    let mut i: usize = 0;
    while i < windows.len()
        invariant
            i <= windows.len(),
            forall|j: int|
                0 <= j < i ==> !(version >= (#[trigger] windows@[j]).0 && seq > windows@[j].1),
        decreases windows.len() - i,
    {
        if version >= windows[i].0 && seq > windows[i].1 {
            assert(version >= windows@[i as int].0 && seq > windows@[i as int].1);
            return true;
        }
        i += 1;
    }
    false
}

/// Stream records in `[lo, hi)`, with stream guards applied: trim floor,
/// deletion ceiling (pinned by live forks), rollback windows.
///
/// The version range is pushed down to the scan: events outside
/// `[max(lo, floor), hi)` are not touched.
pub fn read_events(db: &Records, stream: &str, lo: Version, hi: Option<Version>) -> (r: Result<
    Vec<Event>,
    Error,
>)
    ensures
        answers(r, read_outcome(db@, utf8(stream@), lo as nat, opt_nat(hi))),
{
    let ghost s = utf8(stream@);
    let ghost l0 = lo as nat;
    let ghost h0 = opt_nat(hi);
    let floor = get_be_or_zero(db, m_key(stream, "trim").as_slice());
    let deleted = db.contains(m_key(stream, "deleted").as_slice());
    let ceiling = if deleted {
        ceiling(db, stream)
    } else {
        None
    };
    let windows = rollbacks(db, stream);
    let low: u64 = if lo < floor {
        floor
    } else {
        lo
    };
    let mut out: Vec<Event> = Vec::new();
    if let Some(h) = hi {
        if low >= h {
            assert(views(out@) =~= Seq::empty());
            return Ok(out);
        }
    }
    let prefix = r_prefix(stream);
    let at = find_numbered(db, prefix.as_slice(), low, hi);
    let ghost rows = scanned(db@, s, l0, h0);
    let mut i: usize = 0;
    assert(rows.take(0) =~= Seq::empty());
    assert(views(out@) =~= Seq::empty());
    while i < at.len()
        invariant
            i <= at.len(),
            rows == scanned(db@, s, l0, h0),
            at.len() == rows.len(),
            forall|j: int|
                0 <= j < at.len() ==> (#[trigger] at@[j]) < db.entries().len()
                    && db.entries()[at@[j] as int] == rows[j],
            s == utf8(stream@),
            l0 == lo as nat,
            h0 == opt_nat(hi),
            low == max(l0, floor_of(db@, s)),
            deleted == is_deleted(db@, s),
            deleted ==> forall|v: nat| #[trigger]
                pinned(db@, s, v) == (ceiling is Some && v <= ceiling->0),
            !empty_range(db@, s, l0, h0),
            forall|v: nat, q: nat| #[trigger] hides(windows@, v, q) == rolled_back(db@, s, v, q),
            all_events(rows.take(i as int)),
            views(out@) == selected(db@, s, l0, h0, rows.take(i as int)),
        decreases at.len() - i,
    {
        let ghost t = rows.take(i + 1);
        let ghost before = views(out@);
        proof {
            assert(t.drop_last() =~= rows.take(i as int));
            assert(t.last() == db.entries()[at@[i as int] as int]);
        }
        match db.value_at(at[i]) {
            Value::Event(env) => {
                assert(all_events(t)) by {
                    assert forall|j: int| 0 <= j < t.len() implies (#[trigger] t[j]).1 is Event by {
                        if j < i {
                            assert(t[j] == rows.take(i as int)[j]);
                        }
                    }
                }
                let in_bounds = env.version >= low && match hi {
                    Some(h) => env.version < h,
                    None => true,
                };
                let alive = !deleted || match ceiling {
                    Some(c) => env.version <= c,
                    None => false,
                };
                assert(deleted ==> pinned(db@, s, env.version as nat) == alive);
                if in_bounds && alive && !hidden(&windows, env.version, env.seq) {
                    out.push(Event::from_parts(env.dup()));
                    assert(views(out@) =~= before.push(env@));
                }
            },
            _ => {
                assert(!(rows[i as int].1 is Event));
                return Err(wrong_kind());
            },
        }
        i += 1;
    }
    assert(rows.take(i as int) =~= rows);
    Ok(out)
}

} // verus!

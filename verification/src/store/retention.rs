//! Forks, trims, purges and deletions.
use vstd::prelude::*;
use vstd::string::*;

use crate::digits::be_bytes;
use crate::envelope::{ExpectedVersion, Version};
use crate::error::{number_text, push_number, refuse, says, Error};
use crate::fork::{ForkRef, ForkView};
use crate::kv::{
    ceiling, deleted_key, floor_of, fork_key, forks_field, get_be_or_zero, has_good_tail,
    is_ceiling, is_deleted, m_key, m_key_of, pin_key, r_prefix, r_prefix_of, rollback_field,
    rollback_key, tail, tail_key, tail_of, trim_key, Db, TailRecord, Value, ValueView,
};
use crate::numbered::{
    find_numbered, key_number, number_key, number_of, numbered, numbered_exists, numbers, precedes,
};
use crate::order::{after, copy_of, ends_with, has_suffix};
use crate::store::{
    current_version, number_cell, tail_commit_info, tail_info, CommitInfo, EventStore,
};
use crate::table::{is_listing, lemma_under, listing, under, Dup, Key};
use crate::text::{after_slash, before_slash, utf8, SLASH};

verus! {

/// The child's branch point and tail, and the pin on the parent.
pub open spec fn forked(db: Db, parent: Seq<char>, at: Version, child: Seq<u8>) -> Db {
    db.insert(
        fork_key(child),
        ValueView::Fork(ForkView { stream: parent, at_version: at }),
    ).insert(
        tail_key(child),
        ValueView::Tail(
            TailRecord { version: at, ts_ms: tail_of(db, utf8(parent))->0.ts_ms },
        ),
    ).insert(m_key_of(utf8(parent), forks_field(child)), number_cell(at as nat))
}

/// What a fork does and returns. `parent` must have `at`, and `child` must
/// not exist.
pub open spec fn fork_outcome(
    before: Db,
    after: Db,
    parent: Seq<char>,
    at: Version,
    child: Seq<char>,
    r: Result<(), Error>,
) -> bool {
    let p = utf8(parent);
    let c = utf8(child);
    if !has_good_tail(before, p) {
        r is Err && r->Err_0 is Encoding && after == before
    } else if tail_of(before, p) is None {
        r is Err && says(r->Err_0, "parent '"@ + parent + "' does not exist"@) && after == before
    } else if tail_of(before, p)->0.version < at {
        r is Err && says(
            r->Err_0,
            "parent '"@ + parent + "' is at v"@ + number_text(
                tail_of(before, p)->0.version as nat,
            ) + ", cannot fork at v"@ + number_text(at as nat),
        ) && after == before
    } else if !has_good_tail(before, c) {
        r is Err && r->Err_0 is Encoding && after == before
    } else if tail_of(before, c) is Some {
        &&& after == before
        &&& match r {
            Err(Error::VersionConflict { stream, expected, actual }) => stream@ == child
                && expected == ExpectedVersion::NoStream && actual == current_version(before, c),
            _ => false,
        }
    } else {
        r is Ok && after == forked(before, parent, at, c)
    }
}

/// The floor that a trim sets: never past the history there is, so that
/// later appends stay visible, and never back.
pub open spec fn trim_floor(db: Db, stream: Seq<u8>, floor: nat) -> nat {
    let clamped = match tail_of(db, stream) {
        Some(t) => if floor < t.version + 1 {
            floor
        } else {
            (t.version + 1) as nat
        },
        None => floor,
    };
    crate::kv::max(clamped, floor_of(db, stream))
}

/// Records that one purge transaction deletes at most.
pub const PURGE_CHUNK: usize = 1024;

/// The keys of the stream's own records from `next` on, below `floor`.
pub open spec fn purge_range(stream: Seq<u8>, next: nat, floor: nat) -> spec_fn(Seq<u8>) -> bool {
    numbers(r_prefix_of(stream), next, Some(floor))
}

/// The records of `[next, floor)`, in version order.
pub open spec fn purgeable(db: Db, stream: Seq<u8>, next: nat, floor: nat) -> Seq<
    (Seq<u8>, ValueView),
> {
    numbered(db, r_prefix_of(stream), next, Some(floor))
}

/// The rows that one purge transaction takes.
pub open spec fn purge_batch(db: Db, stream: Seq<u8>, next: nat, floor: nat) -> Seq<
    (Seq<u8>, ValueView),
> {
    let rows = purgeable(db, stream, next, floor);
    if rows.len() <= PURGE_CHUNK {
        rows
    } else {
        rows.take(PURGE_CHUNK as int)
    }
}

/// `db` without the listed rows.
pub open spec fn without_rows(db: Db, rows: Seq<(Seq<u8>, ValueView)>) -> Db
    decreases rows.len(),
{
    if rows.len() == 0 {
        db
    } else {
        without_rows(db, rows.drop_last()).remove(rows.last().0)
    }
}

/// The version of a record.
pub open spec fn version_at(stream: Seq<u8>, k: Seq<u8>) -> nat {
    number_of(r_prefix_of(stream), k)->0
}

/// One purge transaction: what is left, how many records went, and where to
/// go on. `None` when nothing is left to purge.
pub open spec fn purge_outcome(
    before: Db,
    after: Db,
    stream: Seq<u8>,
    next: nat,
    floor: nat,
    r: Result<Option<(u64, Version)>, Error>,
) -> bool {
    let rows = purge_batch(before, stream, next, floor);
    if next >= floor || rows.len() == 0 {
        r == Ok::<Option<(u64, Version)>, Error>(None) && after == before
    } else {
        &&& r == Ok::<Option<(u64, Version)>, Error>(
            Some((rows.len() as u64, (version_at(stream, rows.last().0) + 1) as u64)),
        )
        &&& after == without_rows(before, rows)
    }
}

/// How a purge ends: the store, and the number of records deleted.
pub struct Purge {
    pub db: Db,
    pub purged: nat,
}

/// Purging `[next, floor)` chunk by chunk.
pub open spec fn purge_run(db: Db, stream: Seq<u8>, next: nat, floor: nat) -> Purge
    decreases db.dom().len(),
    when db.dom().finite()
    via purge_run_decreases
{
    let rows = purge_batch(db, stream, next, floor);
    if next >= floor || rows.len() == 0 {
        Purge { db, purged: 0 }
    } else {
        let rest = purge_run(
            without_rows(db, rows),
            stream,
            version_at(stream, rows.last().0) + 1,
            floor,
        );
        Purge { db: rest.db, purged: rest.purged + rows.len() }
    }
}

#[via_fn]
proof fn purge_run_decreases(db: Db, stream: Seq<u8>, next: nat, floor: nat) {
    purge_batch_rows(db, stream, next, floor);
    let rows = purge_batch(db, stream, next, floor);
    without_rows_len(db, rows);
}

/// A purge batch holds distinct keys of the store.
pub proof fn purge_batch_rows(db: Db, stream: Seq<u8>, next: nat, floor: nat)
    requires
        db.dom().finite(),
    ensures
        rows_of(db, purge_batch(db, stream, next, floor)),
        forall|i: int|
            0 <= i < purge_batch(db, stream, next, floor).len() ==> purge_range(
                stream,
                next,
                floor,
            )((#[trigger] purge_batch(db, stream, next, floor)[i]).0),
{
    let p = purge_range(stream, next, floor);
    numbered_exists(db, r_prefix_of(stream), next, Some(floor));
    let all = purgeable(db, stream, next, floor);
    let rows = purge_batch(db, stream, next, floor);
    assert forall|i: int| 0 <= i < rows.len() implies db.contains_key((#[trigger] rows[i]).0) && p(
        rows[i].0,
    ) by {
        assert(rows[i] == all[i]);
        assert(db.contains_key(all[i].0));
    }
    assert forall|i: int, j: int| 0 <= i < j < rows.len() implies rows[i].0 != rows[j].0 by {
        assert(precedes(r_prefix_of(stream), all[i].0, all[j].0));
    }
}

/// Rows of `db`, each once.
pub open spec fn rows_of(db: Db, rows: Seq<(Seq<u8>, ValueView)>) -> bool {
    &&& forall|i: int| 0 <= i < rows.len() ==> db.contains_key((#[trigger] rows[i]).0)
    &&& forall|i: int, j: int| 0 <= i < j < rows.len() ==> rows[i].0 != rows[j].0
}

/// Whether one of the rows has the key `k`.
pub open spec fn in_rows(rows: Seq<(Seq<u8>, ValueView)>, k: Seq<u8>) -> bool {
    exists|i: int| 0 <= i < rows.len() && #[trigger] rows[i].0 == k
}

pub proof fn without_rows_keys(db: Db, rows: Seq<(Seq<u8>, ValueView)>)
    ensures
        forall|k: Seq<u8>| #[trigger]
            without_rows(db, rows).contains_key(k) <==> db.contains_key(k) && !in_rows(rows, k),
        forall|k: Seq<u8>| #[trigger]
            without_rows(db, rows).contains_key(k) ==> without_rows(db, rows)[k] == db[k],
    decreases rows.len(),
{
    if rows.len() > 0 {
        let rest = rows.drop_last();
        let last = rows.last().0;
        without_rows_keys(db, rest);
        assert(without_rows(db, rows) == without_rows(db, rest).remove(last));
        assert forall|k: Seq<u8>| in_rows(rows, k) == (in_rows(rest, k) || k == last) by {
            if in_rows(rest, k) {
                let i = choose|i: int| 0 <= i < rest.len() && #[trigger] rest[i].0 == k;
                assert(rows[i].0 == k);
            }
            if in_rows(rows, k) {
                let i = choose|i: int| 0 <= i < rows.len() && #[trigger] rows[i].0 == k;
                if i < rest.len() {
                    assert(rest[i].0 == k);
                }
            }
            if k == last {
                assert(rows[rows.len() - 1].0 == k);
            }
        }
        assert forall|k: Seq<u8>| #[trigger]
            without_rows(db, rows).contains_key(k) <==> db.contains_key(k) && !in_rows(
                rows,
                k,
            ) by {
            assert(without_rows(db, rest).contains_key(k) <==> db.contains_key(k) && !in_rows(
                rest,
                k,
            ));
        }
        assert forall|k: Seq<u8>| #[trigger]
            without_rows(db, rows).contains_key(k) implies without_rows(db, rows)[k] == db[k] by {
            assert(without_rows(db, rest).contains_key(k));
        }
    }
}

/// Deleting rows that are there makes the store smaller by as many.
pub proof fn without_rows_len(db: Db, rows: Seq<(Seq<u8>, ValueView)>)
    requires
        db.dom().finite(),
        rows_of(db, rows),
    ensures
        without_rows(db, rows).dom().finite(),
        without_rows(db, rows).dom().len() + rows.len() == db.dom().len(),
    decreases rows.len(),
{
    if rows.len() > 0 {
        let rest = rows.drop_last();
        let k = rows.last().0;
        assert(rows_of(db, rest)) by {
            assert forall|i: int| 0 <= i < rest.len() implies db.contains_key(
                (#[trigger] rest[i]).0,
            ) by {
                assert(rest[i] == rows[i]);
            }
        }
        without_rows_len(db, rest);
        without_rows_keys(db, rest);
        assert(db.contains_key(rows[rows.len() - 1].0));
        if in_rows(rest, k) {
            let i = choose|i: int| 0 <= i < rest.len() && #[trigger] rest[i].0 == k;
            assert(rows[i].0 == k);
        }
        assert(without_rows(db, rest).contains_key(k));
    }
}

/// The lowest version that a purge may touch: one past the highest live pin.
pub open spec fn purge_start(c: Option<Version>) -> nat {
    match c {
        Some(c) => c as nat + 1,
        None => 0,
    }
}

impl EventStore {
    /// Forks `parent`: creates `child` sharing its history through
    /// `at_version` without copying any events. `child` must not exist and
    /// `parent` must already have `at_version`. Child appends continue at
    /// `at_version + 1`. One transaction: fork ref, child tail, parent pin.
    pub fn fork(&mut self, parent: &str, at_version: Version, child: &str) -> (r: Result<(), Error>)
        ensures
            fork_outcome(old(self)@, final(self)@, parent@, at_version, child@, r),
            final(self).base() == old(self).base(),
    {
        let parent_tail = match tail(self.db(), parent) {
            Ok(Some(t)) => t,
            Ok(None) => {
                let mut msg = "parent '".to_owned();
                msg.append(parent);
                msg.append("' does not exist");
                return Err(Error::InvalidInput(msg));
            },
            Err(e) => return Err(e),
        };
        if parent_tail.version < at_version {
            let mut msg = "parent '".to_owned();
            msg.append(parent);
            msg.append("' is at v");
            push_number(&mut msg, parent_tail.version);
            msg.append(", cannot fork at v");
            push_number(&mut msg, at_version);
            return Err(Error::InvalidInput(msg));
        }
        match tail(self.db(), child) {
            Ok(None) => {},
            Ok(Some(t)) => {
                return Err(
                    Error::VersionConflict {
                        stream: child.to_owned(),
                        expected: ExpectedVersion::NoStream,
                        actual: Some(t.version),
                    },
                );
            },
            Err(e) => return Err(e),
        }
        self.put(
            m_key(child, "fork"),
            Value::Fork(ForkRef { stream: parent.to_owned(), at_version }),
        );
        self.put(
            m_key(child, "tail"),
            Value::Tail(TailRecord { version: at_version, ts_ms: parent_tail.ts_ms }),
        );
        self.put(pin_key(parent, child), Value::Bytes(be_bytes(at_version)));
        Ok(())
    }

    /// Hides shadow appends with `version >= from_version` and global sequence
    /// greater than `txn`, allowing the live writer to reclaim the branch.
    /// Logical only.
    pub fn trim(&mut self, stream: &str, from_version: Version, txn: u64) -> (r: Result<
        CommitInfo,
        Error,
    >)
        ensures
            if has_good_tail(old(self)@, utf8(stream@)) {
                r == Ok::<CommitInfo, Error>(tail_info(tail_of(old(self)@, utf8(stream@))))
                    && final(self)@ == old(self)@.insert(
                    m_key_of(utf8(stream@), rollback_field(from_version as nat)),
                    number_cell(txn as nat),
                )
            } else {
                r is Err && r->Err_0 is Encoding && final(self)@ == old(self)@
            },
            final(self).base() == old(self).base(),
    {
        let t = match tail(self.db(), stream) {
            Ok(t) => t,
            Err(e) => return Err(e),
        };
        self.put(rollback_key(stream, from_version), Value::Bytes(be_bytes(txn)));
        Ok(tail_commit_info(t))
    }

    /// Trim point: hides all events with `version < floor`. Logical only: the
    /// stream and its future appends survive and continue numbering. Floors
    /// only move forward and can only cover the existing history.
    pub fn trim_below(&mut self, stream: &str, floor: Version) -> (r: Result<CommitInfo, Error>)
        ensures
            if has_good_tail(old(self)@, utf8(stream@)) {
                r == Ok::<CommitInfo, Error>(tail_info(tail_of(old(self)@, utf8(stream@))))
                    && final(self)@ == old(self)@.insert(
                    trim_key(utf8(stream@)),
                    number_cell(trim_floor(old(self)@, utf8(stream@), floor as nat)),
                )
            } else {
                r is Err && r->Err_0 is Encoding && final(self)@ == old(self)@
            },
            final(self).base() == old(self).base(),
    {
        let t = match tail(self.db(), stream) {
            Ok(t) => t,
            Err(e) => return Err(e),
        };
        let mut f: u64 = floor;
        if let Some(t) = t {
            if t.version < u64::MAX && f > t.version + 1 {
                f = t.version + 1;
            }
        }
        let old_floor = get_be_or_zero(self.db(), m_key(stream, "trim").as_slice());
        if f < old_floor {
            f = old_floor;
        }
        self.put(m_key(stream, "trim"), Value::Bytes(be_bytes(f)));
        Ok(tail_commit_info(t))
    }

    /// Deletes up to [`PURGE_CHUNK`] of the events in `[next, floor)`, as one
    /// transaction.
    pub fn purge_chunk(&mut self, stream: &str, next: Version, floor: Version) -> (r: Result<
        Option<(u64, Version)>,
        Error,
    >)
        ensures
            purge_outcome(
                old(self)@,
                final(self)@,
                utf8(stream@),
                next as nat,
                floor as nat,
                r,
            ),
            final(self).base() == old(self).base(),
    {
        let ghost s = utf8(stream@);
        let ghost db = self@;
        if next >= floor {
            return Ok(None);
        }
        let prefix = r_prefix(stream);
        let recs = self.db();
        let at = find_numbered(recs, prefix.as_slice(), next, Some(floor));
        let b: usize = if at.len() <= PURGE_CHUNK {
            at.len()
        } else {
            PURGE_CHUNK
        };
        let ghost rows = purge_batch(db, s, next as nat, floor as nat);
        let mut keys: Vec<Vec<u8>> = Vec::new();
        let mut i: usize = 0;
        let ghost all = purgeable(db, s, next as nat, floor as nat);
        assert(rows =~= all.take(b as int));
        while i < b
            invariant
                i <= b <= at.len(),
                at.len() == all.len(),
                forall|j: int|
                    0 <= j < at.len() ==> (#[trigger] at@[j]) < recs.entries().len()
                        && recs.entries()[at@[j] as int] == all[j],
                rows == all.take(b as int),
                keys.len() == i,
                forall|j: int| 0 <= j < keys.len() ==> (#[trigger] keys@[j])@ == rows[j].0,
            decreases b - i,
        {
            let k = recs.key_at(at[i]);
            assert(rows[i as int] == recs.entries()[at@[i as int] as int]);
            keys.push(copy_of(k.as_slice()));
            i += 1;
        }
        if keys.len() == 0 {
            return Ok(None);
        }
        proof {
            assert(rows.last() == all[b - 1]);
            assert(purge_range(s, next as nat, floor as nat)(all[b - 1].0));
        }
        let last: u64 = match key_number(prefix.as_slice(), keys[keys.len() - 1].as_slice()) {
            Some(v) => v,
            None => return Ok(None),
        };
        let n: usize = keys.len();
        let mut j: usize = 0;
        assert(rows.take(0) =~= Seq::empty());
        while j < n
            invariant
                j <= n,
                n == keys.len(),
                n == rows.len(),
                forall|x: int| 0 <= x < n ==> (#[trigger] keys@[x])@ == rows[x].0,
                self@ == without_rows(db, rows.take(j as int)),
                self.base() == old(self).base(),
            decreases n - j,
        {
            self.delete(copy_of(keys[j].as_slice()));
            proof {
                assert(rows.take(j + 1).drop_last() =~= rows.take(j as int));
            }
            j += 1;
        }
        assert(rows.take(n as int) =~= rows);
        Ok(Some((n as u64, last + 1)))
    }

    /// The lowest version of `stream` that a purge may touch: one past the
    /// highest live pin. `None` where every version is pinned.
    pub fn first_purgeable(&self, stream: &str) -> (r: Option<Version>)
        ensures
            exists|c: Option<Version>| #[trigger]
                is_ceiling(self@, utf8(stream@), c) && match r {
                    Some(next) => next == purge_start(c),
                    None => purge_start(c) > u64::MAX,
                },
    {
        let c = ceiling(self.db(), stream);
        assert(is_ceiling(self@, utf8(stream@), c));
        match c {
            Some(c) => if c == u64::MAX {
                None
            } else {
                Some(c + 1)
            },
            None => Some(0),
        }
    }

    /// Permanently deletes the events of `stream` with `version < floor` in
    /// bounded steps. Versions inherited by a live fork are never purged: the
    /// effective window is `(max live fork pin, floor)`. Returns the number of
    /// events deleted.
    pub fn purge_below(&mut self, stream: &str, floor: Version) -> (r: Result<u64, Error>)
        ensures
            exists|c: Option<Version>| #[trigger]
                is_ceiling(old(self)@, utf8(stream@), c) && ({
                    let p = purge_run(old(self)@, utf8(stream@), purge_start(c), floor as nat);
                    &&& final(self)@ == p.db
                    &&& r is Ok && r->Ok_0 == p.purged
                }),
            final(self).base() == old(self).base(),
    {
        let ghost s = utf8(stream@);
        let ghost db = self@;
        let first = self.first_purgeable(stream);
        let ghost c = choose|c: Option<Version>| #[trigger]
            is_ceiling(db, s, c) && match first {
                Some(next) => next == purge_start(c),
                None => purge_start(c) > u64::MAX,
            };
        let count = self.db().len();
        let mut next: u64 = match first {
            Some(next) => next,
            None => return Ok(0),
        };
        let ghost whole = purge_run(db, s, next as nat, floor as nat);
        assert(is_ceiling(db, s, c) && purge_start(c) == next);
        let mut purged: u64 = 0;
        loop
            invariant
                self@.dom().finite(),
                whole == (Purge {
                    db: purge_run(self@, s, next as nat, floor as nat).db,
                    purged: purge_run(self@, s, next as nat, floor as nat).purged + purged as nat,
                }),
                s == utf8(stream@),
                is_ceiling(db, s, c),
                whole == purge_run(db, s, purge_start(c), floor as nat),
                db == old(self)@,
                self.base() == old(self).base(),
                purged + self@.dom().len() <= count,
            decreases self@.dom().len(),
        {
            let ghost before = self@;
            match self.purge_chunk(stream, next, floor) {
                Ok(Some((n, after))) => {
                    proof {
                        let rows = purge_batch(before, s, next as nat, floor as nat);
                        purge_batch_rows(before, s, next as nat, floor as nat);
                        without_rows_len(before, rows);
                        number_key(r_prefix_of(s), rows[rows.len() - 1].0);
                    }
                    purged = purged + n;
                    next = after;
                },
                Ok(None) => return Ok(purged),
                Err(e) => return Err(e),
            }
        }
    }
}

// ---- deletion and enumeration ---------------------------------------------

/// The stream whose tail key `m/{rest}` is, if it is one.
pub open spec fn tail_stream(key: Seq<u8>) -> Option<Seq<u8>> {
    let rest = after(key, 2);
    if has_suffix(rest, utf8("/tail"@)) {
        Some(rest.take(rest.len() - utf8("/tail"@).len()))
    } else {
        None
    }
}

/// The streams of the listed metadata keys, in key order, without the
/// deleted ones.
pub open spec fn streams_in(db: Db, rows: Seq<(Seq<u8>, ValueView)>) -> Seq<Seq<u8>>
    decreases rows.len(),
{
    if rows.len() == 0 {
        Seq::empty()
    } else {
        let rest = streams_in(db, rows.drop_last());
        match tail_stream(rows.last().0) {
            Some(s) => if is_deleted(db, s) {
                rest
            } else {
                rest.push(s)
            },
            None => rest,
        }
    }
}

/// The metadata records, in key order.
pub open spec fn metadata_rows(db: Db) -> Seq<(Seq<u8>, ValueView)> {
    listing(db, under(utf8("m/"@)))
}

pub open spec fn all_utf8(rows: Seq<(Seq<u8>, ValueView)>) -> bool {
    forall|i: int| 0 <= i < rows.len() ==> vstd::utf8::valid_utf8((#[trigger] rows[i]).0)
}

/// The bytes of a sequence of names.
pub open spec fn name_bytes(names: Seq<String>) -> Seq<Seq<u8>> {
    Seq::new(names.len(), |i: int| utf8(names[i]@))
}

proof fn m_bytes()
    ensures
        utf8("m/"@) == seq![0x6du8, SLASH],
        utf8("/tail"@) == seq![SLASH, 0x74u8, 0x61, 0x69, 0x6c],
{
    reveal_strlit("m/");
    reveal_strlit("/tail");
    vstd::utf8::is_ascii_chars_encode_utf8("m/"@);
    vstd::utf8::is_ascii_chars_encode_utf8("/tail"@);
    assert(utf8("m/"@) =~= seq![0x6du8, SLASH]);
    assert(utf8("/tail"@) =~= seq![SLASH, 0x74u8, 0x61, 0x69, 0x6c]);
}

impl EventStore {
    /// Logically deletes `stream`: after this, reads see only the prefix
    /// pinned by live forks (or nothing), and
    /// [`list_streams`](Self::list_streams) omits it. Stream ids are terminal
    /// after deletion. A stream that does not exist stays as it is.
    pub fn delete_stream(&mut self, stream: &str) -> (r: Result<(), Error>)
        ensures
            match r {
                Ok(_) => has_good_tail(old(self)@, utf8(stream@)) && final(self)@ == (if tail_of(
                    old(self)@,
                    utf8(stream@),
                ) is Some {
                    old(self)@.insert(
                        deleted_key(utf8(stream@)),
                        ValueView::Bytes(Seq::empty()),
                    )
                } else {
                    old(self)@
                }),
                Err(e) => !has_good_tail(old(self)@, utf8(stream@)) && e is Encoding
                    && final(self)@ == old(self)@,
            },
            final(self).base() == old(self).base(),
    {
        match tail(self.db(), stream) {
            Ok(Some(_)) => {
                let empty: Vec<u8> = Vec::new();
                assert(empty@ =~= Seq::<u8>::empty());
                self.put(m_key(stream, "deleted"), Value::Bytes(empty));
                Ok(())
            },
            Ok(None) => Ok(()),
            Err(e) => Err(e),
        }
    }

    /// All stream ids in the store, the enumeration input for a compaction
    /// sweeper. Deleted streams are omitted.
    pub fn list_streams(&self) -> (r: Result<Vec<String>, Error>)
        ensures
            match r {
                Ok(names) => all_utf8(metadata_rows(self@)) && name_bytes(names@) == streams_in(
                    self@,
                    metadata_rows(self@),
                ),
                Err(e) => !all_utf8(metadata_rows(self@)) && says(e, "non-utf8 stream key"@),
            },
    {
        let ghost db = self@;
        let recs = self.db();
        let none: Vec<u8> = Vec::new();
        let (a, b) = recs.range("m/".as_bytes(), none.as_slice(), None);
        assert(none@ =~= Seq::<u8>::empty());
        let ghost rows = metadata_rows(db);
        assert(rows == recs.entries().subrange(a as int, b as int));
        let mut names: Vec<String> = Vec::new();
        let mut i: usize = a;
        proof {
            m_bytes();
            assert(rows.take(0) =~= Seq::empty());
            assert(name_bytes(names@) =~= Seq::<Seq<u8>>::empty());
        }
        while i < b
            invariant
                a <= i <= b <= recs.entries().len(),
                recs@ == db,
                db == self@,
                rows == metadata_rows(db),
                rows == recs.entries().subrange(a as int, b as int),
                is_listing(db, under(utf8("m/"@)), rows),
                all_utf8(rows.take(i - a)),
                name_bytes(names@) == streams_in(db, rows.take(i - a)),
            decreases b - i,
        {
            let ghost t = rows.take(i + 1 - a);
            let ghost before = name_bytes(names@);
            let ghost k = rows[i - a].0;
            proof {
                m_bytes();
                assert(t.drop_last() =~= rows.take(i - a));
                assert(rows[i - a] == recs.entries()[i as int]);
                assert(t.last() == rows[i - a]);
                assert(under(utf8("m/"@))(rows[i - a].0));
                lemma_under(utf8("m/"@), k);
            }
            let key = match crate::text::from_utf8(copy_of(recs.key_at(i).as_slice())) {
                Some(key) => key,
                None => {
                    assert(!vstd::utf8::valid_utf8(rows[i - a].0));
                    return Err(refuse("non-utf8 stream key"));
                },
            };
            assert(all_utf8(t)) by {
                assert forall|j: int| 0 <= j < t.len() implies vstd::utf8::valid_utf8(
                    (#[trigger] t[j]).0,
                ) by {
                    if j < i - a {
                        assert(t[j] == rows.take(i - a)[j]);
                    }
                }
            }
            let bytes = key.as_str().as_bytes();
            let rest = vstd::slice::slice_subrange(bytes, 2, bytes.len());
            if ends_with(rest, "/tail".as_bytes()) {
                proof {
                    let suffix = rest@.subrange(rest@.len() - 5, rest@.len() as int);
                    assert(suffix[0] == SLASH);
                    assert(rest@[rest@.len() - 5] == suffix[0]);
                    assert(k.subrange(0, 2)[1] == SLASH);
                }
                let whole = before_slash(key.as_str(), bytes.len() - 5);
                assert(utf8(whole@)[1] == SLASH);
                let name = after_slash(whole.as_str(), 1);
                assert(utf8(name@) =~= after(k, 2).take(after(k, 2).len() - 5));
                let gone = m_key(name.as_str(), "deleted");
                if !recs.contains(gone.as_slice()) {
                    names.push(name);
                    assert(name_bytes(names@) =~= before.push(utf8(name@)));
                }
            }
            i += 1;
        }
        assert(rows.take(i - a) =~= rows);
        Ok(names)
    }
}

} // verus!

//! What a read of a stream shows.
use vstd::prelude::*;
use vstd::string::*;

use crate::digits::{cell_value, dec16};
use crate::envelope::{EnvelopeView, Version};
use crate::kv::{
    events_of, forks_prefix, has_good_tail, is_rollback, live_pin, m_key_of, number, pinned,
    pinning, r_key_of, read_outcome, rollback_prefix, rolled_back, rolled_from, tail_of, visible,
    Db, ValueView,
};
use crate::numbered::{number_key, number_written};
use crate::order::{lemma_prefix_of_concat, lemma_prefix_split};
use crate::store::reads::{payload, tail_outcome, tail_start, Bound, VersionRange};
use crate::stream::{orderly, read_is_exact, stored};
use crate::text::utf8;

verus! {

/// The number that a metadata record holds: eight bytes, most significant
/// first; anything else counts as 0.
pub open spec fn cell_at(db: Db, key: Seq<u8>) -> nat {
    match db[key] {
        ValueView::Bytes(b) => cell_value(b),
        _ => 0,
    }
}

/// A live fork of the stream holds on to the version: a pin that reaches it,
/// set for a child that still says it was forked from here and is not deleted.
pub open spec fn held_by_fork(db: Db, stream: Seq<u8>, child: Seq<u8>, version: nat) -> bool {
    let pin = m_key_of(stream, utf8("forks/"@) + child);
    let from = m_key_of(child, utf8("fork"@));
    &&& db.contains_key(pin)
    &&& version <= cell_at(db, pin)
    &&& db.contains_key(from)
    &&& db[from] is Fork
    &&& utf8(db[from]->Fork_0.stream) == stream
    &&& !db.contains_key(m_key_of(child, utf8("deleted"@)))
}

/// A rollback from the version `from` on hides the event: it is at or past that
/// version, and was written past the watermark of the rollback.
pub open spec fn undone_by(db: Db, stream: Seq<u8>, from: nat, e: EnvelopeView) -> bool {
    let key = m_key_of(stream, utf8("rollback/"@) + dec16(from));
    &&& from <= u64::MAX
    &&& db.contains_key(key)
    &&& e.version >= from
    &&& e.seq > cell_at(db, key)
}

pub(crate) proof fn pin_in_words(db: Db, s: Seq<u8>, version: nat)
    ensures
        pinned(db, s, version) <==> exists|child: Seq<u8>| #[trigger]
            held_by_fork(db, s, child, version),
{
    let p = forks_prefix(s);
    if pinned(db, s, version) {
        let k = choose|k: Seq<u8>| #[trigger] live_pin(db, s, k) && version <= number(db[k]);
        lemma_prefix_split(k, p);
        let child = pinning(s, k);
        assert(m_key_of(s, utf8("forks/"@) + child) =~= p + child);
        assert(held_by_fork(db, s, child, version));
    }
    if exists|child: Seq<u8>| #[trigger] held_by_fork(db, s, child, version) {
        let child = choose|child: Seq<u8>| #[trigger] held_by_fork(db, s, child, version);
        let k = p + child;
        lemma_prefix_of_concat(p, child);
        assert(m_key_of(s, utf8("forks/"@) + child) =~= k);
        assert(pinning(s, k) =~= child);
        assert(live_pin(db, s, k) && version <= number(db[k]));
    }
}

proof fn rollback_in_words(db: Db, s: Seq<u8>, e: EnvelopeView)
    ensures
        rolled_back(db, s, e.version as nat, e.seq as nat) <==> exists|from: nat| #[trigger]
            undone_by(db, s, from, e),
{
    let p = rollback_prefix(s);
    if rolled_back(db, s, e.version as nat, e.seq as nat) {
        let k = choose|k: Seq<u8>| #[trigger]
            is_rollback(db, s, k) && e.version >= rolled_from(s, k) && e.seq > number(db[k]);
        number_key(p, k);
        let from = rolled_from(s, k);
        assert(m_key_of(s, utf8("rollback/"@) + dec16(from)) =~= p + dec16(from));
        assert(undone_by(db, s, from, e));
    }
    if exists|from: nat| #[trigger] undone_by(db, s, from, e) {
        let from = choose|from: nat| #[trigger] undone_by(db, s, from, e);
        let k = p + dec16(from);
        assert(m_key_of(s, utf8("rollback/"@) + dec16(from)) =~= k);
        number_written(p, from);
        assert(is_rollback(db, s, k) && e.version >= rolled_from(s, k) && e.seq > number(db[k]));
    }
}

/// A read of `[lo, hi)` shows an event exactly if it is stored at a version of
/// that range, not below the trim floor, not undone by a rollback, and, where
/// the stream is deleted, held by a live fork. It shows each once, in the order
/// of versions.
pub proof fn read_shows(db: Db, s: Seq<u8>, lo: nat, hi: Option<nat>, e: EnvelopeView)
    requires
        db.dom().finite(),
        orderly(db, s),
    ensures
        events_of(db, s, lo, hi).contains(e) <==> {
            &&& db.contains_key(r_key_of(s, e.version as nat))
            &&& db[r_key_of(s, e.version as nat)] == ValueView::Event(e)
            &&& lo <= e.version
            &&& hi is Some ==> e.version < hi->0
            &&& db.contains_key(m_key_of(s, utf8("trim"@))) ==> cell_at(
                db,
                m_key_of(s, utf8("trim"@)),
            ) <= e.version
            &&& db.contains_key(m_key_of(s, utf8("deleted"@))) ==> exists|child: Seq<u8>| #[trigger]
                held_by_fork(db, s, child, e.version as nat)
            &&& forall|from: nat| !(#[trigger] undone_by(db, s, from, e))
        },
        read_outcome(db, s, lo, hi) == Ok::<Seq<EnvelopeView>, crate::kv::Fault>(
            events_of(db, s, lo, hi),
        ),
        forall|i: int, j: int|
            0 <= i < j < events_of(db, s, lo, hi).len() ==> events_of(db, s, lo, hi)[i].version
                < events_of(db, s, lo, hi)[j].version,
{
    read_is_exact(db, s, lo, hi);
    pin_in_words(db, s, e.version as nat);
    rollback_in_words(db, s, e);
    let out = events_of(db, s, lo, hi);
    if out.contains(e) {
        let i = choose|i: int| 0 <= i < out.len() && out[i] == e;
        assert(stored(db, s, out[i]));
        assert(visible(db, s, lo, hi, e));
    }
    if visible(db, s, lo, hi, e) && stored(db, s, e) {
        assert(out.contains(e));
    }
}

/// A range in Rust's sense: which versions lie in it.
pub proof fn range_holds(range: VersionRange, v: Version)
    ensures
        (range.lo() <= v && (range.hi() is Some ==> v < range.hi()->0)) <==> {
            &&& match range.start {
                Bound::Included(a) => a <= v,
                Bound::Excluded(a) => a < v,
                Bound::Unbounded => true,
            }
            &&& match range.end {
                Bound::Included(b) => v <= b,
                Bound::Excluded(b) => v < b,
                Bound::Unbounded => true,
            }
        },
{
}

proof fn versions_spread(out: Seq<EnvelopeView>, i: int)
    requires
        forall|i: int, j: int| 0 <= i < j < out.len() ==> out[i].version < out[j].version,
        0 <= i < out.len(),
    ensures
        out[i].version >= out[0].version + i,
    decreases i,
{
    if i > 0 {
        versions_spread(out, i - 1);
        assert(out[i - 1].version < out[i].version);
    }
}

/// Reading the last `n` events gives at most `n`, and they are the last ones:
/// with the tail at `t`, exactly the visible events whose version plus `n` is
/// more than `t`, in order.
pub proof fn tail_read_is_last(db: Db, s: Seq<u8>, n: usize)
    requires
        db.dom().finite(),
        orderly(db, s),
        has_good_tail(db, s),
        tail_of(db, s) is Some,
        n > 0 || tail_of(db, s)->0.version < u64::MAX,
        forall|e: EnvelopeView| #[trigger] stored(db, s, e) ==> e.version
            <= tail_of(db, s)->0.version,
    ensures
        tail_outcome(db, s, n) is Ok,
        ({
            let out = tail_outcome(db, s, n)->Ok_0;
            let all = events_of(db, s, 0, None);
            let t = tail_of(db, s)->0.version;
            &&& out.len() <= n
            &&& forall|e: EnvelopeView| #[trigger]
                out.contains(e) <==> all.contains(e) && e.version + n > t
            &&& forall|i: int, j: int| 0 <= i < j < out.len() ==> out[i].version < out[j].version
        }),
{
    let t = tail_of(db, s)->0.version;
    let lo = tail_start(t, n);
    let out = tail_outcome(db, s, n)->Ok_0;
    read_is_exact(db, s, lo, None);
    assert(out == events_of(db, s, lo, None));
    assert forall|e: EnvelopeView| #[trigger] out.contains(e) <==> events_of(
        db,
        s,
        0,
        None,
    ).contains(e) && e.version + n > t by {
        read_shows(db, s, lo, None, e);
        read_shows(db, s, 0, None, e);
    }
    if out.len() > 0 {
        let last = out.len() - 1;
        versions_spread(out, last);
        assert(out.contains(out[0]));
        assert(stored(db, s, out[last]));
    }
}

/// On a stream that shows every version through its tail, the last `n` events
/// are as many as there are, up to `n`, and they end at the tail.
pub proof fn tail_read_of_whole_stream(db: Db, s: Seq<u8>, n: usize)
    requires
        db.dom().finite(),
        orderly(db, s),
        has_good_tail(db, s),
        tail_of(db, s) is Some,
        n > 0 || tail_of(db, s)->0.version < u64::MAX,
        events_of(db, s, 0, None).len() == tail_of(db, s)->0.version + 1,
        forall|i: int|
            0 <= i < events_of(db, s, 0, None).len() ==> (#[trigger] events_of(
                db,
                s,
                0,
                None,
            )[i]).version == i,
        forall|e: EnvelopeView| #[trigger] stored(db, s, e) ==> e.version
            <= tail_of(db, s)->0.version,
    ensures
        ({
            let out = tail_outcome(db, s, n)->Ok_0;
            let t = tail_of(db, s)->0.version;
            &&& tail_outcome(db, s, n) is Ok
            &&& out.len() == if n <= t + 1 {
                n as int
            } else {
                t + 1
            }
            &&& out == events_of(db, s, 0, None).skip(t + 1 - out.len())
            &&& out.len() > 0 ==> out.last().version == t
        }),
{
    tail_read_is_last(db, s, n);
    let out = tail_outcome(db, s, n)->Ok_0;
    let all = events_of(db, s, 0, None);
    let t = tail_of(db, s)->0.version;
    let k: int = if n <= t + 1 {
        n as int
    } else {
        t + 1
    };
    let want = all.skip(t + 1 - k);
    assert forall|e: EnvelopeView| want.contains(e) <==> out.contains(e) by {
        if want.contains(e) {
            let i = choose|i: int| 0 <= i < want.len() && want[i] == e;
            assert(all[t + 1 - k + i] == e);
            assert(all.contains(e));
        }
        if out.contains(e) {
            assert(all.contains(e));
            let i = choose|i: int| 0 <= i < all.len() && all[i] == e;
            assert(want[i - (t + 1 - k)] == e);
        }
    }
    crate::stream::runs_unique(want, out);
    if k > 0 {
        assert(out.last() == all[t as int]);
    }
}

/// The payload of a page counts the data bytes of its events.
pub proof fn payload_counts_data(a: Seq<EnvelopeView>, e: EnvelopeView)
    ensures
        payload(Seq::empty()) == 0,
        payload(a.push(e)) == payload(a) + e.data.len(),
{
    assert(a.push(e).drop_last() =~= a);
}

} // verus!

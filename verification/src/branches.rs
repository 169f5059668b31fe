//! What holds across trims, rollbacks, forks, purges and snapshots.
use vstd::prelude::*;
use vstd::string::*;

use crate::digits::{be8_roundtrip, dec16};
use crate::envelope::{EnvelopeView, StampView, Version};
use crate::fork::{history, history_of, lemma_shrinks, no_versions, parent_end};
use crate::kv::{
    deleted_key, events_of, floor_of, fork_key, fork_of, forks_field, forks_prefix, has_good_fork,
    is_ceiling, is_rollback, live_pin, m_key_of, max, number, pinned, pinning, r_key_of,
    r_prefix_of, read_outcome, rollback_field, rollback_prefix, rolled_back, rolled_from, scanned,
    selected, tail_key, tail_of, trim_key, visible, Db, Fault, ValueView,
};
use crate::layout::{
    classes, field_no_window, fields_differ, fixed_parts, own_field_no_pin, prefix_class,
    record_own,
};
use crate::numbered::{
    is_numbered, number_written, numbered_exists, numbered_unique, numbers, precedes,
};
use crate::order::has_prefix;
use crate::store::reads::{
    cursor_after, is_page, next_version, page_full, payload, PageLimit,
};
use crate::store::retention::{
    forked, in_rows, purge_batch, purge_batch_rows, purge_range, purge_run, purge_start, purgeable,
    trim_floor, version_at, without_rows, without_rows_keys, without_rows_len,
};
use crate::store::{committed, first_version, number_cell, AppendView};
use crate::stream::{
    append_leaves_others, append_prefix_alike, capped, goes_in, is_own, is_pin, is_read_key,
    is_record, is_window_key, orderly, pins_kept, read_is_exact, read_is_unique, same_at,
    same_child, same_reads, same_reads_read_alike, selected_visible, stored,
};
use crate::text::utf8;

verus! {

// ---- trims ----------------------------------------------------------------

/// The store with a trim floor set.
pub open spec fn trimmed(db: Db, stream: Seq<u8>, floor: nat) -> Db {
    db.insert(trim_key(stream), number_cell(floor))
}

/// The trim key of a stream is no record, and no guard but its own floor.
proof fn trim_key_alone(s: Seq<u8>, x: Seq<u8>, k: Seq<u8>)
    requires
        is_read_key(x, k),
        k == trim_key(s),
    ensures
        k == trim_key(x),
        s == x,
{
    fixed_parts();
    classes(s, 0, 0, utf8("trim"@));
    classes(x, 0, 0, utf8("trim"@));
    if has_prefix(k, r_prefix_of(x)) {
        prefix_class(k, r_prefix_of(x));
    }
    if k == deleted_key(x) {
        fields_differ(s, utf8("trim"@), x, utf8("deleted"@));
    }
    field_no_window(s, utf8("trim"@));
    crate::fork::m_key_injective(s, x, utf8("trim"@));
}

/// A trim touches the reads of no other stream (unless the floor is where a
/// fork of that one holds its pin).
pub proof fn trim_leaves_others(db: Db, s: Seq<u8>, floor: nat, x: Seq<u8>)
    requires
        x != s,
        !is_pin(db, x, trim_key(s)),
    ensures
        same_reads(db, trimmed(db, s, floor), x),
{
    let db2 = trimmed(db, s, floor);
    assert forall|k: Seq<u8>| #[trigger] is_read_key(x, k) implies same_at(db, db2, k) by {
        if k == trim_key(s) {
            trim_key_alone(s, x, k);
        }
    }
    fixed_parts();
    assert forall|c: Seq<u8>| #[trigger] same_child(db, db2, x, c) by {
        fields_differ(s, utf8("trim"@), c, utf8("deleted"@));
        fields_differ(s, utf8("trim"@), c, utf8("fork"@));
    }
    pins_kept(db, db2, x, trim_key(s));
}

/// After a trim an event shows where it would have shown from the floor on.
proof fn trim_visibility(
    db: Db,
    s: Seq<u8>,
    floor: u64,
    lo: nat,
    hi: Option<nat>,
    e: EnvelopeView,
)
    requires
        floor_of(db, s) <= floor,
    ensures
        visible(trimmed(db, s, floor as nat), s, lo, hi, e) == visible(
            db,
            s,
            max(lo, floor as nat),
            hi,
            e,
        ),
        floor_of(trimmed(db, s, floor as nat), s) == floor,
{
    let db2 = trimmed(db, s, floor as nat);
    be8_roundtrip(floor);
    fixed_parts();
    own_field_no_pin(s, utf8("trim"@));
    let v = e.version as nat;
    let q = e.seq as nat;
    assert forall|c: Seq<u8>| #[trigger] same_child(db, db2, s, c) by {
        fields_differ(s, utf8("trim"@), c, utf8("deleted"@));
        fields_differ(s, utf8("trim"@), c, utf8("fork"@));
    }
    assert forall|k: Seq<u8>|
        has_prefix(k, forks_prefix(s)) || is_window_key(s, k) implies k != trim_key(s) by {
        if k == trim_key(s) {
            field_no_window(s, utf8("trim"@));
        }
    }
    assert forall|k: Seq<u8>| (#[trigger] is_rollback(db, s, k)) implies is_rollback(db2, s, k)
        && db[k] == db2[k] by {}
    assert forall|k: Seq<u8>| (#[trigger] is_rollback(db2, s, k)) implies is_rollback(db, s, k)
        && db[k] == db2[k] by {}
    assert forall|k: Seq<u8>| (#[trigger] live_pin(db, s, k)) implies live_pin(db2, s, k) && db[k]
        == db2[k] by {
        assert(same_child(db, db2, s, pinning(s, k)));
    }
    assert forall|k: Seq<u8>| (#[trigger] live_pin(db2, s, k)) implies live_pin(db, s, k) && db[k]
        == db2[k] by {
        assert(same_child(db, db2, s, pinning(s, k)));
    }
    assert(same_child(db, db2, s, s));
    if pinned(db, s, v) {
        let k = choose|k: Seq<u8>| #[trigger] live_pin(db, s, k) && v <= number(db[k]);
        assert(live_pin(db2, s, k));
    }
    if pinned(db2, s, v) {
        let k = choose|k: Seq<u8>| #[trigger] live_pin(db2, s, k) && v <= number(db2[k]);
        assert(live_pin(db, s, k));
    }
    if rolled_back(db, s, v, q) {
        let k = choose|k: Seq<u8>| #[trigger]
            is_rollback(db, s, k) && v >= rolled_from(s, k) && q > number(db[k]);
        assert(is_rollback(db2, s, k));
    }
    if rolled_back(db2, s, v, q) {
        let k = choose|k: Seq<u8>| #[trigger]
            is_rollback(db2, s, k) && v >= rolled_from(s, k) && q > number(db2[k]);
        assert(is_rollback(db, s, k));
    }
}

/// A trim hides exactly the events below its floor: a read gives what it gave
/// before from the floor on.
pub proof fn trim_hides_older(db: Db, s: Seq<u8>, floor: u64, lo: nat, hi: Option<nat>)
    requires
        db.dom().finite(),
        orderly(db, s),
        floor_of(db, s) <= floor,
    ensures
        read_outcome(trimmed(db, s, floor as nat), s, lo, hi) == Ok::<Seq<EnvelopeView>, Fault>(
            events_of(db, s, max(lo, floor as nat), hi),
        ),
{
    let db2 = trimmed(db, s, floor as nat);
    let low = max(lo, floor as nat);
    let out = events_of(db, s, low, hi);
    read_is_exact(db, s, low, hi);
    fixed_parts();
    classes(s, 0, 0, utf8("trim"@));
    assert forall|k: Seq<u8>| #[trigger] db2.contains_key(k) && is_own(
        s,
        k,
    ) implies is_record(db2, s, k) by {
        prefix_class(k, r_prefix_of(s));
        assert(db.contains_key(k));
        assert(is_record(db, s, k));
    }
    assert forall|e: EnvelopeView| #[trigger] stored(db2, s, e) == stored(db, s, e) by {
        classes(s, e.version as nat, 0, utf8("trim"@));
    }
    assert forall|i: int| 0 <= i < out.len() implies stored(db2, s, #[trigger] out[i]) && visible(
        db2,
        s,
        lo,
        hi,
        out[i],
    ) by {
        assert(stored(db, s, out[i]));
        assert(stored(db2, s, out[i]));
        trim_visibility(db, s, floor, lo, hi, out[i]);
    }
    assert forall|e: EnvelopeView| #[trigger] stored(db2, s, e) && visible(
        db2,
        s,
        lo,
        hi,
        e,
    ) implies out.contains(e) by {
        trim_visibility(db, s, floor, lo, hi, e);
        assert(stored(db, s, e));
    }
    trim_visibility(db, s, floor, lo, hi, arbitrary());
    read_is_exact(db2, s, lo, hi);
    read_is_unique(db2, s, lo, hi, out);
}

/// Floors only move forward, and never past the existing history: what is
/// appended next stays visible.
pub proof fn trim_stays_within_history(db: Db, s: Seq<u8>, floor: nat)
    requires
        tail_of(db, s) is Some,
        floor_of(db, s) <= tail_of(db, s)->0.version + 1,
    ensures
        floor_of(db, s) <= trim_floor(db, s, floor) <= tail_of(db, s)->0.version + 1,
        floor <= tail_of(db, s)->0.version + 1 ==> trim_floor(db, s, floor) >= floor,
{
}

// ---- rollbacks ------------------------------------------------------------

/// The store with a rollback window set.
pub open spec fn rolled(db: Db, stream: Seq<u8>, from: nat, txn: nat) -> Db {
    db.insert(m_key_of(stream, rollback_field(from)), number_cell(txn))
}

/// A rollback hides what was appended at or past its version after its
/// watermark.
pub proof fn rollback_hides(
    db: Db,
    s: Seq<u8>,
    from: nat,
    txn: u64,
    lo: nat,
    hi: Option<nat>,
    i: int,
)
    requires
        from <= u64::MAX,
        0 <= i < events_of(rolled(db, s, from, txn as nat), s, lo, hi).len(),
    ensures
        ({
            let e = events_of(rolled(db, s, from, txn as nat), s, lo, hi)[i];
            !(e.version >= from && e.seq > txn)
        }),
{
    let db2 = rolled(db, s, from, txn as nat);
    let k = m_key_of(s, rollback_field(from));
    let e = events_of(db2, s, lo, hi)[i];
    selected_visible(db2, s, lo, hi, scanned(db2, s, lo, hi), i);
    be8_roundtrip(txn);
    assert(k =~= rollback_prefix(s) + dec16(from));
    number_written(rollback_prefix(s), from);
    assert(is_rollback(db2, s, k));
    if e.version >= from && e.seq > txn {
        assert(is_rollback(db2, s, k) && e.version as nat >= rolled_from(s, k) && e.seq as nat
            > number(db2[k]));
    }
}

// ---- forks ----------------------------------------------------------------

/// The stream that `n` fork links lead to.
pub open spec fn reach(db: Db, stream: Seq<u8>, n: nat) -> Option<Seq<u8>>
    decreases n,
{
    if n == 0 {
        Some(stream)
    } else {
        match fork_of(db, stream) {
            Some(f) => reach(db, utf8(f.stream), (n - 1) as nat),
            None => None,
        }
    }
}

/// Along the fork chain of `stream`, both stores read alike, but for `p`,
/// which every link pins below `first`.
pub open spec fn chain_alike(a: Db, b: Db, stream: Seq<u8>, p: Seq<u8>, first: nat) -> bool {
    forall|n: nat|
        (#[trigger] reach(a, stream, n)) is Some ==> ({
            let x = reach(a, stream, n)->0;
            &&& x != p ==> same_reads(a, b, x)
            &&& fork_of(a, x) is Some && utf8(fork_of(a, x)->0.stream) == p ==> fork_of(
                a,
                x,
            )->0.at_version + 1 <= first && fork_of(a, x)->0.at_version < u64::MAX
        })
}

proof fn chain_step(a: Db, b: Db, stream: Seq<u8>, p: Seq<u8>, first: nat)
    requires
        chain_alike(a, b, stream, p, first),
        fork_of(a, stream) is Some,
    ensures
        chain_alike(a, b, utf8(fork_of(a, stream)->0.stream), p, first),
{
    let q = utf8(fork_of(a, stream)->0.stream);
    assert forall|n: nat| (#[trigger] reach(a, q, n)) is Some implies ({
        let x = reach(a, q, n)->0;
        &&& x != p ==> same_reads(a, b, x)
        &&& fork_of(a, x) is Some && utf8(fork_of(a, x)->0.stream) == p ==> fork_of(
            a,
            x,
        )->0.at_version + 1 <= first && fork_of(a, x)->0.at_version < u64::MAX
    }) by {
        assert(reach(a, stream, n + 1) == reach(a, q, n));
    }
}

pub proof fn history_alike(
    a: Db,
    b: Db,
    stream: Seq<u8>,
    seen: Set<Seq<u8>>,
    lo: nat,
    hi: Option<nat>,
    p: Seq<u8>,
    first: nat,
)
    requires
        a.dom().finite(),
        b.dom().finite(),
        forall|x: Seq<u8>| same_at(a, b, #[trigger] fork_key(x)),
        forall|l: nat, h: nat|
            h <= first ==> #[trigger] read_outcome(a, p, l, Some(h)) == read_outcome(
                b,
                p,
                l,
                Some(h),
            ),
        chain_alike(a, b, stream, p, first),
        stream == p ==> hi is Some && hi->0 <= first,
    ensures
        history(a, stream, seen, lo, hi) == history(b, stream, seen, lo, hi),
    decreases a.dom().difference(seen).len(),
{
    let k = fork_key(stream);
    assert(same_at(a, b, k));
    if !no_versions(lo, hi) && !seen.contains(k) && has_good_fork(a, stream) {
        assert(reach(a, stream, 0) == Some(stream));
        let from = if a.contains_key(k) {
            max(lo, a[k]->Fork_0.at_version as nat + 1)
        } else {
            lo
        };
        if stream != p {
            same_reads_read_alike(a, b, stream, from, hi);
        } else {
            assert(read_outcome(a, p, from, Some(hi->0)) == read_outcome(b, p, from, Some(hi->0)));
        }
        if a.contains_key(k) {
            let f = a[k]->Fork_0;
            let end = parent_end(f.at_version, hi);
            if !no_versions(lo, end) {
                lemma_shrinks(a.dom(), seen, k);
                chain_step(a, b, stream, p, first);
                history_alike(a, b, utf8(f.stream), seen.insert(k), lo, end, p, first);
            }
        }
    }
}

/// The pin of `child` on `parent` at `at`.
pub open spec fn holds_pin(db: Db, parent: Seq<u8>, child: Seq<u8>, at: Version) -> bool {
    let k = m_key_of(parent, forks_field(child));
    &&& live_pin(db, parent, k)
    &&& number(db[k]) == at
    &&& tail_of(db, parent) is Some
    &&& at <= tail_of(db, parent)->0.version
}

/// A fork is pinned: no append to a stream, at its tail or in place, changes
/// the history of another one that was forked from it, directly or along a
/// chain of forks. What is appended after the fork point is not visible to the
/// child, and what lies before it is not replaced. (The tail of the appended
/// stream must not be where a fork of one of the chain holds its pin.)
pub proof fn fork_is_pinned(
    db: Db,
    a: AppendView,
    stamps: Seq<StampView>,
    child: Seq<u8>,
    lo: nat,
    hi: Option<nat>,
)
    requires
        db.dom().finite(),
        goes_in(db, a, stamps),
        orderly(db, a.stream),
        capped(db, a.stream),
        child != a.stream,
        forall|n: nat|
            (#[trigger] reach(db, child, n)) is Some ==> !is_pin(
                db,
                reach(db, child, n)->0,
                tail_key(a.stream),
            ),
        forall|n: nat|
            (#[trigger] reach(db, child, n)) is Some ==> ({
                let f = fork_of(db, reach(db, child, n)->0);
                f is Some && utf8(f->0.stream) == a.stream ==> holds_pin(
                    db,
                    a.stream,
                    reach(db, child, n)->0,
                    f->0.at_version,
                )
            }),
    ensures
        history_of(committed(db, a, stamps), child, lo, hi) == history_of(db, child, lo, hi),
{
    let db2 = committed(db, a, stamps);
    let p = a.stream;
    let first = first_version(db, a);
    crate::stream::committed_finite(db, a, stamps);
    assert forall|x: Seq<u8>| same_at(db, db2, #[trigger] fork_key(x)) by {
        fixed_parts();
        classes(x, 0, 0, utf8("fork"@));
        fields_differ(p, utf8("tail"@), x, utf8("fork"@));
        crate::stream::committed_elsewhere(db, a, stamps, fork_key(x));
    }
    assert forall|l: nat, h: nat| h <= first implies #[trigger] read_outcome(db, p, l, Some(h))
        == read_outcome(db2, p, l, Some(h)) by {
        append_prefix_alike(db, a, stamps, l, h);
    }
    assert forall|n: nat| (#[trigger] reach(db, child, n)) is Some implies ({
        let x = reach(db, child, n)->0;
        &&& x != p ==> same_reads(db, db2, x)
        &&& fork_of(db, x) is Some && utf8(fork_of(db, x)->0.stream) == p ==> fork_of(
            db,
            x,
        )->0.at_version + 1 <= first && fork_of(db, x)->0.at_version < u64::MAX
    }) by {
        let x = reach(db, child, n)->0;
        if x != p {
            append_leaves_others(db, a, stamps, x);
        }
        let f = fork_of(db, x);
        if f is Some && utf8(f->0.stream) == p {
            let at = f->0.at_version;
            assert(holds_pin(db, p, x, at));
            let pin = m_key_of(p, forks_field(x));
            if a.from_version is Some && a.from_version->0 <= at {
                assert(live_pin(db, p, pin) && a.from_version->0 as nat <= number(db[pin]));
            }
        }
    }
    history_alike(db, db2, child, Set::empty(), lo, hi, p, first);
}

/// A fork starts out with the parent's history through the fork point, and
/// numbers on from there.
pub proof fn fork_shares_history(
    db: Db,
    parent: Seq<char>,
    at: Version,
    child: Seq<u8>,
    lo: nat,
    hi: Option<nat>,
)
    requires
        db.dom().finite(),
        utf8(parent) != child,
        lo <= at,
        hi is Some ==> lo < hi->0,
        forall|k: Seq<u8>| #[trigger]
            is_read_key(child, k) ==> !forked(db, parent, at, child).contains_key(k),
    ensures
        ({
            let db2 = forked(db, parent, at, child);
            &&& tail_of(db2, child)->0.version == at
            &&& history_of(db2, child, lo, hi) == history(
                db2,
                utf8(parent),
                set![fork_key(child)],
                lo,
                parent_end(at, hi),
            )
        }),
{
    let db2 = forked(db, parent, at, child);
    let k = fork_key(child);
    fixed_parts();
    classes(child, 0, 0, utf8("fork"@));
    classes(child, 0, 0, utf8("tail"@));
    let pin = m_key_of(utf8(parent), forks_field(child));
    fields_differ(child, utf8("fork"@), child, utf8("tail"@));
    // The pin is no key of the child: it is one of the parent's.
    pin_is_foreign(parent, child);
    assert(db2.contains_key(k) && db2[k] == ValueView::Fork(
        crate::fork::ForkView { stream: parent, at_version: at },
    ));
    // The child has no events of its own yet.
    let from = max(lo, at as nat + 1);
    assert(read_outcome(db2, child, from, hi) == Ok::<Seq<EnvelopeView>, Fault>(
        Seq::empty(),
    )) by {
        assert forall|x: Seq<u8>| !(#[trigger] is_rollback(db2, child, x)) by {
            if is_window_key(child, x) {
                assert(is_read_key(child, x));
            }
        }
        let p = crate::kv::scan_range(db2, child, from, hi);
        let none = Seq::<(Seq<u8>, ValueView)>::empty();
        assert(is_numbered(db2, r_prefix_of(child), p, none)) by {
            assert forall|x: Seq<u8>| #[trigger] db2.contains_key(x) && p(x) implies exists|i: int|
                0 <= i < none.len() && #[trigger] none[i].0 == x by {
                assert(is_read_key(child, x));
            }
        }
        numbered_unique(db2, r_prefix_of(child), max(from, floor_of(db2, child)), hi, none);
        assert(selected(db2, child, from, hi, none) =~= Seq::<EnvelopeView>::empty());
        assert(events_of(db2, child, from, hi) =~= Seq::<EnvelopeView>::empty());
    }
    let end = parent_end(at, hi);
    assert(!no_versions(lo, end));
    assert(Set::<Seq<u8>>::empty().insert(k) =~= set![k]);
    match history(db2, utf8(parent), set![k], lo, end) {
        Ok(h) => {
            assert(h + Seq::<EnvelopeView>::empty() =~= h);
        },
        Err(_) => {},
    }
}

/// The pin of a child on its parent is neither the child's branch point nor
/// its tail.
proof fn pin_is_foreign(parent: Seq<char>, child: Seq<u8>)
    requires
        utf8(parent) != child,
    ensures
        m_key_of(utf8(parent), forks_field(child)) != fork_key(child),
        m_key_of(utf8(parent), forks_field(child)) != tail_key(child),
{
    fixed_parts();
    let pin = m_key_of(utf8(parent), forks_field(child));
    assert(pin.len() == 3 + utf8(parent).len() + 6 + child.len());
    assert(fork_key(child).len() == 3 + child.len() + 4);
    assert(tail_key(child).len() == 3 + child.len() + 4);
}

// ---- purges ---------------------------------------------------------------

/// A purge deletes exactly the records from `next` up to the floor and counts
/// them.
pub proof fn purge_is_exact(db: Db, s: Seq<u8>, next: nat, floor: nat)
    requires
        db.dom().finite(),
    ensures
        ({
            let p = purge_run(db, s, next, floor);
            &&& forall|k: Seq<u8>| #[trigger]
                p.db.contains_key(k) <==> db.contains_key(k) && !purge_range(s, next, floor)(k)
            &&& forall|k: Seq<u8>| #[trigger] p.db.contains_key(k) ==> p.db[k] == db[k]
            &&& p.db.dom().finite()
            &&& p.db.dom().len() + p.purged == db.dom().len()
        }),
    decreases db.dom().len(),
{
    let rows = purge_batch(db, s, next, floor);
    let all = purgeable(db, s, next, floor);
    let range = purge_range(s, next, floor);
    if next < floor {
        numbered_exists(db, r_prefix_of(s), next, Some(floor));
        purge_batch_rows(db, s, next, floor);
        if rows.len() == 0 {
            assert(all.len() == 0);
            assert forall|k: Seq<u8>| #[trigger] db.contains_key(k) implies !range(k) by {
                if range(k) {
                    let i = choose|i: int| 0 <= i < all.len() && #[trigger] all[i].0 == k;
                    assert(false);
                }
            }
        } else {
            let db2 = without_rows(db, rows);
            let last = rows.last().0;
            assert(rows[rows.len() - 1] == all[rows.len() - 1]);
            assert(range(all[rows.len() - 1].0));
            let v = version_at(s, last);
            without_rows_keys(db, rows);
            without_rows_len(db, rows);
            purge_is_exact(db2, s, v + 1, floor);
            let rest = purge_range(s, v + 1, floor);
            // The batch is what lies in the range up to its last version.
            assert forall|k: Seq<u8>| #[trigger] db.contains_key(k) implies (range(k) == (in_rows(
                rows,
                k,
            ) || rest(k))) && (in_rows(rows, k) ==> !rest(k)) by {
                batch_range(db, s, next, floor, k);
            }
            let p = purge_run(db, s, next, floor);
            let q = purge_run(db2, s, v + 1, floor);
            assert(p.db == q.db);
            assert forall|k: Seq<u8>| #[trigger] p.db.contains_key(k) <==> db.contains_key(k)
                && !range(k) by {
                assert(q.db.contains_key(k) <==> db2.contains_key(k) && !rest(k));
                assert(db2.contains_key(k) <==> db.contains_key(k) && !in_rows(rows, k));
            }
            assert forall|k: Seq<u8>| #[trigger] p.db.contains_key(k) implies p.db[k] == db[k] by {
                assert(q.db.contains_key(k));
                assert(db2.contains_key(k));
            }
        }
    }
}

/// A record of the range is in the batch iff its version is at most the
/// batch's last.
proof fn batch_range(db: Db, s: Seq<u8>, next: nat, floor: nat, k: Seq<u8>)
    requires
        db.dom().finite(),
        next < floor,
        db.contains_key(k),
        purge_batch(db, s, next, floor).len() > 0,
    ensures
        ({
            let rows = purge_batch(db, s, next, floor);
            let v = version_at(s, rows.last().0);
            in_rows(rows, k) == (purge_range(s, next, floor)(k) && version_at(s, k) <= v)
        }),
{
    let rows = purge_batch(db, s, next, floor);
    let all = purgeable(db, s, next, floor);
    let range = purge_range(s, next, floor);
    numbered_exists(db, r_prefix_of(s), next, Some(floor));
    let n = rows.len();
    assert(rows[n - 1] == all[n - 1]);
    if in_rows(rows, k) {
        let i = choose|i: int| 0 <= i < rows.len() && #[trigger] rows[i].0 == k;
        assert(rows[i] == all[i]);
        assert(range(all[i].0));
        if i < n - 1 {
            assert(precedes(r_prefix_of(s), all[i].0, all[n - 1].0));
        }
    }
    if range(k) && version_at(s, k) <= version_at(s, rows.last().0) {
        let i = choose|i: int| 0 <= i < all.len() && #[trigger] all[i].0 == k;
        if i >= n {
            assert(precedes(r_prefix_of(s), all[n - 1].0, all[i].0));
        }
        assert(rows[i] == all[i]);
        assert(rows[i].0 == k);
    }
}

/// A purge never touches what a live fork inherits.
pub proof fn purge_spares_pins(db: Db, s: Seq<u8>, c: Option<Version>, floor: nat, v: nat)
    requires
        db.dom().finite(),
        v <= u64::MAX,
        is_ceiling(db, s, c),
        pinned(db, s, v),
        db.contains_key(r_key_of(s, v)),
    ensures
        ({
            let p = purge_run(db, s, purge_start(c), floor);
            p.db.contains_key(r_key_of(s, v)) && p.db[r_key_of(s, v)] == db[r_key_of(s, v)]
        }),
{
    purge_is_exact(db, s, purge_start(c), floor);
    let k = choose|k: Seq<u8>| #[trigger] live_pin(db, s, k) && v <= number(db[k]);
    assert(live_pin(db, s, k));
    record_own(s, v);
}

/// A second purge finds nothing left to delete.
pub proof fn purge_is_idempotent(db: Db, s: Seq<u8>, next: nat, floor: nat)
    requires
        db.dom().finite(),
    ensures
        purge_run(purge_run(db, s, next, floor).db, s, next, floor).purged == 0,
{
    purge_is_exact(db, s, next, floor);
    let db2 = purge_run(db, s, next, floor).db;
    purge_is_exact(db2, s, next, floor);
    let db3 = purge_run(db2, s, next, floor).db;
    assert(db3 =~= db2) by {
        assert forall|k: Seq<u8>| db3.contains_key(k) == db2.contains_key(k) by {
            if db2.contains_key(k) {
                assert(!purge_range(s, next, floor)(k));
            }
        }
    }
}

// ---- pages ----------------------------------------------------------------

/// Whether the first `n` events fit on a page: one always does.
pub open spec fn fits_page(s: Seq<EnvelopeView>, limit: PageLimit, n: int) -> bool {
    n <= 1 || (n <= limit.max_count && payload(s.take(n)) <= limit.max_bytes)
}

proof fn payload_grows(s: Seq<EnvelopeView>, m: int, n: int)
    requires
        0 <= m <= n <= s.len(),
    ensures
        payload(s.take(m)) <= payload(s.take(n)),
    decreases n - m,
{
    if m < n {
        payload_grows(s, m, n - 1);
        assert(s.take(n).drop_last() =~= s.take(n - 1));
    }
}

/// A page is the longest prefix that fits, not empty unless there is nothing
/// to read, and it has a cursor iff something is left.
pub proof fn page_is_longest(s: Seq<EnvelopeView>, limit: PageLimit, n: int)
    requires
        is_page(s, limit, n),
    ensures
        s.len() > 0 ==> n > 0,
        fits_page(s, limit, n),
        forall|m: int| n < m <= s.len() ==> !#[trigger] fits_page(s, limit, m),
        cursor_after(s, n) is None <==> n == s.len(),
{
    if n > 1 {
        assert(!page_full(s, limit, n - 1));
    }
    assert forall|m: int| n < m <= s.len() implies !#[trigger] fits_page(s, limit, m) by {
        assert(page_full(s, limit, n));
        payload_grows(s, n + 1, m);
    }
}

/// Paging loses nothing and repeats nothing: the events past a page are what a
/// read from its cursor gives.
pub proof fn pages_continue(db: Db, s: Seq<u8>, from: nat, limit: PageLimit, n: int)
    requires
        db.dom().finite(),
        orderly(db, s),
        is_page(events_of(db, s, from, None), limit, n),
        n < events_of(db, s, from, None).len(),
    ensures
        ({
            let all = events_of(db, s, from, None);
            let cursor = cursor_after(all, n);
            &&& cursor is Some && cursor->0 == all[n - 1].version + 1
            &&& events_of(db, s, cursor->0 as nat, None) == all.skip(n)
        }),
{
    let all = events_of(db, s, from, None);
    read_is_exact(db, s, from, None);
    page_is_longest(all, limit, n);
    let cut = all[n - 1].version;
    assert(stored(db, s, all[n - 1]));
    assert(all[n - 1].version < all[n].version);
    let out = all.skip(n);
    let next = next_version(cut) as nat;
    assert forall|i: int| 0 <= i < out.len() implies stored(db, s, #[trigger] out[i]) && visible(
        db,
        s,
        next,
        None,
        out[i],
    ) by {
        assert(out[i] == all[n + i]);
        assert(stored(db, s, all[n + i]));
        assert(all[n - 1].version < all[n + i].version);
    }
    assert forall|e: EnvelopeView| #[trigger] stored(db, s, e) && visible(
        db,
        s,
        next,
        None,
        e,
    ) implies out.contains(e) by {
        assert(visible(db, s, from, None, all[n - 1]));
        assert(visible(db, s, from, None, e));
        let i = choose|i: int| 0 <= i < all.len() && all[i] == e;
        if i < n {
            if i < n - 1 {
                assert(all[i].version < all[n - 1].version);
            }
        }
        assert(out[i - n] == e);
    }
    read_is_unique(db, s, next, None, out);
}

} // verus!

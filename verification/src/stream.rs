//! What holds of streams as a whole: reads are exact and in order, and an
//! operation on one stream does what it says there and nothing elsewhere.
use vstd::prelude::*;
use vstd::string::*;

use crate::envelope::{EnvelopeView, ExpectedVersion, StampView};
use crate::kv::{
    all_events, deleted_key, empty_range, events_of, floor_of, fork_key, forked_from, forks_prefix,
    is_deleted, is_rollback, live_pin, number, pinned, pinning, r_key_of, r_prefix_of, read_outcome,
    readable, rollback_prefix, rolled_back, rolled_from, scan_range, scanned, selected, tail_key,
    tail_of, trim_key, ts_key_of, visible, Db, Fault, ValueView,
};
use crate::layout::{
    classes, field_no_window, fields_differ, fixed_parts, own_field_no_pin, prefix_class,
    record_key_injective, record_own, record_under,
};
use crate::numbered::{number_of, numbered_exists, precedes, same_numbered};
use crate::order::has_prefix;
use crate::store::{
    append_info, committed, current_version, envelope_at, events_written, fence_key, fenced,
    first_version, new_tail, refusal, seq_of, tail_ts, ts_at, AppendView, Refusal,
};
use crate::table::{is_listing, listing, listing_exists, listing_unique};
use crate::text::utf8;

verus! {

/// Every record of the stream is an event at its own version.
pub open spec fn orderly(db: Db, stream: Seq<u8>) -> bool {
    forall|k: Seq<u8>| #[trigger]
        db.contains_key(k) && is_own(stream, k) ==> is_record(db, stream, k)
}

/// Whether the key is one of the stream's own records: its prefix and the
/// digits of a version.
pub open spec fn is_own(stream: Seq<u8>, k: Seq<u8>) -> bool {
    number_of(r_prefix_of(stream), k) is Some
}

pub open spec fn is_record(db: Db, stream: Seq<u8>, k: Seq<u8>) -> bool {
    &&& db[k] is Event
    &&& k == r_key_of(stream, db[k]->Event_0.version as nat)
}

/// The event is stored at its version of the stream.
pub open spec fn stored(db: Db, stream: Seq<u8>, e: EnvelopeView) -> bool {
    &&& db.contains_key(r_key_of(stream, e.version as nat))
    &&& db[r_key_of(stream, e.version as nat)] == ValueView::Event(e)
}

/// `out` is a read of `[lo, hi)`: exactly the stored events that are visible,
/// in version order.
pub open spec fn is_read(
    db: Db,
    stream: Seq<u8>,
    lo: nat,
    hi: Option<nat>,
    out: Seq<EnvelopeView>,
) -> bool {
    &&& forall|i: int, j: int| 0 <= i < j < out.len() ==> out[i].version < out[j].version
    &&& forall|i: int|
        0 <= i < out.len() ==> stored(db, stream, #[trigger] out[i]) && visible(
            db,
            stream,
            lo,
            hi,
            out[i],
        )
    &&& forall|e: EnvelopeView| #[trigger]
        stored(db, stream, e) && visible(db, stream, lo, hi, e) ==> out.contains(e)
}

/// Two runs in version order with the same events are the same run.
pub proof fn runs_unique(s: Seq<EnvelopeView>, t: Seq<EnvelopeView>)
    requires
        forall|i: int, j: int| 0 <= i < j < s.len() ==> s[i].version < s[j].version,
        forall|i: int, j: int| 0 <= i < j < t.len() ==> t[i].version < t[j].version,
        forall|e: EnvelopeView| s.contains(e) <==> t.contains(e),
    ensures
        s == t,
{
    runs_agree(s, t, 0);
}

proof fn runs_agree(s: Seq<EnvelopeView>, t: Seq<EnvelopeView>, n: int)
    requires
        forall|i: int, j: int| 0 <= i < j < s.len() ==> s[i].version < s[j].version,
        forall|i: int, j: int| 0 <= i < j < t.len() ==> t[i].version < t[j].version,
        forall|e: EnvelopeView| s.contains(e) <==> t.contains(e),
        0 <= n <= s.len(),
        n <= t.len(),
        forall|i: int| 0 <= i < n ==> s[i] == t[i],
    ensures
        s == t,
    decreases s.len() - n,
{
    if n < s.len() {
        run_head(s, t, n);
        run_head(t, s, n);
        assert(s[n] == t[n]);
        runs_agree(s, t, n + 1);
    } else if n < t.len() {
        run_head(t, s, n);
    } else {
        assert(s =~= t);
    }
}

/// `s[n]` occurs in `t` at or after `n`.
proof fn run_head(s: Seq<EnvelopeView>, t: Seq<EnvelopeView>, n: int)
    requires
        forall|i: int, j: int| 0 <= i < j < s.len() ==> s[i].version < s[j].version,
        forall|i: int, j: int| 0 <= i < j < t.len() ==> t[i].version < t[j].version,
        forall|e: EnvelopeView| s.contains(e) <==> t.contains(e),
        0 <= n < s.len(),
        n <= t.len(),
        forall|i: int| 0 <= i < n ==> s[i] == t[i],
    ensures
        n < t.len(),
        t[n] == s[n] || t[n].version < s[n].version,
{
    assert(s.contains(s[n]));
    let i = choose|i: int| 0 <= i < t.len() && t[i] == s[n];
    if i < n {
        assert(s[i] == s[n]);
        assert(s[i].version < s[n].version);
    }
    if n < i {
        assert(t[n].version < t[i].version);
    }
}

/// Of an orderly stream a scan meets every record that the read can show.
proof fn scan_meets(db: Db, stream: Seq<u8>, lo: nat, hi: Option<nat>, e: EnvelopeView)
    requires
        stored(db, stream, e),
        visible(db, stream, lo, hi, e),
    ensures
        scan_range(db, stream, lo, hi)(r_key_of(stream, e.version as nat)),
{
    record_own(stream, e.version as nat);
}

proof fn selected_exact(
    db: Db,
    stream: Seq<u8>,
    lo: nat,
    hi: Option<nat>,
    rows: Seq<(Seq<u8>, ValueView)>,
    n: int,
)
    requires
        0 <= n <= rows.len(),
        orderly(db, stream),
        forall|i: int, j: int|
            0 <= i < j < rows.len() ==> #[trigger] precedes(
                r_prefix_of(stream),
                rows[i].0,
                rows[j].0,
            ),
        forall|i: int|
            0 <= i < rows.len() ==> db.contains_key((#[trigger] rows[i]).0) && is_own(
                stream,
                rows[i].0,
            ) && db[rows[i].0] == rows[i].1,
    ensures
        ({
            let out = selected(db, stream, lo, hi, rows.take(n));
            &&& forall|i: int, j: int| 0 <= i < j < out.len() ==> out[i].version < out[j].version
            &&& forall|i: int|
                0 <= i < out.len() ==> stored(db, stream, #[trigger] out[i]) && visible(
                    db,
                    stream,
                    lo,
                    hi,
                    out[i],
                )
            &&& forall|i: int|
                0 <= i < n && visible(
                    db,
                    stream,
                    lo,
                    hi,
                    (#[trigger] rows[i]).1->Event_0,
                ) ==> out.contains(rows[i].1->Event_0)
            &&& n < rows.len() ==> forall|i: int|
                0 <= i < out.len() ==> (#[trigger] out[i]).version < rows[n].1->Event_0.version
        }),
    decreases n,
{
    if n == 0 {
        assert(rows.take(0) =~= Seq::empty());
    } else {
        selected_exact(db, stream, lo, hi, rows, n - 1);
        let t = rows.take(n);
        assert(t.drop_last() =~= rows.take(n - 1));
        assert(t.last() == rows[n - 1]);
        let rest = selected(db, stream, lo, hi, rows.take(n - 1));
        let out = selected(db, stream, lo, hi, t);
        let k = rows[n - 1].0;
        assert(db.contains_key(rows[n - 1].0));
        assert(is_record(db, stream, k));
        let e = rows[n - 1].1->Event_0;
        if n < rows.len() {
            let k2 = rows[n].0;
            assert(db.contains_key(rows[n].0));
            assert(is_record(db, stream, k2));
            let e2 = rows[n].1->Event_0;
            assert(precedes(r_prefix_of(stream), rows[n - 1].0, rows[n].0));
            record_own(stream, e.version as nat);
            record_own(stream, e2.version as nat);
        }
        if visible(db, stream, lo, hi, e) {
            assert(out == rest.push(e));
            assert forall|i: int|
                0 <= i < n && visible(
                    db,
                    stream,
                    lo,
                    hi,
                    (#[trigger] rows[i]).1->Event_0,
                ) implies out.contains(rows[i].1->Event_0) by {
                if i < n - 1 {
                    let j = choose|j: int| 0 <= j < rest.len() && rest[j] == rows[i].1->Event_0;
                    assert(out[j] == rest[j]);
                } else {
                    assert(out[rest.len() as int] == e);
                }
            }
            assert(stored(db, stream, e));
        }
    }
}

/// A read of an orderly stream is exact: the stored events of the range that
/// no guard hides, each once, in version order.
pub proof fn read_is_exact(db: Db, stream: Seq<u8>, lo: nat, hi: Option<nat>)
    requires
        db.dom().finite(),
        orderly(db, stream),
    ensures
        readable(db, stream, lo, hi),
        is_read(db, stream, lo, hi, events_of(db, stream, lo, hi)),
{
    let rows = scanned(db, stream, lo, hi);
    let p = scan_range(db, stream, lo, hi);
    numbered_exists(db, r_prefix_of(stream), crate::kv::max(lo, floor_of(db, stream)), hi);
    assert forall|i: int| 0 <= i < rows.len() implies db.contains_key((#[trigger] rows[i]).0)
        && is_own(stream, rows[i].0) && db[rows[i].0] == rows[i].1 by {
        assert(db.contains_key(rows[i].0) && p(rows[i].0));
    }
    assert(all_events(rows)) by {
        assert forall|i: int| 0 <= i < rows.len() implies (#[trigger] rows[i]).1 is Event by {
            assert(db.contains_key(rows[i].0));
            assert(is_record(db, stream, rows[i].0));
        }
    }
    let out = events_of(db, stream, lo, hi);
    if !empty_range(db, stream, lo, hi) {
        selected_exact(db, stream, lo, hi, rows, rows.len() as int);
        assert(rows.take(rows.len() as int) =~= rows);
        assert forall|e: EnvelopeView| #[trigger] stored(db, stream, e) && visible(
            db,
            stream,
            lo,
            hi,
            e,
        ) implies out.contains(e) by {
            scan_meets(db, stream, lo, hi, e);
            let k = r_key_of(stream, e.version as nat);
            assert(db.contains_key(k) && p(k));
            let i = choose|i: int| 0 <= i < rows.len() && #[trigger] rows[i].0 == k;
            assert(rows[i].1->Event_0 == e);
        }
    }
}

/// There is only one read of a range.
pub proof fn read_is_unique(
    db: Db,
    stream: Seq<u8>,
    lo: nat,
    hi: Option<nat>,
    out: Seq<EnvelopeView>,
)
    requires
        db.dom().finite(),
        orderly(db, stream),
        is_read(db, stream, lo, hi, out),
    ensures
        events_of(db, stream, lo, hi) == out,
{
    read_is_exact(db, stream, lo, hi);
    let s = events_of(db, stream, lo, hi);
    assert forall|e: EnvelopeView| s.contains(e) <==> out.contains(e) by {
        if s.contains(e) {
            let i = choose|i: int| 0 <= i < s.len() && s[i] == e;
            assert(stored(db, stream, s[i]));
        }
        if out.contains(e) {
            let i = choose|i: int| 0 <= i < out.len() && out[i] == e;
            assert(stored(db, stream, out[i]));
        }
    }
    runs_unique(s, out);
}

/// A deleted stream shows only what a live fork inherits.
pub proof fn deleted_shows_pinned_only(db: Db, stream: Seq<u8>, lo: nat, hi: Option<nat>, i: int)
    requires
        is_deleted(db, stream),
        0 <= i < events_of(db, stream, lo, hi).len(),
    ensures
        pinned(db, stream, events_of(db, stream, lo, hi)[i].version as nat),
{
    selected_visible(db, stream, lo, hi, scanned(db, stream, lo, hi), i);
}

pub proof fn selected_visible(
    db: Db,
    stream: Seq<u8>,
    lo: nat,
    hi: Option<nat>,
    rows: Seq<(Seq<u8>, ValueView)>,
    i: int,
)
    requires
        0 <= i < selected(db, stream, lo, hi, rows).len(),
    ensures
        visible(db, stream, lo, hi, selected(db, stream, lo, hi, rows)[i]),
    decreases rows.len(),
{
    if rows.len() > 0 {
        let rest = selected(db, stream, lo, hi, rows.drop_last());
        if i < rest.len() {
            selected_visible(db, stream, lo, hi, rows.drop_last(), i);
        }
    }
}

/// A deleted stream that no live fork pins shows nothing.
pub proof fn deleted_goes_dark(db: Db, stream: Seq<u8>, lo: nat, hi: Option<nat>)
    requires
        is_deleted(db, stream),
        forall|k: Seq<u8>| !(#[trigger] live_pin(db, stream, k)),
    ensures
        events_of(db, stream, lo, hi) == Seq::<EnvelopeView>::empty(),
{
    let out = events_of(db, stream, lo, hi);
    if out.len() > 0 {
        deleted_shows_pinned_only(db, stream, lo, hi, 0);
    }
    assert(out =~= Seq::<EnvelopeView>::empty());
}

// ---- what an operation leaves alone ---------------------------------------

/// Whether a key is one that reads of the stream look at.
pub open spec fn is_read_key(stream: Seq<u8>, k: Seq<u8>) -> bool {
    is_own(stream, k) || is_guard_key(stream, k)
}

/// Whether a key guards the reads of the stream.
pub open spec fn is_guard_key(stream: Seq<u8>, k: Seq<u8>) -> bool {
    ||| k == trim_key(stream)
    ||| k == deleted_key(stream)
    ||| is_window_key(stream, k)
}

/// Whether a key is written like a rollback window of the stream.
pub open spec fn is_window_key(stream: Seq<u8>, k: Seq<u8>) -> bool {
    number_of(rollback_prefix(stream), k) is Some
}

/// Both stores hold the same at `k`.
pub open spec fn same_at(a: Db, b: Db, k: Seq<u8>) -> bool {
    a.contains_key(k) == b.contains_key(k) && (a.contains_key(k) ==> a[k] == b[k])
}

/// Both stores say the same of a fork of the stream: whether it is one, and
/// whether it is deleted.
pub open spec fn same_child(a: Db, b: Db, stream: Seq<u8>, c: Seq<u8>) -> bool {
    &&& is_deleted(a, c) == is_deleted(b, c)
    &&& forked_from(a, c, stream) == forked_from(b, c, stream)
}

/// Both stores hold the same live pins on the stream.
pub open spec fn same_pins(a: Db, b: Db, stream: Seq<u8>) -> bool {
    forall|k: Seq<u8>|
        #![trigger live_pin(a, stream, k)]
        #![trigger live_pin(b, stream, k)]
        live_pin(a, stream, k) == live_pin(b, stream, k) && (live_pin(a, stream, k) ==> a[k]
            == b[k])
}

/// Whether a fork of the stream holds its pin at `k`.
pub open spec fn is_pin(db: Db, stream: Seq<u8>, k: Seq<u8>) -> bool {
    has_prefix(k, forks_prefix(stream)) && forked_from(db, pinning(stream, k), stream)
}

/// Both stores hold the same for reads of the stream: its records and what
/// guards them, and the forks that pin it.
pub open spec fn same_reads(a: Db, b: Db, stream: Seq<u8>) -> bool {
    &&& forall|k: Seq<u8>| #[trigger] is_read_key(stream, k) ==> same_at(a, b, k)
    &&& same_pins(a, b, stream)
}

/// Both stores hold the same guards of the stream.
pub open spec fn same_guarded(a: Db, b: Db, stream: Seq<u8>) -> bool {
    &&& forall|k: Seq<u8>| #[trigger] is_guard_key(stream, k) ==> same_at(a, b, k)
    &&& same_pins(a, b, stream)
}

/// A change at a key where no fork of the stream holds its pin changes no pin.
pub proof fn pins_kept(a: Db, b: Db, stream: Seq<u8>, key: Seq<u8>)
    requires
        forall|k: Seq<u8>|
            k != key && #[trigger] has_prefix(k, forks_prefix(stream)) ==> same_at(a, b, k),
        forall|c: Seq<u8>| #[trigger] same_child(a, b, stream, c),
        !is_pin(a, stream, key),
    ensures
        same_pins(a, b, stream),
{
    assert forall|k: Seq<u8>|
        #![trigger live_pin(a, stream, k)]
        #![trigger live_pin(b, stream, k)]
        live_pin(a, stream, k) == live_pin(b, stream, k) && (live_pin(a, stream, k) ==> a[k]
            == b[k]) by {
        assert(same_child(a, b, stream, pinning(stream, k)));
        if k != key && has_prefix(k, forks_prefix(stream)) {
            assert(same_at(a, b, k));
        }
    }
}

/// The guards of a stream are the same in both stores.
pub proof fn same_guards(a: Db, b: Db, stream: Seq<u8>)
    requires
        same_guarded(a, b, stream),
    ensures
        floor_of(a, stream) == floor_of(b, stream),
        is_deleted(a, stream) == is_deleted(b, stream),
        forall|v: nat| pinned(a, stream, v) == pinned(b, stream, v),
        forall|v: nat, q: nat| rolled_back(a, stream, v, q) == rolled_back(b, stream, v, q),
        forall|lo: nat, hi: Option<nat>, e: EnvelopeView|
            visible(a, stream, lo, hi, e) == visible(b, stream, lo, hi, e),
{
    assert(is_guard_key(stream, trim_key(stream)));
    assert(is_guard_key(stream, deleted_key(stream)));
    assert forall|k: Seq<u8>| (#[trigger] is_rollback(a, stream, k)) implies is_rollback(
        b,
        stream,
        k,
    ) && a[k] == b[k] by {
        assert(is_guard_key(stream, k));
    }
    assert forall|k: Seq<u8>| (#[trigger] is_rollback(b, stream, k)) implies is_rollback(
        a,
        stream,
        k,
    ) && a[k] == b[k] by {
        assert(is_guard_key(stream, k));
    }
    assert forall|k: Seq<u8>| (#[trigger] live_pin(a, stream, k)) implies live_pin(b, stream, k)
        && a[k] == b[k] by {}
    assert forall|k: Seq<u8>| (#[trigger] live_pin(b, stream, k)) implies live_pin(a, stream, k)
        && a[k] == b[k] by {}
    assert forall|v: nat| pinned(a, stream, v) == pinned(b, stream, v) by {
        if pinned(a, stream, v) {
            let k = choose|k: Seq<u8>| #[trigger] live_pin(a, stream, k) && v <= number(a[k]);
            assert(live_pin(b, stream, k) && v <= number(b[k]));
        }
        if pinned(b, stream, v) {
            let k = choose|k: Seq<u8>| #[trigger] live_pin(b, stream, k) && v <= number(b[k]);
            assert(live_pin(a, stream, k) && v <= number(a[k]));
        }
    }
    assert forall|v: nat, q: nat| rolled_back(a, stream, v, q) == rolled_back(b, stream, v, q) by {
        if rolled_back(a, stream, v, q) {
            let k = choose|k: Seq<u8>| #[trigger]
                is_rollback(a, stream, k) && v >= rolled_from(stream, k) && q > number(a[k]);
            assert(is_rollback(b, stream, k) && v >= rolled_from(stream, k) && q > number(b[k]));
        }
        if rolled_back(b, stream, v, q) {
            let k = choose|k: Seq<u8>| #[trigger]
                is_rollback(b, stream, k) && v >= rolled_from(stream, k) && q > number(b[k]);
            assert(is_rollback(a, stream, k) && v >= rolled_from(stream, k) && q > number(a[k]));
        }
    }
}

/// A fence guards no read.
pub proof fn fence_keeps_guards(db: Db, s: Seq<u8>, token: Option<Seq<char>>, x: Seq<u8>)
    requires
        !is_pin(db, x, fence_key(s)),
    ensures
        same_guarded(db, fenced(db, s, token), x),
{
    let db2 = fenced(db, s, token);
    fixed_parts();
    assert forall|k: Seq<u8>| #[trigger] is_guard_key(x, k) implies same_at(db, db2, k) by {
        if k == fence_key(s) {
            fields_differ(s, utf8("fence"@), x, utf8("trim"@));
            fields_differ(s, utf8("fence"@), x, utf8("deleted"@));
            field_no_window(s, utf8("fence"@));
        }
    }
    assert forall|c: Seq<u8>| #[trigger] same_child(db, db2, x, c) by {
        fields_differ(s, utf8("fence"@), c, utf8("deleted"@));
        fields_differ(s, utf8("fence"@), c, utf8("fork"@));
    }
    pins_kept(db, db2, x, fence_key(s));
}

/// Two finite maps that agree where a predicate holds have one listing over
/// it.
pub proof fn same_listing<V>(a: Map<Seq<u8>, V>, b: Map<Seq<u8>, V>, p: spec_fn(Seq<u8>) -> bool)
    requires
        a.dom().finite(),
        b.dom().finite(),
        forall|k: Seq<u8>|
            p(k) ==> (#[trigger] a.contains_key(k) == b.contains_key(k)) && (a.contains_key(k)
                ==> a[k] == b[k]),
    ensures
        listing(a, p) == listing(b, p),
{
    listing_exists(a, p);
    let l = listing(a, p);
    assert(is_listing(b, p, l)) by {
        assert forall|i: int| 0 <= i < l.len() implies b.contains_key(#[trigger] l[i].0) && p(
            l[i].0,
        ) && b[l[i].0] == l[i].1 by {
            assert(a.contains_key(l[i].0) && p(l[i].0));
        }
        assert forall|k: Seq<u8>| #[trigger] b.contains_key(k) && p(k) implies exists|i: int|
            0 <= i < l.len() && #[trigger] l[i].0 == k by {
            assert(a.contains_key(k) && p(k));
        }
    }
    listing_unique(b, p, l);
}

/// Stores that hold the same for reads of a stream read the same.
pub proof fn same_reads_read_alike(a: Db, b: Db, stream: Seq<u8>, lo: nat, hi: Option<nat>)
    requires
        a.dom().finite(),
        b.dom().finite(),
        same_reads(a, b, stream),
    ensures
        read_outcome(a, stream, lo, hi) == read_outcome(b, stream, lo, hi),
{
    assert forall|k: Seq<u8>| #[trigger] is_guard_key(stream, k) implies same_at(a, b, k) by {
        assert(is_read_key(stream, k));
    }
    assert forall|k: Seq<u8>| #[trigger] in_scan(a, stream, lo, hi, k) implies same_at(
        a,
        b,
        k,
    ) by {
        assert(is_read_key(stream, k));
    }
    same_scans_read_alike(a, b, stream, lo, hi);
}

/// Whether a read of `[lo, hi)` scans the key.
pub open spec fn in_scan(db: Db, stream: Seq<u8>, lo: nat, hi: Option<nat>, k: Seq<u8>) -> bool {
    scan_range(db, stream, lo, hi)(k)
}

/// A read of a range needs to have read the stream's guards and the records of
/// the range only.
pub proof fn same_scans_read_alike(a: Db, b: Db, stream: Seq<u8>, lo: nat, hi: Option<nat>)
    requires
        a.dom().finite(),
        b.dom().finite(),
        same_guarded(a, b, stream),
        forall|k: Seq<u8>| #[trigger] in_scan(a, stream, lo, hi, k) ==> same_at(a, b, k),
    ensures
        read_outcome(a, stream, lo, hi) == read_outcome(b, stream, lo, hi),
{
    same_guards(a, b, stream);
    let p = scan_range(a, stream, lo, hi);
    let q = scan_range(b, stream, lo, hi);
    assert(p == q);
    assert forall|k: Seq<u8>| p(k) implies (#[trigger] a.contains_key(k) == b.contains_key(k)) && (
    a.contains_key(k) ==> a[k] == b[k]) by {
        assert(in_scan(a, stream, lo, hi, k));
    }
    same_numbered(
        a,
        b,
        r_prefix_of(stream),
        crate::kv::max(lo, floor_of(a, stream)),
        hi,
    );
    selected_alike(a, b, stream, lo, hi, scanned(a, stream, lo, hi));
}

proof fn selected_alike(
    a: Db,
    b: Db,
    stream: Seq<u8>,
    lo: nat,
    hi: Option<nat>,
    rows: Seq<(Seq<u8>, ValueView)>,
)
    requires
        forall|e: EnvelopeView|
            visible(a, stream, lo, hi, e) == visible(b, stream, lo, hi, e),
    ensures
        selected(a, stream, lo, hi, rows) == selected(b, stream, lo, hi, rows),
    decreases rows.len(),
{
    if rows.len() > 0 {
        selected_alike(a, b, stream, lo, hi, rows.drop_last());
    }
}

// ---- appending ------------------------------------------------------------

/// No record of the stream lies past its tail.
pub open spec fn capped(db: Db, stream: Seq<u8>) -> bool {
    forall|e: EnvelopeView| #[trigger]
        stored(db, stream, e) ==> tail_of(db, stream) is Some && e.version <= tail_of(
            db,
            stream,
        )->0.version
}

/// An append that was let through, with a stamp per event.
pub open spec fn goes_in(db: Db, a: AppendView, stamps: Seq<StampView>) -> bool {
    &&& refusal(db, seq_of(db), a) is None
    &&& stamps.len() == a.events.len()
}

/// An append that was let through at the tail.
pub open spec fn lands(db: Db, a: AppendView, stamps: Seq<StampView>) -> bool {
    goes_in(db, a, stamps) && a.from_version is None
}

/// The envelopes of an append.
pub open spec fn batch(db: Db, a: AppendView, stamps: Seq<StampView>) -> Seq<EnvelopeView> {
    Seq::new(a.events.len(), |i: int| envelope_at(db, seq_of(db), a, stamps, i))
}

/// Keys other than those of the batch are untouched by its events.
pub(crate) proof fn written_elsewhere(
    db: Db,
    seq: nat,
    a: AppendView,
    stamps: Seq<StampView>,
    n: int,
    k: Seq<u8>,
)
    requires
        0 <= n <= a.events.len(),
        forall|i: int|
            #![trigger envelope_at(db, seq, a, stamps, i)]
            0 <= i < n ==> k != r_key_of(
                a.stream,
                envelope_at(db, seq, a, stamps, i).version as nat,
            ) && k != ts_key_of(
                a.stream,
                envelope_at(db, seq, a, stamps, i).ts_ms as int,
                envelope_at(db, seq, a, stamps, i).version as nat,
            ),
    ensures
        same_at(db, events_written(db, seq, a, stamps, n), k),
    decreases n,
{
    if n > 0 {
        written_elsewhere(db, seq, a, stamps, n - 1, k);
        let e = envelope_at(db, seq, a, stamps, n - 1);
        assert(k != r_key_of(a.stream, e.version as nat));
    }
}

/// The events of the batch are in place.
pub proof fn written_here(
    db: Db,
    seq: nat,
    a: AppendView,
    stamps: Seq<StampView>,
    n: int,
    i: int,
)
    requires
        0 <= i < n <= a.events.len(),
        first_version(db, a) + a.events.len() <= u64::MAX + 1,
    ensures
        ({
            let e = envelope_at(db, seq, a, stamps, i);
            let w = events_written(db, seq, a, stamps, n);
            let k = r_key_of(a.stream, e.version as nat);
            w.contains_key(k) && w[k] == ValueView::Event(e)
        }),
    decreases n,
{
    let e = envelope_at(db, seq, a, stamps, i);
    let k = r_key_of(a.stream, e.version as nat);
    let last = envelope_at(db, seq, a, stamps, n - 1);
    classes(a.stream, e.version as nat, last.ts_ms as int, Seq::empty());
    classes(a.stream, last.version as nat, last.ts_ms as int, Seq::empty());
    if i < n - 1 {
        written_here(db, seq, a, stamps, n - 1, i);
        record_key_injective(a.stream, e.version as nat, last.version as nat);
    }
}

/// An append touches no metadata but the tail, and no snapshot.
pub proof fn committed_elsewhere(db: Db, a: AppendView, stamps: Seq<StampView>, k: Seq<u8>)
    requires
        k.len() > 0,
        k[0] == 0x6d || k[0] == 0x73,
        k != tail_key(a.stream),
    ensures
        same_at(db, committed(db, a, stamps), k),
{
    let n = a.events.len() as int;
    assert forall|i: int|
        #![trigger envelope_at(db, seq_of(db), a, stamps, i)]
        0 <= i < n implies k != r_key_of(
        a.stream,
        envelope_at(db, seq_of(db), a, stamps, i).version as nat,
    ) && k != ts_key_of(
        a.stream,
        envelope_at(db, seq_of(db), a, stamps, i).ts_ms as int,
        envelope_at(db, seq_of(db), a, stamps, i).version as nat,
    ) by {
        let e = envelope_at(db, seq_of(db), a, stamps, i);
        classes(a.stream, e.version as nat, e.ts_ms as int, Seq::empty());
    }
    written_elsewhere(db, seq_of(db), a, stamps, n, k);
    classes(a.stream, 0, 0, Seq::empty());
}

/// The guards of a stream are left alone.
proof fn append_keeps_guards(db: Db, a: AppendView, stamps: Seq<StampView>, x: Seq<u8>, k: Seq<u8>)
    requires
        is_guard_key(x, k),
    ensures
        same_at(db, committed(db, a, stamps), k),
{
    fixed_parts();
    classes(x, 0, 0, utf8("trim"@));
    classes(x, 0, 0, utf8("deleted"@));
    classes(x, 0, 0, utf8("rollback/"@));
    if k == trim_key(x) {
        fields_differ(a.stream, utf8("tail"@), x, utf8("trim"@));
    } else if k == deleted_key(x) {
        fields_differ(a.stream, utf8("tail"@), x, utf8("deleted"@));
    } else {
        field_no_window(a.stream, utf8("tail"@));
        prefix_class(k, rollback_prefix(x));
    }
    committed_elsewhere(db, a, stamps, k);
}

/// No append marks a stream as deleted or takes the mark away, or makes it a
/// fork.
proof fn append_keeps_deletions(db: Db, a: AppendView, stamps: Seq<StampView>, c: Seq<u8>)
    ensures
        is_deleted(db, c) == is_deleted(committed(db, a, stamps), c),
        forall|x: Seq<u8>| #[trigger] same_child(db, committed(db, a, stamps), x, c),
{
    fixed_parts();
    classes(c, 0, 0, utf8("deleted"@));
    fields_differ(a.stream, utf8("tail"@), c, utf8("deleted"@));
    committed_elsewhere(db, a, stamps, deleted_key(c));
    classes(c, 0, 0, utf8("fork"@));
    fields_differ(a.stream, utf8("tail"@), c, utf8("fork"@));
    committed_elsewhere(db, a, stamps, fork_key(c));
}

/// The pins on a stream are left alone, unless the tail of the appended one is
/// where a fork of it holds its pin.
proof fn append_keeps_pins(db: Db, a: AppendView, stamps: Seq<StampView>, x: Seq<u8>)
    requires
        !is_pin(db, x, tail_key(a.stream)),
    ensures
        same_pins(db, committed(db, a, stamps), x),
{
    let db2 = committed(db, a, stamps);
    classes(x, 0, 0, utf8("forks/"@));
    assert forall|k: Seq<u8>| k != tail_key(a.stream) && #[trigger] has_prefix(
        k,
        forks_prefix(x),
    ) implies same_at(db, db2, k) by {
        prefix_class(k, forks_prefix(x));
        committed_elsewhere(db, a, stamps, k);
    }
    assert forall|c: Seq<u8>| #[trigger] same_child(db, db2, x, c) by {
        append_keeps_deletions(db, a, stamps, c);
    }
    pins_kept(db, db2, x, tail_key(a.stream));
}

/// Deletion is terminal: whatever is appended, a deleted stream stays deleted,
/// and where it has a tail an append that expects no stream is refused.
pub proof fn deletion_is_terminal(db: Db, a: AppendView, stamps: Seq<StampView>, stream: Seq<u8>)
    requires
        is_deleted(db, stream),
    ensures
        is_deleted(committed(db, a, stamps), stream),
        a.stream == stream && a.expected is NoStream && tail_of(db, stream) is Some ==> refusal(
            db,
            seq_of(db),
            a,
        ) is Some,
{
    append_keeps_deletions(db, a, stamps, stream);
}

/// A committed append leaves the reads of every other stream as they were
/// (unless its tail is where a fork of that one holds its pin).
pub proof fn append_leaves_others(db: Db, a: AppendView, stamps: Seq<StampView>, x: Seq<u8>)
    requires
        goes_in(db, a, stamps),
        x != a.stream,
        !is_pin(db, x, tail_key(a.stream)),
    ensures
        same_reads(db, committed(db, a, stamps), x),
{
    let db2 = committed(db, a, stamps);
    assert forall|k: Seq<u8>| #[trigger] is_read_key(x, k) implies same_at(db, db2, k) by {
        if has_prefix(k, r_prefix_of(x)) {
            classes(x, 0, 0, Seq::empty());
            prefix_class(k, r_prefix_of(x));
            record_elsewhere(db, a, stamps, x, k);
        } else {
            append_keeps_guards(db, a, stamps, x, k);
        }
    }
    append_keeps_pins(db, a, stamps, x);
}

pub proof fn record_elsewhere(db: Db, a: AppendView, stamps: Seq<StampView>, x: Seq<u8>, k: Seq<u8>)
    requires
        goes_in(db, a, stamps),
        x != a.stream,
        is_own(x, k),
        k.len() > 0,
        k[0] == 0x72,
    ensures
        same_at(db, committed(db, a, stamps), k),
{
    let n = a.events.len() as int;
    assert forall|i: int|
        #![trigger envelope_at(db, seq_of(db), a, stamps, i)]
        0 <= i < n implies k != r_key_of(
        a.stream,
        envelope_at(db, seq_of(db), a, stamps, i).version as nat,
    ) && k != ts_key_of(
        a.stream,
        envelope_at(db, seq_of(db), a, stamps, i).ts_ms as int,
        envelope_at(db, seq_of(db), a, stamps, i).version as nat,
    ) by {
        let e = envelope_at(db, seq_of(db), a, stamps, i);
        classes(a.stream, e.version as nat, e.ts_ms as int, Seq::empty());
        if k == r_key_of(a.stream, e.version as nat) {
            record_under(a.stream, e.version as nat, x);
        }
    }
    written_elsewhere(db, seq_of(db), a, stamps, n, k);
    classes(a.stream, 0, 0, utf8("tail"@));
}

/// Where the stream's own records stand after an append.
pub proof fn append_records(db: Db, a: AppendView, stamps: Seq<StampView>, k: Seq<u8>)
    requires
        goes_in(db, a, stamps),
        has_prefix(k, r_prefix_of(a.stream)),
    ensures
        ({
            let db2 = committed(db, a, stamps);
            same_at(db, db2, k) || exists|i: int|
                0 <= i < a.events.len() && k == r_key_of(
                    a.stream,
                    (#[trigger] batch(db, a, stamps)[i]).version as nat,
                ) && db2.contains_key(k) && db2[k] == ValueView::Event(batch(db, a, stamps)[i])
        }),
{
    let db2 = committed(db, a, stamps);
    let n = a.events.len() as int;
    let b = batch(db, a, stamps);
    classes(a.stream, 0, 0, utf8("tail"@));
    prefix_class(k, r_prefix_of(a.stream));
    if exists|i: int| 0 <= i < n && k == r_key_of(a.stream, (#[trigger] b[i]).version as nat) {
        let i = choose|i: int|
            0 <= i < n && k == r_key_of(a.stream, (#[trigger] b[i]).version as nat);
        written_here(db, seq_of(db), a, stamps, n, i);
        assert(db2.contains_key(k) && db2[k] == ValueView::Event(b[i]));
    } else {
        assert forall|i: int|
            #![trigger envelope_at(db, seq_of(db), a, stamps, i)]
            0 <= i < n implies k != r_key_of(
            a.stream,
            envelope_at(db, seq_of(db), a, stamps, i).version as nat,
        ) && k != ts_key_of(
            a.stream,
            envelope_at(db, seq_of(db), a, stamps, i).ts_ms as int,
            envelope_at(db, seq_of(db), a, stamps, i).version as nat,
        ) by {
            let e = envelope_at(db, seq_of(db), a, stamps, i);
            assert(b[i] == e);
            classes(a.stream, e.version as nat, e.ts_ms as int, Seq::empty());
        }
        written_elsewhere(db, seq_of(db), a, stamps, n, k);
    }
}

/// The versions of a batch follow the tail without a gap, its sequences follow
/// the counter without a gap, and its times never go back.
pub proof fn batch_is_contiguous(db: Db, a: AppendView, stamps: Seq<StampView>)
    requires
        goes_in(db, a, stamps),
    ensures
        ({
            let b = batch(db, a, stamps);
            let info = append_info(db, seq_of(db), a);
            &&& forall|i: int|
                0 <= i < b.len() ==> (#[trigger] b[i]).version == info.first_version + i
                    && b[i].seq == info.start_sequence + i && b[i].ts_ms >= tail_ts(db, a.stream)
            &&& forall|i: int, j: int| 0 <= i < j < b.len() ==> b[i].ts_ms <= b[j].ts_ms
            &&& info.last_version == info.first_version + a.events.len() - 1
            &&& a.from_version is None && current_version(db, a.stream) is None
                ==> info.first_version == 0
        }),
{
    let b = batch(db, a, stamps);
    let start = tail_ts(db, a.stream);
    assert forall|i: int| 0 <= i < b.len() implies (#[trigger] b[i]).ts_ms >= start by {
        times_grow(start, stamps, -1, i);
    }
    assert forall|i: int, j: int| 0 <= i < j < b.len() implies b[i].ts_ms <= b[j].ts_ms by {
        times_grow(start, stamps, i, j);
    }
}

proof fn times_grow(start: i64, stamps: Seq<StampView>, i: int, j: int)
    requires
        -1 <= i <= j,
    ensures
        ts_at(start, stamps, i) <= ts_at(start, stamps, j),
    decreases j - i,
{
    if i < j {
        times_grow(start, stamps, i, j - 1);
    }
}

/// An append keeps the stream in order and its tail at the end.
pub proof fn append_keeps_order(db: Db, a: AppendView, stamps: Seq<StampView>)
    requires
        goes_in(db, a, stamps),
        orderly(db, a.stream),
        capped(db, a.stream),
    ensures
        orderly(committed(db, a, stamps), a.stream),
        capped(committed(db, a, stamps), a.stream),
        tail_of(committed(db, a, stamps), a.stream) == Some(new_tail(db, a, stamps)),
        lands(db, a, stamps) ==> new_tail(db, a, stamps).version == append_info(
            db,
            seq_of(db),
            a,
        ).last_version,
{
    let db2 = committed(db, a, stamps);
    let s = a.stream;
    let b = batch(db, a, stamps);
    fixed_parts();
    classes(s, 0, 0, utf8("tail"@));
    assert(tail_of(db2, s) == Some(new_tail(db, a, stamps)));
    assert forall|k: Seq<u8>| #[trigger] db2.contains_key(k) && is_own(
        s,
        k,
    ) implies is_record(db2, s, k) by {
        append_records(db, a, stamps, k);
        if same_at(db, db2, k) {
            assert(db.contains_key(k));
            assert(is_record(db, s, k));
        }
    }
    assert forall|e: EnvelopeView| #[trigger] stored(db2, s, e) implies e.version <= new_tail(
        db,
        a,
        stamps,
    ).version by {
        let k = r_key_of(s, e.version as nat);
        record_own(s, e.version as nat);
        append_records(db, a, stamps, k);
        if same_at(db, db2, k) {
            assert(stored(db, s, e));
        }
    }
    assert forall|k: Seq<u8>| (#[trigger] is_rollback(db, s, k)) == is_rollback(db2, s, k) by {
        if is_window_key(s, k) {
            append_keeps_guards(db, a, stamps, s, k);
        }
    }
}

/// Appending hides and shows nothing: each event is as visible as it was.
proof fn append_keeps_visibility(
    db: Db,
    a: AppendView,
    stamps: Seq<StampView>,
    lo: nat,
    hi: Option<nat>,
    e: EnvelopeView,
)
    ensures
        visible(db, a.stream, lo, hi, e) == visible(committed(db, a, stamps), a.stream, lo, hi, e),
{
    let db2 = committed(db, a, stamps);
    let s = a.stream;
    // The guards do not depend on the records, so compare them on stores that
    // share their guards.
    fixed_parts();
    own_field_no_pin(s, utf8("tail"@));
    append_keeps_pins(db, a, stamps, s);
    append_keeps_guards(db, a, stamps, s, trim_key(s));
    append_keeps_deletions(db, a, stamps, s);
    let v = e.version as nat;
    let q = e.seq as nat;
    if pinned(db, s, v) {
        let k = choose|k: Seq<u8>| #[trigger] live_pin(db, s, k) && v <= number(db[k]);
        assert(live_pin(db2, s, k) && v <= number(db2[k]));
    }
    if pinned(db2, s, v) {
        let k = choose|k: Seq<u8>| #[trigger] live_pin(db2, s, k) && v <= number(db2[k]);
        assert(live_pin(db, s, k) && v <= number(db[k]));
    }
    if rolled_back(db, s, v, q) {
        let k = choose|k: Seq<u8>| #[trigger]
            is_rollback(db, s, k) && v >= rolled_from(s, k) && q > number(db[k]);
        append_keeps_guards(db, a, stamps, s, k);
        assert(is_rollback(db2, s, k) && v >= rolled_from(s, k) && q > number(db2[k]));
    }
    if rolled_back(db2, s, v, q) {
        let k = choose|k: Seq<u8>| #[trigger]
            is_rollback(db2, s, k) && v >= rolled_from(s, k) && q > number(db2[k]);
        append_keeps_guards(db, a, stamps, s, k);
        assert(is_rollback(db, s, k) && v >= rolled_from(s, k) && q > number(db[k]));
    }
}

/// What was appended is read back: a read from `lo` on gives what it gave
/// before, followed by the batch. (The batch must be visible at all: not in a
/// rollback window, not on a deleted stream, not below the trim floor.)
pub proof fn append_is_read_back(db: Db, a: AppendView, stamps: Seq<StampView>, lo: nat)
    requires
        db.dom().finite(),
        lands(db, a, stamps),
        orderly(db, a.stream),
        capped(db, a.stream),
        forall|i: int|
            0 <= i < a.events.len() ==> visible(
                db,
                a.stream,
                lo,
                None,
                #[trigger] batch(db, a, stamps)[i],
            ),
    ensures
        read_outcome(committed(db, a, stamps), a.stream, lo, None) == Ok::<
            Seq<EnvelopeView>,
            Fault,
        >(events_of(db, a.stream, lo, None) + batch(db, a, stamps)),
{
    let db2 = committed(db, a, stamps);
    let s = a.stream;
    let b = batch(db, a, stamps);
    let old_events = events_of(db, s, lo, None);
    append_keeps_order(db, a, stamps);
    committed_finite(db, a, stamps);
    read_is_exact(db, s, lo, None);
    let out = old_events + b;
    batch_is_contiguous(db, a, stamps);
    let first = first_version(db, a);
    assert forall|i: int| 0 <= i < old_events.len() implies (#[trigger] old_events[i]).version
        < first by {
        assert(stored(db, s, old_events[i]));
    }
    assert forall|i: int| 0 <= i < out.len() implies stored(db2, s, #[trigger] out[i]) && visible(
        db2,
        s,
        lo,
        None,
        out[i],
    ) by {
        append_keeps_visibility(db, a, stamps, lo, None, out[i]);
        let k = r_key_of(s, out[i].version as nat);
        record_own(s, out[i].version as nat);
        append_records(db, a, stamps, k);
        if i < old_events.len() {
            assert(stored(db, s, old_events[i]));
            if !same_at(db, db2, k) {
                let j = choose|j: int|
                    0 <= j < a.events.len() && k == r_key_of(
                        s,
                        (#[trigger] b[j]).version as nat,
                    ) && db2.contains_key(k) && db2[k] == ValueView::Event(b[j]);
                record_key_injective(s, out[i].version as nat, b[j].version as nat);
            }
        } else {
            let j = i - old_events.len();
            assert(out[i] == b[j]);
            written_here(db, seq_of(db), a, stamps, a.events.len() as int, j);
            classes(s, out[i].version as nat, 0, utf8("tail"@));
        }
    }
    assert forall|e: EnvelopeView| #[trigger] stored(db2, s, e) && visible(
        db2,
        s,
        lo,
        None,
        e,
    ) implies out.contains(e) by {
        append_keeps_visibility(db, a, stamps, lo, None, e);
        let k = r_key_of(s, e.version as nat);
        record_own(s, e.version as nat);
        append_records(db, a, stamps, k);
        if same_at(db, db2, k) {
            assert(stored(db, s, e));
            let i = choose|i: int| 0 <= i < old_events.len() && old_events[i] == e;
            assert(out[i] == e);
        } else {
            let j = choose|j: int|
                0 <= j < a.events.len() && k == r_key_of(s, (#[trigger] b[j]).version as nat)
                    && db2.contains_key(k) && db2[k] == ValueView::Event(b[j]);
            assert(out[old_events.len() + j] == e);
        }
    }
    assert forall|i: int, j: int| 0 <= i < j < out.len() implies out[i].version
        < out[j].version by {
        if j >= old_events.len() {
            assert(out[j] == b[j - old_events.len()]);
            if i >= old_events.len() {
                assert(out[i] == b[i - old_events.len()]);
            } else {
                assert(out[i] == old_events[i]);
            }
        }
    }
    read_is_unique(db2, s, lo, None, out);
    read_is_exact(db2, s, lo, None);
}

/// On a stream that is neither deleted nor rolled back, with its trim floor
/// within the history, every append is read back.
pub proof fn append_to_live_stream(db: Db, a: AppendView, stamps: Seq<StampView>, lo: nat)
    requires
        db.dom().finite(),
        lands(db, a, stamps),
        orderly(db, a.stream),
        capped(db, a.stream),
        !is_deleted(db, a.stream),
        forall|k: Seq<u8>| !(#[trigger] is_rollback(db, a.stream, k)),
        floor_of(db, a.stream) <= first_version(db, a),
        lo <= first_version(db, a),
    ensures
        read_outcome(committed(db, a, stamps), a.stream, lo, None) == Ok::<
            Seq<EnvelopeView>,
            Fault,
        >(events_of(db, a.stream, lo, None) + batch(db, a, stamps)),
{
    batch_is_contiguous(db, a, stamps);
    append_is_read_back(db, a, stamps, lo);
}

/// A batch that landed under a condition does not land again: the retry finds
/// the stream elsewhere.
pub proof fn retry_conflicts(db: Db, a: AppendView, stamps: Seq<StampView>, seq: nat)
    requires
        lands(db, a, stamps),
        a.expected != ExpectedVersion::Any,
    ensures
        refusal(committed(db, a, stamps), seq, a) == Some(Refusal::Conflict),
{
    let db2 = committed(db, a, stamps);
    let s = a.stream;
    fixed_parts();
    classes(s, 0, 0, utf8("tail"@));
    classes(s, 0, 0, utf8("fence"@));
    assert(tail_of(db2, s) == Some(new_tail(db, a, stamps)));
    fields_differ(s, utf8("tail"@), s, utf8("fence"@));
    committed_elsewhere(db, a, stamps, crate::store::fence_key(s));
}

pub proof fn committed_finite(db: Db, a: AppendView, stamps: Seq<StampView>)
    requires
        db.dom().finite(),
    ensures
        committed(db, a, stamps).dom().finite(),
{
    written_finite(db, seq_of(db), a, stamps, a.events.len() as int);
}

proof fn written_finite(db: Db, seq: nat, a: AppendView, stamps: Seq<StampView>, n: int)
    requires
        db.dom().finite(),
    ensures
        events_written(db, seq, a, stamps, n).dom().finite(),
    decreases n,
{
    if n > 0 {
        written_finite(db, seq, a, stamps, n - 1);
    }
}

/// Reads below the first version of an append are as they were before it.
pub proof fn append_prefix_alike(
    db: Db,
    a: AppendView,
    stamps: Seq<StampView>,
    lo: nat,
    hi: nat,
)
    requires
        db.dom().finite(),
        goes_in(db, a, stamps),
        orderly(db, a.stream),
        capped(db, a.stream),
        hi <= first_version(db, a),
    ensures
        read_outcome(db, a.stream, lo, Some(hi)) == read_outcome(
            committed(db, a, stamps),
            a.stream,
            lo,
            Some(hi),
        ),
{
    let db2 = committed(db, a, stamps);
    let s = a.stream;
    let b = batch(db, a, stamps);
    append_keeps_order(db, a, stamps);
    committed_finite(db, a, stamps);
    batch_is_contiguous(db, a, stamps);
    read_is_exact(db, s, lo, Some(hi));
    read_is_exact(db2, s, lo, Some(hi));
    let out = events_of(db, s, lo, Some(hi));
    assert forall|e: EnvelopeView| e.version < hi implies stored(db, s, e) == #[trigger] stored(
        db2,
        s,
        e,
    ) by {
        let k = r_key_of(s, e.version as nat);
        record_own(s, e.version as nat);
        append_records(db, a, stamps, k);
        if !same_at(db, db2, k) {
            let j = choose|j: int|
                0 <= j < a.events.len() && k == r_key_of(s, (#[trigger] b[j]).version as nat)
                    && db2.contains_key(k) && db2[k] == ValueView::Event(b[j]);
            record_key_injective(s, e.version as nat, b[j].version as nat);
        }
    }
    assert forall|i: int| 0 <= i < out.len() implies stored(db2, s, #[trigger] out[i]) && visible(
        db2,
        s,
        lo,
        Some(hi),
        out[i],
    ) by {
        assert(stored(db, s, out[i]));
        append_keeps_visibility(db, a, stamps, lo, Some(hi), out[i]);
        assert(stored(db2, s, out[i]));
    }
    assert forall|e: EnvelopeView| #[trigger] stored(db2, s, e) && visible(
        db2,
        s,
        lo,
        Some(hi),
        e,
    ) implies out.contains(e) by {
        append_keeps_visibility(db, a, stamps, lo, Some(hi), e);
        assert(stored(db, s, e));
    }
    read_is_unique(db2, s, lo, Some(hi), out);
}

/// An append at given versions replaces what stood there: the last write wins,
/// and the events around it are as they were.
pub proof fn append_at_replaces(db: Db, a: AppendView, stamps: Seq<StampView>, lo: nat)
    requires
        db.dom().finite(),
        goes_in(db, a, stamps),
        orderly(db, a.stream),
        capped(db, a.stream),
        lo <= first_version(db, a),
        forall|i: int|
            0 <= i < a.events.len() ==> visible(
                db,
                a.stream,
                lo,
                None,
                #[trigger] batch(db, a, stamps)[i],
            ),
    ensures
        ({
            let first = first_version(db, a);
            read_outcome(committed(db, a, stamps), a.stream, lo, None) == Ok::<
                Seq<EnvelopeView>,
                Fault,
            >(
                events_of(db, a.stream, lo, Some(first)) + batch(db, a, stamps) + events_of(
                    db,
                    a.stream,
                    first + a.events.len(),
                    None,
                ),
            )
        }),
{
    let db2 = committed(db, a, stamps);
    let s = a.stream;
    let b = batch(db, a, stamps);
    let first = first_version(db, a);
    let end = first + a.events.len();
    append_keeps_order(db, a, stamps);
    committed_finite(db, a, stamps);
    batch_is_contiguous(db, a, stamps);
    read_is_exact(db, s, lo, Some(first));
    read_is_exact(db, s, end, None);
    let x = events_of(db, s, lo, Some(first));
    let y = events_of(db, s, end, None);
    let out = x + b + y;
    assert forall|e: EnvelopeView| e.version < first || e.version >= end implies stored(db, s, e)
        == #[trigger] stored(db2, s, e) by {
        let k = r_key_of(s, e.version as nat);
        record_own(s, e.version as nat);
        append_records(db, a, stamps, k);
        if !same_at(db, db2, k) {
            let j = choose|j: int|
                0 <= j < a.events.len() && k == r_key_of(s, (#[trigger] b[j]).version as nat)
                    && db2.contains_key(k) && db2[k] == ValueView::Event(b[j]);
            record_key_injective(s, e.version as nat, b[j].version as nat);
        }
    }
    assert forall|i: int| 0 <= i < b.len() implies stored(db2, s, #[trigger] b[i]) by {
        written_here(db, seq_of(db), a, stamps, a.events.len() as int, i);
        classes(s, b[i].version as nat, 0, utf8("tail"@));
    }
    assert forall|i: int| 0 <= i < out.len() implies stored(db2, s, #[trigger] out[i]) && visible(
        db2,
        s,
        lo,
        None,
        out[i],
    ) by {
        append_keeps_visibility(db, a, stamps, lo, None, out[i]);
        if i < x.len() {
            assert(stored(db, s, x[i]));
            assert(stored(db2, s, x[i]));
        } else if i < x.len() + b.len() {
            assert(stored(db2, s, b[i - x.len()]));
        } else {
            assert(stored(db, s, y[i - x.len() - b.len()]));
            assert(stored(db2, s, y[i - x.len() - b.len()]));
        }
    }
    assert forall|e: EnvelopeView| #[trigger] stored(db2, s, e) && visible(
        db2,
        s,
        lo,
        None,
        e,
    ) implies out.contains(e) by {
        append_keeps_visibility(db, a, stamps, lo, None, e);
        if e.version < first {
            assert(stored(db, s, e));
            assert(visible(db, s, lo, Some(first), e));
            let i = choose|i: int| 0 <= i < x.len() && x[i] == e;
            assert(out[i] == e);
        } else if e.version < end {
            let i = e.version - first;
            assert(stored(db2, s, b[i]));
            assert(out[x.len() + i] == e);
        } else {
            assert(stored(db, s, e));
            assert(visible(db, s, end, None, e));
            let i = choose|i: int| 0 <= i < y.len() && y[i] == e;
            assert(out[x.len() + b.len() + i] == e);
        }
    }
    assert forall|i: int, j: int| 0 <= i < j < out.len() implies out[i].version
        < out[j].version by {
        replaced_order(x, b, y, first, end, i, j);
    }
    read_is_exact(db2, s, lo, None);
    read_is_unique(db2, s, lo, None, out);
}

/// Every append that is accepted is read back, at whatever version it starts:
/// on a stream that is neither deleted, rolled back nor trimmed, a read gives
/// the batch at its versions and what it gave before at all others, and the
/// tail is the higher of the old one and the batch's last version.
pub proof fn accepted_is_read_back(db: Db, a: AppendView, stamps: Seq<StampView>)
    requires
        db.dom().finite(),
        refusal(db, seq_of(db), a) is None,
        stamps.len() == a.events.len(),
        orderly(db, a.stream),
        capped(db, a.stream),
        !is_deleted(db, a.stream),
        forall|k: Seq<u8>| !(#[trigger] is_rollback(db, a.stream, k)),
        floor_of(db, a.stream) == 0,
    ensures
        ({
            let db2 = committed(db, a, stamps);
            let info = append_info(db, seq_of(db), a);
            let first = info.first_version as nat;
            let last = info.last_version as nat;
            &&& a.from_version is Some ==> first == a.from_version->0
            &&& last == first + a.events.len() - 1
            &&& read_outcome(db2, a.stream, 0, None) == Ok::<Seq<EnvelopeView>, Fault>(
                events_of(db, a.stream, 0, Some(first)) + batch(db, a, stamps) + events_of(
                    db,
                    a.stream,
                    last + 1,
                    None,
                ),
            )
            &&& tail_of(db2, a.stream) is Some
            &&& tail_of(db2, a.stream)->0.version == (match current_version(db, a.stream) {
                Some(c) => if c < last {
                    last as u64
                } else {
                    c
                },
                None => last as u64,
            })
        }),
{
    batch_is_contiguous(db, a, stamps);
    append_keeps_order(db, a, stamps);
    append_at_replaces(db, a, stamps, 0);
}

proof fn replaced_order(
    x: Seq<EnvelopeView>,
    b: Seq<EnvelopeView>,
    y: Seq<EnvelopeView>,
    first: nat,
    end: nat,
    i: int,
    j: int,
)
    requires
        forall|i: int, j: int| 0 <= i < j < x.len() ==> x[i].version < x[j].version,
        forall|i: int, j: int| 0 <= i < j < y.len() ==> y[i].version < y[j].version,
        forall|i: int| 0 <= i < b.len() ==> (#[trigger] b[i]).version == first + i,
        end == first + b.len(),
        forall|i: int| 0 <= i < x.len() ==> (#[trigger] x[i]).version < first,
        forall|i: int| 0 <= i < y.len() ==> (#[trigger] y[i]).version >= end,
        0 <= i < j < (x + b + y).len(),
    ensures
        (x + b + y)[i].version < (x + b + y)[j].version,
{
    let out = x + b + y;
    if i < x.len() {
        assert(out[i] == x[i]);
        assert(x[i].version < first);
    } else if i < x.len() + b.len() {
        assert(out[i] == b[i - x.len()]);
    } else {
        assert(out[i] == y[i - x.len() - b.len()]);
    }
    if j < x.len() {
        assert(out[j] == x[j]);
    } else if j < x.len() + b.len() {
        assert(out[j] == b[j - x.len()]);
    } else {
        assert(out[j] == y[j - x.len() - b.len()]);
    }
}

} // verus!

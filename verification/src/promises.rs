//! What the store promises of several calls together.
use vstd::prelude::*;
use vstd::string::*;

use crate::aggregate::{fold_from, Aggregate};
use crate::branches::{chain_alike, fork_is_pinned, history_alike, holds_pin, reach};
use crate::digits::be8_roundtrip;
use crate::envelope::{EnvelopeView, StampView, Version};
use crate::error::Error;
use crate::folds::{history_is_increasing, history_splits, publish_adds_one, through};
use crate::fork::{history, history_of, lemma_shrinks, no_versions, own_outcome, parent_end};
use crate::kv::{
    compactions_prefix, deleted_key, fork_key, fork_of, forks_field, forks_prefix, has_good_fork,
    is_deleted, m_key_of, max, r_prefix_of, read_outcome, rollback_prefix, seq_key, snap_prefix_of,
    tail_key, tail_of, trim_key, visible, Db, ValueView,
};
use crate::layout::{
    classes, fields_differ, fixed_parts, own_field_no_pin, prefix_class, store_parts,
};
use crate::numbered::{number_of, same_numbered};
use crate::order::{has_prefix, lemma_prefix_of_concat};
use crate::snapshot::{CompactionView, SnapshotView};
use crate::store::compaction::{
    compactions, published, record_of, snap_key_of, snap_range, snapshot_of, snapshot_readable,
    snapshots,
};
use crate::store::reads::{last_version, rehydrate_outcome};
use crate::store::retention::forked;
use crate::store::{committed, first_version, seq_of, AppendView};
use crate::stream::{
    append_leaves_others, append_prefix_alike, committed_elsewhere, committed_finite, is_pin,
    is_read_key, pins_kept, read_is_exact, same_at, same_child, same_reads, same_reads_read_alike,
    stored,
};
use crate::text::utf8;
use crate::upkeep::{
    admitted, append_keeps_sound, fork_keeps_sound, grounded, pin_at, publish_keeps_sound,
    rehydrate_is_fold, snap_under, snapshot_true, sound, sound_chain, sound_publish, stream_ok,
    tail_is_no_pin, Step,
};

verus! {

// ---- publications ---------------------------------------------------------

/// A publication touches no record, no metadata and no index.
proof fn published_elsewhere(
    db: Db,
    s: Seq<u8>,
    record: CompactionView,
    state: Seq<u8>,
    id: Seq<char>,
    k: Seq<u8>,
)
    requires
        k.len() > 0,
        k[0] == 0x72 || k[0] == 0x6d || k[0] == 0x69,
    ensures
        same_at(db, published(db, s, record, state, id), k),
{
    let new = snap_key_of(s, seq_of(db) + 1);
    store_parts();
    classes(s, 0, 0, Seq::empty());
    assert(new[0] == snap_prefix_of(s)[0]);
    assert((compactions_prefix() + utf8(id))[0] == compactions_prefix()[0]);
}

/// A publication changes no read and no fork.
proof fn published_reads(
    db: Db,
    s: Seq<u8>,
    record: CompactionView,
    state: Seq<u8>,
    id: Seq<char>,
    x: Seq<u8>,
)
    ensures
        same_reads(db, published(db, s, record, state, id), x),
        same_at(db, published(db, s, record, state, id), fork_key(x)),
        same_at(db, published(db, s, record, state, id), tail_key(x)),
{
    let db2 = published(db, s, record, state, id);
    classes(x, 0, 0, utf8("trim"@));
    classes(x, 0, 0, utf8("deleted"@));
    classes(x, 0, 0, utf8("forks/"@));
    classes(x, 0, 0, utf8("rollback/"@));
    classes(x, 0, 0, utf8("fork"@));
    classes(x, 0, 0, utf8("tail"@));
    store_parts();
    assert forall|k: Seq<u8>| #[trigger] is_read_key(x, k) implies same_at(db, db2, k) by {
        if number_of(r_prefix_of(x), k) is Some {
            prefix_class(k, r_prefix_of(x));
        } else if k == trim_key(x) || k == deleted_key(x) {
        } else {
            prefix_class(k, rollback_prefix(x));
        }
        published_elsewhere(db, s, record, state, id, k);
    }
    assert forall|k: Seq<u8>| #[trigger] has_prefix(k, forks_prefix(x)) implies same_at(
        db,
        db2,
        k,
    ) by {
        prefix_class(k, forks_prefix(x));
        published_elsewhere(db, s, record, state, id, k);
    }
    assert forall|c: Seq<u8>| #[trigger] same_child(db, db2, x, c) by {
        classes(c, 0, 0, utf8("deleted"@));
        classes(c, 0, 0, utf8("fork"@));
        published_elsewhere(db, s, record, state, id, deleted_key(c));
        published_elsewhere(db, s, record, state, id, fork_key(c));
    }
    assert(!is_pin(db, x, seq_key())) by {
        if has_prefix(seq_key(), forks_prefix(x)) {
            prefix_class(seq_key(), forks_prefix(x));
        }
    }
    pins_kept(db, db2, x, seq_key());
    published_elsewhere(db, s, record, state, id, fork_key(x));
    published_elsewhere(db, s, record, state, id, tail_key(x));
}

/// Stores that read alike everywhere, with the same forks, have the same
/// histories.
proof fn history_same(
    a: Db,
    b: Db,
    s: Seq<u8>,
    seen: Set<Seq<u8>>,
    lo: nat,
    hi: Option<nat>,
)
    requires
        a.dom().finite(),
        b.dom().finite(),
        forall|x: Seq<u8>| #[trigger] same_reads(a, b, x),
        forall|x: Seq<u8>| same_at(a, b, #[trigger] fork_key(x)),
    ensures
        history(a, s, seen, lo, hi) == history(b, s, seen, lo, hi),
    decreases a.dom().difference(seen).len(),
{
    let k = fork_key(s);
    assert(same_at(a, b, k));
    assert(same_reads(a, b, s));
    if !no_versions(lo, hi) && !seen.contains(k) && has_good_fork(a, s) {
        if a.contains_key(k) {
            let f = a[k]->Fork_0;
            let end = parent_end(f.at_version, hi);
            same_reads_read_alike(a, b, s, max(lo, f.at_version as nat + 1), hi);
            if !no_versions(lo, end) {
                lemma_shrinks(a.dom(), seen, k);
                history_same(a, b, utf8(f.stream), seen.insert(k), lo, end);
            }
        } else {
            same_reads_read_alike(a, b, s, lo, hi);
        }
    }
}

/// What a publication does, and all that it does: the snapshot is the stream's
/// latest, byte for byte and whatever an earlier one covered; the compaction
/// records are those there were and this one; reads, histories, tails and the
/// snapshots of other streams stay as they were.
pub proof fn publish_is_exact(
    db: Db,
    names: Set<Seq<u8>>,
    s: Seq<u8>,
    record: CompactionView,
    state: Seq<u8>,
    id: Seq<char>,
)
    requires
        sound(db, names),
        names.contains(s),
        seq_of(db) < u64::MAX,
        !db.contains_key(compactions_prefix() + utf8(id)),
    ensures
        ({
            let db2 = published(db, s, record, state, id);
            &&& snapshot_readable(db2, s)
            &&& snapshot_of(db2, s) == Some(
                SnapshotView {
                    through_version: record.through_version,
                    ts_ms: record.ts_ms,
                    state,
                },
            )
            &&& exists|i: int|
                0 <= i <= compactions(db).len() && compactions(db2) == #[trigger] compactions(
                    db,
                ).insert(i, (compactions_prefix() + utf8(id), ValueView::Compaction(record)))
            &&& forall|x: Seq<u8>| tail_of(db2, x) == #[trigger] tail_of(db, x)
            &&& forall|x: Seq<u8>, lo: nat, hi: Option<nat>| #[trigger]
                read_outcome(db2, x, lo, hi) == read_outcome(db, x, lo, hi)
            &&& forall|x: Seq<u8>, lo: nat, hi: Option<nat>| #[trigger]
                history_of(db2, x, lo, hi) == history_of(db, x, lo, hi)
            &&& forall|x: Seq<u8>| x != s ==> #[trigger] snapshots(db2, x) == snapshots(db, x)
        }),
{
    let db2 = published(db, s, record, state, id);
    sound_publish(db, names, s, record, state, id);
    publish_adds_one(db, s, record, state, id);
    published_histories(db, s, record, state, id);
    assert forall|x: Seq<u8>, lo: nat, hi: Option<nat>| #[trigger]
        read_outcome(db2, x, lo, hi) == read_outcome(db, x, lo, hi) by {
        published_reads(db, s, record, state, id, x);
        same_reads_read_alike(db, db2, x, lo, hi);
    }
    assert forall|x: Seq<u8>| tail_of(db2, x) == #[trigger] tail_of(db, x) by {
        published_reads(db, s, record, state, id, x);
    }
    assert forall|x: Seq<u8>| x != s implies #[trigger] snapshots(db2, x) == snapshots(db, x) by {
        published_snapshots(db, s, record, state, id, x);
    }
}

proof fn published_histories(
    db: Db,
    s: Seq<u8>,
    record: CompactionView,
    state: Seq<u8>,
    id: Seq<char>,
)
    requires
        db.dom().finite(),
    ensures
        forall|x: Seq<u8>, lo: nat, hi: Option<nat>| #[trigger]
            history_of(published(db, s, record, state, id), x, lo, hi) == history_of(db, x, lo, hi),
{
    let db2 = published(db, s, record, state, id);
    assert forall|x: Seq<u8>| #[trigger] same_reads(db, db2, x) by {
        published_reads(db, s, record, state, id, x);
    }
    assert forall|x: Seq<u8>| same_at(db, db2, #[trigger] fork_key(x)) by {
        published_reads(db, s, record, state, id, x);
    }
    assert forall|x: Seq<u8>, lo: nat, hi: Option<nat>| #[trigger]
        history_of(db2, x, lo, hi) == history_of(db, x, lo, hi) by {
        history_same(db, db2, x, Set::empty(), lo, hi);
    }
}

proof fn published_snapshots(
    db: Db,
    s: Seq<u8>,
    record: CompactionView,
    state: Seq<u8>,
    id: Seq<char>,
    x: Seq<u8>,
)
    requires
        db.dom().finite(),
        seq_of(db) < u64::MAX,
        x != s,
    ensures
        snapshots(published(db, s, record, state, id), x) == snapshots(db, x),
{
    let db2 = published(db, s, record, state, id);
    let new = snap_key_of(s, seq_of(db) + 1);
    store_parts();
    classes(x, 0, 0, Seq::empty());
    assert((compactions_prefix() + utf8(id))[0] == compactions_prefix()[0]);
    assert forall|k: Seq<u8>| snap_range(x)(k) implies (#[trigger] db2.contains_key(k)
        == db.contains_key(k)) && (db2.contains_key(k) ==> db2[k] == db[k]) by {
        prefix_class(k, snap_prefix_of(x));
        if k == new {
            snap_under(s, seq_of(db) + 1, x);
        }
    }
    same_numbered(db2, db, snap_prefix_of(x), 0, None);
}

// ---- rehydration ----------------------------------------------------------

/// The versions of a history end at the stream's tail.
proof fn history_capped(db: Db, names: Set<Seq<u8>>, s: Seq<u8>, lo: nat, hi: Option<nat>, i: int)
    requires
        sound(db, names),
        names.contains(s),
        history_of(db, s, lo, hi) is Ok,
        0 <= i < history_of(db, s, lo, hi)->Ok_0.len(),
    ensures
        tail_of(db, s) is Some,
        history_of(db, s, lo, hi)->Ok_0[i].version <= tail_of(db, s)->0.version,
{
    let h = history_of(db, s, lo, hi)->Ok_0;
    assert(stream_ok(db, names, s));
    if fork_of(db, s) is Some {
        let f = fork_of(db, s)->0;
        let q = utf8(f.stream);
        let end = parent_end(f.at_version, hi);
        let seen = Set::<Seq<u8>>::empty().insert(fork_key(s));
        sound_chain(db, names, q);
        let a = if no_versions(lo, end) {
            Seq::<EnvelopeView>::empty()
        } else {
            history(db, q, seen, lo, end)->Ok_0
        };
        if !no_versions(lo, end) {
            history_is_increasing(db, q, seen, lo, end);
        }
        let b = own_outcome(db, s, f.at_version, lo, hi)->Ok_0;
        assert(h == a + b);
        if i < a.len() {
            assert(h[i] == a[i]);
        } else {
            let from = max(lo, f.at_version as nat + 1);
            read_is_exact(db, s, from, hi);
            assert(h[i] == b[i - a.len()]);
            assert(stored(db, s, b[i - a.len()]));
        }
    } else {
        read_is_exact(db, s, lo, hi);
        assert(stored(db, s, h[i]));
    }
}

/// A compaction's snapshot is true: it restores to the fold of the history
/// through its version. (Restoring gives back what was saved.)
pub proof fn compact_is_true<A: Aggregate>(
    db: Db,
    names: Set<Seq<u8>>,
    stream: Seq<char>,
    job_id: Option<Seq<char>>,
    state: Seq<u8>,
    id: Seq<char>,
    ts_ms: i64,
)
    requires
        sound(db, names),
        names.contains(utf8(stream)),
        seq_of(db) < u64::MAX,
        history_of(db, utf8(stream), 0, None) is Ok,
        history_of(db, utf8(stream), 0, None)->Ok_0.len() > 0,
        fold_from(A::start(), history_of(db, utf8(stream), 0, None)->Ok_0).saved() == Some(state),
        A::restored(state) == Some(
            fold_from(A::start(), history_of(db, utf8(stream), 0, None)->Ok_0),
        ),
    ensures
        ({
            let h = history_of(db, utf8(stream), 0, None)->Ok_0;
            let db2 = published(
                db,
                utf8(stream),
                record_of(stream, h, job_id, ts_ms),
                state,
                id,
            );
            &&& sound(db2, names)
            &&& snapshot_true::<A>(db2, utf8(stream))
            &&& covers_no_more(db2, utf8(stream))
        }),
{
    let s = utf8(stream);
    let h = history_of(db, s, 0, None)->Ok_0;
    let record = record_of(stream, h, job_id, ts_ms);
    let db2 = published(db, s, record, state, id);
    let m = (record.through_version + 1) as nat;
    publish_keeps_sound(db, names, s, record, state, id);
    sound_publish(db, names, s, record, state, id);
    published_histories(db, s, record, state, id);
    sound_chain(db, names, s);
    history_splits(db, s, Set::empty(), 0, m, None);
    history_is_increasing(db, s, Set::empty(), 0, None);
    history_is_increasing(db, s, Set::empty(), m, None);
    let left = history_of(db, s, 0, Some(m))->Ok_0;
    let right = history_of(db, s, m, None)->Ok_0;
    assert(h == left + right);
    if right.len() > 0 {
        let last = right[right.len() - 1];
        assert(last == h[h.len() - 1]);
        assert(right[right.len() - 1].version >= m);
    }
    assert(left =~= h);
    assert(history_of(db2, s, 0, Some(m)) == history_of(db, s, 0, Some(m)));
    history_capped(db, names, s, 0, None, h.len() - 1);
    published_reads(db, s, record, state, id, s);
}

/// The snapshot, where there is one, covers no more than the stream has.
pub open spec fn covers_no_more(db: Db, s: Seq<u8>) -> bool {
    snapshot_of(db, s) is Some ==> tail_of(db, s) is Some && snapshot_of(db, s)->0.through_version
        <= tail_of(db, s)->0.version
}

/// An append leaves the snapshots as they are.
proof fn append_keeps_snapshots(db: Db, a: AppendView, stamps: Seq<StampView>, s: Seq<u8>)
    requires
        db.dom().finite(),
    ensures
        snapshots(committed(db, a, stamps), s) == snapshots(db, s),
{
    let db2 = committed(db, a, stamps);
    store_parts();
    classes(s, 0, 0, Seq::empty());
    classes(a.stream, 0, 0, utf8("tail"@));
    committed_finite(db, a, stamps);
    assert forall|k: Seq<u8>| snap_range(s)(k) implies (#[trigger] db2.contains_key(k)
        == db.contains_key(k)) && (db2.contains_key(k) ==> db2[k] == db[k]) by {
        prefix_class(k, snap_prefix_of(s));
        committed_elsewhere(db, a, stamps, k);
    }
    same_numbered(db2, db, snap_prefix_of(s), 0, None);
}

/// An append at the tail of any stream keeps a true snapshot true: the history
/// that it covers stays as it was.
pub proof fn append_keeps_true<A: Aggregate>(
    db: Db,
    names: Set<Seq<u8>>,
    a: AppendView,
    stamps: Seq<StampView>,
    s: Seq<u8>,
)
    requires
        sound(db, names),
        names.contains(s),
        admitted(db, names, (Step::Append { a, stamps })),
        a.from_version is None,
        snapshot_true::<A>(db, s),
        covers_no_more(db, s),
    ensures
        sound(committed(db, a, stamps), names),
        snapshot_true::<A>(committed(db, a, stamps), s),
        covers_no_more(committed(db, a, stamps), s),
{
    let db2 = committed(db, a, stamps);
    let p = a.stream;
    let first = first_version(db, a);
    append_keeps_sound(db, names, a, stamps);
    append_keeps_snapshots(db, a, stamps, s);
    committed_finite(db, a, stamps);
    assert(stream_ok(db, names, p));
    assert(stream_ok(db, names, s));
    crate::stream::append_keeps_order(db, a, stamps);
    if s != p {
        fixed_parts();
        classes(s, 0, 0, utf8("tail"@));
        crate::fork::m_key_injective(s, p, utf8("tail"@));
        committed_elsewhere(db, a, stamps, tail_key(s));
    }
    if snapshot_of(db, s) is Some {
        let m = (snapshot_of(db, s)->0.through_version + 1) as nat;
        append_chain_alike(db, names, a, stamps, s, first);
        assert forall|l: nat, h: nat| h <= first implies #[trigger] read_outcome(db, p, l, Some(h))
            == read_outcome(db2, p, l, Some(h)) by {
            append_prefix_alike(db, a, stamps, l, h);
        }
        history_alike(db, db2, s, Set::empty(), 0, Some(m), p, first);
    }
}

/// Along a fork chain an append at a tail is past every fork point on the
/// appended stream.
proof fn append_chain_alike(
    db: Db,
    names: Set<Seq<u8>>,
    a: AppendView,
    stamps: Seq<StampView>,
    s: Seq<u8>,
    first: nat,
)
    requires
        sound(db, names),
        names.contains(s),
        admitted(db, names, (Step::Append { a, stamps })),
        a.from_version is None,
        first == first_version(db, a),
    ensures
        chain_alike(db, committed(db, a, stamps), s, a.stream, first),
        forall|x: Seq<u8>| same_at(db, committed(db, a, stamps), #[trigger] fork_key(x)),
{
    let db2 = committed(db, a, stamps);
    let p = a.stream;
    assert forall|x: Seq<u8>| same_at(db, db2, #[trigger] fork_key(x)) by {
        fixed_parts();
        classes(x, 0, 0, utf8("fork"@));
        fields_differ(p, utf8("tail"@), x, utf8("fork"@));
        committed_elsewhere(db, a, stamps, fork_key(x));
    }
    assert forall|n: nat| (#[trigger] reach(db, s, n)) is Some implies ({
        let x = reach(db, s, n)->0;
        &&& x != p ==> same_reads(db, db2, x)
        &&& fork_of(db, x) is Some && utf8(fork_of(db, x)->0.stream) == p ==> fork_of(
            db,
            x,
        )->0.at_version + 1 <= first && fork_of(db, x)->0.at_version < u64::MAX
    }) by {
        crate::upkeep::chain_stays(db, names, s, n);
        let x = reach(db, s, n)->0;
        assert(stream_ok(db, names, x));
        if x != p {
            tail_is_no_pin(db, names, p, x);
            append_leaves_others(db, a, stamps, x);
        }
    }
}

/// One append after another, with its stamps.
pub struct Appended {
    pub a: AppendView,
    pub stamps: Seq<StampView>,
}

/// The store after a run of appends.
pub open spec fn append_run(db: Db, run: Seq<Appended>) -> Db
    decreases run.len(),
{
    if run.len() == 0 {
        db
    } else {
        committed(append_run(db, run.drop_last()), run.last().a, run.last().stamps)
    }
}

/// Whether each append of the run is let through at its turn.
pub open spec fn run_admitted(db: Db, names: Set<Seq<u8>>, run: Seq<Appended>) -> bool
    decreases run.len(),
{
    run.len() == 0 || (run_admitted(db, names, run.drop_last()) && admitted(
        append_run(db, run.drop_last()),
        names,
        (Step::Append { a: run.last().a, stamps: run.last().stamps }),
    ))
}

/// Whether every append of the run goes to a tail.
pub open spec fn at_tails(run: Seq<Appended>) -> bool {
    forall|i: int| 0 <= i < run.len() ==> (#[trigger] run[i]).a.from_version is None
}

proof fn run_keeps_true<A: Aggregate>(
    db: Db,
    names: Set<Seq<u8>>,
    run: Seq<Appended>,
    s: Seq<u8>,
)
    requires
        sound(db, names),
        names.contains(s),
        run_admitted(db, names, run),
        at_tails(run),
        snapshot_true::<A>(db, s),
        covers_no_more(db, s),
    ensures
        sound(append_run(db, run), names),
        snapshot_true::<A>(append_run(db, run), s),
        covers_no_more(append_run(db, run), s),
    decreases run.len(),
{
    if run.len() > 0 {
        let rest = run.drop_last();
        assert(at_tails(rest)) by {
            assert forall|i: int| 0 <= i < rest.len() implies (
            #[trigger] rest[i]).a.from_version is None by {
                assert(rest[i] == run[i]);
            }
        }
        run_keeps_true::<A>(db, names, rest, s);
        assert(run[run.len() - 1].a.from_version is None);
        append_keeps_true::<A>(
            append_run(db, rest),
            names,
            run.last().a,
            run.last().stamps,
            s,
        );
    }
}

/// A rehydration after a compaction and any appends is the fold of the whole
/// history as it then is, at the version of its last event, or at that of the
/// snapshot where nothing follows it. (Restoring gives back what was saved.)
pub proof fn rehydrate_after_compact<A: Aggregate>(
    db: Db,
    names: Set<Seq<u8>>,
    stream: Seq<char>,
    job_id: Option<Seq<char>>,
    state: Seq<u8>,
    id: Seq<char>,
    ts_ms: i64,
    run: Seq<Appended>,
    r: Result<(A, Option<Version>), Error>,
)
    requires
        sound(db, names),
        names.contains(utf8(stream)),
        seq_of(db) < u64::MAX,
        history_of(db, utf8(stream), 0, None) is Ok,
        history_of(db, utf8(stream), 0, None)->Ok_0.len() > 0,
        fold_from(A::start(), history_of(db, utf8(stream), 0, None)->Ok_0).saved() == Some(state),
        A::restored(state) == Some(
            fold_from(A::start(), history_of(db, utf8(stream), 0, None)->Ok_0),
        ),
        run_admitted(compacted(db, stream, job_id, state, id, ts_ms), names, run),
        at_tails(run),
        rehydrate_outcome(
            append_run(compacted(db, stream, job_id, state, id, ts_ms), run),
            utf8(stream),
            r,
        ),
    ensures
        ({
            let after = append_run(compacted(db, stream, job_id, state, id, ts_ms), run);
            let h = history_of(after, utf8(stream), 0, None);
            &&& h is Ok && r is Ok
            &&& r->Ok_0.0 == fold_from(A::start(), h->Ok_0)
            &&& r->Ok_0.1 == (match snapshot_of(after, utf8(stream)) {
                Some(snap) => Some(through(snap.through_version, last_version(h->Ok_0))),
                None => last_version(h->Ok_0),
            })
        }),
{
    let db2 = compacted(db, stream, job_id, state, id, ts_ms);
    compact_is_true::<A>(db, names, stream, job_id, state, id, ts_ms);
    run_keeps_true::<A>(db2, names, run, utf8(stream));
    rehydrate_is_fold(append_run(db2, run), names, utf8(stream), r);
}

/// The store after a compaction of the stream's history.
pub open spec fn compacted(
    db: Db,
    stream: Seq<char>,
    job_id: Option<Seq<char>>,
    state: Seq<u8>,
    id: Seq<char>,
    ts_ms: i64,
) -> Db {
    published(
        db,
        utf8(stream),
        record_of(stream, history_of(db, utf8(stream), 0, None)->Ok_0, job_id, ts_ms),
        state,
        id,
    )
}

// ---- forks ----------------------------------------------------------------

/// Whether every append of the run goes to `p`.
pub open spec fn all_to(run: Seq<Appended>, p: Seq<u8>) -> bool {
    forall|i: int| 0 <= i < run.len() ==> (#[trigger] run[i]).a.stream == p
}

/// The fork of `child` from `parent` at `at` is in place and pinned.
spec fn fork_stands(
    db: Db,
    names: Set<Seq<u8>>,
    parent: Seq<char>,
    at: Version,
    child: Seq<u8>,
) -> bool {
    &&& sound(db, names)
    &&& names.contains(child)
    &&& names.contains(utf8(parent))
    &&& fork_of(db, child) is Some
    &&& fork_of(db, child)->0.stream == parent
    &&& fork_of(db, child)->0.at_version == at
    &&& holds_pin(db, utf8(parent), child, at)
}

/// An append to the parent leaves the child's history and its fork as they
/// are.
proof fn append_keeps_fork(
    db: Db,
    names: Set<Seq<u8>>,
    parent: Seq<char>,
    at: Version,
    child: Seq<u8>,
    a: AppendView,
    stamps: Seq<StampView>,
    lo: nat,
    hi: Option<nat>,
)
    requires
        fork_stands(db, names, parent, at, child),
        a.stream == utf8(parent),
        admitted(db, names, (Step::Append { a, stamps })),
    ensures
        fork_stands(committed(db, a, stamps), names, parent, at, child),
        history_of(committed(db, a, stamps), child, lo, hi) == history_of(db, child, lo, hi),
{
    let db2 = committed(db, a, stamps);
    let p = utf8(parent);
    let rank = choose|rank: spec_fn(Seq<u8>) -> nat| #[trigger] grounded(db, names, rank);
    assert(stream_ok(db, names, p));
    assert(stream_ok(db, names, child));
    assert(rank(p) < rank(child));
    append_keeps_sound(db, names, a, stamps);
    crate::stream::append_keeps_order(db, a, stamps);
    assert forall|n: nat| (#[trigger] reach(db, child, n)) is Some implies !is_pin(
        db,
        reach(db, child, n)->0,
        tail_key(p),
    ) && ({
        let f = fork_of(db, reach(db, child, n)->0);
        f is Some && utf8(f->0.stream) == p ==> holds_pin(
            db,
            p,
            reach(db, child, n)->0,
            f->0.at_version,
        )
    }) by {
        crate::upkeep::chain_stays(db, names, child, n);
        let x = reach(db, child, n)->0;
        tail_is_no_pin(db, names, p, x);
        if n > 0 {
            assert(reach(db, p, (n - 1) as nat) == Some(x));
            chain_descends(db, names, rank, p, (n - 1) as nat);
            assert(names.contains(x));
        }
    }
    fork_is_pinned(db, a, stamps, child, lo, hi);
    fixed_parts();
    let pin = m_key_of(p, forks_field(child));
    classes(child, 0, 0, utf8("fork"@));
    fields_differ(p, utf8("tail"@), child, utf8("fork"@));
    committed_elsewhere(db, a, stamps, fork_key(child));
    classes(child, 0, 0, utf8("deleted"@));
    fields_differ(p, utf8("tail"@), child, utf8("deleted"@));
    committed_elsewhere(db, a, stamps, deleted_key(child));
    classes(p, 0, 0, forks_field(child));
    assert(pin =~= forks_prefix(p) + child);
    lemma_prefix_of_concat(forks_prefix(p), child);
    own_field_no_pin(p, utf8("tail"@));
    committed_elsewhere(db, a, stamps, pin);
}

/// Fork links lead to lower ranks.
proof fn chain_descends(
    db: Db,
    names: Set<Seq<u8>>,
    rank: spec_fn(Seq<u8>) -> nat,
    s: Seq<u8>,
    n: nat,
)
    requires
        sound(db, names),
        grounded(db, names, rank),
        names.contains(s),
        reach(db, s, n) is Some,
    ensures
        rank(reach(db, s, n)->0) <= rank(s),
    decreases n,
{
    if n > 0 {
        assert(stream_ok(db, names, s));
        chain_descends(db, names, rank, utf8(fork_of(db, s)->0.stream), (n - 1) as nat);
    }
}

proof fn run_keeps_fork(
    db: Db,
    names: Set<Seq<u8>>,
    parent: Seq<char>,
    at: Version,
    child: Seq<u8>,
    run: Seq<Appended>,
    lo: nat,
    hi: Option<nat>,
)
    requires
        fork_stands(db, names, parent, at, child),
        run_admitted(db, names, run),
        all_to(run, utf8(parent)),
    ensures
        fork_stands(append_run(db, run), names, parent, at, child),
        history_of(append_run(db, run), child, lo, hi) == history_of(db, child, lo, hi),
    decreases run.len(),
{
    if run.len() > 0 {
        let rest = run.drop_last();
        assert(all_to(rest, utf8(parent))) by {
            assert forall|i: int| 0 <= i < rest.len() implies (#[trigger] rest[i]).a.stream == utf8(
                parent,
            ) by {
                assert(rest[i] == run[i]);
            }
        }
        run_keeps_fork(db, names, parent, at, child, rest, lo, hi);
        assert(run[run.len() - 1].a.stream == utf8(parent));
        append_keeps_fork(
            append_run(db, rest),
            names,
            parent,
            at,
            child,
            run.last().a,
            run.last().stamps,
            lo,
            hi,
        );
    }
}

/// What is appended to a parent after a fork, at its tail or in place, is
/// never visible to the child: its history stays what it was right after the
/// fork.
pub proof fn parent_appends_stay_invisible(
    db: Db,
    names: Set<Seq<u8>>,
    parent: Seq<char>,
    at: Version,
    child: Seq<u8>,
    run: Seq<Appended>,
    lo: nat,
    hi: Option<nat>,
)
    requires
        sound(db, names),
        admitted(db, names, (Step::Fork { parent, at, child })),
        !is_deleted(db, child),
        run_admitted(forked(db, parent, at, child), names, run),
        all_to(run, utf8(parent)),
    ensures
        history_of(append_run(forked(db, parent, at, child), run), child, lo, hi) == history_of(
            forked(db, parent, at, child),
            child,
            lo,
            hi,
        ),
{
    let db2 = forked(db, parent, at, child);
    let p = utf8(parent);
    let pin = m_key_of(p, forks_field(child));
    fork_keeps_sound(db, names, parent, at, child);
    assert(stream_ok(db, names, p));
    fixed_parts();
    assert(pin =~= forks_prefix(p) + child);
    lemma_prefix_of_concat(forks_prefix(p), child);
    be8_roundtrip(at);
    assert(p != child);
    // The keys that the fork writes are three different ones, and none is the
    // mark of a deletion.
    assert(pin == pin_at(p, child));
    fields_differ(child, utf8("fork"@), child, utf8("tail"@));
    fields_differ(child, utf8("deleted"@), child, utf8("tail"@));
    fields_differ(child, utf8("deleted"@), child, utf8("fork"@));
    crate::fork::m_key_injective(p, child, utf8("tail"@));
    fields_differ(p, utf8("tail"@), child, utf8("fork"@));
    assert(fork_stands(db2, names, parent, at, child));
    run_keeps_fork(db2, names, parent, at, child, run, lo, hi);
}

} // verus!

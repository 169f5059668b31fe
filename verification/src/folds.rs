//! What holds across range reads, snapshots, rehydration, jobs and the time
//! index.
use vstd::prelude::*;
use vstd::string::*;

use crate::aggregate::{fold_concat, fold_from, Aggregate};
use crate::branches::reach;
use crate::digits::dec16;
use crate::envelope::{EnvelopeView, StampView, Version};
use crate::error::Error;
use crate::fork::{history, history_of, lemma_shrinks, no_versions, own_outcome, parent_end};
use crate::jobs::{JobEventView, JobStatusView};
use crate::kv::{
    compactions_prefix, events_of, fork_key, has_good_fork, i_prefix_of, jobs_prefix, max, r_key_of,
    snap_prefix_of, ts_key_of, visible, Db, Fault, ValueView,
};
use crate::layout::{
    classes, prefix_class, record_key_injective, record_own, same_stem, store_parts,
};
use crate::numbered::{number_of, number_written, numbered, numbered_exists, precedes};
use crate::order::{after, has_prefix, lemma_prefix_of_concat, lex_irreflexive, lex_lt};
use crate::snapshot::{CompactionView, SnapshotView};
use crate::store::compaction::{
    all_compactions, all_jobs, claim_outcome, compactions, job_key_of, journal, published,
    snap_key_of, snapshot_of, snap_range, snapshot_readable, status_of, transitions,
};
use crate::store::reads::{
    entry_made, first_entry, history_past, indexed, last_version, rehydrate_outcome, sought,
};
use crate::store::{
    committed, envelope_at, events_written, first_version, new_tail, seq_of, tail_ts, AppendView,
};
use crate::stream::{
    append_keeps_order, append_records, batch, batch_is_contiguous, capped, goes_in, lands, orderly,
    read_is_exact, read_is_unique, record_elsewhere, same_at, same_listing, stored, written_here,
};
use crate::table::{
    is_listing, lemma_under, listing, listing_exists, listing_unique, split_at_key, under,
};
use crate::text::{utf8, SLASH};

verus! {

// ---- splitting ranges -----------------------------------------------------

/// A read of `[lo, hi)` is the read of `[lo, m)` followed by that of `[m, hi)`.
pub proof fn read_splits(db: Db, s: Seq<u8>, lo: nat, m: nat, hi: Option<nat>)
    requires
        db.dom().finite(),
        orderly(db, s),
        lo <= m,
        hi is Some ==> m <= hi->0,
    ensures
        events_of(db, s, lo, hi) == events_of(db, s, lo, Some(m)) + events_of(db, s, m, hi),
{
    let a = events_of(db, s, lo, Some(m));
    let b = events_of(db, s, m, hi);
    read_is_exact(db, s, lo, Some(m));
    read_is_exact(db, s, m, hi);
    let out = a + b;
    assert forall|i: int| 0 <= i < out.len() implies stored(db, s, #[trigger] out[i]) && visible(
        db,
        s,
        lo,
        hi,
        out[i],
    ) by {
        if i < a.len() {
            assert(stored(db, s, a[i]));
        } else {
            assert(stored(db, s, b[i - a.len()]));
        }
    }
    assert forall|e: EnvelopeView| #[trigger] stored(db, s, e) && visible(
        db,
        s,
        lo,
        hi,
        e,
    ) implies out.contains(e) by {
        if e.version < m {
            assert(visible(db, s, lo, Some(m), e));
            let i = choose|i: int| 0 <= i < a.len() && a[i] == e;
            assert(out[i] == e);
        } else {
            assert(visible(db, s, m, hi, e));
            let i = choose|i: int| 0 <= i < b.len() && b[i] == e;
            assert(out[a.len() + i] == e);
        }
    }
    assert forall|i: int, j: int| 0 <= i < j < out.len() implies out[i].version
        < out[j].version by {
        if j >= a.len() {
            assert(stored(db, s, b[j - a.len()]));
            if i < a.len() {
                assert(stored(db, s, a[i]));
            }
        }
    }
    read_is_unique(db, s, lo, hi, out);
}

/// A stream of the chain is in order, and its branch point is one.
pub open spec fn branch_ok(db: Db, x: Seq<u8>) -> bool {
    &&& orderly(db, x)
    &&& has_good_fork(db, x)
}

pub open spec fn chain_ok(db: Db, stream: Seq<u8>) -> bool {
    forall|n: nat|
        (#[trigger] reach(db, stream, n)) is Some ==> branch_ok(db, reach(db, stream, n)->0)
}

/// A history is the same however its range is cut: that of `[lo, hi)` is that
/// of `[lo, m)` followed by that of `[m, hi)`.
pub proof fn history_splits(
    db: Db,
    s: Seq<u8>,
    seen: Set<Seq<u8>>,
    lo: nat,
    m: nat,
    hi: Option<nat>,
)
    requires
        db.dom().finite(),
        chain_ok(db, s),
        lo <= m,
        hi is Some ==> m <= hi->0,
        history(db, s, seen, lo, hi) is Ok,
    ensures
        history(db, s, seen, lo, Some(m)) is Ok,
        history(db, s, seen, m, hi) is Ok,
        history(db, s, seen, lo, hi)->Ok_0 == history(db, s, seen, lo, Some(m))->Ok_0 + history(
            db,
            s,
            seen,
            m,
            hi,
        )->Ok_0,
    decreases db.dom().difference(seen).len(),
{
    let k = fork_key(s);
    let whole = history(db, s, seen, lo, hi);
    let left = history(db, s, seen, lo, Some(m));
    let right = history(db, s, seen, m, hi);
    let none = Seq::<EnvelopeView>::empty();
    if no_versions(lo, hi) {
        assert(none + none =~= none);
    } else if lo == m {
        assert(left == Ok::<Seq<EnvelopeView>, Fault>(none));
        assert(none + right->Ok_0 =~= right->Ok_0);
    } else if no_versions(m, hi) {
        assert(hi == Some(m));
        assert(left->Ok_0 + none =~= left->Ok_0);
    } else {
        assert(reach(db, s, 0) == Some(s));
        assert(branch_ok(db, s));
        if db.contains_key(k) {
            let f = db[k]->Fork_0;
            let q = utf8(f.stream);
            let next = seen.insert(k);
            let end = parent_end(f.at_version, hi);
            let at = (f.at_version + 1) as nat;
            lemma_shrinks(db.dom(), seen, k);
            assert(chain_ok(db, q)) by {
                assert forall|n: nat| (#[trigger] reach(db, q, n)) is Some implies branch_ok(
                    db,
                    reach(db, q, n)->0,
                ) by {
                    assert(reach(db, s, n + 1) == reach(db, q, n));
                }
            }
            if f.at_version == u64::MAX {
                history_splits(db, q, next, lo, m, hi);
                let pl = history(db, q, next, lo, Some(m))->Ok_0;
                let pr = history(db, q, next, m, hi)->Ok_0;
                assert(pl + none =~= pl);
                assert(pr + none =~= pr);
                assert((pl + pr) + none =~= pl + pr);
            } else {
                own_splits(db, s, f.at_version, lo, m, hi);
                let own_l = own_outcome(db, s, f.at_version, lo, Some(m))->Ok_0;
                let own_r = own_outcome(db, s, f.at_version, m, hi)->Ok_0;
                let own = own_outcome(db, s, f.at_version, lo, hi)->Ok_0;
                if no_versions(lo, end) {
                    // The range starts past the fork point.
                    assert(none + own =~= own);
                    assert(none + own_l =~= own_l);
                    assert(none + own_r =~= own_r);
                    assert(no_versions(lo, parent_end(f.at_version, Some(m))));
                    assert(no_versions(m, end));
                } else {
                    let h = history(db, q, next, lo, end);
                    assert(h is Ok);
                    if m < at {
                        // Cut inside the parent's part.
                        assert(parent_end(f.at_version, Some(m)) == Some(m));
                        assert(end is Some && m <= end->0);
                        history_splits(db, q, next, lo, m, end);
                        let pl = history(db, q, next, lo, Some(m))->Ok_0;
                        let pr = history(db, q, next, m, end)->Ok_0;
                        assert(own_l == none);
                        assert(pl + own_l =~= pl);
                        assert(left == Ok::<Seq<EnvelopeView>, Fault>(pl + own_l));
                        if no_versions(m, end) {
                            assert(history(db, q, next, m, end) == Ok::<Seq<EnvelopeView>, Fault>(
                                none,
                            ));
                        }
                        assert(right == Ok::<Seq<EnvelopeView>, Fault>(pr + own_r));
                        assert(whole == Ok::<Seq<EnvelopeView>, Fault>((pl + pr) + own));
                        assert((pl + pr) + own =~= (pl + own_l) + (pr + own_r));
                    } else {
                        // Cut in the branch's own part.
                        assert(parent_end(f.at_version, Some(m)) == Some(at));
                        assert(end == Some(at)) by {
                            if hi is Some {
                                assert(hi->0 >= m >= at);
                            }
                        }
                        assert(no_versions(m, end));
                        let p = h->Ok_0;
                        assert(left == Ok::<Seq<EnvelopeView>, Fault>(p + own_l));
                        assert(none + own_r =~= own_r);
                        assert(right == Ok::<Seq<EnvelopeView>, Fault>(own_r));
                        assert(p + (own_l + own_r) =~= (p + own_l) + own_r);
                    }
                }
            }
        } else {
            read_is_exact(db, s, lo, hi);
            read_is_exact(db, s, lo, Some(m));
            read_is_exact(db, s, m, hi);
            read_splits(db, s, lo, m, hi);
        }
    }
}

/// What a fork itself contributes can be cut like any read.
proof fn own_splits(db: Db, s: Seq<u8>, at: Version, lo: nat, m: nat, hi: Option<nat>)
    requires
        db.dom().finite(),
        orderly(db, s),
        at < u64::MAX,
        lo <= m,
        hi is Some ==> m <= hi->0,
    ensures
        own_outcome(db, s, at, lo, Some(m)) is Ok,
        own_outcome(db, s, at, m, hi) is Ok,
        own_outcome(db, s, at, lo, hi) is Ok,
        own_outcome(db, s, at, lo, hi)->Ok_0 == own_outcome(db, s, at, lo, Some(m))->Ok_0
            + own_outcome(db, s, at, m, hi)->Ok_0,
        m <= at ==> own_outcome(db, s, at, lo, Some(m))->Ok_0 == Seq::<EnvelopeView>::empty(),
{
    let from = max(lo, at as nat + 1);
    let cut = max(m, at as nat + 1);
    read_is_exact(db, s, from, hi);
    read_is_exact(db, s, from, Some(m));
    read_is_exact(db, s, cut, hi);
    if m <= at {
        let none = Seq::<EnvelopeView>::empty();
        assert(events_of(db, s, from, Some(m)) == none);
        assert(none + events_of(db, s, cut, hi) =~= events_of(db, s, cut, hi));
    } else {
        if from <= m {
            read_splits(db, s, from, m, hi);
        }
    }
}

/// A history is in version order and within its range: at versions through
/// a fork point it holds what the parent contributes, above it the stream's
/// own events.
pub proof fn history_is_increasing(
    db: Db,
    s: Seq<u8>,
    seen: Set<Seq<u8>>,
    lo: nat,
    hi: Option<nat>,
)
    requires
        db.dom().finite(),
        chain_ok(db, s),
        history(db, s, seen, lo, hi) is Ok,
    ensures
        ({
            let h = history(db, s, seen, lo, hi)->Ok_0;
            &&& forall|i: int, j: int| 0 <= i < j < h.len() ==> h[i].version < h[j].version
            &&& forall|i: int|
                0 <= i < h.len() ==> lo <= (#[trigger] h[i]).version && (hi is Some
                    ==> h[i].version < hi->0)
        }),
    decreases db.dom().difference(seen).len(),
{
    let k = fork_key(s);
    if !no_versions(lo, hi) {
        assert(reach(db, s, 0) == Some(s));
        assert(branch_ok(db, s));
        if db.contains_key(k) {
            let f = db[k]->Fork_0;
            let q = utf8(f.stream);
            let end = parent_end(f.at_version, hi);
            let from = max(lo, f.at_version as nat + 1);
            lemma_shrinks(db.dom(), seen, k);
            assert(chain_ok(db, q)) by {
                assert forall|n: nat| (#[trigger] reach(db, q, n)) is Some implies branch_ok(
                    db,
                    reach(db, q, n)->0,
                ) by {
                    assert(reach(db, s, n + 1) == reach(db, q, n));
                }
            }
            if !no_versions(lo, end) {
                history_is_increasing(db, q, seen.insert(k), lo, end);
            }
            read_is_exact(db, s, from, hi);
            let own = if f.at_version == u64::MAX {
                Seq::empty()
            } else {
                events_of(db, s, from, hi)
            };
            assert forall|i: int| 0 <= i < own.len() implies from <= (#[trigger] own[i]).version
                && (hi is Some ==> own[i].version < hi->0) by {
                assert(visible(db, s, from, hi, own[i]));
            }
        } else {
            read_is_exact(db, s, lo, hi);
            let own = events_of(db, s, lo, hi);
            assert forall|i: int| 0 <= i < own.len() implies lo <= (#[trigger] own[i]).version && (
            hi is Some ==> own[i].version < hi->0) by {
                assert(visible(db, s, lo, hi, own[i]));
            }
        }
    }
}

/// Rehydrating from a snapshot gives what folding the whole history gives:
/// provided that the snapshot restores to the fold of the history through its
/// version.
pub proof fn rehydrate_equals_full_fold<A: Aggregate>(
    db: Db,
    s: Seq<u8>,
    snap: SnapshotView,
    r: Result<(A, Option<Version>), Error>,
)
    requires
        db.dom().finite(),
        chain_ok(db, s),
        snapshot_readable(db, s),
        snapshot_of(db, s) == Some(snap),
        history_of(db, s, 0, None) is Ok,
        history_of(db, s, 0, Some((snap.through_version + 1) as nat)) is Ok,
        A::restored(snap.state) == Some(
            fold_from(
                A::start(),
                history_of(db, s, 0, Some((snap.through_version + 1) as nat))->Ok_0,
            ),
        ),
        rehydrate_outcome(db, s, r),
    ensures
        r is Ok,
        r->Ok_0.0 == fold_from(A::start(), history_of(db, s, 0, None)->Ok_0),
        r->Ok_0.1 == Some(
            through(snap.through_version, last_version(history_of(db, s, 0, None)->Ok_0)),
        ),
{
    let m = (snap.through_version + 1) as nat;
    history_splits(db, s, Set::empty(), 0, m, None);
    let a = history_of(db, s, 0, Some(m))->Ok_0;
    let b = history_of(db, s, m, None)->Ok_0;
    history_is_increasing(db, s, Set::empty(), 0, Some(m));
    history_is_increasing(db, s, Set::empty(), m, None);
    if snap.through_version == u64::MAX {
        if b.len() > 0 {
            assert(b[0].version >= m);
        }
        assert(b =~= Seq::<EnvelopeView>::empty());
    }
    assert(history_past(db, s, snap.through_version) == Ok::<Seq<EnvelopeView>, Fault>(b));
    fold_concat(A::start(), a, b);
    if b.len() > 0 {
        assert((a + b).last() == b.last());
        assert(b[b.len() - 1].version >= m);
    } else {
        assert(a + b =~= a);
        if a.len() > 0 {
            assert(a[a.len() - 1].version < m);
        }
    }
}

/// The version that a state stands at: that of the last event, or of the
/// snapshot where no event lies past it.
pub open spec fn through(snapshot: Version, last: Option<Version>) -> Version {
    match last {
        Some(v) => if v > snapshot {
            v
        } else {
            snapshot
        },
        None => snapshot,
    }
}

// ---- snapshots ------------------------------------------------------------

/// The snapshots of the stream are snapshots, none numbered past the counter.
pub open spec fn snaps_ok(db: Db, s: Seq<u8>) -> bool {
    forall|k: Seq<u8>| #[trigger]
        db.contains_key(k) && snap_range(s)(k) ==> db[k] is Snapshot && snap_number(s, k)
            <= seq_of(db)
}

/// The number of a snapshot.
pub open spec fn snap_number(s: Seq<u8>, k: Seq<u8>) -> nat {
    number_of(snap_prefix_of(s), k)->0
}

/// A published snapshot is the latest one.
pub proof fn published_is_latest(
    db: Db,
    s: Seq<u8>,
    record: CompactionView,
    state: Seq<u8>,
    id: Seq<char>,
)
    requires
        db.dom().finite(),
        snaps_ok(db, s),
        seq_of(db) < u64::MAX,
    ensures
        snapshot_readable(published(db, s, record, state, id), s),
        snapshot_of(published(db, s, record, state, id), s) == Some(
            SnapshotView { through_version: record.through_version, ts_ms: record.ts_ms, state },
        ),
{
    let db2 = published(db, s, record, state, id);
    let prefix = snap_prefix_of(s);
    let new = snap_key_of(s, seq_of(db) + 1);
    let p = snap_range(s);
    store_parts();
    classes(s, 0, 0, Seq::empty());
    number_written(prefix, seq_of(db) + 1);
    prefix_class(new, prefix);
    let announce = compactions_prefix() + utf8(id);
    assert(announce[0] == compactions_prefix()[0]);
    assert(db2.contains_key(new) && db2[new] is Snapshot);
    numbered_exists(db2, prefix, 0, None);
    let l = numbered(db2, prefix, 0, None);
    assert(p(new));
    let i = choose|i: int| 0 <= i < l.len() && #[trigger] l[i].0 == new;
    if i < l.len() - 1 {
        let k = l[l.len() - 1].0;
        assert(precedes(prefix, l[i].0, l[l.len() - 1].0));
        assert(db2.contains_key(l[l.len() - 1].0) && p(l[l.len() - 1].0));
        prefix_class(k, prefix);
        assert(db.contains_key(k));
    }
}

/// A new key that the predicate takes adds one row to a listing.
proof fn listing_grows<V>(m: Map<Seq<u8>, V>, p: spec_fn(Seq<u8>) -> bool, k: Seq<u8>, v: V) -> (i:
    int)
    requires
        m.dom().finite(),
        !m.contains_key(k),
        p(k),
    ensures
        0 <= i <= listing(m, p).len(),
        listing(m.insert(k, v), p) == listing(m, p).insert(i, (k, v)),
{
    listing_exists(m, p);
    let l = listing(m, p);
    assert forall|i: int| 0 <= i < l.len() implies (#[trigger] l[i]).0 != k by {
        assert(m.contains_key(l[i].0));
    }
    let at = split_at_key(l, k);
    let n = l.insert(at, (k, v));
    let next = m.insert(k, v);
    assert forall|i: int, j: int| 0 <= i < j < n.len() implies #[trigger] lex_lt(
        n[i].0,
        n[j].0,
    ) by {
        let a = if i < at { i } else { i - 1 };
        let b = if j < at { j } else { j - 1 };
        if i == at {
            assert(n[j] == l[b]);
        } else if j == at {
            assert(n[i] == l[a]);
        } else {
            assert(n[i] == l[a] && n[j] == l[b]);
            assert(lex_lt(l[a].0, l[b].0));
        }
    }
    assert forall|i: int| 0 <= i < n.len() implies next.contains_key(#[trigger] n[i].0) && p(n[i].0)
        && next[n[i].0] == n[i].1 by {
        if i != at {
            let a = if i < at { i } else { i - 1 };
            assert(n[i] == l[a]);
            assert(m.contains_key(l[a].0) && p(l[a].0));
        }
    }
    assert forall|x: Seq<u8>| #[trigger] next.contains_key(x) && p(x) implies exists|i: int|
        0 <= i < n.len() && #[trigger] n[i].0 == x by {
        if x == k {
            assert(n[at].0 == x);
        } else {
            assert(m.contains_key(x) && p(x));
            let j = choose|j: int| 0 <= j < l.len() && #[trigger] l[j].0 == x;
            assert(n[if j < at { j } else { j + 1 }].0 == x);
        }
    }
    listing_unique(next, p, n);
    at
}

/// A publication adds one compaction record to those there were, its own.
/// (Its identifier is a fresh one.)
pub proof fn publish_adds_one(
    db: Db,
    s: Seq<u8>,
    record: CompactionView,
    state: Seq<u8>,
    id: Seq<char>,
)
    requires
        db.dom().finite(),
        !db.contains_key(compactions_prefix() + utf8(id)),
    ensures
        exists|i: int|
            0 <= i <= compactions(db).len() && compactions(published(db, s, record, state, id))
                == #[trigger] compactions(db).insert(
                i,
                (compactions_prefix() + utf8(id), ValueView::Compaction(record)),
            ),
        all_compactions(compactions(db)) ==> all_compactions(
            compactions(published(db, s, record, state, id)),
        ),
{
    let db2 = published(db, s, record, state, id);
    let p = under(compactions_prefix());
    let key = compactions_prefix() + utf8(id);
    let snap = snap_key_of(s, seq_of(db) + 1);
    let row = (key, ValueView::Compaction(record));
    store_parts();
    classes(s, 0, 0, Seq::empty());
    lemma_prefix_of_concat(compactions_prefix(), utf8(id));
    lemma_prefix_of_concat(snap_prefix_of(s), dec16(seq_of(db) + 1));
    prefix_class(snap, snap_prefix_of(s));
    lemma_under(compactions_prefix(), key);
    let i = listing_grows(db, p, key, ValueView::Compaction(record));
    let one = db.insert(key, ValueView::Compaction(record));
    assert forall|k: Seq<u8>| p(k) implies (#[trigger] one.contains_key(k) == db2.contains_key(k))
        && (one.contains_key(k) ==> one[k] == db2[k]) by {
        lemma_under(compactions_prefix(), k);
        prefix_class(k, compactions_prefix());
    }
    same_listing(one, db2, p);
    let old = compactions(db);
    assert(compactions(db2) == old.insert(i, row));
    if all_compactions(old) {
        let new = compactions(db2);
        assert forall|j: int| 0 <= j < new.len() implies (#[trigger] new[j]).1 is Compaction by {
            if j < i {
                assert(new[j] == old[j]);
            } else if j > i {
                assert(new[j] == old[j - 1]);
            }
        }
    }
}

// ---- jobs -----------------------------------------------------------------

/// At most one claim of a job succeeds: once claimed it is no longer pending.
/// (The claim must come after the earlier transitions in key order.)
pub proof fn claim_is_exclusive(
    before: Db,
    after: Db,
    job_id: Seq<char>,
    worker: Seq<char>,
    id: Seq<char>,
    ts_ms: i64,
    r: Result<(), Error>,
)
    requires
        before.dom().finite(),
        claim_outcome(before, after, job_id, worker, id, ts_ms, r),
        r is Ok,
        forall|k: Seq<u8>| #[trigger]
            before.contains_key(k) && has_prefix(k, jobs_prefix()) ==> lex_lt(k, job_key_of(id)),
    ensures
        all_jobs(journal(after)),
        status_of(after, job_id) == Some(JobStatusView::Claimed { worker }),
        forall|after2: Db, w2: Seq<char>, id2: Seq<char>, ts2: i64, r2: Result<(), Error>|
            claim_outcome(after, after2, job_id, w2, id2, ts2, r2) ==> r2 is Err && after2 == after,
{
    let p = under(jobs_prefix());
    let new = job_key_of(id);
    let e = JobEventView::Claimed { job_id, worker, ts_ms };
    let row = (new, ValueView::Job(e));
    listing_exists(before, p);
    let l = listing(before, p);
    let l2 = l.push(row);
    lemma_prefix_of_concat(jobs_prefix(), utf8(id));
    lemma_under(jobs_prefix(), new);
    assert(!before.contains_key(new)) by {
        if before.contains_key(new) {
            assert(lex_lt(new, new));
            lex_irreflexive(new);
        }
    }
    assert(is_listing(after, p, l2)) by {
        assert forall|i: int, j: int| 0 <= i < j < l2.len() implies #[trigger] lex_lt(
            l2[i].0,
            l2[j].0,
        ) by {
            if j < l.len() {
                assert(lex_lt(l[i].0, l[j].0));
            } else {
                assert(before.contains_key(l[i].0) && p(l[i].0));
                lemma_under(jobs_prefix(), l[i].0);
            }
        }
        assert forall|i: int| 0 <= i < l2.len() implies after.contains_key(#[trigger] l2[i].0) && p(
            l2[i].0,
        ) && after[l2[i].0] == l2[i].1 by {
            if i < l.len() {
                assert(before.contains_key(l[i].0) && p(l[i].0));
            }
        }
        assert forall|k: Seq<u8>| #[trigger] after.contains_key(k) && p(k) implies exists|i: int|
            0 <= i < l2.len() && #[trigger] l2[i].0 == k by {
            if k == new {
                assert(l2[l.len() as int].0 == k);
            } else {
                assert(before.contains_key(k));
                let i = choose|i: int| 0 <= i < l.len() && #[trigger] l[i].0 == k;
                assert(l2[i].0 == k);
            }
        }
    }
    listing_unique(after, p, l2);
    let c = under(compactions_prefix());
    store_parts();
    assert forall|k: Seq<u8>| c(k) implies (#[trigger] before.contains_key(k)
        == after.contains_key(k)) && (before.contains_key(k) ==> before[k] == after[k]) by {
        lemma_under(compactions_prefix(), k);
        if k == new {
            assert(k.subrange(0, 14)[2] == k[2]);
            assert(k[2] == jobs_prefix()[2]);
        }
    }
    same_listing(before, after, c);
    assert(l2.drop_last() =~= l);
    assert(all_jobs(l2)) by {
        assert forall|i: int| 0 <= i < l2.len() implies (#[trigger] l2[i]).1 is Job by {
            if i < l.len() {
                assert(l[i].1 is Job);
            }
        }
    }
    assert(transitions(l2, job_id) == transitions(l, job_id).push(e));
}

// ---- the time index -------------------------------------------------------

/// The time index of the stream is complete: it has the entry of every event
/// and no other, and times are never before the epoch and never go back.
pub open spec fn index_ok(db: Db, s: Seq<u8>) -> bool {
    &&& forall|t: nat, v: nat| #[trigger]
        indexed(db, s, t, v) ==> exists|e: EnvelopeView| #[trigger]
            stored(db, s, e) && e.ts_ms == t && e.version == v
    &&& forall|e: EnvelopeView| #[trigger]
        stored(db, s, e) ==> 0 <= e.ts_ms && indexed(db, s, e.ts_ms as nat, e.version as nat)
    &&& forall|e: EnvelopeView, f: EnvelopeView|
        #![trigger stored(db, s, e), stored(db, s, f)]
        stored(db, s, e) && stored(db, s, f) && e.version <= f.version ==> e.ts_ms <= f.ts_ms
}

/// A time seek finds the first event at or past the time: the lowest version,
/// or nothing when there is none.
pub proof fn seek_finds_first(db: Db, s: Seq<u8>, ts: int, r: Option<Version>)
    requires
        index_ok(db, s),
        sought(db, s, ts, r),
    ensures
        match r {
            Some(v) => {
                &&& exists|e: EnvelopeView| #[trigger]
                    stored(db, s, e) && e.version == v && e.ts_ms >= ts
                &&& forall|e: EnvelopeView| #[trigger]
                    stored(db, s, e) && e.ts_ms >= ts ==> e.version >= v
            },
            None => forall|e: EnvelopeView| #[trigger] stored(db, s, e) ==> e.ts_ms < ts,
        },
{
    if r is Some {
        let v = r->0 as nat;
        let t = choose|t: nat| #[trigger] first_entry(db, s, ts, t, v);
        assert(indexed(db, s, t, v));
        let f = choose|e: EnvelopeView| #[trigger]
            stored(db, s, e) && e.ts_ms == t && e.version == v;
        assert forall|e: EnvelopeView| #[trigger] stored(db, s, e) && e.ts_ms >= ts implies e.version
            >= v by {
            assert(indexed(db, s, e.ts_ms as nat, e.version as nat));
            if e.version < f.version {
                assert(e.ts_ms <= f.ts_ms);
            }
        }
    } else {
        assert forall|e: EnvelopeView| #[trigger] stored(db, s, e) implies e.ts_ms < ts by {
            assert(indexed(db, s, e.ts_ms as nat, e.version as nat));
        }
    }
}

/// No event of the stream is later than its tail, whose time is not before the
/// epoch.
pub open spec fn times_capped(db: Db, s: Seq<u8>) -> bool {
    &&& tail_ts(db, s) >= 0
    &&& forall|e: EnvelopeView| #[trigger] stored(db, s, e) ==> e.ts_ms <= tail_ts(db, s)
}

/// Whether the entry of a time and a version is one of the first `n` of an
/// append.
spec fn is_new(
    db: Db,
    seq: nat,
    a: AppendView,
    stamps: Seq<StampView>,
    n: int,
    t: nat,
    v: nat,
) -> bool {
    exists|i: int|
        0 <= i < n && (#[trigger] envelope_at(db, seq, a, stamps, i)).ts_ms == t && envelope_at(
            db,
            seq,
            a,
            stamps,
            i,
        ).version == v
}

/// A key of the index is that of one stream, time and version.
proof fn entry_apart(x: Seq<u8>, t: nat, v: nat, s: Seq<u8>, u: nat, w: nat)
    requires
        t <= i64::MAX,
        v <= u64::MAX,
        u <= i64::MAX,
        w <= u64::MAX,
        ts_key_of(x, t as int, v) == ts_key_of(s, u as int, w),
    ensures
        x == s,
        t == u,
        v == w,
{
    let p = i_prefix_of(x);
    let q = i_prefix_of(s);
    let ph = p + dec16(t) + seq![SLASH];
    let qh = q + dec16(u) + seq![SLASH];
    let k = ts_key_of(x, t as int, v);
    assert(k =~= ph + dec16(v));
    assert(k =~= qh + dec16(w));
    number_written(qh, w);
    same_stem(ph, v, qh);
    assert(ph.drop_last() =~= p + dec16(t));
    assert(qh.drop_last() =~= q + dec16(u));
    number_written(q, u);
    same_stem(p, t, q);
    assert(p.len() == x.len() + 3 && q.len() == s.len() + 3);
    assert forall|i: int| 0 <= i < x.len() implies x[i] == s[i] by {
        assert(p[i + 2] == x[i] && q[i + 2] == s[i]);
    }
    assert(x =~= s);
    entry_made(x, t, v);
    entry_made(s, u, w);
}

/// What an append adds to the index of a stream.
proof fn index_grows(db: Db, a: AppendView, stamps: Seq<StampView>, x: Seq<u8>, t: nat, v: nat)
    requires
        goes_in(db, a, stamps),
        tail_ts(db, a.stream) >= 0,
        t <= i64::MAX,
        v <= u64::MAX,
    ensures
        indexed(committed(db, a, stamps), x, t, v) == (indexed(db, x, t, v) || (a.index_ts && x
            == a.stream && is_new(db, seq_of(db), a, stamps, a.events.len() as int, t, v))),
{
    let k = ts_key_of(x, t as int, v);
    classes(x, v, t as int, Seq::empty());
    classes(a.stream, 0, 0, utf8("tail"@));
    index_written(db, seq_of(db), a, stamps, a.events.len() as int, k);
    batch_is_contiguous(db, a, stamps);
    let n = a.events.len() as int;
    if is_new_entry(db, seq_of(db), a, stamps, n, k) {
        let i = choose|i: int|
            0 <= i < n && k == ts_key_of(
                a.stream,
                (#[trigger] envelope_at(db, seq_of(db), a, stamps, i)).ts_ms as int,
                envelope_at(db, seq_of(db), a, stamps, i).version as nat,
            );
        let e = envelope_at(db, seq_of(db), a, stamps, i);
        assert(batch(db, a, stamps)[i] == e);
        entry_apart(x, t, v, a.stream, e.ts_ms as nat, e.version as nat);
        assert(is_new(db, seq_of(db), a, stamps, n, t, v));
    }
}

/// Whether the key is the index key of one of the first `n` events of an append.
spec fn is_new_entry(
    db: Db,
    seq: nat,
    a: AppendView,
    stamps: Seq<StampView>,
    n: int,
    k: Seq<u8>,
) -> bool {
    exists|i: int|
        0 <= i < n && k == ts_key_of(
            a.stream,
            (#[trigger] envelope_at(db, seq, a, stamps, i)).ts_ms as int,
            envelope_at(db, seq, a, stamps, i).version as nat,
        )
}

/// What an append adds to the index.
proof fn index_written(
    db: Db,
    seq: nat,
    a: AppendView,
    stamps: Seq<StampView>,
    n: int,
    k: Seq<u8>,
)
    requires
        0 <= n <= a.events.len(),
        k.len() > 0,
        k[0] == 0x69,
    ensures
        events_written(db, seq, a, stamps, n).contains_key(k) == (db.contains_key(k) || (a.index_ts
            && is_new_entry(db, seq, a, stamps, n, k))),
    decreases n,
{
    if n > 0 {
        index_written(db, seq, a, stamps, n - 1, k);
        let e = envelope_at(db, seq, a, stamps, n - 1);
        classes(a.stream, e.version as nat, e.ts_ms as int, Seq::empty());
        assert(is_new_entry(db, seq, a, stamps, n, k) == (is_new_entry(
            db,
            seq,
            a,
            stamps,
            n - 1,
            k,
        ) || k == ts_key_of(a.stream, e.ts_ms as int, e.version as nat)));
    }
}

/// An indexed append at the tail keeps the time index complete.
pub proof fn append_keeps_index(db: Db, a: AppendView, stamps: Seq<StampView>)
    requires
        lands(db, a, stamps),
        a.index_ts,
        orderly(db, a.stream),
        capped(db, a.stream),
        index_ok(db, a.stream),
        times_capped(db, a.stream),
    ensures
        index_ok(committed(db, a, stamps), a.stream),
        times_capped(committed(db, a, stamps), a.stream),
{
    let db2 = committed(db, a, stamps);
    let s = a.stream;
    let b = batch(db, a, stamps);
    let n = a.events.len() as int;
    batch_is_contiguous(db, a, stamps);
    append_keeps_order(db, a, stamps);
    assert forall|e: EnvelopeView| #[trigger] stored(db2, s, e) implies stored(db, s, e) || exists|
        i: int,
    |
        0 <= i < n && e == #[trigger] b[i] by {
        let k = r_key_of(s, e.version as nat);
        record_own(s, e.version as nat);
        append_records(db, a, stamps, k);
        if !same_at(db, db2, k) {
            let i = choose|i: int|
                0 <= i < n && k == r_key_of(s, (#[trigger] b[i]).version as nat)
                    && db2.contains_key(k) && db2[k] == ValueView::Event(b[i]);
            assert(e == b[i]);
        }
    }
    assert forall|e: EnvelopeView| #[trigger] stored(db, s, e) implies stored(db2, s, e) && forall|
        i: int,
    |
        0 <= i < n ==> e.version < (#[trigger] b[i]).version by {
        let k = r_key_of(s, e.version as nat);
        record_own(s, e.version as nat);
        append_records(db, a, stamps, k);
        if !same_at(db, db2, k) {
            let i = choose|i: int|
                0 <= i < n && k == r_key_of(s, (#[trigger] b[i]).version as nat)
                    && db2.contains_key(k) && db2[k] == ValueView::Event(b[i]);
            record_key_injective(s, e.version as nat, b[i].version as nat);
        }
    }
    assert forall|i: int| 0 <= i < n implies stored(db2, s, #[trigger] b[i]) by {
        written_here(db, seq_of(db), a, stamps, n, i);
        classes(s, b[i].version as nat, 0, utf8("tail"@));
    }
    assert forall|t: nat, v: nat| #[trigger] indexed(db2, s, t, v) implies exists|e: EnvelopeView|
        #[trigger]
        stored(db2, s, e) && e.ts_ms == t && e.version == v by {
        index_grows(db, a, stamps, s, t, v);
        if indexed(db, s, t, v) {
            let e = choose|e: EnvelopeView| #[trigger]
                stored(db, s, e) && e.ts_ms == t && e.version == v;
            assert(stored(db2, s, e));
        } else {
            let i = choose|i: int|
                0 <= i < n && (#[trigger] envelope_at(db, seq_of(db), a, stamps, i)).ts_ms == t
                    && envelope_at(db, seq_of(db), a, stamps, i).version == v;
            assert(stored(db2, s, b[i]));
        }
    }
    assert forall|e: EnvelopeView| #[trigger] stored(db2, s, e) implies 0 <= e.ts_ms && indexed(
        db2,
        s,
        e.ts_ms as nat,
        e.version as nat,
    ) by {
        if stored(db, s, e) {
            index_grows(db, a, stamps, s, e.ts_ms as nat, e.version as nat);
        } else {
            let i = choose|i: int| 0 <= i < n && e == #[trigger] b[i];
            index_grows(db, a, stamps, s, e.ts_ms as nat, e.version as nat);
            assert(envelope_at(db, seq_of(db), a, stamps, i) == b[i]);
            assert(is_new(db, seq_of(db), a, stamps, n, e.ts_ms as nat, e.version as nat));
        }
    }
    assert forall|e: EnvelopeView, f: EnvelopeView|
        #![trigger stored(db2, s, e), stored(db2, s, f)]
        stored(db2, s, e) && stored(db2, s, f) && e.version <= f.version implies e.ts_ms
        <= f.ts_ms by {
        if stored(db, s, e) {
            if !stored(db, s, f) {
                let j = choose|j: int| 0 <= j < n && f == #[trigger] b[j];
                assert(b[j].ts_ms >= tail_ts(db, s));
            }
        } else {
            let i = choose|i: int| 0 <= i < n && e == #[trigger] b[i];
            if stored(db, s, f) {
                assert(f.version < b[i].version);
            } else {
                let j = choose|j: int| 0 <= j < n && f == #[trigger] b[j];
                assert(b[i].version == first_version(db, a) + i);
                assert(b[j].version == first_version(db, a) + j);
            }
        }
    }
    let end = new_tail(db, a, stamps).ts_ms;
    assert(end == b[n - 1].ts_ms);
    assert forall|e: EnvelopeView| #[trigger] stored(db2, s, e) implies e.ts_ms <= tail_ts(
        db2,
        s,
    ) by {
        if stored(db, s, e) {
            assert(b[n - 1].ts_ms >= tail_ts(db, s));
        } else {
            let i = choose|i: int| 0 <= i < n && e == #[trigger] b[i];
            assert(i < n - 1 ==> b[i].ts_ms <= b[n - 1].ts_ms);
        }
    }
}

/// An append leaves the time index of every other stream as it is.
pub proof fn append_leaves_index(db: Db, a: AppendView, stamps: Seq<StampView>, x: Seq<u8>)
    requires
        goes_in(db, a, stamps),
        tail_ts(db, a.stream) >= 0,
        x != a.stream,
        index_ok(db, x),
    ensures
        index_ok(committed(db, a, stamps), x),
{
    let db2 = committed(db, a, stamps);
    assert forall|e: EnvelopeView| #[trigger] stored(db2, x, e) == stored(db, x, e) by {
        let k = r_key_of(x, e.version as nat);
        record_own(x, e.version as nat);
        classes(x, e.version as nat, 0, Seq::empty());
        record_elsewhere(db, a, stamps, x, k);
    }
    assert forall|t: nat, v: nat| #[trigger] indexed(db2, x, t, v) == indexed(db, x, t, v) by {
        if t <= i64::MAX && v <= u64::MAX {
            index_grows(db, a, stamps, x, t, v);
        }
    }
    assert forall|t: nat, v: nat| #[trigger] indexed(db2, x, t, v) implies exists|e: EnvelopeView|
        #[trigger]
        stored(db2, x, e) && e.ts_ms == t && e.version == v by {
        assert(indexed(db, x, t, v));
        let e = choose|e: EnvelopeView| #[trigger]
            stored(db, x, e) && e.ts_ms == t && e.version == v;
        assert(stored(db2, x, e));
    }
    assert forall|e: EnvelopeView| #[trigger] stored(db2, x, e) implies 0 <= e.ts_ms && indexed(
        db2,
        x,
        e.ts_ms as nat,
        e.version as nat,
    ) by {
        assert(stored(db, x, e));
        assert(indexed(db, x, e.ts_ms as nat, e.version as nat));
    }
    assert forall|e: EnvelopeView, f: EnvelopeView|
        #![trigger stored(db2, x, e), stored(db2, x, f)]
        stored(db2, x, e) && stored(db2, x, f) && e.version <= f.version implies e.ts_ms
        <= f.ts_ms by {
        assert(stored(db, x, e) && stored(db, x, f));
    }
}

} // verus!

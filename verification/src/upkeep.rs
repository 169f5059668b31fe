//! What every operation keeps: streams in order under their tails, fork links
//! that lead to a root, snapshots that are numbered.
use vstd::prelude::*;
use vstd::string::*;

use crate::aggregate::{fold_from, Aggregate};
use crate::branches::{reach, rolled, trimmed};
use crate::digits::{be8_roundtrip, cell_bound, dec16, numeral_of};
use crate::envelope::{EnvelopeView, StampView, Version};
use crate::error::Error;
use crate::folds::{
    branch_ok, chain_ok, published_is_latest, rehydrate_equals_full_fold, snap_number, snaps_ok,
    through,
};
use crate::fork::{fork_key_injective, history, history_of, m_key_injective, parent_end};
use crate::jobs::JobEventView;
use crate::kv::{
    compactions_prefix, deleted_key, fork_key, fork_of, forked_from, forks_field, forks_prefix,
    has_good_fork, has_good_tail, jobs_prefix, m_key_of, pinning, r_prefix_of, rollback_field,
    seq_key, snap_prefix_of, tail_key, tail_of, Db, ValueView,
};
use crate::layout::{
    classes, fields_differ, fixed_parts, prefix_class, same_stem, store_parts,
};
use crate::numbered::{number_written, numbered_exists};
use crate::order::{has_prefix, lemma_prefix_of_concat, lemma_prefix_split};
use crate::snapshot::{CompactionView, SnapshotView};
use crate::store::compaction::{
    job_key_of, published, snap_key_of, snap_range, snapshot_of, snapshot_readable, snapshots,
};
use crate::store::reads::{last_version, rehydrate_outcome};
use crate::store::retention::{
    forked, in_rows, purge_batch, purge_batch_rows, purge_range, purge_run, version_at,
    without_rows, without_rows_keys, without_rows_len,
};
use crate::store::{
    appended, committed, envelope_at, events_written, fence_key, fenced, first_version, new_tail,
    number_cell, plain_append, refusal, run_ops, seq_of, AppendView, OpView, Progress,
};
use crate::stream::{
    append_keeps_order, capped, committed_elsewhere, committed_finite,
    goes_in, is_own, is_pin, is_record, orderly, read_is_exact, record_elsewhere, same_at, stored,
};
use crate::text::utf8;

verus! {

/// Where `child` holds its pin on `parent`.
pub open spec fn pin_at(parent: Seq<u8>, child: Seq<u8>) -> Seq<u8> {
    m_key_of(parent, forks_field(child))
}

/// Names of streams none of which has its tail, its fork point or its mark of
/// deletion where another holds a pin.
pub open spec fn distinct(names: Set<Seq<u8>>) -> bool {
    forall|a: Seq<u8>, p: Seq<u8>, c: Seq<u8>|
        #![trigger names.contains(a), pin_at(p, c)]
        names.contains(a) && names.contains(p) && names.contains(c) ==> pin_at(p, c) != tail_key(a)
            && pin_at(p, c) != fork_key(a) && pin_at(p, c) != deleted_key(a)
}

/// Every fork of a named stream is a named one.
pub open spec fn forks_named(db: Db, names: Set<Seq<u8>>) -> bool {
    forall|c: Seq<u8>, x: Seq<u8>| #[trigger]
        forked_from(db, c, x) && names.contains(x) ==> names.contains(c)
}

/// A stream whose records are in order and end at its tail, whose fork point
/// lies in the history of an existing stream, and whose snapshots are numbered.
pub open spec fn stream_ok(db: Db, names: Set<Seq<u8>>, s: Seq<u8>) -> bool {
    &&& orderly(db, s)
    &&& capped(db, s)
    &&& has_good_tail(db, s)
    &&& has_good_fork(db, s)
    &&& fork_of(db, s) is Some ==> ({
        let f = fork_of(db, s)->0;
        let p = utf8(f.stream);
        &&& names.contains(p)
        &&& tail_of(db, s) is Some
        &&& f.at_version <= tail_of(db, s)->0.version
        &&& tail_of(db, p) is Some
        &&& f.at_version <= tail_of(db, p)->0.version
    })
    &&& snaps_ok(db, s)
}

/// Every fork link leads to a stream of a lower rank.
pub open spec fn grounded(db: Db, names: Set<Seq<u8>>, rank: spec_fn(Seq<u8>) -> nat) -> bool {
    forall|s: Seq<u8>| #[trigger]
        names.contains(s) && fork_of(db, s) is Some ==> rank(utf8(fork_of(db, s)->0.stream)) < rank(
            s,
        )
}

/// A store with the streams `names` as the operations leave it.
pub open spec fn sound(db: Db, names: Set<Seq<u8>>) -> bool {
    &&& db.dom().finite()
    &&& distinct(names)
    &&& forks_named(db, names)
    &&& forall|s: Seq<u8>| #[trigger] names.contains(s) ==> stream_ok(db, names, s)
    &&& exists|rank: spec_fn(Seq<u8>) -> nat| #[trigger] grounded(db, names, rank)
}

/// One operation on the store that was let through.
pub enum Step {
    Append { a: AppendView, stamps: Seq<StampView> },
    Commit { ops: Seq<OpView>, batches: Seq<Seq<StampView>> },
    Fence { stream: Seq<u8>, token: Option<Seq<char>> },
    Fork { parent: Seq<char>, at: Version, child: Seq<u8> },
    Rollback { stream: Seq<u8>, from: nat, txn: nat },
    Trim { stream: Seq<u8>, floor: nat },
    Purge { stream: Seq<u8>, next: nat, floor: nat },
    Delete { stream: Seq<u8> },
    Publish { stream: Seq<u8>, record: CompactionView, state: Seq<u8>, id: Seq<char> },
    Journal { id: Seq<char>, event: JobEventView },
}

/// The store after an operation.
pub open spec fn stepped(db: Db, step: Step) -> Db {
    match step {
        Step::Append { a, stamps } => committed(db, a, stamps),
        Step::Commit { ops, batches } => settled(run_ops(db, ops, batches)->0),
        Step::Fence { stream, token } => fenced(db, stream, token),
        Step::Fork { parent, at, child } => forked(db, parent, at, child),
        Step::Rollback { stream, from, txn } => rolled(db, stream, from, txn),
        Step::Trim { stream, floor } => trimmed(db, stream, floor),
        Step::Purge { stream, next, floor } => purge_run(db, stream, next, floor).db,
        Step::Delete { stream } => deleted(db, stream),
        Step::Publish { stream, record, state, id } => published(db, stream, record, state, id),
        Step::Journal { id, event } => db.insert(job_key_of(id), ValueView::Job(event)),
    }
}

/// The store with a stream marked as deleted.
pub open spec fn deleted(db: Db, stream: Seq<u8>) -> Db {
    db.insert(deleted_key(stream), ValueView::Bytes(Seq::empty()))
}

/// The store that a transaction commits: its writes and the bumped counter.
pub open spec fn settled(p: Progress) -> Db {
    p.db.insert(seq_key(), number_cell(p.seq))
}

/// An append to one of the streams, with a stamp per event.
pub open spec fn fits_in(names: Set<Seq<u8>>, a: AppendView, n: nat) -> bool {
    &&& names.contains(a.stream)
    &&& n == a.events.len()
}

/// Whether each append of a transaction goes to one of the streams.
pub open spec fn ops_fit(
    db: Db,
    names: Set<Seq<u8>>,
    ops: Seq<OpView>,
    stamps: Seq<Seq<StampView>>,
) -> bool
    decreases ops.len(),
{
    ops.len() == 0 || ({
        let rest = run_ops(db, ops.drop_last(), stamps);
        &&& ops_fit(db, names, ops.drop_last(), stamps)
        &&& rest is Some
        &&& match ops.last() {
            OpView::Append { stream, expected, events } => fits_in(
                names,
                plain_append(utf8(stream), expected, events),
                stamps[ops.len() - 1].len(),
            ),
            OpView::Fence { .. } => true,
        }
    })
}

/// Whether the operation is let through.
pub open spec fn admitted(db: Db, names: Set<Seq<u8>>, step: Step) -> bool {
    match step {
        Step::Append { a, stamps } => refusal(db, seq_of(db), a) is None && fits_in(
            names,
            a,
            stamps.len(),
        ),
        Step::Commit { ops, batches } => run_ops(db, ops, batches) is Some && ops_fit(
            db,
            names,
            ops,
            batches,
        ),
        Step::Fork { parent, at, child } => {
            &&& names.contains(utf8(parent))
            &&& names.contains(child)
            &&& tail_of(db, utf8(parent)) is Some
            &&& at <= tail_of(db, utf8(parent))->0.version
            &&& tail_of(db, child) is None
        },
        Step::Rollback { stream, from, txn } => from <= u64::MAX,
        Step::Publish { stream, record, state, id } => seq_of(db) < u64::MAX,
        _ => true,
    }
}

/// Nothing that matters to `s` changes from `a` to `b`, but that records of its
/// own may go.
spec fn undisturbed(a: Db, b: Db, s: Seq<u8>) -> bool {
    &&& forall|k: Seq<u8>| #[trigger]
        b.contains_key(k) && is_own(s, k) ==> a.contains_key(k) && b[k] == a[k]
    &&& same_at(a, b, tail_key(s))
    &&& same_at(a, b, fork_key(s))
    &&& forall|k: Seq<u8>| #[trigger]
        b.contains_key(k) && snap_range(s)(k) ==> a.contains_key(k) && b[k] == a[k]
    &&& seq_of(a) <= seq_of(b)
}

proof fn undisturbed_ok(a: Db, b: Db, names: Set<Seq<u8>>, s: Seq<u8>)
    requires
        stream_ok(a, names, s),
        undisturbed(a, b, s),
        fork_of(a, s) is Some ==> ({
            let p = utf8(fork_of(a, s)->0.stream);
            tail_of(b, p) is Some && tail_of(b, p)->0.version >= tail_of(a, p)->0.version
        }),
    ensures
        stream_ok(b, names, s),
{
    assert forall|k: Seq<u8>| #[trigger] b.contains_key(k) && is_own(s, k) implies is_record(
        b,
        s,
        k,
    ) by {
        assert(is_record(a, s, k));
    }
    assert forall|e: EnvelopeView| #[trigger] stored(b, s, e) implies tail_of(b, s) is Some
        && e.version <= tail_of(b, s)->0.version by {
        crate::layout::record_own(s, e.version as nat);
        assert(b.contains_key(crate::kv::r_key_of(s, e.version as nat)));
        assert(stored(a, s, e));
    }
    assert forall|k: Seq<u8>| #[trigger] b.contains_key(k) && snap_range(s)(k) implies b[k] is Snapshot
        && snap_number(s, k) <= seq_of(b) by {
        assert(a.contains_key(k));
    }
}

/// What is a fork in `b` is one in `a`.
spec fn no_new_forks(a: Db, b: Db) -> bool {
    forall|c: Seq<u8>, x: Seq<u8>| #[trigger] forked_from(b, c, x) ==> forked_from(a, c, x)
}

/// What disturbs no stream keeps the store sound.
proof fn undisturbed_sound(a: Db, b: Db, names: Set<Seq<u8>>)
    requires
        sound(a, names),
        b.dom().finite(),
        forall|s: Seq<u8>| #[trigger] names.contains(s) ==> undisturbed(a, b, s),
        no_new_forks(a, b),
    ensures
        sound(b, names),
{
    assert forall|c: Seq<u8>, x: Seq<u8>| #[trigger] forked_from(b, c, x) && names.contains(
        x,
    ) implies names.contains(c) by {
        assert(forked_from(a, c, x));
    }
    assert forall|s: Seq<u8>| #[trigger] names.contains(s) implies stream_ok(b, names, s) by {
        assert(stream_ok(a, names, s));
        if fork_of(a, s) is Some {
            let p = utf8(fork_of(a, s)->0.stream);
            assert(undisturbed(a, b, p));
        }
        undisturbed_ok(a, b, names, s);
    }
    let rank = choose|rank: spec_fn(Seq<u8>) -> nat| #[trigger] grounded(a, names, rank);
    assert(grounded(b, names, rank)) by {
        assert forall|s: Seq<u8>| #[trigger] names.contains(s) && fork_of(b, s) is Some implies rank(
            utf8(fork_of(b, s)->0.stream),
        ) < rank(s) by {
            assert(undisturbed(a, b, s));
            assert(fork_of(a, s) is Some);
        }
    }
}

/// The keys of one stream that the invariant speaks of, by their first byte.
proof fn own_classes(s: Seq<u8>)
    ensures
        tail_key(s).len() > 0 && tail_key(s)[0] == 0x6d,
        fork_key(s).len() > 0 && fork_key(s)[0] == 0x6d,
        seq_key().len() > 0 && seq_key()[0] == 0x67,
        forall|k: Seq<u8>| #[trigger] is_own(s, k) ==> k.len() > 0 && k[0] == 0x72,
        forall|k: Seq<u8>| #[trigger]
            snap_range(s)(k) ==> k.len() > 0 && k[0] == 0x73 && has_prefix(k, snap_prefix_of(s)),
{
    store_parts();
    classes(s, 0, 0, utf8("tail"@));
    classes(s, 0, 0, utf8("fork"@));
    assert forall|k: Seq<u8>| #[trigger] is_own(s, k) implies k.len() > 0 && k[0] == 0x72 by {
        prefix_class(k, r_prefix_of(s));
    }
    assert forall|k: Seq<u8>| #[trigger] snap_range(s)(k) implies k.len() > 0 && k[0] == 0x73
        && has_prefix(k, snap_prefix_of(s)) by {
        prefix_class(k, snap_prefix_of(s));
    }
}

/// A write to a key of another class, or to a field that is no tail and no
/// fork point, and its removal, disturb no stream.
proof fn aside_keeps(db: Db, names: Set<Seq<u8>>, key: Seq<u8>, value: ValueView)
    requires
        sound(db, names),
        key.len() > 0,
        key[0] == 0x6d || key[0] == 0x6a || key[0] == 0x69,
        !(value is Fork),
        forall|s: Seq<u8>| #[trigger]
            names.contains(s) ==> key != tail_key(s) && key != fork_key(s),
    ensures
        sound(db.insert(key, value), names),
        sound(db.remove(key), names),
{
    let more = db.insert(key, value);
    let less = db.remove(key);
    assert forall|s: Seq<u8>| #[trigger] names.contains(s) implies undisturbed(db, more, s)
        && undisturbed(db, less, s) by {
        own_classes(s);
    }
    assert(no_new_forks(db, more));
    assert(no_new_forks(db, less));
    undisturbed_sound(db, more, names);
    undisturbed_sound(db, less, names);
}

/// A field of a stream that ends otherwise is no tail and no fork point.
proof fn field_aside(stream: Seq<u8>, field: Seq<u8>, s: Seq<u8>)
    requires
        field.len() > 0,
        field.last() != 0x6c,
        field.last() != 0x6b,
    ensures
        m_key_of(stream, field) != tail_key(s),
        m_key_of(stream, field) != fork_key(s),
        m_key_of(stream, field).len() > 0,
        m_key_of(stream, field)[0] == 0x6d,
{
    fixed_parts();
    classes(stream, 0, 0, field);
    fields_differ(stream, field, s, utf8("tail"@));
    fields_differ(stream, field, s, utf8("fork"@));
}

proof fn field_keeps(db: Db, names: Set<Seq<u8>>, stream: Seq<u8>, field: Seq<u8>, value: ValueView)
    requires
        sound(db, names),
        field.len() > 0,
        field.last() != 0x6c,
        field.last() != 0x6b,
        !(value is Fork),
    ensures
        sound(db.insert(m_key_of(stream, field), value), names),
        sound(db.remove(m_key_of(stream, field)), names),
{
    let key = m_key_of(stream, field);
    assert forall|s: Seq<u8>| #[trigger] names.contains(s) implies key != tail_key(s) && key
        != fork_key(s) by {
        field_aside(stream, field, s);
    }
    field_aside(stream, field, stream);
    aside_keeps(db, names, key, value);
}

/// The counter reads as it was set.
proof fn seq_set(db: Db, n: nat)
    requires
        n <= u64::MAX,
    ensures
        seq_of(db.insert(seq_key(), number_cell(n))) == n,
{
    be8_roundtrip(n as u64);
}

/// An append keeps the store sound.
pub proof fn append_keeps_sound(
    db: Db,
    names: Set<Seq<u8>>,
    a: AppendView,
    stamps: Seq<StampView>,
)
    requires
        sound(db, names),
        admitted(db, names, (Step::Append { a, stamps })),
    ensures
        sound(committed(db, a, stamps), names),
        seq_of(committed(db, a, stamps)) == seq_of(db) + a.events.len(),
{
    let db2 = committed(db, a, stamps);
    let t = a.stream;
    assert(goes_in(db, a, stamps));
    assert(stream_ok(db, names, t));
    append_keeps_order(db, a, stamps);
    committed_finite(db, a, stamps);
    seq_set(appended(db, seq_of(db), a, stamps), seq_of(db) + a.events.len());
    fixed_parts();
    assert forall|s: Seq<u8>| #[trigger] names.contains(s) implies same_at(db, db2, fork_key(s)) && (s
        != t ==> undisturbed(db, db2, s)) && (forall|k: Seq<u8>| #[trigger]
        snap_range(s)(k) ==> same_at(db, db2, k)) by {
        own_classes(s);
        fields_differ(t, utf8("tail"@), s, utf8("fork"@));
        committed_elsewhere(db, a, stamps, fork_key(s));
        assert forall|k: Seq<u8>| #[trigger] snap_range(s)(k) implies same_at(db, db2, k) by {
            own_classes(t);
            committed_elsewhere(db, a, stamps, k);
        }
        if s != t {
            m_key_injective(s, t, utf8("tail"@));
            committed_elsewhere(db, a, stamps, tail_key(s));
            assert forall|k: Seq<u8>| #[trigger] db2.contains_key(k) && is_own(
                s,
                k,
            ) implies db.contains_key(k) && db2[k] == db[k] by {
                record_elsewhere(db, a, stamps, s, k);
            }
            assert forall|k: Seq<u8>| #[trigger] db2.contains_key(k) && snap_range(s)(
                k,
            ) implies db.contains_key(k) && db2[k] == db[k] by {
                assert(same_at(db, db2, k));
            }
        }
    }
    assert forall|c: Seq<u8>, x: Seq<u8>| #[trigger] forked_from(db2, c, x) && names.contains(
        x,
    ) implies names.contains(c) by {
        classes(c, 0, 0, utf8("fork"@));
        fields_differ(t, utf8("tail"@), c, utf8("fork"@));
        committed_elsewhere(db, a, stamps, fork_key(c));
        assert(forked_from(db, c, x));
    }
    let nt = new_tail(db, a, stamps);
    assert forall|s: Seq<u8>| #[trigger] names.contains(s) implies stream_ok(db2, names, s) by {
        assert(stream_ok(db, names, s));
        if fork_of(db, s) is Some {
            let p = utf8(fork_of(db, s)->0.stream);
            assert(names.contains(p));
            if p != t {
                assert(undisturbed(db, db2, p));
            }
        }
        if s != t {
            undisturbed_ok(db, db2, names, s);
        } else {
            assert forall|k: Seq<u8>| #[trigger] db2.contains_key(k) && snap_range(s)(
                k,
            ) implies db2[k] is Snapshot && snap_number(s, k) <= seq_of(db2) by {
                assert(same_at(db, db2, k));
                assert(db.contains_key(k));
            }
            assert(db2[tail_key(s)] == ValueView::Tail(nt)) by {
                own_classes(s);
            }
        }
    }
    let rank = choose|rank: spec_fn(Seq<u8>) -> nat| #[trigger] grounded(db, names, rank);
    assert(grounded(db2, names, rank)) by {
        assert forall|s: Seq<u8>| #[trigger] names.contains(s) && fork_of(db2, s) is Some implies rank(
            utf8(fork_of(db2, s)->0.stream),
        ) < rank(s) by {
            assert(same_at(db, db2, fork_key(s)));
            assert(fork_of(db, s) is Some);
        }
    }
}

/// A fence keeps the store sound.
pub proof fn fence_keeps_sound(
    db: Db,
    names: Set<Seq<u8>>,
    stream: Seq<u8>,
    token: Option<Seq<char>>,
)
    requires
        sound(db, names),
    ensures
        sound(fenced(db, stream, token), names),
        seq_of(fenced(db, stream, token)) == seq_of(db),
{
    fixed_parts();
    own_classes(stream);
    field_aside(stream, utf8("fence"@), stream);
    field_keeps(db, names, stream, utf8("fence"@), ValueView::Bytes(utf8(token->0)));
}

/// A rollback keeps the store sound.
pub proof fn rollback_keeps_sound(db: Db, names: Set<Seq<u8>>, stream: Seq<u8>, from: nat, txn: nat)
    requires
        sound(db, names),
        from <= u64::MAX,
    ensures
        sound(rolled(db, stream, from, txn), names),
{
    let f = rollback_field(from);
    numeral_of(from);
    assert(f.last() == dec16(from).last());
    assert(crate::digits::is_digit(dec16(from)[dec16(from).len() - 1]));
    field_keeps(db, names, stream, f, number_cell(txn));
}

/// A trim keeps the store sound.
pub proof fn trim_keeps_sound(db: Db, names: Set<Seq<u8>>, stream: Seq<u8>, floor: nat)
    requires
        sound(db, names),
    ensures
        sound(trimmed(db, stream, floor), names),
{
    fixed_parts();
    field_keeps(db, names, stream, utf8("trim"@), number_cell(floor));
}

/// A deletion keeps the store sound.
pub proof fn delete_keeps_sound(db: Db, names: Set<Seq<u8>>, stream: Seq<u8>)
    requires
        sound(db, names),
    ensures
        sound(deleted(db, stream), names),
{
    fixed_parts();
    field_keeps(db, names, stream, utf8("deleted"@), ValueView::Bytes(Seq::empty()));
}

/// A journal entry keeps the store sound.
pub proof fn journal_keeps_sound(db: Db, names: Set<Seq<u8>>, id: Seq<char>, event: JobEventView)
    requires
        sound(db, names),
    ensures
        sound(db.insert(job_key_of(id), ValueView::Job(event)), names),
{
    let key = job_key_of(id);
    store_parts();
    assert(key[0] == jobs_prefix()[0]);
    assert forall|s: Seq<u8>| #[trigger] names.contains(s) implies key != tail_key(s) && key
        != fork_key(s) by {
        own_classes(s);
    }
    aside_keeps(db, names, key, ValueView::Job(event));
}

/// A fork keeps the store sound.
pub proof fn fork_keeps_sound(
    db: Db,
    names: Set<Seq<u8>>,
    parent: Seq<char>,
    at: Version,
    child: Seq<u8>,
)
    requires
        sound(db, names),
        admitted(db, names, (Step::Fork { parent, at, child })),
    ensures
        sound(forked(db, parent, at, child), names),
{
    let db2 = forked(db, parent, at, child);
    let p = utf8(parent);
    let pin = pin_at(p, child);
    assert(stream_ok(db, names, p));
    assert(stream_ok(db, names, child));
    fixed_parts();
    classes(p, 0, 0, forks_field(child));
    classes(child, 0, 0, utf8("tail"@));
    own_classes(child);
    assert forall|s: Seq<u8>| #[trigger] names.contains(s) implies pin != tail_key(s) && pin
        != fork_key(s) && tail_key(s) != fork_key(child) && fork_key(s) != tail_key(child) && (s
        != child ==> undisturbed(db, db2, s)) by {
        own_classes(s);
        fields_differ(s, utf8("tail"@), child, utf8("fork"@));
        fields_differ(child, utf8("tail"@), s, utf8("fork"@));
        if s != child {
            m_key_injective(s, child, utf8("tail"@));
            fork_key_injective(s, child);
        }
    }
    assert(p != child);
    assert(fork_of(db, child) is None);
    assert forall|c: Seq<u8>, x: Seq<u8>| #[trigger] forked_from(db2, c, x) && names.contains(
        x,
    ) implies names.contains(c) by {
        fork_key_injective(c, child);
        if c != child {
            fields_differ(child, utf8("tail"@), c, utf8("fork"@));
            assert(forked_from(db, c, x));
        }
    }
    assert(tail_of(db2, child) is Some && tail_of(db2, child)->0.version == at);
    assert(fork_of(db2, child) is Some && utf8(fork_of(db2, child)->0.stream) == p);
    assert(undisturbed(db, db2, p));
    assert forall|s: Seq<u8>| #[trigger] names.contains(s) implies stream_ok(db2, names, s) by {
        assert(stream_ok(db, names, s));
        if s != child {
            if fork_of(db, s) is Some {
                let q = utf8(fork_of(db, s)->0.stream);
                assert(q != child);
                assert(undisturbed(db, db2, q));
            }
            undisturbed_ok(db, db2, names, s);
        } else {
            assert forall|k: Seq<u8>| #[trigger] db2.contains_key(k) && is_own(
                s,
                k,
            ) implies is_record(db2, s, k) by {
                assert(db.contains_key(k));
                assert(is_record(db, s, k));
            }
            assert forall|e: EnvelopeView| #[trigger] stored(db2, s, e) implies e.version
                <= tail_of(db2, s)->0.version by {
                crate::layout::record_own(s, e.version as nat);
                assert(is_own(s, crate::kv::r_key_of(s, e.version as nat)));
                assert(stored(db, s, e));
            }
            assert forall|k: Seq<u8>| #[trigger] db2.contains_key(k) && snap_range(s)(
                k,
            ) implies db2[k] is Snapshot && snap_number(s, k) <= seq_of(db2) by {
                assert(db.contains_key(k));
            }
        }
    }
    let rank = choose|rank: spec_fn(Seq<u8>) -> nat| #[trigger] grounded(db, names, rank);
    let next = |x: Seq<u8>|
        if x == child {
            rank(p) + 1
        } else {
            rank(x)
        };
    assert(grounded(db2, names, next)) by {
        assert forall|s: Seq<u8>| #[trigger] names.contains(s) && fork_of(db2, s) is Some implies next(
            utf8(fork_of(db2, s)->0.stream),
        ) < next(s) by {
            if s != child {
                assert(undisturbed(db, db2, s));
                assert(fork_of(db, s) is Some);
                assert(stream_ok(db, names, s));
                assert(utf8(fork_of(db, s)->0.stream) != child);
            }
        }
    }
}

/// Purging keeps the store sound.
pub proof fn purge_keeps_sound(db: Db, names: Set<Seq<u8>>, stream: Seq<u8>, next: nat, floor: nat)
    requires
        sound(db, names),
    ensures
        sound(purge_run(db, stream, next, floor).db, names),
    decreases db.dom().len(),
{
    let rows = purge_batch(db, stream, next, floor);
    if next < floor && rows.len() > 0 {
        let p = purge_range(stream, next, floor);
        let db2 = without_rows(db, rows);
        purge_batch_rows(db, stream, next, floor);
        without_rows_len(db, rows);
        without_rows_keys(db, rows);
        assert forall|k: Seq<u8>| in_rows(rows, k) implies k.len() > 0 && k[0] == 0x72 by {
            let i = choose|i: int| 0 <= i < rows.len() && #[trigger] rows[i].0 == k;
            assert(p(rows[i].0));
            classes(stream, 0, 0, Seq::empty());
            prefix_class(k, r_prefix_of(stream));
        }
        assert forall|s: Seq<u8>| #[trigger] names.contains(s) implies undisturbed(db, db2, s) by {
            own_classes(s);
            assert(db2.contains_key(tail_key(s)) == db.contains_key(tail_key(s)));
            assert(db2.contains_key(fork_key(s)) == db.contains_key(fork_key(s)));
            assert(db2.contains_key(seq_key()) == db.contains_key(seq_key()));
        }
        assert forall|c: Seq<u8>, x: Seq<u8>| #[trigger] forked_from(
            db2,
            c,
            x,
        ) implies forked_from(db, c, x) by {
            assert(db2.contains_key(fork_key(c)));
        }
        undisturbed_sound(db, db2, names);
        purge_keeps_sound(db2, names, stream, version_at(stream, rows.last().0) + 1, floor);
    }
}

/// The key of a snapshot is one of one stream's own.
pub proof fn snap_under(s: Seq<u8>, q: nat, x: Seq<u8>)
    requires
        q <= u64::MAX,
        snap_range(x)(snap_key_of(s, q)),
    ensures
        s == x,
{
    let p = snap_prefix_of(s);
    let r = snap_prefix_of(x);
    let n = utf8("snap/"@).len() as int;
    same_stem(p, q, r);
    assert(p.len() == n + s.len() + 1 && r.len() == n + x.len() + 1);
    assert forall|i: int| 0 <= i < x.len() implies s[i] == x[i] by {
        assert(p[n + i] == s[i] && r[n + i] == x[i]);
    }
    assert(s =~= x);
}

/// A publication keeps the store sound.
pub proof fn publish_keeps_sound(
    db: Db,
    names: Set<Seq<u8>>,
    stream: Seq<u8>,
    record: CompactionView,
    state: Seq<u8>,
    id: Seq<char>,
)
    requires
        sound(db, names),
        seq_of(db) < u64::MAX,
    ensures
        sound(published(db, stream, record, state, id), names),
{
    let db2 = published(db, stream, record, state, id);
    let new = snap_key_of(stream, seq_of(db) + 1);
    let announce = compactions_prefix() + utf8(id);
    store_parts();
    classes(stream, 0, 0, Seq::empty());
    lemma_prefix_of_concat(snap_prefix_of(stream), dec16(seq_of(db) + 1));
    prefix_class(new, snap_prefix_of(stream));
    assert(announce[0] == compactions_prefix()[0]);
    assert(seq_of(db2) == seq_of(db) + 1) by {
        be8_roundtrip((seq_of(db) + 1) as u64);
    }
    // Beside the snapshot nothing is disturbed.
    let rest = db2.remove(new);
    assert(rest.dom().finite());
    assert forall|s: Seq<u8>| #[trigger] names.contains(s) implies undisturbed(db, rest, s) by {
        own_classes(s);
    }
    assert forall|c: Seq<u8>, x: Seq<u8>| #[trigger] forked_from(rest, c, x) implies forked_from(
        db,
        c,
        x,
    ) by {
        own_classes(c);
    }
    undisturbed_sound(db, rest, names);
    assert forall|c: Seq<u8>, x: Seq<u8>| #[trigger] forked_from(db2, c, x) && names.contains(
        x,
    ) implies names.contains(c) by {
        own_classes(c);
        assert(forked_from(rest, c, x));
    }
    assert forall|s: Seq<u8>| #[trigger] names.contains(s) implies stream_ok(db2, names, s) by {
        assert(stream_ok(rest, names, s));
        own_classes(s);
        if fork_of(rest, s) is Some {
            own_classes(utf8(fork_of(rest, s)->0.stream));
        }
        assert forall|k: Seq<u8>| #[trigger] db2.contains_key(k) && is_own(s, k) implies is_record(
            db2,
            s,
            k,
        ) by {
            assert(rest.contains_key(k));
            assert(is_record(rest, s, k));
        }
        assert forall|e: EnvelopeView| #[trigger] stored(db2, s, e) implies tail_of(db2, s) is Some
            && e.version <= tail_of(db2, s)->0.version by {
            crate::layout::record_own(s, e.version as nat);
            assert(is_own(s, crate::kv::r_key_of(s, e.version as nat)));
            assert(stored(rest, s, e));
        }
        assert forall|k: Seq<u8>| #[trigger] db2.contains_key(k) && snap_range(s)(
            k,
        ) implies db2[k] is Snapshot && snap_number(s, k) <= seq_of(db2) by {
            if k == new {
                snap_under(stream, seq_of(db) + 1, s);
                number_written(snap_prefix_of(s), seq_of(db) + 1);
            } else {
                assert(rest.contains_key(k));
            }
        }
    }
    let rank = choose|rank: spec_fn(Seq<u8>) -> nat| #[trigger] grounded(rest, names, rank);
    assert(grounded(db2, names, rank)) by {
        assert forall|s: Seq<u8>| #[trigger] names.contains(s) && fork_of(db2, s) is Some implies rank(
            utf8(fork_of(db2, s)->0.stream),
        ) < rank(s) by {
            own_classes(s);
            assert(fork_of(rest, s) is Some);
        }
    }
}

// ---- transactions ---------------------------------------------------------

/// The counter is no part of what an append reads or writes beside it.
proof fn written_beside_counter(
    db: Db,
    v: ValueView,
    seq: nat,
    a: AppendView,
    stamps: Seq<StampView>,
    n: int,
)
    requires
        0 <= n <= a.events.len(),
    ensures
        events_written(db.insert(seq_key(), v), seq, a, stamps, n) == events_written(
            db,
            seq,
            a,
            stamps,
            n,
        ).insert(seq_key(), v),
    decreases n,
{
    let g = seq_key();
    if n > 0 {
        written_beside_counter(db, v, seq, a, stamps, n - 1);
        own_classes(a.stream);
        let e = envelope_at(db, seq, a, stamps, n - 1);
        assert(envelope_at(db.insert(g, v), seq, a, stamps, n - 1) == e);
        classes(a.stream, e.version as nat, e.ts_ms as int, Seq::empty());
        assert(events_written(db.insert(g, v), seq, a, stamps, n) =~= events_written(
            db,
            seq,
            a,
            stamps,
            n,
        ).insert(g, v));
    }
}

/// An append in a transaction is the append on the store with the counter as it
/// stands.
proof fn append_settles(p: Progress, a: AppendView, st: Seq<StampView>)
    requires
        p.seq <= u64::MAX,
        a.from_version is None,
    ensures
        seq_of(settled(p)) == p.seq,
        refusal(settled(p), p.seq, a) == refusal(p.db, p.seq, a),
        committed(settled(p), a, st) == appended(p.db, p.seq, a, st).insert(
            seq_key(),
            number_cell(p.seq + a.events.len()),
        ),
{
    let g = seq_key();
    let before = settled(p);
    let n = a.events.len() as int;
    seq_set(p.db, p.seq);
    own_classes(a.stream);
    fixed_parts();
    classes(a.stream, 0, 0, utf8("fence"@));
    assert(same_at(p.db, before, tail_key(a.stream)));
    assert(same_at(p.db, before, fence_key(a.stream)));
    assert(tail_of(before, a.stream) == tail_of(p.db, a.stream));
    assert(first_version(before, a) == first_version(p.db, a));
    assert(new_tail(before, a, st) == new_tail(p.db, a, st));
    written_beside_counter(p.db, number_cell(p.seq), p.seq, a, st, n);
    let x = events_written(p.db, p.seq, a, st, n);
    let t = ValueView::Tail(new_tail(p.db, a, st));
    let c = number_cell(p.seq + a.events.len());
    assert(x.insert(g, number_cell(p.seq)).insert(tail_key(a.stream), t).insert(g, c) =~= x.insert(
        tail_key(a.stream),
        t,
    ).insert(g, c));
}

/// A transaction with nothing in it keeps the store sound.
proof fn settling_keeps_sound(db: Db, names: Set<Seq<u8>>)
    requires
        sound(db, names),
    ensures
        seq_of(db) <= u64::MAX,
        sound(db.insert(seq_key(), number_cell(seq_of(db))), names),
{
    let g = seq_key();
    if db.contains_key(g) {
        match db[g] {
            ValueView::Bytes(b) => cell_bound(b),
            _ => {},
        }
    }
    let after = db.insert(g, number_cell(seq_of(db)));
    seq_set(db, seq_of(db));
    assert forall|s: Seq<u8>| #[trigger] names.contains(s) implies undisturbed(db, after, s) by {
        own_classes(s);
    }
    assert forall|c: Seq<u8>, x: Seq<u8>| #[trigger] forked_from(after, c, x) implies forked_from(
        db,
        c,
        x,
    ) by {
        own_classes(c);
    }
    undisturbed_sound(db, after, names);
}

/// A transaction keeps the store sound.
pub proof fn commit_keeps_sound(
    db: Db,
    names: Set<Seq<u8>>,
    ops: Seq<OpView>,
    stamps: Seq<Seq<StampView>>,
)
    requires
        sound(db, names),
        admitted(db, names, (Step::Commit { ops, batches: stamps })),
    ensures
        sound(settled(run_ops(db, ops, stamps)->0), names),
        run_ops(db, ops, stamps)->0.seq <= u64::MAX,
    decreases ops.len(),
{
    if ops.len() == 0 {
        settling_keeps_sound(db, names);
    } else {
        let rest = ops.drop_last();
        commit_keeps_sound(db, names, rest, stamps);
        let p = run_ops(db, rest, stamps)->0;
        let q = run_ops(db, ops, stamps)->0;
        match ops.last() {
            OpView::Append { stream, expected, events } => {
                let a = plain_append(utf8(stream), expected, events);
                let st = stamps[ops.len() - 1];
                append_settles(p, a, st);
                append_keeps_sound(settled(p), names, a, st);
                assert(committed(settled(p), a, st) == settled(q));
            },
            OpView::Fence { stream, token } => {
                let s = utf8(stream);
                fence_keeps_sound(settled(p), names, s, token);
                fence_settles(p.db, s, token, number_cell(p.seq));
            },
        }
    }
}

proof fn fence_settles(db: Db, s: Seq<u8>, token: Option<Seq<char>>, v: ValueView)
    ensures
        fenced(db.insert(seq_key(), v), s, token) == fenced(db, s, token).insert(seq_key(), v),
{
    fixed_parts();
    own_classes(s);
    field_aside(s, utf8("fence"@), s);
    assert(fenced(db.insert(seq_key(), v), s, token) =~= fenced(db, s, token).insert(
        seq_key(),
        v,
    ));
}

// ---- runs of operations ---------------------------------------------------

/// Every operation keeps the store sound.
pub proof fn step_keeps_sound(db: Db, names: Set<Seq<u8>>, step: Step)
    requires
        sound(db, names),
        admitted(db, names, step),
    ensures
        sound(stepped(db, step), names),
{
    match step {
        Step::Append { a, stamps } => append_keeps_sound(db, names, a, stamps),
        Step::Commit { ops, batches } => commit_keeps_sound(db, names, ops, batches),
        Step::Fence { stream, token } => fence_keeps_sound(db, names, stream, token),
        Step::Fork { parent, at, child } => fork_keeps_sound(db, names, parent, at, child),
        Step::Rollback { stream, from, txn } => rollback_keeps_sound(db, names, stream, from, txn),
        Step::Trim { stream, floor } => trim_keeps_sound(db, names, stream, floor),
        Step::Purge { stream, next, floor } => purge_keeps_sound(db, names, stream, next, floor),
        Step::Delete { stream } => delete_keeps_sound(db, names, stream),
        Step::Publish { stream, record, state, id } => publish_keeps_sound(
            db,
            names,
            stream,
            record,
            state,
            id,
        ),
        Step::Journal { id, event } => journal_keeps_sound(db, names, id, event),
    }
}

/// The store after a run of operations.
pub open spec fn run_steps(db: Db, steps: Seq<Step>) -> Db
    decreases steps.len(),
{
    if steps.len() == 0 {
        db
    } else {
        stepped(run_steps(db, steps.drop_last()), steps.last())
    }
}

/// Whether each operation of the run is let through at its turn.
pub open spec fn all_admitted(db: Db, names: Set<Seq<u8>>, steps: Seq<Step>) -> bool
    decreases steps.len(),
{
    steps.len() == 0 || (all_admitted(db, names, steps.drop_last()) && admitted(
        run_steps(db, steps.drop_last()),
        names,
        steps.last(),
    ))
}

/// A store is sound after any run of operations on a sound one.
pub proof fn steps_keep_sound(db: Db, names: Set<Seq<u8>>, steps: Seq<Step>)
    requires
        sound(db, names),
        all_admitted(db, names, steps),
    ensures
        sound(run_steps(db, steps), names),
    decreases steps.len(),
{
    if steps.len() > 0 {
        steps_keep_sound(db, names, steps.drop_last());
        step_keeps_sound(run_steps(db, steps.drop_last()), names, steps.last());
    }
}

/// An empty store is sound.
pub proof fn empty_is_sound(names: Set<Seq<u8>>)
    requires
        distinct(names),
    ensures
        sound(Map::empty(), names),
{
    let db: Db = Map::empty();
    let rank = |x: Seq<u8>| 0nat;
    assert(grounded(db, names, rank));
    assert forall|s: Seq<u8>| #[trigger] names.contains(s) implies stream_ok(db, names, s) by {
        assert(forall|e: EnvelopeView| !#[trigger] stored(db, s, e));
    }
}

// ---- what a sound store gives ---------------------------------------------

/// In a sound store the tail of a stream is no pin.
pub proof fn tail_is_no_pin(db: Db, names: Set<Seq<u8>>, t: Seq<u8>, x: Seq<u8>)
    requires
        sound(db, names),
        names.contains(t),
        names.contains(x),
    ensures
        !is_pin(db, x, tail_key(t)),
{
    let k = tail_key(t);
    if is_pin(db, x, k) {
        let c = pinning(x, k);
        assert(forked_from(db, c, x));
        lemma_prefix_split(k, forks_prefix(x));
        assert(k =~= pin_at(x, c));
    }
}

/// In a sound store every stream of a fork chain is in order.
pub proof fn sound_chain(db: Db, names: Set<Seq<u8>>, s: Seq<u8>)
    requires
        sound(db, names),
        names.contains(s),
    ensures
        chain_ok(db, s),
        orderly(db, s),
        capped(db, s),
        snaps_ok(db, s),
{
    assert(stream_ok(db, names, s));
    assert forall|n: nat| (#[trigger] reach(db, s, n)) is Some implies branch_ok(
        db,
        reach(db, s, n)->0,
    ) by {
        chain_stays(db, names, s, n);
        let x = reach(db, s, n)->0;
        assert(stream_ok(db, names, x));
        if fork_of(db, x) is Some {
            assert(stream_ok(db, names, utf8(fork_of(db, x)->0.stream)));
        }
    }
}

pub proof fn chain_stays(db: Db, names: Set<Seq<u8>>, s: Seq<u8>, n: nat)
    requires
        sound(db, names),
        names.contains(s),
        reach(db, s, n) is Some,
    ensures
        names.contains(reach(db, s, n)->0),
    decreases n,
{
    if n > 0 {
        assert(stream_ok(db, names, s));
        chain_stays(db, names, utf8(fork_of(db, s)->0.stream), (n - 1) as nat);
    }
}

/// In a sound store every history can be read.
pub proof fn sound_history(db: Db, names: Set<Seq<u8>>, s: Seq<u8>, lo: nat, hi: Option<nat>)
    requires
        sound(db, names),
        names.contains(s),
    ensures
        history_of(db, s, lo, hi) is Ok,
{
    let rank = choose|rank: spec_fn(Seq<u8>) -> nat| #[trigger] grounded(db, names, rank);
    history_reads(db, names, rank, s, Set::empty(), lo, hi);
}

/// The keys are those of fork points of streams above `s`.
spec fn above(seen: Set<Seq<u8>>, rank: spec_fn(Seq<u8>) -> nat, s: Seq<u8>) -> bool {
    forall|x: Seq<u8>| seen.contains(#[trigger] fork_key(x)) ==> rank(s) < rank(x)
}

proof fn history_reads(
    db: Db,
    names: Set<Seq<u8>>,
    rank: spec_fn(Seq<u8>) -> nat,
    s: Seq<u8>,
    seen: Set<Seq<u8>>,
    lo: nat,
    hi: Option<nat>,
)
    requires
        sound(db, names),
        grounded(db, names, rank),
        names.contains(s),
        above(seen, rank, s),
    ensures
        history(db, s, seen, lo, hi) is Ok,
    decreases rank(s),
{
    assert(stream_ok(db, names, s));
    assert(!seen.contains(fork_key(s)));
    read_is_exact(db, s, lo, hi);
    if fork_of(db, s) is Some {
        let f = fork_of(db, s)->0;
        let q = utf8(f.stream);
        assert(stream_ok(db, names, q));
        read_is_exact(db, s, crate::kv::max(lo, f.at_version as nat + 1), hi);
        let next = seen.insert(fork_key(s));
        assert(above(next, rank, q)) by {
            assert forall|x: Seq<u8>| next.contains(#[trigger] fork_key(x)) implies rank(q) < rank(
                x,
            ) by {
                fork_key_injective(x, s);
                if x != s {
                    assert(seen.contains(fork_key(x)));
                }
            }
        }
        history_reads(db, names, rank, q, next, lo, parent_end(f.at_version, hi));
    }
}

/// In a sound store a published snapshot is the latest one.
pub proof fn sound_publish(
    db: Db,
    names: Set<Seq<u8>>,
    s: Seq<u8>,
    record: CompactionView,
    state: Seq<u8>,
    id: Seq<char>,
)
    requires
        sound(db, names),
        names.contains(s),
        seq_of(db) < u64::MAX,
    ensures
        snapshot_readable(published(db, s, record, state, id), s),
        snapshot_of(published(db, s, record, state, id), s) == Some(
            SnapshotView { through_version: record.through_version, ts_ms: record.ts_ms, state },
        ),
{
    sound_chain(db, names, s);
    published_is_latest(db, s, record, state, id);
}

/// Whether the snapshot, where there is one, restores to the fold of the
/// history through its version.
pub open spec fn snapshot_true<A: Aggregate>(db: Db, s: Seq<u8>) -> bool {
    match snapshot_of(db, s) {
        Some(snap) => {
            let m = (snap.through_version + 1) as nat;
            A::restored(snap.state) == Some(
                fold_from(A::start(), history_of(db, s, 0, Some(m))->Ok_0),
            )
        },
        None => true,
    }
}

/// In a sound store a rehydration gives the fold of the full history, at the
/// version of its last event, or of the snapshot where no event lies past it.
pub proof fn rehydrate_is_fold<A: Aggregate>(
    db: Db,
    names: Set<Seq<u8>>,
    s: Seq<u8>,
    r: Result<(A, Option<Version>), Error>,
)
    requires
        sound(db, names),
        names.contains(s),
        snapshot_true::<A>(db, s),
        rehydrate_outcome(db, s, r),
    ensures
        r is Ok,
        history_of(db, s, 0, None) is Ok,
        r->Ok_0.0 == fold_from(A::start(), history_of(db, s, 0, None)->Ok_0),
        r->Ok_0.1 == (match snapshot_of(db, s) {
            Some(snap) => Some(
                through(snap.through_version, last_version(history_of(db, s, 0, None)->Ok_0)),
            ),
            None => last_version(history_of(db, s, 0, None)->Ok_0),
        }),
{
    sound_chain(db, names, s);
    sound_history(db, names, s, 0, None);
    assert(snapshot_readable(db, s)) by {
        let rows = snapshots(db, s);
        numbered_exists(db, snap_prefix_of(s), 0, None);
        if rows.len() > 0 {
            let k = rows[rows.len() - 1].0;
            assert(db.contains_key(rows[rows.len() - 1].0) && snap_range(s)(k));
        }
    }
    if snapshot_of(db, s) is Some {
        let snap = snapshot_of(db, s)->0;
        sound_history(db, names, s, 0, Some((snap.through_version + 1) as nat));
        rehydrate_equals_full_fold(db, s, snap, r);
    }
}

} // verus!

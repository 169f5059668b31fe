//! What an operation has to have read. A store that works on these records
//! alone answers as one that holds everything, and makes the same changes.
use vstd::prelude::*;

use crate::envelope::StampView;
use crate::fork::{history, parent_end};
use crate::kv::{fork_key, max, seq_key, tail_key, Db};
use crate::store::{
    append_info, committed, envelope_at, events_written, fence_key, refusal, seq_of, AppendView,
};
use crate::stream::{same_at, same_guarded, same_guards, same_reads, same_reads_read_alike};
use crate::text::utf8;

verus! {

/// Both stores hold the same for an append: the tail, the fence and the
/// sequence counter.
pub open spec fn same_append(a: Db, b: Db, stream: Seq<u8>) -> bool {
    &&& same_at(a, b, tail_key(stream))
    &&& same_at(a, b, fence_key(stream))
    &&& same_at(a, b, seq_key())
}

/// At `k` both stores end up the same, or neither changed.
pub open spec fn same_change(a: Db, after_a: Db, b: Db, after_b: Db, k: Seq<u8>) -> bool {
    same_at(after_a, after_b, k) || same_at(a, after_a, k) && same_at(b, after_b, k)
}

/// An append needs to have read the tail, the fence and the counter only, and
/// in place the pins on the stream: with the same of these it is refused alike,
/// answers alike, and makes the same changes.
pub proof fn append_needs_only(db: Db, part: Db, a: AppendView, stamps: Seq<StampView>)
    requires
        same_append(db, part, a.stream),
        a.from_version is Some ==> same_guarded(db, part, a.stream),
    ensures
        refusal(db, seq_of(db), a) == refusal(part, seq_of(part), a),
        append_info(db, seq_of(db), a) == append_info(part, seq_of(part), a),
        forall|k: Seq<u8>|
            same_change(db, committed(db, a, stamps), part, committed(part, a, stamps), k),
{
    assert(seq_of(db) == seq_of(part));
    if a.from_version is Some {
        same_guards(db, part, a.stream);
    }
    let seq = seq_of(db);
    let n = a.events.len() as int;
    assert forall|k: Seq<u8>|
        same_change(db, committed(db, a, stamps), part, committed(part, a, stamps), k) by {
        events_change_alike(db, part, seq, a, stamps, n, k);
    }
}

proof fn events_change_alike(
    db: Db,
    part: Db,
    seq: nat,
    a: AppendView,
    stamps: Seq<StampView>,
    n: int,
    k: Seq<u8>,
)
    requires
        same_append(db, part, a.stream),
    ensures
        same_change(
            db,
            events_written(db, seq, a, stamps, n),
            part,
            events_written(part, seq, a, stamps, n),
            k,
        ),
    decreases n,
{
    if n > 0 {
        events_change_alike(db, part, seq, a, stamps, n - 1, k);
        assert(envelope_at(db, seq, a, stamps, n - 1) == envelope_at(
            part,
            seq,
            a,
            stamps,
            n - 1,
        ));
    }
}

/// A fork chain within `chain`: the parent of every stream of it is in it.
pub open spec fn is_chain(db: Db, chain: Set<Seq<u8>>) -> bool {
    forall|s: Seq<u8>| #[trigger]
        chain.contains(s) && db.contains_key(fork_key(s)) && db[fork_key(s)] is Fork
            ==> chain.contains(utf8(db[fork_key(s)]->Fork_0.stream))
}

/// Both stores hold the same for the history of the streams of a chain.
pub open spec fn same_chain(a: Db, b: Db, chain: Set<Seq<u8>>) -> bool {
    forall|s: Seq<u8>| #[trigger]
        chain.contains(s) ==> same_reads(a, b, s) && same_at(a, b, fork_key(s))
}

/// A history needs to have read the streams of its fork chain only: with the
/// same of these it resolves alike.
pub proof fn history_needs_only(
    a: Db,
    b: Db,
    chain: Set<Seq<u8>>,
    stream: Seq<u8>,
    seen: Set<Seq<u8>>,
    lo: nat,
    hi: Option<nat>,
)
    requires
        a.dom().finite(),
        b.dom().finite(),
        is_chain(a, chain),
        same_chain(a, b, chain),
        chain.contains(stream),
    ensures
        history(a, stream, seen, lo, hi) == history(b, stream, seen, lo, hi),
    decreases a.dom().difference(seen).len(),
{
    same_reads_read_alike(a, b, stream, lo, hi);
    let k = fork_key(stream);
    if a.contains_key(k) && a[k] is Fork && !seen.contains(k) {
        let f = a[k]->Fork_0;
        same_reads_read_alike(a, b, stream, max(lo, f.at_version as nat + 1), hi);
        crate::fork::lemma_shrinks(a.dom(), seen, k);
        history_needs_only(
            a,
            b,
            chain,
            utf8(f.stream),
            seen.insert(k),
            lo,
            parent_end(f.at_version, hi),
        );
    }
}

} // verus!

//! State machines rebuilt by folding a stream.
use vstd::prelude::*;
use vstd::string::*;

use crate::envelope::{EnvelopeView, Event};
use crate::error::{refuse, says, Error};

verus! {

/// A state machine rebuilt by folding a stream's events in version order.
///
/// Optional: one can always fold the events of a stream oneself. Implementing
/// it gives rehydration and compaction. The specification functions say what
/// the methods do; an implementation outside of verified code may leave them
/// at their defaults, which say nothing.
pub trait Aggregate: Sized {
    /// The state before any event.
    open spec fn start() -> Self {
        arbitrary()
    }

    /// The state after one more event.
    open spec fn step(self, e: EnvelopeView) -> Self {
        arbitrary()
    }

    /// The bytes that stand for this state in a snapshot, if it can be saved.
    open spec fn saved(&self) -> Option<Seq<u8>> {
        arbitrary()
    }

    /// The state that snapshot bytes stand for, if they stand for one.
    open spec fn restored(state: Seq<u8>) -> Option<Self> {
        arbitrary()
    }

    /// Whether [`Aggregate::snapshot`] answers with this error.
    open spec fn unsavable(&self, e: Error) -> bool {
        arbitrary()
    }

    /// Whether [`Aggregate::restore`] answers such bytes with this error.
    open spec fn unrestorable(state: Seq<u8>, e: Error) -> bool {
        arbitrary()
    }

    fn initial() -> (r: Self)
        ensures
            r == Self::start(),
    ;

    /// Folds one event into the state. This method is infallible so older code
    /// can read streams containing newer event types; ignore unknown types.
    fn apply(&mut self, event: &Event)
        ensures
            *final(self) == old(self).step(event@),
    ;

    /// Serializes folded state for a snapshot.
    fn snapshot(&self) -> (r: Result<Vec<u8>, Error>)
        ensures
            match r {
                Ok(b) => self.saved() == Some(b@),
                Err(e) => self.saved() is None && self.unsavable(e),
            },
    ;

    /// Rebuilds folded state from snapshot bytes.
    fn restore(state: &[u8]) -> (r: Result<Self, Error>)
        ensures
            match r {
                Ok(a) => Self::restored(state@) == Some(a),
                Err(e) => Self::restored(state@) is None && Self::unrestorable(state@, e),
            },
    ;
}

/// The answer of an aggregate without snapshots to [`Aggregate::snapshot`].
pub fn no_snapshot() -> (e: Error)
    ensures
        says(e, "aggregate does not implement snapshot()"@),
{
    refuse("aggregate does not implement snapshot()")
}

/// The answer of an aggregate without snapshots to [`Aggregate::restore`].
pub fn no_restore() -> (e: Error)
    ensures
        says(e, "aggregate does not implement restore()"@),
{
    refuse("aggregate does not implement restore()")
}

/// `a` after the events of `s`, in order.
pub open spec fn fold_from<A: Aggregate>(a: A, s: Seq<EnvelopeView>) -> A
    decreases s.len(),
{
    if s.len() == 0 {
        a
    } else {
        fold_from(a, s.drop_last()).step(s.last())
    }
}

/// Folding two runs is folding the first and then the second.
pub proof fn fold_concat<A: Aggregate>(a: A, s: Seq<EnvelopeView>, t: Seq<EnvelopeView>)
    ensures
        fold_from(a, s + t) == fold_from(fold_from(a, s), t),
    decreases t.len(),
{
    if t.len() == 0 {
        assert(s + t =~= s);
    } else {
        fold_concat(a, s, t.drop_last());
        assert((s + t).drop_last() =~= s + t.drop_last());
        assert((s + t).last() == t.last());
    }
}

} // verus!

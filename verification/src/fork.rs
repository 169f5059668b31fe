//! Metadata-only stream forks.
//!
//! A fork records a [`ForkRef`] for the child. No events are copied: the
//! child shares the parent's history through `at_version` (pinned; later
//! parent appends are not visible) and continues its own version numbering.
use vstd::prelude::*;
use vstd::string::*;

use crate::envelope::{EnvelopeView, Event, Version};
use crate::error::Error;
use crate::kv::{
    answers, fork_key, fork_ref, has_good_fork, is_fault, m_key_of, max, read_events,
    read_outcome, Db, Fault, Records,
};
use crate::numbered::opt_nat;
use crate::table::{views, Dup};
use crate::text::{same_text, utf8, utf8_concat};

verus! {

/// Fork metadata of a stream: the branch point.
#[derive(Debug)]
pub struct ForkRef {
    pub stream: String,
    pub at_version: Version,
}

pub struct ForkView {
    pub stream: Seq<char>,
    pub at_version: Version,
}

impl View for ForkRef {
    type V = ForkView;

    open spec fn view(&self) -> ForkView {
        ForkView { stream: self.stream@, at_version: self.at_version }
    }
}

impl Dup for ForkRef {
    fn dup(&self) -> (r: Self) {
        ForkRef { stream: self.stream.clone(), at_version: self.at_version }
    }
}

/// The part of `[lo, hi)` that a child pinned at `at` takes from its parent
/// ends here.
pub open spec fn parent_end(at: Version, hi: Option<nat>) -> Option<nat> {
    if at == u64::MAX {
        hi
    } else {
        match hi {
            Some(h) => if h < at + 1 {
                Some(h)
            } else {
                Some((at + 1) as nat)
            },
            None => Some((at + 1) as nat),
        }
    }
}

/// Whether `[lo, hi)` holds no version.
pub open spec fn no_versions(lo: nat, hi: Option<nat>) -> bool {
    hi is Some && lo >= hi->0
}

/// The logical history of `stream` over `[lo, hi)`: what the parent
/// contributes through the fork point, then the stream's own events. `seen`
/// holds the fork keys of the chain so far.
pub open spec fn history(
    db: Db,
    stream: Seq<u8>,
    seen: Set<Seq<u8>>,
    lo: nat,
    hi: Option<nat>,
) -> Result<Seq<EnvelopeView>, Fault>
    decreases db.dom().difference(seen).len(),
    when db.dom().finite()
{
    proof {
        if db.contains_key(fork_key(stream)) && !seen.contains(fork_key(stream)) {
            lemma_shrinks(db.dom(), seen, fork_key(stream));
        }
    }
    if no_versions(lo, hi) {
        Ok(Seq::empty())
    } else if seen.contains(fork_key(stream)) {
        Err(Fault::Cycle { stream })
    } else if !has_good_fork(db, stream) {
        Err(Fault::BadRecord)
    } else {
        if db.contains_key(fork_key(stream)) {
            let f = db[fork_key(stream)]->Fork_0;
            let end = parent_end(f.at_version, hi);
            let own = own_outcome(db, stream, f.at_version, lo, hi);
            let inherited = if no_versions(lo, end) {
                Ok(Seq::empty())
            } else {
                history(db, utf8(f.stream), seen.insert(fork_key(stream)), lo, end)
            };
            match (inherited, own) {
                (Ok(a), Ok(b)) => Ok(a + b),
                (Err(e), _) => Err(e),
                (_, Err(e)) => Err(e),
            }
        } else {
            read_outcome(db, stream, lo, hi)
        }
    }
}

/// What a fork itself contributes to `[lo, hi)`: its events after the fork
/// point.
pub open spec fn own_outcome(
    db: Db,
    stream: Seq<u8>,
    at: Version,
    lo: nat,
    hi: Option<nat>,
) -> Result<Seq<EnvelopeView>, Fault> {
    if at == u64::MAX {
        Ok(Seq::empty())
    } else {
        read_outcome(db, stream, max(lo, at as nat + 1), hi)
    }
}

/// Marking one more key as seen leaves fewer unseen.
pub proof fn lemma_shrinks(all: Set<Seq<u8>>, seen: Set<Seq<u8>>, k: Seq<u8>)
    requires
        all.finite(),
        all.contains(k),
        !seen.contains(k),
    ensures
        all.difference(seen.insert(k)).len() < all.difference(seen).len(),
{
    let d = all.difference(seen);
    vstd::set_lib::lemma_set_subset_finite(all, d);
    assert(all.difference(seen.insert(k)) =~= d.remove(k));
}

/// Two streams with one fork key are one stream.
pub proof fn fork_key_injective(a: Seq<u8>, b: Seq<u8>)
    ensures
        (fork_key(a) == fork_key(b)) == (a == b),
{
    m_key_injective(a, b, utf8("fork"@));
}

pub proof fn m_key_injective(a: Seq<u8>, b: Seq<u8>, field: Seq<u8>)
    ensures
        (m_key_of(a, field) == m_key_of(b, field)) == (a == b),
{
    let x = m_key_of(a, field);
    let y = m_key_of(b, field);
    if x == y {
        assert(x.len() == 3 + a.len() + field.len());
        assert(y.len() == 3 + b.len() + field.len());
        assert forall|i: int| 0 <= i < a.len() implies a[i] == b[i] by {
            assert(x[i + 2] == a[i]);
            assert(y[i + 2] == b[i]);
        }
        assert(a =~= b);
    }
}

/// The fork keys of the streams visited so far.
pub open spec fn seen_keys(visited: Seq<String>) -> Set<Seq<u8>> {
    Set::new(|k: Seq<u8>| exists|i: int|
        0 <= i < visited.len() && k == fork_key(utf8((#[trigger] visited[i])@)))
}

/// Logical history of `stream` over `[lo, hi)`: fork-chain prefixes pinned at
/// each fork point, then local events. The range is intersected with each
/// chain segment's window and pushed down to the scans, so out-of-range
/// history is never read. The `visited` check guards against hand-crafted
/// cycles: the store itself only forks from older streams.
pub fn resolve_history(
    db: &Records,
    stream: &str,
    visited: &mut Vec<String>,
    lo: Version,
    hi: Option<Version>,
) -> (r: Result<Vec<Event>, Error>)
    ensures
        answers(
            r,
            history(db@, utf8(stream@), seen_keys(old(visited)@), lo as nat, opt_nat(hi)),
        ),
        old(visited)@.is_prefix_of(final(visited)@),
    decreases db@.dom().difference(seen_keys(old(visited)@)).len(),
{
    let _ = db.len();
    let ghost s = utf8(stream@);
    let ghost seen = seen_keys(visited@);
    let empty: Vec<Event> = Vec::new();
    assert(views(empty@) =~= Seq::<EnvelopeView>::empty());
    if let Some(h) = hi {
        if lo >= h {
            return Ok(empty);
        }
    }
    let mut i: usize = 0;
    while i < visited.len()
        invariant
            i <= visited.len(),
            db@.dom().finite(),
            visited@ == old(visited)@,
            s == utf8(stream@),
            forall|j: int| 0 <= j < i ==> utf8((#[trigger] visited@[j])@) != s,
            seen == seen_keys(visited@),
            !no_versions(lo as nat, opt_nat(hi)),
            seen == seen_keys(old(visited)@),
        decreases visited.len() - i,
    {
        if same_text(visited[i].as_str(), stream) {
            assert(seen.contains(fork_key(s))) by {
                assert(fork_key(s) == fork_key(utf8(visited@[i as int]@)));
            }
            return Err(cycle(stream));
        }
        i += 1;
    }
    assert(!seen.contains(fork_key(s))) by {
        if seen.contains(fork_key(s)) {
            let j = choose|j: int|
                0 <= j < visited.len() && fork_key(s) == fork_key(utf8((#[trigger] visited@[j])@));
            fork_key_injective(s, utf8(visited@[j]@));
        }
    }
    let ghost before = visited@;
    visited.push(stream.to_owned());
    proof {
        let now = seen_keys(visited@);
        assert forall|k: Seq<u8>| now.contains(k) == (seen.contains(k) || k == fork_key(s)) by {
            if seen.contains(k) {
                let j = choose|j: int|
                    0 <= j < before.len() && k == fork_key(utf8((#[trigger] before[j])@));
                assert(visited@[j] == before[j]);
            }
            if k == fork_key(s) {
                assert(k == fork_key(utf8(visited@[before.len() as int]@)));
            }
            if now.contains(k) {
                let j = choose|j: int|
                    0 <= j < visited.len() && k == fork_key(utf8((#[trigger] visited@[j])@));
                if j < before.len() {
                    assert(visited@[j] == before[j]);
                }
            }
        }
        assert(now =~= seen.insert(fork_key(s)));
    }
    let fork = match fork_ref(db, stream) {
        Ok(f) => f,
        Err(e) => return Err(e),
    };
    let mut events: Vec<Event> = empty;
    let mut from: Option<Version> = Some(lo);
    if let Some(f) = fork {
        // The stream's own events are those after the fork point.
        from = if f.at_version == u64::MAX {
            None
        } else if lo < f.at_version + 1 {
            Some(f.at_version + 1)
        } else {
            Some(lo)
        };
        // The parent's contribution lives at versions up to the fork point.
        let end: Option<Version> = if f.at_version == u64::MAX {
            hi
        } else {
            match hi {
                Some(h) => if h < f.at_version + 1 {
                    Some(h)
                } else {
                    Some(f.at_version + 1)
                },
                None => Some(f.at_version + 1),
            }
        };
        let some = match end {
            Some(e) => lo < e,
            None => true,
        };
        if some {
            proof {
                lemma_shrinks(db@.dom(), seen, fork_key(s));
            }
            match resolve_history(db, f.stream.as_str(), visited, lo, end) {
                Ok(e) => events = e,
                Err(e) => return Err(e),
            }
        }
    }
    let ghost inherited = views(events@);
    let mut own = match from {
        Some(from) => match read_events(db, stream, from, hi) {
            Ok(e) => e,
            Err(e) => return Err(e),
        },
        None => {
            let none: Vec<Event> = Vec::new();
            assert(views(none@) =~= Seq::<EnvelopeView>::empty());
            none
        },
    };
    let ghost mine = views(own@);
    events.append(&mut own);
    assert(views(events@) =~= inherited + mine);
    assert(Seq::<EnvelopeView>::empty() + mine =~= mine);
    Ok(events)
}

fn cycle(stream: &str) -> (e: Error)
    ensures
        is_fault(e, Fault::Cycle { stream: utf8(stream@) }),
{
    let mut msg = "fork cycle at '".to_owned();
    msg.append(stream);
    msg.append("'");
    proof {
        utf8_concat("fork cycle at '"@, stream@);
        utf8_concat("fork cycle at '"@ + stream@, "'"@);
    }
    Error::InvalidInput(msg)
}

/// The history of a stream over `[lo, hi)`.
pub open spec fn history_of(db: Db, stream: Seq<u8>, lo: nat, hi: Option<nat>) -> Result<
    Seq<EnvelopeView>,
    Fault,
> {
    history(db, stream, Set::empty(), lo, hi)
}

/// Fork-resolved history of `stream` over `[lo, hi)`.
pub fn history_between(db: &Records, stream: &str, lo: Version, hi: Option<Version>) -> (r: Result<
    Vec<Event>,
    Error,
>)
    ensures
        answers(r, history_of(db@, utf8(stream@), lo as nat, opt_nat(hi))),
{
    let mut visited: Vec<String> = Vec::new();
    assert(seen_keys(visited@) =~= Set::empty());
    resolve_history(db, stream, &mut visited, lo, hi)
}

} // verus!

//! Reading streams.
use vstd::prelude::*;
use vstd::string::*;

use crate::aggregate::{fold_from, Aggregate};
use crate::digits::{dec16, numeral, numeral_digits, numeral_of};
use crate::envelope::{EnvelopeView, Event, Version};
use crate::error::Error;
use crate::fork::{history_between, history_of};
use crate::kv::{
    answers, get_be_or_zero, has_good_tail, i_prefix, i_prefix_of, is_fault, last_part,
    last_part_at, last_part_from, read_events, read_outcome, tail, tail_of, ts_key_of,
    version_suffix, Db, Fault, SEQ_KEY,
};
use crate::numbered::{key_number, number_key, number_of, number_written, opt_nat};
use crate::order::has_prefix;
use crate::store::compaction::{snapshot_of, snapshot_readable};
use crate::store::{current_version, seq_of, EventStore};
use crate::table::{is_listing, lemma_under, under, views, Dup, Key};
use crate::text::{utf8, SLASH};

verus! {

/// One end of a range of versions.
#[derive(Debug, Clone, Copy, PartialEq, Eq, Structural)]
pub enum Bound {
    Included(Version),
    Excluded(Version),
    Unbounded,
}

/// A range of versions.
#[derive(Debug, Clone, Copy, PartialEq, Eq, Structural)]
pub struct VersionRange {
    pub start: Bound,
    pub end: Bound,
}

impl VersionRange {
    /// Every version.
    pub fn all() -> (r: Self)
        ensures
            r.start == Bound::Unbounded,
            r.end == Bound::Unbounded,
            r.bounded(),
    {
        VersionRange { start: Bound::Unbounded, end: Bound::Unbounded }
    }

    /// `lo..`.
    pub fn from(lo: Version) -> (r: Self)
        ensures
            r.start == Bound::Included(lo),
            r.end == Bound::Unbounded,
            r.bounded(),
    {
        VersionRange { start: Bound::Included(lo), end: Bound::Unbounded }
    }

    /// `lo..hi`.
    pub fn between(lo: Version, hi: Version) -> (r: Self)
        ensures
            r.start == Bound::Included(lo),
            r.end == Bound::Excluded(hi),
            r.bounded(),
    {
        VersionRange { start: Bound::Included(lo), end: Bound::Excluded(hi) }
    }

    /// Whether the ends can be written as `[lo, hi)` in 64 bits.
    pub open spec fn bounded(self) -> bool {
        &&& self.start != Bound::Excluded(u64::MAX)
        &&& self.end != Bound::Included(u64::MAX)
    }

    /// The first version of the range.
    pub open spec fn lo(self) -> nat {
        match self.start {
            Bound::Included(v) => v as nat,
            Bound::Excluded(v) => v as nat + 1,
            Bound::Unbounded => 0,
        }
    }

    /// The first version past the range.
    pub open spec fn hi(self) -> Option<nat> {
        match self.end {
            Bound::Included(v) => Some(v as nat + 1),
            Bound::Excluded(v) => Some(v as nat),
            Bound::Unbounded => None,
        }
    }
}

/// A range as `[lo, hi)`.
pub fn bounds(range: VersionRange) -> (r: (Version, Option<Version>))
    requires
        range.bounded(),
    ensures
        r.0 == range.lo(),
        opt_nat(r.1) == range.hi(),
{
    let lo: Version = match range.start {
        Bound::Included(v) => v,
        Bound::Excluded(v) => v + 1,
        Bound::Unbounded => 0,
    };
    let hi: Option<Version> = match range.end {
        Bound::Included(v) => Some(v + 1),
        Bound::Excluded(v) => Some(v),
        Bound::Unbounded => None,
    };
    (lo, hi)
}

/// Bounds for a page read: page size cap and payload byte cap.
#[derive(Debug, Clone, Copy)]
pub struct PageLimit {
    pub max_count: usize,
    pub max_bytes: usize,
}

/// Payload bytes of a run of events.
pub open spec fn payload(s: Seq<EnvelopeView>) -> nat
    decreases s.len(),
{
    if s.len() == 0 {
        0
    } else {
        payload(s.drop_last()) + s.last().data.len()
    }
}

/// Whether a page must end before its i-th event (the first is always
/// taken): the count is used up, or the event would exceed the bytes.
pub open spec fn page_full(s: Seq<EnvelopeView>, limit: PageLimit, i: int) -> bool {
    i > 0 && (i >= limit.max_count || payload(s.take(i + 1)) > limit.max_bytes)
}

/// `n` events make up the page.
pub open spec fn is_page(s: Seq<EnvelopeView>, limit: PageLimit, n: int) -> bool {
    &&& 0 <= n <= s.len()
    &&& n < s.len() ==> page_full(s, limit, n)
    &&& forall|i: int| 0 <= i < n ==> !(#[trigger] page_full(s, limit, i))
}

/// The version after `v`.
pub open spec fn next_version(v: Version) -> Version {
    if v == u64::MAX {
        v
    } else {
        (v + 1) as u64
    }
}

/// Where to read on after a page: nowhere when the stream is drained.
pub open spec fn cursor_after(s: Seq<EnvelopeView>, n: int) -> Option<Version> {
    if n < s.len() && n > 0 {
        Some(next_version(s[n - 1].version))
    } else {
        None
    }
}

/// The first of the last `n` versions of a stream that ends at `v`.
pub open spec fn tail_start(v: Version, n: usize) -> nat {
    if n == 0 && v == u64::MAX {
        v as nat
    } else if v + 1 >= n {
        (v + 1 - n) as nat
    } else {
        0
    }
}

/// What a read of the last `n` events gives.
pub open spec fn tail_outcome(db: Db, stream: Seq<u8>, n: usize) -> Result<
    Seq<EnvelopeView>,
    Fault,
> {
    if !has_good_tail(db, stream) {
        Err(Fault::BadRecord)
    } else {
        match tail_of(db, stream) {
            Some(t) => read_outcome(db, stream, tail_start(t.version, n), None),
            None => Ok(Seq::empty()),
        }
    }
}

/// The time and the version of a time index entry: what stands after the
/// stream's prefix, and after the slash that follows.
pub open spec fn entry_of(stream: Seq<u8>, k: Seq<u8>) -> Option<(nat, nat)> {
    let v = last_part(k);
    let head = k.take(k.len() - v.len());
    if head.len() == 0 {
        None
    } else {
        match (number_of(i_prefix_of(stream), head.drop_last()), numeral(v)) {
            (Some(t), Some(v)) => if t <= i64::MAX {
                Some((t, v))
            } else {
                None
            },
            _ => None,
        }
    }
}

proof fn last_part_place(k: Seq<u8>)
    ensures
        last_part(k).len() <= k.len(),
        k.skip(k.len() - last_part(k).len()) == last_part(k),
        last_part(k).len() < k.len() ==> k[k.len() - last_part(k).len() - 1] == SLASH,
    decreases k.len(),
{
    if k.len() == 0 || k.last() == SLASH {
        assert(k.skip(k.len() as int) =~= Seq::<u8>::empty());
    } else {
        let r = k.drop_last();
        last_part_place(r);
        let n = k.len() - last_part(k).len();
        assert(k.skip(n) =~= r.skip(n).push(k.last()));
    }
}

/// An entry is the key of its time and version.
pub proof fn entry_key(stream: Seq<u8>, k: Seq<u8>)
    ensures
        entry_of(stream, k) is Some ==> ({
            let (t, v) = entry_of(stream, k)->0;
            k == ts_key_of(stream, t as int, v) && t <= i64::MAX && v <= u64::MAX && has_prefix(
                k,
                i_prefix_of(stream),
            )
        }),
{
    if entry_of(stream, k) is Some {
        let (t, v) = entry_of(stream, k)->0;
        let p = i_prefix_of(stream);
        let n = k.len() - last_part(k).len();
        let head = k.take(n).drop_last();
        last_part_place(k);
        number_key(p, head);
        numeral_digits(last_part(k));
        assert(k =~= head + seq![SLASH] + last_part(k));
        assert(k =~= ts_key_of(stream, t as int, v));
        assert(k.subrange(0, p.len() as int) =~= p);
    }
}

/// The entry that a time and a version make.
pub proof fn entry_made(stream: Seq<u8>, t: nat, v: nat)
    requires
        t <= i64::MAX,
        v <= u64::MAX,
    ensures
        entry_of(stream, ts_key_of(stream, t as int, v)) == Some((t, v)),
        has_prefix(ts_key_of(stream, t as int, v), i_prefix_of(stream)),
{
    let p = i_prefix_of(stream);
    let k = ts_key_of(stream, t as int, v);
    let head = p + dec16(t);
    let n = (head.len() + 1) as int;
    numeral_of(t);
    numeral_of(v);
    number_written(p, t);
    assert(k =~= head + seq![SLASH] + dec16(v));
    assert forall|j: int| n <= j < k.len() implies k[j] != SLASH by {
        assert(k[j] == dec16(v)[j - n]);
    }
    last_part_from(k, n);
    assert(k.skip(n) =~= dec16(v));
    assert(k.take(n).drop_last() =~= head);
    assert(k.subrange(0, p.len() as int) =~= p);
}

/// The index has an entry of time `t` and version `v`.
pub open spec fn indexed(db: Db, stream: Seq<u8>, t: nat, v: nat) -> bool {
    t <= i64::MAX && v <= u64::MAX && db.contains_key(ts_key_of(stream, t as int, v))
}

/// The first entry at or past a time, by time and then by version.
pub open spec fn first_entry(db: Db, stream: Seq<u8>, ts_ms: int, t: nat, v: nat) -> bool {
    &&& indexed(db, stream, t, v)
    &&& t >= ts_ms
    &&& forall|u: nat, w: nat| #[trigger]
        indexed(db, stream, u, w) && u >= ts_ms ==> t < u || (t == u && v <= w)
}

/// What a time seek comes to: the version of the first entry at or past the
/// time.
pub open spec fn sought(db: Db, stream: Seq<u8>, ts_ms: int, r: Option<Version>) -> bool {
    if r is Some {
        exists|t: nat| #[trigger] first_entry(db, stream, ts_ms, t, r->0 as nat)
    } else {
        forall|t: nat, v: nat| #[trigger] indexed(db, stream, t, v) ==> t < ts_ms
    }
}

/// Whether `best` comes no later than an entry that lies at or past a time.
spec fn no_later(best: Option<(u64, u64)>, entry: (nat, nat), ts_ms: int) -> bool {
    let (u, w) = entry;
    u >= ts_ms ==> match best {
        Some((t, v)) => t < u || (t == u && v <= w),
        None => false,
    }
}

/// The time and the version of an entry.
fn read_entry(prefix: &[u8], key: &[u8], Ghost(stream): Ghost<Seq<u8>>) -> (r: Option<(u64, u64)>)
    requires
        prefix@ == i_prefix_of(stream),
    ensures
        match r {
            Some((t, v)) => entry_of(stream, key@) == Some((t as nat, v as nat)) && t <= i64::MAX,
            None => entry_of(stream, key@) is None,
        },
{
    let at = last_part_at(key);
    proof {
        last_part_place(key@);
        assert(key@.skip(at as int).len() == key.len() - at);
    }
    if at == 0 {
        return None;
    }
    let head = vstd::slice::slice_subrange(key, 0, at - 1);
    assert(head@ =~= key@.take(at as int).drop_last());
    match (key_number(prefix, head), version_suffix(key)) {
        (Some(t), Ok(v)) => if t <= 0x7fff_ffff_ffff_ffff {
            Some((t, v))
        } else {
            None
        },
        _ => None,
    }
}

/// The version of the last event, if there is one.
pub open spec fn last_version(s: Seq<EnvelopeView>) -> Option<Version> {
    if s.len() == 0 {
        None
    } else {
        Some(s.last().version)
    }
}

/// `states` are the values of a fold of `evs` with `apply`, from `init` on.
pub open spec fn fold_steps<T, F: Fn(T, &Event) -> T>(
    apply: F,
    init: T,
    evs: Seq<Event>,
    states: Seq<T>,
) -> bool {
    &&& states.len() == evs.len() + 1
    &&& states[0] == init
    &&& forall|i: int|
        0 <= i < evs.len() ==> #[trigger] apply.ensures((states[i], &evs[i]), states[i + 1])
}

impl EventStore {
    /// All events of `stream` with version in `range`, in order. Trim floors,
    /// rollback windows, and deletion ceilings are applied. Raw per-stream
    /// view; see [`read_history`](Self::read_history) for the fork-resolved
    /// view.
    pub fn read_stream(&self, stream: &str, range: VersionRange) -> (r: Result<Vec<Event>, Error>)
        requires
            range.bounded(),
        ensures
            answers(r, read_outcome(self@, utf8(stream@), range.lo(), range.hi())),
    {
        let (lo, hi) = bounds(range);
        read_events(self.db(), stream, lo, hi)
    }

    /// Fork-resolved history: the pinned parent prefix (chain by chain) plus
    /// the stream's own events, filtered by version range.
    pub fn read_history(&self, stream: &str, range: VersionRange) -> (r: Result<Vec<Event>, Error>)
        requires
            range.bounded(),
        ensures
            answers(r, history_of(self@, utf8(stream@), range.lo(), range.hi())),
    {
        let (lo, hi) = bounds(range);
        history_between(self.db(), stream, lo, hi)
    }

    /// The stream's last version, or `None` if it doesn't exist.
    pub fn stream_version(&self, stream: &str) -> (r: Result<Option<Version>, Error>)
        ensures
            match r {
                Ok(v) => has_good_tail(self@, utf8(stream@)) && v == current_version(
                    self@,
                    utf8(stream@),
                ),
                Err(e) => !has_good_tail(self@, utf8(stream@)) && e is Encoding,
            },
    {
        match tail(self.db(), stream) {
            Ok(Some(t)) => Ok(Some(t.version)),
            Ok(None) => Ok(None),
            Err(e) => Err(e),
        }
    }

    /// The stream's last (version, ts_ms), or `None` if it doesn't exist.
    pub fn check_tail(&self, stream: &str) -> (r: Result<Option<(Version, i64)>, Error>)
        ensures
            match r {
                Ok(v) => has_good_tail(self@, utf8(stream@)) && v == (match tail_of(
                    self@,
                    utf8(stream@),
                ) {
                    Some(t) => Some((t.version, t.ts_ms)),
                    None => None,
                }),
                Err(e) => !has_good_tail(self@, utf8(stream@)) && e is Encoding,
            },
    {
        match tail(self.db(), stream) {
            Ok(Some(t)) => Ok(Some((t.version, t.ts_ms))),
            Ok(None) => Ok(None),
            Err(e) => Err(e),
        }
    }

    /// The last `n` events of the stream, in version order: reads the tail,
    /// computes the start version, and scans only that window.
    pub fn read_tail(&self, stream: &str, n: usize) -> (r: Result<Vec<Event>, Error>)
        ensures
            answers(r, tail_outcome(self@, utf8(stream@), n)),
            // Nothing comes that is not among the last `n` versions.
            r is Ok && tail_of(self@, utf8(stream@)) is Some && (n > 0 || tail_of(
                self@,
                utf8(stream@),
            )->0.version < u64::MAX) ==> forall|i: int|
                0 <= i < r->Ok_0@.len() ==> (#[trigger] views(r->Ok_0@)[i]).version + n > tail_of(
                    self@,
                    utf8(stream@),
                )->0.version,
            r is Ok && tail_of(self@, utf8(stream@)) is None ==> r->Ok_0@.len() == 0,
    {
        let t = match tail(self.db(), stream) {
            Ok(Some(t)) => t,
            Ok(None) => {
                let none: Vec<Event> = Vec::new();
                assert(views(none@) =~= Seq::<EnvelopeView>::empty());
                return Ok(none);
            },
            Err(e) => return Err(e),
        };
        let n: u64 = n as u64;
        let start: u64 = if n == 0 {
            if t.version == u64::MAX {
                t.version
            } else {
                t.version + 1
            }
        } else if t.version >= n - 1 {
            t.version - (n - 1)
        } else {
            0
        };
        let r = read_events(self.db(), stream, start, None);
        proof {
            if r is Ok && (n > 0 || t.version < u64::MAX) {
                let out = views(r->Ok_0@);
                assert forall|i: int| 0 <= i < r->Ok_0@.len() implies (#[trigger] out[i]).version
                    + n > t.version by {
                    crate::stream::selected_visible(
                        self@,
                        utf8(stream@),
                        start as nat,
                        None,
                        crate::kv::scanned(self@, utf8(stream@), start as nat, None),
                        i,
                    );
                }
            }
        }
        r
    }

    /// Reads a page of events starting at `from_version`: up to
    /// `limit.max_count` events, cut short once cumulative payload size would
    /// exceed `limit.max_bytes` (the first event is always included). Returns
    /// the page and the cursor (next version to read), or `None` when the
    /// stream is drained.
    pub fn read_page(&self, stream: &str, from_version: Version, limit: PageLimit) -> (r: Result<
        (Vec<Event>, Option<Version>),
        Error,
    >)
        ensures
            match (r, read_outcome(self@, utf8(stream@), from_version as nat, None)) {
                (Ok((page, cursor)), Ok(s)) => is_page(s, limit, page.len() as int) && views(page@)
                    == s.take(page.len() as int) && cursor == cursor_after(s, page.len() as int),
                (Err(e), Err(f)) => is_fault(e, f),
                _ => false,
            },
    {
        let mut events = match read_events(self.db(), stream, from_version, None) {
            Ok(e) => e,
            Err(e) => return Err(e),
        };
        let ghost s = views(events@);
        let mut bytes: usize = 0;
        let mut n: usize = 0;
        assert(s.take(0) =~= Seq::<EnvelopeView>::empty());
        while n < events.len()
            invariant_except_break
                bytes == payload(s.take(n as int)),
            invariant
                n <= events.len(),
                s == views(events@),
                n > 1 ==> payload(s.take(n as int)) <= limit.max_bytes,
                forall|i: int| 0 <= i < n ==> !(#[trigger] page_full(s, limit, i)),
            ensures
                n < events.len() ==> page_full(s, limit, n as int),
            decreases events.len() - n,
        {
            let len: usize = events[n].data.len();
            proof {
                assert(s.take(n + 1).drop_last() =~= s.take(n as int));
                assert(s[n as int] == events@[n as int]@);
            }
            if n > 0 && (n >= limit.max_count || len > limit.max_bytes || bytes > limit.max_bytes
                - len) {
                break;
            }
            bytes = bytes + len;
            n += 1;
        }
        let cursor: Option<Version> = if n < events.len() {
            if n > 0 {
                let last: Version = events[n - 1].version;
                if last == u64::MAX {
                    Some(last)
                } else {
                    Some(last + 1)
                }
            } else {
                None
            }
        } else {
            None
        };
        events.truncate(n);
        assert(views(events@) =~= s.take(n as int));
        Ok((events, cursor))
    }

    /// Version of the first event with `ts_ms >= target`, via the time index;
    /// `None` if the stream has nothing at or after `target`.
    pub fn seek_timestamp(&self, stream: &str, ts_ms: i64) -> (r: Result<Option<Version>, Error>)
        ensures
            r is Ok,
            sought(self@, utf8(stream@), ts_ms as int, r->Ok_0),
    {
        let ghost s = utf8(stream@);
        let prefix = i_prefix(stream);
        let none: Vec<u8> = Vec::new();
        assert(none@ =~= Seq::<u8>::empty());
        let recs = self.db();
        let (a, b) = recs.range(prefix.as_slice(), none.as_slice(), None);
        let ghost l = recs.entries().subrange(a as int, b as int);
        let mut best: Option<(u64, u64)> = None;
        let mut i: usize = a;
        while i < b
            invariant
                a <= i <= b <= recs.entries().len(),
                l == recs.entries().subrange(a as int, b as int),
                is_listing(recs@, under(prefix@), l),
                recs@ == self@,
                prefix@ == i_prefix_of(s),
                match best {
                    Some((t, v)) => t >= ts_ms && indexed(self@, s, t as nat, v as nat),
                    None => true,
                },
                forall|j: int|
                    0 <= j < i - a && entry_of(s, (#[trigger] l[j]).0) is Some ==> no_later(
                        best,
                        entry_of(s, l[j].0)->0,
                        ts_ms as int,
                    ),
            decreases b - i,
        {
            let key = recs.key_at(i);
            proof {
                assert(l[i - a] == recs.entries()[i as int]);
                assert(recs@.contains_key(l[i - a].0));
                entry_key(s, key@);
            }
            if let Some((t, v)) = read_entry(prefix.as_slice(), key.as_slice(), Ghost(s)) {
                if t as i64 >= ts_ms {
                    let sooner = match best {
                        Some((u, w)) => t < u || (t == u && v < w),
                        None => true,
                    };
                    if sooner {
                        assert(indexed(self@, s, t as nat, v as nat));
                        best = Some((t, v));
                    }
                }
            }
            i += 1;
        }
        proof {
            assert forall|u: nat, w: nat| #[trigger] indexed(self@, s, u, w) implies no_later(
                best,
                (u, w),
                ts_ms as int,
            ) by {
                let k = ts_key_of(s, u as int, w);
                entry_made(s, u, w);
                lemma_under(prefix@, k);
                assert(recs@.contains_key(k) && under(prefix@)(k));
                let j = choose|j: int| 0 <= j < l.len() && #[trigger] l[j].0 == k;
                assert(entry_of(s, l[j].0) is Some);
            }
        }
        match best {
            Some((t, v)) => {
                let ghost at: nat = t as nat;
                assert(first_entry(self@, s, ts_ms as int, at, v as nat)) by {
                    assert forall|u: nat, w: nat| #[trigger] indexed(self@, s, u, w) && u
                        >= ts_ms implies t < u || (t == u && v <= w) by {
                        assert(no_later(best, (u, w), ts_ms as int));
                    }
                }
                let ghost found: Option<Version> = Some(v);
                assert(found is Some && found->0 == v);
                assert(first_entry(self@, s, ts_ms as int, at, found->0 as nat));
                assert(sought(self@, s, ts_ms as int, found));
                Ok(Some(v))
            },
            None => {
                assert forall|u: nat, w: nat| #[trigger] indexed(self@, s, u, w) implies u
                    < ts_ms by {
                    assert(no_later(best, (u, w), ts_ms as int));
                }
                Ok(None)
            },
        }
    }

    /// Folds fork-resolved history over `range` into `init`: the generic
    /// rehydration primitive. Returns the state and the last version folded.
    pub fn fold<T, F: Fn(T, &Event) -> T>(
        &self,
        stream: &str,
        range: VersionRange,
        init: T,
        apply: F,
    ) -> (r: Result<(T, Option<Version>), Error>)
        requires
            range.bounded(),
            forall|t: T, e: &Event| #[trigger] apply.requires((t, e)),
        ensures
            match (r, history_of(self@, utf8(stream@), range.lo(), range.hi())) {
                (Ok((t, last)), Ok(s)) => last == last_version(s) && exists|
                    evs: Seq<Event>,
                    states: Seq<T>,
                |
                    views(evs) == s && #[trigger] fold_steps(apply, init, evs, states)
                        && states.last() == t,
                (Err(e), Err(f)) => is_fault(e, f),
                _ => false,
            },
    {
        let (lo, hi) = bounds(range);
        let events = match history_between(self.db(), stream, lo, hi) {
            Ok(e) => e,
            Err(e) => return Err(e),
        };
        let mut state: T = init;
        let mut last: Option<Version> = None;
        let mut i: usize = 0;
        let ghost mut states: Seq<T> = seq![init];
        while i < events.len()
            invariant
                i <= events.len(),
                forall|t: T, e: &Event| #[trigger] apply.requires((t, e)),
                states.len() == i + 1,
                states[0] == init,
                states.last() == state,
                last == last_version(views(events@).take(i as int)),
                forall|j: int|
                    0 <= j < i ==> #[trigger] apply.ensures(
                        (states[j], &events@[j]),
                        states[j + 1],
                    ),
            decreases events.len() - i,
        {
            let ghost before = states;
            state = apply(state, &events[i]);
            last = Some(events[i].version);
            proof {
                states = states.push(state);
                assert forall|j: int| 0 <= j < i + 1 implies #[trigger] apply.ensures(
                    (states[j], &events@[j]),
                    states[j + 1],
                ) by {
                    if j < i {
                        assert(apply.ensures((before[j], &events@[j]), before[j + 1]));
                    }
                }
                assert(views(events@).take(i + 1).last() == events@[i as int]@);
            }
            i += 1;
        }
        proof {
            assert(views(events@).take(i as int) =~= views(events@));
            assert(fold_steps(apply, init, events@, states));
        }
        Ok((state, last))
    }

    /// Folds the history of `[lo, ..)` into `a`.
    fn fold_aggregate<A: Aggregate>(&self, stream: &str, lo: Version, a: A) -> (r: Result<
        (A, Option<Version>),
        Error,
    >)
        ensures
            match (r, history_of(self@, utf8(stream@), lo as nat, None)) {
                (Ok((b, last)), Ok(s)) => b == fold_from(a, s) && last == last_version(s),
                (Err(e), Err(f)) => is_fault(e, f),
                _ => false,
            },
    {
        let events = match history_between(self.db(), stream, lo, None) {
            Ok(e) => e,
            Err(e) => return Err(e),
        };
        let ghost s = views(events@);
        let mut state: A = a;
        let mut last: Option<Version> = None;
        let mut i: usize = 0;
        assert(s.take(0) =~= Seq::<EnvelopeView>::empty());
        while i < events.len()
            invariant
                i <= events.len(),
                s == views(events@),
                state == fold_from(a, s.take(i as int)),
                last == last_version(s.take(i as int)),
            decreases events.len() - i,
        {
            state.apply(&events[i]);
            last = Some(events[i].version);
            proof {
                assert(s.take(i + 1).drop_last() =~= s.take(i as int));
                assert(s.take(i + 1).last() == events@[i as int]@);
            }
            i += 1;
        }
        assert(s.take(i as int) =~= s);
        Ok((state, last))
    }

    /// Folds `stream` into an `A`, starting from the latest snapshot if any.
    /// Returns the state and the last version it covers.
    pub fn rehydrate<A: Aggregate>(&self, stream: &str) -> (r: Result<(A, Option<Version>), Error>)
        ensures
            rehydrate_outcome::<A>(self@, utf8(stream@), r),
    {
        match self.latest_snapshot(stream) {
            Ok(Some(snap)) => {
                let a = match A::restore(snap.state.as_slice()) {
                    Ok(a) => a,
                    Err(e) => return Err(e),
                };
                if snap.through_version == u64::MAX {
                    assert(fold_from(a, Seq::<EnvelopeView>::empty()) == a);
                    return Ok((a, Some(snap.through_version)));
                }
                match self.fold_aggregate(stream, snap.through_version + 1, a) {
                    Ok((b, last)) => {
                        let through: Option<Version> = match last {
                            Some(v) => Some(v),
                            None => Some(snap.through_version),
                        };
                        Ok((b, through))
                    },
                    Err(e) => Err(e),
                }
            },
            Ok(None) => {
                let a = A::initial();
                self.fold_aggregate(stream, 0, a)
            },
            Err(e) => Err(e),
        }
    }

    /// The global sequence counter: records with sequence `<= N` are
    /// committed.
    pub fn durable_sequence(&self) -> (n: u64)
        ensures
            n == seq_of(self@),
    {
        get_be_or_zero(self.db(), SEQ_KEY.as_bytes())
    }
}

/// The history of a stream past a version.
pub open spec fn history_past(db: Db, stream: Seq<u8>, v: Version) -> Result<
    Seq<EnvelopeView>,
    Fault,
> {
    if v == u64::MAX {
        Ok(Seq::empty())
    } else {
        history_of(db, stream, v as nat + 1, None)
    }
}

/// What a rehydration gives: the snapshot restored (or the initial state),
/// then everything after it folded in.
pub open spec fn rehydrate_outcome<A: Aggregate>(
    db: Db,
    stream: Seq<u8>,
    r: Result<(A, Option<Version>), Error>,
) -> bool {
    if !snapshot_readable(db, stream) {
        r is Err && r->Err_0 is Encoding
    } else {
        match snapshot_of(db, stream) {
            Some(snap) => match A::restored(snap.state) {
                None => r is Err && A::unrestorable(snap.state, r->Err_0),
                Some(a) => match (r, history_past(db, stream, snap.through_version)) {
                    (Ok((b, through)), Ok(s)) => b == fold_from(a, s) && through == (match last_version(
                        s,
                    ) {
                        Some(v) => Some(v),
                        None => Some(snap.through_version),
                    }),
                    (Err(e), Err(f)) => is_fault(e, f),
                    _ => false,
                },
            },
            None => match (r, history_of(db, stream, 0, None)) {
                (Ok((b, through)), Ok(s)) => b == fold_from(A::start(), s) && through
                    == last_version(s),
                (Err(e), Err(f)) => is_fault(e, f),
                _ => false,
            },
        }
    }
}

} // verus!

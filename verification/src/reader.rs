//! Read-only access and live tailing.
use vstd::prelude::*;
use vstd::string::*;

use crate::envelope::{EnvelopeView, Event, Version};
use crate::error::Error;
use crate::fork::{history_between, history_of};
use crate::kv::{
    all_events, answers, is_fault, r_key_of, r_prefix, r_prefix_of, read_events, read_outcome, Db,
    Records, Value, ValueView, COMPACTIONS_PREFIX,
};
use crate::layout::record_own;
use crate::numbered::{find_numbered, number_of, numbered, numbered_exists, numbers, precedes};
use crate::order::{copy_of, less, lex_lt};
use crate::snapshot::{CompactionRecord, CompactionView, SnapshotRecord};
use crate::store::compaction::{
    all_compactions, compaction_records, compaction_views, compactions, latest_snapshot,
    snapshot_of, snapshot_readable,
};
use crate::store::reads::{bounds, last_version, VersionRange};
use crate::stream::{is_own, is_record, orderly, stored};
use crate::table::{views, Dup, Key};
use crate::text::utf8;

verus! {

/// Read-only event store access, over the records that a reader has.
pub struct EventStoreReader {
    db: Records,
}

impl View for EventStoreReader {
    type V = Db;

    closed spec fn view(&self) -> Db {
        self.db@
    }
}

/// Whether an event is the store's own bookkeeping.
pub open spec fn is_internal(e: EnvelopeView) -> bool {
    e.event_type.len() > 0 && e.event_type[0] == '$'
}

/// The events of a run that are not bookkeeping, in order.
pub open spec fn external(s: Seq<EnvelopeView>) -> Seq<EnvelopeView>
    decreases s.len(),
{
    if s.len() == 0 {
        Seq::empty()
    } else {
        let rest = external(s.drop_last());
        if is_internal(s.last()) {
            rest
        } else {
            rest.push(s.last())
        }
    }
}

fn starts_with_dollar(text: &str) -> (r: bool)
    ensures
        r == (text@.len() > 0 && text@[0] == '$'),
{
    if text.unicode_len() == 0 {
        return false;
    }
    text.get_char(0) == '$'
}

impl EventStoreReader {
    pub fn over(records: Records) -> (r: Self)
        ensures
            r@ == records@,
    {
        EventStoreReader { db: records }
    }

    /// All events of `stream` with version in `range`, in order.
    pub fn read_stream(&self, stream: &str, range: VersionRange) -> (r: Result<Vec<Event>, Error>)
        requires
            range.bounded(),
        ensures
            answers(r, read_outcome(self@, utf8(stream@), range.lo(), range.hi())),
    {
        let (lo, hi) = bounds(range);
        read_events(&self.db, stream, lo, hi)
    }

    /// Fork-resolved history: pinned parent prefixes plus local events,
    /// filtered by version range, without the store's own bookkeeping events.
    pub fn read_history(&self, stream: &str, range: VersionRange) -> (r: Result<Vec<Event>, Error>)
        requires
            range.bounded(),
        ensures
            match (r, history_of(self@, utf8(stream@), range.lo(), range.hi())) {
                (Ok(events), Ok(s)) => views(events@) == external(s),
                (Err(e), Err(f)) => is_fault(e, f),
                _ => false,
            },
    {
        let (lo, hi) = bounds(range);
        let events = match history_between(&self.db, stream, lo, hi) {
            Ok(e) => e,
            Err(e) => return Err(e),
        };
        let ghost s = views(events@);
        let mut out: Vec<Event> = Vec::new();
        let mut i: usize = 0;
        assert(s.take(0) =~= Seq::<EnvelopeView>::empty());
        assert(views(out@) =~= Seq::<EnvelopeView>::empty());
        while i < events.len()
            invariant
                i <= events.len(),
                s == views(events@),
                views(out@) == external(s.take(i as int)),
            decreases events.len() - i,
        {
            let ghost before = views(out@);
            proof {
                assert(s.take(i + 1).drop_last() =~= s.take(i as int));
                assert(s.take(i + 1).last() == events@[i as int]@);
            }
            if !starts_with_dollar(events[i].event_type.as_str()) {
                out.push(events[i].dup());
                assert(views(out@) =~= before.push(events@[i as int]@));
            }
            i += 1;
        }
        assert(s.take(i as int) =~= s);
        Ok(out)
    }

    /// The version of the last event that reads show, if any.
    pub fn stream_version(&self, stream: &str) -> (r: Result<Option<Version>, Error>)
        ensures
            match (r, read_outcome(self@, utf8(stream@), 0, None)) {
                (Ok(v), Ok(s)) => v == last_version(s),
                (Err(e), Err(f)) => is_fault(e, f),
                _ => false,
            },
    {
        match read_events(&self.db, stream, 0, None) {
            Ok(events) => if events.len() == 0 {
                Ok(None)
            } else {
                assert(views(events@).last() == events@[events.len() - 1]@);
                Ok(Some(events[events.len() - 1].version))
            },
            Err(e) => Err(e),
        }
    }

    pub fn latest_snapshot(&self, stream: &str) -> (r: Result<Option<SnapshotRecord>, Error>)
        ensures
            match r {
                Ok(Some(s)) => snapshot_readable(self@, utf8(stream@)) && snapshot_of(
                    self@,
                    utf8(stream@),
                ) == Some(s@),
                Ok(None) => snapshot_readable(self@, utf8(stream@)) && snapshot_of(
                    self@,
                    utf8(stream@),
                ) is None,
                Err(e) => !snapshot_readable(self@, utf8(stream@)) && e is Encoding,
            },
    {
        latest_snapshot(&self.db, stream)
    }

    pub fn compaction_records(&self) -> (r: Result<Vec<CompactionRecord>, Error>)
        ensures
            match r {
                Ok(c) => all_compactions(compactions(self@)) && views(c@) == compaction_views(
                    compactions(self@),
                ),
                Err(e) => !all_compactions(compactions(self@)) && e is Encoding,
            },
    {
        compaction_records(&self.db)
    }

    /// One poll of a tail of `stream`: the events with
    /// `version >= from_version` past the cursor, each once, and the cursor
    /// moved past them.
    pub fn follow_stream(
        &self,
        stream: &str,
        from_version: Version,
        cursor: Option<Version>,
    ) -> (r: Result<(Vec<Event>, Option<Version>), Error>)
        ensures
            ({
                let rows = records(self@, utf8(stream@));
                match r {
                    Ok((events, next)) => all_events(rows) && views(events@) == followed(
                        rows,
                        from_version,
                        cursor,
                    ) && next == followed_to(rows, from_version, cursor),
                    Err(e) => !all_events(rows) && e is Encoding,
                }
            }),
    {
        let prefix = r_prefix(stream);
        let found = find_numbered(&self.db, prefix.as_slice(), 0, None);
        let ghost rows = records(self@, utf8(stream@));
        let mut at: Option<Version> = cursor;
        let mut out: Vec<Event> = Vec::new();
        let mut i: usize = 0;
        assert(rows.take(0) =~= Seq::empty());
        assert(views(out@) =~= Seq::<EnvelopeView>::empty());
        while i < found.len()
            invariant
                i <= found.len(),
                rows == records(self@, utf8(stream@)),
                found.len() == rows.len(),
                forall|j: int|
                    0 <= j < found.len() ==> (#[trigger] found@[j]) < self.db.entries().len()
                        && self.db.entries()[found@[j] as int] == rows[j],
                all_events(rows.take(i as int)),
                views(out@) == followed(rows.take(i as int), from_version, cursor),
                at == followed_to(rows.take(i as int), from_version, cursor),
            decreases found.len() - i,
        {
            let ghost t = rows.take(i + 1);
            let ghost before = views(out@);
            proof {
                assert(t.drop_last() =~= rows.take(i as int));
                assert(t.last() == self.db.entries()[found@[i as int] as int]);
            }
            match self.db.value_at(found[i]) {
                Value::Event(env) => {
                    assert(all_events(t)) by {
                        assert forall|j: int| 0 <= j < t.len() implies (
                        #[trigger] t[j]).1 is Event by {
                            if j < i {
                                assert(t[j] == rows.take(i as int)[j]);
                            }
                        }
                    }
                    let past = match at {
                        Some(c) => env.version > c,
                        None => true,
                    };
                    if env.version >= from_version && past {
                        at = Some(env.version);
                        out.push(Event::from_parts(env.dup()));
                        assert(views(out@) =~= before.push(env@));
                    }
                },
                _ => {
                    assert(!(rows[i as int].1 is Event));
                    return Err(Error::Encoding("unexpected kind of record".to_owned()));
                },
            }
            i += 1;
        }
        assert(rows.take(i as int) =~= rows);
        Ok((out, at))
    }

    /// One poll of a tail of the compaction records: those past the cursor
    /// key, each once, and the cursor moved past them. Keys end in sortable
    /// identifiers, so key order is commit order.
    pub fn follow_compactions(&self, cursor: Option<Vec<u8>>) -> (r: Result<
        (Vec<CompactionRecord>, Option<Vec<u8>>),
        Error,
    >)
        ensures
            match r {
                Ok((records, next)) => all_compactions(compactions(self@)) && views(records@)
                    == announced(compactions(self@), opt_key(cursor)) && opt_key(next)
                    == announced_to(compactions(self@), opt_key(cursor)),
                Err(e) => !all_compactions(compactions(self@)) && e is Encoding,
            },
    {
        let ghost start = opt_key(cursor);
        let none: Vec<u8> = Vec::new();
        assert(none@ =~= Seq::<u8>::empty());
        let (a, b) = self.db.range(COMPACTIONS_PREFIX.as_bytes(), none.as_slice(), None);
        let ghost rows = compactions(self@);
        assert(rows == self.db.entries().subrange(a as int, b as int));
        let mut at: Option<Vec<u8>> = cursor;
        let mut out: Vec<CompactionRecord> = Vec::new();
        let mut i: usize = a;
        assert(rows.take(0) =~= Seq::empty());
        assert(views(out@) =~= Seq::<CompactionView>::empty());
        while i < b
            invariant
                a <= i <= b <= self.db.entries().len(),
                rows == compactions(self@),
                rows == self.db.entries().subrange(a as int, b as int),
                all_compactions(rows.take(i - a)),
                views(out@) == announced(rows.take(i - a), start),
                opt_key(at) == announced_to(rows.take(i - a), start),
            decreases b - i,
        {
            let ghost t = rows.take(i + 1 - a);
            let ghost before = views(out@);
            proof {
                assert(t.drop_last() =~= rows.take(i - a));
                assert(t.last() == rows[i - a]);
                assert(rows[i - a] == self.db.entries()[i as int]);
            }
            let key = self.db.key_at(i);
            match self.db.value_at(i) {
                Value::Compaction(c) => {
                    assert(all_compactions(t)) by {
                        assert forall|j: int| 0 <= j < t.len() implies (
                        #[trigger] t[j]).1 is Compaction by {
                            if j < i - a {
                                assert(t[j] == rows.take(i - a)[j]);
                            }
                        }
                    }
                    let past = match &at {
                        Some(c) => less(c.as_slice(), key.as_slice()),
                        None => true,
                    };
                    if past {
                        at = Some(copy_of(key.as_slice()));
                        out.push(c.dup());
                        assert(views(out@) =~= before.push(c@));
                    }
                },
                _ => {
                    assert(!(rows[i - a].1 is Compaction));
                    return Err(Error::Encoding("unexpected kind of record".to_owned()));
                },
            }
            i += 1;
        }
        assert(rows.take(i - a) =~= rows);
        Ok((out, at))
    }
}

pub open spec fn opt_key(k: Option<Vec<u8>>) -> Option<Seq<u8>> {
    match k {
        Some(k) => Some(k@),
        None => None,
    }
}

/// The records of a stream, in version order.
pub open spec fn records(db: Db, stream: Seq<u8>) -> Seq<(Seq<u8>, ValueView)> {
    numbered(db, r_prefix_of(stream), 0, None)
}

/// Whether the cursor `c` has not passed version `v`.
pub open spec fn is_past(v: Version, c: Option<Version>) -> bool {
    c is None || v > c->0
}

/// Where a poll of `rows` leaves the cursor.
pub open spec fn followed_to(
    rows: Seq<(Seq<u8>, ValueView)>,
    from: Version,
    cursor: Option<Version>,
) -> Option<Version>
    decreases rows.len(),
{
    if rows.len() == 0 {
        cursor
    } else {
        let at = followed_to(rows.drop_last(), from, cursor);
        let v = rows.last().1->Event_0.version;
        if v >= from && is_past(v, at) {
            Some(v)
        } else {
            at
        }
    }
}

/// The events that a poll of `rows` yields.
pub open spec fn followed(
    rows: Seq<(Seq<u8>, ValueView)>,
    from: Version,
    cursor: Option<Version>,
) -> Seq<EnvelopeView>
    decreases rows.len(),
{
    if rows.len() == 0 {
        Seq::empty()
    } else {
        let rest = followed(rows.drop_last(), from, cursor);
        let e = rows.last().1->Event_0;
        if e.version >= from && is_past(e.version, followed_to(rows.drop_last(), from, cursor)) {
            rest.push(e)
        } else {
            rest
        }
    }
}

/// Where a poll of announcements leaves the cursor.
pub open spec fn announced_to(
    rows: Seq<(Seq<u8>, ValueView)>,
    cursor: Option<Seq<u8>>,
) -> Option<Seq<u8>>
    decreases rows.len(),
{
    if rows.len() == 0 {
        cursor
    } else {
        let at = announced_to(rows.drop_last(), cursor);
        let k = rows.last().0;
        if at is None || lex_lt(at->0, k) {
            Some(k)
        } else {
            at
        }
    }
}

/// The records that a poll of announcements yields.
pub open spec fn announced(
    rows: Seq<(Seq<u8>, ValueView)>,
    cursor: Option<Seq<u8>>,
) -> Seq<CompactionView>
    decreases rows.len(),
{
    if rows.len() == 0 {
        Seq::empty()
    } else {
        let rest = announced(rows.drop_last(), cursor);
        let at = announced_to(rows.drop_last(), cursor);
        if at is None || lex_lt(at->0, rows.last().0) {
            rest.push(rows.last().1->Compaction_0)
        } else {
            rest
        }
    }
}

/// A tail yields events in strictly increasing version order, all at or above
/// `from` and past the cursor it started with, and ends at the last of them.
pub proof fn follow_is_increasing(
    rows: Seq<(Seq<u8>, ValueView)>,
    from: Version,
    cursor: Option<Version>,
)
    ensures
        ({
            let out = followed(rows, from, cursor);
            let end = followed_to(rows, from, cursor);
            &&& forall|i: int, j: int| 0 <= i < j < out.len() ==> out[i].version < out[j].version
            &&& forall|i: int|
                0 <= i < out.len() ==> (#[trigger] out[i]).version >= from && is_past(
                    out[i].version,
                    cursor,
                )
            &&& end == (if out.len() > 0 {
                Some(out.last().version)
            } else {
                cursor
            })
        }),
    decreases rows.len(),
{
    if rows.len() > 0 {
        follow_is_increasing(rows.drop_last(), from, cursor);
    }
}

/// A poll of records that have not changed since the last poll yields
/// nothing: every event comes once.
pub proof fn follow_yields_once(
    rows: Seq<(Seq<u8>, ValueView)>,
    from: Version,
    cursor: Option<Version>,
)
    ensures
        followed(rows, from, followed_to(rows, from, cursor)) == Seq::<EnvelopeView>::empty(),
        followed_to(rows, from, followed_to(rows, from, cursor)) == followed_to(
            rows,
            from,
            cursor,
        ),
{
    follow_passed(rows, rows.len() as int, from, cursor, followed_to(rows, from, cursor));
    assert(rows.take(rows.len() as int) =~= rows);
}

proof fn follow_passed(
    rows: Seq<(Seq<u8>, ValueView)>,
    n: int,
    from: Version,
    cursor: Option<Version>,
    end: Option<Version>,
)
    requires
        0 <= n <= rows.len(),
        end == followed_to(rows, from, cursor),
    ensures
        followed(rows.take(n), from, end) == Seq::<EnvelopeView>::empty(),
        followed_to(rows.take(n), from, end) == end,
    decreases n,
{
    if n > 0 {
        follow_passed(rows, n - 1, from, cursor, end);
        assert(rows.take(n).drop_last() =~= rows.take(n - 1));
        follow_covers(rows, n - 1, from, cursor);
    } else {
        assert(rows.take(0) =~= Seq::empty());
    }
}

/// The cursor ends at or past every version of the scan that is wanted.
proof fn follow_covers(
    rows: Seq<(Seq<u8>, ValueView)>,
    i: int,
    from: Version,
    cursor: Option<Version>,
)
    requires
        0 <= i < rows.len(),
    ensures
        rows[i].1->Event_0.version >= from ==> !is_past(
            rows[i].1->Event_0.version,
            followed_to(rows, from, cursor),
        ),
    decreases rows.len(),
{
    if i < rows.len() - 1 {
        follow_covers(rows.drop_last(), i, from, cursor);
    }
}

/// A tail of an orderly stream yields exactly the stream's own events at or
/// above `from` and past the cursor, in version order.
pub proof fn follow_is_exact(
    db: Db,
    stream: Seq<u8>,
    from: Version,
    cursor: Option<Version>,
    e: EnvelopeView,
)
    requires
        db.dom().finite(),
        orderly(db, stream),
    ensures
        all_events(records(db, stream)),
        followed(records(db, stream), from, cursor).contains(e) <==> (stored(db, stream, e)
            && e.version >= from && is_past(e.version, cursor)),
{
    let rows = records(db, stream);
    let prefix = r_prefix_of(stream);
    numbered_exists(db, prefix, 0, None);
    assert forall|i: int| 0 <= i < rows.len() implies (#[trigger] rows[i]).1 is Event && stored(
        db,
        stream,
        rows[i].1->Event_0,
    ) && number_of(prefix, rows[i].0) == Some(rows[i].1->Event_0.version as nat) by {
        assert(db.contains_key(rows[i].0));
        assert(is_own(stream, rows[i].0));
        assert(is_record(db, stream, rows[i].0));
        record_own(stream, rows[i].1->Event_0.version as nat);
    }
    assert forall|i: int, j: int| 0 <= i < j < rows.len() implies (#[trigger] rows[i]).1->Event_0.version
        < (#[trigger] rows[j]).1->Event_0.version by {
        assert(precedes(prefix, rows[i].0, rows[j].0));
    }
    follow_filters(rows, rows.len() as int, from, cursor, e);
    assert(rows.take(rows.len() as int) =~= rows);
    if stored(db, stream, e) {
        let k = r_key_of(stream, e.version as nat);
        record_own(stream, e.version as nat);
        assert(numbers(prefix, 0, None)(k));
        let i = choose|i: int| 0 <= i < rows.len() && #[trigger] rows[i].0 == k;
        assert(rows[i].1->Event_0 == e);
    }
}

/// Over rows in version order a tail yields those that are wanted.
proof fn follow_filters(
    rows: Seq<(Seq<u8>, ValueView)>,
    n: int,
    from: Version,
    cursor: Option<Version>,
    e: EnvelopeView,
)
    requires
        0 <= n <= rows.len(),
        forall|i: int, j: int|
            0 <= i < j < rows.len() ==> (#[trigger] rows[i]).1->Event_0.version < (
            #[trigger] rows[j]).1->Event_0.version,
    ensures
        ({
            let t = rows.take(n);
            let end = followed_to(t, from, cursor);
            &&& followed(t, from, cursor).contains(e) <==> (e.version >= from && is_past(
                e.version,
                cursor,
            ) && exists|i: int| 0 <= i < n && (#[trigger] rows[i]).1->Event_0 == e)
            &&& end == cursor || (end is Some && exists|i: int|
                0 <= i < n && (#[trigger] rows[i]).1->Event_0.version == end->0)
            &&& cursor is Some ==> end is Some && end->0 >= cursor->0
        }),
    decreases n,
{
    let t = rows.take(n);
    if n == 0 {
        assert(t =~= Seq::empty());
    } else {
        follow_filters(rows, n - 1, from, cursor, e);
        let r = t.drop_last();
        assert(r =~= rows.take(n - 1));
        assert(t.last() == rows[n - 1]);
        let f = rows[n - 1].1->Event_0;
        let at = followed_to(r, from, cursor);
        assert(is_past(f.version, at) == is_past(f.version, cursor)) by {
            if at != cursor {
                let i = choose|i: int| 0 <= i < n - 1 && (#[trigger] rows[i]).1->Event_0.version == at->0;
                assert(rows[i].1->Event_0.version < rows[n - 1].1->Event_0.version);
            }
        }
        let before = followed(r, from, cursor);
        let out = followed(t, from, cursor);
        if f.version >= from && is_past(f.version, at) {
            assert(out == before.push(f));
            assert(out[before.len() as int] == f);
            if before.contains(e) {
                let j = choose|j: int| 0 <= j < before.len() && before[j] == e;
                assert(out[j] == e);
            }
            if out.contains(e) && e != f {
                let j = choose|j: int| 0 <= j < out.len() && out[j] == e;
                assert(before[j] == e);
            }
            assert(rows[n - 1].1->Event_0 == f);
        }
        if exists|i: int| 0 <= i < n && (#[trigger] rows[i]).1->Event_0 == e {
            let i = choose|i: int| 0 <= i < n && (#[trigger] rows[i]).1->Event_0 == e;
            if i < n - 1 {
                assert(rows[i].1->Event_0 == e);
            }
        }
    }
}

} // verus!

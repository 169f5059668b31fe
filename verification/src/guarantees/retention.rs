//! What trims, purges, forks and deletions come to.
use vstd::prelude::*;
use vstd::string::*;

use crate::branches::purge_is_exact;
use crate::digits::be8_roundtrip;
use crate::envelope::{EnvelopeView, ExpectedVersion, Version};
use crate::error::{number_text, says, Error};
use crate::fork::{history, history_of};
use crate::guarantees::reads::{cell_at, held_by_fork, pin_in_words};
use crate::kv::{
    events_of, fork_key, is_ceiling, live_pin, m_key_of, number, pinned, r_key_of, r_prefix_of,
    read_outcome, Db, Fault, TailRecord, ValueView,
};
use crate::layout::{fixed_parts, record_own};
use crate::numbered::{number_key, numbered_exists, precedes};
use crate::order::{after, has_prefix};
use crate::store::tail_info;
use crate::store::retention::{
    fork_outcome, in_rows, metadata_rows, purge_batch, purge_batch_rows, purge_outcome,
    purge_range, purge_run, purge_start, streams_in, tail_stream, trim_floor, without_rows_keys,
    PURGE_CHUNK,
};
use crate::stream::{orderly, read_is_exact};
use crate::table::{is_listing, lemma_under, listing_exists, under};
use crate::text::{utf8, SLASH};

verus! {

// ---- trims ----------------------------------------------------------------

/// A trim puts the floor where it is asked to, except that it neither moves the
/// floor back nor past the version after the tail.
pub proof fn trim_sets_floor(db: Db, s: Seq<u8>, floor: nat)
    ensures
        ({
            let tail = m_key_of(s, utf8("tail"@));
            let trim = m_key_of(s, utf8("trim"@));
            let old = if db.contains_key(trim) {
                cell_at(db, trim)
            } else {
                0
            };
            let new = trim_floor(db, s, floor);
            &&& new >= old
            &&& floor <= old ==> new == old
            &&& old <= floor && (db.contains_key(tail) ==> floor <= db[tail]->Tail_0.version + 1)
                ==> new == floor
            &&& db.contains_key(tail) && floor > db[tail]->Tail_0.version + 1 && old
                <= db[tail]->Tail_0.version + 1 ==> new == db[tail]->Tail_0.version + 1
        }),
{
}

/// What a change of metadata answers: the tail's version twice, or 0, and no
/// sequence number.
pub proof fn tail_is_answered(t: TailRecord)
    ensures
        tail_info(Some(t)).first_version == t.version,
        tail_info(Some(t)).last_version == t.version,
        tail_info(Some(t)).start_sequence == 0,
        tail_info(None).first_version == 0,
        tail_info(None).last_version == 0,
        tail_info(None).start_sequence == 0,
{
}

// ---- purges ---------------------------------------------------------------

/// The ceiling of a stream is the highest version that a live fork holds:
/// versions are held exactly up to it.
pub proof fn ceiling_is_highest_held(db: Db, s: Seq<u8>, c: Option<Version>, v: nat)
    requires
        is_ceiling(db, s, c),
    ensures
        (exists|child: Seq<u8>| #[trigger] held_by_fork(db, s, child, v)) <==> c is Some && v
            <= c->0,
{
    pin_in_words(db, s, v);
    if c is Some && v <= c->0 {
        let k = choose|k: Seq<u8>| #[trigger] live_pin(db, s, k) && number(db[k]) == c->0;
        assert(live_pin(db, s, k) && v <= number(db[k]));
    }
    if pinned(db, s, v) {
        let k = choose|k: Seq<u8>| #[trigger] live_pin(db, s, k) && v <= number(db[k]);
        assert(live_pin(db, s, k));
    }
}

/// A purge below a floor deletes an event exactly if its version is below the
/// floor and no live fork holds it.
pub proof fn purge_deletes_unheld(db: Db, s: Seq<u8>, c: Option<Version>, floor: nat, v: nat)
    requires
        db.dom().finite(),
        is_ceiling(db, s, c),
        v <= u64::MAX,
        db.contains_key(r_key_of(s, v)),
    ensures
        ({
            let after = purge_run(db, s, purge_start(c), floor).db;
            &&& after.contains_key(r_key_of(s, v)) <==> v >= floor || exists|child: Seq<u8>|
                #[trigger] held_by_fork(db, s, child, v)
            &&& after.contains_key(r_key_of(s, v)) ==> after[r_key_of(s, v)] == db[r_key_of(s, v)]
        }),
{
    purge_is_exact(db, s, purge_start(c), floor);
    ceiling_is_highest_held(db, s, c, v);
    record_own(s, v);
}

/// A purge deletes nothing but records of its stream, and counts each.
pub proof fn purge_leaves_the_rest(db: Db, s: Seq<u8>, c: Option<Version>, floor: nat, k: Seq<u8>)
    requires
        db.dom().finite(),
        db.contains_key(k),
        forall|v: nat| v <= u64::MAX && v < floor ==> k != #[trigger] r_key_of(s, v),
    ensures
        ({
            let p = purge_run(db, s, purge_start(c), floor);
            &&& p.db.contains_key(k)
            &&& p.db[k] == db[k]
            &&& p.purged == db.dom().len() - p.db.dom().len()
        }),
{
    purge_is_exact(db, s, purge_start(c), floor);
    if purge_range(s, purge_start(c), floor)(k) {
        number_key(r_prefix_of(s), k);
        let v = crate::numbered::number_of(r_prefix_of(s), k)->0;
        assert(k == r_key_of(s, v));
        assert(false);
    }
    let p = purge_run(db, s, purge_start(c), floor);
    assert(p.db.contains_key(k));
}

// ---- forks ----------------------------------------------------------------

/// A fork is made exactly if the parent has reached its version and the child
/// does not exist yet. The child then says where it comes from and stands at
/// that version, and the parent holds a pin for it; nothing else changes. A
/// fork that is not made changes nothing.
pub proof fn fork_is_made(
    before: Db,
    after: Db,
    parent: Seq<char>,
    at: Version,
    child: Seq<char>,
    r: Result<(), Error>,
)
    requires
        fork_outcome(before, after, parent, at, child, r),
        before.contains_key(m_key_of(utf8(parent), utf8("tail"@))) ==> before[m_key_of(
            utf8(parent),
            utf8("tail"@),
        )] is Tail,
        before.contains_key(m_key_of(utf8(child), utf8("tail"@))) ==> before[m_key_of(
            utf8(child),
            utf8("tail"@),
        )] is Tail,
    ensures
        ({
            let p = m_key_of(utf8(parent), utf8("tail"@));
            let c = m_key_of(utf8(child), utf8("tail"@));
            let from = m_key_of(utf8(child), utf8("fork"@));
            let pin = m_key_of(utf8(parent), utf8("forks/"@) + utf8(child));
            &&& r is Ok <==> before.contains_key(p) && before[p]->Tail_0.version >= at
                && !before.contains_key(c)
            &&& r is Err ==> after == before
            &&& r is Ok && pin != c && pin != from ==> {
                &&& after.contains_key(from) && after[from] is Fork
                &&& after[from]->Fork_0.stream == parent
                &&& after[from]->Fork_0.at_version == at
                &&& after.contains_key(c) && after[c] is Tail && after[c]->Tail_0.version == at
                &&& after[c]->Tail_0.ts_ms == before[p]->Tail_0.ts_ms
                &&& after.contains_key(pin) && cell_at(after, pin) == at
            }
            &&& r is Ok ==> forall|k: Seq<u8>|
                k != from && k != c && k != pin ==> #[trigger] after.contains_key(k)
                    == before.contains_key(k) && (before.contains_key(k) ==> after[k] == before[k])
            &&& r is Err && before.contains_key(c) && before.contains_key(p)
                && before[p]->Tail_0.version >= at ==> (r->Err_0 matches Error::VersionConflict {
                stream,
                expected,
                actual,
            } && stream@ == child && expected == ExpectedVersion::NoStream && actual == Some(
                before[c]->Tail_0.version,
            ))
            &&& !before.contains_key(p) ==> says(
                r->Err_0,
                "parent '"@ + parent + "' does not exist"@,
            )
            &&& before.contains_key(p) && before[p]->Tail_0.version < at ==> says(
                r->Err_0,
                "parent '"@ + parent + "' is at v"@ + number_text(
                    before[p]->Tail_0.version as nat,
                ) + ", cannot fork at v"@ + number_text(at as nat),
            )
        }),
{
    fixed_parts();
    be8_roundtrip(at);
    crate::layout::fields_differ(utf8(child), utf8("fork"@), utf8(child), utf8("tail"@));
}

/// A fork that meets a tail record of the wrong kind, of the parent, or of the
/// child once the parent is found fit, fails and changes nothing.
pub proof fn fork_needs_readable_tails(
    before: Db,
    after: Db,
    parent: Seq<char>,
    at: Version,
    child: Seq<char>,
    r: Result<(), Error>,
)
    requires
        fork_outcome(before, after, parent, at, child, r),
    ensures
        ({
            let p = m_key_of(utf8(parent), utf8("tail"@));
            let c = m_key_of(utf8(child), utf8("tail"@));
            let bad_parent = before.contains_key(p) && !(before[p] is Tail);
            let bad_child = before.contains_key(c) && !(before[c] is Tail);
            let fit = before.contains_key(p) && before[p] is Tail && before[p]->Tail_0.version >= at;
            bad_parent || (fit && bad_child) ==> r is Err && r->Err_0 is Encoding && after == before
        }),
{
}

/// A fork reads as the parent does up to the fork point and as itself from
/// there on. (The parent is not a fork itself here.)
pub proof fn fork_reads_parent_then_itself(
    db: Db,
    child: Seq<u8>,
    lo: nat,
    hi: Option<nat>,
    e: EnvelopeView,
)
    requires
        db.dom().finite(),
        db.contains_key(m_key_of(child, utf8("fork"@))),
        db[m_key_of(child, utf8("fork"@))] is Fork,
        !db.contains_key(
            m_key_of(utf8(db[m_key_of(child, utf8("fork"@))]->Fork_0.stream), utf8("fork"@)),
        ),
        utf8(db[m_key_of(child, utf8("fork"@))]->Fork_0.stream) != child,
        orderly(db, child),
        orderly(db, utf8(db[m_key_of(child, utf8("fork"@))]->Fork_0.stream)),
    ensures
        ({
            let f = db[m_key_of(child, utf8("fork"@))]->Fork_0;
            let r = history_of(db, child, lo, hi);
            &&& r is Ok
            &&& r->Ok_0.contains(e) <==> {
                &&& lo <= e.version
                &&& hi is Some ==> e.version < hi->0
                &&& if e.version <= f.at_version {
                    events_of(db, utf8(f.stream), 0, None).contains(e)
                } else {
                    events_of(db, child, 0, None).contains(e)
                }
            }
        }),
{
    let f = db[m_key_of(child, utf8("fork"@))]->Fork_0;
    let at = f.at_version;
    let p = utf8(f.stream);
    let end = crate::fork::parent_end(at, hi);
    let mine = crate::kv::max(lo, at as nat + 1);
    read_is_exact(db, p, lo, end);
    read_is_exact(db, child, mine, hi);
    crate::guarantees::reads::read_shows(db, p, lo, end, e);
    crate::guarantees::reads::read_shows(db, p, 0, None, e);
    crate::guarantees::reads::read_shows(db, child, mine, hi, e);
    crate::guarantees::reads::read_shows(db, child, 0, None, e);
    let seen = Set::<Seq<u8>>::empty();
    let seen2 = seen.insert(fork_key(child));
    assert(fork_key(p) != fork_key(child));
    if crate::fork::no_versions(lo, hi) {
    } else {
        let a = if crate::fork::no_versions(lo, end) {
            Seq::<EnvelopeView>::empty()
        } else {
            events_of(db, p, lo, end)
        };
        let b = if at == u64::MAX {
            Seq::<EnvelopeView>::empty()
        } else {
            events_of(db, child, mine, hi)
        };
        if !crate::fork::no_versions(lo, end) {
            assert(history(db, p, seen2, lo, end) == Ok::<Seq<EnvelopeView>, Fault>(a));
        }
        assert(history_of(db, child, lo, hi) == Ok::<Seq<EnvelopeView>, Fault>(a + b));
        assert((a + b).contains(e) <==> a.contains(e) || b.contains(e)) by {
            if a.contains(e) {
                let i = choose|i: int| 0 <= i < a.len() && a[i] == e;
                assert((a + b)[i] == e);
            }
            if b.contains(e) {
                let i = choose|i: int| 0 <= i < b.len() && b[i] == e;
                assert((a + b)[a.len() + i] == e);
            }
        }
    }
}

/// A stream that is no fork has the events it reads as its history.
pub proof fn plain_history_is_read(db: Db, s: Seq<u8>, lo: nat, hi: Option<nat>)
    requires
        db.dom().finite(),
        !db.contains_key(m_key_of(s, utf8("fork"@))),
        orderly(db, s),
    ensures
        history_of(db, s, lo, hi) == Ok::<Seq<EnvelopeView>, Fault>(events_of(db, s, lo, hi)),
{
    read_is_exact(db, s, lo, hi);
    if crate::fork::no_versions(lo, hi) {
        assert(crate::kv::empty_range(db, s, lo, hi));
    }
}

// ---- streams --------------------------------------------------------------

proof fn tail_key_names(k: Seq<u8>, s: Seq<u8>)
    requires
        has_prefix(k, utf8("m/"@)),
    ensures
        tail_stream(k) == Some(s) <==> k == m_key_of(s, utf8("tail"@)),
{
    reveal_strlit("m/");
    reveal_strlit("/tail");
    reveal_strlit("tail");
    vstd::utf8::is_ascii_chars_encode_utf8("m/"@);
    vstd::utf8::is_ascii_chars_encode_utf8("/tail"@);
    vstd::utf8::is_ascii_chars_encode_utf8("tail"@);
    assert(utf8("m/"@) =~= seq![0x6du8, SLASH]);
    assert(utf8("tail"@) =~= seq![0x74u8, 0x61, 0x69, 0x6c]);
    assert(utf8("/tail"@) =~= seq![SLASH] + utf8("tail"@));
    let rest = after(k, 2);
    assert(k =~= seq![0x6du8, SLASH] + rest) by {
        assert(k.subrange(0, 2) =~= utf8("m/"@));
        assert(k[0] == k.subrange(0, 2)[0]);
        assert(k[1] == k.subrange(0, 2)[1]);
    }
    if tail_stream(k) == Some(s) {
        let n = rest.len() - 5;
        assert(rest =~= s + utf8("/tail"@)) by {
            assert(rest.subrange(n, rest.len() as int) =~= utf8("/tail"@));
            assert forall|i: int| 0 <= i < 5 implies rest[n + i] == utf8("/tail"@)[i] by {
                assert(rest.subrange(n, rest.len() as int)[i] == rest[n + i]);
            }
        }
        assert(k =~= m_key_of(s, utf8("tail"@)));
    }
    if k == m_key_of(s, utf8("tail"@)) {
        assert(rest =~= s + utf8("/tail"@));
        let n = s.len() as int;
        assert(rest.subrange(n, rest.len() as int) =~= utf8("/tail"@));
        assert(rest.take(n) =~= s);
    }
}

proof fn listed_streams(db: Db, rows: Seq<(Seq<u8>, ValueView)>, s: Seq<u8>)
    requires
        forall|i: int| 0 <= i < rows.len() ==> has_prefix((#[trigger] rows[i]).0, utf8("m/"@)),
    ensures
        streams_in(db, rows).contains(s) <==> !db.contains_key(m_key_of(s, utf8("deleted"@)))
            && exists|i: int|
            0 <= i < rows.len() && (#[trigger] rows[i]).0 == m_key_of(s, utf8("tail"@)),
    decreases rows.len(),
{
    if rows.len() > 0 {
        let rest = rows.drop_last();
        assert forall|i: int| 0 <= i < rest.len() implies has_prefix(
            (#[trigger] rest[i]).0,
            utf8("m/"@),
        ) by {
            assert(has_prefix(rows[i].0, utf8("m/"@)));
        }
        listed_streams(db, rest, s);
        let last = rows[rows.len() - 1];
        assert(has_prefix(last.0, utf8("m/"@)));
        tail_key_names(last.0, s);
        let before = streams_in(db, rest);
        let now = streams_in(db, rows);
        if before.contains(s) {
            let i = choose|i: int| 0 <= i < before.len() && before[i] == s;
            assert(now[i] == s);
            let j = choose|j: int|
                0 <= j < rest.len() && (#[trigger] rest[j]).0 == m_key_of(s, utf8("tail"@));
            assert(rows[j].0 == m_key_of(s, utf8("tail"@)));
        }
        if last.0 == m_key_of(s, utf8("tail"@)) && !db.contains_key(
            m_key_of(s, utf8("deleted"@)),
        ) {
            assert(now[now.len() - 1] == s);
        }
        if now.contains(s) && !before.contains(s) {
            let i = choose|i: int| 0 <= i < now.len() && now[i] == s;
            if i < before.len() {
                assert(before[i] == s);
            }
        }
        if exists|i: int|
            0 <= i < rows.len() && (#[trigger] rows[i]).0 == m_key_of(s, utf8("tail"@)) {
            let i = choose|i: int|
                0 <= i < rows.len() && (#[trigger] rows[i]).0 == m_key_of(s, utf8("tail"@));
            if i < rest.len() {
                assert(rest[i].0 == m_key_of(s, utf8("tail"@)));
            }
        }
    }
}

/// The streams of a store are those that have a tail and are not deleted.
pub proof fn streams_have_tails(db: Db, s: Seq<u8>)
    requires
        db.dom().finite(),
    ensures
        streams_in(db, metadata_rows(db)).contains(s) <==> db.contains_key(
            m_key_of(s, utf8("tail"@)),
        ) && !db.contains_key(m_key_of(s, utf8("deleted"@))),
{
    let rows = metadata_rows(db);
    let p = under(utf8("m/"@));
    listing_exists(db, p);
    assert(is_listing(db, p, rows));
    assert forall|i: int| 0 <= i < rows.len() implies has_prefix(
        (#[trigger] rows[i]).0,
        utf8("m/"@),
    ) by {
        assert(p(rows[i].0));
        lemma_under(utf8("m/"@), rows[i].0);
    }
    listed_streams(db, rows, s);
    let k = m_key_of(s, utf8("tail"@));
    reveal_strlit("m/");
    vstd::utf8::is_ascii_chars_encode_utf8("m/"@);
    assert(utf8("m/"@) =~= seq![0x6du8, SLASH]);
    assert(k.subrange(0, 2) =~= utf8("m/"@));
    lemma_under(utf8("m/"@), k);
    if db.contains_key(k) {
        assert(p(k));
        let i = choose|i: int| 0 <= i < rows.len() && #[trigger] rows[i].0 == k;
        assert(rows[i].0 == k);
    }
}

/// A step of a purge deletes the lowest versions, as many as one step takes, and
/// says how many and where to go on: below that version nothing of the range is
/// left, and from there on nothing was deleted.
pub proof fn purge_step_takes_lowest(
    before: Db,
    after: Db,
    s: Seq<u8>,
    next: nat,
    floor: nat,
    r: Result<Option<(u64, Version)>, Error>,
    v: nat,
)
    requires
        before.dom().finite(),
        purge_outcome(before, after, s, next, floor, r),
        floor <= u64::MAX,
        v <= u64::MAX,
        before.contains_key(r_key_of(s, v)),
    ensures
        r is Ok,
        r->Ok_0 is None ==> after == before && !(next <= v < floor),
        r->Ok_0 is Some ==> ({
            let (n, on) = r->Ok_0->0;
            &&& 0 < n <= PURGE_CHUNK
            &&& next < on <= floor
            &&& after.contains_key(r_key_of(s, v)) <==> v < next || v >= on
            // A step that is not full leaves nothing.
            &&& n < PURGE_CHUNK ==> !(on <= v < floor)
        }),
{
    let rows = purge_batch(before, s, next, floor);
    let all = crate::store::retention::purgeable(before, s, next, floor);
    let prefix = r_prefix_of(s);
    let k = r_key_of(s, v);
    numbered_exists(before, prefix, next, Some(floor));
    record_own(s, v);
    if next <= v < floor {
        assert(purge_range(s, next, floor)(k));
        let i = choose|i: int| 0 <= i < all.len() && #[trigger] all[i].0 == k;
        assert(all[i].0 == k);
    }
    if r->Ok_0 is Some {
        purge_batch_rows(before, s, next, floor);
        without_rows_keys(before, rows);
        let last = rows.len() - 1;
        let on = crate::store::retention::version_at(s, rows[last].0) + 1;
        assert(purge_range(s, next, floor)(rows[last].0));
        assert(on <= floor);
        assert(rows == all.take(rows.len() as int)) by {
            assert(all.take(all.len() as int) =~= all);
        }
        assert forall|i: int| 0 <= i < rows.len() implies #[trigger] rows[i] == all[i] by {}
        if rows.len() < PURGE_CHUNK && on <= v < floor {
            assert(all == rows);
            let i = choose|i: int| 0 <= i < all.len() && #[trigger] all[i].0 == k;
            if i < last {
                assert(precedes(prefix, all[i].0, all[last].0));
            }
            assert(false);
        }
        assert(in_rows(rows, k) <==> next <= v < on) by {
            if in_rows(rows, k) {
                let i = choose|i: int| 0 <= i < rows.len() && #[trigger] rows[i].0 == k;
                assert(purge_range(s, next, floor)(rows[i].0));
                if i < last {
                    assert(precedes(prefix, all[i].0, all[last].0));
                }
            }
            if next <= v < on {
                let i = choose|i: int| 0 <= i < all.len() && #[trigger] all[i].0 == k;
                if i > last {
                    assert(precedes(prefix, all[last].0, all[i].0));
                }
                assert(rows[i].0 == k);
            }
        }
    }
}

// ---- chains of forks ------------------------------------------------------

/// A history that was found with more streams behind it is found with fewer.
proof fn history_with_fewer_seen(
    db: Db,
    s: Seq<u8>,
    few: Set<Seq<u8>>,
    many: Set<Seq<u8>>,
    lo: nat,
    hi: Option<nat>,
)
    requires
        db.dom().finite(),
        few.subset_of(many),
        history(db, s, many, lo, hi) is Ok,
    ensures
        history(db, s, few, lo, hi) == history(db, s, many, lo, hi),
    decreases db.dom().difference(many).len(),
{
    let k = fork_key(s);
    if !crate::fork::no_versions(lo, hi) && db.contains_key(k) {
        assert(!many.contains(k));
        assert(!few.contains(k));
        let f = db[k]->Fork_0;
        let end = crate::fork::parent_end(f.at_version, hi);
        if !crate::fork::no_versions(lo, end) {
            crate::fork::lemma_shrinks(db.dom(), many, k);
            assert(few.insert(k).subset_of(many.insert(k)));
            assert(history(db, utf8(f.stream), many.insert(k), lo, end) is Ok);
            history_with_fewer_seen(
                db,
                utf8(f.stream),
                few.insert(k),
                many.insert(k),
                lo,
                end,
            );
        }
    } else if !crate::fork::no_versions(lo, hi) {
        assert(!many.contains(k));
        assert(!few.contains(k));
    }
}

/// The history of a fork is its parent's own history through the fork point,
/// however many forks that one goes back through, and then the fork's events
/// past that point.
pub proof fn fork_history_extends_parent(db: Db, child: Seq<u8>, lo: nat, hi: Option<nat>)
    requires
        db.dom().finite(),
        db.contains_key(m_key_of(child, utf8("fork"@))),
        db[m_key_of(child, utf8("fork"@))] is Fork,
        db[m_key_of(child, utf8("fork"@))]->Fork_0.at_version < u64::MAX,
        hi is Some ==> lo < hi->0,
        history_of(db, child, lo, hi) is Ok,
    ensures
        ({
            let f = db[m_key_of(child, utf8("fork"@))]->Fork_0;
            let past = (f.at_version + 1) as nat;
            let end = if hi is Some && hi->0 < past {
                hi->0
            } else {
                past
            };
            let start = if lo < past {
                past
            } else {
                lo
            };
            let up = history_of(db, utf8(f.stream), lo, Some(end));
            let own = read_outcome(db, child, start, hi);
            &&& lo < end ==> up is Ok && own is Ok && history_of(db, child, lo, hi)->Ok_0
                == up->Ok_0 + own->Ok_0
            &&& lo >= end ==> own is Ok && history_of(db, child, lo, hi)->Ok_0 == own->Ok_0
        }),
{
    let k = fork_key(child);
    let f = db[k]->Fork_0;
    let none = Set::<Seq<u8>>::empty();
    let end = crate::fork::parent_end(f.at_version, hi);
    let own = read_outcome(db, child, crate::kv::max(lo, f.at_version as nat + 1), hi);
    if crate::fork::no_versions(lo, end) {
        assert(Seq::<EnvelopeView>::empty() + own->Ok_0 =~= own->Ok_0);
    } else {
        let up = history(db, utf8(f.stream), none.insert(k), lo, end);
        assert(up is Ok);
        history_with_fewer_seen(db, utf8(f.stream), none, none.insert(k), lo, end);
    }
}

} // verus!

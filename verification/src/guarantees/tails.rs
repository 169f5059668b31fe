//! What following a stream or the compactions gives.
use vstd::prelude::*;

use crate::aggregate::{fold_from, Aggregate};
use crate::envelope::{EnvelopeView, Event, Version};
use crate::error::Error;
use crate::fork::history_of;
use crate::kv::{Db, ValueView};
use crate::order::lex_lt;
use crate::reader::{
    announced, announced_to, external, follow_is_exact, follow_is_increasing, followed,
    followed_to, is_internal, records,
};
use crate::store::compaction::{compactions, snapshot_of, snapshot_readable};
use crate::store::reads::{fold_steps, last_version, rehydrate_outcome};
use crate::stream::{orderly, stored};
use crate::table::{is_listing, listing_exists, under};

verus! {

/// What a read of history leaves out: the events whose type begins with a
/// dollar sign, and no other; the rest stays in order.
pub proof fn history_leaves_out_internal(a: Seq<EnvelopeView>, b: Seq<EnvelopeView>, e: EnvelopeView)
    ensures
        external(a + b) == external(a) + external(b),
        external(seq![e]) == (if e.event_type.len() > 0 && e.event_type[0] == '$' {
            Seq::empty()
        } else {
            seq![e]
        }),
        external(Seq::empty()) == Seq::<EnvelopeView>::empty(),
    decreases b.len(),
{
    let one = seq![e];
    assert(one.drop_last() =~= Seq::<EnvelopeView>::empty());
    assert(external(one.drop_last()) =~= Seq::<EnvelopeView>::empty());
    assert(external(one) =~= (if is_internal(e) {
        Seq::empty()
    } else {
        seq![e]
    }));
    if b.len() == 0 {
        assert(a + b =~= a);
        assert(external(a) + external(b) =~= external(a));
    } else {
        history_leaves_out_internal(a, b.drop_last(), e);
        assert((a + b).drop_last() =~= a + b.drop_last());
        assert((a + b).last() == b.last());
        assert(external(a + b) =~= external(a) + external(b));
    }
}

/// The version of a run of events is that of the last one.
pub proof fn version_is_last(s: Seq<EnvelopeView>, e: EnvelopeView)
    ensures
        last_version(s.push(e)) == Some(e.version),
        last_version(Seq::empty()) is None,
{
}

/// State is folded event by event, in order.
pub proof fn fold_takes_each_event<A: Aggregate>(a: A, s: Seq<EnvelopeView>, e: EnvelopeView)
    ensures
        fold_from(a, s.push(e)) == fold_from(a, s).step(e),
        fold_from(a, Seq::empty()) == a,
{
    assert(s.push(e).drop_last() =~= s);
}

/// A poll of a stream gives every stored event at or past the first version
/// wanted and past the cursor, and no other; the cursor ends at the last one,
/// or stays.
pub proof fn poll_gives_what_is_new(
    db: Db,
    s: Seq<u8>,
    from: Version,
    cursor: Option<Version>,
    e: EnvelopeView,
)
    requires
        db.dom().finite(),
        orderly(db, s),
    ensures
        ({
            let out = followed(records(db, s), from, cursor);
            let end = followed_to(records(db, s), from, cursor);
            &&& out.contains(e) <==> stored(db, s, e) && e.version >= from && match cursor {
                Some(c) => e.version > c,
                None => true,
            }
            &&& forall|i: int, j: int| 0 <= i < j < out.len() ==> out[i].version < out[j].version
            &&& out.len() > 0 ==> end == Some(out.last().version)
            &&& out.len() == 0 ==> end == cursor
        }),
{
    follow_is_exact(db, s, from, cursor, e);
    follow_is_increasing(records(db, s), from, cursor);
}

proof fn announced_run(
    rows: Seq<(Seq<u8>, ValueView)>,
    cursor: Option<Seq<u8>>,
    m: int,
    n: int,
)
    requires
        0 <= m <= n <= rows.len(),
        forall|i: int, j: int| 0 <= i < j < rows.len() ==> #[trigger] lex_lt(rows[i].0, rows[j].0),
        m > 0 ==> cursor is Some,
        forall|i: int| 0 <= i < m ==> !lex_lt(cursor->0, (#[trigger] rows[i]).0),
        forall|i: int|
            m <= i < rows.len() ==> cursor is None || lex_lt(cursor->0, (#[trigger] rows[i]).0),
    ensures
        announced(rows.take(n), cursor) == Seq::new(
            (n - m) as nat,
            |i: int| rows[m + i].1->Compaction_0,
        ),
        announced_to(rows.take(n), cursor) == (if m < n {
            Some(rows[n - 1].0)
        } else {
            cursor
        }),
    decreases n,
{
    let t = rows.take(n);
    if n > m {
        announced_run(rows, cursor, m, n - 1);
        assert(t.drop_last() =~= rows.take(n - 1));
        assert(t.last() == rows[n - 1]);
        assert(cursor is None || lex_lt(cursor->0, rows[n - 1].0));
        if m < n - 1 {
            assert(lex_lt(rows[n - 2].0, rows[n - 1].0));
        }
        assert(announced(t, cursor) =~= Seq::new(
            (n - m) as nat,
            |i: int| rows[m + i].1->Compaction_0,
        ));
    } else {
        announced_none(rows, cursor, n);
        assert(announced(t, cursor) =~= Seq::new(0, |i: int| rows[m + i].1->Compaction_0));
    }
}

proof fn announced_none(rows: Seq<(Seq<u8>, ValueView)>, cursor: Option<Seq<u8>>, n: int)
    requires
        0 <= n <= rows.len(),
        n > 0 ==> cursor is Some,
        forall|i: int| 0 <= i < n ==> !lex_lt(cursor->0, (#[trigger] rows[i]).0),
    ensures
        announced(rows.take(n), cursor).len() == 0,
        announced_to(rows.take(n), cursor) == cursor,
    decreases n,
{
    if n > 0 {
        announced_none(rows, cursor, n - 1);
        assert(rows.take(n).drop_last() =~= rows.take(n - 1));
        assert(rows.take(n).last() == rows[n - 1]);
        assert(!lex_lt(cursor->0, rows[n - 1].0));
    }
}

/// A poll of the compactions gives the records whose keys lie past the cursor,
/// each once, in key order, and moves the cursor to the last key.
pub proof fn poll_gives_new_compactions(db: Db, cursor: Option<Seq<u8>>, m: int)
    requires
        db.dom().finite(),
        0 <= m <= compactions(db).len(),
        m > 0 ==> cursor is Some,
        forall|i: int|
            0 <= i < m ==> !lex_lt(cursor->0, (#[trigger] compactions(db)[i]).0),
        forall|i: int|
            m <= i < compactions(db).len() ==> cursor is None || lex_lt(
                cursor->0,
                (#[trigger] compactions(db)[i]).0,
            ),
    ensures
        announced(compactions(db), cursor) == Seq::new(
            (compactions(db).len() - m) as nat,
            |i: int| compactions(db)[m + i].1->Compaction_0,
        ),
        announced_to(compactions(db), cursor) == (if m < compactions(db).len() {
            Some(compactions(db).last().0)
        } else {
            cursor
        }),
{
    let rows = compactions(db);
    listing_exists(db, under(crate::kv::compactions_prefix()));
    assert(is_listing(db, under(crate::kv::compactions_prefix()), rows));
    announced_run(rows, cursor, m, rows.len() as int);
    assert(rows.take(rows.len() as int) =~= rows);
}

/// A second poll with the cursor of the first gives nothing new.
pub proof fn compactions_come_once(db: Db)
    requires
        db.dom().finite(),
    ensures
        announced(compactions(db), announced_to(compactions(db), None)).len() == 0,
        announced(compactions(db), None).len() == compactions(db).len(),
{
    let rows = compactions(db);
    poll_gives_new_compactions(db, None, 0);
    if rows.len() > 0 {
        let last = rows.last().0;
        listing_exists(db, under(crate::kv::compactions_prefix()));
        assert(is_listing(db, under(crate::kv::compactions_prefix()), rows));
        assert forall|i: int| 0 <= i < rows.len() implies !lex_lt(last, (#[trigger] rows[i]).0) by {
            if i < rows.len() - 1 {
                assert(lex_lt(rows[i].0, rows[rows.len() - 1].0));
                crate::order::lex_asymmetric(rows[i].0, last);
            } else {
                crate::order::lex_irreflexive(last);
            }
        }
        poll_gives_new_compactions(db, Some(last), rows.len() as int);
    }
}

/// State is rebuilt from the latest snapshot and the history past it, or from
/// the whole history where there is none. The version that comes with it is that
/// of the last event folded in, else the snapshot's, else none.
pub proof fn rebuilt_state_is_current<A: Aggregate>(
    db: Db,
    s: Seq<u8>,
    r: Result<(A, Option<Version>), Error>,
)
    requires
        rehydrate_outcome(db, s, r),
        snapshot_readable(db, s),
    ensures
        match snapshot_of(db, s) {
            Some(snap) => match A::restored(snap.state) {
                Some(a) => snap.through_version < u64::MAX ==> {
                    let past = history_of(db, s, (snap.through_version + 1) as nat, None);
                    &&& r is Ok <==> past is Ok
                    &&& r is Ok ==> r->Ok_0.0 == fold_from(a, past->Ok_0)
                    &&& r is Ok && past->Ok_0.len() > 0 ==> r->Ok_0.1 == Some(
                        past->Ok_0[past->Ok_0.len() - 1].version,
                    )
                    &&& r is Ok && past->Ok_0.len() == 0 ==> r->Ok_0.1 == Some(
                        snap.through_version,
                    )
                },
                None => r is Err,
            },
            None => {
                let all = history_of(db, s, 0, None);
                &&& r is Ok <==> all is Ok
                &&& r is Ok ==> r->Ok_0.0 == fold_from(A::start(), all->Ok_0)
                &&& r is Ok && all->Ok_0.len() > 0 ==> r->Ok_0.1 == Some(
                    all->Ok_0[all->Ok_0.len() - 1].version,
                )
                &&& r is Ok && all->Ok_0.len() == 0 ==> r->Ok_0.1 is None
            },
        },
{
}

proof fn fold_reaches<T, F: Fn(T, &Event) -> T>(
    apply: F,
    init: T,
    evs: Seq<Event>,
    states: Seq<T>,
    g: spec_fn(T, Event) -> T,
    n: int,
)
    requires
        fold_steps(apply, init, evs, states),
        0 <= n <= evs.len(),
        forall|x: T, e: &Event, y: T| #[trigger] apply.ensures((x, e), y) ==> y == g(x, *e),
    ensures
        states[n] == evs.take(n).fold_left(init, g),
    decreases n,
{
    if n > 0 {
        fold_reaches(apply, init, evs, states, g, n - 1);
        assert(evs.take(n).drop_last() =~= evs.take(n - 1));
        assert(evs.take(n).last() == evs[n - 1]);
        assert(apply.ensures((states[n - 1], &evs[n - 1]), states[n - 1 + 1]));
    }
}

/// A read that folds as it goes gives the left fold over the events, in order,
/// where the step is a function.
pub proof fn folding_read_is_left_fold<T, F: Fn(T, &Event) -> T>(
    apply: F,
    init: T,
    evs: Seq<Event>,
    states: Seq<T>,
    g: spec_fn(T, Event) -> T,
)
    requires
        fold_steps(apply, init, evs, states),
        forall|x: T, e: &Event, y: T| #[trigger] apply.ensures((x, e), y) ==> y == g(x, *e),
    ensures
        states.len() == evs.len() + 1,
        states[0] == init,
        states.last() == evs.fold_left(init, g),
{
    fold_reaches(apply, init, evs, states, g, evs.len() as int);
    assert(evs.take(evs.len() as int) =~= evs);
}

} // verus!

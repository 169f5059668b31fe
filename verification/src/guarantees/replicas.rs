//! What a replica holds after a sync.
use vstd::prelude::*;

use crate::envelope::Version;
use crate::error::number_text;
use crate::fuse::{DeltaView, Nodes};
use crate::fuse::checkpoint::replay;
use crate::fuse::replica::{
    can_rebuild, cut_off_text, deltas_of, has_gap, read_from, replay_concat, Change,
};
use crate::text::debug_text;

verus! {

/// A sync reads on right after the last event applied, and from the first one
/// where none was.
pub proof fn sync_reads_on(c: Version)
    ensures
        read_from(None) == 0,
        c < u64::MAX ==> read_from(Some(c)) == c + 1,
{
}

/// Where a sync does not rebuild, the first event that it reads is not past the
/// version right after the cursor. It rebuilds where that event is missing, and
/// where nothing is left to read that a checkpoint has covered; and only there.
pub proof fn sync_misses_no_event(cursor: Option<Version>, v: Version, snapshot: Option<Version>)
    ensures
        !has_gap(read_from(cursor), Some(v), snapshot) ==> v <= read_from(cursor),
        !has_gap(read_from(cursor), Some(v), snapshot) ==> match cursor {
            Some(c) => v <= c + 1,
            None => v == 0,
        },
        cursor is Some && v <= cursor->0 + 1 && v < u64::MAX ==> !has_gap(
            read_from(cursor),
            Some(v),
            snapshot,
        ),
        cursor is None && v == 0 ==> !has_gap(read_from(cursor), Some(v), snapshot),
        has_gap(read_from(cursor), None, Some(v)) <==> match cursor {
            Some(c) => v > c || (c == u64::MAX && v == u64::MAX),
            None => true,
        },
        !has_gap(read_from(cursor), None, None),
{
}

/// A rebuild goes through exactly if there is a checkpoint and no event between
/// it and the first one readable is missing.
pub proof fn rebuild_misses_no_event(through: Version, v: Version)
    ensures
        !can_rebuild(None, None),
        !can_rebuild(None, Some(v)),
        can_rebuild(Some(through), None),
        through < u64::MAX ==> (can_rebuild(Some(through), Some(v)) <==> v <= through + 1),
{
}

/// The deltas of two runs of events are those of the first and then those of
/// the second; an event has one or none.
pub proof fn deltas_in_order(a: Seq<Change>, b: Seq<Change>)
    ensures
        deltas_of(a + b) == deltas_of(a) + deltas_of(b),
        a.len() == 1 && a[0].delta is Some ==> deltas_of(a) == seq![a[0].delta->0@],
        a.len() == 1 && a[0].delta is None ==> deltas_of(a).len() == 0,
        deltas_of(Seq::empty()).len() == 0,
    decreases b.len(),
{
    if a.len() == 1 {
        assert(a.drop_last() =~= Seq::<Change>::empty());
        assert(deltas_of(a.drop_last()) =~= Seq::<DeltaView>::empty());
        if a[0].delta is Some {
            assert(deltas_of(a) =~= seq![a[0].delta->0@]);
        }
    }
    if b.len() == 0 {
        assert(a + b =~= a);
        assert(deltas_of(a) + deltas_of(b) =~= deltas_of(a));
    } else {
        deltas_in_order(a, b.drop_last());
        assert((a + b).drop_last() =~= a + b.drop_last());
        assert((a + b).last() == b.last());
        assert(deltas_of(a + b) =~= deltas_of(a) + deltas_of(b));
    }
}

/// The events of `stream` that `cursor` has passed.
pub open spec fn passed(cursor: Option<Version>) -> int {
    match cursor {
        Some(c) => c + 1,
        None => 0,
    }
}

/// After a sync that does not rebuild, the image is the replay of all deltas of
/// the stream through the new cursor. `stream` holds one event per version; what
/// is readable of it starts at version `floor`, or where the sync reads on.
pub proof fn sync_replays_whole_stream(
    stream: Seq<Change>,
    cursor: Option<Version>,
    floor: int,
    snapshot: Option<Version>,
    s: Seq<i64>,
    t: Seq<i64>,
)
    requires
        stream.len() <= u64::MAX,
        forall|k: int| 0 <= k < stream.len() ==> (#[trigger] stream[k]).version == k,
        passed(cursor) <= stream.len(),
        passed(cursor) <= floor <= stream.len(),
        !has_gap(
            read_from(cursor),
            if floor < stream.len() {
                Some(stream[floor].version)
            } else {
                None
            },
            snapshot,
        ),
        s.len() == deltas_of(stream.take(passed(cursor))).len(),
        t.len() == deltas_of(stream.skip(floor)).len(),
    ensures
        ({
            let image = replay(Nodes::empty(), deltas_of(stream.take(passed(cursor))), s);
            let read = stream.skip(floor);
            let after = if read.len() > 0 {
                Some(read.last().version)
            } else {
                cursor
            };
            replay(image, deltas_of(read), t) == replay(
                Nodes::empty(),
                deltas_of(stream.take(passed(after))),
                s + t,
            )
        }),
{
    let c = passed(cursor);
    let read = stream.skip(floor);
    sync_misses_no_event(
        cursor,
        if floor < stream.len() {
            stream[floor].version
        } else {
            0
        },
        snapshot,
    );
    let seen = deltas_of(stream.take(c));
    if floor < stream.len() {
        assert(stream[floor].version == floor);
        assert(floor == c);
        assert(read.last() == stream[stream.len() - 1]);
        assert(stream.take(c) + read =~= stream);
        assert(stream.take(stream.len() as int) =~= stream);
        deltas_in_order(stream.take(c), read);
        replay_concat(Nodes::empty(), seen, deltas_of(read), s, t);
    } else {
        assert(read =~= Seq::<Change>::empty());
        assert(deltas_of(read) =~= Seq::<DeltaView>::empty());
        assert(s + t =~= s);
    }
}

/// A rebuild that goes through ends in the same place: the checkpoint's image
/// is the replay through its version, and what is read behind it misses
/// nothing.
pub proof fn rebuild_replays_whole_stream(
    stream: Seq<Change>,
    through: Version,
    floor: int,
    s: Seq<i64>,
    t: Seq<i64>,
)
    requires
        stream.len() <= u64::MAX,
        forall|k: int| 0 <= k < stream.len() ==> (#[trigger] stream[k]).version == k,
        through < stream.len(),
        through < floor <= stream.len(),
        can_rebuild(
            Some(through),
            if floor < stream.len() {
                Some(stream[floor].version)
            } else {
                None
            },
        ),
        s.len() == deltas_of(stream.take(through + 1)).len(),
        t.len() == deltas_of(stream.skip(floor)).len(),
    ensures
        ({
            let image = replay(Nodes::empty(), deltas_of(stream.take(through + 1)), s);
            let read = stream.skip(floor);
            let after = if read.len() > 0 {
                read.last().version
            } else {
                through
            };
            replay(image, deltas_of(read), t) == replay(
                Nodes::empty(),
                deltas_of(stream.take(after + 1)),
                s + t,
            )
        }),
{
    let read = stream.skip(floor);
    if floor < stream.len() {
        assert(stream[floor].version == floor);
        assert(read.last() == stream[stream.len() - 1]);
        assert(stream.take(through + 1) + read =~= stream);
        assert(stream.take(stream.len() as int) =~= stream);
        deltas_in_order(stream.take(through + 1), read);
        replay_concat(
            Nodes::empty(),
            deltas_of(stream.take(through + 1)),
            deltas_of(read),
            s,
            t,
        );
    } else {
        assert(read =~= Seq::<Change>::empty());
        assert(deltas_of(read) =~= Seq::<DeltaView>::empty());
        assert(s + t =~= s);
    }
}

/// What a replica that cannot be rebuilt says: that there is no checkpoint, or
/// which versions are missing past the latest one.
pub proof fn cut_off_says_what_is_missing(vol: Seq<char>, through: Version, first: Version)
    ensures
        cut_off_text(vol, None, Some(first)) == "volume "@ + debug_text(vol)
            + ": backlog pruned but no checkpoint to rebuild from"@,
        through < u64::MAX ==> cut_off_text(vol, Some(through), Some(first)) == "volume "@
            + debug_text(vol) + ": deltas v"@ + number_text((through + 1) as nat) + "..v"@
            + number_text(first as nat) + " pruned past the latest checkpoint (v"@ + number_text(
            through as nat,
        ) + "); retry after the writer checkpoints"@,
{
}

} // verus!

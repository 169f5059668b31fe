//! Read-only replicas: streamed views of a volume. They take no fencing token,
//! so the writer and any number of replicas can coexist.
use vstd::prelude::*;
use vstd::string::*;

use crate::envelope::Version;
use crate::error::{number_text, push_number, says, Error};
use crate::fuse::checkpoint::replay;
use crate::fuse::store::{
    changes_of, file_read, image_sized, load_segments, merge_all, read_file, read_file_range,
    Blocks, ReadStep,
};
use crate::fuse::{fits, Delta, DeltaView, FsImage, Nodes, Segment};
use crate::stamp::now_ms;
use crate::store::reads::next_version;
use crate::table::{Dup, Table};
use crate::text::{debug_text, quoted, utf8};

verus! {

/// A replicated, read-only view of a volume.
pub struct Replica {
    pub vol: String,
    /// The current in-memory view; convergent with the volume stream as of
    /// the last sync.
    pub image: FsImage,
    /// Last applied stream version.
    pub cursor: Option<Version>,
    /// Content block cache, filled lazily by reads.
    pub blocks: Blocks,
}

/// One event of the volume stream: its version, and its delta if it carries
/// one.
pub struct Change {
    pub version: Version,
    pub delta: Option<Delta>,
}

/// The version after the cursor, where a sync reads on.
pub open spec fn read_from(cursor: Option<Version>) -> Version {
    match cursor {
        Some(c) => next_version(c),
        None => 0,
    }
}

/// Whether retention cut the backlog out from under the cursor: the first
/// event readable lies past `from`, or there is none although a checkpoint
/// covers `from`.
pub open spec fn has_gap(
    from: Version,
    first: Option<Version>,
    snapshot: Option<Version>,
) -> bool {
    match first {
        Some(v) => v > from,
        None => snapshot is Some && snapshot->0 >= from,
    }
}

/// Where to rebuild from: right after the checkpoint, if there is one and the
/// events since are all there.
pub open spec fn can_rebuild(snapshot: Option<Version>, first: Option<Version>) -> bool {
    snapshot is Some && (first is Some ==> first->0 <= next_version(snapshot->0))
}

/// The answer of a replica that cannot be rebuilt.
pub open spec fn cut_off_text(
    vol: Seq<char>,
    snapshot: Option<Version>,
    first: Option<Version>,
) -> Seq<char> {
    match snapshot {
        None => "volume "@ + debug_text(vol) + ": backlog pruned but no checkpoint to rebuild from"@,
        Some(through) => "volume "@ + debug_text(vol) + ": deltas v"@ + number_text(
            next_version(through) as nat,
        ) + "..v"@ + number_text(first->0 as nat) + " pruned past the latest checkpoint (v"@
            + number_text(through as nat) + "); retry after the writer checkpoints"@,
    }
}

/// The deltas of a run of changes.
pub open spec fn deltas_of(cs: Seq<Change>) -> Seq<DeltaView>
    decreases cs.len(),
{
    if cs.len() == 0 {
        Seq::empty()
    } else {
        let rest = deltas_of(cs.drop_last());
        match cs.last().delta {
            Some(d) => rest.push(d@),
            None => rest,
        }
    }
}

pub open spec fn all_fit(cs: Seq<Change>) -> bool {
    forall|i: int|
        0 <= i < cs.len() && (#[trigger] cs[i]).delta is Some ==> fits(cs[i].delta->0@)
}

impl Replica {
    /// A replica that has seen nothing yet.
    pub fn new(vol: String) -> (r: Self)
        ensures
            r.vol@ == vol@,
            r.image@ == Nodes::empty(),
            r.cursor is None,
            r.blocks@ == Map::<Seq<u8>, Seq<u8>>::empty(),
    {
        Replica { vol, image: FsImage::new(), cursor: None, blocks: Table::new() }
    }

    /// Where the next sync reads the stream from.
    pub fn next_read(&self) -> (v: Version)
        ensures
            v == read_from(self.cursor),
            self.cursor is None ==> v == 0,
            self.cursor is Some && self.cursor->0 < u64::MAX ==> v == self.cursor->0 + 1,
    {
        match self.cursor {
            Some(c) => if c == u64::MAX {
                c
            } else {
                c + 1
            },
            None => 0,
        }
    }

    /// Whether the replica has to be rebuilt from the latest checkpoint, given
    /// the version of the first event readable from [`next_read`] on and that
    /// of the latest snapshot.
    ///
    /// [`next_read`]: Self::next_read
    pub fn is_cut_off(&self, first: Option<Version>, snapshot: Option<Version>) -> (r: bool)
        ensures
            r == has_gap(read_from(self.cursor), first, snapshot),
            // What is applied without a rebuild starts at the version right
            // after the cursor.
            !r && first is Some ==> first->0 <= read_from(self.cursor) && match self.cursor {
                Some(c) => first->0 <= c + 1,
                None => first->0 == 0,
            },
    {
        let from = self.next_read();
        match first {
            Some(v) => v > from,
            None => match snapshot {
                Some(s) => s >= from,
                None => false,
            },
        }
    }

    /// Rebuilds the image from the segments of the latest checkpoint, whose
    /// snapshot is through `snapshot`; `first` is the version of the first
    /// event since. Fails, changing nothing, if there is no checkpoint or
    /// retention cut later events too.
    pub fn reload(
        &mut self,
        snapshot: Option<Version>,
        segments: Vec<Segment>,
        first: Option<Version>,
    ) -> (r: Result<(), Error>)
        ensures
            if can_rebuild(snapshot, first) {
                r is Ok && final(self).image@ == merge_all(changes_of(segments@))
                    && final(self).cursor == snapshot
            } else {
                r is Err && says(r->Err_0, cut_off_text(old(self).vol@, snapshot, first))
                    && final(self).image == old(self).image && final(self).cursor
                    == old(self).cursor
            },
            final(self).vol == old(self).vol,
            final(self).blocks == old(self).blocks,
    {
        let through = match snapshot {
            Some(v) => v,
            None => {
                let mut msg = "volume ".to_owned();
                msg.append(quoted(self.vol.as_str()).as_str());
                msg.append(": backlog pruned but no checkpoint to rebuild from");
                return Err(Error::InvalidInput(msg));
            },
        };
        let from: Version = if through == u64::MAX {
            through
        } else {
            through + 1
        };
        if let Some(v) = first {
            if v > from {
                let mut msg = "volume ".to_owned();
                msg.append(quoted(self.vol.as_str()).as_str());
                msg.append(": deltas v");
                push_number(&mut msg, from);
                msg.append("..v");
                push_number(&mut msg, v);
                msg.append(" pruned past the latest checkpoint (v");
                push_number(&mut msg, through);
                msg.append("); retry after the writer checkpoints");
                return Err(Error::InvalidInput(msg));
            }
        }
        self.image = load_segments(segments);
        self.cursor = Some(through);
        Ok(())
    }

    /// Applies the events read, in order, and moves the cursor past them.
    pub fn advance(&mut self, changes: &Vec<Change>)
        requires
            all_fit(changes@),
        ensures
            exists|nows: Seq<i64>|
                nows.len() == deltas_of(changes@).len() && final(self).image@ == #[trigger] replay(
                    old(self).image@,
                    deltas_of(changes@),
                    nows,
                ),
            final(self).cursor == (if changes.len() > 0 {
                Some(changes@.last().version)
            } else {
                old(self).cursor
            }),
            final(self).vol == old(self).vol,
            final(self).blocks == old(self).blocks,
    {
        let ghost cs = changes@;
        let ghost start = self.image@;
        let ghost mut nows: Seq<i64> = Seq::empty();
        let mut i: usize = 0;
        assert(cs.take(0) =~= Seq::<Change>::empty());
        while i < changes.len()
            invariant
                i <= changes.len(),
                cs == changes@,
                all_fit(cs),
                start == old(self).image@,
                nows.len() == deltas_of(cs.take(i as int)).len(),
                self.image@ == replay(start, deltas_of(cs.take(i as int)), nows),
                self.cursor == (if i > 0 {
                    Some(cs[i - 1].version)
                } else {
                    old(self).cursor
                }),
                self.vol == old(self).vol,
                self.blocks == old(self).blocks,
            decreases changes.len() - i,
        {
            let ghost done = deltas_of(cs.take(i as int));
            proof {
                assert(cs.take(i + 1).drop_last() =~= cs.take(i as int));
                assert(cs.take(i + 1).last() == cs[i as int]);
            }
            if let Some(d) = &changes[i].delta {
                let now = now_ms();
                let ghost before = nows;
                self.image.apply_at(d, now);
                proof {
                    nows = nows.push(now);
                    assert(done.push(d@).drop_last() =~= done);
                    replay_agrees(start, done, before, nows);
                }
            }
            self.cursor = Some(changes[i].version);
            i += 1;
        }
        assert(cs.take(i as int) =~= cs);
    }

    /// The whole of the file at `path`; `None` where there is no file.
    pub fn read_file(&self, path: &str) -> (r: Option<ReadStep>)
        requires
            image_sized(self.image@),
        ensures
            file_read(self.image@, self.blocks@, utf8(path@), 0, None, r),
    {
        read_file(&self.image, &self.blocks, path)
    }

    /// The bytes of the file at `path` in `[offset, offset + len)`.
    pub fn read_file_range(&self, path: &str, offset: u64, len: u64) -> (r: Option<ReadStep>)
        requires
            offset + len <= u64::MAX,
            image_sized(self.image@),
        ensures
            file_read(self.image@, self.blocks@, utf8(path@), offset as nat, Some(len as nat), r),
    {
        read_file_range(&self.image, &self.blocks, path, offset, len)
    }

    /// Keeps a fetched block.
    pub fn cache_block(&mut self, hash: String, bytes: Vec<u8>)
        ensures
            final(self).blocks@ == old(self).blocks@.insert(utf8(hash@), bytes@),
            final(self).image == old(self).image,
            final(self).cursor == old(self).cursor,
            final(self).vol == old(self).vol,
    {
        self.blocks.insert(hash, bytes);
    }

    /// The applied stream position (the replica's tail).
    pub fn cursor(&self) -> (r: Option<Version>)
        ensures
            r == self.cursor,
    {
        self.cursor
    }

    /// Blocks fetched into the cache so far.
    pub fn block_cache_len(&self) -> (n: usize)
        ensures
            n == self.blocks@.dom().len(),
    {
        self.blocks.len()
    }
}

/// A replay only looks at the times of the deltas it applies.
pub proof fn replay_agrees(nodes: Nodes, ds: Seq<DeltaView>, a: Seq<i64>, b: Seq<i64>)
    requires
        ds.len() <= a.len(),
        ds.len() <= b.len(),
        forall|i: int| 0 <= i < ds.len() ==> a[i] == b[i],
    ensures
        replay(nodes, ds, a) == replay(nodes, ds, b),
    decreases ds.len(),
{
    if ds.len() > 0 {
        replay_agrees(nodes, ds.drop_last(), a, b);
    }
}

/// Replaying two runs is replaying the first and then the second.
pub proof fn replay_concat(
    nodes: Nodes,
    a: Seq<DeltaView>,
    b: Seq<DeltaView>,
    s: Seq<i64>,
    t: Seq<i64>,
)
    requires
        s.len() == a.len(),
        t.len() == b.len(),
    ensures
        replay(nodes, a + b, s + t) == replay(replay(nodes, a, s), b, t),
    decreases b.len(),
{
    if b.len() == 0 {
        assert(a + b =~= a);
        assert(s + t =~= s);
    } else {
        let t0 = t.drop_last();
        replay_concat(nodes, a, b.drop_last(), s, t0);
        assert((a + b).drop_last() =~= a + b.drop_last());
        assert((a + b).last() == b.last());
        replay_agrees(nodes, a + b.drop_last(), s + t, s + t0);
        replay_agrees(replay(nodes, a, s), b.drop_last(), t, t0);
    }
}

/// A replica converges: one that has applied a first run of the stream and
/// then applies the rest holds the image of the whole.
pub proof fn replica_converges(
    base: Nodes,
    seen: Seq<DeltaView>,
    new: Seq<DeltaView>,
    s: Seq<i64>,
    t: Seq<i64>,
)
    requires
        s.len() == seen.len(),
        t.len() == new.len(),
    ensures
        replay(replay(base, seen, s), new, t) == replay(base, seen + new, s + t),
{
    replay_concat(base, seen, new, s, t);
}

} // verus!

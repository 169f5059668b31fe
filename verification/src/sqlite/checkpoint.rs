//! Checkpoints, step by step: what to upload, what to fetch, what to publish.
use vstd::prelude::*;
use vstd::string::*;

use crate::envelope::Version;
use crate::sqlite::store::{
    advance, coalesce, is_coalesced, next_manifest, paths, stages, Db, Staged,
};
use crate::sqlite::wal::{capture_is_exact, split, txids_fit, valid_run, Header, WalCursor};
use crate::sqlite::{
    applied_all, built_all, nothing_built, ref_to, seals, BuilderView, CheckpointOpts, DeltaView,
    ImageView, Ltx, LtxView, Manifest, ManifestView, SegmentRef, SegmentView,
};
use crate::table::{views, Dup};

verus! {

/// A checkpoint on its way: [`segment`](Self::segment) is to be uploaded.
pub struct Checkpoint {
    /// The version that the checkpoint covers the stream through.
    pub through: Version,
    pub opts: CheckpointOpts,
    /// The latest manifest so far.
    pub manifest: Manifest,
    pub segment: Ltx,
}

/// A checkpoint that folds all segments into one: those at
/// [`fetch`](Self::fetch) are to be fetched.
pub struct Coalescing {
    pub checkpoint: Checkpoint,
    pub new_ref: SegmentRef,
    /// The paths of the manifest's segments, oldest first.
    pub fetch: Vec<String>,
}

/// What ends a checkpoint: delete, publish, then purge.
pub struct Publication {
    /// Objects that the previous manifest retired.
    pub delete: Vec<String>,
    pub manifest: Manifest,
    pub through: Version,
    /// The version below which the manifest covers everything, if sealed
    /// history is to be purged.
    pub purge_below: Option<Version>,
}

/// How a checkpoint goes on.
pub enum Next {
    Coalesce(Coalescing),
    Publish(Publication),
}

/// Whether a manifest with one more segment is too long.
pub open spec fn too_long(m: ManifestView, opts: CheckpointOpts) -> bool {
    m.segments.len() + 1 > opts.coalesce_at
}

/// The first transaction of a manifest with one more segment.
pub open spec fn first_txid(m: ManifestView, newest: LtxView) -> u64 {
    if m.segments.len() > 0 {
        m.segments[0].txid_start
    } else {
        newest.txid_start
    }
}

/// The purge that ends a checkpoint: everything through `through`, if asked.
pub open spec fn purge_floor(opts: CheckpointOpts, through: Version) -> Option<Version> {
    if !opts.purge {
        None
    } else if through < u64::MAX {
        Some((through + 1) as Version)
    } else {
        Some(through)
    }
}

impl Publication {
    /// The publication of `(manifest, delete)` for a checkpoint.
    pub open spec fn publishes(
        &self,
        next: (ManifestView, Seq<Seq<char>>),
        through: Version,
        opts: CheckpointOpts,
    ) -> bool {
        &&& self.manifest@ == next.0
        &&& views(self.delete@) == next.1
        &&& self.through == through
        &&& self.purge_below == purge_floor(opts, through)
    }
}

impl Db {
    /// Begins a checkpoint after a sync: the deltas since the last one as a
    /// segment. `None` when there is nothing new to seal.
    pub fn checkpoint_with(&self, manifest: Manifest, opts: CheckpointOpts) -> (r: Option<
        Checkpoint,
    >)
        ensures
            match r {
                Some(c) => self.tail == Some(c.through) && self.pending.txid_start is Some && seals(
                    self.pending@,
                    c.segment@,
                ) && c.manifest == manifest && c.opts == opts,
                None => self.tail is None || self.pending.txid_start is None,
            },
    {
        match (self.tail, self.seal()) {
            (Some(through), Some(segment)) => Some(
                Checkpoint { through, opts, manifest, segment },
            ),
            _ => None,
        }
    }
}

impl Checkpoint {
    /// Goes on once the segment stands at `path`: to a coalescing run when the
    /// manifest has grown too long, else to the publication.
    pub fn uploaded(self, path: &str) -> (r: Next)
        ensures
            ({
                let new_ref = ref_to(self.segment@, path@);
                if too_long(self.manifest@, self.opts) {
                    match r {
                        Next::Coalesce(c) => c.checkpoint == self && c.new_ref@ == new_ref && views(
                            c.fetch@,
                        ) == paths(self.manifest@.segments),
                        Next::Publish(_) => false,
                    }
                } else {
                    match r {
                        Next::Coalesce(_) => false,
                        Next::Publish(p) => p.publishes(
                            next_manifest(self.manifest@, new_ref, None),
                            self.through,
                            self.opts,
                        ),
                    }
                }
            }),
    {
        let new_ref = SegmentRef::of(&self.segment, path);
        let count: usize = self.manifest.segments.len();
        if count >= self.opts.coalesce_at {
            let mut fetch: Vec<String> = Vec::new();
            let mut i: usize = 0;
            while i < count
                invariant
                    i <= count,
                    count == self.manifest.segments.len(),
                    fetch.len() == i,
                    forall|j: int|
                        0 <= j < i ==> (#[trigger] fetch@[j])@ == self.manifest.segments@[j].path@,
                decreases count - i,
            {
                fetch.push(self.manifest.segments[i].path.clone());
                i += 1;
            }
            assert(views(fetch@) =~= paths(self.manifest@.segments));
            Next::Coalesce(Coalescing { checkpoint: self, new_ref, fetch })
        } else {
            let Checkpoint { through, opts, manifest, .. } = self;
            let (manifest, delete) = advance(manifest, new_ref, None);
            Next::Publish(publication(manifest, delete, through, &opts))
        }
    }
}

impl Coalescing {
    /// The one segment that stands for all, given those fetched in order. It
    /// is to be uploaded next.
    pub fn merge(&self, older: &Vec<Ltx>) -> (l: Ltx)
        ensures
            is_coalesced(
                views(older@),
                self.checkpoint.segment@,
                first_txid(self.checkpoint.manifest@, self.checkpoint.segment@),
                l@,
            ),
    {
        let c = &self.checkpoint;
        let start: u64 = if c.manifest.segments.len() > 0 {
            assert(c.manifest@.segments[0] == c.manifest.segments@[0]@);
            c.manifest.segments[0].txid_start
        } else {
            c.segment.txid_start
        };
        coalesce(older, c.segment.dup(), start)
    }

    /// The publication once the merged segment stands at `path`: it alone is
    /// in the manifest, and the segments it replaces are retired.
    pub fn merged(self, merged: &Ltx, path: &str) -> (p: Publication)
        ensures
            p.publishes(
                next_manifest(
                    self.checkpoint.manifest@,
                    self.new_ref@,
                    Some(ref_to(merged@, path@)),
                ),
                self.checkpoint.through,
                self.checkpoint.opts,
            ),
    {
        let one = SegmentRef::of(merged, path);
        let Coalescing { checkpoint, new_ref, .. } = self;
        let Checkpoint { through, opts, manifest, .. } = checkpoint;
        let (manifest, delete) = advance(manifest, new_ref, Some(one));
        publication(manifest, delete, through, &opts)
    }
}

fn publication(manifest: Manifest, delete: Vec<String>, through: Version, opts: &CheckpointOpts) -> (p:
    Publication)
    ensures
        p.publishes((manifest@, views(delete@)), through, *opts),
{
    let purge_below: Option<Version> = if !opts.purge {
        None
    } else if through < u64::MAX {
        Some(through + 1)
    } else {
        Some(through)
    };
    Publication { delete, manifest, through, purge_below }
}

/// A manifest stays bounded: no checkpoint leaves more segments than the
/// limit allows, or than the one that a coalescing run leaves.
pub proof fn manifest_stays_bounded(
    m: ManifestView,
    new_ref: SegmentView,
    one: SegmentView,
    coalesce_at: nat,
)
    ensures
        ({
            let next = next_manifest(
                m,
                new_ref,
                if m.segments.len() + 1 > coalesce_at {
                    Some(one)
                } else {
                    None
                },
            );
            next.0.segments.len() <= coalesce_at || next.0.segments.len() == 1
        }),
{
}

/// The segments cover the transactions 1 to `txid`, in order, without a gap
/// and without overlap.
pub open spec fn contiguous(m: ManifestView, txid: u64) -> bool {
    &&& m.segments.len() == 0 ==> txid == 0
    &&& m.segments.len() > 0 ==> m.segments[0].txid_start == 1 && m.segments.last().txid_end == txid
    &&& forall|i: int|
        0 <= i < m.segments.len() ==> (#[trigger] m.segments[i]).txid_start
            <= m.segments[i].txid_end
    &&& forall|i: int|
        0 < i < m.segments.len() ==> (#[trigger] m.segments[i]).txid_start == m.segments[i
            - 1].txid_end + 1
}

/// The fold goes on where the manifest ends, and reaches to `txid`.
pub open spec fn in_step(m: ManifestView, b: BuilderView, txid: u64) -> bool {
    &&& b.base is Some
    &&& contiguous(m, b.base->0)
    &&& match b.txid_start {
        Some(start) => start == b.base->0 + 1 && start <= b.txid_end && b.txid_end == txid,
        None => b.base->0 == txid,
    }
}

/// Transaction numbers that grow from `txid` on.
pub open spec fn follow(ds: Seq<DeltaView>, txid: u64) -> bool {
    &&& forall|i: int| 0 <= i < ds.len() ==> (#[trigger] ds[i]).txid > txid
    &&& forall|i: int, j: int| 0 <= i < j < ds.len() ==> (#[trigger] ds[i]).txid < (
    #[trigger] ds[j]).txid
}

/// A new database is in step with its empty manifest, and one whose log a
/// checkpoint has sealed with the manifest that was published.
pub proof fn steps_begin(m: ManifestView, txid: u64)
    requires
        contiguous(m, txid),
    ensures
        in_step(m, nothing_built(txid), txid),
        in_step(
            (ManifestView { segments: Seq::empty(), retire: Seq::empty() }),
            nothing_built(0),
            0,
        ),
{
}

/// Deltas taken over, by a sync or from the stream, keep the fold in step.
pub proof fn deltas_keep_step(m: ManifestView, b: BuilderView, i: ImageView, ds: Seq<DeltaView>)
    requires
        in_step(m, b, i.txid),
        follow(ds, i.txid),
    ensures
        in_step(m, built_all(b, ds), applied_all(i, ds).txid),
    decreases ds.len(),
{
    if ds.len() > 0 {
        deltas_keep_step(m, b, i, ds.drop_last());
        let rest = ds.drop_last();
        if rest.len() > 0 {
            assert(applied_all(i, rest).txid == rest.last().txid);
            assert(rest.last() == ds[ds.len() - 2]);
            assert(ds[ds.len() - 2].txid < ds[ds.len() - 1].txid);
        }
    }
}

/// A sync of captured transactions, coalesced or not, keeps the database in
/// step with its manifest.
pub proof fn sync_keeps_step(
    m: ManifestView,
    b: BuilderView,
    i: ImageView,
    wal: Seq<u8>,
    h: Header,
    n: int,
    staged: Staged,
    cursor: WalCursor,
    frames: int,
    coalesce: bool,
)
    requires
        in_step(m, b, i.txid),
        txids_fit(wal, i.txid),
        valid_run(wal, h, n),
        stages(staged, split(wal, h, i.txid, n as nat).txs, cursor, frames, coalesce),
    ensures
        in_step(
            m,
            built_all(b, views(staged.deltas@)),
            applied_all(i, views(staged.deltas@)).txid,
        ),
        applied_all(i, views(staged.deltas@)).txid == i.txid + staged.count,
{
    let txs = split(wal, h, i.txid, n as nat).txs;
    crate::sqlite::store::frames_bound(wal, h, n);
    capture_is_exact(wal, h, i.txid, n as nat);
    let ds = views(staged.deltas@);
    if coalesce && txs.len() > 1 {
        assert(ds[0].txid == txs.last().txid);
        assert(ds =~= seq![ds[0]]);
        assert(ds.drop_last() =~= Seq::<DeltaView>::empty());
    }
    assert(follow(ds, i.txid));
    deltas_keep_step(m, b, i, ds);
}

/// A checkpoint leaves a manifest that covers the transactions from 1 to the
/// database's last, in order, without a gap.
pub proof fn manifest_stays_contiguous(
    m: ManifestView,
    b: BuilderView,
    txid: u64,
    l: LtxView,
    path: Seq<char>,
    older: Seq<LtxView>,
    one: LtxView,
    one_path: Seq<char>,
)
    requires
        in_step(m, b, txid),
        seals(b, l),
        is_coalesced(older, l, first_txid(m, l), one),
    ensures
        contiguous(next_manifest(m, ref_to(l, path), None).0, txid),
        contiguous(
            next_manifest(m, ref_to(l, path), Some(ref_to(one, one_path))).0,
            txid,
        ),
{
    let all = next_manifest(m, ref_to(l, path), None).0;
    assert forall|i: int| 0 <= i < all.segments.len() implies (
    #[trigger] all.segments[i]).txid_start <= all.segments[i].txid_end by {
        if i < m.segments.len() {
            assert(all.segments[i] == m.segments[i]);
        }
    }
    assert forall|i: int| 0 < i < all.segments.len() implies (
    #[trigger] all.segments[i]).txid_start == all.segments[i - 1].txid_end + 1 by {
        if i < m.segments.len() {
            assert(all.segments[i] == m.segments[i]);
        }
    }
    if m.segments.len() > 0 {
        ends_grow(m, m.segments.len() as int);
    }
}

proof fn ends_grow(m: ManifestView, n: int)
    requires
        forall|i: int|
            0 <= i < m.segments.len() ==> (#[trigger] m.segments[i]).txid_start
                <= m.segments[i].txid_end,
        forall|i: int|
            0 < i < m.segments.len() ==> (#[trigger] m.segments[i]).txid_start == m.segments[i
                - 1].txid_end + 1,
        0 < n <= m.segments.len(),
    ensures
        m.segments[0].txid_start <= m.segments[n - 1].txid_end,
    decreases n,
{
    if n > 1 {
        ends_grow(m, n - 1);
        assert(m.segments[n - 1].txid_start == m.segments[n - 2].txid_end + 1);
    }
}

/// Nothing that a manifest names is deleted, nor what the manifest before it
/// named: what a checkpoint deletes was retired by the one before, and what
/// it replaces is only retired.
pub proof fn deletion_waits_a_generation(
    m: ManifestView,
    new_ref: SegmentView,
    coalesced: Option<SegmentView>,
)
    requires
        forall|i: int, j: int|
            0 <= i < m.segments.len() && 0 <= j < m.retire.len() ==> (#[trigger] m.segments[i]).path
                != #[trigger] m.retire[j],
        forall|j: int| 0 <= j < m.retire.len() ==> #[trigger] m.retire[j] != new_ref.path,
        coalesced is Some ==> forall|j: int|
            0 <= j < m.retire.len() ==> #[trigger] m.retire[j] != coalesced->0.path,
    ensures
        ({
            let (next, deleted) = next_manifest(m, new_ref, coalesced);
            &&& forall|i: int, j: int|
                0 <= i < m.segments.len() && 0 <= j < deleted.len() ==> (
                #[trigger] m.segments[i]).path != #[trigger] deleted[j]
            &&& forall|i: int, j: int|
                0 <= i < next.segments.len() && 0 <= j < deleted.len() ==> (
                #[trigger] next.segments[i]).path != #[trigger] deleted[j]
            &&& forall|i: int|
                0 <= i < m.segments.len() && coalesced is Some ==> next.retire.contains(
                    (#[trigger] m.segments[i]).path,
                )
        }),
{
    let (next, deleted) = next_manifest(m, new_ref, coalesced);
    if coalesced is Some {
        let all = m.segments.push(new_ref);
        assert forall|i: int| 0 <= i < m.segments.len() implies next.retire.contains(
            (#[trigger] m.segments[i]).path,
        ) by {
            assert(next.retire[i] == all[i].path);
        }
    } else {
        assert forall|i: int, j: int|
            0 <= i < next.segments.len() && 0 <= j < deleted.len() implies (
        #[trigger] next.segments[i]).path != #[trigger] deleted[j] by {
            if i < m.segments.len() {
                assert(next.segments[i] == m.segments[i]);
            }
        }
    }
}

} // verus!

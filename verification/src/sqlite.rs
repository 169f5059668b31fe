//! A SQLite database whose state lives in, and is reconstructed from, an event
//! stream. Committed transactions are captured from the WAL as page
//! post-images, sealed into [`Ltx`] objects, and any point in time is
//! reconstructed from the latest manifest, its segments, and the delta backlog
//! since.
use vstd::prelude::*;
use vstd::string::*;

pub mod checkpoint;
pub mod codec;
pub mod store;
pub mod wal;

use crate::table::{dup_all, views, Dup};

verus! {

/// One page post-image.
#[derive(Debug)]
pub struct Frame {
    /// 1-based page number.
    pub pgno: u32,
    pub data: Vec<u8>,
}

pub struct FrameView {
    pub pgno: u32,
    pub data: Seq<u8>,
}

impl View for Frame {
    type V = FrameView;

    open spec fn view(&self) -> FrameView {
        FrameView { pgno: self.pgno, data: self.data@ }
    }
}

impl Dup for Frame {
    fn dup(&self) -> (r: Self) {
        Frame { pgno: self.pgno, data: self.data.dup() }
    }
}

/// One committed SQLite transaction: the post-image of every page it wrote,
/// plus the db size in pages at commit.
#[derive(Debug)]
pub struct Delta {
    /// 1-based transaction sequence.
    pub txid: u64,
    pub page_size: u32,
    /// Db file size in pages after this transaction.
    pub db_size: u32,
    /// Pages written, in WAL frame order (a page may repeat within a
    /// transaction; apply in order, newest wins).
    pub pages: Vec<Frame>,
}

pub struct DeltaView {
    pub txid: u64,
    pub page_size: u32,
    pub db_size: u32,
    pub pages: Seq<FrameView>,
}

impl View for Delta {
    type V = DeltaView;

    open spec fn view(&self) -> DeltaView {
        DeltaView {
            txid: self.txid,
            page_size: self.page_size,
            db_size: self.db_size,
            pages: views(self.pages@),
        }
    }
}

impl Dup for Delta {
    fn dup(&self) -> (r: Self) {
        Delta {
            txid: self.txid,
            page_size: self.page_size,
            db_size: self.db_size,
            pages: dup_all(&self.pages),
        }
    }
}

/// A sealed set of [`Delta`]s, uploaded as one object: newest-wins page
/// post-images. Replaying a manifest's segments in order reproduces the image
/// without replaying individual transactions.
#[derive(Debug)]
pub struct Ltx {
    pub txid_start: u64,
    pub txid_end: u64,
    pub page_size: u32,
    pub db_size: u32,
    pub pages: Vec<Frame>,
}

pub struct LtxView {
    pub txid_start: u64,
    pub txid_end: u64,
    pub page_size: u32,
    pub db_size: u32,
    pub pages: Seq<FrameView>,
}

impl View for Ltx {
    type V = LtxView;

    open spec fn view(&self) -> LtxView {
        LtxView {
            txid_start: self.txid_start,
            txid_end: self.txid_end,
            page_size: self.page_size,
            db_size: self.db_size,
            pages: views(self.pages@),
        }
    }
}

impl Dup for Ltx {
    fn dup(&self) -> (r: Self) {
        Ltx {
            txid_start: self.txid_start,
            txid_end: self.txid_end,
            page_size: self.page_size,
            db_size: self.db_size,
            pages: dup_all(&self.pages),
        }
    }
}

/// A manifest pointer to one [`Ltx`] object, carrying its transaction range so
/// readers can select (or skip) segments without fetching them.
#[derive(Debug)]
pub struct SegmentRef {
    pub path: String,
    pub txid_start: u64,
    pub txid_end: u64,
    pub page_size: u32,
    pub db_size: u32,
}

pub struct SegmentView {
    pub path: Seq<char>,
    pub txid_start: u64,
    pub txid_end: u64,
    pub page_size: u32,
    pub db_size: u32,
}

impl View for SegmentRef {
    type V = SegmentView;

    open spec fn view(&self) -> SegmentView {
        SegmentView {
            path: self.path@,
            txid_start: self.txid_start,
            txid_end: self.txid_end,
            page_size: self.page_size,
            db_size: self.db_size,
        }
    }
}

impl Dup for SegmentRef {
    fn dup(&self) -> (r: Self) {
        SegmentRef {
            path: self.path.clone(),
            txid_start: self.txid_start,
            txid_end: self.txid_end,
            page_size: self.page_size,
            db_size: self.db_size,
        }
    }
}

/// The pointer to a segment stored at `path`.
pub open spec fn ref_to(l: LtxView, path: Seq<char>) -> SegmentView {
    SegmentView {
        path,
        txid_start: l.txid_start,
        txid_end: l.txid_end,
        page_size: l.page_size,
        db_size: l.db_size,
    }
}

impl SegmentRef {
    pub fn of(l: &Ltx, path: &str) -> (r: Self)
        ensures
            r@ == ref_to(l@, path@),
    {
        SegmentRef {
            path: path.to_owned(),
            txid_start: l.txid_start,
            txid_end: l.txid_end,
            page_size: l.page_size,
            db_size: l.db_size,
        }
    }
}

/// The ordered set of segments that compose the current state, plus a
/// one-generation-retired list of segment paths, to be deleted once a newer
/// manifest is durable, so in-flight restores never lose a segment they are
/// still fetching.
#[derive(Debug)]
pub struct Manifest {
    /// Ordered by transaction range: non-overlapping, contiguous from 1.
    pub segments: Vec<SegmentRef>,
    /// Segment paths replaced by a coalescing checkpoint.
    pub retire: Vec<String>,
}

pub struct ManifestView {
    pub segments: Seq<SegmentView>,
    pub retire: Seq<Seq<char>>,
}

impl View for Manifest {
    type V = ManifestView;

    open spec fn view(&self) -> ManifestView {
        ManifestView { segments: views(self.segments@), retire: views(self.retire@) }
    }
}

impl Manifest {
    pub fn empty() -> (r: Self)
        ensures
            r@ == (ManifestView { segments: Seq::empty(), retire: Seq::empty() }),
    {
        let r = Manifest { segments: Vec::new(), retire: Vec::new() };
        assert(r@.segments =~= Seq::empty());
        assert(r@.retire =~= Seq::empty());
        r
    }
}

/// Knobs for a checkpoint.
#[derive(Debug, Clone, Copy)]
pub struct CheckpointOpts {
    /// Coalesce the manifest into a single segment when it holds more than
    /// this many. Keeps restore cost proportional to the database, independent
    /// of how many checkpoints ever ran.
    pub coalesce_at: usize,
    /// Physically delete stream events covered by the published manifest.
    /// Restores into purged history fail, so retention must be opted into.
    pub purge: bool,
}

impl Default for CheckpointOpts {
    fn default() -> (r: Self)
        ensures
            r.coalesce_at == 8,
            !r.purge,
    {
        CheckpointOpts { coalesce_at: 8, purge: false }
    }
}

/// Newest-wins page contents.
pub type PageMap = Map<u32, Seq<u8>>;

/// `m` with frames written over it in order.
pub open spec fn overlay(m: PageMap, frames: Seq<FrameView>) -> PageMap
    decreases frames.len(),
{
    if frames.len() == 0 {
        m
    } else {
        overlay(m, frames.drop_last()).insert(frames.last().pgno, frames.last().data)
    }
}

/// `frames` lists the pages of `m`, each once, by number.
pub open spec fn is_page_list(m: PageMap, frames: Seq<FrameView>) -> bool {
    &&& forall|i: int, j: int| 0 <= i < j < frames.len() ==> frames[i].pgno < frames[j].pgno
    &&& forall|i: int|
        0 <= i < frames.len() ==> m.contains_key((#[trigger] frames[i]).pgno)
            && m[frames[i].pgno] == frames[i].data
    &&& forall|p: u32| #[trigger]
        m.contains_key(p) ==> exists|i: int| 0 <= i < frames.len() && #[trigger] frames[i].pgno == p
}

/// Writing one run of frames after another is writing their concatenation.
pub proof fn overlay_concat(m: PageMap, a: Seq<FrameView>, b: Seq<FrameView>)
    ensures
        overlay(m, a + b) == overlay(overlay(m, a), b),
    decreases b.len(),
{
    if b.len() == 0 {
        assert(a + b =~= a);
    } else {
        overlay_concat(m, a, b.drop_last());
        assert((a + b).drop_last() =~= a + b.drop_last());
        assert((a + b).last() == b.last());
    }
}

/// Writing frames over `m` is putting what they come to on their own over `m`.
pub proof fn overlay_union(m: PageMap, a: Seq<FrameView>)
    ensures
        overlay(m, a) == m.union_prefer_right(overlay(Map::empty(), a)),
    decreases a.len(),
{
    if a.len() == 0 {
        assert(m.union_prefer_right(Map::<u32, Seq<u8>>::empty()) =~= m);
    } else {
        overlay_union(m, a.drop_last());
        let rest = overlay(Map::<u32, Seq<u8>>::empty(), a.drop_last());
        assert(m.union_prefer_right(rest.insert(a.last().pgno, a.last().data))
            =~= m.union_prefer_right(rest).insert(a.last().pgno, a.last().data));
    }
}

/// A page list written out gives the pages it lists.
pub proof fn page_list_overlay(m: PageMap, frames: Seq<FrameView>)
    requires
        is_page_list(m, frames),
    ensures
        overlay(Map::empty(), frames) == m,
{
    overlay_distinct(frames);
    let o = overlay(Map::<u32, Seq<u8>>::empty(), frames);
    assert forall|p: u32| o.contains_key(p) == m.contains_key(p) by {}
    assert forall|p: u32| o.contains_key(p) implies o[p] == m[p] by {
        let i = choose|i: int| 0 <= i < frames.len() && #[trigger] frames[i].pgno == p;
        assert(o[frames[i].pgno] == frames[i].data);
    }
    assert(o =~= m);
}

proof fn overlay_distinct(frames: Seq<FrameView>)
    requires
        forall|i: int, j: int| 0 <= i < j < frames.len() ==> frames[i].pgno < frames[j].pgno,
    ensures
        forall|p: u32| #[trigger]
            overlay(Map::empty(), frames).contains_key(p) <==> (exists|i: int|
                0 <= i < frames.len() && #[trigger] frames[i].pgno == p),
        forall|i: int|
            0 <= i < frames.len() ==> overlay(Map::empty(), frames)[(#[trigger] frames[i]).pgno]
                == frames[i].data,
    decreases frames.len(),
{
    let o = overlay(Map::<u32, Seq<u8>>::empty(), frames);
    if frames.len() > 0 {
        let rest = frames.drop_last();
        overlay_distinct(rest);
        let r = overlay(Map::<u32, Seq<u8>>::empty(), rest);
        assert forall|p: u32| #[trigger]
            o.contains_key(p) <==> (exists|i: int|
                0 <= i < frames.len() && #[trigger] frames[i].pgno == p) by {
            if r.contains_key(p) {
                let i = choose|i: int| 0 <= i < rest.len() && #[trigger] rest[i].pgno == p;
                assert(frames[i].pgno == p);
            }
            if p == frames.last().pgno {
                assert(frames[frames.len() - 1].pgno == p);
            }
            if exists|i: int| 0 <= i < frames.len() && #[trigger] frames[i].pgno == p {
                let i = choose|i: int| 0 <= i < frames.len() && #[trigger] frames[i].pgno == p;
                if i < rest.len() {
                    assert(rest[i].pgno == p);
                }
            }
        }
        assert forall|i: int| 0 <= i < frames.len() implies o[(#[trigger] frames[i]).pgno]
            == frames[i].data by {
            if i < rest.len() {
                assert(r[rest[i].pgno] == rest[i].data);
                assert(frames[i].pgno < frames[frames.len() - 1].pgno);
            }
        }
    }
}

/// Pages by number, newest image each.
#[derive(Debug)]
pub struct Pages {
    frames: Vec<Frame>,
}

impl View for Pages {
    type V = PageMap;

    closed spec fn view(&self) -> PageMap {
        overlay(Map::empty(), views(self.frames@))
    }
}

spec fn increasing(frames: Seq<Frame>) -> bool {
    forall|i: int, j: int|
        0 <= i < j < frames.len() ==> (#[trigger] frames[i]).pgno < (#[trigger] frames[j]).pgno
}

proof fn lemma_listed(frames: Seq<Frame>)
    requires
        increasing(frames),
    ensures
        is_page_list(overlay(Map::empty(), views(frames)), views(frames)),
{
    let v = views(frames);
    assert forall|i: int, j: int| 0 <= i < j < v.len() implies v[i].pgno < v[j].pgno by {
        assert(frames[i].pgno < frames[j].pgno);
    }
    overlay_distinct(v);
}

proof fn lemma_page_inserted(frames: Seq<Frame>, i: int, f: Frame)
    requires
        increasing(frames),
        0 <= i <= frames.len(),
        forall|j: int| 0 <= j < i ==> (#[trigger] frames[j]).pgno < f.pgno,
        forall|j: int| i <= j < frames.len() ==> f.pgno < (#[trigger] frames[j]).pgno,
    ensures
        increasing(frames.insert(i, f)),
        overlay(Map::empty(), views(frames.insert(i, f))) == overlay(
            Map::empty(),
            views(frames),
        ).insert(f.pgno, f.data@),
{
    let next = frames.insert(i, f);
    assert forall|a: int, b: int| 0 <= a < b < next.len() implies (#[trigger] next[a]).pgno < (
    #[trigger] next[b]).pgno by {
        let a0 = if a < i { a } else { a - 1 };
        let b0 = if b < i { b } else { b - 1 };
        if a != i {
            assert(next[a] == frames[a0]);
        }
        if b != i {
            assert(next[b] == frames[b0]);
        }
    }
    lemma_listed(frames);
    lemma_listed(next);
    let o = overlay(Map::<u32, Seq<u8>>::empty(), views(frames));
    let n = overlay(Map::<u32, Seq<u8>>::empty(), views(next));
    let want = o.insert(f.pgno, f.data@);
    assert forall|p: u32| n.contains_key(p) == want.contains_key(p) by {
        if o.contains_key(p) {
            let j = choose|j: int| 0 <= j < views(frames).len() && #[trigger] views(frames)[j].pgno
                == p;
            let j1 = if j < i { j } else { j + 1 };
            assert(next[j1] == frames[j]);
            assert(n.contains_key(views(next)[j1].pgno));
        }
        if p == f.pgno {
            assert(n.contains_key(views(next)[i].pgno));
        }
        if n.contains_key(p) {
            let j = choose|j: int| 0 <= j < views(next).len() && #[trigger] views(next)[j].pgno
                == p;
            if j != i {
                let j0 = if j < i { j } else { j - 1 };
                assert(next[j] == frames[j0]);
                assert(o.contains_key(views(frames)[j0].pgno));
            }
        }
    }
    assert forall|p: u32| n.contains_key(p) implies n[p] == want[p] by {
        let j = choose|j: int| 0 <= j < views(next).len() && #[trigger] views(next)[j].pgno == p;
        assert(n[views(next)[j].pgno] == views(next)[j].data);
        if j != i {
            let j0 = if j < i { j } else { j - 1 };
            assert(next[j] == frames[j0]);
            assert(o[views(frames)[j0].pgno] == views(frames)[j0].data);
        }
    }
    assert(n =~= want);
}

proof fn lemma_page_replaced(frames: Seq<Frame>, i: int, f: Frame)
    requires
        increasing(frames),
        0 <= i < frames.len(),
        frames[i].pgno == f.pgno,
    ensures
        increasing(frames.update(i, f)),
        overlay(Map::empty(), views(frames.update(i, f))) == overlay(
            Map::empty(),
            views(frames),
        ).insert(f.pgno, f.data@),
{
    let next = frames.update(i, f);
    assert forall|a: int, b: int| 0 <= a < b < next.len() implies (#[trigger] next[a]).pgno < (
    #[trigger] next[b]).pgno by {
        assert(next[a].pgno == frames[a].pgno);
        assert(next[b].pgno == frames[b].pgno);
    }
    lemma_listed(frames);
    lemma_listed(next);
    let o = overlay(Map::<u32, Seq<u8>>::empty(), views(frames));
    let n = overlay(Map::<u32, Seq<u8>>::empty(), views(next));
    let want = o.insert(f.pgno, f.data@);
    assert forall|p: u32| n.contains_key(p) == want.contains_key(p) by {
        if o.contains_key(p) {
            let j = choose|j: int| 0 <= j < views(frames).len() && #[trigger] views(frames)[j].pgno
                == p;
            assert(views(next)[j].pgno == p);
            assert(n.contains_key(views(next)[j].pgno));
        }
        if p == f.pgno {
            assert(n.contains_key(views(next)[i].pgno));
        }
        if n.contains_key(p) {
            let j = choose|j: int| 0 <= j < views(next).len() && #[trigger] views(next)[j].pgno
                == p;
            assert(o.contains_key(views(frames)[j].pgno));
        }
    }
    assert forall|p: u32| n.contains_key(p) implies n[p] == want[p] by {
        let j = choose|j: int| 0 <= j < views(next).len() && #[trigger] views(next)[j].pgno == p;
        assert(n[views(next)[j].pgno] == views(next)[j].data);
        if j != i {
            assert(next[j] == frames[j]);
            assert(o[views(frames)[j].pgno] == views(frames)[j].data);
            if j < i {
                assert(frames[j].pgno < frames[i].pgno);
            } else {
                assert(frames[i].pgno < frames[j].pgno);
            }
        }
    }
    assert(n =~= want);
}

impl Pages {
    #[verifier::type_invariant]
    spec fn ordered(&self) -> bool {
        increasing(self.frames@)
    }

    /// The pages by number.
    pub closed spec fn list(&self) -> Seq<FrameView> {
        views(self.frames@)
    }

    pub fn new() -> (r: Self)
        ensures
            r@ == Map::<u32, Seq<u8>>::empty(),
    {
        let r = Pages { frames: Vec::new() };
        assert(views(r.frames@) =~= Seq::<FrameView>::empty());
        r
    }

    pub fn len(&self) -> (n: usize)
        ensures
            n == self.list().len(),
            is_page_list(self@, self.list()),
    {
        proof {
            use_type_invariant(self);
            lemma_listed(self.frames@);
        }
        self.frames.len()
    }

    pub fn at(&self, i: usize) -> (f: &Frame)
        requires
            i < self.list().len(),
        ensures
            f@ == self.list()[i as int],
    {
        &self.frames[i]
    }

    pub fn insert(&mut self, pgno: u32, data: Vec<u8>)
        ensures
            final(self)@ == old(self)@.insert(pgno, data@),
    {
        proof {
            use_type_invariant(&*self);
        }
        let mut t = Pages { frames: Vec::new() };
        core::mem::swap(self, &mut t);
        let mut frames: Vec<Frame> = t.frames;
        let ghost before = frames@;
        let ghost f = Frame { pgno, data };
        let mut lo: usize = 0;
        let mut hi: usize = frames.len();
        while lo < hi
            invariant
                increasing(frames@),
                lo <= hi <= frames.len(),
                forall|j: int| 0 <= j < lo ==> (#[trigger] frames@[j]).pgno < pgno,
                forall|j: int| hi <= j < frames.len() ==> pgno <= (#[trigger] frames@[j]).pgno,
            decreases hi - lo,
        {
            let mid: usize = lo + (hi - lo) / 2;
            if frames[mid].pgno < pgno {
                assert forall|j: int| 0 <= j < mid + 1 implies (#[trigger] frames@[j]).pgno
                    < pgno by {
                    if j < mid {
                        assert(frames@[j].pgno < frames@[mid as int].pgno);
                    }
                }
                lo = mid + 1;
            } else {
                assert forall|j: int| mid <= j < frames.len() implies pgno <= (
                #[trigger] frames@[j]).pgno by {
                    if mid < j {
                        assert(frames@[mid as int].pgno < frames@[j].pgno);
                    }
                }
                hi = mid;
            }
        }
        if lo < frames.len() && frames[lo].pgno == pgno {
            proof {
                lemma_page_replaced(before, lo as int, f);
            }
            frames[lo] = Frame { pgno, data };
        } else {
            proof {
                assert forall|j: int| lo <= j < before.len() implies pgno < (
                #[trigger] before[j]).pgno by {
                    if j > lo {
                        assert(before[lo as int].pgno < before[j].pgno);
                    }
                }
                lemma_page_inserted(before, lo as int, f);
            }
            frames.insert(lo, Frame { pgno, data });
        }
        *self = Pages { frames };
    }

    /// Writes frames over the pages in order.
    pub fn write(&mut self, frames: &Vec<Frame>)
        ensures
            final(self)@ == overlay(old(self)@, views(frames@)),
    {
        let ghost all = views(frames@);
        let ghost start = self@;
        let mut i: usize = 0;
        assert(all.take(0) =~= Seq::<FrameView>::empty());
        while i < frames.len()
            invariant
                i <= frames.len(),
                all == views(frames@),
                self@ == overlay(start, all.take(i as int)),
            decreases frames.len() - i,
        {
            self.insert(frames[i].pgno, frames[i].data.dup());
            proof {
                assert(all.take(i + 1).drop_last() =~= all.take(i as int));
                assert(all.take(i + 1).last() == frames@[i as int]@);
            }
            i += 1;
        }
        assert(all.take(i as int) =~= all);
    }

    /// The pages as frames, by number.
    pub fn into_frames(self) -> (r: Vec<Frame>)
        ensures
            is_page_list(self@, views(r@)),
    {
        proof {
            use_type_invariant(&self);
            lemma_listed(self.frames@);
        }
        self.frames
    }
}

impl Dup for Pages {
    fn dup(&self) -> (r: Self) {
        proof {
            use_type_invariant(self);
        }
        let frames = dup_all(&self.frames);
        proof {
            assert(views(frames@).len() == views(self.frames@).len());
            assert(frames@.len() == self.frames@.len());
            assert forall|i: int, j: int| 0 <= i < j < frames@.len() implies (
            #[trigger] frames@[i]).pgno < (#[trigger] frames@[j]).pgno by {
                assert(views(frames@)[i] == views(self.frames@)[i]);
                assert(views(frames@)[j] == views(self.frames@)[j]);
                assert(self.frames@[i].pgno < self.frames@[j].pgno);
            }
        }
        Pages { frames }
    }
}

/// In-memory image of the database: the page map.
#[derive(Debug)]
pub struct DbImage {
    pub page_size: u32,
    /// Db file size in pages.
    pub db_size: u32,
    /// Last applied transaction id.
    pub txid: u64,
    pub pages: Pages,
}

pub struct ImageView {
    pub page_size: u32,
    pub db_size: u32,
    pub txid: u64,
    pub pages: PageMap,
}

impl View for DbImage {
    type V = ImageView;

    open spec fn view(&self) -> ImageView {
        ImageView {
            page_size: self.page_size,
            db_size: self.db_size,
            txid: self.txid,
            pages: self.pages@,
        }
    }
}

impl Dup for DbImage {
    fn dup(&self) -> (r: Self) {
        DbImage {
            page_size: self.page_size,
            db_size: self.db_size,
            txid: self.txid,
            pages: self.pages.dup(),
        }
    }
}

/// The image before any transaction.
pub open spec fn blank() -> ImageView {
    ImageView { page_size: 0, db_size: 0, txid: 0, pages: Map::empty() }
}

/// The image after one transaction.
pub open spec fn applied(i: ImageView, d: DeltaView) -> ImageView {
    ImageView {
        page_size: d.page_size,
        db_size: d.db_size,
        txid: d.txid,
        pages: overlay(i.pages, d.pages),
    }
}

/// The image after a run of transactions.
pub open spec fn applied_all(i: ImageView, ds: Seq<DeltaView>) -> ImageView
    decreases ds.len(),
{
    if ds.len() == 0 {
        i
    } else {
        applied(applied_all(i, ds.drop_last()), ds.last())
    }
}

/// The image after one segment.
pub open spec fn merged(i: ImageView, l: LtxView) -> ImageView {
    ImageView {
        page_size: l.page_size,
        db_size: l.db_size,
        txid: l.txid_end,
        pages: overlay(i.pages, l.pages),
    }
}

/// No page of the file is longer than a page, and the file fits in memory.
pub open spec fn fits(i: ImageView) -> bool {
    &&& i.db_size * i.page_size <= isize::MAX
    &&& forall|p: u32| #[trigger]
        i.pages.contains_key(p) && 1 <= p <= i.db_size ==> i.pages[p].len() <= i.page_size
}

/// The byte at `k` of the database file: page `k / page_size + 1`, zero where
/// nothing was written.
pub open spec fn file_byte(i: ImageView, k: int) -> u8 {
    let p = (k / i.page_size as int + 1) as u32;
    let o = k % i.page_size as int;
    if i.pages.contains_key(p) && o < i.pages[p].len() {
        i.pages[p][o]
    } else {
        0
    }
}

/// The database file: page `i` at offset `(i-1) * page_size`, truncated to
/// `db_size` pages.
pub open spec fn file_bytes(i: ImageView) -> Seq<u8> {
    if i.page_size == 0 {
        Seq::empty()
    } else {
        Seq::new((i.db_size * i.page_size) as nat, |k: int| file_byte(i, k))
    }
}

impl DbImage {
    pub fn new() -> (r: Self)
        ensures
            r@ == blank(),
    {
        DbImage { page_size: 0, db_size: 0, txid: 0, pages: Pages::new() }
    }

    pub fn apply(&mut self, d: &Delta)
        ensures
            final(self)@ == applied(old(self)@, d@),
    {
        self.page_size = d.page_size;
        self.db_size = d.db_size;
        self.txid = d.txid;
        self.pages.write(&d.pages);
    }

    pub fn merge_ltx(&mut self, l: &Ltx)
        ensures
            final(self)@ == merged(old(self)@, l@),
    {
        self.page_size = l.page_size;
        self.db_size = l.db_size;
        self.txid = l.txid_end;
        self.pages.write(&l.pages);
    }

    /// Whether the image makes a file: see [`fits`].
    pub fn is_file(&self) -> (r: bool)
        ensures
            r == fits(self@),
    {
        proof {
            let a = self.db_size as int;
            let b = self.page_size as int;
            assert(a * b <= 0xffff_ffff * 0xffff_ffff) by (nonlinear_arith)
                requires
                    0 <= a <= 0xffff_ffff,
                    0 <= b <= 0xffff_ffff,
            ;
        }
        let total: u64 = self.db_size as u64 * self.page_size as u64;
        if total > isize::MAX as u64 {
            return false;
        }
        let n = self.pages.len();
        let ghost l = self.pages.list();
        let ghost i0 = self@;
        let mut i: usize = 0;
        while i < n
            invariant
                i <= n,
                n == l.len(),
                l == self.pages.list(),
                i0 == self@,
                is_page_list(i0.pages, l),
                i0.db_size * i0.page_size <= isize::MAX,
                forall|j: int|
                    0 <= j < i && 1 <= (#[trigger] l[j]).pgno <= i0.db_size ==> l[j].data.len()
                        <= i0.page_size,
            decreases n - i,
        {
            let f = self.pages.at(i);
            if f.pgno != 0 && f.pgno <= self.db_size && f.data.len() > self.page_size as usize {
                assert(i0.pages.contains_key(l[i as int].pgno));
                return false;
            }
            i += 1;
        }
        true
    }

    /// Serializes the image to a SQLite database file. Pages beyond `db_size`
    /// (leftovers of a shrink) are dropped.
    pub fn to_bytes(&self) -> (r: Vec<u8>)
        requires
            fits(self@),
        ensures
            r@ == file_bytes(self@),
    {
        if self.page_size == 0 {
            let r: Vec<u8> = Vec::new();
            assert(r@ =~= Seq::<u8>::empty());
            return r;
        }
        let ps: usize = self.page_size as usize;
        let ghost i0 = self@;
        let total: usize = self.db_size as usize * ps;
        let mut out: Vec<u8> = vec![0u8;total];
        let n = self.pages.len();
        let ghost l = self.pages.list();
        let mut i: usize = 0;
        proof {
            assert forall|k: int| 0 <= k < total implies #[trigger] out@[k] == page_byte(
                i0,
                l,
                0,
                k,
            ) by {}
        }
        while i < n
            invariant
                i <= n,
                n == l.len(),
                l == self.pages.list(),
                i0 == self@,
                is_page_list(i0.pages, l),
                fits(i0),
                ps == i0.page_size,
                ps > 0,
                total == i0.db_size * ps,
                out.len() == total,
                forall|k: int| 0 <= k < total ==> #[trigger] out@[k] == page_byte(
                    i0,
                    l,
                    i as int,
                    k,
                ),
            decreases n - i,
        {
            let f = self.pages.at(i);
            assert(i0.pages.contains_key(l[i as int].pgno));
            if f.pgno != 0 && f.pgno <= self.db_size {
                proof {
                    assert((f.pgno - 1) * ps + ps <= i0.db_size * ps) by (nonlinear_arith)
                        requires
                            1 <= f.pgno <= i0.db_size,
                    ;
                }
                let start: usize = (f.pgno - 1) as usize * ps;
                copy_into(&mut out, start, &f.data);
                proof {
                    assert forall|k: int| 0 <= k < total implies #[trigger] out@[k] == page_byte(
                        i0,
                        l,
                        i + 1,
                        k,
                    ) by {
                        page_of_offset(k, f.pgno as int, ps as int);
                        page_step(i0, l, i as int, k);
                    }
                }
            } else {
                proof {
                    assert forall|k: int| 0 <= k < total implies #[trigger] out@[k] == page_byte(
                        i0,
                        l,
                        i + 1,
                        k,
                    ) by {
                        page_step(i0, l, i as int, k);
                        page_in_file(k, i0.db_size as int, ps as int);
                    }
                }
            }
            i += 1;
        }
        proof {
            assert forall|k: int| 0 <= k < total implies out@[k] == file_byte(i0, k) by {
                page_done(i0, l, k);
            }
            assert(out@ =~= file_bytes(i0));
        }
        out
    }
}

/// The page that holds byte `k`.
pub open spec fn page_at(i: ImageView, k: int) -> int {
    k / i.page_size as int + 1
}

/// Whether one of the first `n` listed pages is number `p`.
pub open spec fn page_listed(l: Seq<FrameView>, n: int, p: int) -> bool {
    exists|j: int| 0 <= j < n && (#[trigger] l[j]).pgno == p
}

/// The byte at `k` once the first `n` listed pages are written.
spec fn page_byte(i: ImageView, l: Seq<FrameView>, n: int, k: int) -> u8 {
    if page_listed(l, n, page_at(i, k)) {
        file_byte(i, k)
    } else {
        0
    }
}

proof fn page_of_offset(k: int, p: int, ps: int)
    requires
        ps > 0,
        k >= 0,
        p >= 1,
    ensures
        (k / ps + 1 == p) <==> ((p - 1) * ps <= k < (p - 1) * ps + ps),
        k / ps + 1 == p ==> k - (p - 1) * ps == k % ps,
{
    let q = k / ps;
    vstd::arithmetic::div_mod::lemma_fundamental_div_mod(k, ps);
    assert(q * ps == ps * q) by (nonlinear_arith);
    assert(0 <= k % ps < ps);
    if (p - 1) * ps <= k < (p - 1) * ps + ps {
        if q < p - 1 {
            assert((q + 1) * ps <= (p - 1) * ps) by (nonlinear_arith)
                requires
                    q + 1 <= p - 1,
                    ps > 0,
            ;
            assert((q + 1) * ps == q * ps + ps) by (nonlinear_arith);
        }
        if q > p - 1 {
            assert(q * ps >= p * ps) by (nonlinear_arith)
                requires
                    q >= p,
                    ps > 0,
            ;
            assert(p * ps == (p - 1) * ps + ps) by (nonlinear_arith);
        }
    }
}

pub proof fn page_in_file(k: int, n: int, ps: int)
    requires
        ps > 0,
        0 <= k < n * ps,
    ensures
        0 <= k / ps < n,
{
    vstd::arithmetic::div_mod::lemma_fundamental_div_mod(k, ps);
    let q = k / ps;
    assert(q * ps == ps * q) by (nonlinear_arith);
    if q >= n {
        assert(q * ps >= n * ps) by (nonlinear_arith)
            requires
                q >= n,
                ps > 0,
        ;
    }
    vstd::arithmetic::div_mod::lemma_div_pos_is_pos(k, ps);
}

/// One more listed page changes the bytes of that page only.
proof fn page_step(i: ImageView, l: Seq<FrameView>, n: int, k: int)
    requires
        0 <= n < l.len(),
    ensures
        page_listed(l, n + 1, page_at(i, k)) == (page_listed(l, n, page_at(i, k)) || l[n].pgno
            == page_at(i, k)),
{
    let p = page_at(i, k);
    if page_listed(l, n, p) {
        let j = choose|j: int| 0 <= j < n && (#[trigger] l[j]).pgno == p;
        assert(0 <= j < n + 1 && l[j].pgno == p);
    }
    if l[n].pgno == p {
        assert(0 <= n < n + 1 && l[n].pgno == p);
    }
}

/// With every page listed, every byte is in place.
proof fn page_done(i: ImageView, l: Seq<FrameView>, k: int)
    requires
        is_page_list(i.pages, l),
        i.page_size > 0,
        0 <= k < i.db_size * i.page_size,
    ensures
        page_byte(i, l, l.len() as int, k) == file_byte(i, k),
{
    page_in_file(k, i.db_size as int, i.page_size as int);
    let p = page_at(i, k);
    if i.pages.contains_key(p as u32) {
        let j = choose|j: int| 0 <= j < l.len() && #[trigger] l[j].pgno == p as u32;
        assert(l[j].pgno == p);
    }
}

fn copy_into(out: &mut Vec<u8>, start: usize, data: &Vec<u8>)
    requires
        start + data.len() <= old(out).len(),
    ensures
        final(out).len() == old(out).len(),
        forall|k: int|
            0 <= k < old(out).len() ==> #[trigger] final(out)@[k] == (if start <= k < start
                + data.len() {
                data@[k - start]
            } else {
                old(out)@[k]
            }),
{
    let ghost before = out@;
    let mut j: usize = 0;
    while j < data.len()
        invariant
            j <= data.len(),
            start + data.len() <= before.len(),
            out.len() == before.len(),
            forall|k: int|
                0 <= k < before.len() ==> #[trigger] out@[k] == (if start <= k < start + j {
                    data@[k - start]
                } else {
                    before[k]
                }),
        decreases data.len() - j,
    {
        out[start + j] = data[j];
        j += 1;
    }
}

/// A checkpoint fold in progress: newest-wins page post-images over the deltas
/// since the last checkpoint. Fed by every durable sync and by backlog
/// recovery, so sealing never reads the stream back.
#[derive(Debug)]
pub struct LtxBuilder {
    /// The last transaction that earlier segments cover, where it is known.
    pub base: Option<u64>,
    pub txid_start: Option<u64>,
    pub txid_end: u64,
    pub page_size: u32,
    pub db_size: u32,
    pub pages: Pages,
}

pub struct BuilderView {
    pub base: Option<u64>,
    pub txid_start: Option<u64>,
    pub txid_end: u64,
    pub page_size: u32,
    pub db_size: u32,
    pub pages: PageMap,
}

impl View for LtxBuilder {
    type V = BuilderView;

    open spec fn view(&self) -> BuilderView {
        BuilderView {
            base: self.base,
            txid_start: self.txid_start,
            txid_end: self.txid_end,
            page_size: self.page_size,
            db_size: self.db_size,
            pages: self.pages@,
        }
    }
}

/// The fold of no deltas, after transaction `base`.
pub open spec fn nothing_built(base: u64) -> BuilderView {
    unbuilt(Some(base))
}

/// The fold of no deltas.
pub open spec fn unbuilt(base: Option<u64>) -> BuilderView {
    BuilderView {
        base,
        txid_start: None,
        txid_end: 0,
        page_size: 0,
        db_size: 0,
        pages: Map::empty(),
    }
}

/// The first transaction of a fold whose first delta is `txid`. One that goes on
/// after `base` starts with the next, also where a coalesced delta carries only
/// the last of its batch.
pub open spec fn start_after(base: Option<u64>, txid: u64) -> u64 {
    match base {
        Some(b) => if b < txid {
            (b + 1) as u64
        } else {
            txid
        },
        None => txid,
    }
}

/// The fold with one more delta.
pub open spec fn built(b: BuilderView, d: DeltaView) -> BuilderView {
    BuilderView {
        txid_start: if b.txid_start is Some {
            b.txid_start
        } else {
            Some(start_after(b.base, d.txid))
        },
        base: b.base,
        txid_end: d.txid,
        page_size: d.page_size,
        db_size: d.db_size,
        pages: overlay(b.pages, d.pages),
    }
}

/// The fold of a run of deltas on top of `b`.
pub open spec fn built_all(b: BuilderView, ds: Seq<DeltaView>) -> BuilderView
    decreases ds.len(),
{
    if ds.len() == 0 {
        b
    } else {
        built(built_all(b, ds.drop_last()), ds.last())
    }
}

/// `l` is what the fold seals into.
pub open spec fn seals(b: BuilderView, l: LtxView) -> bool {
    &&& b.txid_start == Some(l.txid_start)
    &&& l.txid_end == b.txid_end
    &&& l.page_size == b.page_size
    &&& l.db_size == b.db_size
    &&& is_page_list(b.pages, l.pages)
}

impl Default for LtxBuilder {
    /// An empty fold that starts with the transaction of its first delta.
    fn default() -> (r: Self)
        ensures
            r@ == unbuilt(None),
    {
        LtxBuilder {
            base: None,
            txid_start: None,
            txid_end: 0,
            page_size: 0,
            db_size: 0,
            pages: Pages::new(),
        }
    }
}

impl LtxBuilder {
    /// An empty fold that goes on after transaction `base`.
    pub fn new(base: u64) -> (r: Self)
        ensures
            r@ == nothing_built(base),
    {
        LtxBuilder {
            base: Some(base),
            txid_start: None,
            txid_end: 0,
            page_size: 0,
            db_size: 0,
            pages: Pages::new(),
        }
    }

    pub fn apply(&mut self, d: &Delta)
        ensures
            final(self)@ == built(old(self)@, d@),
    {
        if self.txid_start.is_none() {
            let first: u64 = match self.base {
                Some(b) => if b < d.txid {
                    b + 1
                } else {
                    d.txid
                },
                None => d.txid,
            };
            self.txid_start = Some(first);
        }
        self.txid_end = d.txid;
        self.page_size = d.page_size;
        self.db_size = d.db_size;
        self.pages.write(&d.pages);
    }

    /// Seals a non-empty fold into an [`Ltx`].
    pub fn into_ltx(self) -> (r: Ltx)
        requires
            self.txid_start is Some,
        ensures
            seals(self@, r@),
    {
        Ltx {
            txid_start: self.txid_start.unwrap(),
            txid_end: self.txid_end,
            page_size: self.page_size,
            db_size: self.db_size,
            pages: self.pages.into_frames(),
        }
    }
}

impl Dup for LtxBuilder {
    fn dup(&self) -> (r: Self) {
        LtxBuilder {
            base: self.base,
            txid_start: self.txid_start,
            txid_end: self.txid_end,
            page_size: self.page_size,
            db_size: self.db_size,
            pages: self.pages.dup(),
        }
    }
}

/// A sealed segment stands for the transactions folded into it: merging it
/// into an image gives what applying them one by one gives.
pub proof fn segment_replays_deltas(i: ImageView, base: Option<u64>, ds: Seq<DeltaView>, l: LtxView)
    requires
        ds.len() > 0,
        seals(built_all(unbuilt(base), ds), l),
    ensures
        merged(i, l) == applied_all(i, ds),
        l.txid_start == start_after(base, ds.first().txid),
        base is None ==> l.txid_start == ds.first().txid,
        l.txid_end == ds.last().txid,
        forall|a: int, b: int| 0 <= a < b < l.pages.len() ==> l.pages[a].pgno < l.pages[b].pgno,
{
    run_pages(i, base, ds);
    run_start(base, ds);
    let b = built_all(unbuilt(base), ds);
    page_list_overlay(b.pages, l.pages);
    overlay_union(i.pages, l.pages);
    assert(merged(i, l) =~= applied_all(i, ds));
}

proof fn run_pages(i: ImageView, base: Option<u64>, ds: Seq<DeltaView>)
    ensures
        applied_all(i, ds).pages == i.pages.union_prefer_right(
            built_all(unbuilt(base), ds).pages,
        ),
    decreases ds.len(),
{
    if ds.len() == 0 {
        assert(i.pages.union_prefer_right(Map::<u32, Seq<u8>>::empty()) =~= i.pages);
    } else {
        run_pages(i, base, ds.drop_last());
        let a = applied_all(i, ds.drop_last()).pages;
        let b = built_all(unbuilt(base), ds.drop_last()).pages;
        let p = ds.last().pages;
        overlay_union(a, p);
        overlay_union(b, p);
        let o = overlay(Map::<u32, Seq<u8>>::empty(), p);
        assert(i.pages.union_prefer_right(b).union_prefer_right(o)
            =~= i.pages.union_prefer_right(b.union_prefer_right(o)));
    }
}

proof fn run_start(base: Option<u64>, ds: Seq<DeltaView>)
    requires
        ds.len() > 0,
    ensures
        built_all(unbuilt(base), ds).base == base,
        built_all(unbuilt(base), ds).txid_start == Some(
            start_after(base, ds.first().txid),
        ),
        built_all(unbuilt(base), ds).txid_end == ds.last().txid,
    decreases ds.len(),
{
    if ds.len() > 1 {
        run_start(base, ds.drop_last());
        assert(ds.drop_last().first() == ds.first());
    } else {
        assert(ds.drop_last() =~= Seq::<DeltaView>::empty());
        assert(built_all(unbuilt(base), ds.drop_last()) == unbuilt(base));
        assert(ds.last() == ds.first());
    }
}

} // verus!

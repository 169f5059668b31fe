//! Database lifecycle: sync, checkpoint, restore.
//!
//! A [`Db`] holds what the handle knows between calls. The caller reads the
//! WAL, appends the staged events, moves objects to and from the bucket, and
//! reports back what became durable.
use vstd::prelude::*;
use vstd::string::*;

use crate::envelope::{NewEvent, Version};
use crate::error::{number_text, push_number, says, Error};
use crate::sqlite::checkpoint::contiguous;
use crate::sqlite::codec::{batches, encode_deltas, is_batch_event};
use crate::sqlite::wal::{
    capture, split, txids_fit, valid_run, Capture, Header, WalCursor,
};
use crate::sqlite::{
    applied, applied_all, blank, built_all, file_bytes, is_page_list, merged, nothing_built,
    overlay, overlay_concat, overlay_union, page_list_overlay, seals, DbImage, Delta, DeltaView,
    FrameView, ImageView, Ltx, LtxBuilder, LtxView, Manifest, ManifestView, PageMap, Pages,
    SegmentRef, SegmentView,
};
use crate::table::{views, Dup};

verus! {

/// The frames of a run of deltas, one after the other.
pub open spec fn frames_of(ds: Seq<DeltaView>) -> Seq<FrameView>
    decreases ds.len(),
{
    if ds.len() == 0 {
        Seq::empty()
    } else {
        frames_of(ds.drop_last()) + ds.last().pages
    }
}

/// `d` is the end state of the batch `ds` as one delta.
pub open spec fn is_fold(ds: Seq<DeltaView>, d: DeltaView) -> bool {
    &&& d.txid == ds.last().txid
    &&& d.page_size == ds.last().page_size
    &&& d.db_size == ds.last().db_size
    &&& is_page_list(overlay(Map::empty(), frames_of(ds)), d.pages)
}

/// Newest-wins fold of a batch into a single delta: the batch's end state.
pub fn fold(deltas: Vec<Delta>) -> (r: Delta)
    requires
        deltas.len() > 0,
    ensures
        is_fold(views(deltas@), r@),
{
    let ghost ds = views(deltas@);
    let mut pages = Pages::new();
    let mut i: usize = 0;
    assert(ds.take(0) =~= Seq::<DeltaView>::empty());
    while i < deltas.len()
        invariant
            i <= deltas.len(),
            ds == views(deltas@),
            pages@ == overlay(Map::empty(), frames_of(ds.take(i as int))),
        decreases deltas.len() - i,
    {
        proof {
            assert(ds.take(i + 1).drop_last() =~= ds.take(i as int));
            assert(ds.take(i + 1).last() == deltas@[i as int]@);
            overlay_concat(
                Map::empty(),
                frames_of(ds.take(i as int)),
                deltas@[i as int]@.pages,
            );
        }
        pages.write(&deltas[i].pages);
        i += 1;
    }
    assert(ds.take(i as int) =~= ds);
    let last = &deltas[deltas.len() - 1];
    assert(ds.last() == last@);
    Delta {
        txid: last.txid,
        page_size: last.page_size,
        db_size: last.db_size,
        pages: pages.into_frames(),
    }
}

proof fn applied_pages(i: ImageView, ds: Seq<DeltaView>)
    ensures
        applied_all(i, ds).pages == overlay(i.pages, frames_of(ds)),
        ds.len() > 0 ==> applied_all(i, ds).txid == ds.last().txid && applied_all(i, ds).page_size
            == ds.last().page_size && applied_all(i, ds).db_size == ds.last().db_size,
    decreases ds.len(),
{
    if ds.len() > 0 {
        applied_pages(i, ds.drop_last());
        overlay_concat(i.pages, frames_of(ds.drop_last()), ds.last().pages);
    }
}

/// A coalesced batch has the effect of its transactions one by one.
pub proof fn fold_replays_batch(i: ImageView, ds: Seq<DeltaView>, d: DeltaView)
    requires
        ds.len() > 0,
        is_fold(ds, d),
    ensures
        applied(i, d) == applied_all(i, ds),
{
    applied_pages(i, ds);
    let m = overlay(Map::<u32, Seq<u8>>::empty(), frames_of(ds));
    page_list_overlay(m, d.pages);
    overlay_union(i.pages, d.pages);
    overlay_union(i.pages, frames_of(ds));
    assert(applied(i, d) =~= applied_all(i, ds));
}

/// An open database, as the write handle sees it. The local file is a
/// disposable cache: the stream is the source of truth.
pub struct Db {
    pub name: String,
    pub token: String,
    /// Live database image.
    pub image: DbImage,
    pub tail: Option<Version>,
    pub cursor: WalCursor,
    pub pending: LtxBuilder,
}

/// A sync on its way: what to append, and what to take over once it is
/// durable.
#[derive(Debug)]
pub struct Staged {
    /// Number of transactions captured.
    pub count: usize,
    /// Their deltas (one for all of them, if coalesced).
    pub deltas: Vec<Delta>,
    /// The events to append as one batch; none when nothing was captured.
    pub events: Vec<NewEvent>,
    /// Where the cursor goes: before any uncommitted tail.
    pub cursor: WalCursor,
}

/// `s` is the sync of the transactions `txs`.
pub open spec fn stages(
    s: Staged,
    txs: Seq<DeltaView>,
    cursor: WalCursor,
    frames: int,
    coalesce: bool,
) -> bool {
    &&& s.count == txs.len()
    &&& s.cursor == (WalCursor { frame: (cursor.frame + frames) as u64, ..cursor })
    &&& if coalesce && txs.len() > 1 {
        s.deltas.len() == 1 && is_fold(txs, s.deltas@[0]@)
    } else {
        views(s.deltas@) == txs
    }
    &&& s.events.len() == batches(views(s.deltas@)).len()
    &&& forall|i: int|
        0 <= i < s.events.len() ==> is_batch_event(
            (#[trigger] s.events@[i])@,
            batches(views(s.deltas@))[i],
        )
}

impl Db {
    /// Captures the newly committed transactions of `wal`, the header `h`
    /// followed by the frames from `cursor` on: one delta each (or one for
    /// all, if `coalesce`), packed into batch events. Nothing of the handle
    /// changes until the batch is durable, so a failed append can simply be
    /// retried.
    pub fn stage_sync(&self, wal: &[u8], h: &Header, cursor: WalCursor, coalesce: bool) -> (r:
        Result<Staged, Error>)
        requires
            txids_fit(wal@, self.image.txid),
            cursor.frame + wal.len() <= u64::MAX,
        ensures
            exists|n: int| #[trigger]
                valid_run(wal@, *h, n) && ({
                    let s = split(wal@, *h, self.image.txid, n as nat);
                    match r {
                        Ok(staged) => stages(
                            staged,
                            s.txs,
                            cursor,
                            n - s.open.len(),
                            coalesce,
                        ),
                        Err(_) => false,
                    }
                }),
    {
        let Capture { mut deltas, frames } = capture(wal, h, self.image.txid);
        let ghost n = choose|n: int| #[trigger]
            valid_run(wal@, *h, n) && views(deltas@) == split(
                wal@,
                *h,
                self.image.txid,
                n as nat,
            ).txs && frames == n - split(wal@, *h, self.image.txid, n as nat).open.len();
        let ghost txs = views(deltas@);
        proof {
            frames_bound(wal@, *h, n);
        }
        let next = WalCursor {
            salt1: cursor.salt1,
            salt2: cursor.salt2,
            frame: cursor.frame + frames,
        };
        let count: usize = deltas.len();
        if coalesce && count > 1 {
            let one = fold(deltas);
            deltas = Vec::new();
            deltas.push(one);
        }
        assert(valid_run(wal@, *h, n));
        match encode_deltas(&deltas) {
            Ok(events) => Ok(Staged { count, deltas, events, cursor: next }),
            Err(e) => Err(e),
        }
    }

    /// Takes over a staged sync: with `last_version`, that of its durable
    /// batch; without, one that had nothing to append.
    pub fn finish_sync(&mut self, staged: Staged, last_version: Option<Version>) -> (n: usize)
        ensures
            n == staged.count,
            final(self).image@ == applied_all(old(self).image@, views(staged.deltas@)),
            final(self).pending@ == built_all(old(self).pending@, views(staged.deltas@)),
            final(self).cursor == staged.cursor,
            final(self).tail == (if last_version is Some {
                last_version
            } else {
                old(self).tail
            }),
            final(self).name == old(self).name,
            final(self).token == old(self).token,
    {
        if let Some(v) = last_version {
            self.tail = Some(v);
        }
        let ghost ds = views(staged.deltas@);
        let ghost i0 = self.image@;
        let ghost p0 = self.pending@;
        let mut i: usize = 0;
        assert(ds.take(0) =~= Seq::<DeltaView>::empty());
        while i < staged.deltas.len()
            invariant
                i <= staged.deltas.len(),
                ds == views(staged.deltas@),
                self.image@ == applied_all(i0, ds.take(i as int)),
                self.pending@ == built_all(p0, ds.take(i as int)),
                self.name == old(self).name,
                self.token == old(self).token,
                self.tail == (if last_version is Some {
                    last_version
                } else {
                    old(self).tail
                }),
            decreases staged.deltas.len() - i,
        {
            proof {
                assert(ds.take(i + 1).drop_last() =~= ds.take(i as int));
                assert(ds.take(i + 1).last() == staged.deltas@[i as int]@);
            }
            self.image.apply(&staged.deltas[i]);
            self.pending.apply(&staged.deltas[i]);
            i += 1;
        }
        assert(ds.take(i as int) =~= ds);
        self.cursor = staged.cursor;
        staged.count
    }

    /// The deltas since the last checkpoint as a segment; `None` when there is
    /// nothing new to seal.
    pub fn seal(&self) -> (r: Option<Ltx>)
        ensures
            match r {
                Some(l) => self.pending.txid_start is Some && seals(self.pending@, l@),
                None => self.pending.txid_start is None,
            },
    {
        if self.pending.txid_start.is_none() {
            return None;
        }
        Some(self.pending.dup().into_ltx())
    }

    /// Forgets the deltas that a published manifest covers.
    pub fn sealed(&mut self)
        ensures
            final(self).pending@ == nothing_built(old(self).image.txid),
            final(self).image == old(self).image,
            final(self).tail == old(self).tail,
            final(self).cursor == old(self).cursor,
            final(self).name == old(self).name,
            final(self).token == old(self).token,
    {
        self.pending = LtxBuilder::new(self.image.txid);
    }
}

/// A file of `n` whole frames has at least as many bytes.
pub(crate) proof fn frames_bound(wal: Seq<u8>, h: Header, n: int)
    requires
        valid_run(wal, h, n),
    ensures
        n <= wal.len(),
{
    if n > 0 {
        let i = n - 1;
        assert(crate::sqlite::wal::frame_of(wal, h, i) is Some);
        let off = crate::sqlite::wal::frame_at(h, i);
        assert(off >= i) by (nonlinear_arith)
            requires
                off == 32 + i * (24 + h.page_size),
                i >= 0,
                h.page_size >= 0,
        ;
    }
}

// ---- checkpoints ----------------------------------------------------------

/// The frames of a run of segments, one after the other.
pub open spec fn segment_frames(ls: Seq<LtxView>) -> Seq<FrameView>
    decreases ls.len(),
{
    if ls.len() == 0 {
        Seq::empty()
    } else {
        segment_frames(ls.drop_last()) + ls.last().pages
    }
}

/// The pages within the file.
pub open spec fn kept(m: PageMap, db_size: u32) -> PageMap {
    Map::new(|p: u32| m.contains_key(p) && p <= db_size, |p: u32| m[p])
}

/// `l` stands for the segments `older` followed by `newest`.
pub open spec fn is_coalesced(
    older: Seq<LtxView>,
    newest: LtxView,
    txid_start: u64,
    l: LtxView,
) -> bool {
    &&& l.txid_start == txid_start
    &&& l.txid_end == newest.txid_end
    &&& l.page_size == newest.page_size
    &&& l.db_size == newest.db_size
    &&& is_page_list(
        kept(
            overlay(Map::empty(), segment_frames(older) + newest.pages),
            newest.db_size,
        ),
        l.pages,
    )
}

/// Folds all segments of a manifest, oldest first and `newest` last, into one,
/// without the pages that the final transaction cut off the file.
pub fn coalesce(older: &Vec<Ltx>, newest: Ltx, txid_start: u64) -> (r: Ltx)
    ensures
        is_coalesced(views(older@), newest@, txid_start, r@),
{
    let ghost ls = views(older@);
    let mut pages = Pages::new();
    let mut i: usize = 0;
    assert(ls.take(0) =~= Seq::<LtxView>::empty());
    while i < older.len()
        invariant
            i <= older.len(),
            ls == views(older@),
            pages@ == overlay(Map::empty(), segment_frames(ls.take(i as int))),
        decreases older.len() - i,
    {
        proof {
            assert(ls.take(i + 1).drop_last() =~= ls.take(i as int));
            assert(ls.take(i + 1).last() == older@[i as int]@);
            overlay_concat(
                Map::empty(),
                segment_frames(ls.take(i as int)),
                older@[i as int]@.pages,
            );
        }
        pages.write(&older[i].pages);
        i += 1;
    }
    assert(ls.take(i as int) =~= ls);
    proof {
        overlay_concat(Map::empty(), segment_frames(ls), newest@.pages);
    }
    pages.write(&newest.pages);
    let ghost whole = pages@;
    // Drop pages truncated out of the db by the final transaction.
    let n = pages.len();
    let ghost l = pages.list();
    let mut small = Pages::new();
    let mut j: usize = 0;
    proof {
        assert(small@ =~= listed_pages(l, 0, newest.db_size));
    }
    while j < n
        invariant
            j <= n,
            n == l.len(),
            l == pages.list(),
            whole == pages@,
            is_page_list(whole, l),
            small@ == listed_pages(l, j as int, newest.db_size),
        decreases n - j,
    {
        let f = pages.at(j);
        proof {
            listed_step(l, j as int, newest.db_size);
        }
        if f.pgno <= newest.db_size {
            small.insert(f.pgno, f.data.dup());
        }
        j += 1;
    }
    proof {
        listed_all(whole, l, newest.db_size);
    }
    Ltx {
        txid_start,
        txid_end: newest.txid_end,
        page_size: newest.page_size,
        db_size: newest.db_size,
        pages: small.into_frames(),
    }
}

/// The first `n` listed pages that lie within the file.
spec fn listed_pages(l: Seq<FrameView>, n: int, db_size: u32) -> PageMap
    decreases n,
{
    if n <= 0 {
        Map::empty()
    } else if l[n - 1].pgno <= db_size {
        listed_pages(l, n - 1, db_size).insert(l[n - 1].pgno, l[n - 1].data)
    } else {
        listed_pages(l, n - 1, db_size)
    }
}

proof fn listed_step(l: Seq<FrameView>, n: int, db_size: u32)
    requires
        0 <= n < l.len(),
    ensures
        listed_pages(l, n + 1, db_size) == (if l[n].pgno <= db_size {
            listed_pages(l, n, db_size).insert(l[n].pgno, l[n].data)
        } else {
            listed_pages(l, n, db_size)
        }),
{
}

proof fn listed_keys(m: PageMap, l: Seq<FrameView>, n: int, db_size: u32)
    requires
        is_page_list(m, l),
        0 <= n <= l.len(),
    ensures
        forall|p: u32| #[trigger]
            listed_pages(l, n, db_size).contains_key(p) <==> p <= db_size && (exists|i: int|
                0 <= i < n && #[trigger] l[i].pgno == p),
        forall|p: u32| #[trigger]
            listed_pages(l, n, db_size).contains_key(p) ==> listed_pages(l, n, db_size)[p] == m[p],
    decreases n,
{
    if n > 0 {
        listed_keys(m, l, n - 1, db_size);
        let a = listed_pages(l, n - 1, db_size);
        let b = listed_pages(l, n, db_size);
        assert forall|p: u32| #[trigger]
            b.contains_key(p) <==> p <= db_size && (exists|i: int|
                0 <= i < n && #[trigger] l[i].pgno == p) by {
            if a.contains_key(p) {
                let i = choose|i: int| 0 <= i < n - 1 && #[trigger] l[i].pgno == p;
                assert(0 <= i < n && l[i].pgno == p);
            }
            if p == l[n - 1].pgno {
                assert(0 <= n - 1 < n && l[n - 1].pgno == p);
            }
            if p <= db_size && (exists|i: int| 0 <= i < n && #[trigger] l[i].pgno == p) {
                let i = choose|i: int| 0 <= i < n && #[trigger] l[i].pgno == p;
                if i < n - 1 {
                    assert(0 <= i < n - 1 && l[i].pgno == p);
                    assert(a.contains_key(p));
                }
            }
        }
        assert forall|p: u32| #[trigger] b.contains_key(p) implies b[p] == m[p] by {
            if p == l[n - 1].pgno {
                assert(m[l[n - 1].pgno] == l[n - 1].data);
            } else {
                assert(a.contains_key(p));
            }
        }
    }
}

proof fn listed_all(m: PageMap, l: Seq<FrameView>, db_size: u32)
    requires
        is_page_list(m, l),
    ensures
        listed_pages(l, l.len() as int, db_size) == kept(m, db_size),
{
    listed_keys(m, l, l.len() as int, db_size);
    let a = listed_pages(l, l.len() as int, db_size);
    let k = kept(m, db_size);
    assert forall|p: u32| a.contains_key(p) == k.contains_key(p) by {
        if a.contains_key(p) {
            let i = choose|i: int| 0 <= i < l.len() && #[trigger] l[i].pgno == p;
            assert(m.contains_key(l[i].pgno));
        }
    }
    assert(a =~= k);
}

/// The image after a run of segments.
pub open spec fn merged_all(i: ImageView, ls: Seq<LtxView>) -> ImageView
    decreases ls.len(),
{
    if ls.len() == 0 {
        i
    } else {
        merged(merged_all(i, ls.drop_last()), ls.last())
    }
}

proof fn merged_pages(i: ImageView, ls: Seq<LtxView>)
    ensures
        merged_all(i, ls).pages == overlay(i.pages, segment_frames(ls)),
    decreases ls.len(),
{
    if ls.len() > 0 {
        merged_pages(i, ls.drop_last());
        overlay_concat(i.pages, segment_frames(ls.drop_last()), ls.last().pages);
    }
}

/// Coalescing a manifest keeps the database file: the one segment gives the
/// file that its segments gave one after the other.
pub proof fn coalescing_keeps_file(
    older: Seq<LtxView>,
    newest: LtxView,
    txid_start: u64,
    l: LtxView,
)
    requires
        is_coalesced(older, newest, txid_start, l),
    ensures
        same_file(merged(blank(), l), merged_all(blank(), older.push(newest))),
        file_bytes(merged(blank(), l)) == file_bytes(merged_all(blank(), older.push(newest))),
{
    let ls = older.push(newest);
    assert(ls.drop_last() =~= older);
    merged_pages(blank(), ls);
    assert(segment_frames(ls) == segment_frames(older) + newest.pages);
    let whole = overlay(Map::<u32, Seq<u8>>::empty(), segment_frames(ls));
    let small = kept(whole, newest.db_size);
    page_list_overlay(small, l.pages);
    let a = merged(blank(), l);
    let b = merged_all(blank(), ls);
    assert(a.pages == small);
    assert(b.pages == whole);
    assert forall|p: u32| 1 <= p <= a.db_size implies (#[trigger] a.pages.contains_key(p)
        == b.pages.contains_key(p)) && (a.pages.contains_key(p) ==> a.pages[p] == b.pages[p]) by {
        assert(small.contains_key(p) == whole.contains_key(p));
    }
    same_file_bytes(a, b);
}

/// The manifest after a checkpoint, and the paths that may be deleted now.
pub open spec fn next_manifest(
    m: ManifestView,
    new_ref: SegmentView,
    coalesced: Option<SegmentView>,
) -> (ManifestView, Seq<Seq<char>>) {
    let all = m.segments.push(new_ref);
    match coalesced {
        Some(one) => (
            ManifestView { segments: seq![one], retire: paths(all) },
            m.retire,
        ),
        None => (ManifestView { segments: all, retire: Seq::empty() }, m.retire),
    }
}

/// The paths of a run of segments.
pub open spec fn paths(s: Seq<SegmentView>) -> Seq<Seq<char>> {
    Seq::new(s.len(), |i: int| s[i].path)
}

/// The manifest with one more segment, or with all of them replaced by
/// `coalesced`. Returned beside it: what the previous manifest retired, which
/// is now another manifest older and safe to delete.
pub fn advance(m: Manifest, new_ref: SegmentRef, coalesced: Option<SegmentRef>) -> (r: (
    Manifest,
    Vec<String>,
))
    ensures
        (r.0@, views(r.1@)) == next_manifest(
            m@,
            new_ref@,
            match coalesced {
                Some(c) => Some(c@),
                None => None,
            },
        ),
{
    let Manifest { mut segments, retire } = m;
    let ghost before = views(segments@);
    let ghost nv = new_ref@;
    segments.push(new_ref);
    let ghost all = before.push(nv);
    assert(views(segments@) =~= all);
    match coalesced {
        Some(one) => {
            let mut old: Vec<String> = Vec::new();
            let mut i: usize = 0;
            while i < segments.len()
                invariant
                    i <= segments.len(),
                    old.len() == i,
                    forall|j: int| 0 <= j < i ==> (#[trigger] old@[j])@ == segments@[j].path@,
                decreases segments.len() - i,
            {
                old.push(segments[i].path.clone());
                i += 1;
            }
            assert(views(old@) =~= paths(all)) by {
                assert forall|j: int| 0 <= j < old.len() implies views(old@)[j] == all[j].path by {
                    assert(views(segments@)[j] == all[j]);
                }
            }
            let ghost ov = one@;
            let mut single: Vec<SegmentRef> = Vec::new();
            single.push(one);
            assert(views(single@) =~= seq![ov]);
            (Manifest { segments: single, retire: old }, retire)
        },
        None => {
            let none: Vec<String> = Vec::new();
            assert(views(none@) =~= Seq::<Seq<char>>::empty());
            (Manifest { segments, retire: none }, retire)
        },
    }
}

// ---- restore --------------------------------------------------------------

/// Decoded events: the deltas of each, or why they could not be read.
pub type Decoded = Vec<Result<Vec<Delta>, Error>>;

/// Whether every event could be read.
pub open spec fn all_read(evs: Seq<Result<Vec<Delta>, Error>>) -> bool {
    forall|i: int| 0 <= i < evs.len() ==> (#[trigger] evs[i]) is Ok
}

/// The deltas of the events that could be read, in order.
pub open spec fn deltas_in(evs: Seq<Result<Vec<Delta>, Error>>) -> Seq<DeltaView>
    decreases evs.len(),
{
    if evs.len() == 0 {
        Seq::empty()
    } else {
        let rest = deltas_in(evs.drop_last());
        match evs.last() {
            Ok(ds) => rest + views(ds@),
            Err(_) => rest,
        }
    }
}

/// Splits decoded events into their deltas, in order, or the last error.
fn readable(decoded: Decoded) -> (r: Result<Vec<Delta>, Error>)
    ensures
        match r {
            Ok(ds) => all_read(decoded@) && views(ds@) == deltas_in(decoded@),
            Err(e) => exists|i: int|
                0 <= i < decoded.len() && (#[trigger] decoded@[i]) == Err::<Vec<Delta>, Error>(e)
                    && all_read(decoded@.skip(i + 1)),
        },
{
    let ghost all = decoded@;
    let n: usize = decoded.len();
    let mut rest: Decoded = decoded;
    let mut out: Vec<Delta> = Vec::new();
    let mut bad: Option<Error> = None;
    let ghost mut at: int = 0;
    let mut i: usize = 0;
    assert(all.take(0) =~= Seq::empty());
    assert(views(out@) =~= Seq::<DeltaView>::empty());
    #[verifier::loop_isolation(false)]
    while i < n
        invariant
            i <= n,
            n == all.len(),
            rest@ == all.skip(i as int),
            views(out@) == deltas_in(all.take(i as int)),
            bad is None ==> all_read(all.take(i as int)),
            bad is Some ==> 0 <= at < i && all[at] == Err::<Vec<Delta>, Error>(bad->0)
                && forall|j: int| at < j < i ==> (#[trigger] all[j]) is Ok,
        decreases n - i,
    {
        let item = rest.remove(0);
        let ghost before = views(out@);
        proof {
            assert(item == all[i as int]);
            assert(rest@ =~= all.skip(i + 1));
            assert(all.take(i + 1).drop_last() =~= all.take(i as int));
            assert(all.take(i + 1).last() == item);
        }
        match item {
            Ok(ds) => {
                let mut ds: Vec<Delta> = ds;
                let ghost dv = views(ds@);
                out.append(&mut ds);
                proof {
                    assert(views(out@) =~= before + dv);
                    assert(bad is None ==> all_read(all.take(i + 1))) by {
                        if bad is None {
                            assert forall|j: int| 0 <= j < i + 1 implies (
                            #[trigger] all.take(i + 1)[j]) is Ok by {
                                if j < i {
                                    assert(all.take(i as int)[j] is Ok);
                                }
                            }
                        }
                    }
                }
            },
            Err(e) => {
                bad = Some(e);
                proof {
                    at = i as int;
                }
            },
        }
        i += 1;
    }
    assert(all.take(i as int) =~= all);
    match bad {
        Some(e) => {
            assert(all_read(all.skip(at + 1)));
            Err(e)
        },
        None => Ok(out),
    }
}

/// Reconstructs a database from its manifest's segments and the decoded events
/// since: the image, and the fold that the next checkpoint seals. Fails with
/// the last error if an event could not be read.
pub fn restore_impl(segments: &Vec<Ltx>, backlog: Decoded) -> (r: Result<
    (DbImage, LtxBuilder),
    Error,
>)
    ensures
        match r {
            Ok((image, pending)) => all_read(backlog@) && image@ == applied_all(
                merged_all(blank(), views(segments@)),
                deltas_in(backlog@),
            ) && pending@ == built_all(
                nothing_built(merged_all(blank(), views(segments@)).txid),
                deltas_in(backlog@),
            ),
            Err(e) => exists|i: int|
                0 <= i < backlog.len() && (#[trigger] backlog@[i]) == Err::<Vec<Delta>, Error>(e)
                    && all_read(backlog@.skip(i + 1)),
        },
{
    let mut image = merge_segments(segments, segments.len());
    assert(views(segments@).take(segments.len() as int) =~= views(segments@));
    let deltas = match readable(backlog) {
        Ok(ds) => ds,
        Err(e) => return Err(e),
    };
    let ghost ds = views(deltas@);
    let ghost i0 = image@;
    let mut pending = LtxBuilder::new(image.txid);
    let mut i: usize = 0;
    assert(ds.take(0) =~= Seq::<DeltaView>::empty());
    while i < deltas.len()
        invariant
            i <= deltas.len(),
            ds == views(deltas@),
            image@ == applied_all(i0, ds.take(i as int)),
            pending@ == built_all(nothing_built(i0.txid), ds.take(i as int)),
        decreases deltas.len() - i,
    {
        proof {
            assert(ds.take(i + 1).drop_last() =~= ds.take(i as int));
            assert(ds.take(i + 1).last() == deltas@[i as int]@);
        }
        image.apply(&deltas[i]);
        pending.apply(&deltas[i]);
        i += 1;
    }
    assert(ds.take(i as int) =~= ds);
    Ok((image, pending))
}

/// The image of the first `n` segments.
fn merge_segments(segments: &Vec<Ltx>, n: usize) -> (r: DbImage)
    requires
        n <= segments.len(),
    ensures
        r@ == merged_all(blank(), views(segments@).take(n as int)),
{
    let ghost ls = views(segments@);
    let mut image = DbImage::new();
    let mut i: usize = 0;
    assert(ls.take(0) =~= Seq::<LtxView>::empty());
    while i < n
        invariant
            i <= n <= segments.len(),
            ls == views(segments@),
            image@ == merged_all(blank(), ls.take(i as int)),
        decreases n - i,
    {
        proof {
            assert(ls.take(i + 1).drop_last() =~= ls.take(i as int));
            assert(ls.take(i + 1).last() == segments@[i as int]@);
        }
        image.merge_ltx(&segments[i]);
        i += 1;
    }
    image
}

/// Whether a restore to `target` can use the segment.
pub open spec fn usable(s: SegmentView, target: u64) -> bool {
    s.txid_start <= target && s.txid_end <= target
}

/// A restore to `target` uses the first `n` segments: one past the target ends
/// the usable prefix, one straddling it can't be applied partially.
pub open spec fn uses(m: ManifestView, target: u64, n: int) -> bool {
    &&& 0 <= n <= m.segments.len()
    &&& forall|i: int| 0 <= i < n ==> usable((#[trigger] m.segments[i]), target)
    &&& n < m.segments.len() ==> !usable(m.segments[n], target)
}

/// The number of leading segments that a restore to `target` uses: those that
/// end at or before it, where the manifest's segments follow one another.
pub fn usable_segments(m: &Manifest, target: u64) -> (n: usize)
    ensures
        uses(m@, target, n as int),
        n <= m.segments.len(),
        forall|i: int| 0 <= i < n ==> usable((#[trigger] m@.segments[i]), target),
        n < m.segments.len() ==> !usable(m@.segments[n as int], target),
        forall|i: int| 0 <= i < n ==> (#[trigger] m@.segments[i]).txid_end <= target,
        n < m.segments.len() ==> m@.segments[n as int].txid_start > target
            || m@.segments[n as int].txid_end > target,
        forall|last: u64, i: int|
            #![trigger contiguous(m@, last), m@.segments[i]]
            contiguous(m@, last) && 0 <= i < m@.segments.len() ==> (i < n
                <==> m@.segments[i].txid_end <= target),
{
    let mut n: usize = 0;
    while n < m.segments.len()
        invariant
            n <= m.segments.len(),
            forall|i: int| 0 <= i < n ==> usable((#[trigger] m@.segments[i]), target),
        decreases m.segments.len() - n,
    {
        let s = &m.segments[n];
        assert(m@.segments[n as int] == s@);
        if s.txid_start > target || s.txid_end > target {
            assert(uses(m@, target, n as int));
            proof {
                uses_all_ended(m@, target, n as int);
            }
            return n;
        }
        n += 1;
    }
    assert(uses(m@, target, n as int));
    n
}

proof fn uses_all_ended(m: ManifestView, target: u64, n: int)
    requires
        uses(m, target, n),
    ensures
        forall|last: u64, i: int|
            #![trigger contiguous(m, last), m.segments[i]]
            contiguous(m, last) && 0 <= i < m.segments.len() ==> (i < n <==> m.segments[i].txid_end
                <= target),
{
    assert forall|last: u64, i: int|
        #![trigger contiguous(m, last), m.segments[i]]
        contiguous(m, last) && 0 <= i < m.segments.len() implies (i < n <==> m.segments[i].txid_end
        <= target) by {
        crate::guarantees::restore::restore_uses_every_ended_segment(m, last, target, n);
    }
}

/// The deltas with `base < txid <= target`, in order.
pub open spec fn window(ds: Seq<DeltaView>, base: u64, target: u64) -> Seq<DeltaView>
    decreases ds.len(),
{
    if ds.len() == 0 {
        Seq::empty()
    } else {
        let rest = window(ds.drop_last(), base, target);
        if base < ds.last().txid <= target {
            rest.push(ds.last())
        } else {
            rest
        }
    }
}

/// The image that a restore to `target` reaches.
pub open spec fn reached(ls: Seq<LtxView>, ds: Seq<DeltaView>, target: u64) -> ImageView {
    let base = merged_all(blank(), ls);
    applied_all(base, window(ds, base.txid, target))
}

/// The answer to a restore that could not reach its target.
pub open spec fn not_reached(target: u64, at: u64) -> Seq<char> {
    "txid "@ + number_text(target as nat)
        + " is not reconstructable (beyond tail or purged by retention); reached txid "@
        + number_text(at as nat)
}

/// Point-in-time restore: the image as of transaction `target_txid`
/// (inclusive), from the usable segments of the manifest and the decoded
/// events of the stream. Fails if the target was not reached: it lies beyond
/// the tail, or was purged by retention.
pub fn restore_at(segments: &Vec<Ltx>, decoded: Decoded, target_txid: u64) -> (r: Result<
    DbImage,
    Error,
>)
    ensures
        match r {
            Ok(image) => all_read(decoded@) && image@ == reached(
                views(segments@),
                deltas_in(decoded@),
                target_txid,
            ) && image.txid >= target_txid,
            Err(e) => (exists|i: int|
                0 <= i < decoded.len() && (#[trigger] decoded@[i]) == Err::<Vec<Delta>, Error>(e)
                    && all_read(decoded@.skip(i + 1))) || (all_read(decoded@)
                && reached(views(segments@), deltas_in(decoded@), target_txid).txid < target_txid
                && says(
                e,
                not_reached(
                    target_txid,
                    reached(views(segments@), deltas_in(decoded@), target_txid).txid,
                ),
            )),
        },
{
    let mut image = merge_segments(segments, segments.len());
    assert(views(segments@).take(segments.len() as int) =~= views(segments@));
    let base: u64 = image.txid;
    let ghost i0 = image@;
    let deltas = match readable(decoded) {
        Ok(ds) => ds,
        Err(e) => return Err(e),
    };
    let ghost ds = views(deltas@);
    let mut i: usize = 0;
    assert(ds.take(0) =~= Seq::<DeltaView>::empty());
    while i < deltas.len()
        invariant
            i <= deltas.len(),
            ds == views(deltas@),
            image@ == applied_all(i0, window(ds.take(i as int), base, target_txid)),
        decreases deltas.len() - i,
    {
        let ghost w = window(ds.take(i as int), base, target_txid);
        proof {
            assert(ds.take(i + 1).drop_last() =~= ds.take(i as int));
            assert(ds.take(i + 1).last() == deltas@[i as int]@);
        }
        let d = &deltas[i];
        if d.txid > base && d.txid <= target_txid {
            image.apply(d);
            assert(w.push(d@).drop_last() =~= w);
        }
        i += 1;
    }
    assert(ds.take(i as int) =~= ds);
    if image.txid < target_txid {
        let mut msg = "txid ".to_owned();
        push_number(&mut msg, target_txid);
        msg.append(
            " is not reconstructable (beyond tail or purged by retention); reached txid ",
        );
        push_number(&mut msg, image.txid);
        return Err(Error::InvalidInput(msg));
    }
    Ok(image)
}

/// Transaction numbers that only grow, from 1 on.
pub open spec fn rising(ds: Seq<DeltaView>) -> bool {
    &&& forall|i: int, j: int| 0 <= i < j < ds.len() ==> (#[trigger] ds[i]).txid < (
    #[trigger] ds[j]).txid
    &&& forall|i: int| 0 <= i < ds.len() ==> (#[trigger] ds[i]).txid > 0
}

/// The number of the last of the first `n` transactions, 0 for none.
pub open spec fn txid_at(ds: Seq<DeltaView>, n: int) -> u64 {
    if n <= 0 {
        0
    } else {
        ds[n - 1].txid
    }
}

/// The same database file as of the same transaction; what either keeps of
/// pages past the end of the file is left aside.
pub open spec fn same_file(a: ImageView, b: ImageView) -> bool {
    &&& a.txid == b.txid
    &&& a.page_size == b.page_size
    &&& a.db_size == b.db_size
    &&& forall|p: u32|
        1 <= p <= a.db_size ==> (#[trigger] a.pages.contains_key(p) == b.pages.contains_key(p))
            && (a.pages.contains_key(p) ==> a.pages[p] == b.pages[p])
}

/// The transaction writes every page by which it makes a file of `size` pages
/// longer.
pub open spec fn writes_growth(size: u32, d: DeltaView) -> bool {
    forall|p: u32|
        size < p <= d.db_size ==> #[trigger] overlay(Map::empty(), d.pages).contains_key(p)
}

/// Every transaction of a run that starts at `size` pages writes the pages by
/// which it makes the file longer, as a write-ahead log does.
pub open spec fn run_writes_growth(size: u32, ds: Seq<DeltaView>) -> bool {
    forall|i: int| 0 <= i < ds.len() ==> #[trigger] writes_growth_at(size, ds, i)
}

pub open spec fn writes_growth_at(size: u32, ds: Seq<DeltaView>, i: int) -> bool {
    writes_growth(
        if i == 0 {
            size
        } else {
            ds[i - 1].db_size
        },
        ds[i],
    )
}

/// The same file has the same bytes.
pub proof fn same_file_bytes(a: ImageView, b: ImageView)
    requires
        same_file(a, b),
    ensures
        file_bytes(a) == file_bytes(b),
{
    if a.page_size > 0 {
        assert forall|k: int| 0 <= k < a.db_size * a.page_size implies crate::sqlite::file_byte(a, k)
            == crate::sqlite::file_byte(b, k) by {
            crate::sqlite::page_in_file(k, a.db_size as int, a.page_size as int);
            let p = (k / a.page_size as int + 1) as u32;
            assert(a.pages.contains_key(p) == b.pages.contains_key(p));
        }
    }
    assert(file_bytes(a) =~= file_bytes(b));
}

/// The same transactions on the same file give the same file.
pub proof fn same_file_applied(a: ImageView, b: ImageView, ds: Seq<DeltaView>)
    requires
        same_file(a, b),
        run_writes_growth(a.db_size, ds),
    ensures
        same_file(applied_all(a, ds), applied_all(b, ds)),
    decreases ds.len(),
{
    if ds.len() > 0 {
        let rest = ds.drop_last();
        let d = ds.last();
        assert(run_writes_growth(a.db_size, rest)) by {
            assert forall|i: int| 0 <= i < rest.len() implies #[trigger] writes_growth_at(
                a.db_size,
                rest,
                i,
            ) by {
                assert(writes_growth_at(a.db_size, ds, i));
            }
        }
        same_file_applied(a, b, rest);
        let x = applied_all(a, rest);
        let y = applied_all(b, rest);
        applied_pages(a, rest);
        assert(writes_growth(x.db_size, d)) by {
            let k = ds.len() - 1;
            assert(ds[k] == d);
            assert(writes_growth_at(a.db_size, ds, k));
            if k > 0 {
                assert(rest.last() == ds[k - 1]);
            } else {
                assert(rest =~= Seq::<DeltaView>::empty());
            }
        }
        overlay_union(x.pages, d.pages);
        overlay_union(y.pages, d.pages);
        let o = overlay(Map::<u32, Seq<u8>>::empty(), d.pages);
        let u = applied(x, d);
        let v = applied(y, d);
        assert forall|p: u32| 1 <= p <= u.db_size implies (#[trigger] u.pages.contains_key(p)
            == v.pages.contains_key(p)) && (u.pages.contains_key(p) ==> u.pages[p]
            == v.pages[p]) by {
            if !o.contains_key(p) {
                assert(p <= x.db_size);
                assert(x.pages.contains_key(p) == y.pages.contains_key(p));
            }
        }
    }
}

proof fn restore_reaches(ls: Seq<LtxView>, ds: Seq<DeltaView>, covered: int, k: int)
    requires
        rising(ds),
        run_writes_growth(0, ds),
        0 <= covered <= k <= ds.len(),
        same_file(merged_all(blank(), ls), applied_all(blank(), ds.take(covered))),
    ensures
        same_file(reached(ls, ds, txid_at(ds, k)), applied_all(blank(), ds.take(k))),
        reached(ls, ds, txid_at(ds, k)).txid == txid_at(ds, k),
{
    let base = merged_all(blank(), ls);
    let was = applied_all(blank(), ds.take(covered));
    run_txid(ds, covered);
    run_txid(ds, k);
    window_of_rising(ds, ds.len() as int, covered, k);
    assert(ds.take(ds.len() as int) =~= ds);
    let w = ds.subrange(covered, k);
    applied_split(blank(), ds.take(covered), w);
    assert(ds.take(covered) + w =~= ds.take(k));
    growth_of_rest(ds, covered, k);
    same_file_applied(base, was, w);
}

/// A restore to a transaction of the stream gives the file as it was right
/// after that transaction, whatever prefix of the stream the segments cover.
/// The transactions `covered` and `k` are the last of the segments and the
/// target.
pub proof fn restore_at_is_exact(ls: Seq<LtxView>, ds: Seq<DeltaView>, covered: int, k: int)
    requires
        rising(ds),
        run_writes_growth(0, ds),
        0 <= covered <= k <= ds.len(),
        same_file(merged_all(blank(), ls), applied_all(blank(), ds.take(covered))),
    ensures
        same_file(reached(ls, ds, txid_at(ds, k)), applied_all(blank(), ds.take(k))),
        file_bytes(reached(ls, ds, txid_at(ds, k))) == file_bytes(
            applied_all(blank(), ds.take(k)),
        ),
        reached(ls, ds, txid_at(ds, k)).txid == txid_at(ds, k),
{
    restore_reaches(ls, ds, covered, k);
    same_file_bytes(reached(ls, ds, txid_at(ds, k)), applied_all(blank(), ds.take(k)));
}

proof fn growth_of_rest(ds: Seq<DeltaView>, m: int, k: int)
    requires
        run_writes_growth(0, ds),
        0 <= m <= k <= ds.len(),
    ensures
        run_writes_growth(applied_all(blank(), ds.take(m)).db_size, ds.subrange(m, k)),
{
    let w = ds.subrange(m, k);
    let size = applied_all(blank(), ds.take(m)).db_size;
    applied_pages(blank(), ds.take(m));
    assert forall|i: int| 0 <= i < w.len() implies #[trigger] writes_growth_at(size, w, i) by {
        assert(writes_growth_at(0, ds, m + i));
        assert(w[i] == ds[m + i]);
        if i == 0 && m > 0 {
            assert(ds.take(m).last() == ds[m - 1]);
        }
        if m == 0 {
            assert(ds.take(0) =~= Seq::<DeltaView>::empty());
        }
    }
}

proof fn run_txid(ds: Seq<DeltaView>, n: int)
    requires
        0 <= n <= ds.len(),
    ensures
        applied_all(blank(), ds.take(n)).txid == txid_at(ds, n),
{
    if n > 0 {
        applied_pages(blank(), ds.take(n));
        assert(ds.take(n).last() == ds[n - 1]);
    } else {
        assert(ds.take(0) =~= Seq::<DeltaView>::empty());
    }
}

proof fn window_of_rising(ds: Seq<DeltaView>, n: int, from: int, to: int)
    requires
        rising(ds),
        0 <= n <= ds.len(),
        0 <= from <= to <= ds.len(),
    ensures
        window(ds.take(n), txid_at(ds, from), txid_at(ds, to)) == (if n <= from {
            Seq::<DeltaView>::empty()
        } else if n <= to {
            ds.subrange(from, n)
        } else {
            ds.subrange(from, to)
        }),
    decreases n,
{
    if n > 0 {
        window_of_rising(ds, n - 1, from, to);
        assert(ds.take(n).drop_last() =~= ds.take(n - 1));
        assert(ds.take(n).last() == ds[n - 1]);
        let w = window(ds.take(n), txid_at(ds, from), txid_at(ds, to));
        assert(n <= from <==> ds[n - 1].txid <= txid_at(ds, from)) by {
            if from > 0 && n != from {
                if n < from {
                    assert(ds[n - 1].txid < ds[from - 1].txid);
                } else {
                    assert(ds[from - 1].txid < ds[n - 1].txid);
                }
            }
        }
        assert(n <= to <==> ds[n - 1].txid <= txid_at(ds, to)) by {
            if to > 0 && n != to {
                if n < to {
                    assert(ds[n - 1].txid < ds[to - 1].txid);
                } else {
                    assert(ds[to - 1].txid < ds[n - 1].txid);
                }
            }
        }
        if from < n <= to {
            assert(w =~= ds.subrange(from, n));
        } else if n > to {
            assert(w =~= ds.subrange(from, to));
        }
    } else {
        assert(ds.take(0) =~= Seq::<DeltaView>::empty());
    }
}

/// Applying two runs is applying the first and then the second.
pub proof fn applied_split(i: ImageView, a: Seq<DeltaView>, b: Seq<DeltaView>)
    ensures
        applied_all(i, a + b) == applied_all(applied_all(i, a), b),
    decreases b.len(),
{
    if b.len() == 0 {
        assert(a + b =~= a);
    } else {
        applied_split(i, a, b.drop_last());
        assert((a + b).drop_last() =~= a + b.drop_last());
        assert((a + b).last() == b.last());
    }
}

/// A restore loses nothing: with the first transactions sealed into segments
/// and the others in the backlog, it gives the file of all of them in order.
pub proof fn restore_replays_stream(
    ls: Seq<LtxView>,
    sealed: Seq<DeltaView>,
    backlog: Seq<DeltaView>,
)
    requires
        same_file(merged_all(blank(), ls), applied_all(blank(), sealed)),
        run_writes_growth(applied_all(blank(), sealed).db_size, backlog),
    ensures
        ({
            let restored = applied_all(merged_all(blank(), ls), backlog);
            let live = applied_all(blank(), sealed + backlog);
            same_file(restored, live) && file_bytes(restored) == file_bytes(live)
        }),
{
    applied_split(blank(), sealed, backlog);
    same_file_applied(merged_all(blank(), ls), applied_all(blank(), sealed), backlog);
    same_file_bytes(
        applied_all(merged_all(blank(), ls), backlog),
        applied_all(blank(), sealed + backlog),
    );
}

/// A checkpoint adds what it seals: the manifest's segments with the new one,
/// or the one that a coalescing run makes of them, give the file of the
/// earlier transactions and the newly sealed ones.
pub proof fn checkpoint_extends(
    ls: Seq<LtxView>,
    sealed: Seq<DeltaView>,
    pending: Seq<DeltaView>,
    base: u64,
    l: LtxView,
    one: LtxView,
    txid_start: u64,
)
    requires
        same_file(merged_all(blank(), ls), applied_all(blank(), sealed)),
        run_writes_growth(applied_all(blank(), sealed).db_size, pending),
        pending.len() > 0,
        seals(built_all(nothing_built(base), pending), l),
        is_coalesced(ls, l, txid_start, one),
    ensures
        same_file(merged_all(blank(), ls.push(l)), applied_all(blank(), sealed + pending)),
        same_file(merged_all(blank(), seq![one]), applied_all(blank(), sealed + pending)),
{
    let before = merged_all(blank(), ls);
    assert(ls.push(l).drop_last() =~= ls);
    crate::sqlite::segment_replays_deltas(before, Some(base), pending, l);
    applied_split(blank(), sealed, pending);
    same_file_applied(before, applied_all(blank(), sealed), pending);
    coalescing_keeps_file(ls, l, txid_start, one);
    assert(seq![one].drop_last() =~= Seq::<LtxView>::empty());
    assert(merged_all(blank(), Seq::<LtxView>::empty()) == blank());
    assert(merged_all(blank(), seq![one]) == merged(blank(), one));
}

} // verus!

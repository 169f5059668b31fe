//! What syncs, checkpoints and restores of a database come to.
use vstd::prelude::*;

use crate::envelope::{NewEventView, Version};
use crate::error::{number_text, Error};
use crate::sqlite::{
    applied, applied_all, blank, built_all, file_byte, file_bytes, merged, overlay, ref_to, seals,
    start_after, BuilderView, CheckpointOpts, Delta, DeltaView, FrameView, ImageView, LtxView,
    ManifestView, PageMap, SegmentView,
};
use crate::sqlite::checkpoint::{contiguous, purge_floor, too_long};
use crate::sqlite::codec::{
    batch_size, batches, delta_form, delta_size, is_batch_event, packed, pages_form, pages_size,
    plain_delta, plain_frames,
};
use crate::sqlite::store::{
    all_read, deltas_in, fold_replays_batch, is_coalesced, merged_all, next_manifest, not_reached,
    reached, stages, usable, uses, window, Staged,
};
use crate::sqlite::wal::WalCursor;
use crate::table::views;

verus! {

// ---- restore --------------------------------------------------------------

proof fn ends_rise(m: ManifestView, last: u64, i: int, j: int)
    requires
        contiguous(m, last),
        0 <= i <= j < m.segments.len(),
    ensures
        m.segments[i].txid_end <= m.segments[j].txid_end,
        i < j ==> m.segments[i].txid_end < m.segments[j].txid_start,
    decreases j,
{
    if i < j {
        ends_rise(m, last, i, j - 1);
        assert(m.segments[j].txid_start == m.segments[j - 1].txid_end + 1);
        assert(m.segments[j].txid_start <= m.segments[j].txid_end);
    }
}

/// Of a manifest without gaps, a restore uses every segment that ends at or
/// before its target, and no other.
pub proof fn restore_uses_every_ended_segment(m: ManifestView, last: u64, target: u64, n: int)
    requires
        contiguous(m, last),
        uses(m, target, n),
    ensures
        forall|i: int|
            0 <= i < m.segments.len() ==> (i < n <==> (#[trigger] m.segments[i]).txid_end
                <= target),
        target >= last ==> n == m.segments.len(),
{
    assert forall|i: int| 0 <= i < m.segments.len() implies (i < n <==> (
    #[trigger] m.segments[i]).txid_end <= target) by {
        if i < n {
            assert(usable(m.segments[i], target));
        } else {
            ends_rise(m, last, n, i);
            assert(m.segments[n].txid_start <= m.segments[n].txid_end);
        }
    }
    if n < m.segments.len() {
        ends_rise(m, last, n, m.segments.len() - 1);
        assert(m.segments[n].txid_start <= m.segments[n].txid_end);
    }
}

/// A target that ends a segment is reached from the segments alone: with
/// nothing in the stream, the restore still ends at the target, and it has
/// merged the segments through that one.
pub proof fn segment_end_is_reached(
    m: ManifestView,
    last: u64,
    ls: Seq<LtxView>,
    i: int,
    n: int,
)
    requires
        contiguous(m, last),
        0 <= i < m.segments.len(),
        ls.len() == m.segments.len(),
        forall|j: int| 0 <= j < ls.len() ==> (#[trigger] ls[j]).txid_end == m.segments[j].txid_end,
        uses(m, m.segments[i].txid_end, n),
    ensures
        n == i + 1,
        reached(ls.take(n), Seq::empty(), m.segments[i].txid_end) == merged_all(
            blank(),
            ls.take(i + 1),
        ),
        reached(ls.take(n), Seq::empty(), m.segments[i].txid_end).txid == m.segments[i].txid_end,
{
    let target = m.segments[i].txid_end;
    restore_uses_every_ended_segment(m, last, target, n);
    if i + 1 < m.segments.len() {
        ends_rise(m, last, i, i + 1);
        assert(m.segments[i + 1].txid_start <= m.segments[i + 1].txid_end);
        assert(!(i + 1 < n));
    }
    assert(n == i + 1);
    assert(ls.take(n).last() == ls[i]);
}

/// What a restore takes from the stream: every transaction after the one that
/// the segments end at and up to the target, once, in the stream's order, and
/// nothing else.
pub proof fn restore_takes_missing_transactions(ds: Seq<DeltaView>, base: u64, target: u64)
    ensures
        forall|i: int|
            0 <= i < ds.len() && base < (#[trigger] ds[i]).txid <= target ==> window(
                ds,
                base,
                target,
            ).contains(ds[i]),
        forall|i: int|
            0 <= i < window(ds, base, target).len() ==> base < (#[trigger] window(
                ds,
                base,
                target,
            )[i]).txid <= target && ds.contains(window(ds, base, target)[i]),
        (forall|i: int, j: int|
            0 <= i < j < ds.len() ==> (#[trigger] ds[i]).txid < (#[trigger] ds[j]).txid)
            ==> forall|i: int, j: int|
            0 <= i < j < window(ds, base, target).len() ==> (#[trigger] window(
                ds,
                base,
                target,
            )[i]).txid < (#[trigger] window(ds, base, target)[j]).txid,
    decreases ds.len(),
{
    if ds.len() > 0 {
        let rest = ds.drop_last();
        restore_takes_missing_transactions(rest, base, target);
        let w = window(ds, base, target);
        let v = window(rest, base, target);
        assert forall|i: int|
            0 <= i < ds.len() && base < (#[trigger] ds[i]).txid <= target implies w.contains(
            ds[i],
        ) by {
            if i < rest.len() {
                assert(rest[i] == ds[i]);
                let j = choose|j: int| 0 <= j < v.len() && v[j] == ds[i];
                assert(w[j] == ds[i]);
            } else {
                assert(w[w.len() - 1] == ds[i]);
            }
        }
        assert forall|i: int| 0 <= i < w.len() implies base < (#[trigger] w[i]).txid <= target
            && ds.contains(w[i]) by {
            if i < v.len() {
                assert(w[i] == v[i]);
                let j = choose|j: int| 0 <= j < rest.len() && rest[j] == v[i];
                assert(ds[j] == w[i]);
            } else {
                assert(ds[ds.len() - 1] == w[i]);
            }
        }
        if forall|i: int, j: int|
            0 <= i < j < ds.len() ==> (#[trigger] ds[i]).txid < (#[trigger] ds[j]).txid {
            assert forall|i: int, j: int| 0 <= i < j < rest.len() implies (#[trigger] rest[i]).txid
                < (#[trigger] rest[j]).txid by {
                assert(ds[i].txid < ds[j].txid);
            }
            assert forall|i: int, j: int| 0 <= i < j < w.len() implies (#[trigger] w[i]).txid < (
            #[trigger] w[j]).txid by {
                assert(w[i] == v[i]);
                if j < v.len() {
                    assert(w[j] == v[j]);
                } else {
                    let k = choose|k: int| 0 <= k < rest.len() && rest[k] == v[i];
                    assert(ds[k].txid < ds[ds.len() - 1].txid);
                }
            }
        }
    }
}

// ---- pages and files ------------------------------------------------------

/// Of several frames of one page the last one counts; pages that no frame
/// names stay.
pub proof fn newest_frame_wins(m: PageMap, frames: Seq<FrameView>, p: u32)
    ensures
        forall|i: int|
            0 <= i < frames.len() && (#[trigger] frames[i]).pgno == p && (forall|j: int|
                i < j < frames.len() ==> (#[trigger] frames[j]).pgno != p) ==> overlay(
                m,
                frames,
            ).contains_key(p) && overlay(m, frames)[p] == frames[i].data,
        (forall|j: int| 0 <= j < frames.len() ==> (#[trigger] frames[j]).pgno != p) ==> (overlay(
            m,
            frames,
        ).contains_key(p) == m.contains_key(p)) && (m.contains_key(p) ==> overlay(m, frames)[p]
            == m[p]),
    decreases frames.len(),
{
    if frames.len() > 0 {
        let rest = frames.drop_last();
        newest_frame_wins(m, rest, p);
        assert forall|i: int|
            0 <= i < frames.len() && (#[trigger] frames[i]).pgno == p && (forall|j: int|
                i < j < frames.len() ==> (#[trigger] frames[j]).pgno != p) implies overlay(
            m,
            frames,
        ).contains_key(p) && overlay(m, frames)[p] == frames[i].data by {
            if i < rest.len() {
                assert(frames[frames.len() - 1].pgno != p);
                assert(rest[i] == frames[i]);
                assert forall|j: int| i < j < rest.len() implies (#[trigger] rest[j]).pgno != p by {
                    assert(frames[j].pgno != p);
                }
            }
        }
        if forall|j: int| 0 <= j < frames.len() ==> (#[trigger] frames[j]).pgno != p {
            assert forall|j: int| 0 <= j < rest.len() implies (#[trigger] rest[j]).pgno != p by {
                assert(frames[j].pgno != p);
            }
            assert(frames[frames.len() - 1].pgno != p);
        }
    }
}

/// An image takes size and number from the last transaction applied, and its
/// pages from the transactions, the last writer of each.
pub proof fn image_is_last_transaction(i: ImageView, ds: Seq<DeltaView>, d: DeltaView)
    ensures
        applied_all(i, ds.push(d)).txid == d.txid,
        applied_all(i, ds.push(d)).db_size == d.db_size,
        applied_all(i, ds.push(d)).page_size == d.page_size,
        forall|p: u32|
            (forall|j: int| 0 <= j < d.pages.len() ==> (#[trigger] d.pages[j]).pgno != p) ==> (
            #[trigger] applied_all(i, ds.push(d)).pages.contains_key(p) == applied_all(
                i,
                ds,
            ).pages.contains_key(p)) && (applied_all(i, ds).pages.contains_key(p) ==> applied_all(
                i,
                ds.push(d),
            ).pages[p] == applied_all(i, ds).pages[p]),
        forall|k: int|
            0 <= k < d.pages.len() && (forall|j: int|
                k < j < d.pages.len() ==> (#[trigger] d.pages[j]).pgno != d.pages[k].pgno)
                ==> applied_all(i, ds.push(d)).pages.contains_key((#[trigger] d.pages[k]).pgno)
                && applied_all(i, ds.push(d)).pages[d.pages[k].pgno] == d.pages[k].data,
{
    assert(ds.push(d).drop_last() =~= ds);
    let before = applied_all(i, ds);
    assert forall|p: u32|
        (forall|j: int| 0 <= j < d.pages.len() ==> (#[trigger] d.pages[j]).pgno != p) implies (
    #[trigger] applied_all(i, ds.push(d)).pages.contains_key(p) == before.pages.contains_key(p))
        && (before.pages.contains_key(p) ==> applied_all(i, ds.push(d)).pages[p]
        == before.pages[p]) by {
        newest_frame_wins(before.pages, d.pages, p);
    }
    assert forall|k: int|
        0 <= k < d.pages.len() && (forall|j: int|
            k < j < d.pages.len() ==> (#[trigger] d.pages[j]).pgno
                != d.pages[k].pgno) implies applied_all(i, ds.push(d)).pages.contains_key(
        (#[trigger] d.pages[k]).pgno,
    ) && applied_all(i, ds.push(d)).pages[d.pages[k].pgno] == d.pages[k].data by {
        newest_frame_wins(before.pages, d.pages, d.pages[k].pgno);
    }
}

/// A database file is its pages one after the other, page 1 first: `db_size`
/// of them, each `page_size` long, zeros where the image holds no bytes. Pages
/// past the end are not in it.
pub proof fn file_is_its_pages(i: ImageView, p: int)
    requires
        i.page_size > 0,
        1 <= p <= i.db_size,
    ensures
        file_bytes(i).len() == i.db_size * i.page_size,
        (p - 1) * i.page_size + i.page_size <= i.db_size * i.page_size,
        0 <= (p - 1) * i.page_size,
        i.pages.contains_key(p as u32) && i.pages[p as u32].len() == i.page_size ==> file_bytes(
            i,
        ).subrange((p - 1) * i.page_size, (p - 1) * i.page_size + i.page_size)
            == i.pages[p as u32],
        forall|o: int|
            0 <= o < i.page_size && !(i.pages.contains_key(p as u32) && o
                < i.pages[p as u32].len()) ==> file_bytes(i)[#[trigger] ((p - 1) * i.page_size
                + o)] == 0,
{
    let ps = i.page_size as int;
    assert((p - 1) * ps + ps <= i.db_size * ps && 0 <= (p - 1) * ps) by (nonlinear_arith)
        requires
            1 <= p <= i.db_size,
            ps > 0,
    ;
    let f = file_bytes(i);
    assert forall|o: int| 0 <= o < ps implies #[trigger] f[(p - 1) * ps + o] == (
    if i.pages.contains_key(p as u32) && o < i.pages[p as u32].len() {
        i.pages[p as u32][o]
    } else {
        0u8
    }) by {
        let k = (p - 1) * ps + o;
        vstd::arithmetic::div_mod::lemma_fundamental_div_mod_converse(k, ps, p - 1, o);
        assert(f[k] == file_byte(i, k));
    }
    if i.pages.contains_key(p as u32) && i.pages[p as u32].len() == i.page_size {
        let page = f.subrange((p - 1) * ps, (p - 1) * ps + ps);
        assert forall|o: int| 0 <= o < ps implies #[trigger] page[o] == i.pages[p as u32][o] by {
            assert(f[(p - 1) * ps + o] == i.pages[p as u32][o]);
        }
        assert(page =~= i.pages[p as u32]);
    }
}

// ---- syncs ----------------------------------------------------------------

/// A sync brings the image to the state after every captured transaction,
/// folded into one delta or not, counts them all, and moves the cursor by the
/// frames that they cover.
pub proof fn sync_applies_all(
    i: ImageView,
    s: Staged,
    txs: Seq<DeltaView>,
    cursor: WalCursor,
    frames: int,
    coalesce: bool,
)
    requires
        stages(s, txs, cursor, frames, coalesce),
        0 <= frames,
        cursor.frame + frames <= u64::MAX,
    ensures
        applied_all(i, views(s.deltas@)) == applied_all(i, txs),
        s.count == txs.len(),
        s.cursor.frame == cursor.frame + frames,
        s.cursor.salt1 == cursor.salt1,
        s.cursor.salt2 == cursor.salt2,
        !coalesce ==> views(s.deltas@) == txs,
        coalesce && txs.len() > 0 ==> s.deltas.len() == 1,
{
    if coalesce && txs.len() > 1 {
        let d = s.deltas@[0]@;
        fold_replays_batch(i, txs, d);
        assert(views(s.deltas@) =~= seq![d]);
        assert(seq![d].drop_last() =~= Seq::<DeltaView>::empty());
        assert(seq![d].last() == d);
        assert(applied_all(i, Seq::<DeltaView>::empty()) == i);
    }
}

proof fn pages_form_len(s: Seq<FrameView>)
    ensures
        pages_form(plain_frames(s)).len() == pages_size(s),
    decreases s.len(),
{
    if s.len() > 0 {
        pages_form_len(s.drop_last());
        assert(plain_frames(s).drop_last() =~= plain_frames(s.drop_last()));
        le_len(s.last().pgno as nat, 4);
        le_len(s.last().data.len(), 8);
    }
}

proof fn le_len(v: nat, n: nat)
    ensures
        crate::digits::le(v, n).len() == n,
    decreases n,
{
    if n > 0 {
        le_len(v / 256, (n - 1) as nat);
    }
}

/// The size that batching counts for a delta is the length of its encoding.
pub proof fn delta_size_is_encoded_length(d: DeltaView)
    ensures
        delta_form(plain_delta(d)).len() == delta_size(d),
{
    pages_form_len(d.pages);
    le_len(d.txid as nat, 8);
    le_len(d.page_size as nat, 4);
    le_len(d.db_size as nat, 4);
    le_len(d.pages.len(), 8);
}

/// Batches are filled before the next one is begun: the first delta of a batch
/// would have taken the one before it over the target.
pub proof fn batches_are_full(ds: Seq<DeltaView>)
    ensures
        forall|i: int|
            0 < i < batches(ds).len() ==> batch_size(batches(ds)[i - 1]) + delta_size(
                (#[trigger] batches(ds)[i]).first(),
            ) > crate::sqlite::codec::TXB_CHUNK,
        forall|i: int| 0 <= i < batches(ds).len() ==> (#[trigger] batches(ds)[i]).len() > 0,
        ds.len() > 0 ==> batches(ds).len() > 0,
        ds.len() == 0 ==> batches(ds).len() == 0,
    decreases ds.len(),
{
    if ds.len() > 0 {
        let rest = ds.drop_last();
        batches_are_full(rest);
        let bs = batches(rest);
        let next = batches(ds);
        assert forall|i: int| 0 < i < next.len() implies batch_size(next[i - 1]) + delta_size(
            (#[trigger] next[i]).first(),
        ) > crate::sqlite::codec::TXB_CHUNK by {
            if next.len() == bs.len() + 1 {
                assert(next[i - 1] == bs[i - 1]);
                if i < bs.len() {
                    assert(next[i] == bs[i]);
                }
            } else {
                assert(next[i - 1] == bs[i - 1]);
                assert(bs[i].len() > 0);
                assert(next[i].first() == bs[i].first());
            }
        }
    }
}

// ---- checkpoints ----------------------------------------------------------

/// A coalesced segment keeps no page that lies past the end of the file.
pub proof fn coalesced_pages_lie_in_file(
    older: Seq<LtxView>,
    newest: LtxView,
    txid_start: u64,
    l: LtxView,
)
    requires
        is_coalesced(older, newest, txid_start, l),
    ensures
        forall|i: int| 0 <= i < l.pages.len() ==> (#[trigger] l.pages[i]).pgno <= newest.db_size,
        l.txid_start == txid_start,
        l.txid_end == newest.txid_end,
        l.db_size == newest.db_size,
        l.page_size == newest.page_size,
        forall|i: int, j: int|
            0 <= i < j < l.pages.len() ==> (#[trigger] l.pages[i]).pgno < (
            #[trigger] l.pages[j]).pgno,
{
}

/// The purge that ends a checkpoint takes only what the checkpoint covers, and
/// all of it as far as a version has a successor; none is made unless asked.
pub proof fn purge_takes_what_is_covered(opts: CheckpointOpts, through: Version, v: Version)
    ensures
        purge_floor(opts, through) is Some <==> opts.purge,
        opts.purge && v < purge_floor(opts, through)->0 ==> v <= through,
        opts.purge && v <= through && v < u64::MAX ==> v < purge_floor(opts, through)->0,
{
}

/// A checkpoint adds its segment behind all others, or puts one in the place
/// of all of them and retires them and it. What was retired before goes.
pub proof fn checkpoint_updates_manifest(m: ManifestView, new_ref: SegmentView, one: SegmentView)
    ensures
        ({
            let (next, gone) = next_manifest(m, new_ref, None);
            &&& next.segments == m.segments + seq![new_ref]
            &&& next.retire.len() == 0
            &&& gone == m.retire
        }),
        ({
            let (next, gone) = next_manifest(m, new_ref, Some(one));
            &&& next.segments == seq![one]
            &&& next.retire.len() == m.segments.len() + 1
            &&& next.retire.last() == new_ref.path
            &&& forall|i: int|
                0 <= i < m.segments.len() ==> #[trigger] next.retire[i] == m.segments[i].path
            &&& gone == m.retire
        }),
{
    assert(m.segments.push(new_ref) =~= m.segments + seq![new_ref]);
}

/// A segment leaves the number, the sizes and the pages that it ends with; the
/// image before it shows only where the segment names no page.
pub proof fn segment_overwrites(i: ImageView, l: LtxView, p: u32)
    ensures
        merged(i, l).txid == l.txid_end,
        merged(i, l).db_size == l.db_size,
        merged(i, l).page_size == l.page_size,
        (forall|j: int| 0 <= j < l.pages.len() ==> (#[trigger] l.pages[j]).pgno != p) ==> merged(
            i,
            l,
        ).pages.contains_key(p) == i.pages.contains_key(p) && (i.pages.contains_key(p) ==> merged(
            i,
            l,
        ).pages[p] == i.pages[p]),
        forall|k: int|
            0 <= k < l.pages.len() && (forall|j: int|
                k < j < l.pages.len() ==> (#[trigger] l.pages[j]).pgno != l.pages[k].pgno)
                ==> merged(i, l).pages.contains_key((#[trigger] l.pages[k]).pgno) && merged(
                i,
                l,
            ).pages[l.pages[k].pgno] == l.pages[k].data,
{
    newest_frame_wins(i.pages, l.pages, p);
    assert forall|k: int|
        0 <= k < l.pages.len() && (forall|j: int|
            k < j < l.pages.len() ==> (#[trigger] l.pages[j]).pgno
                != l.pages[k].pgno) implies merged(i, l).pages.contains_key(
        (#[trigger] l.pages[k]).pgno,
    ) && merged(i, l).pages[l.pages[k].pgno] == l.pages[k].data by {
        newest_frame_wins(i.pages, l.pages, l.pages[k].pgno);
    }
}

/// A segment starts right after what the manifest covers, or, where that lies at
/// or past its first transaction or is unknown, at that transaction.
pub proof fn segment_starts_after_base(base: u64, txid: u64)
    ensures
        base < txid ==> start_after(Some(base), txid) == base + 1,
        base >= txid ==> start_after(Some(base), txid) == txid,
        start_after(None, txid) == txid,
{
}

/// The fold of a run of transactions ends at the last one, with its sizes, and
/// keeps where it started.
pub proof fn fold_ends_at_last_transaction(b: BuilderView, ds: Seq<DeltaView>, d: DeltaView)
    ensures
        ({
            let before = built_all(b, ds);
            let r = built_all(b, ds.push(d));
            &&& r.txid_end == d.txid
            &&& r.db_size == d.db_size
            &&& r.page_size == d.page_size
            &&& r.base == before.base
            &&& r.pages == overlay(before.pages, d.pages)
            &&& before.txid_start is Some ==> r.txid_start == before.txid_start
            &&& before.txid_start is None ==> r.txid_start == Some(
                start_after(before.base, d.txid),
            )
            &&& built_all(b, Seq::empty()) == b
        }),
{
    assert(ds.push(d).drop_last() =~= ds);
}

/// A sealed segment holds the fold: its ends, its sizes, and each of its pages
/// once, by number.
pub proof fn seal_holds_the_fold(b: BuilderView, l: LtxView)
    requires
        seals(b, l),
    ensures
        b.txid_start == Some(l.txid_start),
        l.txid_end == b.txid_end,
        l.page_size == b.page_size,
        l.db_size == b.db_size,
        forall|i: int, j: int|
            0 <= i < j < l.pages.len() ==> (#[trigger] l.pages[i]).pgno < (
            #[trigger] l.pages[j]).pgno,
        forall|i: int|
            0 <= i < l.pages.len() ==> b.pages.contains_key((#[trigger] l.pages[i]).pgno)
                && b.pages[l.pages[i].pgno] == l.pages[i].data,
        forall|p: u32| #[trigger]
            b.pages.contains_key(p) ==> exists|i: int|
                0 <= i < l.pages.len() && (#[trigger] l.pages[i]).pgno == p,
{
    assert forall|p: u32| #[trigger] b.pages.contains_key(p) implies exists|i: int|
        0 <= i < l.pages.len() && (#[trigger] l.pages[i]).pgno == p by {
        let i = choose|i: int| 0 <= i < l.pages.len() && #[trigger] l.pages[i].pgno == p;
        assert(l.pages[i].pgno == p);
    }
}

/// The deltas of decoded events come in the order of the events, and within each
/// in its own.
pub proof fn events_give_deltas_in_order(
    evs: Seq<Result<Vec<Delta>, Error>>,
    e: Result<Vec<Delta>, Error>,
)
    ensures
        deltas_in(Seq::empty()).len() == 0,
        e is Ok ==> deltas_in(evs.push(e)) == deltas_in(evs) + views(e->Ok_0@),
        all_read(evs.push(e)) <==> all_read(evs) && e is Ok,
{
    assert(evs.push(e).drop_last() =~= evs);
    assert(evs.push(e)[evs.len() as int] == e);
    if all_read(evs.push(e)) {
        assert forall|i: int| 0 <= i < evs.len() implies (#[trigger] evs[i]) is Ok by {
            assert(evs.push(e)[i] == evs[i]);
        }
    }
    if all_read(evs) && e is Ok {
        assert forall|i: int| 0 <= i < evs.len() + 1 implies (#[trigger] evs.push(e)[i]) is Ok by {
            if i < evs.len() {
                assert(evs[i] is Ok);
            }
        }
    }
}

/// The reference to a segment says what it covers, its sizes and where it is.
pub proof fn reference_describes_segment(l: LtxView, path: Seq<char>)
    ensures
        ref_to(l, path).path == path,
        ref_to(l, path).txid_start == l.txid_start,
        ref_to(l, path).txid_end == l.txid_end,
        ref_to(l, path).page_size == l.page_size,
        ref_to(l, path).db_size == l.db_size,
{
}

/// A batch event carries its deltas packed, under its own type and without
/// metadata.
pub proof fn batch_event_carries_batch(e: NewEventView, batch: Seq<DeltaView>)
    requires
        is_batch_event(e, batch),
    ensures
        e.event_type == "txb"@,
        e.data == packed(batch),
        e.metadata.len() == 0,
{
}

/// What a restore that falls short says: the target, and how far it came.
pub proof fn short_restore_says_how_far(target: u64, at: u64)
    ensures
        not_reached(target, at) == "txid "@ + number_text(target as nat)
            + " is not reconstructable (beyond tail or purged by retention); reached txid "@
            + number_text(at as nat),
{
}

/// A checkpoint folds all segments into one exactly if there would be more of
/// them than the limit; so no manifest gets longer than that.
pub proof fn long_manifest_is_folded(
    m: ManifestView,
    new_ref: SegmentView,
    one: SegmentView,
    opts: CheckpointOpts,
)
    ensures
        ({
            let fold = too_long(m, opts);
            let next = next_manifest(
                m,
                new_ref,
                if fold {
                    Some(one)
                } else {
                    None
                },
            ).0;
            &&& fold ==> m.segments.len() >= opts.coalesce_at
            &&& !fold ==> m.segments.len() < opts.coalesce_at
            &&& opts.coalesce_at >= 1 ==> next.segments.len() <= opts.coalesce_at
        }),
{
}

} // verus!

//! Reads and writes through a file handle.
use vstd::prelude::*;

use crate::fuse::{apply_delta, splice, Nodes};
use crate::fuse::consistency::run;
use crate::fuse::ops::{
    attr_change, clip_all, clipped, fh_key, flush_batch, flush_lands_inline, flush_lands_on_blocks,
    laid_over, seen_byte, spliced, taken_extents, taken_path, time_set, Extents, HandleView,
    SetTime,
};
use crate::table::views;
use crate::text::utf8;

verus! {

/// A write puts its bytes at its offset, keeps every other byte of the file,
/// and fills what lies between the old end and the offset with zeros; the file
/// ends where it ended, or where the write ends, whichever is further.
pub proof fn write_places_bytes(b: Seq<u8>, offset: int, data: Seq<u8>)
    requires
        0 <= offset,
    ensures
        splice(b, offset, data).len() >= b.len(),
        splice(b, offset, data).len() >= offset + data.len(),
        splice(b, offset, data).len() == b.len() || splice(b, offset, data).len() == offset
            + data.len(),
        splice(b, offset, data).subrange(offset, offset + data.len()) == data,
        forall|i: int|
            0 <= i < b.len() && !(offset <= i < offset + data.len()) ==> #[trigger] splice(
                b,
                offset,
                data,
            )[i] == b[i],
        forall|i: int| b.len() <= i < offset ==> #[trigger] splice(b, offset, data)[i] == 0,
{
    assert(splice(b, offset, data).subrange(offset, offset + data.len()) =~= data);
}

/// A second write over a first one: where both reach, the second one's bytes
/// are read.
pub proof fn later_write_wins(b: Seq<u8>, extents: Extents, offset: u64, data: Seq<u8>)
    ensures
        spliced(b, extents.push((offset, data))).subrange(
            offset as int,
            offset + data.len(),
        ) == data,
        forall|i: int|
            0 <= i < spliced(b, extents).len() && !(offset <= i < offset + data.len())
                ==> #[trigger] spliced(b, extents.push((offset, data)))[i] == spliced(
                b,
                extents,
            )[i],
        spliced(b, Seq::empty()) == b,
{
    assert(extents.push((offset, data)).drop_last() =~= extents);
    write_places_bytes(spliced(b, extents), offset as int, data);
}

/// A handle that stages one more extent reads that extent's bytes wherever it
/// covers the range, and what it read before everywhere else. Nothing staged
/// leaves the fetched bytes as they are.
pub proof fn handle_reads_last_write(buf: Seq<u8>, offset: u64, extents: Extents, off: u64, d: Seq<u8>)
    ensures
        laid_over(buf, offset, Seq::empty()) == buf,
        laid_over(buf, offset, extents).len() == buf.len(),
        forall|k: int|
            0 <= k < buf.len() && off <= offset + k < off + d.len() ==> #[trigger] laid_over(
                buf,
                offset,
                extents.push((off, d)),
            )[k] == d[offset + k - off],
        forall|k: int|
            0 <= k < buf.len() && !(off <= offset + k < off + d.len()) ==> #[trigger] laid_over(
                buf,
                offset,
                extents.push((off, d)),
            )[k] == laid_over(buf, offset, extents)[k],
{
    assert(extents.push((off, d)).drop_last() =~= extents);
    assert(laid_over(buf, offset, Seq::empty()) =~= buf);
}

/// Writing never shortens a file.
proof fn spliced_grows(content: Seq<u8>, extents: Extents)
    ensures
        spliced(content, extents).len() >= content.len(),
    decreases extents.len(),
{
    if extents.len() > 0 {
        spliced_grows(content, extents.drop_last());
    }
}

proof fn seen_is_spliced(content: Seq<u8>, extents: Extents, k: int)
    requires
        0 <= k < content.len(),
    ensures
        k < spliced(content, extents).len(),
        seen_byte(content[k], k, extents) == spliced(content, extents)[k],
    decreases extents.len(),
{
    spliced_grows(content, extents);
    if extents.len() > 0 {
        spliced_grows(content, extents.drop_last());
        seen_is_spliced(content, extents.drop_last(), k);
    }
}

/// What a handle reads before its flush is what the file reads after it: the
/// file's bytes from `offset` on, seen through the staged extents, are the same
/// range of the file with the extents written to it in order.
pub proof fn handle_reads_what_flush_writes(
    content: Seq<u8>,
    extents: Extents,
    offset: u64,
    len: nat,
)
    requires
        offset + len <= content.len(),
    ensures
        offset + len <= spliced(content, extents).len(),
        laid_over(content.subrange(offset as int, offset + len), offset, extents) == spliced(
            content,
            extents,
        ).subrange(offset as int, offset + len),
{
    spliced_grows(content, extents);
    let b = content.subrange(offset as int, offset + len);
    assert forall|i: int| 0 <= i < len implies #[trigger] laid_over(b, offset, extents)[i]
        == spliced(content, extents)[offset + i] by {
        seen_is_spliced(content, extents, offset + i);
        assert(b[i] == content[offset + i]);
    }
    assert(laid_over(b, offset, extents) =~= spliced(content, extents).subrange(
        offset as int,
        offset + len,
    ));
}

/// What a flush leaves: the file holds its old bytes with the staged extents
/// written over them in order, is dated anew, and nothing else changes. So a
/// read of the handle before the flush gives the bytes of the file after it.
pub proof fn flush_leaves_what_was_read(
    nodes: Nodes,
    path: Seq<u8>,
    content: Seq<u8>,
    extents: Extents,
    now: i64,
    offset: u64,
    len: nat,
)
    requires
        nodes.contains_key(path),
        nodes[path] is File,
        nodes[path]->File_content is Inline ==> content == nodes[path]->File_content->Inline_0,
        offset + len <= content.len(),
    ensures
        ({
            let r = run(nodes, flush_batch(nodes, path, extents, content, now), now);
            let b = r[path]->File_content->Inline_0;
            &&& r.contains_key(path) && r[path] is File && r[path]->File_content is Inline
            &&& offset + len <= b.len()
            &&& b.subrange(offset as int, offset + len) == laid_over(
                content.subrange(offset as int, offset + len),
                offset,
                extents,
            )
            &&& r[path].meta().mtime_ms == now
            &&& r[path].meta().mode == nodes[path].meta().mode
            &&& r[path].meta().uid == nodes[path].meta().uid
            &&& r[path].meta().gid == nodes[path].meta().gid
            &&& r[path].meta().xattrs == nodes[path].meta().xattrs
            &&& forall|k: Seq<u8>|
                k != path ==> #[trigger] r.contains_key(k) == nodes.contains_key(k) && (
                nodes.contains_key(k) ==> r[k] == nodes[k])
        }),
{
    if nodes[path]->File_content is Inline {
        flush_lands_inline(nodes, path, extents, content, content, nodes[path].meta(), now);
    } else {
        flush_lands_on_blocks(nodes, path, extents, content, now);
    }
    handle_reads_what_flush_writes(content, extents, offset, len);
}

/// Cutting staged extents to a size: what they show below the size stays, and
/// at or past it they show nothing any more.
pub proof fn clipping_keeps_what_fits(extents: Extents, size: u64, base: u8, k: int)
    requires
        0 <= k,
    ensures
        k < size ==> seen_byte(base, k, clip_all(extents, size)) == seen_byte(base, k, extents),
        k >= size ==> seen_byte(base, k, clip_all(extents, size)) == base,
    decreases extents.len(),
{
    if extents.len() > 0 {
        let rest = extents.drop_last();
        clipping_keeps_what_fits(rest, size, base, k);
        let (off, d) = extents.last();
        let before = clip_all(rest, size);
        if off < size {
            if d.len() <= size - off {
                assert(before.push((off, d)).drop_last() =~= before);
            } else {
                assert(before.push((off, d.take(size - off))).drop_last() =~= before);
            }
        }
    }
}

/// A file that is cut to a size under open handles: each handle of that inode
/// reads as if it had written before the cut; other handles are untouched.
pub proof fn cut_reaches_handles(m: Map<Seq<u8>, HandleView>, ino: u64, size: u64, h: Seq<u8>)
    requires
        m.contains_key(h),
    ensures
        clipped(m, ino, size).contains_key(h),
        forall|g: Seq<u8>| #[trigger] clipped(m, ino, size).contains_key(g) ==> m.contains_key(g),
        clipped(m, ino, size)[h].ino == m[h].ino,
        m[h].ino != ino ==> clipped(m, ino, size)[h] == m[h],
        m[h].ino == ino ==> forall|b: Seq<u8>, offset: u64, k: int|
            #![trigger laid_over(b, offset, clipped(m, ino, size)[h].extents)[k]]
            0 <= k < b.len() ==> laid_over(b, offset, clipped(m, ino, size)[h].extents)[k] == (if offset
                + k < size {
                laid_over(b, offset, m[h].extents)[k]
            } else {
                b[k]
            }),
{
    if m[h].ino == ino {
        assert forall|b: Seq<u8>, offset: u64, k: int|
            #![trigger laid_over(b, offset, clipped(m, ino, size)[h].extents)[k]]
            0 <= k < b.len() implies laid_over(
            b,
            offset,
            clipped(m, ino, size)[h].extents,
        )[k] == (if offset + k < size {
            laid_over(b, offset, m[h].extents)[k]
        } else {
            b[k]
        }) by {
            clipping_keeps_what_fits(m[h].extents, size, b[k], offset + k);
        }
    }
}

/// No extent that is left begins at the size or reaches past it.
pub proof fn clipped_extents_end_in_file(extents: Extents, size: u64)
    ensures
        forall|i: int|
            0 <= i < clip_all(extents, size).len() ==> (#[trigger] clip_all(extents, size)[i]).0
                < size && clip_all(extents, size)[i].0 + clip_all(extents, size)[i].1.len() <= size,
    decreases extents.len(),
{
    if extents.len() > 0 {
        let rest = extents.drop_last();
        clipped_extents_end_in_file(rest, size);
        let before = clip_all(rest, size);
        let now = clip_all(extents, size);
        assert forall|i: int| 0 <= i < now.len() implies (#[trigger] now[i]).0 < size && now[i].0
            + now[i].1.len() <= size by {
            if i < before.len() {
                assert(now[i] == before[i]);
            }
        }
    }
}

/// The time that a request sets: the one given, the clock's where it asks for
/// that or changes the size, else none.
pub proof fn time_follows_request(millis: u128, resized: bool, now: i64)
    ensures
        millis <= i64::MAX ==> time_set(Some(SetTime::At(Some(millis))), resized, now) == Some(
            millis as i64,
        ),
        time_set(Some(SetTime::At(None)), resized, now) == Some(0i64),
        time_set(Some(SetTime::Now), resized, now) == Some(now),
        time_set(None, true, now) == Some(now),
        time_set(None, false, now) is None,
{
}

/// A change of attributes is made exactly if one is given. It then sets those
/// and keeps the others; of a mode the permission bits are taken.
pub proof fn change_sets_what_is_given(
    nodes: Nodes,
    path: Seq<u8>,
    mode: Option<u32>,
    uid: Option<u32>,
    gid: Option<u32>,
    mtime_ms: Option<i64>,
    now: i64,
)
    requires
        nodes.contains_key(path),
    ensures
        ({
            let d = attr_change(path, mode, uid, gid, mtime_ms);
            let r = apply_delta(nodes, d->0, now);
            let old = nodes[path].meta();
            let new = r[path].meta();
            &&& d is None <==> mode is None && uid is None && gid is None && mtime_ms is None
            &&& d is Some ==> {
                &&& r.contains_key(path)
                &&& new.mode == match mode {
                    Some(m) => m % 0x1000,
                    None => old.mode,
                }
                &&& new.uid == match uid {
                    Some(u) => u,
                    None => old.uid,
                }
                &&& new.gid == match gid {
                    Some(g) => g,
                    None => old.gid,
                }
                &&& new.mtime_ms == match mtime_ms {
                    Some(t) => t,
                    None => old.mtime_ms,
                }
                &&& new.xattrs == old.xattrs
                &&& forall|k: Seq<u8>|
                    k != path ==> #[trigger] r.contains_key(k) == nodes.contains_key(k) && (
                    nodes.contains_key(k) ==> r[k] == nodes[k])
            }
        }),
{
    if mode is Some {
        let m: u32 = mode->0;
        assert(m & 0xfff == m % 0x1000) by (bit_vector);
    }
}

/// Extents are cut one by one, in order: one that begins before the size stays,
/// with the bytes that fit.
pub proof fn extents_are_cut_in_order(extents: Extents, size: u64, off: u64, d: Seq<u8>)
    ensures
        clip_all(Seq::empty(), size).len() == 0,
        off >= size ==> clip_all(extents.push((off, d)), size) == clip_all(extents, size),
        off < size && off + d.len() <= size ==> clip_all(extents.push((off, d)), size) == clip_all(
            extents,
            size,
        ).push((off, d)),
        off < size && off + d.len() > size ==> clip_all(extents.push((off, d)), size) == clip_all(
            extents,
            size,
        ).push((off, d.take(size - off))),
{
    assert(extents.push((off, d)).drop_last() =~= extents);
}

/// Handles are kept apart by their numbers.
pub proof fn handles_are_kept_apart(a: u64, b: u64)
    ensures
        fh_key(a) == fh_key(b) <==> a == b,
{
    crate::digits::be8_roundtrip(a);
    crate::digits::be8_roundtrip(b);
}

/// What is taken from a handle is its path and its extents.
pub proof fn taken_is_path_and_extents(path: String, extents: Vec<(u64, Vec<u8>)>)
    ensures
        taken_path(Some((path, extents))) == utf8(path@),
        taken_extents(Some((path, extents))) == views(extents@),
{
}

} // verus!

//! What the deltas of a volume do to its image, and what is kept of it.
use vstd::prelude::*;

use crate::fuse::{
    apply_delta, below, buried, in_tree, merged, moved_to, rename, splice, total_len, BlockView,
    Changes, ContentView, DataView, DeltaView, MetaView, NodeView, Nodes, Segment,
};
use crate::fuse::checkpoint::replay;
use crate::fuse::commit::{blockified, cover, inline_bytes, is_big, stage, staged, swept, StageView};
use crate::fuse::consistency::run;
use crate::fuse::moves::{apart, relocated, rename_moves_tree, vacant};
use crate::fuse::ops::birth;
use crate::fuse::store::{
    all_cached, block_reads_give_content, blocks_of, changes_of, chunks, chunks_partition, clip,
    extent_write, file_bytes, file_put, file_read, merge_all, overlaps, read_outcome, resized,
    serves, sha256_text, truncated, truncation, upload_list, ReadStep,
};
use crate::order::{after, has_prefix};
use crate::table::{any_key, is_listing, listing, listing_exists};
use crate::text::utf8;

verus! {

// ---- single deltas --------------------------------------------------------

/// Two images agree away from `path`.
pub open spec fn same_but(a: Nodes, b: Nodes, path: Seq<u8>) -> bool {
    forall|k: Seq<u8>|
        k != path ==> #[trigger] a.contains_key(k) == b.contains_key(k) && (a.contains_key(k)
            ==> a[k] == b[k])
}

/// What a node holds beside its metadata is the same.
pub open spec fn same_body(a: NodeView, b: NodeView) -> bool {
    match (a, b) {
        (NodeView::File { content: x, .. }, NodeView::File { content: y, .. }) => x == y,
        (NodeView::Dir { .. }, NodeView::Dir { .. }) => true,
        (NodeView::Symlink { target: x, .. }, NodeView::Symlink { target: y, .. }) => x == y,
        _ => false,
    }
}

/// A change of attributes sets the ones given and keeps the others, the
/// extended ones and the content; where nothing stands it changes nothing.
pub proof fn attributes_change(
    nodes: Nodes,
    path: Seq<u8>,
    mode: Option<u32>,
    uid: Option<u32>,
    gid: Option<u32>,
    mtime_ms: Option<i64>,
    now: i64,
)
    ensures
        ({
            let r = apply_delta(
                nodes,
                DeltaView::SetAttr { path, mode, uid, gid, mtime_ms },
                now,
            );
            let old = nodes[path].meta();
            let new = r[path].meta();
            &&& same_but(r, nodes, path)
            &&& r.contains_key(path) == nodes.contains_key(path)
            &&& nodes.contains_key(path) ==> {
                &&& same_body(r[path], nodes[path])
                &&& new.mode == match mode {
                    Some(m) => m,
                    None => old.mode,
                }
                &&& new.uid == match uid {
                    Some(u) => u,
                    None => old.uid,
                }
                &&& new.gid == match gid {
                    Some(g) => g,
                    None => old.gid,
                }
                &&& new.mtime_ms == match mtime_ms {
                    Some(t) => t,
                    None => old.mtime_ms,
                }
                &&& new.xattrs == old.xattrs
            }
        }),
{
}

/// Setting an extended attribute gives it that value, or takes it away, and
/// changes nothing else.
pub proof fn extended_attribute_changes(
    nodes: Nodes,
    path: Seq<u8>,
    name: Seq<u8>,
    value: Option<Seq<u8>>,
    other: Seq<u8>,
    now: i64,
)
    ensures
        ({
            let r = apply_delta(nodes, DeltaView::SetXattr { path, name, value }, now);
            let old = nodes[path].meta();
            let new = r[path].meta();
            &&& same_but(r, nodes, path)
            &&& r.contains_key(path) == nodes.contains_key(path)
            &&& nodes.contains_key(path) ==> {
                &&& same_body(r[path], nodes[path])
                &&& new.mode == old.mode && new.uid == old.uid && new.gid == old.gid
                    && new.mtime_ms == old.mtime_ms
                &&& value is Some ==> new.xattrs.contains_key(name) && new.xattrs[name] == value->0
                &&& value is None ==> !new.xattrs.contains_key(name)
                &&& other != name ==> new.xattrs.contains_key(other) == old.xattrs.contains_key(
                    other,
                ) && (old.xattrs.contains_key(other) ==> new.xattrs[other] == old.xattrs[other])
            }
        }),
{
}

/// A write of bytes leaves a file there with the bytes in place, at the offset,
/// over what the file held; a file keeps its metadata, and a new one is plain.
pub proof fn write_lands(nodes: Nodes, path: Seq<u8>, offset: u64, data: Seq<u8>, now: i64)
    ensures
        ({
            let r = apply_delta(
                nodes,
                DeltaView::Write { path, offset, data: DataView::Inline(data) },
                now,
            );
            let held = match nodes[path] {
                NodeView::File { content: ContentView::Inline(b), .. } => if nodes.contains_key(
                    path,
                ) {
                    b
                } else {
                    Seq::empty()
                },
                _ => Seq::empty(),
            };
            &&& same_but(r, nodes, path)
            &&& r.contains_key(path)
            &&& r[path] is File
            &&& r[path]->File_content == ContentView::Inline(splice(held, offset as int, data))
            &&& nodes.contains_key(path) && nodes[path] is File ==> r[path].meta()
                == nodes[path].meta()
            &&& !(nodes.contains_key(path) && nodes[path] is File) ==> r[path].meta() == (
            MetaView { mode: 0x1a4, uid: 0, gid: 0, mtime_ms: now, xattrs: Map::empty() })
        }),
{
}

/// A write of blocks replaces the content: the blocks, and as the size the sum
/// of their lengths. Metadata stays.
pub proof fn block_write_replaces(
    nodes: Nodes,
    path: Seq<u8>,
    offset: u64,
    blocks: Seq<BlockView>,
    now: i64,
)
    requires
        total_len(blocks) <= u64::MAX,
    ensures
        ({
            let r = apply_delta(
                nodes,
                DeltaView::Write { path, offset, data: DataView::Blocks(blocks) },
                now,
            );
            &&& same_but(r, nodes, path)
            &&& r.contains_key(path)
            &&& r[path] is File
            &&& r[path]->File_content is Blocks
            &&& r[path]->File_content->blocks == blocks
            &&& r[path]->File_content->size == total_len(blocks)
            &&& nodes.contains_key(path) ==> r[path].meta() == nodes[path].meta()
            &&& !nodes.contains_key(path) ==> r[path].meta() == (MetaView {
                mode: 0x1a4,
                uid: 0,
                gid: 0,
                mtime_ms: now,
                xattrs: Map::empty(),
            })
        }),
{
}

/// The total of a list of blocks is the sum of their lengths.
pub proof fn total_is_sum(blocks: Seq<BlockView>, b: BlockView)
    ensures
        total_len(Seq::empty()) == 0,
        total_len(blocks.push(b)) == total_len(blocks) + b.len,
{
    assert(blocks.push(b).drop_last() =~= blocks);
}

/// Making a directory where nothing stands leaves an empty one with the usual
/// mode; where something stands it changes nothing. A link replaces what stands
/// there.
pub proof fn nodes_are_made(nodes: Nodes, path: Seq<u8>, target: Seq<char>, now: i64)
    ensures
        ({
            let d = apply_delta(nodes, DeltaView::Mkdir { path }, now);
            let l = apply_delta(nodes, DeltaView::Symlink { path, target }, now);
            &&& same_but(d, nodes, path)
            &&& same_but(l, nodes, path)
            &&& d.contains_key(path) && l.contains_key(path)
            &&& nodes.contains_key(path) ==> d[path] == nodes[path]
            &&& !nodes.contains_key(path) ==> d[path] is Dir && d[path].meta() == (MetaView {
                mode: 0x1ed,
                uid: 0,
                gid: 0,
                mtime_ms: now,
                xattrs: Map::empty(),
            })
            &&& l[path] is Symlink && l[path]->target == target && l[path].meta() == (MetaView {
                mode: 0x1ff,
                uid: 0,
                gid: 0,
                mtime_ms: now,
                xattrs: Map::empty(),
            })
        }),
{
}

/// A removal takes away the node and everything whose path goes on with a slash
/// behind its own, and nothing else.
pub proof fn removal_takes_the_tree(nodes: Nodes, path: Seq<u8>, k: Seq<u8>, now: i64)
    ensures
        ({
            let r = apply_delta(nodes, DeltaView::Remove { path }, now);
            let slashed = path + seq![0x2fu8];
            let inside = k == path || (k.len() >= slashed.len() && k.take(slashed.len() as int)
                == slashed);
            &&& r.contains_key(k) <==> nodes.contains_key(k) && !inside
            &&& r.contains_key(k) ==> r[k] == nodes[k]
        }),
{
    let slashed = path + seq![0x2fu8];
    assert(below(path) =~= slashed);
    if k.len() >= slashed.len() {
        assert(k.subrange(0, slashed.len() as int) =~= k.take(slashed.len() as int));
    }
}

/// A rename of a tree to a free place: what stood at the path, or at it and a
/// slash and more, stands at the new path with the same rest, and the old place
/// is empty. Whatever stands outside both trees stays.
pub proof fn rename_moves_each_node(
    nodes: Nodes,
    f: Seq<u8>,
    t: Seq<u8>,
    rest: Seq<u8>,
    k: Seq<u8>,
    now: i64,
)
    requires
        nodes.dom().finite(),
        apart(f, t),
        vacant(nodes, t),
    ensures
        ({
            let r = apply_delta(nodes, DeltaView::Rename { from: f, to: t }, now);
            let slash = seq![0x2fu8];
            &&& r.contains_key(t) == nodes.contains_key(f)
            &&& nodes.contains_key(f) ==> r[t] == nodes[f]
            &&& !r.contains_key(f)
            &&& r.contains_key(t + slash + rest) == nodes.contains_key(f + slash + rest)
            &&& nodes.contains_key(f + slash + rest) ==> r[t + slash + rest] == nodes[f + slash
                + rest]
            &&& !r.contains_key(f + slash + rest)
            &&& !in_tree(k, f) && !in_tree(k, t) ==> r.contains_key(k) == nodes.contains_key(k) && (
            nodes.contains_key(k) ==> r[k] == nodes[k])
        }),
{
    rename_moves_tree(nodes, f, t);
    let r = rename(nodes, f, t);
    let slash = seq![0x2fu8];
    let new = t + slash + rest;
    let old = f + slash + rest;
    assert(new =~= below(t) + rest);
    assert(old =~= below(f) + rest);
    crate::order::lemma_prefix_of_concat(below(t), rest);
    crate::order::lemma_prefix_of_concat(below(f), rest);
    assert(in_tree(new, t) && in_tree(t, t) && in_tree(f, f) && in_tree(old, f));
    assert(relocated(t, t, f) == f);
    assert(new != t) by {
        assert(new.len() > t.len());
    }
    assert(relocated(new, t, f) == moved_to(new, t, f));
    assert(after(new, below(t).len() as int) =~= rest);
    assert(relocated(new, t, f) =~= old);
    assert(r.contains_key(t) == nodes.contains_key(relocated(t, t, f)));
    assert(r.contains_key(new) == nodes.contains_key(relocated(new, t, f)));
    assert(apply_delta(nodes, DeltaView::Rename { from: f, to: t }, now) == r);
    assert(!r.contains_key(f));
    assert(!r.contains_key(old));
    if !in_tree(k, f) && !in_tree(k, t) {
        assert(r.contains_key(k) == nodes.contains_key(k));
    }
}

// ---- births ---------------------------------------------------------------

/// A new directory, file or link has the owner given; a directory and a file
/// have the mode given, an empty file is empty, and a link leads to its target.
/// Nothing else changes.
pub proof fn birth_gives_attributes(
    nodes: Nodes,
    path: Seq<u8>,
    target: Seq<char>,
    mode: u32,
    uid: u32,
    gid: u32,
    a: i64,
    b: i64,
)
    requires
        !nodes.contains_key(path),
    ensures
        ({
            let dir = birth(DeltaView::Mkdir { path }, path, Some(mode), uid, gid);
            let file = birth(
                DeltaView::Write { path, offset: 0, data: DataView::Inline(Seq::empty()) },
                path,
                Some(mode),
                uid,
                gid,
            );
            let link = birth(DeltaView::Symlink { path, target }, path, None, uid, gid);
            let d = apply_delta(apply_delta(nodes, dir[0], a), dir[1], b);
            let f = apply_delta(apply_delta(nodes, file[0], a), file[1], b);
            let l = apply_delta(apply_delta(nodes, link[0], a), link[1], b);
            &&& dir.len() == 2 && file.len() == 2 && link.len() == 2
            &&& d == nodes.insert(
                path,
                NodeView::Dir {
                    meta: MetaView { mode, uid, gid, mtime_ms: a, xattrs: Map::empty() },
                },
            )
            &&& f == nodes.insert(
                path,
                NodeView::File {
                    content: ContentView::Inline(Seq::empty()),
                    meta: MetaView { mode, uid, gid, mtime_ms: a, xattrs: Map::empty() },
                },
            )
            &&& l == nodes.insert(
                path,
                NodeView::Symlink {
                    target,
                    meta: MetaView { mode: 0x1ff, uid, gid, mtime_ms: a, xattrs: Map::empty() },
                },
            )
        }),
{
    let dir = birth(DeltaView::Mkdir { path }, path, Some(mode), uid, gid);
    let file = birth(
        DeltaView::Write { path, offset: 0, data: DataView::Inline(Seq::empty()) },
        path,
        Some(mode),
        uid,
        gid,
    );
    let link = birth(DeltaView::Symlink { path, target }, path, None, uid, gid);
    assert(apply_delta(apply_delta(nodes, dir[0], a), dir[1], b) =~= nodes.insert(
        path,
        NodeView::Dir { meta: MetaView { mode, uid, gid, mtime_ms: a, xattrs: Map::empty() } },
    ));
    assert(splice(Seq::empty(), 0, Seq::empty()) =~= Seq::<u8>::empty());
    assert(apply_delta(apply_delta(nodes, file[0], a), file[1], b) =~= nodes.insert(
        path,
        NodeView::File {
            content: ContentView::Inline(Seq::empty()),
            meta: MetaView { mode, uid, gid, mtime_ms: a, xattrs: Map::empty() },
        },
    ));
    assert(apply_delta(apply_delta(nodes, link[0], a), link[1], b) =~= nodes.insert(
        path,
        NodeView::Symlink {
            target,
            meta: MetaView { mode: 0x1ff, uid, gid, mtime_ms: a, xattrs: Map::empty() },
        },
    ));
}

// ---- checkpoints ----------------------------------------------------------

/// Merging a segment: an entry with a node puts it there; an entry without one
/// takes away its path and all below it; anything else stays.
pub proof fn merge_applies_entries(nodes: Nodes, changes: Changes, k: Seq<u8>)
    ensures
        changes.contains_key(k) ==> (merged(nodes, changes).contains_key(k) <==> changes[k] is Some)
            && (changes[k] is Some ==> merged(nodes, changes)[k] == changes[k]->0),
        !changes.contains_key(k) && nodes.contains_key(k) ==> (merged(
            nodes,
            changes,
        ).contains_key(k) <==> !exists|a: Seq<u8>| #[trigger]
            changes.contains_key(a) && changes[a] is None && (k == a || has_prefix(
                k,
                a + seq![0x2fu8],
            ))) && (merged(nodes, changes).contains_key(k) ==> merged(nodes, changes)[k]
            == nodes[k]),
        !changes.contains_key(k) && !nodes.contains_key(k) ==> !merged(
            nodes,
            changes,
        ).contains_key(k),
{
    assert(forall|a: Seq<u8>| below(a) == #[trigger] (a + seq![0x2fu8]));
    if buried(changes, k) {
        let a = choose|a: Seq<u8>| #[trigger]
            changes.contains_key(a) && changes[a] is None && in_tree(k, a);
        assert(below(a) == a + seq![0x2fu8]);
        assert(changes.contains_key(a) && changes[a] is None && (k == a || has_prefix(
            k,
            a + seq![0x2fu8],
        )));
    }
    if exists|a: Seq<u8>| #[trigger]
        changes.contains_key(a) && changes[a] is None && (k == a || has_prefix(
            k,
            a + seq![0x2fu8],
        )) {
        let a = choose|a: Seq<u8>| #[trigger]
            changes.contains_key(a) && changes[a] is None && (k == a || has_prefix(
                k,
                a + seq![0x2fu8],
            ));
        assert(below(a) == a + seq![0x2fu8]);
        assert(changes.contains_key(a) && changes[a] is None && in_tree(k, a));
    }
}

// ---- content --------------------------------------------------------------

/// Content is cut into chunks of one mebibyte, in order; only the last may be
/// shorter.
pub proof fn chunks_are_cut_in_order(b: Seq<u8>, i: int)
    ensures
        (chunks(b).len() - 1) * 0x10_0000 < b.len() || b.len() == 0,
        b.len() <= chunks(b).len() * 0x10_0000,
        b.len() == 0 ==> chunks(b).len() == 0,
        0 <= i < chunks(b).len() ==> chunks(b)[i] == b.subrange(
            i * 0x10_0000,
            if (i + 1) * 0x10_0000 < b.len() {
                (i + 1) * 0x10_0000
            } else {
                b.len() as int
            },
        ),
    decreases b.len(),
{
    if b.len() == 0 {
    } else if b.len() <= 0x10_0000 {
        assert(b.subrange(0, b.len() as int) =~= b);
    } else {
        let rest = b.skip(0x10_0000);
        chunks_are_cut_in_order(rest, i - 1);
        if 0 <= i < chunks(b).len() {
            if i == 0 {
                assert(chunks(b)[0] =~= b.subrange(0, 0x10_0000));
            } else {
                assert(chunks(b)[i] == chunks(rest)[i - 1]);
                let end: int = if (i + 1) * 0x10_0000 < b.len() {
                    (i + 1) * 0x10_0000
                } else {
                    b.len() as int
                };
                assert(chunks(rest)[i - 1] =~= b.subrange(i * 0x10_0000, end));
            }
        }
    }
}

/// A block is named by the hash of its chunk and knows its length; it is
/// uploaded under that name.
pub proof fn blocks_name_chunks(b: Seq<u8>, i: int)
    requires
        0 <= i < chunks(b).len(),
    ensures
        blocks_of(b).len() == chunks(b).len(),
        upload_list(b).len() == chunks(b).len(),
        blocks_of(b)[i].hash == sha256_text(chunks(b)[i]),
        blocks_of(b)[i].len == chunks(b)[i].len(),
        upload_list(b)[i] == (sha256_text(chunks(b)[i]), chunks(b)[i]),
{
    chunks_partition(b);
}

/// A read of inline content: the bytes from the offset on, as many as asked for
/// or as there are.
pub proof fn read_gives_range(
    b: Seq<u8>,
    cache: Map<Seq<u8>, Seq<u8>>,
    offset: nat,
    len: nat,
    r: ReadStep,
)
    requires
        read_outcome(ContentView::Inline(b), cache, offset, len, r),
    ensures
        r matches ReadStep::Done(out) && {
            &&& out@.len() <= len
            &&& offset + out@.len() <= b.len() || out@.len() == 0
            &&& out@.len() == len || offset + out@.len() >= b.len()
            &&& forall|i: int| 0 <= i < out@.len() ==> #[trigger] out@[i] == b[offset + i]
        },
{
}

/// The part of content in a range.
pub proof fn clip_is_range(b: Seq<u8>, offset: nat, end: nat)
    requires
        offset <= end,
    ensures
        clip(b, offset, end).len() <= end - offset,
        clip(b, offset, end).len() == end - offset || offset + clip(b, offset, end).len()
            >= b.len(),
        offset + clip(b, offset, end).len() <= b.len() || clip(b, offset, end).len() == 0,
        forall|i: int|
            0 <= i < clip(b, offset, end).len() ==> #[trigger] clip(b, offset, end)[i] == b[offset
                + i],
{
}

/// Content cut or grown to a size keeps its bytes up to there and is zero
/// beyond its old end.
pub proof fn resize_keeps_bytes(b: Seq<u8>, size: nat)
    ensures
        resized(b, size).len() == size,
        forall|i: int|
            0 <= i < size && i < b.len() ==> #[trigger] resized(b, size)[i] == b[i],
        forall|i: int| b.len() <= i < size ==> #[trigger] resized(b, size)[i] == 0,
{
}

/// A truncated file holds the bytes given and is dated anew; owner, mode and
/// extended attributes stay. Other paths outside its tree stay too.
pub proof fn truncation_replaces_content(nodes: Nodes, path: Seq<u8>, b: Seq<u8>, now: i64)
    requires
        nodes.contains_key(path),
        nodes[path] is File,
    ensures
        ({
            let r = truncated(nodes, path, b, now);
            let old = nodes[path].meta();
            let new = r[path].meta();
            &&& same_but(r, nodes, path)
            &&& r.contains_key(path) && r[path] is File
            &&& r[path]->File_content == ContentView::Inline(b)
            &&& new.mtime_ms == now
            &&& new.mode == old.mode && new.uid == old.uid && new.gid == old.gid && new.xattrs
                == old.xattrs
        }),
{
}

/// A file that was written reads as what was written; other files read as they
/// did.
pub proof fn written_file_reads_back(
    nodes: Nodes,
    cache: Map<Seq<u8>, Seq<u8>>,
    path: Seq<u8>,
    b: Seq<u8>,
    other: Seq<u8>,
    now: i64,
)
    ensures
        file_bytes(file_put(nodes, path, b, now), cache, path) == b,
        other != path ==> file_bytes(file_put(nodes, path, b, now), cache, other) == file_bytes(
            nodes,
            cache,
            other,
        ),
        same_but(file_put(nodes, path, b, now), nodes, path),
        nodes.contains_key(path) && nodes[path] is File ==> file_put(
            nodes,
            path,
            b,
            now,
        )[path].meta() == nodes[path].meta(),
{
}

/// A write through the volume is recorded as a delta that has that effect,
/// whether the file's content is at hand or kept as blocks.
pub proof fn recorded_write_has_its_effect(
    nodes: Nodes,
    cache: Map<Seq<u8>, Seq<u8>>,
    path: Seq<u8>,
    offset: u64,
    data: Seq<u8>,
    now: i64,
)
    ensures
        ({
            let r = apply_delta(nodes, extent_write(nodes, cache, path, offset, data), now);
            &&& file_bytes(r, cache, path) == splice(
                file_bytes(nodes, cache, path),
                offset as int,
                data,
            )
            &&& same_but(r, nodes, path)
            &&& nodes.contains_key(path) && nodes[path] is File ==> r[path].meta()
                == nodes[path].meta()
        }),
{
    let whole = splice(file_bytes(nodes, cache, path), offset as int, data);
    assert(splice(Seq::empty(), 0, whole) =~= whole);
}

/// A read that lacks a block asks for one of the file's that reaches into the
/// range and is not at hand.
pub proof fn read_asks_for_missing_block(
    blocks: Seq<BlockView>,
    size: u64,
    cache: Map<Seq<u8>, Seq<u8>>,
    offset: nat,
    len: nat,
    r: ReadStep,
)
    requires
        read_outcome(ContentView::Blocks { blocks, size }, cache, offset, len, r),
    ensures
        r matches ReadStep::Fetch(hash) ==> exists|i: int|
            #![trigger blocks[i]]
            0 <= i < blocks.len() && hash@ == blocks[i].hash && !cache.contains_key(
                utf8(blocks[i].hash),
            ) && total_len(blocks.take(i)) < offset + len && total_len(blocks.take(i))
                + blocks[i].len > offset,
        r is Done ==> forall|i: int|
            #![trigger blocks[i]]
            0 <= i < blocks.len() && total_len(blocks.take(i)) < offset + len && total_len(
                blocks.take(i),
            ) + blocks[i].len > offset ==> cache.contains_key(utf8(blocks[i].hash)),
{
    assert forall|i: int| #![trigger blocks[i]] 0 <= i < blocks.len() implies total_len(
        blocks.take(i + 1),
    ) == total_len(blocks.take(i)) + blocks[i].len by {
        assert(blocks.take(i + 1).drop_last() =~= blocks.take(i));
    }
    match r {
        ReadStep::Fetch(hash) => {
            let i = choose|i: int|
                0 <= i < blocks.len() && #[trigger] overlaps(blocks, i, offset, offset + len)
                    && all_cached(blocks, cache, i, offset, offset + len) && !cache.contains_key(
                    utf8(blocks[i].hash),
                ) && hash@ == blocks[i].hash;
            assert(hash@ == blocks[i].hash);
        },
        ReadStep::Done(out) => {
            assert forall|i: int|
                #![trigger blocks[i]]
                0 <= i < blocks.len() && total_len(blocks.take(i)) < offset + len && total_len(
                    blocks.take(i),
                ) + blocks[i].len > offset implies cache.contains_key(utf8(blocks[i].hash)) by {
                assert(overlaps(blocks, i, offset, offset + len));
            }
        },
    }
}

// ---- commits --------------------------------------------------------------

/// Every staged file's blocks are among the uploads, and it is one that is
/// longer than a chunk.
spec fn backed(s: StageView, image: Nodes) -> bool {
    forall|q: Seq<u8>| #[trigger]
        s.chunked.contains_key(q) ==> is_big(image, q) && s.chunked[q] == blocks_of(
            inline_bytes(image, q),
        ) && uploaded(s.uploads, inline_bytes(image, q))
}

spec fn uploaded(uploads: Seq<(Seq<char>, Seq<u8>)>, b: Seq<u8>) -> bool {
    forall|i: int|
        0 <= i < chunks(b).len() ==> uploads.contains(
            (sha256_text(#[trigger] chunks(b)[i]), chunks(b)[i]),
        )
}

proof fn covering_backs(s: StageView, ds: Seq<DeltaView>, q: Seq<u8>, image: Nodes)
    requires
        backed(s, image),
        is_big(image, q),
    ensures
        backed(cover(s, ds, q, image), image),
{
    let b = inline_bytes(image, q);
    let r = cover(s, ds, q, image);
    assert forall|p: Seq<u8>| #[trigger] r.chunked.contains_key(p) implies is_big(image, p)
        && r.chunked[p] == blocks_of(inline_bytes(image, p)) && uploaded(
        r.uploads,
        inline_bytes(image, p),
    ) by {
        let c = inline_bytes(image, p);
        if p != q {
            assert(s.chunked.contains_key(p));
        }
        assert forall|i: int| 0 <= i < chunks(c).len() implies r.uploads.contains(
            (sha256_text(#[trigger] chunks(c)[i]), chunks(c)[i]),
        ) by {
            let u = (sha256_text(chunks(c)[i]), chunks(c)[i]);
            if p == q {
                assert(upload_list(b)[i] == u);
                assert(r.uploads[s.uploads.len() + i] == u);
            } else {
                assert(s.uploads.contains(u));
                let j = choose|j: int| 0 <= j < s.uploads.len() && s.uploads[j] == u;
                assert(r.uploads[j] == u);
            }
        }
    }
}

proof fn staging_backs(ds: Seq<DeltaView>, marks: Seq<bool>, n: nat, image: Nodes)
    requires
        n <= ds.len(),
    ensures
        backed(stage(ds, marks, n, image), image),
    decreases n,
{
    if n > 0 {
        let m = (n - 1) as nat;
        staging_backs(ds, marks, m, image);
        let s = stage(ds, marks, m, image);
        if let DeltaView::Write { path, .. } = ds[n - 1] {
            if let Some(q) = crate::fuse::commit::fate(ds, n as int, path) {
                if !s.chunked.contains_key(q) && is_big(image, q) {
                    covering_backs(
                        s,
                        crate::fuse::commit::full_write(
                            path,
                            crate::fuse::commit::marked(marks, n - 1),
                            blocks_of(inline_bytes(image, q)),
                        ),
                        q,
                        image,
                    );
                }
            }
        }
    }
}

proof fn sweeping_backs(s: StageView, l: Seq<(Seq<u8>, NodeView)>, n: nat, image: Nodes)
    requires
        n <= l.len(),
        backed(s, image),
    ensures
        backed(swept(s, l, n, image), image),
        forall|i: int|
            0 <= i < n && is_big(image, (#[trigger] l[i]).0) ==> swept(
                s,
                l,
                n,
                image,
            ).chunked.contains_key(l[i].0),
    decreases n,
{
    if n > 0 {
        let m = (n - 1) as nat;
        sweeping_backs(s, l, m, image);
        let before = swept(s, l, m, image);
        let q = l[n - 1].0;
        if is_big(image, q) && !before.chunked.contains_key(q) {
            covering_backs(
                before,
                seq![
                    crate::fuse::commit::block_write(q, blocks_of(inline_bytes(image, q))),
                ],
                q,
                image,
            );
        }
    }
}

/// A commit stores as blocks exactly the inline files longer than a mebibyte,
/// each by the blocks of its content, and uploads all of these.
pub proof fn commit_stores_long_files_as_blocks(
    ds: Seq<DeltaView>,
    marks: Seq<bool>,
    image: Nodes,
    q: Seq<u8>,
)
    requires
        image.dom().finite(),
    ensures
        ({
            let s = staged(ds, marks, image);
            let b = image[q]->File_content->Inline_0;
            &&& s.chunked.contains_key(q) <==> image.contains_key(q) && image[q] is File
                && image[q]->File_content is Inline && b.len() > 0x10_0000
            &&& s.chunked.contains_key(q) ==> s.chunked[q] == blocks_of(b) && forall|i: int|
                0 <= i < chunks(b).len() ==> s.uploads.contains(
                    (sha256_text(#[trigger] chunks(b)[i]), chunks(b)[i]),
                )
        }),
{
    let l = listing(image, any_key());
    listing_exists(image, any_key());
    assert(is_listing(image, any_key(), l));
    staging_backs(ds, marks, ds.len(), image);
    let s = stage(ds, marks, ds.len(), image);
    sweeping_backs(s, l, l.len(), image);
    if is_big(image, q) {
        assert(image.contains_key(q) && any_key()(q));
        let i = choose|i: int| 0 <= i < l.len() && #[trigger] l[i].0 == q;
        assert(is_big(image, l[i].0));
    }
}

/// An image with files as blocks differs in the content of those files alone.
pub proof fn blocks_replace_content(
    image: Nodes,
    m: Map<Seq<u8>, Seq<BlockView>>,
    k: Seq<u8>,
)
    ensures
        ({
            let r = blockified(image, m);
            &&& r.contains_key(k) == image.contains_key(k)
            &&& image.contains_key(k) ==> r[k].meta() == image[k].meta()
            &&& image.contains_key(k) && !m.contains_key(k) ==> r[k] == image[k]
            &&& image.contains_key(k) && m.contains_key(k) && total_len(m[k]) <= u64::MAX
                ==> r[k] is File && r[k]->File_content is Blocks && r[k]->File_content->blocks
                == m[k] && r[k]->File_content->size == total_len(m[k])
        }),
{
}

/// An image is loaded from its segments in order, from nothing on.
pub proof fn segments_merge_in_order(segs: Seq<Changes>, s: Changes, kept: Seq<Segment>, i: int)
    ensures
        merge_all(Seq::empty()) == Nodes::empty(),
        merge_all(segs.push(s)) == merged(merge_all(segs), s),
        changes_of(kept).len() == kept.len(),
        0 <= i < kept.len() ==> changes_of(kept)[i] == kept[i].entries@,
{
    assert(segs.push(s).drop_last() =~= segs);
}

/// Deltas are replayed in order, each at its own time.
pub proof fn deltas_replay_in_order(
    nodes: Nodes,
    ds: Seq<DeltaView>,
    d: DeltaView,
    nows: Seq<i64>,
    now: i64,
)
    requires
        nows.len() == ds.len(),
    ensures
        replay(nodes, Seq::empty(), nows) == nodes,
        replay(nodes, ds.push(d), nows.push(now)) == apply_delta(replay(nodes, ds, nows), d, now),
        run(nodes, Seq::empty(), now) == nodes,
        run(nodes, ds.push(d), now) == apply_delta(run(nodes, ds, now), d, now),
{
    assert(ds.push(d).drop_last() =~= ds);
    crate::fuse::replica::replay_agrees(nodes, ds, nows, nows.push(now));
}

/// The whole of a file at hand is its bytes; there is nothing to read where no
/// file stands.
pub proof fn whole_read_gives_file(
    nodes: Nodes,
    cache: Map<Seq<u8>, Seq<u8>>,
    path: Seq<u8>,
    r: Option<ReadStep>,
)
    requires
        file_read(nodes, cache, path, 0, None, r),
    ensures
        r is None <==> !(nodes.contains_key(path) && nodes[path] is File),
        r is Some && nodes[path]->File_content is Inline ==> (r->0 matches ReadStep::Done(out)
            && out@ == nodes[path]->File_content->Inline_0),
{
    if r is Some && nodes[path]->File_content is Inline {
        let b = nodes[path]->File_content->Inline_0;
        assert(b.subrange(0, b.len() as int) =~= b);
    }
}

/// A truncation is recorded as deltas that have its effect.
pub proof fn recorded_truncation_has_its_effect(
    nodes: Nodes,
    path: Seq<u8>,
    b: Seq<u8>,
    now: i64,
)
    requires
        nodes.contains_key(path),
        nodes[path] is File,
    ensures
        ({
            let r = run(nodes, truncation(nodes, path, b, now), now);
            &&& r.contains_key(path) && r[path] is File
            &&& r[path]->File_content == ContentView::Inline(b)
            &&& r[path].meta().mtime_ms == now
            &&& r[path].meta().mode == nodes[path].meta().mode
            &&& same_but(r, nodes, path)
        }),
{
    let ds = truncation(nodes, path, b, now);
    let none = Seq::<DeltaView>::empty();
    assert(ds.drop_last().drop_last().drop_last() =~= none);
    reveal_with_fuel(run, 4);
    assert(splice(Seq::empty(), 0, b) =~= b);
}

/// A truncation where no file stands makes one: plain, dated by the clock, with
/// the bytes given, in the place of what stood there and below it.
pub proof fn truncation_makes_file(nodes: Nodes, path: Seq<u8>, b: Seq<u8>, k: Seq<u8>, now: i64)
    requires
        !(nodes.contains_key(path) && nodes[path] is File),
    ensures
        ({
            let r = truncated(nodes, path, b, now);
            &&& r.contains_key(path) && r[path] is File
            &&& r[path]->File_content == ContentView::Inline(b)
            &&& r[path].meta() == (MetaView {
                mode: 0x1a4,
                uid: 0,
                gid: 0,
                mtime_ms: now,
                xattrs: Map::empty(),
            })
            &&& k != path && !has_prefix(k, path + seq![0x2fu8]) ==> r.contains_key(k)
                == nodes.contains_key(k) && (nodes.contains_key(k) ==> r[k] == nodes[k])
            &&& k != path && has_prefix(k, path + seq![0x2fu8]) ==> !r.contains_key(k)
        }),
{
    assert(below(path) =~= path + seq![0x2fu8]);
}

/// A file kept as the blocks of some bytes reads as those bytes, once the blocks
/// are at hand.
pub proof fn blocks_read_as_content(
    nodes: Nodes,
    cache: Map<Seq<u8>, Seq<u8>>,
    path: Seq<u8>,
    b: Seq<u8>,
)
    requires
        b.len() <= u64::MAX,
        nodes.contains_key(path),
        nodes[path] is File,
        nodes[path]->File_content == (ContentView::Blocks {
            blocks: blocks_of(b),
            size: b.len() as u64,
        }),
        forall|i: int|
            0 <= i < chunks(b).len() ==> cache.contains_key(
                utf8(sha256_text(#[trigger] chunks(b)[i])),
            ) && cache[utf8(sha256_text(chunks(b)[i]))] == chunks(b)[i],
    ensures
        file_bytes(nodes, cache, path) == b,
{
    assert(serves(b, cache, 0, 0 + b.len())) by {
        assert forall|i: int|
            0 <= i < chunks(b).len() && #[trigger] overlaps(
                blocks_of(b),
                i,
                0,
                0 + b.len(),
            ) implies cache.contains_key(utf8(blocks_of(b)[i].hash))
            && cache[utf8(blocks_of(b)[i].hash)] == chunks(b)[i] by {
            assert(blocks_of(b)[i].hash == sha256_text(chunks(b)[i]));
        }
    }
    block_reads_give_content(b, cache, 0, b.len());
    assert(b.subrange(0, b.len() as int) =~= b);
}

} // verus!

//! Volume lifecycle: mount (reconstruct), mutate, commit, checkpoint.
//!
//! A [`Volume`] holds what the write handle knows between calls. The caller
//! reads the stream and the bucket, uploads staged blocks, appends staged
//! deltas, and reports back what was committed.
use sha2::Digest;
use vstd::prelude::*;
use vstd::string::*;

use crate::envelope::{restored_through, Version};
use crate::error::{refuse, says, Error};
use crate::fuse::checkpoint::replay;
use crate::fuse::commit::replaces;
use crate::fuse::consistency::run;
use crate::fuse::ops::{is_block_backed, needs_content};
use crate::fuse::{
    apply_delta, fits, merged, meta_written, prune, splice, splice_into, total_len,
    total_len_prefix, BlockRef, BlockView, Changes, Content, ContentView, Data, DataView, Delta,
    DeltaView, FsImage, Manifest, MetaView, Node, NodeView, Nodes, Segment, CHUNK,
};
use crate::order::copy_of;
use crate::snapshot::{checkpoint_record, record, CompactionRecord};
use crate::stamp::now_ms;
use crate::table::{views, Dup, Key, Table};
use crate::text::utf8;

verus! {

/// The lowercase hexadecimal text of the SHA-256 digest of bytes, as
/// `sha2::Sha256::digest` computes it.
pub uninterp spec fn sha256_text(data: Seq<u8>) -> Seq<char>;

/// `sha2::Sha256::digest`, written out in lowercase hexadecimal: 64 digits.
#[verifier::external_body]
fn sha256_hex(data: &[u8]) -> (r: String)
    ensures
        r@ == sha256_text(data@),
        r@.len() == 64,
{
    format!("{:x}", sha2::Sha256::digest(data))
}

/// Content cut into chunks; only the last may be short.
pub open spec fn chunks(b: Seq<u8>) -> Seq<Seq<u8>>
    decreases b.len(),
{
    if b.len() == 0 {
        Seq::empty()
    } else if b.len() <= CHUNK {
        seq![b]
    } else {
        seq![b.take(CHUNK as int)] + chunks(b.skip(CHUNK as int))
    }
}

/// The content-addressed reference to a chunk.
pub open spec fn block_of(c: Seq<u8>) -> BlockView {
    BlockView { hash: sha256_text(c), len: c.len() as u64 }
}

pub open spec fn blocks_of(b: Seq<u8>) -> Seq<BlockView> {
    Seq::new(chunks(b).len(), |i: int| block_of(chunks(b)[i]))
}

/// One chunk after the other.
pub open spec fn joined(cs: Seq<Seq<u8>>) -> Seq<u8>
    decreases cs.len(),
{
    if cs.len() == 0 {
        Seq::empty()
    } else {
        joined(cs.drop_last()) + cs.last()
    }
}

proof fn joined_first(c: Seq<u8>, cs: Seq<Seq<u8>>)
    ensures
        joined(seq![c] + cs) == c + joined(cs),
    decreases cs.len(),
{
    if cs.len() == 0 {
        assert(seq![c] + cs =~= seq![c]);
        assert(seq![c].drop_last() =~= Seq::<Seq<u8>>::empty());
        assert(joined(seq![c]) =~= c) by {
            reveal_with_fuel(joined, 2);
        }
        assert(c + joined(cs) =~= c);
    } else {
        joined_first(c, cs.drop_last());
        assert((seq![c] + cs).drop_last() =~= seq![c] + cs.drop_last());
        assert(joined(seq![c] + cs) =~= c + joined(cs));
    }
}

/// Chunking loses nothing: the chunks make up the content, none is empty or
/// longer than a chunk.
pub proof fn chunks_partition(b: Seq<u8>)
    ensures
        joined(chunks(b)) == b,
        forall|i: int| 0 <= i < chunks(b).len() ==> 0 < (#[trigger] chunks(b)[i]).len() <= CHUNK,
    decreases b.len(),
{
    if b.len() == 0 {
        assert(joined(chunks(b)) =~= b);
    } else if b.len() <= CHUNK {
        assert(seq![b].drop_last() =~= Seq::<Seq<u8>>::empty());
        assert(joined(seq![b]) =~= b) by {
            reveal_with_fuel(joined, 2);
        }
    } else {
        let head = b.take(CHUNK as int);
        let rest = b.skip(CHUNK as int);
        chunks_partition(rest);
        joined_first(head, chunks(rest));
        assert(head + rest =~= b);
        assert forall|i: int| 0 <= i < chunks(b).len() implies 0 < (#[trigger] chunks(b)[i]).len()
            <= CHUNK by {
            if i > 0 {
                assert(chunks(b)[i] == chunks(rest)[i - 1]);
            }
        }
    }
}

/// The lengths of the blocks of content add up to its size.
pub proof fn blocks_total(b: Seq<u8>)
    requires
        b.len() <= u64::MAX,
    ensures
        total_len(blocks_of(b)) == b.len(),
{
    chunks_partition(b);
    let cs = chunks(b);
    blocks_total_prefix(b, cs.len() as int);
    assert(blocks_of(b).take(cs.len() as int) =~= blocks_of(b));
    assert(cs.take(cs.len() as int) =~= cs);
}

proof fn blocks_total_prefix(b: Seq<u8>, n: int)
    requires
        0 <= n <= chunks(b).len(),
    ensures
        total_len(blocks_of(b).take(n)) == joined(chunks(b).take(n)).len(),
    decreases n,
{
    chunks_partition(b);
    if n > 0 {
        blocks_total_prefix(b, n - 1);
        assert(blocks_of(b).take(n).drop_last() =~= blocks_of(b).take(n - 1));
        assert(chunks(b).take(n).drop_last() =~= chunks(b).take(n - 1));
        assert(chunks(b).take(n).last() == chunks(b)[n - 1]);
    } else {
        assert(blocks_of(b).take(0) =~= Seq::<BlockView>::empty());
        assert(chunks(b).take(0) =~= Seq::<Seq<u8>>::empty());
    }
}

/// The chunks of content with their content addresses.
pub(crate) fn cut(content: &[u8]) -> (r: (Vec<BlockRef>, Vec<(String, Vec<u8>)>))
    ensures
        views(r.0@) == blocks_of(content@),
        views(r.1@) == upload_list(content@),
    decreases content.len(),
{
    if content.len() == 0 {
        let blocks: Vec<BlockRef> = Vec::new();
        let ups: Vec<(String, Vec<u8>)> = Vec::new();
        assert(views(blocks@) =~= blocks_of(content@));
        assert(views(ups@) =~= upload_list(content@));
        return (blocks, ups);
    }
    let n: usize = if content.len() <= CHUNK {
        content.len()
    } else {
        CHUNK
    };
    let head = vstd::slice::slice_subrange(content, 0, n);
    let rest = vstd::slice::slice_subrange(content, n, content.len());
    let hash = sha256_hex(head);
    let ghost c = head@;
    let mut blocks: Vec<BlockRef> = Vec::new();
    blocks.push(BlockRef { hash: hash.clone(), len: n as u64 });
    let mut ups: Vec<(String, Vec<u8>)> = Vec::new();
    ups.push((hash, copy_of(head)));
    let (mut more, mut more_ups) = cut(rest);
    let ghost b1 = views(more@);
    let ghost u1 = views(more_ups@);
    blocks.append(&mut more);
    ups.append(&mut more_ups);
    proof {
        let b = content@;
        if b.len() <= CHUNK {
            assert(c =~= b);
            assert(rest@ =~= Seq::<u8>::empty());
            assert(chunks(b) =~= seq![c] + chunks(rest@));
        } else {
            assert(c =~= b.take(CHUNK as int));
            assert(rest@ =~= b.skip(CHUNK as int));
        }
        assert(chunks(b) == seq![c] + chunks(rest@));
        assert(b1.len() == chunks(rest@).len() && u1.len() == chunks(rest@).len());
        assert(views(blocks@).len() == 1 + b1.len() && views(ups@).len() == 1 + u1.len());
        assert(views(blocks@) =~= blocks_of(b)) by {
            assert forall|i: int| 0 <= i < views(blocks@).len() implies views(blocks@)[i]
                == blocks_of(b)[i] by {
                if i > 0 {
                    assert(views(blocks@)[i] == b1[i - 1]);
                    assert(chunks(b)[i] == chunks(rest@)[i - 1]);
                }
            }
        }
        assert(views(ups@) =~= upload_list(b)) by {
            assert forall|i: int| 0 <= i < views(ups@).len() implies views(ups@)[i]
                == upload_list(b)[i] by {
                if i > 0 {
                    assert(views(ups@)[i] == u1[i - 1]);
                    assert(chunks(b)[i] == chunks(rest@)[i - 1]);
                }
            }
        }
    }
    (blocks, ups)
}

/// The blocks of content, each with its address.
pub open spec fn upload_list(b: Seq<u8>) -> Seq<(Seq<char>, Seq<u8>)> {
    Seq::new(chunks(b).len(), |i: int| (sha256_text(chunks(b)[i]), chunks(b)[i]))
}

// ---- lazy content reads ---------------------------------------------------

/// Fetched blocks by hash.
pub type Blocks = Table<String, Vec<u8>>;

/// Where block `i` starts.
pub open spec fn block_start(refs: Seq<BlockView>, i: int) -> nat {
    total_len(refs.take(i))
}

/// Whether block `i` overlaps `[offset, end)`.
pub open spec fn overlaps(refs: Seq<BlockView>, i: int, offset: nat, end: nat) -> bool {
    block_start(refs, i + 1) > offset && block_start(refs, i) < end
}

pub open spec fn least(a: nat, b: nat) -> nat {
    if a < b {
        a
    } else {
        b
    }
}

/// The part of block `i`'s bytes that lies in `[offset, end)`.
pub open spec fn block_part(
    refs: Seq<BlockView>,
    i: int,
    b: Seq<u8>,
    offset: nat,
    end: nat,
) -> Seq<u8> {
    let start = block_start(refs, i);
    let lo = if offset > start {
        (offset - start) as nat
    } else {
        0
    };
    let hi = (least(end, block_start(refs, i + 1)) - start) as nat;
    b.subrange(least(lo, b.len()) as int, least(hi, b.len()) as int)
}

/// Whether every block of the first `n` that overlaps the range is there.
pub open spec fn all_cached(
    refs: Seq<BlockView>,
    cache: Map<Seq<u8>, Seq<u8>>,
    n: int,
    offset: nat,
    end: nat,
) -> bool {
    forall|i: int|
        0 <= i < n && #[trigger] overlaps(refs, i, offset, end) ==> cache.contains_key(
            utf8(refs[i].hash),
        )
}

/// The bytes of the first `n` blocks that lie in `[offset, end)`.
pub open spec fn gathered(
    refs: Seq<BlockView>,
    cache: Map<Seq<u8>, Seq<u8>>,
    n: int,
    offset: nat,
    end: nat,
) -> Seq<u8>
    decreases n,
{
    if n <= 0 {
        Seq::empty()
    } else {
        let rest = gathered(refs, cache, n - 1, offset, end);
        if overlaps(refs, n - 1, offset, end) {
            rest + block_part(refs, n - 1, cache[utf8(refs[n - 1].hash)], offset, end)
        } else {
            rest
        }
    }
}

/// How a read goes on.
#[derive(Debug)]
pub enum ReadStep {
    /// The bytes.
    Done(Vec<u8>),
    /// Fetch the block with this hash into the cache and read again.
    Fetch(String),
}

/// What a read of `[offset, offset + len)` comes to.
pub open spec fn read_outcome(
    content: ContentView,
    cache: Map<Seq<u8>, Seq<u8>>,
    offset: nat,
    len: nat,
    r: ReadStep,
) -> bool {
    match content {
        ContentView::Inline(b) => {
            let s = least(offset, b.len());
            r is Done && r->Done_0@ == b.subrange(s as int, least(s + len, b.len()) as int)
        },
        ContentView::Blocks { blocks, size } => {
            let end = offset + len;
            match r {
                ReadStep::Done(out) => all_cached(
                    blocks,
                    cache,
                    blocks.len() as int,
                    offset,
                    end,
                ) && out@ == gathered(blocks, cache, blocks.len() as int, offset, end),
                ReadStep::Fetch(hash) => exists|i: int|
                    0 <= i < blocks.len() && #[trigger] overlaps(blocks, i, offset, end)
                        && all_cached(blocks, cache, i, offset, end) && !cache.contains_key(
                        utf8(blocks[i].hash),
                    ) && hash@ == blocks[i].hash,
            }
        },
    }
}

/// Whether the block lengths of content add up within 64 bits.
pub open spec fn sized(content: ContentView) -> bool {
    content is Blocks ==> total_len(content->blocks) <= u64::MAX
}

/// Shared lazy read path: inline bytes directly, or only the blocks that
/// overlap the read, cached per content-addressed hash.
pub fn read_content(cache: &Blocks, content: &Content, offset: u64, len: u64) -> (r: ReadStep)
    requires
        offset + len <= u64::MAX,
        sized(content@),
    ensures
        read_outcome(content@, cache@, offset as nat, len as nat, r),
{
    match content {
        Content::Inline(b) => {
            let n: u64 = b.len() as u64;
            let s: u64 = if offset < n {
                offset
            } else {
                n
            };
            let e: u64 = if len < n - s {
                s + len
            } else {
                n
            };
            ReadStep::Done(
                copy_of(vstd::slice::slice_subrange(b.as_slice(), s as usize, e as usize)),
            )
        },
        Content::Blocks { blocks, .. } => {
            let end: u64 = offset + len;
            let ghost refs = views(blocks@);
            let ghost o = offset as nat;
            let ghost e = end as nat;
            let mut out: Vec<u8> = Vec::new();
            let mut pos: u64 = 0;
            let mut i: usize = 0;
            assert(refs.take(0) =~= Seq::<BlockView>::empty());
            #[verifier::loop_isolation(false)]
            while i < blocks.len()
                invariant
                    i <= blocks.len(),
                    refs == views(blocks@),
                    total_len(refs) <= u64::MAX,
                    o == offset,
                    e == end,
                    o <= e,
                    pos == block_start(refs, i as int),
                    all_cached(refs, cache@, i as int, o, e),
                    out@ == gathered(refs, cache@, i as int, o, e),
                decreases blocks.len() - i,
            {
                proof {
                    assert(refs.take(i + 1).drop_last() =~= refs.take(i as int));
                    assert(refs.take(i + 1).last() == blocks@[i as int]@);
                    total_len_prefix(refs, i + 1);
                }
                let start: u64 = pos;
                pos = pos + blocks[i].len;
                if pos > offset && start < end {
                    assert(overlaps(refs, i as int, o, e));
                    match cache.get(blocks[i].hash.as_key()) {
                        Some(b) => {
                            let lo: u64 = if offset > start {
                                offset - start
                            } else {
                                0
                            };
                            let hi: u64 = if end < pos {
                                end - start
                            } else {
                                pos - start
                            };
                            let n: u64 = b.len() as u64;
                            let lo: u64 = if lo < n {
                                lo
                            } else {
                                n
                            };
                            let hi: u64 = if hi < n {
                                hi
                            } else {
                                n
                            };
                            let part = vstd::slice::slice_subrange(
                                b.as_slice(),
                                lo as usize,
                                hi as usize,
                            );
                            out.extend_from_slice(part);
                            assert(part@ == block_part(refs, i as int, b@, o, e));
                            assert(out@ =~= gathered(refs, cache@, i + 1, o, e));
                        },
                        None => {
                            assert(refs[i as int] == blocks@[i as int]@);
                            assert(content@->blocks == refs);
                            assert(overlaps(refs, i as int, offset as nat, offset as nat
                                + len as nat));
                            return ReadStep::Fetch(blocks[i].hash.clone());
                        },
                    }
                } else {
                    assert(!overlaps(refs, i as int, o, e));
                }
                i += 1;
            }
            ReadStep::Done(out)
        },
    }
}

/// `cache` holds the blocks of `b` wherever they overlap the range.
pub open spec fn serves(
    b: Seq<u8>,
    cache: Map<Seq<u8>, Seq<u8>>,
    offset: nat,
    end: nat,
) -> bool {
    forall|i: int|
        0 <= i < chunks(b).len() && #[trigger] overlaps(blocks_of(b), i, offset, end) ==> (
        cache.contains_key(utf8(blocks_of(b)[i].hash)) && cache[utf8(blocks_of(b)[i].hash)]
            == chunks(b)[i])
}

/// A read of block-stored content gives the bytes of the content in the range,
/// once the overlapping blocks are there.
pub proof fn block_reads_give_content(
    b: Seq<u8>,
    cache: Map<Seq<u8>, Seq<u8>>,
    offset: nat,
    len: nat,
)
    requires
        b.len() <= u64::MAX,
        serves(b, cache, offset, offset + len),
    ensures
        gathered(blocks_of(b), cache, blocks_of(b).len() as int, offset, offset + len)
            == b.subrange(
            least(offset, b.len()) as int,
            least(least(offset, b.len()) + len, b.len()) as int,
        ),
{
    let n = chunks(b).len() as int;
    chunks_partition(b);
    gathered_parts(blocks_of(b), chunks(b), cache, offset, offset + len, n);
    assert(chunks(b).take(n) =~= chunks(b));
    let lo = least(offset, b.len());
    let hi = least(offset + len, b.len());
    assert(clip(b, offset, offset + len) =~= b.subrange(
        lo as int,
        least(lo + len, b.len()) as int,
    ));
}

/// The bytes of `b` in `[offset, end)`.
pub open spec fn clip(b: Seq<u8>, offset: nat, end: nat) -> Seq<u8> {
    let lo = least(offset, b.len());
    let hi = least(end, b.len());
    if lo <= hi {
        b.subrange(lo as int, hi as int)
    } else {
        Seq::empty()
    }
}

/// The cache holds the part that each overlapping one of the first `n` blocks
/// refers to.
spec fn holds_parts(
    refs: Seq<BlockView>,
    parts: Seq<Seq<u8>>,
    cache: Map<Seq<u8>, Seq<u8>>,
    n: int,
    offset: nat,
    end: nat,
) -> bool {
    forall|i: int|
        0 <= i < n && #[trigger] overlaps(refs, i, offset, end) ==> cache.contains_key(
            utf8(refs[i].hash),
        ) && cache[utf8(refs[i].hash)] == parts[i]
}

proof fn parts_total(refs: Seq<BlockView>, parts: Seq<Seq<u8>>, n: int)
    requires
        0 <= n <= refs.len(),
        parts.len() == refs.len(),
        forall|i: int| 0 <= i < refs.len() ==> (#[trigger] parts[i]).len() == refs[i].len,
    ensures
        block_start(refs, n) == joined(parts.take(n)).len(),
    decreases n,
{
    if n > 0 {
        parts_total(refs, parts, n - 1);
        assert(refs.take(n).drop_last() =~= refs.take(n - 1));
        assert(parts.take(n).drop_last() =~= parts.take(n - 1));
        assert(parts.take(n).last() == parts[n - 1]);
    } else {
        assert(refs.take(0) =~= Seq::<BlockView>::empty());
        assert(parts.take(0) =~= Seq::<Seq<u8>>::empty());
    }
}

/// What is gathered is what the parts hold in the range.
proof fn gathered_parts(
    refs: Seq<BlockView>,
    parts: Seq<Seq<u8>>,
    cache: Map<Seq<u8>, Seq<u8>>,
    offset: nat,
    end: nat,
    n: int,
)
    requires
        offset <= end,
        0 <= n <= refs.len(),
        parts.len() == refs.len(),
        forall|i: int| 0 <= i < refs.len() ==> (#[trigger] parts[i]).len() == refs[i].len,
        holds_parts(refs, parts, cache, n, offset, end),
    ensures
        gathered(refs, cache, n, offset, end) == clip(joined(parts.take(n)), offset, end),
    decreases n,
{
    if n == 0 {
        assert(parts.take(0) =~= Seq::<Seq<u8>>::empty());
        assert(clip(joined(parts.take(0)), offset, end) =~= Seq::<u8>::empty());
    } else {
        gathered_parts(refs, parts, cache, offset, end, n - 1);
        parts_total(refs, parts, n - 1);
        parts_total(refs, parts, n);
        let before = joined(parts.take(n - 1));
        let c = parts[n - 1];
        assert(parts.take(n).drop_last() =~= parts.take(n - 1));
        assert(parts.take(n).last() == c);
        let whole = joined(parts.take(n));
        assert(whole == before + c);
        if overlaps(refs, n - 1, offset, end) {
            let part = block_part(refs, n - 1, c, offset, end);
            assert(clip(before, offset, end) + part =~= clip(whole, offset, end));
        } else {
            assert(clip(before, offset, end) =~= clip(whole, offset, end));
        }
    }
}

/// The bucket holds every block of the content, as long as declared.
pub open spec fn stocked(content: ContentView, bucket: Map<Seq<u8>, Seq<u8>>) -> bool {
    match content {
        ContentView::Inline(_) => true,
        ContentView::Blocks { blocks, size } => {
            &&& size == total_len(blocks)
            &&& forall|i: int|
                0 <= i < blocks.len() ==> bucket.contains_key(utf8((#[trigger] blocks[i]).hash))
                    && bucket[utf8(blocks[i].hash)].len() == blocks[i].len
        },
    }
}

/// The cache holds what the bucket holds, as far as it goes.
pub open spec fn fetched_from(
    cache: Map<Seq<u8>, Seq<u8>>,
    bucket: Map<Seq<u8>, Seq<u8>>,
) -> bool {
    forall|k: Seq<u8>| #[trigger] cache.contains_key(k) ==> cache[k] == bucket[k]
}

proof fn content_gathered(
    content: ContentView,
    bucket: Map<Seq<u8>, Seq<u8>>,
    cache: Map<Seq<u8>, Seq<u8>>,
    offset: nat,
    len: nat,
    r: ReadStep,
) -> (whole: Seq<u8>)
    requires
        stocked(content, bucket),
        fetched_from(cache, bucket),
        read_outcome(content, cache, offset, len, r),
    ensures
        whole.len() == content.size(),
        r is Done ==> r->Done_0@ == clip(whole, offset, offset + len),
        content is Inline ==> whole == content->Inline_0,
        content is Blocks ==> whole == joined(parts_of(content->blocks, bucket)),
{
    match content {
        ContentView::Inline(b) => {
            assert(clip(b, offset, offset + len) =~= b.subrange(
                least(offset, b.len()) as int,
                least(least(offset, b.len()) + len, b.len()) as int,
            ));
            b
        },
        ContentView::Blocks { blocks, size } => {
            let parts = parts_of(blocks, bucket);
            let n = blocks.len() as int;
            let end = offset + len;
            if r is Done {
                assert forall|i: int| 0 <= i < n && #[trigger] overlaps(
                    blocks,
                    i,
                    offset,
                    end,
                ) implies cache.contains_key(utf8(blocks[i].hash)) && cache[utf8(blocks[i].hash)]
                    == parts[i] by {}
                gathered_parts(blocks, parts, cache, offset, end, n);
            }
            parts_total(blocks, parts, n);
            assert(parts.take(n) =~= parts);
            assert(blocks.take(n) =~= blocks);
            joined(parts)
        },
    }
}

/// The bytes that the bucket holds for each block.
pub open spec fn parts_of(blocks: Seq<BlockView>, bucket: Map<Seq<u8>, Seq<u8>>) -> Seq<Seq<u8>> {
    Seq::new(blocks.len(), |i: int| bucket[utf8(blocks[i].hash)])
}

/// A range read gives the part of a whole read that lies in the range, however
/// much of the file was fetched for either; and neither finds a file where the
/// other finds none.
pub proof fn range_read_is_slice(
    nodes: Nodes,
    path: Seq<u8>,
    bucket: Map<Seq<u8>, Seq<u8>>,
    a: Map<Seq<u8>, Seq<u8>>,
    full: Option<ReadStep>,
    b: Map<Seq<u8>, Seq<u8>>,
    offset: nat,
    len: nat,
    part: Option<ReadStep>,
)
    requires
        nodes.contains_key(path) && nodes[path] is File ==> stocked(
            nodes[path]->File_content,
            bucket,
        ),
        fetched_from(a, bucket),
        fetched_from(b, bucket),
        file_read(nodes, a, path, 0, None, full),
        file_read(nodes, b, path, offset, Some(len), part),
    ensures
        full is None <==> part is None,
        match (full, part) {
            (Some(ReadStep::Done(f)), Some(ReadStep::Done(p))) => p@ == f@.subrange(
                least(offset, f@.len()) as int,
                least(offset + len, f@.len()) as int,
            ),
            _ => true,
        },
{
    if nodes.contains_key(path) && nodes[path] is File {
        let content = nodes[path]->File_content;
        let w = content_gathered(content, bucket, a, 0, content.size(), full->0);
        let v = content_gathered(content, bucket, b, offset, len, part->0);
        assert(w == v);
        assert(clip(w, 0, content.size()) =~= w);
    }
}

// ---- the write handle -----------------------------------------------------

/// A mounted volume: the write handle.
pub struct Volume {
    pub vol: String,
    pub token: String,
    /// The current in-memory view; consistent with the volume stream after
    /// every commit.
    pub image: FsImage,
    pub tail: Option<Version>,
    pub pending: Vec<Delta>,
    /// Which of the pending deltas put a file in the place of something else.
    pub marks: Vec<bool>,
    /// Content block cache, filled lazily by reads.
    pub blocks: Blocks,
}

/// The image of a run of segments.
pub open spec fn merge_all(segs: Seq<Changes>) -> Nodes
    decreases segs.len(),
{
    if segs.len() == 0 {
        Map::empty()
    } else {
        merged(merge_all(segs.drop_last()), segs.last())
    }
}

pub open spec fn changes_of(segs: Seq<Segment>) -> Seq<Changes> {
    Seq::new(segs.len(), |i: int| segs[i].entries@)
}

/// Merges all segments of a manifest, oldest first.
pub fn load_segments(segments: Vec<Segment>) -> (r: FsImage)
    ensures
        r@ == merge_all(changes_of(segments@)),
{
    let ghost all = segments@;
    let ghost cs = changes_of(all);
    let n: usize = segments.len();
    let mut rest: Vec<Segment> = segments;
    let mut image = FsImage::new();
    let mut i: usize = 0;
    assert(cs.take(0) =~= Seq::<Changes>::empty());
    while i < n
        invariant
            i <= n,
            n == all.len(),
            rest@ == all.skip(i as int),
            cs == changes_of(all),
            image@ == merge_all(cs.take(i as int)),
        decreases n - i,
    {
        let seg = rest.remove(0);
        proof {
            assert(seg == all[i as int]);
            assert(rest@ =~= all.skip(i + 1));
            assert(cs.take(i + 1).drop_last() =~= cs.take(i as int));
            assert(cs.take(i + 1).last() == seg.entries@);
        }
        image.merge_segment(seg);
        i += 1;
    }
    assert(cs.take(i as int) =~= cs);
    image
}

impl FsImage {
    /// Applies a run of deltas; nodes are dated by the clock as they are
    /// created.
    pub fn replay(&mut self, deltas: &Vec<Delta>)
        requires
            forall|i: int| 0 <= i < deltas.len() ==> fits((#[trigger] deltas@[i])@),
        ensures
            exists|nows: Seq<i64>|
                nows.len() == deltas.len() && final(self)@ == #[trigger] replay(
                    old(self)@,
                    views(deltas@),
                    nows,
                ),
    {
        let mut nows: Vec<i64> = Vec::new();
        let mut i: usize = 0;
        let ghost start = self@;
        while i < deltas.len()
            invariant
                nows.len() == i,
                i <= deltas.len(),
                self@ == start,
                start == old(self)@,
            decreases deltas.len() - i,
        {
            nows.push(now_ms());
            i += 1;
        }
        self.replay_at(deltas, &nows);
    }

    /// Applies a run of deltas, `nows[i]` dating what the i-th creates.
    pub fn replay_at(&mut self, deltas: &Vec<Delta>, nows: &Vec<i64>)
        requires
            nows.len() == deltas.len(),
            forall|i: int| 0 <= i < deltas.len() ==> fits((#[trigger] deltas@[i])@),
        ensures
            final(self)@ == replay(old(self)@, views(deltas@), nows@),
    {
        let ghost ds = views(deltas@);
        let ghost start = self@;
        let mut i: usize = 0;
        assert(ds.take(0) =~= Seq::<DeltaView>::empty());
        while i < deltas.len()
            invariant
                i <= deltas.len(),
                nows.len() == deltas.len(),
                ds == views(deltas@),
                start == old(self)@,
                forall|j: int| 0 <= j < deltas.len() ==> fits((#[trigger] deltas@[j])@),
                self@ == replay(start, ds.take(i as int), nows@),
            decreases deltas.len() - i,
        {
            proof {
                assert(ds.take(i + 1).drop_last() =~= ds.take(i as int));
                assert(ds.take(i + 1).last() == deltas@[i as int]@);
            }
            self.apply_at(&deltas[i], nows[i]);
            i += 1;
        }
        assert(ds.take(i as int) =~= ds);
    }
}

/// `b` cut or zero-filled to `size`.
pub open spec fn resized(b: Seq<u8>, size: nat) -> Seq<u8> {
    Seq::new(
        size,
        |i: int|
            if i < b.len() {
                b[i]
            } else {
                0u8
            },
    )
}

impl Volume {
    /// A mounted volume: the image of the latest manifest's segments with the
    /// deltas since applied. `last` is the version of the last event since the
    /// snapshot, `through` the snapshot's.
    pub fn mount(
        vol: String,
        token: String,
        segments: Vec<Segment>,
        deltas: &Vec<Delta>,
        last: Option<Version>,
        through: Option<Version>,
    ) -> (r: Self)
        requires
            forall|i: int| 0 <= i < deltas.len() ==> fits((#[trigger] deltas@[i])@),
        ensures
            exists|nows: Seq<i64>|
                nows.len() == deltas.len() && r.image@ == #[trigger] replay(
                    merge_all(changes_of(segments@)),
                    views(deltas@),
                    nows,
                ),
            r.tail == (if last is Some {
                last
            } else {
                through
            }),
            r.vol@ == vol@,
            r.token@ == token@,
            r.pending.len() == 0,
            r.marks.len() == 0,
            r.blocks@ == Map::<Seq<u8>, Seq<u8>>::empty(),
    {
        let mut image = load_segments(segments);
        image.replay(deltas);
        let tail = restored_through(last, through);
        Volume {
            vol,
            token,
            image,
            tail,
            pending: Vec::new(),
            marks: Vec::new(),
            blocks: Table::new(),
        }
    }

    /// Buffers a mutation; nothing is durable until it is committed.
    pub fn mutate(&mut self, delta: Delta)
        requires
            fits(delta@),
        ensures
            exists|now: i64|
                final(self).image@ == #[trigger] apply_delta(old(self).image@, delta@, now),
            final(self).pending@ == old(self).pending@.push(delta),
            final(self).marks@ == old(self).marks@.push(replaces(old(self).image@, delta@)),
            final(self).tail == old(self).tail,
            final(self).blocks == old(self).blocks,
            final(self).vol == old(self).vol,
            final(self).token == old(self).token,
    {
        let mark = match &delta {
            Delta::Write { path, data: Data::Inline(_), .. } => match self.image.nodes.get(
                path.as_key(),
            ) {
                Some(Node::File { .. }) => false,
                Some(_) => true,
                None => false,
            },
            _ => false,
        };
        self.image.apply(&delta);
        self.pending.push(delta);
        self.marks.push(mark);
    }

    /// Extent write: `data` from `offset` on, zeros in a gap, the rest of the
    /// file as it was. Content moves to blocks at commit if the resulting file
    /// is large. Where the file is kept as blocks and one is not cached, its
    /// hash comes back and nothing is written: fetch it and write again.
    #[must_use]
    pub fn write_file(&mut self, path: &str, offset: u64, data: Vec<u8>) -> (r: Option<String>)
        requires
            offset + data.len() <= usize::MAX,
            image_sized(old(self).image@),
        ensures
            match r {
                Some(hash) => *final(self) == *old(self) && awaits_block(
                    old(self).image@,
                    old(self).blocks@,
                    utf8(path@),
                    hash@,
                ),
                None => {
                    let nodes = old(self).image@;
                    let cache = old(self).blocks@;
                    let d = extent_write(nodes, cache, utf8(path@), offset, data@);
                    &&& whole_cached(nodes, cache, utf8(path@))
                    &&& views(final(self).pending@) == views(old(self).pending@).push(d)
                    &&& final(self).marks@ == old(self).marks@.push(replaces(nodes, d))
                    &&& exists|now: i64|
                        final(self).image@ == #[trigger] apply_delta(nodes, d, now)
                            && final(self).image@ == file_put(
                            nodes,
                            utf8(path@),
                            splice(file_bytes(nodes, cache, utf8(path@)), offset as int, data@),
                            now,
                        )
                },
            },
            final(self).tail == old(self).tail,
            final(self).blocks == old(self).blocks,
            final(self).vol == old(self).vol,
            final(self).token == old(self).token,
    {
        let ghost before = views(self.pending@);
        let ghost nodes = self.image@;
        let ghost cache = self.blocks@;
        let ghost p = utf8(path@);
        let ghost dv = data@;
        let (offset, data): (u64, Vec<u8>) = if needs_content(&self.image, path) {
            match self.read_file(path) {
                Some(ReadStep::Done(content)) => {
                    assert(content@ == file_bytes(nodes, cache, p));
                    (0, splice_into(content, offset as usize, &data))
                },
                Some(ReadStep::Fetch(hash)) => return Some(hash),
                None => (offset, data),
            }
        } else {
            (offset, data)
        };
        assert(data.len() <= usize::MAX);
        let delta = Delta::Write { path: path.to_owned(), offset, data: Data::Inline(data) };
        let ghost d = delta@;
        assert(fits(d));
        self.mutate(delta);
        proof {
            assert(views(self.pending@) =~= before.push(d));
            assert(splice(Seq::empty(), 0, data@) =~= data@);
        }
        None
    }

    /// Size change of the file at `path`: the content is cut or grown with
    /// zeros, and the metadata stays but for the modification time. Anything
    /// else there makes way for a new file. As with a write, the hash of a
    /// block to fetch comes back where the content is not at hand.
    #[must_use]
    pub fn truncate(&mut self, path: &str, size: usize) -> (r: Option<String>)
        requires
            image_sized(old(self).image@),
        ensures
            match r {
                Some(hash) => *final(self) == *old(self) && awaits_block(
                    old(self).image@,
                    old(self).blocks@,
                    utf8(path@),
                    hash@,
                ),
                None => {
                    let nodes = old(self).image@;
                    let b = resized(
                        file_bytes(nodes, old(self).blocks@, utf8(path@)),
                        size as nat,
                    );
                    &&& whole_cached(nodes, old(self).blocks@, utf8(path@))
                    &&& exists|now: i64|
                        {
                            &&& views(final(self).pending@) == views(old(self).pending@)
                                + #[trigger] truncation(nodes, utf8(path@), b, now)
                            &&& final(self).marks@ == old(self).marks@ + marks_of(
                                nodes,
                                truncation(nodes, utf8(path@), b, now),
                                now,
                            )
                            &&& final(self).image@ == run(
                                nodes,
                                truncation(nodes, utf8(path@), b, now),
                                now,
                            )
                            &&& final(self).image@ == truncated(nodes, utf8(path@), b, now)
                        }
                },
            },
            final(self).tail == old(self).tail,
            final(self).blocks == old(self).blocks,
            final(self).vol == old(self).vol,
            final(self).token == old(self).token,
    {
        let ghost before = views(self.pending@);
        let ghost marks = self.marks@;
        let ghost nodes = self.image@;
        let ghost cache = self.blocks@;
        let ghost p = utf8(path@);
        let (is_file, mut c): (bool, Vec<u8>) = match self.read_file(path) {
            Some(ReadStep::Done(content)) => (true, content),
            Some(ReadStep::Fetch(hash)) => return Some(hash),
            None => (false, Vec::new()),
        };
        let ghost bytes = c@;
        assert(bytes =~= file_bytes(nodes, cache, p));
        c.resize(size, 0);
        let ghost b = c@;
        assert(b =~= resized(bytes, size as nat));
        let clear = if is_file {
            Delta::Write { path: path.to_owned(), offset: 0, data: Data::Blocks(Vec::new()) }
        } else {
            Delta::Remove { path: path.to_owned() }
        };
        let w = Delta::Write { path: path.to_owned(), offset: 0, data: Data::Inline(c) };
        let ghost cv = clear@;
        let ghost wv = w@;
        let ghost none = Seq::<DeltaView>::empty();
        proof {
            assert(views(Seq::<BlockRef>::empty()) =~= Seq::<BlockView>::empty());
            assert(none.push(cv).drop_last() =~= none);
            assert(none.push(cv).push(wv).drop_last() =~= none.push(cv));
            assert(splice(Seq::empty(), 0, b) =~= b);
        }
        self.mutate(clear);
        assert(views(self.pending@) =~= before.push(cv));
        let ghost cleared = self.image@;
        self.mutate(w);
        assert(views(self.pending@) =~= before.push(cv).push(wv));
        if is_file {
            let now: i64 = now_ms();
            let t = Delta::SetAttr {
                path: path.to_owned(),
                mode: None,
                uid: None,
                gid: None,
                mtime_ms: Some(now),
            };
            let ghost tv = t@;
            self.mutate(t);
            proof {
                reveal_with_fuel(run, 4);
                assert(views(self.pending@) =~= before.push(cv).push(wv).push(tv));
                let ds = truncation(nodes, p, b, now);
                assert(ds =~= none.push(cv).push(wv).push(tv));
                assert(ds.drop_last() =~= none.push(cv).push(wv));
                assert(self.image@ =~= truncated(nodes, p, b, now));
                assert(run(nodes, ds, now) =~= self.image@);
                assert(views(self.pending@) =~= before + ds);
                truncation_marks(nodes, p, b, now);
                assert(self.marks@ =~= marks + marks_of(nodes, ds, now));
            }
        } else {
            proof {
                reveal_with_fuel(run, 3);
                let now = choose|now: i64| self.image@ == #[trigger] apply_delta(cleared, wv, now);
                let ds = truncation(nodes, p, b, now);
                assert(ds =~= none.push(cv).push(wv));
                assert(run(nodes, ds, now) =~= self.image@);
                assert(self.image@ =~= truncated(nodes, p, b, now));
                assert(views(self.pending@) =~= before + ds);
                truncation_marks(nodes, p, b, now);
                assert(self.marks@ =~= marks + marks_of(nodes, ds, now));
            }
        }
        None
    }

    /// The whole of the file at `path`: inline bytes, or its blocks (fetched
    /// lazily, cached per block hash). `None` where there is no file.
    pub fn read_file(&self, path: &str) -> (r: Option<ReadStep>)
        requires
            image_sized(self.image@),
        ensures
            file_read(self.image@, self.blocks@, utf8(path@), 0, None, r),
    {
        read_file(&self.image, &self.blocks, path)
    }

    /// The bytes of the file at `path` in `[offset, offset + len)`: only the
    /// overlapping blocks are fetched.
    pub fn read_file_range(&self, path: &str, offset: u64, len: u64) -> (r: Option<ReadStep>)
        requires
            offset + len <= u64::MAX,
            image_sized(self.image@),
        ensures
            file_read(self.image@, self.blocks@, utf8(path@), offset as nat, Some(len as nat), r),
    {
        read_file_range(&self.image, &self.blocks, path, offset, len)
    }

    /// Keeps a fetched block.
    pub fn cache_block(&mut self, hash: String, bytes: Vec<u8>)
        ensures
            final(self).blocks@ == old(self).blocks@.insert(utf8(hash@), bytes@),
            final(self).image == old(self).image,
            final(self).pending == old(self).pending,
            final(self).marks == old(self).marks,
            final(self).tail == old(self).tail,
            final(self).vol == old(self).vol,
            final(self).token == old(self).token,
    {
        self.blocks.insert(hash, bytes);
    }

    /// Blocks fetched into the cache so far.
    pub fn block_cache_len(&self) -> (n: usize)
        ensures
            n == self.blocks@.dom().len(),
    {
        self.blocks.len()
    }

    /// The record that announces a checkpoint of the volume.
    pub fn record(&self, through_version: Version) -> (r: CompactionRecord)
        ensures
            r@ == checkpoint_record(self.vol@, through_version, r.ts_ms),
    {
        record(self.vol.as_str(), through_version)
    }
}

/// Whether the block lengths of every file add up within 64 bits.
pub open spec fn image_sized(nodes: Nodes) -> bool {
    forall|k: Seq<u8>| #[trigger]
        nodes.contains_key(k) && nodes[k] is File ==> sized(nodes[k]->File_content)
}

/// The bytes of content: inline, or the blocks as the cache holds them.
pub open spec fn content_bytes(content: ContentView, cache: Map<Seq<u8>, Seq<u8>>) -> Seq<u8> {
    match content {
        ContentView::Inline(b) => b,
        ContentView::Blocks { blocks, size } => gathered(
            blocks,
            cache,
            blocks.len() as int,
            0,
            size as nat,
        ),
    }
}

/// The bytes of the file at `path`. None where there is no file.
pub open spec fn file_bytes(nodes: Nodes, cache: Map<Seq<u8>, Seq<u8>>, path: Seq<u8>) -> Seq<u8> {
    if nodes.contains_key(path) && nodes[path] is File {
        content_bytes(nodes[path]->File_content, cache)
    } else {
        Seq::empty()
    }
}

/// Whether the cache holds every block that the file at `path` is kept as.
pub open spec fn whole_cached(
    nodes: Nodes,
    cache: Map<Seq<u8>, Seq<u8>>,
    path: Seq<u8>,
) -> bool {
    is_block_backed(nodes, path) ==> all_cached(
        nodes[path]->File_content->blocks,
        cache,
        nodes[path]->File_content->blocks.len() as int,
        0,
        nodes[path]->File_content.size(),
    )
}

/// Whether the file at `path` is kept as blocks, and the one with this hash is
/// the first that the cache does not hold.
pub open spec fn awaits_block(
    nodes: Nodes,
    cache: Map<Seq<u8>, Seq<u8>>,
    path: Seq<u8>,
    hash: Seq<char>,
) -> bool {
    let blocks = nodes[path]->File_content->blocks;
    let size = nodes[path]->File_content.size();
    &&& is_block_backed(nodes, path)
    &&& exists|i: int|
        0 <= i < blocks.len() && #[trigger] overlaps(blocks, i, 0, size) && all_cached(
            blocks,
            cache,
            i,
            0,
            size,
        ) && !cache.contains_key(utf8(blocks[i].hash)) && hash == blocks[i].hash
}

/// The delta of an extent write: the extent, or the whole new content of a
/// file kept as blocks.
pub open spec fn extent_write(
    nodes: Nodes,
    cache: Map<Seq<u8>, Seq<u8>>,
    path: Seq<u8>,
    offset: u64,
    data: Seq<u8>,
) -> DeltaView {
    if is_block_backed(nodes, path) {
        DeltaView::Write {
            path,
            offset: 0,
            data: DataView::Inline(splice(file_bytes(nodes, cache, path), offset as int, data)),
        }
    } else {
        DeltaView::Write { path, offset, data: DataView::Inline(data) }
    }
}

/// `nodes` with a file of content `b` at `path`: the one that stood there,
/// with its metadata, or a new one.
pub open spec fn file_put(nodes: Nodes, path: Seq<u8>, b: Seq<u8>, now: i64) -> Nodes {
    nodes.insert(
        path,
        NodeView::File { content: ContentView::Inline(b), meta: meta_written(nodes, path, now) },
    )
}

/// A write of the whole new content of a file is the splice into its old
/// content, however that is kept.
pub proof fn whole_write_is_splice(
    nodes: Nodes,
    cache: Map<Seq<u8>, Seq<u8>>,
    path: Seq<u8>,
    data: Seq<u8>,
    now: i64,
)
    requires
        file_bytes(nodes, cache, path).len() <= data.len(),
    ensures
        apply_delta(
            nodes,
            DeltaView::Write { path, offset: 0, data: DataView::Inline(data) },
            now,
        ) == file_put(nodes, path, splice(file_bytes(nodes, cache, path), 0, data), now),
{
    assert(splice(file_bytes(nodes, cache, path), 0, data) =~= data);
    assert(splice(Seq::empty(), 0, data) =~= data);
}

/// The deltas that leave a file of content `b` at `path`: the old content
/// goes, so that a shrink does not splice the new one into it.
pub open spec fn truncation(nodes: Nodes, path: Seq<u8>, b: Seq<u8>, now: i64) -> Seq<DeltaView> {
    let w = DeltaView::Write { path, offset: 0, data: DataView::Inline(b) };
    if nodes.contains_key(path) && nodes[path] is File {
        seq![
            DeltaView::Write { path, offset: 0, data: DataView::Blocks(Seq::empty()) },
            w,
            DeltaView::SetAttr { path, mode: None, uid: None, gid: None, mtime_ms: Some(now) },
        ]
    } else {
        seq![DeltaView::Remove { path }, w]
    }
}

/// The marks of a run of deltas.
pub open spec fn marks_of(nodes: Nodes, ds: Seq<DeltaView>, now: i64) -> Seq<bool> {
    Seq::new(ds.len(), |i: int| replaces(run(nodes, ds.take(i), now), ds[i]))
}

/// A truncation writes over nothing but files.
proof fn truncation_marks(nodes: Nodes, path: Seq<u8>, b: Seq<u8>, now: i64)
    ensures
        forall|i: int|
            0 <= i < truncation(nodes, path, b, now).len() ==> !(#[trigger] marks_of(
                nodes,
                truncation(nodes, path, b, now),
                now,
            )[i]),
{
    let ds = truncation(nodes, path, b, now);
    reveal_with_fuel(run, 3);
    assert(ds.take(0) =~= Seq::<DeltaView>::empty());
    assert(ds.take(1) =~= seq![ds[0]]);
    assert(seq![ds[0]].drop_last() =~= Seq::<DeltaView>::empty());
    assert(run(nodes, ds.take(1), now) == apply_delta(nodes, ds[0], now));
    assert(ds[0] is Write ==> nodes[path] is File);
}

/// What they leave: the same file with content `b` and a new modification
/// time, or a new file in place of anything else.
pub open spec fn truncated(nodes: Nodes, path: Seq<u8>, b: Seq<u8>, now: i64) -> Nodes {
    if nodes.contains_key(path) && nodes[path] is File {
        nodes.insert(
            path,
            NodeView::File {
                content: ContentView::Inline(b),
                meta: MetaView { mtime_ms: now, ..nodes[path].meta() },
            },
        )
    } else {
        file_put(prune(nodes, path), path, b, now)
    }
}

/// What a read of a file comes to: `None` where there is no file; the whole
/// file where no length is given.
pub open spec fn file_read(
    nodes: Nodes,
    cache: Map<Seq<u8>, Seq<u8>>,
    path: Seq<u8>,
    offset: nat,
    len: Option<nat>,
    r: Option<ReadStep>,
) -> bool {
    if nodes.contains_key(path) && nodes[path] is File {
        let content = nodes[path]->File_content;
        r is Some && read_outcome(
            content,
            cache,
            offset,
            match len {
                Some(len) => len,
                None => content.size(),
            },
            r->0,
        )
    } else {
        r is None
    }
}

pub fn read_file(image: &FsImage, cache: &Blocks, path: &str) -> (r: Option<ReadStep>)
    requires
        image_sized(image@),
    ensures
        file_read(image@, cache@, utf8(path@), 0, None, r),
{
    match image.nodes.get(path.as_bytes()) {
        Some(Node::File { content, .. }) => {
            assert(image@.contains_key(utf8(path@)));
            let size = content.len();
            Some(read_content(cache, content, 0, size))
        },
        _ => None,
    }
}

pub fn read_file_range(image: &FsImage, cache: &Blocks, path: &str, offset: u64, len: u64) -> (r:
    Option<ReadStep>)
    requires
        offset + len <= u64::MAX,
        image_sized(image@),
    ensures
        file_read(image@, cache@, utf8(path@), offset as nat, Some(len as nat), r),
{
    match image.nodes.get(path.as_bytes()) {
        Some(Node::File { content, .. }) => {
            assert(image@.contains_key(utf8(path@)));
            Some(read_content(cache, content, offset, len))
        },
        _ => None,
    }
}

/// A remount loses nothing: with the first deltas sealed into a segment and
/// the others in the backlog, it gives the image of all of them in order.
/// (Every sealed rename is clean.)
pub proof fn remount_reproduces_image(
    segs: Seq<Changes>,
    sealed: Seq<DeltaView>,
    backlog: Seq<DeltaView>,
    s: Seq<i64>,
    t: Seq<i64>,
)
    requires
        merge_all(segs).dom().finite(),
        crate::fuse::checkpoint::clean_run(merge_all(segs), sealed, s),
        s.len() == sealed.len(),
        t.len() == backlog.len(),
    ensures
        replay(
            merge_all(segs.push(crate::fuse::checkpoint::recorded(merge_all(segs), sealed, s))),
            backlog,
            t,
        ) == replay(merge_all(segs), sealed + backlog, s + t),
{
    let base = merge_all(segs);
    let changes = crate::fuse::checkpoint::recorded(base, sealed, s);
    assert(segs.push(changes).drop_last() =~= segs);
    crate::fuse::checkpoint::checkpoint_reproduces_image(base, sealed, s);
    crate::fuse::replica::replay_concat(base, sealed, backlog, s, t);
}

impl Volume {
    /// The version that a checkpoint covers: the last committed one.
    pub fn checkpoint_through(&self) -> (r: Result<Version, Error>)
        ensures
            match r {
                Ok(v) => self.tail == Some(v),
                Err(e) => self.tail is None && says(e, "nothing to checkpoint"@),
            },
    {
        match self.tail {
            Some(v) => Ok(v),
            None => Err(refuse("nothing to checkpoint")),
        }
    }
}

impl Manifest {
    pub fn empty() -> (r: Self)
        ensures
            views(r.segments@) == Seq::<Seq<char>>::empty(),
    {
        let r = Manifest { segments: Vec::new() };
        assert(views(r.segments@) =~= Seq::<Seq<char>>::empty());
        r
    }

    /// The manifest with one more segment.
    pub fn push(&mut self, path: String)
        ensures
            views(final(self).segments@) == views(old(self).segments@).push(path@),
    {
        let ghost before = views(self.segments@);
        let ghost p = path@;
        self.segments.push(path);
        assert(views(self.segments@) =~= before.push(p));
    }
}

} // verus!

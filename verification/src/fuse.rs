//! A filesystem whose state lives in an event stream.
//!
//! One volume is one stream. Every mutation is a [`Delta`]; the state of the
//! volume is the fold of its deltas into an [`FsImage`]. A checkpoint seals
//! the changes since the last one into a [`Segment`], and a [`Manifest`] names
//! the segments that compose the image.
use vstd::prelude::*;
use vstd::string::*;

pub mod checkpoint;
pub mod commit;
pub mod consistency;
pub mod fs;
pub mod mirror;
pub mod moves;
pub mod ops;
pub mod replica;
pub mod sizes;
pub mod store;

use crate::order::{after, has_prefix, lemma_prefix_split, lex_asymmetric, lex_irreflexive, lex_lt};
use crate::stamp::now_ms;
use crate::table::{
    any_key, dup_all, is_listing, lemma_under, listing, under, views, Dup, Key, Table,
};
use crate::text::{after_slash, joined_by_slash, utf8, SLASH};

verus! {

/// File metadata persisted with every node.
#[derive(Debug)]
pub struct NodeMeta {
    pub mode: u32,
    pub uid: u32,
    pub gid: u32,
    pub mtime_ms: i64,
    pub xattrs: Table<String, Vec<u8>>,
}

pub struct MetaView {
    pub mode: u32,
    pub uid: u32,
    pub gid: u32,
    pub mtime_ms: i64,
    pub xattrs: Map<Seq<u8>, Seq<u8>>,
}

impl View for NodeMeta {
    type V = MetaView;

    open spec fn view(&self) -> MetaView {
        MetaView {
            mode: self.mode,
            uid: self.uid,
            gid: self.gid,
            mtime_ms: self.mtime_ms,
            xattrs: self.xattrs@,
        }
    }
}

impl Dup for NodeMeta {
    fn dup(&self) -> (r: Self) {
        NodeMeta {
            mode: self.mode,
            uid: self.uid,
            gid: self.gid,
            mtime_ms: self.mtime_ms,
            xattrs: self.xattrs.dup(),
        }
    }
}

/// Metadata with the given permission bits, owned by root, touched at `now`.
pub open spec fn fresh_meta(mode: u32, now: i64) -> MetaView {
    MetaView { mode, uid: 0, gid: 0, mtime_ms: now, xattrs: Map::empty() }
}

/// Permission bits 0644, 0755 and 0777: what a new file, directory and
/// symbolic link start with.
pub const FILE_MODE: u32 = 0x1a4;

pub const DIR_MODE: u32 = 0x1ed;

pub const SYMLINK_MODE: u32 = 0x1ff;

impl NodeMeta {
    pub fn fresh(mode: u32, now: i64) -> (r: Self)
        ensures
            r@ == fresh_meta(mode, now),
    {
        NodeMeta { mode, uid: 0, gid: 0, mtime_ms: now, xattrs: Table::new() }
    }

    pub fn file() -> (r: Self)
        ensures
            r@ == fresh_meta(FILE_MODE, r.mtime_ms),
    {
        NodeMeta::fresh(FILE_MODE, now_ms())
    }

    pub fn dir() -> (r: Self)
        ensures
            r@ == fresh_meta(DIR_MODE, r.mtime_ms),
    {
        NodeMeta::fresh(DIR_MODE, now_ms())
    }

    pub fn symlink() -> (r: Self)
        ensures
            r@ == fresh_meta(SYMLINK_MODE, r.mtime_ms),
    {
        NodeMeta::fresh(SYMLINK_MODE, now_ms())
    }
}

/// Location of one content-addressed block object (`blocks/{hash}`).
#[derive(Debug)]
pub struct BlockRef {
    pub hash: String,
    pub len: u64,
}

pub struct BlockView {
    pub hash: Seq<char>,
    pub len: u64,
}

impl View for BlockRef {
    type V = BlockView;

    open spec fn view(&self) -> BlockView {
        BlockView { hash: self.hash@, len: self.len }
    }
}

impl Dup for BlockRef {
    fn dup(&self) -> (r: Self) {
        BlockRef { hash: self.hash.clone(), len: self.len }
    }
}

/// File bytes: inline for small writes, or a list of content-addressed blocks
/// in the bucket for anything past a chunk.
#[derive(Debug)]
pub enum Content {
    Inline(Vec<u8>),
    Blocks { blocks: Vec<BlockRef>, size: u64 },
}

pub enum ContentView {
    Inline(Seq<u8>),
    Blocks { blocks: Seq<BlockView>, size: u64 },
}

impl View for Content {
    type V = ContentView;

    open spec fn view(&self) -> ContentView {
        match self {
            Content::Inline(b) => ContentView::Inline(b@),
            Content::Blocks { blocks, size } => ContentView::Blocks {
                blocks: views(blocks@),
                size: *size,
            },
        }
    }
}

impl Dup for Content {
    fn dup(&self) -> (r: Self) {
        match self {
            Content::Inline(b) => Content::Inline(b.dup()),
            Content::Blocks { blocks, size } => Content::Blocks {
                blocks: dup_all(blocks),
                size: *size,
            },
        }
    }
}

impl ContentView {
    /// Total file size in bytes.
    pub open spec fn size(self) -> nat {
        match self {
            ContentView::Inline(b) => b.len(),
            ContentView::Blocks { blocks, size } => size as nat,
        }
    }
}

impl Content {
    /// Total file size in bytes.
    pub fn len(&self) -> (n: u64)
        ensures
            n == self@.size(),
    {
        match self {
            Content::Inline(b) => b.len() as u64,
            Content::Blocks { size, .. } => *size,
        }
    }
}

/// A filesystem node: file contents, directory marker, or symlink target.
#[derive(Debug)]
pub enum Node {
    File { content: Content, meta: NodeMeta },
    Dir { meta: NodeMeta },
    Symlink { target: String, meta: NodeMeta },
}

pub enum NodeView {
    File { content: ContentView, meta: MetaView },
    Dir { meta: MetaView },
    Symlink { target: Seq<char>, meta: MetaView },
}

impl View for Node {
    type V = NodeView;

    open spec fn view(&self) -> NodeView {
        match self {
            Node::File { content, meta } => NodeView::File { content: content@, meta: meta@ },
            Node::Dir { meta } => NodeView::Dir { meta: meta@ },
            Node::Symlink { target, meta } => NodeView::Symlink { target: target@, meta: meta@ },
        }
    }
}

impl Dup for Node {
    fn dup(&self) -> (r: Self) {
        match self {
            Node::File { content, meta } => Node::File { content: content.dup(), meta: meta.dup() },
            Node::Dir { meta } => Node::Dir { meta: meta.dup() },
            Node::Symlink { target, meta } => Node::Symlink {
                target: target.clone(),
                meta: meta.dup(),
            },
        }
    }
}

impl NodeView {
    pub open spec fn meta(self) -> MetaView {
        match self {
            NodeView::File { content, meta } => meta,
            NodeView::Dir { meta } => meta,
            NodeView::Symlink { target, meta } => meta,
        }
    }

    pub open spec fn with_meta(self, m: MetaView) -> NodeView {
        match self {
            NodeView::File { content, meta } => NodeView::File { content, meta: m },
            NodeView::Dir { meta } => NodeView::Dir { meta: m },
            NodeView::Symlink { target, meta } => NodeView::Symlink { target, meta: m },
        }
    }
}

impl Node {
    pub fn meta(&self) -> (m: &NodeMeta)
        ensures
            m@ == self@.meta(),
    {
        match self {
            Node::File { meta, .. } => meta,
            Node::Dir { meta } => meta,
            Node::Symlink { meta, .. } => meta,
        }
    }

    fn set_meta(self, m: NodeMeta) -> (r: Node)
        ensures
            r@ == self@.with_meta(m@),
    {
        match self {
            Node::File { content, .. } => Node::File { content, meta: m },
            Node::Dir { .. } => Node::Dir { meta: m },
            Node::Symlink { target, .. } => Node::Symlink { target, meta: m },
        }
    }
}

/// File data carried by a write delta: bytes inline, or block references
/// after the commit path chunked them.
#[derive(Debug)]
pub enum Data {
    Inline(Vec<u8>),
    Blocks(Vec<BlockRef>),
}

pub enum DataView {
    Inline(Seq<u8>),
    Blocks(Seq<BlockView>),
}

impl View for Data {
    type V = DataView;

    open spec fn view(&self) -> DataView {
        match self {
            Data::Inline(b) => DataView::Inline(b@),
            Data::Blocks(b) => DataView::Blocks(views(b@)),
        }
    }
}

impl Dup for Data {
    fn dup(&self) -> (r: Self) {
        match self {
            Data::Inline(b) => Data::Inline(b.dup()),
            Data::Blocks(b) => Data::Blocks(dup_all(b)),
        }
    }
}

/// Chunk size for block storage.
pub const CHUNK: usize = 0x10_0000;

/// One filesystem mutation, committed as an event on the volume stream.
#[derive(Debug)]
pub enum Delta {
    /// Extent write: `Inline` splices into the file (zero-filling a gap,
    /// creating it if missing), and carries the whole new content of a file
    /// that is kept as blocks; `Blocks` replaces the file's entire content.
    /// Either way the file keeps its metadata.
    Write { path: String, offset: u64, data: Data },
    Mkdir { path: String },
    /// Removes the node at path and everything below it.
    Remove { path: String },
    Rename { from: String, to: String },
    Symlink { path: String, target: String },
    /// Sets the given metadata fields; unset fields keep their values.
    SetAttr {
        path: String,
        mode: Option<u32>,
        uid: Option<u32>,
        gid: Option<u32>,
        mtime_ms: Option<i64>,
    },
    /// Sets (`Some`) or removes (`None`) an xattr.
    SetXattr { path: String, name: String, value: Option<Vec<u8>> },
}

/// A delta with its paths and names as bytes.
pub enum DeltaView {
    Write { path: Seq<u8>, offset: u64, data: DataView },
    Mkdir { path: Seq<u8> },
    Remove { path: Seq<u8> },
    Rename { from: Seq<u8>, to: Seq<u8> },
    Symlink { path: Seq<u8>, target: Seq<char> },
    SetAttr {
        path: Seq<u8>,
        mode: Option<u32>,
        uid: Option<u32>,
        gid: Option<u32>,
        mtime_ms: Option<i64>,
    },
    SetXattr { path: Seq<u8>, name: Seq<u8>, value: Option<Seq<u8>> },
}

pub open spec fn opt_bytes(b: Option<Vec<u8>>) -> Option<Seq<u8>> {
    match b {
        Some(b) => Some(b@),
        None => None,
    }
}

impl View for Delta {
    type V = DeltaView;

    open spec fn view(&self) -> DeltaView {
        match self {
            Delta::Write { path, offset, data } => DeltaView::Write {
                path: utf8(path@),
                offset: *offset,
                data: data@,
            },
            Delta::Mkdir { path } => DeltaView::Mkdir { path: utf8(path@) },
            Delta::Remove { path } => DeltaView::Remove { path: utf8(path@) },
            Delta::Rename { from, to } => DeltaView::Rename { from: utf8(from@), to: utf8(to@) },
            Delta::Symlink { path, target } => DeltaView::Symlink {
                path: utf8(path@),
                target: target@,
            },
            Delta::SetAttr { path, mode, uid, gid, mtime_ms } => DeltaView::SetAttr {
                path: utf8(path@),
                mode: *mode,
                uid: *uid,
                gid: *gid,
                mtime_ms: *mtime_ms,
            },
            Delta::SetXattr { path, name, value } => DeltaView::SetXattr {
                path: utf8(path@),
                name: utf8(name@),
                value: opt_bytes(*value),
            },
        }
    }
}

impl Dup for Delta {
    fn dup(&self) -> (r: Self) {
        match self {
            Delta::Write { path, offset, data } => Delta::Write {
                path: path.clone(),
                offset: *offset,
                data: data.dup(),
            },
            Delta::Mkdir { path } => Delta::Mkdir { path: path.clone() },
            Delta::Remove { path } => Delta::Remove { path: path.clone() },
            Delta::Rename { from, to } => Delta::Rename { from: from.clone(), to: to.clone() },
            Delta::Symlink { path, target } => Delta::Symlink {
                path: path.clone(),
                target: target.clone(),
            },
            Delta::SetAttr { path, mode, uid, gid, mtime_ms } => Delta::SetAttr {
                path: path.clone(),
                mode: *mode,
                uid: *uid,
                gid: *gid,
                mtime_ms: *mtime_ms,
            },
            Delta::SetXattr { path, name, value } => Delta::SetXattr {
                path: path.clone(),
                name: name.clone(),
                value: match value {
                    Some(v) => Some(v.dup()),
                    None => None,
                },
            },
        }
    }
}

/// What a segment holds for a path: the node, or a tombstone.
#[derive(Debug)]
pub struct Entry(pub Option<Node>);

impl View for Entry {
    type V = Option<NodeView>;

    open spec fn view(&self) -> Option<NodeView> {
        match self.0 {
            Some(n) => Some(n@),
            None => None,
        }
    }
}

impl Dup for Entry {
    fn dup(&self) -> (r: Self) {
        match &self.0 {
            Some(n) => Entry(Some(n.dup())),
            None => Entry(None),
        }
    }
}

/// A sealed set of changes, uploaded as one object. Segments merge
/// newest-wins per path.
#[derive(Debug)]
pub struct Segment {
    pub entries: Table<String, Entry>,
}

/// The ordered set of segments that compose the current state. Stored as the
/// state of a snapshot record.
#[derive(Debug)]
pub struct Manifest {
    pub segments: Vec<String>,
}

/// The changes of a segment by path; `None` is a tombstone.
pub type Changes = Map<Seq<u8>, Option<NodeView>>;

/// The nodes of a volume by path.
pub type Nodes = Map<Seq<u8>, NodeView>;

/// Sum of the block lengths.
pub open spec fn total_len(blocks: Seq<BlockView>) -> nat
    decreases blocks.len(),
{
    if blocks.len() == 0 {
        0
    } else {
        total_len(blocks.drop_last()) + blocks.last().len as nat
    }
}

/// `data` written over `b` at `offset`; a gap is filled with zeros.
pub open spec fn splice(b: Seq<u8>, offset: int, data: Seq<u8>) -> Seq<u8> {
    let end = offset + data.len();
    Seq::new(
        (if b.len() < end { end as nat } else { b.len() }),
        |i: int|
            if offset <= i < end {
                data[i - offset]
            } else if i < b.len() {
                b[i]
            } else {
                0u8
            },
    )
}

/// The prefix shared by everything below `path`.
pub open spec fn below(path: Seq<u8>) -> Seq<u8> {
    path + seq![SLASH]
}

/// Whether `k` is `path` or lies below it.
pub open spec fn in_tree(k: Seq<u8>, path: Seq<u8>) -> bool {
    k == path || has_prefix(k, below(path))
}

/// `nodes` without `path` and everything below it.
pub open spec fn prune(nodes: Nodes, path: Seq<u8>) -> Nodes {
    Map::new(|k: Seq<u8>| nodes.contains_key(k) && !in_tree(k, path), |k: Seq<u8>| nodes[k])
}

/// Where `p`, which lies below `from`, goes when `from` becomes `to`.
pub open spec fn moved_to(p: Seq<u8>, from: Seq<u8>, to: Seq<u8>) -> Seq<u8> {
    below(to) + after(p, below(from).len() as int)
}

/// The node at `p` taken to its new place.
pub open spec fn move_one(nodes: Nodes, p: Seq<u8>, from: Seq<u8>, to: Seq<u8>) -> Nodes {
    nodes.remove(p).insert(moved_to(p, from, to), nodes[p])
}

/// The first `n` listed nodes taken to their new places, one after the other.
pub open spec fn move_first(
    nodes: Nodes,
    l: Seq<(Seq<u8>, NodeView)>,
    n: nat,
    from: Seq<u8>,
    to: Seq<u8>,
) -> Nodes
    decreases n,
{
    if n == 0 {
        nodes
    } else {
        move_one(move_first(nodes, l, (n - 1) as nat, from, to), l[n - 1].0, from, to)
    }
}

/// `from` itself renamed, its descendants not yet.
pub open spec fn rename_root(nodes: Nodes, from: Seq<u8>, to: Seq<u8>) -> Nodes {
    if nodes.contains_key(from) {
        nodes.remove(from).insert(to, nodes[from])
    } else {
        nodes
    }
}

/// `from` renamed to `to`: the node itself, then its descendants in path
/// order.
pub open spec fn rename(nodes: Nodes, from: Seq<u8>, to: Seq<u8>) -> Nodes {
    let root = rename_root(nodes, from, to);
    let l = listing(root, under(below(from)));
    move_first(root, l, l.len(), from, to)
}

pub open spec fn set_attr(
    m: MetaView,
    mode: Option<u32>,
    uid: Option<u32>,
    gid: Option<u32>,
    mtime_ms: Option<i64>,
) -> MetaView {
    MetaView {
        mode: if mode is Some { mode->0 } else { m.mode },
        uid: if uid is Some { uid->0 } else { m.uid },
        gid: if gid is Some { gid->0 } else { m.gid },
        mtime_ms: if mtime_ms is Some { mtime_ms->0 } else { m.mtime_ms },
        xattrs: m.xattrs,
    }
}

pub open spec fn set_xattr(m: MetaView, name: Seq<u8>, value: Option<Seq<u8>>) -> MetaView {
    MetaView {
        xattrs: if value is Some {
            m.xattrs.insert(name, value->0)
        } else {
            m.xattrs.remove(name)
        },
        ..m
    }
}

/// The node at `path` with its metadata replaced; nothing where there is none.
pub open spec fn replace_meta(nodes: Nodes, path: Seq<u8>, m: MetaView) -> Nodes {
    nodes.insert(path, nodes[path].with_meta(m))
}

/// The metadata that an extent leaves at `path`: that of the file it goes into.
/// Anything else makes way for a new file.
pub open spec fn meta_written(nodes: Nodes, path: Seq<u8>, now: i64) -> MetaView {
    if nodes.contains_key(path) && nodes[path] is File {
        nodes[path].meta()
    } else {
        fresh_meta(FILE_MODE, now)
    }
}

/// The node that a write leaves at `path`.
pub open spec fn written(nodes: Nodes, path: Seq<u8>, offset: u64, data: DataView, now: i64) -> NodeView {
    match data {
        // Full replacement with block-stored content: the metadata of
        // whatever stood there stays.
        DataView::Blocks(blocks) => NodeView::File {
            content: ContentView::Blocks { blocks, size: total_len(blocks) as u64 },
            meta: if nodes.contains_key(path) {
                nodes[path].meta()
            } else {
                fresh_meta(FILE_MODE, now)
            },
        },
        // Extent splice into inline content. The bytes of a block-stored file
        // are not at hand here: a write to one carries the whole of them, and
        // its content starts over.
        DataView::Inline(data) => NodeView::File {
            content: ContentView::Inline(
                splice(
                    if nodes.contains_key(path) && nodes[path] is File
                        && nodes[path]->File_content is Inline {
                        nodes[path]->File_content->Inline_0
                    } else {
                        Seq::empty()
                    },
                    offset as int,
                    data,
                ),
            ),
            meta: meta_written(nodes, path, now),
        },
    }
}

/// The state after one delta. `now` dates a node that the delta creates.
pub open spec fn apply_delta(nodes: Nodes, d: DeltaView, now: i64) -> Nodes {
    match d {
        DeltaView::Write { path, offset, data } => nodes.insert(
            path,
            written(nodes, path, offset, data, now),
        ),
        DeltaView::Mkdir { path } => if nodes.contains_key(path) {
            nodes
        } else {
            nodes.insert(path, NodeView::Dir { meta: fresh_meta(DIR_MODE, now) })
        },
        DeltaView::Remove { path } => prune(nodes, path),
        DeltaView::Rename { from, to } => rename(nodes, from, to),
        DeltaView::Symlink { path, target } => nodes.insert(
            path,
            NodeView::Symlink { target, meta: fresh_meta(SYMLINK_MODE, now) },
        ),
        DeltaView::SetAttr { path, mode, uid, gid, mtime_ms } => if nodes.contains_key(path) {
            replace_meta(nodes, path, set_attr(nodes[path].meta(), mode, uid, gid, mtime_ms))
        } else {
            nodes
        },
        DeltaView::SetXattr { path, name, value } => if nodes.contains_key(path) {
            replace_meta(nodes, path, set_xattr(nodes[path].meta(), name, value))
        } else {
            nodes
        },
    }
}

/// Whether a tombstone stands at `k` or above it.
pub open spec fn buried(changes: Changes, k: Seq<u8>) -> bool {
    exists|a: Seq<u8>| #[trigger]
        changes.contains_key(a) && changes[a] is None && in_tree(k, a)
}

/// `nodes` with a segment merged in: its nodes win; what a tombstone covers
/// is gone; everything else stays.
pub open spec fn merged(nodes: Nodes, changes: Changes) -> Nodes {
    Map::new(
        |k: Seq<u8>|
            if changes.contains_key(k) {
                changes[k] is Some
            } else {
                nodes.contains_key(k) && !buried(changes, k)
            },
        |k: Seq<u8>|
            if changes.contains_key(k) {
                changes[k]->0
            } else {
                nodes[k]
            },
    )
}

/// What lies below a path comes after it.
pub proof fn below_is_later(k: Seq<u8>, path: Seq<u8>)
    requires
        has_prefix(k, below(path)),
    ensures
        lex_lt(path, k),
        k != path,
{
    lemma_prefix_split(k, below(path));
    assert forall|j: int| 0 <= j < path.len() implies path[j] == k[j] by {
        assert(below(path)[j] == k[j]);
    }
    assert(crate::order::diverge(path, k, path.len() as int));
    lex_irreflexive(path);
}

/// A descendant of a descendant is a descendant.
pub proof fn in_tree_transitive(k: Seq<u8>, d: Seq<u8>, path: Seq<u8>)
    requires
        in_tree(k, d),
        in_tree(d, path),
    ensures
        in_tree(k, path),
        has_prefix(d, below(path)) ==> has_prefix(k, below(path)),
        has_prefix(k, below(d)) ==> has_prefix(k, below(path)),
{
    if has_prefix(d, below(path)) && has_prefix(k, below(d)) {
        lemma_prefix_split(k, below(d));
        lemma_prefix_split(d, below(path));
        assert(k.subrange(0, below(path).len() as int) =~= below(path));
    }
}

/// Sizes that a machine can hold: an extent ends within the address space,
/// and the lengths of a block list add up.
pub open spec fn fits(d: DeltaView) -> bool {
    match d {
        DeltaView::Write { path, offset, data } => match data {
            DataView::Inline(b) => offset + b.len() <= usize::MAX,
            DataView::Blocks(blocks) => total_len(blocks) <= u64::MAX,
        },
        _ => true,
    }
}

/// Whether a delta can be applied: its sizes fit.
pub fn is_applicable(d: &Delta) -> (r: bool)
    ensures
        r == fits(d@),
{
    match d {
        Delta::Write { offset, data, .. } => match data {
            Data::Inline(b) => *offset <= usize::MAX as u64 && b.len() <= usize::MAX
                - *offset as usize,
            Data::Blocks(blocks) => checked_total(blocks).is_some(),
        },
        _ => true,
    }
}

/// Sum of the block lengths, if it fits in 64 bits.
pub(crate) fn checked_total(blocks: &Vec<BlockRef>) -> (r: Option<u64>)
    ensures
        match r {
            Some(n) => n == total_len(views(blocks@)),
            None => total_len(views(blocks@)) > u64::MAX,
        },
{
    let ghost all = views(blocks@);
    let mut n: u64 = 0;
    let mut i: usize = 0;
    assert(all.take(0) =~= Seq::<BlockView>::empty());
    while i < blocks.len()
        invariant
            i <= blocks.len(),
            all == views(blocks@),
            n == total_len(all.take(i as int)),
        decreases blocks.len() - i,
    {
        proof {
            assert(all.take(i + 1).drop_last() =~= all.take(i as int));
            assert(all.take(i + 1).last() == blocks@[i as int]@);
            total_len_prefix(all, i + 1);
        }
        if blocks[i].len > u64::MAX - n {
            return None;
        }
        n = n + blocks[i].len;
        i += 1;
    }
    assert(all.take(i as int) =~= all);
    Some(n)
}

/// Sum of the block lengths.
pub fn block_total(blocks: &Vec<BlockRef>) -> (n: u64)
    requires
        total_len(views(blocks@)) <= u64::MAX,
    ensures
        n == total_len(views(blocks@)),
{
    match checked_total(blocks) {
        Some(n) => n,
        None => 0,
    }
}

/// A prefix of a block list is no longer than the list.
pub proof fn total_len_prefix(blocks: Seq<BlockView>, n: int)
    requires
        0 <= n <= blocks.len(),
    ensures
        total_len(blocks.take(n)) <= total_len(blocks),
    decreases blocks.len() - n,
{
    if n < blocks.len() {
        total_len_prefix(blocks, n + 1);
        assert(blocks.take(n + 1).drop_last() =~= blocks.take(n));
    } else {
        assert(blocks.take(n) =~= blocks);
    }
}

/// Writes `data` over `b` at `offset`.
pub(crate) fn splice_into(b: Vec<u8>, offset: usize, data: &Vec<u8>) -> (r: Vec<u8>)
    requires
        offset + data.len() <= usize::MAX,
    ensures
        r@ == splice(b@, offset as int, data@),
{
    let mut c: Vec<u8> = b;
    let end: usize = offset + data.len();
    if c.len() < end {
        c.resize(end, 0);
    }
    let ghost grown = c@;
    let mut i: usize = 0;
    while i < data.len()
        invariant
            i <= data.len(),
            end == offset + data.len(),
            c.len() == grown.len(),
            end <= grown.len(),
            forall|j: int|
                0 <= j < c.len() ==> #[trigger] c@[j] == (if offset <= j < offset + i {
                    data@[j - offset]
                } else {
                    grown[j]
                }),
        decreases data.len() - i,
    {
        c[offset + i] = data[i];
        i += 1;
    }
    assert(c@ =~= splice(b@, offset as int, data@));
    c
}

/// In-memory image of the volume.
#[derive(Debug)]
pub struct FsImage {
    /// Path to node. Directories are explicit nodes, so empty ones survive.
    pub nodes: Table<String, Node>,
}

impl View for FsImage {
    type V = Nodes;

    open spec fn view(&self) -> Nodes {
        self.nodes@
    }
}

impl Dup for FsImage {
    fn dup(&self) -> (r: Self) {
        FsImage { nodes: self.nodes.dup() }
    }
}

impl FsImage {
    pub fn new() -> (r: Self)
        ensures
            r@ == Nodes::empty(),
    {
        FsImage { nodes: Table::new() }
    }

    /// Applies one delta; a node that it creates is dated by the clock.
    pub fn apply(&mut self, d: &Delta)
        requires
            fits(d@),
        ensures
            exists|now: i64| final(self)@ == #[trigger] apply_delta(old(self)@, d@, now),
    {
        let now = now_ms();
        self.apply_at(d, now);
    }

    /// Applies one delta; a node that it creates is dated `now`.
    pub fn apply_at(&mut self, d: &Delta, now: i64)
        requires
            fits(d@),
        ensures
            final(self)@ == apply_delta(old(self)@, d@, now),
    {
        match d {
            Delta::Write { path, offset, data } => self.write(path, *offset, data, now),
            Delta::Mkdir { path } => {
                if !self.nodes.contains(path.as_key()) {
                    self.nodes.insert(
                        path.clone(),
                        Node::Dir { meta: NodeMeta::fresh(DIR_MODE, now) },
                    );
                }
            },
            Delta::Remove { path } => self.prune(path),
            Delta::Rename { from, to } => self.rename(from, to),
            Delta::Symlink { path, target } => {
                self.nodes.insert(
                    path.clone(),
                    Node::Symlink {
                        target: target.clone(),
                        meta: NodeMeta::fresh(SYMLINK_MODE, now),
                    },
                );
            },
            Delta::SetAttr { path, mode, uid, gid, mtime_ms } => {
                if let Some(node) = self.nodes.remove(path.as_key()) {
                    let mut meta = node.meta().dup();
                    if let Some(v) = mode {
                        meta.mode = *v;
                    }
                    if let Some(v) = uid {
                        meta.uid = *v;
                    }
                    if let Some(v) = gid {
                        meta.gid = *v;
                    }
                    if let Some(v) = mtime_ms {
                        meta.mtime_ms = *v;
                    }
                    self.nodes.insert(path.clone(), node.set_meta(meta));
                }
                assert(self@ =~= apply_delta(old(self)@, d@, now));
            },
            Delta::SetXattr { path, name, value } => {
                if let Some(node) = self.nodes.remove(path.as_key()) {
                    let mut meta = node.meta().dup();
                    match value {
                        Some(v) => {
                            meta.xattrs.insert(name.clone(), v.dup());
                        },
                        None => {
                            let _ = meta.xattrs.remove(name.as_key());
                        },
                    }
                    self.nodes.insert(path.clone(), node.set_meta(meta));
                }
                assert(self@ =~= apply_delta(old(self)@, d@, now));
            },
        }
    }

    pub fn merge_segment(&mut self, seg: Segment)
        ensures
            final(self)@ == merged(old(self)@, seg.entries@),
    {
        let ghost nodes = self@;
        let ghost changes = seg.entries@;
        let n = seg.entries.len();
        let ghost l = seg.entries.entries();
        let mut i: usize = 0;
        assert(self@ =~= merged(nodes, first_changes(l, 0)));
        while i < n
            invariant
                i <= n,
                n == l.len(),
                l == seg.entries.entries(),
                changes == seg.entries@,
                is_listing(changes, any_key(), l),
                self@ == merged(nodes, first_changes(l, i as int)),
            decreases n - i,
        {
            let path = seg.entries.key_at(i);
            let ghost before = self@;
            let ghost c0 = first_changes(l, i as int);
            let ghost c1 = first_changes(l, i + 1);
            let ghost p = l[i as int].0;
            proof {
                lemma_first_changes(l, i as int);
            }
            match &seg.entries.value_at(i).0 {
                Some(node) => {
                    self.nodes.insert(path.clone(), node.dup());
                    proof {
                        assert forall|k: Seq<u8>| buried(c1, k) == buried(c0, k) by {
                            if buried(c0, k) {
                                let a = choose|a: Seq<u8>| #[trigger]
                                    c0.contains_key(a) && c0[a] is None && in_tree(k, a);
                                assert(c1.contains_key(a) && c1[a] is None && in_tree(k, a));
                            }
                            if buried(c1, k) {
                                let a = choose|a: Seq<u8>| #[trigger]
                                    c1.contains_key(a) && c1[a] is None && in_tree(k, a);
                                assert(c0.contains_key(a) && c0[a] is None && in_tree(k, a));
                            }
                        }
                        assert(self@ =~= merged(nodes, c1));
                    }
                },
                None => {
                    self.prune(path);
                    proof {
                        assert forall|k: Seq<u8>| buried(c1, k) == (buried(c0, k) || in_tree(
                            k,
                            p,
                        )) by {
                            if buried(c0, k) {
                                let a = choose|a: Seq<u8>| #[trigger]
                                    c0.contains_key(a) && c0[a] is None && in_tree(k, a);
                                assert(c1.contains_key(a) && c1[a] is None && in_tree(k, a));
                            }
                            if in_tree(k, p) {
                                assert(c1.contains_key(p) && c1[p] is None);
                            }
                            if buried(c1, k) && !in_tree(k, p) {
                                let a = choose|a: Seq<u8>| #[trigger]
                                    c1.contains_key(a) && c1[a] is None && in_tree(k, a);
                                assert(c0.contains_key(a) && c0[a] is None && in_tree(k, a));
                            }
                        }
                        assert forall|k: Seq<u8>| #[trigger] c0.contains_key(k) implies !in_tree(
                            k,
                            p,
                        ) by {
                            let j = choose|j: int| 0 <= j < i && #[trigger] l[j].0 == k;
                            assert(lex_lt(l[j].0, l[i as int].0));
                            lex_asymmetric(l[j].0, l[i as int].0);
                            if has_prefix(k, below(p)) {
                                below_is_later(k, p);
                            }
                        }
                        assert(self@ =~= merged(nodes, c1));
                    }
                },
            }
            i += 1;
        }
        proof {
            assert(first_changes(l, n as int) =~= changes) by {
                lemma_first_changes(l, n as int);
                assert forall|k: Seq<u8>| changes.contains_key(k) implies first_changes(
                    l,
                    n as int,
                ).contains_key(k) by {
                    assert(any_key()(k));
                }
                assert forall|k: Seq<u8>| #[trigger]
                    first_changes(l, n as int).contains_key(k) implies changes[k] == first_changes(
                    l,
                    n as int,
                )[k] by {
                    let j = choose|j: int| 0 <= j < n && #[trigger] l[j].0 == k;
                    assert(first_changes(l, n as int)[l[j].0] == l[j].1);
                }
            }
        }
    }

    fn write(&mut self, path: &String, offset: u64, data: &Data, now: i64)
        requires
            fits((DeltaView::Write { path: utf8(path@), offset, data: data@ })),
        ensures
            final(self)@ == old(self)@.insert(
                utf8(path@),
                written(old(self)@, utf8(path@), offset, data@, now),
            ),
    {
        match data {
            Data::Blocks(blocks) => {
                let size = block_total(blocks);
                let meta = match self.nodes.get(path.as_key()) {
                    Some(node) => node.meta().dup(),
                    None => NodeMeta::fresh(FILE_MODE, now),
                };
                let content = Content::Blocks { blocks: dup_all(blocks), size };
                self.nodes.insert(path.clone(), Node::File { content, meta });
            },
            Data::Inline(data) => {
                let (content, meta) = match self.nodes.remove(path.as_key()) {
                    Some(Node::File { content: Content::Inline(b), meta }) => (b, meta),
                    Some(Node::File { meta, .. }) => (Vec::new(), meta),
                    _ => (Vec::new(), NodeMeta::fresh(FILE_MODE, now)),
                };
                let content = Content::Inline(splice_into(content, offset as usize, data));
                self.nodes.insert(path.clone(), Node::File { content, meta });
            },
        }
        assert(self@ =~= old(self)@.insert(
            utf8(path@),
            written(old(self)@, utf8(path@), offset, data@, now),
        ));
    }

    fn prune(&mut self, path: &String)
        ensures
            final(self)@ == prune(old(self)@, utf8(path@)),
    {
        let prefix = below_prefix(path);
        let _ = self.nodes.remove(path.as_key());
        self.nodes.remove_under(prefix.as_slice());
        assert(self@ =~= prune(old(self)@, utf8(path@)));
    }

    fn rename(&mut self, from: &String, to: &String)
        ensures
            final(self)@ == rename(old(self)@, utf8(from@), utf8(to@)),
    {
        let ghost f = utf8(from@);
        let ghost t = utf8(to@);
        if let Some(node) = self.nodes.remove(from.as_key()) {
            self.nodes.insert(to.clone(), node);
        }
        let ghost root = self@;
        assert(root =~= rename_root(old(self)@, f, t));
        let prefix = below_prefix(from);
        let moved = self.nodes.keys_under(prefix.as_slice());
        let ghost l = listing(root, under(below(f)));
        let mut i: usize = 0;
        while i < moved.len()
            invariant
                i <= moved.len(),
                f == utf8(from@),
                t == utf8(to@),
                prefix@ == below(f),
                l == listing(root, under(below(f))),
                is_listing(root, under(below(f)), l),
                moved.len() == l.len(),
                forall|j: int| 0 <= j < moved.len() ==> (#[trigger] moved@[j]).key() == l[j].0,
                self@ == move_first(root, l, i as nat, f, t),
                forall|j: int| i <= j < l.len() ==> self@.contains_key(#[trigger] l[j].0),
            decreases moved.len() - i,
        {
            let ghost before = self@;
            let p = &moved[i];
            proof {
                assert(p.key() == l[i as int].0);
                assert(before.contains_key(l[i as int].0));
                lemma_under(below(f), p.key());
                lemma_prefix_split(p.key(), below(f));
                assert(p.key()[f.len() as int] == below(f)[f.len() as int]);
            }
            let node = self.nodes.remove(p.as_key());
            let rest = after_slash(p.as_str(), prefix.len() - 1);
            let target = joined_by_slash(to.as_str(), rest.as_str());
            if let Some(node) = node {
                self.nodes.insert(target, node);
            }
            proof {
                assert(self@ =~= move_one(before, l[i as int].0, f, t));
                assert forall|j: int| i + 1 <= j < l.len() implies self@.contains_key(
                    #[trigger] l[j].0,
                ) by {
                    assert(before.contains_key(l[j].0));
                    assert(lex_lt(l[i as int].0, l[j].0));
                    lex_irreflexive(l[j].0);
                }
            }
            i += 1;
        }
    }
}

/// The first `n` listed changes as a map.
spec fn first_changes(l: Seq<(Seq<u8>, Option<NodeView>)>, n: int) -> Changes {
    Map::new(
        |k: Seq<u8>| exists|j: int| 0 <= j < n && #[trigger] l[j].0 == k,
        |k: Seq<u8>| l[choose|j: int| 0 <= j < n && #[trigger] l[j].0 == k].1,
    )
}

proof fn lemma_first_changes(l: Seq<(Seq<u8>, Option<NodeView>)>, n: int)
    requires
        0 <= n <= l.len(),
        forall|i: int, j: int| 0 <= i < j < l.len() ==> #[trigger] lex_lt(l[i].0, l[j].0),
    ensures
        forall|j: int| 0 <= j < n ==> first_changes(l, n)[(#[trigger] l[j]).0] == l[j].1,
        n < l.len() ==> first_changes(l, n + 1) == first_changes(l, n).insert(l[n].0, l[n].1)
            && !first_changes(l, n).contains_key(l[n].0),
{
    assert forall|m: int, j: int| 0 <= j < m <= l.len() implies #[trigger] first_changes(
        l,
        m,
    )[(#[trigger] l[j]).0] == l[j].1 by {
        let k = l[j].0;
        let c = choose|c: int| 0 <= c < m && #[trigger] l[c].0 == k;
        lex_irreflexive(k);
        if c < j {
            assert(lex_lt(l[c].0, l[j].0));
        } else if j < c {
            assert(lex_lt(l[j].0, l[c].0));
        }
    }
    if n < l.len() {
        let c0 = first_changes(l, n);
        let c1 = first_changes(l, n + 1);
        let want = c0.insert(l[n].0, l[n].1);
        assert forall|k: Seq<u8>| c1.contains_key(k) == want.contains_key(k) by {
            if c0.contains_key(k) {
                let j = choose|j: int| 0 <= j < n && #[trigger] l[j].0 == k;
                assert(0 <= j < n + 1 && l[j].0 == k);
            }
            if k == l[n].0 {
                assert(0 <= n < n + 1 && l[n].0 == k);
            }
            if c1.contains_key(k) && k != l[n].0 {
                let j = choose|j: int| 0 <= j < n + 1 && #[trigger] l[j].0 == k;
                assert(0 <= j < n && l[j].0 == k);
            }
        }
        if c0.contains_key(l[n].0) {
            let j = choose|j: int| 0 <= j < n && #[trigger] l[j].0 == l[n].0;
            assert(lex_lt(l[j].0, l[n].0));
            lex_irreflexive(l[n].0);
        }
        assert forall|k: Seq<u8>| c1.contains_key(k) implies c1[k] == want[k] by {
            let j = choose|j: int| 0 <= j < n + 1 && #[trigger] l[j].0 == k;
            assert(first_changes(l, n + 1)[l[j].0] == l[j].1);
            if j < n {
                assert(first_changes(l, n)[l[j].0] == l[j].1);
            }
        }
        assert(c1 =~= want);
    }
}

/// `path/` as bytes.
pub(crate) fn below_prefix(path: &String) -> (r: Vec<u8>)
    ensures
        r@ == below(utf8(path@)),
        r.len() >= 1,
{
    let mut r = crate::order::copy_of(path.as_key());
    r.push(SLASH);
    assert(r@ =~= below(utf8(path@)));
    r
}

} // verus!

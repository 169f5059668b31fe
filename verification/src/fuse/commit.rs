//! Committing buffered mutations: large files move to content-addressed
//! blocks, data before pointer.
use vstd::prelude::*;
use vstd::string::*;

use crate::envelope::Version;
use crate::fuse::moves::{apart, relocated};
use crate::fuse::store::{blocks_of, blocks_total, cut, upload_list, Volume};
use crate::fuse::{
    below, below_prefix, in_tree, total_len, BlockRef, BlockView, Content,
    ContentView, Data, DataView, Delta, DeltaView, Node, NodeView, Nodes, CHUNK,
};
use crate::order::{lemma_prefix_split, lex_irreflexive, lex_lt, same, starts_with};
use crate::table::{any_key, dup_all, is_listing, listing, listing_unique, views, Dup, Key, Table};
use crate::text::{after_slash, joined_by_slash, utf8};

verus! {

/// The block references of one file.
#[derive(Debug)]
pub struct BlockList(pub Vec<BlockRef>);

impl View for BlockList {
    type V = Seq<BlockView>;

    open spec fn view(&self) -> Seq<BlockView> {
        views(self.0@)
    }
}

/// Files replaced by their blocks, by path.
pub type Chunked = Map<Seq<u8>, Seq<BlockView>>;

/// Whether the file at `p` is inline and past a chunk.
pub open spec fn is_big(nodes: Nodes, p: Seq<u8>) -> bool {
    &&& nodes.contains_key(p)
    &&& nodes[p] is File
    &&& nodes[p]->File_content is Inline
    &&& inline_bytes(nodes, p).len() > CHUNK
}

pub open spec fn inline_bytes(nodes: Nodes, p: Seq<u8>) -> Seq<u8> {
    nodes[p]->File_content->Inline_0
}

/// Where what stands at `p` after the first `i` deltas stands after all of
/// them, as far as the deltas tell: `None` where one removes it, puts a link in
/// its place, or renames something onto it.
pub open spec fn fate(ds: Seq<DeltaView>, i: int, p: Seq<u8>) -> Option<Seq<u8>>
    decreases ds.len() - i,
{
    if i < 0 || i >= ds.len() {
        Some(p)
    } else {
        match ds[i] {
            DeltaView::Remove { path } => if in_tree(p, path) {
                None
            } else {
                fate(ds, i + 1, p)
            },
            DeltaView::Symlink { path, .. } => if p == path {
                None
            } else {
                fate(ds, i + 1, p)
            },
            DeltaView::Rename { from, to } => if in_tree(p, from) {
                if apart(from, to) {
                    fate(ds, i + 1, relocated(p, from, to))
                } else {
                    None
                }
            } else if in_tree(p, to) {
                None
            } else {
                fate(ds, i + 1, p)
            },
            _ => fate(ds, i + 1, p),
        }
    }
}

/// Whether an extent goes onto a directory or a link, which make way for a new
/// file.
pub open spec fn replaces(nodes: Nodes, d: DeltaView) -> bool {
    match d {
        DeltaView::Write { path, offset, data } => data is Inline && nodes.contains_key(path) && !(
        nodes[path] is File),
        _ => false,
    }
}

/// Whether the i-th delta is marked.
pub open spec fn marked(marks: Seq<bool>, i: int) -> bool {
    0 <= i < marks.len() && marks[i]
}

/// A commit being put together: the deltas to append, the blocks to upload
/// first, and the files that their blocks replace.
pub struct StageView {
    pub upgraded: Seq<DeltaView>,
    pub uploads: Seq<(Seq<char>, Seq<u8>)>,
    pub chunked: Chunked,
}

/// A write of the whole file at `p` as blocks.
pub open spec fn block_write(p: Seq<u8>, blocks: Seq<BlockView>) -> DeltaView {
    DeltaView::Write { path: p, offset: 0, data: DataView::Blocks(blocks) }
}

/// A write that leaves an empty file where there is none, and whatever file
/// there is with its metadata.
pub open spec fn bare_write(p: Seq<u8>) -> DeltaView {
    DeltaView::Write { path: p, offset: 0, data: DataView::Inline(Seq::empty()) }
}

/// The deltas for a write of the whole file at `p` as blocks: a new one first
/// where something else has to make way.
pub open spec fn full_write(p: Seq<u8>, mark: bool, blocks: Seq<BlockView>) -> Seq<DeltaView> {
    if mark {
        seq![bare_write(p), block_write(p, blocks)]
    } else {
        seq![block_write(p, blocks)]
    }
}

/// The stage with the file that lands at `q` covered by `ds`.
pub open spec fn cover(s: StageView, ds: Seq<DeltaView>, q: Seq<u8>, image: Nodes) -> StageView {
    let b = inline_bytes(image, q);
    StageView {
        upgraded: s.upgraded + ds,
        uploads: s.uploads + upload_list(b),
        chunked: s.chunked.insert(q, blocks_of(b)),
    }
}

/// The stage after delta `i`. Writes to a file that ends up large collapse
/// into one replacement by its final content as blocks, wherever it stands by
/// then; one to a file already covered is dropped.
pub open spec fn stage_one(
    s: StageView,
    ds: Seq<DeltaView>,
    marks: Seq<bool>,
    i: int,
    image: Nodes,
) -> StageView {
    match ds[i] {
        DeltaView::Write { path, .. } => match fate(ds, i + 1, path) {
            Some(q) => if s.chunked.contains_key(q) {
                s
            } else if is_big(image, q) {
                cover(
                    s,
                    full_write(path, marked(marks, i), blocks_of(inline_bytes(image, q))),
                    q,
                    image,
                )
            } else {
                StageView { upgraded: s.upgraded.push(ds[i]), ..s }
            },
            None => StageView { upgraded: s.upgraded.push(ds[i]), ..s },
        },
        _ => StageView { upgraded: s.upgraded.push(ds[i]), ..s },
    }
}

/// The stage after the first `n` deltas.
pub open spec fn stage(ds: Seq<DeltaView>, marks: Seq<bool>, n: nat, image: Nodes) -> StageView
    decreases n,
{
    if n == 0 {
        StageView { upgraded: Seq::empty(), uploads: Seq::empty(), chunked: Map::empty() }
    } else {
        stage_one(stage(ds, marks, (n - 1) as nat, image), ds, marks, n - 1, image)
    }
}

/// The stage with the large files among the first `n` listed ones covered that
/// no write covered: they are moved to blocks where they stand.
pub open spec fn swept(
    s: StageView,
    l: Seq<(Seq<u8>, NodeView)>,
    n: nat,
    image: Nodes,
) -> StageView
    decreases n,
{
    if n == 0 {
        s
    } else {
        let before = swept(s, l, (n - 1) as nat, image);
        let q = l[n - 1].0;
        if is_big(image, q) && !before.chunked.contains_key(q) {
            cover(before, seq![block_write(q, blocks_of(inline_bytes(image, q)))], q, image)
        } else {
            before
        }
    }
}

/// The whole commit of the deltas `ds`, which left `image`.
pub open spec fn staged(ds: Seq<DeltaView>, marks: Seq<bool>, image: Nodes) -> StageView {
    let l = listing(image, any_key());
    swept(stage(ds, marks, ds.len(), image), l, l.len(), image)
}

/// `image` with the staged files moved to blocks.
pub open spec fn blockified(image: Nodes, m: Chunked) -> Nodes {
    Map::new(
        |k: Seq<u8>| image.contains_key(k),
        |k: Seq<u8>|
            if m.contains_key(k) {
                NodeView::File {
                    content: ContentView::Blocks { blocks: m[k], size: total_len(m[k]) as u64 },
                    meta: image[k].meta(),
                }
            } else {
                image[k]
            },
    )
}

/// A staged commit.
pub struct Staged {
    /// The deltas to append as one batch.
    pub upgraded: Vec<Delta>,
    /// Blocks by hash, to be in the bucket before the batch is appended.
    pub uploads: Vec<(String, Vec<u8>)>,
    /// The files that their blocks replace.
    pub chunked: Table<String, BlockList>,
}

impl Staged {
    pub open spec fn stage(&self) -> StageView {
        StageView {
            upgraded: views(self.upgraded@),
            uploads: views(self.uploads@),
            chunked: self.chunked@,
        }
    }
}

/// The files are there, and their block lengths add up within 64 bits.
pub open spec fn belongs_to(m: Chunked, image: Nodes) -> bool {
    forall|k: Seq<u8>| #[trigger]
        m.contains_key(k) ==> image.contains_key(k) && image[k] is File && total_len(m[k])
            <= u64::MAX
}

/// Whether `p` is `path` or lies below it.
fn is_in_tree(p: &String, path: &String) -> (r: bool)
    ensures
        r == in_tree(utf8(p@), utf8(path@)),
{
    same(p.as_key(), path.as_key()) || starts_with(p.as_key(), below_prefix(path).as_slice())
}

/// Where `p`, in the tree of `from`, stands when `from` has become `to`.
fn relocate(p: &String, from: &String, to: &String) -> (r: String)
    requires
        in_tree(utf8(p@), utf8(from@)),
    ensures
        utf8(r@) == relocated(utf8(p@), utf8(from@), utf8(to@)),
{
    if same(p.as_key(), from.as_key()) {
        return to.clone();
    }
    let at: usize = from.as_key().len();
    proof {
        lemma_prefix_split(utf8(p@), below(utf8(from@)));
        assert(utf8(p@)[at as int] == below(utf8(from@))[at as int]);
    }
    let rest = after_slash(p.as_str(), at);
    joined_by_slash(to.as_str(), rest.as_str())
}

fn fate_of(ds: &Vec<Delta>, i: usize, p: &String) -> (r: Option<String>)
    requires
        i <= ds.len(),
    ensures
        match r {
            Some(q) => fate(views(ds@), i as int, utf8(p@)) == Some(utf8(q@)),
            None => fate(views(ds@), i as int, utf8(p@)) is None,
        },
{
    let ghost dv = views(ds@);
    let mut at: String = p.clone();
    let mut j: usize = i;
    while j < ds.len()
        invariant
            i <= j <= ds.len(),
            dv == views(ds@),
            fate(dv, i as int, utf8(p@)) == fate(dv, j as int, utf8(at@)),
        decreases ds.len() - j,
    {
        let ghost k = utf8(at@);
        assert(dv[j as int] == ds@[j as int]@);
        match &ds[j] {
            Delta::Remove { path } => {
                if is_in_tree(&at, path) {
                    return None;
                }
            },
            Delta::Symlink { path, .. } => {
                if same(at.as_key(), path.as_key()) {
                    return None;
                }
            },
            Delta::Rename { from, to } => {
                if is_in_tree(&at, from) {
                    if is_in_tree(from, to) || is_in_tree(to, from) {
                        return None;
                    }
                    at = relocate(&at, from, to);
                } else if is_in_tree(&at, to) {
                    return None;
                }
            },
            _ => {},
        }
        j += 1;
    }
    Some(at)
}

/// Adds the blocks of a large file to a stage.
fn cover_with(
    chunked: &mut Table<String, BlockList>,
    uploads: &mut Vec<(String, Vec<u8>)>,
    path: String,
    content: &Vec<u8>,
) -> (blocks: Vec<BlockRef>)
    ensures
        views(blocks@) == blocks_of(content@),
        final(chunked)@ == old(chunked)@.insert(utf8(path@), blocks_of(content@)),
        views(final(uploads)@) == views(old(uploads)@) + upload_list(content@),
        total_len(blocks_of(content@)) <= u64::MAX,
{
    let ghost up0 = views(uploads@);
    let (blocks, mut more) = cut(content.as_slice());
    let ghost mv = views(more@);
    uploads.append(&mut more);
    let kept = dup_all(&blocks);
    chunked.insert(path, BlockList(blocks));
    proof {
        assert(views(uploads@) =~= up0 + mv);
        assert(content.len() <= u64::MAX);
        blocks_total(content@);
    }
    kept
}

impl Volume {
    /// Puts the commit of the buffered mutations together: large resulting
    /// files have their pending extents collapsed into a full-content block
    /// write, with the blocks to upload first.
    pub fn stage_commit(&self) -> (r: Staged)
        ensures
            belongs_to(r.chunked@, self.image@),
            r.stage() == staged(views(self.pending@), self.marks@, self.image@),
    {
        let ghost ds = views(self.pending@);
        let ghost image = self.image@;
        let ghost marks = self.marks@;
        let mut upgraded: Vec<Delta> = Vec::new();
        let mut uploads: Vec<(String, Vec<u8>)> = Vec::new();
        let mut chunked: Table<String, BlockList> = Table::new();
        let mut i: usize = 0;
        assert(views(upgraded@) =~= Seq::<DeltaView>::empty());
        assert(views(uploads@) =~= Seq::<(Seq<char>, Seq<u8>)>::empty());
        while i < self.pending.len()
            invariant
                i <= self.pending.len(),
                ds == views(self.pending@),
                image == self.image@,
                marks == self.marks@,
                belongs_to(chunked@, image),
                stage(ds, marks, i as nat, image) == (StageView {
                    upgraded: views(upgraded@),
                    uploads: views(uploads@),
                    chunked: chunked@,
                }),
            decreases self.pending.len() - i,
        {
            let d = &self.pending[i];
            let ghost u0 = views(upgraded@);
            assert(ds[i as int] == d@);
            let mut keep = true;
            if let Delta::Write { path, .. } = d {
                if let Some(q) = fate_of(&self.pending, i + 1, path) {
                    if chunked.contains(q.as_key()) {
                        keep = false;
                    } else if let Some(
                        Node::File { content: Content::Inline(content), .. },
                    ) = self.image.nodes.get(q.as_key()) {
                        if content.len() > CHUNK {
                            keep = false;
                            let blocks = cover_with(&mut chunked, &mut uploads, q, content);
                            if i < self.marks.len() && self.marks[i] {
                                let empty: Vec<u8> = Vec::new();
                                assert(empty@ =~= Seq::<u8>::empty());
                                upgraded.push(
                                    Delta::Write {
                                        path: path.clone(),
                                        offset: 0,
                                        data: Data::Inline(empty),
                                    },
                                );
                                assert(views(upgraded@) =~= u0.push(bare_write(utf8(path@))));
                            }
                            let ghost u1 = views(upgraded@);
                            let w = Delta::Write {
                                path: path.clone(),
                                offset: 0,
                                data: Data::Blocks(blocks),
                            };
                            let ghost wv = w@;
                            upgraded.push(w);
                            proof {
                                assert(views(upgraded@) =~= u1.push(wv));
                                assert(views(upgraded@) =~= u0 + full_write(
                                    utf8(path@),
                                    marked(marks, i as int),
                                    blocks_of(content@),
                                ));
                            }
                        }
                    }
                }
            }
            if keep {
                upgraded.push(d.dup());
                assert(views(upgraded@) =~= u0.push(d@));
            }
            i += 1;
        }
        let n = self.image.nodes.len();
        let ghost l = self.image.nodes.entries();
        let ghost st = stage(ds, marks, ds.len(), image);
        let mut j: usize = 0;
        while j < n
            invariant
                j <= n,
                n == l.len(),
                l == self.image.nodes.entries(),
                image == self.image@,
                is_listing(image, any_key(), l),
                belongs_to(chunked@, image),
                swept(st, l, j as nat, image) == (StageView {
                    upgraded: views(upgraded@),
                    uploads: views(uploads@),
                    chunked: chunked@,
                }),
            decreases n - j,
        {
            let ghost u0 = views(upgraded@);
            let path = self.image.nodes.key_at(j);
            assert(image.contains_key(l[j as int].0) && image[l[j as int].0] == l[j as int].1);
            if let Node::File { content: Content::Inline(content), .. } =
                self.image.nodes.value_at(j) {
                if content.len() > CHUNK && !chunked.contains(path.as_key()) {
                    let blocks = cover_with(&mut chunked, &mut uploads, path.clone(), content);
                    let w = Delta::Write {
                        path: path.clone(),
                        offset: 0,
                        data: Data::Blocks(blocks),
                    };
                    let ghost wv = w@;
                    upgraded.push(w);
                    proof {
                        assert(views(upgraded@) =~= u0.push(wv));
                        assert(views(upgraded@) =~= u0 + seq![wv]);
                    }
                }
            }
            j += 1;
        }
        assert(l == listing(image, any_key())) by {
            listing_unique(image, any_key(), l);
        }
        Staged { upgraded, uploads, chunked }
    }

    /// Moves the staged files to their blocks in the image, once those are in
    /// the bucket.
    pub fn blocks_uploaded(&mut self, staged: &Staged)
        requires
            belongs_to(staged.chunked@, old(self).image@),
        ensures
            final(self).image@ == blockified(old(self).image@, staged.chunked@),
            final(self).pending == old(self).pending,
            final(self).marks == old(self).marks,
            final(self).tail == old(self).tail,
            final(self).blocks == old(self).blocks,
            final(self).vol == old(self).vol,
            final(self).token == old(self).token,
    {
        let ghost image = self.image@;
        let ghost m = staged.chunked@;
        let n = staged.chunked.len();
        let ghost l = staged.chunked.entries();
        let mut i: usize = 0;
        proof {
            assert(first_chunked(l, 0) =~= Chunked::empty());
            assert(blockified(image, Chunked::empty()) =~= image);
        }
        while i < n
            invariant
                i <= n,
                n == l.len(),
                l == staged.chunked.entries(),
                m == staged.chunked@,
                is_listing(m, any_key(), l),
                belongs_to(m, image),
                self.image@ == blockified(image, first_chunked(l, i as int)),
                self.pending == old(self).pending,
                self.marks == old(self).marks,
                self.tail == old(self).tail,
                self.blocks == old(self).blocks,
                self.vol == old(self).vol,
                self.token == old(self).token,
            decreases n - i,
        {
            let path = staged.chunked.key_at(i);
            let blocks = staged.chunked.value_at(i);
            let ghost p = l[i as int].0;
            assert(m.contains_key(l[i as int].0) && m[p] == l[i as int].1);
            let d = Delta::Write {
                path: path.clone(),
                offset: 0,
                data: Data::Blocks(dup_all(&blocks.0)),
            };
            assert(d@ == block_write(p, l[i as int].1));
            self.image.apply_at(&d, 0);
            proof {
                first_chunked_step(l, i as int);
                assert(self.image@ =~= blockified(image, first_chunked(l, i + 1)));
            }
            i += 1;
        }
        proof {
            first_chunked_all(m, l);
        }
    }

    /// Takes over a commit: the batch landed, and `last_version` is the
    /// stream's tail.
    pub fn committed(&mut self, last_version: Version)
        ensures
            final(self).tail == Some(last_version),
            final(self).pending.len() == 0,
            final(self).marks.len() == 0,
            final(self).image == old(self).image,
            final(self).blocks == old(self).blocks,
            final(self).vol == old(self).vol,
            final(self).token == old(self).token,
    {
        self.tail = Some(last_version);
        self.pending = Vec::new();
        self.marks = Vec::new();
    }
}

/// The first `n` listed files.
spec fn first_chunked(l: Seq<(Seq<u8>, Seq<BlockView>)>, n: int) -> Chunked
    decreases n,
{
    if n <= 0 {
        Map::empty()
    } else {
        first_chunked(l, n - 1).insert(l[n - 1].0, l[n - 1].1)
    }
}

proof fn first_chunked_step(l: Seq<(Seq<u8>, Seq<BlockView>)>, n: int)
    requires
        0 <= n < l.len(),
        forall|i: int, j: int| 0 <= i < j < l.len() ==> #[trigger] lex_lt(l[i].0, l[j].0),
    ensures
        first_chunked(l, n + 1) == first_chunked(l, n).insert(l[n].0, l[n].1),
        !first_chunked(l, n).contains_key(l[n].0),
{
    first_chunked_keys(l, n);
    if first_chunked(l, n).contains_key(l[n].0) {
        let i = choose|i: int| 0 <= i < n && #[trigger] l[i].0 == l[n].0;
        assert(lex_lt(l[i].0, l[n].0));
        lex_irreflexive(l[n].0);
    }
}

proof fn first_chunked_keys(l: Seq<(Seq<u8>, Seq<BlockView>)>, n: int)
    requires
        0 <= n <= l.len(),
        forall|i: int, j: int| 0 <= i < j < l.len() ==> #[trigger] lex_lt(l[i].0, l[j].0),
    ensures
        forall|k: Seq<u8>| #[trigger]
            first_chunked(l, n).contains_key(k) <==> (exists|i: int|
                0 <= i < n && #[trigger] l[i].0 == k),
        forall|i: int| 0 <= i < n ==> first_chunked(l, n)[(#[trigger] l[i]).0] == l[i].1,
    decreases n,
{
    if n > 0 {
        first_chunked_keys(l, n - 1);
        let a = first_chunked(l, n - 1);
        let b = first_chunked(l, n);
        assert forall|k: Seq<u8>| #[trigger]
            b.contains_key(k) <==> (exists|i: int| 0 <= i < n && #[trigger] l[i].0 == k) by {
            if a.contains_key(k) {
                let i = choose|i: int| 0 <= i < n - 1 && #[trigger] l[i].0 == k;
                assert(0 <= i < n && l[i].0 == k);
            }
            if k == l[n - 1].0 {
                assert(0 <= n - 1 < n && l[n - 1].0 == k);
            }
            if exists|i: int| 0 <= i < n && #[trigger] l[i].0 == k {
                let i = choose|i: int| 0 <= i < n && #[trigger] l[i].0 == k;
                if i < n - 1 {
                    assert(0 <= i < n - 1 && l[i].0 == k);
                }
            }
        }
        assert forall|i: int| 0 <= i < n implies b[(#[trigger] l[i]).0] == l[i].1 by {
            if i < n - 1 {
                assert(lex_lt(l[i].0, l[n - 1].0));
                lex_irreflexive(l[i].0);
                assert(a[l[i].0] == l[i].1);
            }
        }
    }
}

proof fn first_chunked_all(m: Chunked, l: Seq<(Seq<u8>, Seq<BlockView>)>)
    requires
        is_listing(m, any_key(), l),
    ensures
        first_chunked(l, l.len() as int) == m,
{
    let n = l.len() as int;
    first_chunked_keys(l, n);
    let f = first_chunked(l, n);
    assert forall|k: Seq<u8>| f.contains_key(k) == m.contains_key(k) by {
        if m.contains_key(k) {
            assert(any_key()(k));
        }
    }
    assert forall|k: Seq<u8>| f.contains_key(k) implies f[k] == m[k] by {
        let i = choose|i: int| 0 <= i < n && #[trigger] l[i].0 == k;
        assert(f[l[i].0] == l[i].1);
    }
    assert(f =~= m);
}

} // verus!

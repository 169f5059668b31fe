//! Filesystem semantics of a mounted volume: inode numbers, attributes,
//! directory listings.
use vstd::prelude::*;
use vstd::string::*;

use crate::fuse::{below, below_prefix, in_tree, FsImage, MetaView, Node, NodeView, Nodes, DIR_MODE};
use crate::order::{after, copy_of, lemma_prefix_split, lex_irreflexive, lex_lt, same, starts_with};
use crate::table::{is_listing, lemma_under, listing, under, Dup, Key, Table};
use crate::text::{after_slash, before_slash, is_slash, joined_by_slash, slash_bytes, utf8, SLASH};

verus! {

#[derive(Debug, Clone, Copy, PartialEq, Eq, Structural)]
pub enum FileType {
    RegularFile,
    Directory,
    Symlink,
}

/// Why a request fails.
#[derive(Debug, Clone, Copy, PartialEq, Eq, Structural)]
pub enum Errno {
    ENOENT,
    ENOTDIR,
    EISDIR,
    EEXIST,
    EINVAL,
    ENOTEMPTY,
    ELOOP,
    EBADF,
    ERANGE,
    ENOSYS,
    EIO,
    EROFS,
    NoXattr,
}

/// Attributes of a node. All four times are the node's modification time, in
/// milliseconds since the epoch.
#[derive(Debug, Clone, Copy, PartialEq, Eq, Structural)]
pub struct FileAttr {
    pub ino: u64,
    pub size: u64,
    /// 512-byte blocks, rounded up.
    pub blocks: u64,
    pub time_ms: u64,
    pub kind: FileType,
    pub perm: u16,
    pub nlink: u32,
    pub uid: u32,
    pub gid: u32,
    pub blksize: u32,
}

/// The root directory.
pub open spec fn root() -> Seq<u8> {
    seq![SLASH]
}

pub open spec fn kind_of(n: NodeView) -> FileType {
    match n {
        NodeView::File { .. } => FileType::RegularFile,
        NodeView::Dir { .. } => FileType::Directory,
        NodeView::Symlink { .. } => FileType::Symlink,
    }
}

pub fn node_kind(n: &Node) -> (r: FileType)
    ensures
        r == kind_of(n@),
{
    match n {
        Node::File { .. } => FileType::RegularFile,
        Node::Dir { .. } => FileType::Directory,
        Node::Symlink { .. } => FileType::Symlink,
    }
}

/// `name` in the directory `parent`.
pub open spec fn join_of(parent: Seq<u8>, name: Seq<u8>) -> Seq<u8> {
    if parent == root() {
        root() + name
    } else {
        parent + seq![SLASH] + name
    }
}

pub fn join(parent: &str, name: &str) -> (r: String)
    ensures
        utf8(r@) == join_of(utf8(parent@), utf8(name@)),
{
    if is_slash(parent) {
        proof {
            slash_bytes();
        }
        crate::text::joined("/", name)
    } else {
        joined_by_slash(parent, name)
    }
}

/// `i` is the position of the last `/` of `path`.
pub open spec fn last_slash(path: Seq<u8>, i: int) -> bool {
    &&& 0 <= i < path.len()
    &&& path[i] == SLASH
    &&& forall|j: int| i < j < path.len() ==> path[j] != SLASH
}

/// `p` is the directory that holds `path`.
pub open spec fn is_parent(path: Seq<u8>, p: Seq<u8>) -> bool {
    if exists|i: int| last_slash(path, i) && i > 0 {
        exists|i: int| #[trigger] last_slash(path, i) && p == path.take(i)
    } else {
        p == root()
    }
}

pub fn parent_path(path: &str) -> (r: String)
    ensures
        is_parent(utf8(path@), utf8(r@)),
{
    let bytes = path.as_bytes();
    let ghost b = bytes@;
    let mut i: usize = bytes.len();
    while i > 0
        invariant
            i <= bytes.len(),
            b == bytes@,
            b == utf8(path@),
            forall|j: int| i <= j < b.len() ==> b[j] != SLASH,
        decreases i,
    {
        i -= 1;
        if bytes[i] == SLASH {
            assert(last_slash(b, i as int));
            if i == 0 {
                proof {
                    slash_bytes();
                    assert forall|k: int| last_slash(b, k) implies k == 0 by {
                        if k > 0 {
                            assert(b[k] != SLASH);
                        }
                    }
                }
                return "/".to_owned();
            }
            let r = before_slash(path, i);
            assert(utf8(r@) =~= b.take(i as int));
            return r;
        }
    }
    proof {
        slash_bytes();
        assert forall|k: int| !last_slash(b, k) by {}
    }
    "/".to_owned()
}

/// The prefix shared by the entries of a directory.
pub open spec fn entry_prefix(dir: Seq<u8>) -> Seq<u8> {
    if dir == root() {
        root()
    } else {
        below(dir)
    }
}

fn dir_prefix(dir: &str) -> (r: Vec<u8>)
    ensures
        r@ == entry_prefix(utf8(dir@)),
        r.len() > 0,
        r@.last() == SLASH,
{
    let mut r = copy_of(dir.as_bytes());
    if !is_slash(dir) {
        r.push(SLASH);
        assert(r@ =~= below(utf8(dir@)));
    }
    r
}

/// Whether `rest` names an immediate entry.
pub open spec fn is_name(rest: Seq<u8>) -> bool {
    &&& rest.len() > 0
    &&& forall|i: int| 0 <= i < rest.len() ==> rest[i] != SLASH
}

/// The immediate entries among the listed nodes, in name order.
pub open spec fn entries_in(rows: Seq<(Seq<u8>, NodeView)>, prefix: Seq<u8>) -> Seq<
    (Seq<u8>, FileType),
>
    decreases rows.len(),
{
    if rows.len() == 0 {
        Seq::empty()
    } else {
        let rest = entries_in(rows.drop_last(), prefix);
        let name = after(rows.last().0, prefix.len() as int);
        if is_name(name) {
            rest.push((name, kind_of(rows.last().1)))
        } else {
            rest
        }
    }
}

/// The entries of a directory, by name.
pub open spec fn children_of(nodes: Nodes, dir: Seq<u8>) -> Seq<(Seq<u8>, FileType)> {
    entries_in(listing(nodes, under(entry_prefix(dir))), entry_prefix(dir))
}

/// Names as bytes with their kinds.
pub open spec fn entry_views(v: Seq<(String, FileType)>) -> Seq<(Seq<u8>, FileType)> {
    Seq::new(v.len(), |i: int| (utf8(v[i].0@), v[i].1))
}

fn has_slash(s: &[u8]) -> (r: bool)
    ensures
        r == exists|i: int| 0 <= i < s.len() && s@[i] == SLASH,
{
    let mut i: usize = 0;
    while i < s.len()
        invariant
            i <= s.len(),
            forall|j: int| 0 <= j < i ==> s@[j] != SLASH,
        decreases s.len() - i,
    {
        if s[i] == SLASH {
            return true;
        }
        i += 1;
    }
    false
}

/// Immediate children of `dir` as (name, kind), from the image's nodes.
pub fn children(img: &FsImage, dir: &str) -> (r: Vec<(String, FileType)>)
    ensures
        entry_views(r@) == children_of(img@, utf8(dir@)),
{
    let prefix = dir_prefix(dir);
    let ghost pv = prefix@;
    let none: Vec<u8> = Vec::new();
    assert(none@ =~= Seq::<u8>::empty());
    let (a, b) = img.nodes.range(prefix.as_slice(), none.as_slice(), None);
    let ghost rows = listing(img@, under(pv));
    assert(rows == img.nodes.entries().subrange(a as int, b as int));
    let mut out: Vec<(String, FileType)> = Vec::new();
    let mut i: usize = a;
    assert(rows.take(0) =~= Seq::empty());
    assert(entry_views(out@) =~= Seq::<(Seq<u8>, FileType)>::empty());
    while i < b
        invariant
            a <= i <= b <= img.nodes.entries().len(),
            pv == prefix@,
            pv.len() > 0,
            pv.last() == SLASH,
            rows == img.nodes.entries().subrange(a as int, b as int),
            is_listing(img@, under(pv), rows),
            entry_views(out@) == entries_in(rows.take(i - a), pv),
        decreases b - i,
    {
        let ghost before = entry_views(out@);
        let key = img.nodes.key_at(i);
        let ghost k = rows[i - a].0;
        proof {
            assert(rows.take(i + 1 - a).drop_last() =~= rows.take(i - a));
            assert(rows.take(i + 1 - a).last() == rows[i - a]);
            assert(rows[i - a] == img.nodes.entries()[i as int]);
            assert(img@.contains_key(rows[i - a].0) && under(pv)(rows[i - a].0));
            lemma_under(pv, k);
            lemma_prefix_split(k, pv);
            assert(k[pv.len() - 1] == pv[pv.len() - 1]);
        }
        let name = after_slash(key.as_str(), prefix.len() - 1);
        let bytes = name.as_str().as_bytes();
        if bytes.len() > 0 && !has_slash(bytes) {
            let kind = node_kind(img.nodes.value_at(i));
            assert(is_name(utf8(name@)));
            out.push((name, kind));
            assert(entry_views(out@) =~= before.push((utf8(name@), kind)));
        } else {
            assert(!is_name(utf8(name@)));
        }
        i += 1;
    }
    assert(rows.take(i - a) =~= rows);
    out
}

/// How many of the entries are directories.
pub open spec fn dirs_in(entries: Seq<(Seq<u8>, FileType)>) -> nat
    decreases entries.len(),
{
    if entries.len() == 0 {
        0
    } else {
        dirs_in(entries.drop_last()) + (if entries.last().1 == FileType::Directory {
            1nat
        } else {
            0
        })
    }
}

/// 2 plus the immediate subdirectories for directories; 1 otherwise.
pub open spec fn links(nodes: Nodes, path: Seq<u8>, kind: FileType) -> u32 {
    if kind != FileType::Directory {
        1
    } else {
        let n = dirs_in(children_of(nodes, path));
        if n <= u32::MAX - 2 {
            (2 + n) as u32
        } else {
            u32::MAX
        }
    }
}

pub fn nlink_of(img: &FsImage, path: &str, kind: FileType) -> (r: u32)
    ensures
        r == links(img@, utf8(path@), kind),
{
    if kind != FileType::Directory {
        return 1;
    }
    let kids = children(img, path);
    let ghost es = entry_views(kids@);
    let mut n: u32 = 2;
    let mut i: usize = 0;
    assert(es.take(0) =~= Seq::<(Seq<u8>, FileType)>::empty());
    while i < kids.len()
        invariant
            i <= kids.len(),
            es == entry_views(kids@),
            n >= 2,
            n == 2 + dirs_in(es.take(i as int)) || (n == u32::MAX && 2 + dirs_in(
                es.take(i as int),
            ) > u32::MAX),
        decreases kids.len() - i,
    {
        proof {
            assert(es.take(i + 1).drop_last() =~= es.take(i as int));
            assert(es.take(i + 1).last() == es[i as int]);
        }
        if kids[i].1 == FileType::Directory && n < u32::MAX {
            n = n + 1;
        }
        i += 1;
    }
    assert(es.take(i as int) =~= es);
    n
}

/// Metadata of the root, which is not a node of its own.
pub open spec fn root_meta() -> MetaView {
    crate::fuse::fresh_meta(DIR_MODE, 0)
}

/// The kind, size and metadata of what stands at `path`.
pub open spec fn stat(nodes: Nodes, path: Seq<u8>) -> Option<(FileType, u64, MetaView)> {
    if path == root() {
        Some((FileType::Directory, 0, root_meta()))
    } else if nodes.contains_key(path) {
        let n = nodes[path];
        Some(
            (
                kind_of(n),
                match n {
                    NodeView::File { content, .. } => content.size() as u64,
                    NodeView::Dir { .. } => 0,
                    NodeView::Symlink { target, .. } => utf8(target).len() as u64,
                },
                n.meta(),
            ),
        )
    } else {
        None
    }
}

/// A time that is not before the epoch.
pub open spec fn since_epoch(ms: i64) -> u64 {
    if ms < 0 {
        0
    } else {
        ms as u64
    }
}

/// A stored time as milliseconds since the epoch, not before it.
pub fn ts(ms: i64) -> (r: u64)
    ensures
        r == since_epoch(ms),
{
    if ms < 0 {
        0
    } else {
        ms as u64
    }
}

/// A time to store: milliseconds since the epoch (`None`: before it, which
/// counts as the epoch).
pub fn ts_ms(millis: Option<u128>) -> (r: i64)
    ensures
        r == crate::stamp::clock_ms(millis),
{
    crate::stamp::ms_of(millis)
}

/// The attributes of what stands at `path`.
pub open spec fn attr_view(nodes: Nodes, ino: u64, path: Seq<u8>) -> Option<FileAttr> {
    match stat(nodes, path) {
        Some((kind, size, meta)) => Some(
            FileAttr {
                ino,
                size,
                blocks: blocks_for(size),
                time_ms: since_epoch(meta.mtime_ms),
                kind,
                perm: (meta.mode & 0xfff) as u16,
                nlink: links(nodes, path, kind),
                uid: meta.uid,
                gid: meta.gid,
                blksize: 4096,
            },
        ),
        None => None,
    }
}

/// 512-byte blocks for `size` bytes, rounded up.
pub open spec fn blocks_for(size: u64) -> u64 {
    (size / 512 + (if size % 512 == 0 {
        0int
    } else {
        1int
    })) as u64
}

/// Permission bits: the low twelve of a mode.
pub fn perm_bits(mode: u32) -> (r: u16)
    ensures
        r == (mode & 0xfff) as u16,
        r <= 0xfff,
{
    let m: u32 = mode & 0xfff;
    assert(m <= 0xfff) by (bit_vector)
        requires
            m == mode & 0xfff,
    ;
    m as u16
}

/// Builds attributes from a node (or the synthesized root) plus its metadata.
pub fn attr_of(img: &FsImage, ino: u64, path: &str) -> (r: Option<FileAttr>)
    ensures
        r == attr_view(img@, ino, utf8(path@)),
{
    if is_slash(path) {
        let nlink = nlink_of(img, path, FileType::Directory);
        let perm = perm_bits(DIR_MODE);
        return Some(
            FileAttr {
                ino,
                size: 0,
                blocks: 0,
                time_ms: 0,
                kind: FileType::Directory,
                perm,
                nlink,
                uid: 0,
                gid: 0,
                blksize: 4096,
            },
        );
    }
    match img.nodes.get(path.as_bytes()) {
        Some(node) => {
            let kind = node_kind(node);
            let size: u64 = match node {
                Node::File { content, .. } => content.len(),
                Node::Dir { .. } => 0,
                Node::Symlink { target, .. } => target.as_str().as_bytes().len() as u64,
            };
            let meta = node.meta();
            let blocks: u64 = size / 512 + if size % 512 == 0 {
                0u64
            } else {
                1u64
            };
            Some(
                FileAttr {
                    ino,
                    size,
                    blocks,
                    time_ms: ts(meta.mtime_ms),
                    kind,
                    perm: perm_bits(meta.mode),
                    nlink: nlink_of(img, path, kind),
                    uid: meta.uid,
                    gid: meta.gid,
                    blksize: 4096,
                },
            )
        },
        None => None,
    }
}

// ---- inode numbers --------------------------------------------------------

/// Inode tables. Inodes are assigned incrementally on first sight and never
/// recycled; renames re-key paths so the number stays attached to the node.
pub struct State {
    /// The path of inode `i` at `i - 1`.
    paths: Vec<String>,
    ino_of: Table<String, u64>,
}

pub struct StateView {
    /// The path of inode `i` at `i - 1`.
    pub paths: Seq<Seq<u8>>,
    pub ino_of: Map<Seq<u8>, u64>,
}

impl View for State {
    type V = StateView;

    closed spec fn view(&self) -> StateView {
        StateView { paths: path_bytes(self.paths@), ino_of: self.ino_of@ }
    }
}

pub open spec fn path_bytes(s: Seq<String>) -> Seq<Seq<u8>> {
    Seq::new(s.len(), |i: int| utf8(s[i]@))
}

impl StateView {
    /// The path of an inode, if the number was given out.
    pub open spec fn path_of(self, ino: u64) -> Option<Seq<u8>> {
        if 1 <= ino <= self.paths.len() {
            Some(self.paths[ino - 1])
        } else {
            None
        }
    }

    /// Whether every number in the tables was given out.
    pub open spec fn given_out(self) -> bool {
        forall|k: Seq<u8>| #[trigger]
            self.ino_of.contains_key(k) ==> 1 <= self.ino_of[k] <= self.paths.len()
    }

    /// The tables with `path` known, and its number.
    pub open spec fn with_ino(self, path: Seq<u8>) -> (StateView, u64) {
        if self.ino_of.contains_key(path) {
            (self, self.ino_of[path])
        } else {
            let ino = (self.paths.len() + 1) as u64;
            (
                StateView {
                    paths: self.paths.push(path),
                    ino_of: self.ino_of.insert(path, ino),
                },
                ino,
            )
        }
    }

    /// One known path of the renamed subtree re-keyed.
    pub open spec fn rekey(self, p: Seq<u8>, i: u64, from: Seq<u8>, to: Seq<u8>) -> StateView {
        let np = remapped(p, from, to);
        StateView {
            paths: self.paths.update(i - 1, np),
            ino_of: self.ino_of.remove(p).insert(np, i),
        }
    }

    /// The first `n` of the listed paths re-keyed.
    pub open spec fn rekey_first(
        self,
        l: Seq<(Seq<u8>, u64)>,
        n: nat,
        from: Seq<u8>,
        to: Seq<u8>,
    ) -> StateView
        decreases n,
    {
        if n == 0 {
            self
        } else {
            self.rekey_first(l, (n - 1) as nat, from, to).rekey(l[n - 1].0, l[n - 1].1, from, to)
        }
    }

    /// The renamed subtree re-keyed, path by path, numbers kept.
    pub open spec fn renamed(self, from: Seq<u8>, to: Seq<u8>) -> StateView {
        let l = listing(self.ino_of, tree(from));
        self.rekey_first(l, l.len(), from, to)
    }
}

/// The paths of a subtree.
pub open spec fn tree(path: Seq<u8>) -> spec_fn(Seq<u8>) -> bool {
    |k: Seq<u8>| in_tree(k, path)
}

/// Where a path of the subtree goes.
pub open spec fn remapped(p: Seq<u8>, from: Seq<u8>, to: Seq<u8>) -> Seq<u8> {
    if p == from {
        to
    } else {
        crate::fuse::moved_to(p, from, to)
    }
}

/// The tables of a fresh mount: the root is number 1.
pub open spec fn fresh_state() -> StateView {
    StateView { paths: seq![root()], ino_of: map![root() => 1u64] }
}

impl State {
    #[verifier::type_invariant]
    spec fn known(&self) -> bool {
        self@.given_out()
    }

    pub fn new() -> (r: Self)
        ensures
            r@ == fresh_state(),
    {
        let mut paths: Vec<String> = Vec::new();
        paths.push("/".to_owned());
        let mut ino_of: Table<String, u64> = Table::new();
        ino_of.insert("/".to_owned(), 1);
        proof {
            slash_bytes();
            assert(path_bytes(paths@) =~= seq![root()]);
            assert(ino_of@ =~= map![root() => 1u64]);
        }
        State { paths, ino_of }
    }

    /// Takes the tables out, leaving fresh ones.
    fn take(&mut self) -> (r: (Vec<String>, Table<String, u64>))
        ensures
            old(self)@ == (StateView { paths: path_bytes(r.0@), ino_of: r.1@ }),
            old(self)@.given_out(),
    {
        let mut s = State::new();
        core::mem::swap(self, &mut s);
        proof {
            use_type_invariant(&s);
        }
        let State { paths, ino_of } = s;
        (paths, ino_of)
    }

    /// The current path of an inode.
    pub fn path_of(&self, ino: u64) -> (r: Option<String>)
        ensures
            match r {
                Some(p) => self@.path_of(ino) == Some(utf8(p@)),
                None => self@.path_of(ino) is None,
            },
    {
        if ino >= 1 && ino - 1 < self.paths.len() as u64 {
            Some(self.paths[(ino - 1) as usize].clone())
        } else {
            None
        }
    }

    /// The number of `path`, given out on first sight.
    pub fn ino(&mut self, path: &str) -> (r: u64)
        ensures
            (final(self)@, r) == old(self)@.with_ino(utf8(path@)),
    {
        let ghost before = self@;
        let found: Option<u64> = match self.ino_of.get(path.as_bytes()) {
            Some(i) => Some(*i),
            None => None,
        };
        match found {
            Some(i) => i,
            None => {
                let (mut paths, mut ino_of) = self.take();
                let ghost p0 = path_bytes(paths@);
                let ghost i0 = ino_of@;
                paths.push(path.to_owned());
                let i: u64 = paths.len() as u64;
                ino_of.insert(path.to_owned(), i);
                proof {
                    assert(path_bytes(paths@) =~= p0.push(utf8(path@)));
                    assert(ino_of@[utf8(path@)] == i);
                    assert(before == (StateView { paths: p0, ino_of: i0 }));
                    assert(before.given_out());
                    assert forall|k: Seq<u8>| #[trigger] ino_of@.contains_key(k) implies 1
                        <= ino_of@[k] <= paths.len() by {
                        if k != utf8(path@) {
                            assert(before.ino_of.contains_key(k));
                            assert(ino_of@[k] == before.ino_of[k]);
                            assert(p0.len() + 1 == paths.len());
                        }
                    }
                }
                *self = State { paths, ino_of };
                i
            },
        }
    }

    /// Re-keys the renamed subtree, keeping inodes stable.
    pub fn rename_subtree(&mut self, from: &str, to: &str)
        ensures
            final(self)@ == old(self)@.renamed(utf8(from@), utf8(to@)),
    {
        let ghost f = utf8(from@);
        let ghost t = utf8(to@);
        let (mut paths, mut ino_of) = self.take();
        let ghost start = StateView { paths: path_bytes(paths@), ino_of: ino_of@ };
        let from_string = from.to_owned();
        let prefix = below_prefix(&from_string);
        // The paths of the subtree, in order: `from` itself, then its
        // descendants.
        let n = ino_of.len();
        let ghost all = ino_of.entries();
        let mut moved: Vec<(String, u64)> = Vec::new();
        let mut i: usize = 0;
        proof {
            assert(tree_rows(all, 0, f) =~= Seq::<(Seq<u8>, u64)>::empty());
            assert(moved_views(moved@) =~= Seq::<(Seq<u8>, u64)>::empty());
        }
        while i < n
            invariant
                i <= n,
                n == all.len(),
                all == ino_of.entries(),
                prefix@ == below(f),
                f == utf8(from@),
                moved_views(moved@) == tree_rows(all, i as int, f),
            decreases n - i,
        {
            let k = ino_of.key_at(i);
            let ghost before = moved_views(moved@);
            if same(k.as_key(), from.as_bytes()) || starts_with(k.as_key(), prefix.as_slice()) {
                let v: u64 = *ino_of.value_at(i);
                let c = k.clone();
                assert(utf8(c@) == all[i as int].0);
                moved.push((c, v));
                assert(moved_views(moved@) =~= before.push(all[i as int]));
            }
            i += 1;
        }
        proof {
            tree_rows_listing(start.ino_of, all, f);
        }
        let ghost l = listing(start.ino_of, tree(f));
        assert(moved_views(moved@) == l);
        let mut j: usize = 0;
        while j < moved.len()
            invariant
                j <= moved.len(),
                f == utf8(from@),
                t == utf8(to@),
                prefix@ == below(f),
                l == listing(start.ino_of, tree(f)),
                is_listing(start.ino_of, tree(f), l),
                moved_views(moved@) == l,
                start.given_out(),
                paths.len() == start.paths.len(),
                (StateView { paths: path_bytes(paths@), ino_of: ino_of@ }) == start.rekey_first(
                    l,
                    j as nat,
                    f,
                    t,
                ),
                (StateView { paths: path_bytes(paths@), ino_of: ino_of@ }).given_out(),
            decreases moved.len() - j,
        {
            let p = &moved[j].0;
            let ino: u64 = moved[j].1;
            proof {
                assert(l[j as int] == (utf8(p@), ino));
                assert(start.ino_of.contains_key(l[j as int].0) && tree(f)(l[j as int].0));
            }
            let target: String = if same(p.as_key(), from.as_bytes()) {
                to.to_owned()
            } else {
                proof {
                    lemma_prefix_split(utf8(p@), below(f));
                    assert(utf8(p@)[f.len() as int] == below(f)[f.len() as int]);
                }
                let rest = after_slash(p.as_str(), prefix.len() - 1);
                joined_by_slash(to, rest.as_str())
            };
            assert(utf8(target@) == remapped(utf8(p@), f, t));
            let ghost paths0 = path_bytes(paths@);
            let ghost ino0 = ino_of@;
            let _ = ino_of.remove(p.as_key());
            ino_of.insert(target.clone(), ino);
            paths[(ino - 1) as usize] = target;
            proof {
                assert(path_bytes(paths@) =~= paths0.update(ino - 1, utf8(target@)));
                let now = StateView { paths: path_bytes(paths@), ino_of: ino_of@ };
                assert(now == (StateView { paths: paths0, ino_of: ino0 }).rekey(
                    utf8(p@),
                    ino,
                    f,
                    t,
                ));
                assert forall|k: Seq<u8>| #[trigger] now.ino_of.contains_key(k) implies 1
                    <= now.ino_of[k] <= now.paths.len() by {
                    if k != utf8(target@) {
                        assert(ino0.contains_key(k));
                    }
                }
            }
            j += 1;
        }
        *self = State { paths, ino_of };
    }
}

pub open spec fn moved_views(v: Seq<(String, u64)>) -> Seq<(Seq<u8>, u64)> {
    Seq::new(v.len(), |i: int| (utf8(v[i].0@), v[i].1))
}

/// The rows of a subtree among the first `n`.
spec fn tree_rows(all: Seq<(Seq<u8>, u64)>, n: int, f: Seq<u8>) -> Seq<(Seq<u8>, u64)>
    decreases n,
{
    if n <= 0 {
        Seq::empty()
    } else if in_tree(all[n - 1].0, f) {
        tree_rows(all, n - 1, f).push(all[n - 1])
    } else {
        tree_rows(all, n - 1, f)
    }
}

proof fn tree_rows_prefix(m: Map<Seq<u8>, u64>, all: Seq<(Seq<u8>, u64)>, n: int, f: Seq<u8>)
    requires
        is_listing(m, crate::table::any_key(), all),
        0 <= n <= all.len(),
    ensures
        ({
            let s = tree_rows(all, n, f);
            &&& forall|i: int, j: int| 0 <= i < j < s.len() ==> #[trigger] lex_lt(s[i].0, s[j].0)
            &&& forall|i: int|
                0 <= i < s.len() ==> in_tree((#[trigger] s[i]).0, f) && m.contains_key(s[i].0)
                    && m[s[i].0] == s[i].1
            &&& forall|i: int| 0 <= i < s.len() && n < all.len() ==> lex_lt((#[trigger] s[i]).0, all[n].0)
            &&& forall|i: int|
                0 <= i < n && in_tree((#[trigger] all[i]).0, f) ==> exists|j: int|
                    0 <= j < s.len() && #[trigger] s[j].0 == all[i].0
        }),
    decreases n,
{
    if n > 0 {
        tree_rows_prefix(m, all, n - 1, f);
        let a = tree_rows(all, n - 1, f);
        let s = tree_rows(all, n, f);
        assert(m.contains_key(all[n - 1].0));
        if n < all.len() {
            assert(lex_lt(all[n - 1].0, all[n].0));
        }
        assert forall|i: int, j: int| 0 <= i < j < s.len() implies #[trigger] lex_lt(
            s[i].0,
            s[j].0,
        ) by {
            if j < a.len() {
                assert(lex_lt(a[i].0, a[j].0));
            }
        }
        assert forall|i: int| 0 <= i < s.len() && n < all.len() implies lex_lt(
            (#[trigger] s[i]).0,
            all[n].0,
        ) by {
            if i < a.len() {
                assert(lex_lt(a[i].0, all[n - 1].0));
                crate::order::lex_transitive(a[i].0, all[n - 1].0, all[n].0);
            }
        }
        assert forall|i: int| 0 <= i < n && in_tree((#[trigger] all[i]).0, f) implies exists|j: int|
            0 <= j < s.len() && #[trigger] s[j].0 == all[i].0 by {
            if i < n - 1 {
                let j = choose|j: int| 0 <= j < a.len() && #[trigger] a[j].0 == all[i].0;
                assert(s[j].0 == all[i].0);
            } else {
                assert(s[s.len() - 1].0 == all[i].0);
            }
        }
    }
}

proof fn tree_rows_listing(m: Map<Seq<u8>, u64>, all: Seq<(Seq<u8>, u64)>, f: Seq<u8>)
    requires
        is_listing(m, crate::table::any_key(), all),
    ensures
        is_listing(m, tree(f), tree_rows(all, all.len() as int, f)),
        listing(m, tree(f)) == tree_rows(all, all.len() as int, f),
{
    let n = all.len() as int;
    let s = tree_rows(all, n, f);
    tree_rows_prefix(m, all, n, f);
    assert forall|k: Seq<u8>| #[trigger] m.contains_key(k) && tree(f)(k) implies exists|i: int|
        0 <= i < s.len() && #[trigger] s[i].0 == k by {
        assert(crate::table::any_key()(k));
        let i = choose|i: int| 0 <= i < all.len() && #[trigger] all[i].0 == k;
        assert(in_tree(all[i].0, f));
    }
    crate::table::listing_unique(m, tree(f), s);
}

/// Every known path has the number that leads back to it.
pub open spec fn consistent(st: StateView) -> bool {
    &&& st.given_out()
    &&& forall|k: Seq<u8>| #[trigger]
        st.ino_of.contains_key(k) ==> st.paths[st.ino_of[k] - 1] == k
}

/// No known path of the subtree is renamed onto another one of it.
pub open spec fn apart(st: StateView, from: Seq<u8>, to: Seq<u8>) -> bool {
    forall|p: Seq<u8>, q: Seq<u8>|
        #![trigger st.ino_of.contains_key(p), st.ino_of.contains_key(q)]
        st.ino_of.contains_key(p) && in_tree(p, from) && st.ino_of.contains_key(q) && in_tree(
            q,
            from,
        ) && remapped(p, from, to) == q ==> p == q
}

/// Different paths of a subtree go to different places.
proof fn remapped_injective(p: Seq<u8>, q: Seq<u8>, from: Seq<u8>, to: Seq<u8>)
    requires
        in_tree(p, from),
        in_tree(q, from),
        remapped(p, from, to) == remapped(q, from, to),
    ensures
        p == q,
{
    if p != from {
        lemma_prefix_split(p, below(from));
    }
    if q != from {
        lemma_prefix_split(q, below(from));
    }
    let n = below(from).len() as int;
    if p != from && q != from {
        let a = after(p, n);
        let b = after(q, n);
        crate::order::lemma_prefix_of_concat(below(to), a);
        crate::order::lemma_prefix_of_concat(below(to), b);
        assert(a == b);
    } else if p == from && q != from {
        assert((below(to) + after(q, n)).len() > to.len());
    } else if p != from && q == from {
        assert((below(to) + after(p, n)).len() > to.len());
    }
}

proof fn rekeyed(
    st: StateView,
    l: Seq<(Seq<u8>, u64)>,
    n: nat,
    from: Seq<u8>,
    to: Seq<u8>,
    i: int,
)
    requires
        consistent(st),
        apart(st, from, to),
        is_listing(st.ino_of, tree(from), l),
        i < n <= l.len(),
        0 <= i,
    ensures
        ({
            let r = st.rekey_first(l, n, from, to);
            let np = remapped(l[i].0, from, to);
            &&& r.paths.len() == st.paths.len()
            &&& r.ino_of.contains_key(np) && r.ino_of[np] == l[i].1
            &&& r.paths[l[i].1 - 1] == np
        }),
    decreases n,
{
    let m = (n - 1) as nat;
    let r = st.rekey_first(l, n, from, to);
    let b = st.rekey_first(l, m, from, to);
    let (p, v) = l[m as int];
    let np = remapped(l[i].0, from, to);
    assert(st.ino_of.contains_key(l[i].0) && tree(from)(l[i].0));
    assert(st.ino_of.contains_key(l[m as int].0) && tree(from)(l[m as int].0));
    rekeyed_len(st, l, m, from, to);
    if i < m {
        rekeyed(st, l, m, from, to, i);
        assert(lex_lt(l[i].0, l[m as int].0));
        lex_irreflexive(p);
        if np == p {
            assert(l[i].0 == p);
        }
        if remapped(p, from, to) == np {
            remapped_injective(l[i].0, p, from, to);
        }
        // Different paths have different numbers.
        assert(st.paths[l[i].1 - 1] == l[i].0);
        assert(st.paths[v - 1] == p);
    }
}

proof fn rekeyed_len(
    st: StateView,
    l: Seq<(Seq<u8>, u64)>,
    n: nat,
    from: Seq<u8>,
    to: Seq<u8>,
)
    requires
        st.given_out(),
        is_listing(st.ino_of, tree(from), l),
        n <= l.len(),
    ensures
        st.rekey_first(l, n, from, to).paths.len() == st.paths.len(),
    decreases n,
{
    if n > 0 {
        rekeyed_len(st, l, (n - 1) as nat, from, to);
        assert(st.ino_of.contains_key(l[n - 1].0));
    }
}

/// A rename keeps inode numbers attached: every known path of the subtree
/// keeps its number at its new place.
pub proof fn rename_keeps_inodes(st: StateView, from: Seq<u8>, to: Seq<u8>, p: Seq<u8>)
    requires
        st.ino_of.dom().finite(),
        consistent(st),
        apart(st, from, to),
        st.ino_of.contains_key(p),
        in_tree(p, from),
    ensures
        ({
            let r = st.renamed(from, to);
            let np = remapped(p, from, to);
            &&& r.ino_of.contains_key(np)
            &&& r.ino_of[np] == st.ino_of[p]
            &&& r.path_of(st.ino_of[p]) == Some(np)
        }),
{
    crate::table::listing_exists(st.ino_of, tree(from));
    let l = listing(st.ino_of, tree(from));
    assert(tree(from)(p));
    let i = choose|i: int| 0 <= i < l.len() && #[trigger] l[i].0 == p;
    rekeyed(st, l, l.len(), from, to, i);
    rekeyed_len(st, l, l.len(), from, to);
    assert(l[i].1 == st.ino_of[p]);
}

/// Handing out numbers keeps the tables consistent.
pub proof fn numbering_is_consistent(st: StateView, path: Seq<u8>)
    requires
        consistent(st),
        st.paths.len() < u64::MAX,
    ensures
        consistent(fresh_state()),
        consistent(st.with_ino(path).0),
        st.with_ino(path).0.path_of(st.with_ino(path).1) == Some(path),
{
    let (r, i) = st.with_ino(path);
    assert forall|k: Seq<u8>| #[trigger] r.ino_of.contains_key(k) implies r.paths[r.ino_of[k] - 1]
        == k && 1 <= r.ino_of[k] <= r.paths.len() by {
        if k != path {
            assert(st.ino_of.contains_key(k));
        }
    }
    let f = fresh_state();
    assert forall|k: Seq<u8>| #[trigger] f.ino_of.contains_key(k) implies f.paths[f.ino_of[k] - 1]
        == k && 1 <= f.ino_of[k] <= f.paths.len() by {
        assert(k == root());
    }
}

/// A rename keeps the tables consistent.
pub proof fn rename_is_consistent(st: StateView, from: Seq<u8>, to: Seq<u8>)
    requires
        st.ino_of.dom().finite(),
        consistent(st),
        apart(st, from, to),
    ensures
        consistent(st.renamed(from, to)),
{
    crate::table::listing_exists(st.ino_of, tree(from));
    let l = listing(st.ino_of, tree(from));
    rekey_is_consistent(st, l, l.len(), from, to);
}

proof fn rekey_is_consistent(
    st: StateView,
    l: Seq<(Seq<u8>, u64)>,
    n: nat,
    from: Seq<u8>,
    to: Seq<u8>,
)
    requires
        consistent(st),
        apart(st, from, to),
        is_listing(st.ino_of, tree(from), l),
        n <= l.len(),
    ensures
        consistent(st.rekey_first(l, n, from, to)),
        forall|j: int|
            n <= j < l.len() ==> st.rekey_first(l, n, from, to).ino_of.contains_key(
                (#[trigger] l[j]).0,
            ) && st.rekey_first(l, n, from, to).ino_of[l[j].0] == l[j].1,
    decreases n,
{
    if n == 0 {
        assert forall|j: int| 0 <= j < l.len() implies st.ino_of.contains_key((#[trigger] l[j]).0)
            && st.ino_of[l[j].0] == l[j].1 by {
            assert(st.ino_of.contains_key(l[j].0));
        }
    } else {
        let m = (n - 1) as nat;
        rekey_is_consistent(st, l, m, from, to);
        rekeyed_len(st, l, m, from, to);
        let b = st.rekey_first(l, m, from, to);
        let r = st.rekey_first(l, n, from, to);
        let (p, i) = l[m as int];
        let np = remapped(p, from, to);
        assert(st.ino_of.contains_key(l[m as int].0) && tree(from)(l[m as int].0));
        assert(b.ino_of.contains_key(l[m as int].0) && b.ino_of[p] == i);
        assert(b.paths[i - 1] == p);
        assert forall|k: Seq<u8>| #[trigger] r.ino_of.contains_key(k) implies r.paths[r.ino_of[k]
            - 1] == k && 1 <= r.ino_of[k] <= r.paths.len() by {
            if k != np {
                assert(b.ino_of.contains_key(k));
                assert(b.paths[b.ino_of[k] - 1] == k);
            }
        }
        assert forall|j: int| n <= j < l.len() implies r.ino_of.contains_key((#[trigger] l[j]).0)
            && r.ino_of[l[j].0] == l[j].1 by {
            assert(lex_lt(l[m as int].0, l[j].0));
            lex_irreflexive(p);
            assert(st.ino_of.contains_key(l[j].0) && tree(from)(l[j].0));
            assert(b.ino_of.contains_key(l[j].0));
            if np == l[j].0 {
                assert(p == l[j].0);
            }
        }
    }
}

} // verus!

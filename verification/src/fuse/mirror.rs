//! Directory mirroring: which paths of a local directory have to be rewritten
//! or removed so that it looks like a replica's image.
use vstd::prelude::*;
use vstd::string::*;

use crate::fuse::fs::FileType;
use crate::fuse::store::{content_bytes, file_bytes};
use crate::fuse::{below, BlockRef, Content, ContentView, FsImage, Node, NodeView, Nodes};
use crate::order::{has_prefix, same};
use crate::snapshot::opt_text;
use crate::table::{any_key, is_listing, views, Dup, Key, Table};
use crate::text::{after_slash, before_slash, same_text, utf8, SLASH};

verus! {

/// One materialized path: what was last written to disk.
#[derive(Debug)]
pub struct StateEntry {
    pub size: u64,
    pub mtime_ms: i64,
    pub mode: u32,
    /// Symlink target, when the node is one.
    pub target: Option<String>,
    /// File content, when the node is a file. A block is named by the hash of
    /// its bytes, so that equal content means equal bytes.
    pub content: Option<Content>,
}

pub struct EntryView {
    pub size: u64,
    pub mtime_ms: i64,
    pub mode: u32,
    pub target: Option<Seq<char>>,
    pub content: Option<ContentView>,
}

impl View for StateEntry {
    type V = EntryView;

    open spec fn view(&self) -> EntryView {
        EntryView {
            size: self.size,
            mtime_ms: self.mtime_ms,
            mode: self.mode,
            target: opt_text(self.target),
            content: match self.content {
                Some(c) => Some(c@),
                None => None,
            },
        }
    }
}

/// The fingerprint of a node: all that a mirror shows of it.
pub open spec fn fingerprint(n: NodeView) -> EntryView {
    match n {
        NodeView::File { content, meta } => EntryView {
            size: content.size() as u64,
            mtime_ms: meta.mtime_ms,
            mode: meta.mode,
            target: None,
            content: Some(content),
        },
        NodeView::Symlink { target, meta } => EntryView {
            size: utf8(target).len() as u64,
            mtime_ms: meta.mtime_ms,
            mode: meta.mode,
            target: Some(target),
            content: None,
        },
        NodeView::Dir { meta } => EntryView {
            size: 0,
            mtime_ms: meta.mtime_ms,
            mode: meta.mode,
            target: None,
            content: None,
        },
    }
}

impl StateEntry {
    pub fn of(node: &Node) -> (r: Self)
        ensures
            r@ == fingerprint(node@),
    {
        match node {
            Node::File { content, meta } => StateEntry {
                size: content.len(),
                mtime_ms: meta.mtime_ms,
                mode: meta.mode,
                target: None,
                content: Some(content.dup()),
            },
            Node::Symlink { target, meta } => StateEntry {
                size: target.as_str().as_bytes().len() as u64,
                mtime_ms: meta.mtime_ms,
                mode: meta.mode,
                target: Some(target.clone()),
                content: None,
            },
            Node::Dir { meta } => StateEntry {
                size: 0,
                mtime_ms: meta.mtime_ms,
                mode: meta.mode,
                target: None,
                content: None,
            },
        }
    }

    pub fn same(&self, other: &StateEntry) -> (r: bool)
        ensures
            r == (self@ == other@),
    {
        let targets = match (&self.target, &other.target) {
            (Some(a), Some(b)) => same_text(a.as_str(), b.as_str()),
            (None, None) => true,
            _ => false,
        };
        let contents = match (&self.content, &other.content) {
            (Some(a), Some(b)) => same_content(a, b),
            (None, None) => true,
            _ => false,
        };
        self.size == other.size && self.mtime_ms == other.mtime_ms && self.mode == other.mode
            && targets && contents
    }
}

fn same_content(a: &Content, b: &Content) -> (r: bool)
    ensures
        r == (a@ == b@),
{
    match (a, b) {
        (Content::Inline(x), Content::Inline(y)) => same(x.as_slice(), y.as_slice()),
        (
            Content::Blocks { blocks: x, size: n },
            Content::Blocks { blocks: y, size: m },
        ) => *n == *m && same_blocks(x, y),
        _ => false,
    }
}

fn same_blocks(a: &Vec<BlockRef>, b: &Vec<BlockRef>) -> (r: bool)
    ensures
        r == (views(a@) == views(b@)),
{
    let ghost av = views(a@);
    let ghost bv = views(b@);
    if a.len() != b.len() {
        assert(av.len() != bv.len());
        return false;
    }
    let mut i: usize = 0;
    while i < a.len()
        invariant
            i <= a.len(),
            a.len() == b.len(),
            av == views(a@),
            bv == views(b@),
            forall|j: int| 0 <= j < i ==> av[j] == bv[j],
        decreases a.len() - i,
    {
        if a[i].len != b[i].len || !same_text(a[i].hash.as_str(), b[i].hash.as_str()) {
            assert(av[i as int] != bv[i as int]);
            return false;
        }
        i += 1;
    }
    assert(av =~= bv);
    true
}

/// What was last written, by path.
pub type Written = Map<Seq<u8>, EntryView>;

/// The state of a mirror between passes: volume path to what was last written
/// there.
pub struct MirrorState {
    pub entries: Table<String, StateEntry>,
}

/// What a node takes on disk.
#[derive(Debug)]
pub struct WriteSteps {
    /// Remove whatever stands there first.
    pub clear: bool,
    /// Then make this, unless it is there already.
    pub make: Option<FileType>,
}

/// The steps for a node, given whether a directory stands at its place: a
/// directory is kept, a file replaces anything but a directory in one rename,
/// a link is made anew.
pub open spec fn steps_for(n: NodeView, dir_there: bool) -> (bool, Option<FileType>) {
    match n {
        NodeView::Dir { .. } => if dir_there {
            (false, None)
        } else {
            (true, Some(FileType::Directory))
        },
        NodeView::Symlink { .. } => (true, Some(FileType::Symlink)),
        NodeView::File { .. } => (dir_there, Some(FileType::RegularFile)),
    }
}

pub fn write_node(node: &Node, dir_there: bool) -> (r: WriteSteps)
    ensures
        (r.clear, r.make) == steps_for(node@, dir_there),
{
    match node {
        Node::Dir { .. } => if dir_there {
            WriteSteps { clear: false, make: None }
        } else {
            WriteSteps { clear: true, make: Some(FileType::Directory) }
        },
        Node::Symlink { .. } => WriteSteps { clear: true, make: Some(FileType::Symlink) },
        Node::File { .. } => WriteSteps { clear: dir_there, make: Some(FileType::RegularFile) },
    }
}

/// Whether a node has to be written: nothing stands at its place, or it was not
/// written as it is now.
pub open spec fn is_stale(m: Written, path: Seq<u8>, n: NodeView, on_disk: bool) -> bool {
    !(on_disk && m.contains_key(path) && m[path] == fingerprint(n))
}

/// The paths written before that are no longer in the image.
pub open spec fn is_gone(m: Written, image: Nodes, p: Seq<u8>) -> bool {
    m.contains_key(p) && !image.contains_key(p)
}

/// `s` holds the gone paths, each once, longest first.
pub open spec fn is_removal_order(m: Written, image: Nodes, s: Seq<Seq<u8>>) -> bool {
    &&& forall|i: int| 0 <= i < s.len() ==> is_gone(m, image, #[trigger] s[i])
    &&& forall|p: Seq<u8>| #[trigger] is_gone(m, image, p) ==> s.contains(p)
    &&& forall|i: int, j: int| 0 <= i < j < s.len() ==> s[i].len() >= s[j].len() && s[i] != s[j]
}

pub open spec fn path_views(v: Seq<String>) -> Seq<Seq<u8>> {
    Seq::new(v.len(), |i: int| utf8(v[i]@))
}

impl MirrorState {
    pub fn new() -> (r: Self)
        ensures
            r.entries@ == Written::empty(),
    {
        MirrorState { entries: Table::new() }
    }

    /// Whether the node at `path` has to be written: its fingerprint changed,
    /// or nothing stands at its place on disk.
    pub fn needs_write(&self, path: &str, node: &Node, on_disk: bool) -> (r: bool)
        ensures
            r == is_stale(self.entries@, utf8(path@), node@, on_disk),
    {
        if !on_disk {
            return true;
        }
        match self.entries.get(path.as_bytes()) {
            Some(e) => !e.same(&StateEntry::of(node)),
            None => true,
        }
    }

    /// Notes that the node was written.
    pub fn wrote(&mut self, path: &str, node: &Node)
        ensures
            final(self).entries@ == old(self).entries@.insert(
                utf8(path@),
                fingerprint(node@),
            ),
    {
        self.entries.insert(path.to_owned(), StateEntry::of(node));
    }

    /// Notes that the path was removed.
    pub fn removed(&mut self, path: &str)
        ensures
            final(self).entries@ == old(self).entries@.remove(utf8(path@)),
    {
        let _ = self.entries.remove(path.as_bytes());
    }

    /// Previously materialized paths that left the image, deepest first so
    /// each directory empties before it is removed.
    pub fn gone(&self, image: &FsImage) -> (r: Vec<String>)
        ensures
            is_removal_order(self.entries@, image@, path_views(r@)),
    {
        let n = self.entries.len();
        let ghost m = self.entries@;
        let ghost l = self.entries.entries();
        let mut out: Vec<String> = Vec::new();
        let mut i: usize = 0;
        assert(path_views(out@) =~= Seq::<Seq<u8>>::empty());
        while i < n
            invariant
                i <= n,
                n == l.len(),
                l == self.entries.entries(),
                m == self.entries@,
                is_listing(m, any_key(), l),
                forall|j: int|
                    0 <= j < out.len() ==> is_gone(m, image@, #[trigger] path_views(out@)[j])
                        && exists|k: int| 0 <= k < i && #[trigger] l[k].0 == path_views(out@)[j],
                forall|k: int|
                    0 <= k < i && is_gone(m, image@, (#[trigger] l[k]).0) ==> path_views(
                        out@,
                    ).contains(l[k].0),
                forall|a: int, b: int|
                    0 <= a < b < out.len() ==> path_views(out@)[a].len() >= path_views(
                        out@,
                    )[b].len() && path_views(out@)[a] != path_views(out@)[b],
            decreases n - i,
        {
            let key = self.entries.key_at(i);
            let ghost p = l[i as int].0;
            assert(m.contains_key(l[i as int].0));
            if !image.nodes.contains(key.as_key()) {
                let ghost before = path_views(out@);
                proof {
                    assert forall|j: int| 0 <= j < before.len() implies #[trigger] before[j]
                        != p by {
                        let k = choose|k: int| 0 <= k < i && #[trigger] l[k].0 == before[j];
                        assert(crate::order::lex_lt(l[k].0, l[i as int].0));
                        crate::order::lex_irreflexive(p);
                    }
                }
                let len: usize = key.as_key().len();
                let mut at: usize = out.len();
                while at > 0 && out[at - 1].as_key().len() < len
                    invariant
                        at <= out.len(),
                        before == path_views(out@),
                        len == p.len(),
                        forall|j: int| at <= j < before.len() ==> (#[trigger] before[j]).len() < len,
                    decreases at,
                {
                    assert(before[at - 1] == utf8(out@[at - 1]@));
                    at -= 1;
                }
                proof {
                    if at > 0 {
                        assert(before[at - 1] == utf8(out@[at - 1]@));
                    }
                }
                let ghost old_out = out@;
                out.insert(at, key.clone());
                proof {
                    let after = path_views(out@);
                    assert(after =~= before.insert(at as int, p));
                    assert forall|a: int, b: int| 0 <= a < b < after.len() implies after[a].len()
                        >= after[b].len() && after[a] != after[b] by {
                        let a0 = if a < at { a } else { a - 1 };
                        let b0 = if b < at { b } else { b - 1 };
                        if a != at && b != at {
                            assert(after[a] == before[a0] && after[b] == before[b0]);
                        } else if a == at {
                            assert(after[b] == before[b0]);
                        } else {
                            assert(after[a] == before[a0]);
                            if a0 < at - 1 {
                                assert(before[a0].len() >= before[at - 1].len());
                            }
                        }
                    }
                    assert forall|j: int| 0 <= j < after.len() implies is_gone(
                        m,
                        image@,
                        #[trigger] after[j],
                    ) && exists|k: int| 0 <= k < i + 1 && #[trigger] l[k].0 == after[j] by {
                        if j == at {
                            assert(l[i as int].0 == after[j]);
                        } else {
                            let j0 = if j < at { j } else { j - 1 };
                            assert(after[j] == before[j0]);
                            let k = choose|k: int| 0 <= k < i && #[trigger] l[k].0 == before[j0];
                            assert(0 <= k < i + 1 && l[k].0 == after[j]);
                        }
                    }
                    assert forall|k: int|
                        0 <= k < i + 1 && is_gone(m, image@, (#[trigger] l[k]).0) implies after.contains(
                        l[k].0,
                    ) by {
                        if k == i {
                            assert(after[at as int] == p);
                        } else {
                            let j = choose|j: int| 0 <= j < before.len() && before[j] == l[k].0;
                            assert(after[if j < at { j } else { j + 1 }] == before[j]);
                        }
                    }
                }
            }
            i += 1;
        }
        proof {
            assert forall|p: Seq<u8>| #[trigger] is_gone(m, image@, p) implies path_views(
                out@,
            ).contains(p) by {
                assert(any_key()(p));
                let k = choose|k: int| 0 <= k < l.len() && #[trigger] l[k].0 == p;
                assert(is_gone(m, image@, l[k].0));
            }
        }
        out
    }
}

/// A path below another is removed before it.
pub proof fn removal_is_deepest_first(m: Written, image: Nodes, s: Seq<Seq<u8>>, i: int, j: int)
    requires
        is_removal_order(m, image, s),
        0 <= i < s.len(),
        0 <= j < s.len(),
        has_prefix(s[j], below(s[i])),
    ensures
        j < i,
{
    assert(s[j].len() > s[i].len());
    if i < j {
        assert(s[i].len() >= s[j].len());
    }
}

/// What a pass leaves behind when every node could be written: the mirror
/// holds every path of the image, and no other that it wrote before, and shows
/// each as it is: a file with its content, a link with its target.
pub open spec fn mirrors(m: Written, image: Nodes) -> bool {
    &&& forall|p: Seq<u8>| #[trigger] m.contains_key(p) == image.contains_key(p)
    &&& forall|p: Seq<u8>| #[trigger] m.contains_key(p) ==> shows(m[p], image[p])
}

/// Whether an entry shows a node as it is.
pub open spec fn shows(e: EntryView, n: NodeView) -> bool {
    &&& e.mode == n.meta().mode
    &&& e.mtime_ms == n.meta().mtime_ms
    &&& match n {
        NodeView::File { content, meta } => e.content == Some(content) && e.target is None,
        NodeView::Symlink { target, meta } => e.content is None && e.target == Some(target),
        NodeView::Dir { meta } => e.content is None && e.target is None,
    }
}

/// A file that is shown as it is reads as it does in the image.
pub proof fn shown_bytes(
    e: EntryView,
    image: Nodes,
    path: Seq<u8>,
    cache: Map<Seq<u8>, Seq<u8>>,
)
    requires
        image.contains_key(path),
        image[path] is File,
        shows(e, image[path]),
    ensures
        content_bytes(e.content->0, cache) == file_bytes(image, cache, path),
{
}

/// The state after noting every path of `ps`, in order, as written.
pub open spec fn noted(m: Written, image: Nodes, ps: Seq<Seq<u8>>) -> Written
    decreases ps.len(),
{
    if ps.len() == 0 {
        m
    } else {
        noted(m, image, ps.drop_last()).insert(ps.last(), fingerprint(image[ps.last()]))
    }
}

/// The state after noting every path of `ps`, in order, as removed.
pub open spec fn dropped(m: Written, ps: Seq<Seq<u8>>) -> Written
    decreases ps.len(),
{
    if ps.len() == 0 {
        m
    } else {
        dropped(m, ps.drop_last()).remove(ps.last())
    }
}

/// A pass converges: after writing the nodes whose fingerprint differs or
/// that are not on disk, and removing the paths that are gone, the mirror's
/// state is that of the image, and so is the directory, where it held what was
/// last written before. Only what the mirror never wrote is left beside.
pub proof fn pass_converges(
    m: Written,
    disk: Written,
    image: Nodes,
    writes: Seq<Seq<u8>>,
    gone: Seq<Seq<u8>>,
)
    requires
        forall|p: Seq<u8>| #[trigger]
            m.contains_key(p) && disk.contains_key(p) ==> disk[p] == m[p],
        forall|i: int| 0 <= i < writes.len() ==> image.contains_key(#[trigger] writes[i]),
        forall|p: Seq<u8>| #[trigger]
            image.contains_key(p) ==> writes.contains(p) || (disk.contains_key(p)
                && m.contains_key(p) && m[p] == fingerprint(image[p])),
        is_removal_order(noted(m, image, writes), image, gone),
    ensures
        mirrors(dropped(noted(m, image, writes), gone), image),
        ({
            let after = dropped(noted(disk, image, writes), gone);
            &&& forall|p: Seq<u8>| #[trigger]
                image.contains_key(p) ==> after.contains_key(p) && shows(after[p], image[p])
            &&& forall|p: Seq<u8>| #[trigger]
                after.contains_key(p) ==> image.contains_key(p) || (disk.contains_key(p)
                    && !m.contains_key(p))
        }),
{
    noted_entries(m, image, writes);
    let n = noted(m, image, writes);
    dropped_entries(n, gone);
    let d = dropped(n, gone);
    assert forall|p: Seq<u8>| #[trigger] d.contains_key(p) == image.contains_key(p) by {
        if n.contains_key(p) && !image.contains_key(p) {
            assert(is_gone(n, image, p));
        }
        if gone.contains(p) {
            let i = choose|i: int| 0 <= i < gone.len() && gone[i] == p;
            assert(is_gone(n, image, gone[i]));
        }
    }
    noted_entries(disk, image, writes);
    let nd = noted(disk, image, writes);
    dropped_entries(nd, gone);
    let after = dropped(nd, gone);
    assert forall|p: Seq<u8>| #[trigger] image.contains_key(p) implies after.contains_key(p)
        && shows(after[p], image[p]) by {
        if gone.contains(p) {
            let i = choose|i: int| 0 <= i < gone.len() && gone[i] == p;
            assert(is_gone(n, image, gone[i]));
        }
        assert(nd.contains_key(p));
        assert(after.contains_key(p));
        assert(after[p] == nd[p]);
        assert(nd[p] == fingerprint(image[p])) by {
            if !writes.contains(p) {
                assert(m.contains_key(p) && disk.contains_key(p));
                assert(disk[p] == m[p]);
            }
        }
    }
    assert forall|p: Seq<u8>| #[trigger] after.contains_key(p) implies image.contains_key(p) || (
    disk.contains_key(p) && !m.contains_key(p)) by {
        assert(nd.contains_key(p));
        if writes.contains(p) {
            let i = choose|i: int| 0 <= i < writes.len() && writes[i] == p;
            assert(image.contains_key(writes[i]));
        } else if m.contains_key(p) && !image.contains_key(p) {
            assert(n.contains_key(p));
            assert(is_gone(n, image, p));
        }
    }
}

proof fn noted_entries(m: Written, image: Nodes, ps: Seq<Seq<u8>>)
    ensures
        forall|p: Seq<u8>| #[trigger]
            noted(m, image, ps).contains_key(p) <==> m.contains_key(p) || ps.contains(p),
        forall|p: Seq<u8>| #[trigger]
            noted(m, image, ps).contains_key(p) ==> noted(m, image, ps)[p] == (if ps.contains(p) {
                fingerprint(image[p])
            } else {
                m[p]
            }),
    decreases ps.len(),
{
    if ps.len() > 0 {
        let rest = ps.drop_last();
        noted_entries(m, image, rest);
        assert forall|p: Seq<u8>| ps.contains(p) == (rest.contains(p) || p == ps.last()) by {
            if rest.contains(p) {
                let i = choose|i: int| 0 <= i < rest.len() && rest[i] == p;
                assert(ps[i] == p);
            }
            if ps.contains(p) && p != ps.last() {
                let i = choose|i: int| 0 <= i < ps.len() && ps[i] == p;
                assert(rest[i] == p);
            }
        }
    }
}

proof fn dropped_entries(m: Written, ps: Seq<Seq<u8>>)
    ensures
        forall|p: Seq<u8>| #[trigger]
            dropped(m, ps).contains_key(p) <==> m.contains_key(p) && !ps.contains(p),
        forall|p: Seq<u8>| #[trigger] dropped(m, ps).contains_key(p) ==> dropped(m, ps)[p] == m[p],
    decreases ps.len(),
{
    if ps.len() > 0 {
        let rest = ps.drop_last();
        dropped_entries(m, rest);
        assert forall|p: Seq<u8>| ps.contains(p) == (rest.contains(p) || p == ps.last()) by {
            if rest.contains(p) {
                let i = choose|i: int| 0 <= i < rest.len() && rest[i] == p;
                assert(ps[i] == p);
            }
            if ps.contains(p) && p != ps.last() {
                let i = choose|i: int| 0 <= i < ps.len() && ps[i] == p;
                assert(rest[i] == p);
            }
        }
        let d = dropped(m, ps);
        let r = dropped(m, rest);
        assert(d == r.remove(ps.last()));
        assert forall|p: Seq<u8>| #[trigger] d.contains_key(p) <==> m.contains_key(p)
            && !ps.contains(p) by {
            assert(r.contains_key(p) <==> m.contains_key(p) && !rest.contains(p));
            assert(ps.contains(p) == (rest.contains(p) || p == ps.last()));
        }
        assert forall|p: Seq<u8>| #[trigger] d.contains_key(p) implies d[p] == m[p] by {
            assert(r.contains_key(p));
        }
    }
}

// ---- local paths ----------------------------------------------------------

/// Whether a component of a volume path names an entry: not empty, not the
/// directory itself, not its parent.
pub open spec fn is_normal(c: Seq<u8>) -> bool {
    &&& c.len() > 0
    &&& c != seq![0x2eu8]
    &&& c != seq![0x2eu8, 0x2eu8]
}

/// The components of a path: what stands between its slashes.
pub open spec fn components(path: Seq<u8>) -> Seq<Seq<u8>>
    decreases path.len(),
{
    if exists|i: int| 0 <= i < path.len() && path[i] == SLASH {
        let i = slash_at(path);
        if 0 <= i < path.len() {
            components(path.take(i)).push(path.skip(i + 1))
        } else {
            seq![path]
        }
    } else {
        seq![path]
    }
}

/// The position of the last slash.
pub open spec fn slash_at(path: Seq<u8>) -> int {
    choose|i: int| crate::fuse::fs::last_slash(path, i)
}

/// The components of a path that name entries, in order: a local path made of
/// them stays inside the mirror directory.
pub open spec fn local_parts(path: Seq<u8>) -> Seq<Seq<u8>> {
    components(path).filter(|c: Seq<u8>| is_normal(c))
}

/// Maps a volume path to the components of its place in the mirror directory.
pub fn local(vol_path: &str) -> (r: Vec<String>)
    ensures
        path_views(r@) == local_parts(utf8(vol_path@)),
    decreases utf8(vol_path@).len(),
{
    let bytes = vol_path.as_bytes();
    let ghost b = bytes@;
    let mut i: usize = bytes.len();
    while i > 0
        invariant
            i <= bytes.len(),
            b == bytes@,
            forall|j: int| i <= j < b.len() ==> b[j] != SLASH,
        ensures
            i == 0 || b[i - 1] == SLASH,
        decreases i,
    {
        if bytes[i - 1] == SLASH {
            break;
        }
        i -= 1;
    }
    if i == 0 {
        let mut out: Vec<String> = Vec::new();
        proof {
            assert(components(b) == seq![b]);
            lemma_filter_one(b);
        }
        if normal(bytes) {
            out.push(vol_path.to_owned());
        }
        assert(path_views(out@) =~= local_parts(b));
        out
    } else {
        let at: usize = i - 1;
        let head = before_slash(vol_path, at);
        let tail = after_slash(vol_path, at);
        proof {
            assert(crate::fuse::fs::last_slash(b, at as int));
            let c = slash_at(b);
            assert(crate::fuse::fs::last_slash(b, c));
            if c < at {
                assert(b[at as int] != SLASH);
            }
            if at < c {
                assert(b[c] != SLASH);
            }
            assert(b.take(at as int) =~= b.subrange(0, at as int));
            assert(b.skip(at + 1) =~= b.subrange(at + 1, b.len() as int));
            assert(components(b) == components(b.take(at as int)).push(b.skip(at + 1)));
            lemma_filter_push(components(b.take(at as int)), b.skip(at + 1));
        }
        let mut out = local(head.as_str());
        let ghost before = path_views(out@);
        if normal(tail.as_str().as_bytes()) {
            let ghost tv = utf8(tail@);
            out.push(tail);
            assert(path_views(out@) =~= before.push(tv));
        }
        out
    }
}

fn normal(c: &[u8]) -> (r: bool)
    ensures
        r == is_normal(c@),
{
    if c.len() == 0 {
        return false;
    }
    if c.len() == 1 && c[0] == 0x2e {
        assert(c@ =~= seq![0x2eu8]);
        return false;
    }
    if c.len() == 2 && c[0] == 0x2e && c[1] == 0x2e {
        assert(c@ =~= seq![0x2eu8, 0x2eu8]);
        return false;
    }
    true
}

proof fn lemma_filter_push(s: Seq<Seq<u8>>, x: Seq<u8>)
    ensures
        s.push(x).filter(|c: Seq<u8>| is_normal(c)) == (if is_normal(x) {
            s.filter(|c: Seq<u8>| is_normal(c)).push(x)
        } else {
            s.filter(|c: Seq<u8>| is_normal(c))
        }),
{
    reveal(Seq::filter);
    assert(s.push(x).drop_last() =~= s);
    assert(s.push(x).last() == x);
}

proof fn lemma_filter_one(x: Seq<u8>)
    ensures
        seq![x].filter(|c: Seq<u8>| is_normal(c)) == (if is_normal(x) {
            seq![x]
        } else {
            Seq::<Seq<u8>>::empty()
        }),
{
    let e = Seq::<Seq<u8>>::empty();
    lemma_filter_push(e, x);
    assert(e.push(x) =~= seq![x]);
    reveal(Seq::filter);
    assert(e.filter(|c: Seq<u8>| is_normal(c)) =~= e);
}

} // verus!

//! Requests on a mounted volume: what each one checks, which deltas it
//! commits, and what it answers.
//!
//! Writes are staged per open handle as an extent list and committed as one
//! atomic batch on flush. Handles are keyed by inode, so a rename re-points a
//! dirty handle onto its current path. Hardlinks are not supported: a path is
//! the identity of a node.
use vstd::prelude::*;
use vstd::string::*;

use crate::digits::{be, be_bytes};
use crate::fuse::fs::{
    attr_of, attr_view, children, children_of, entry_views, is_parent, join, join_of, parent_path,
    root, Errno, FileAttr, FileType, State, StateView,
};
use crate::fuse::consistency::run;
use crate::fuse::store::truncated;
use crate::fuse::{
    splice, Content, ContentView, Data, DataView, Delta, DeltaView, FsImage, MetaView, Node,
    NodeView, Nodes,
};
use crate::table::{any_key, is_listing, listing, views, Dup, Key, Table};
use crate::text::{is_slash, utf8};

verus! {

/// One open file: its inode and the pending extents to commit.
#[derive(Debug)]
pub struct Handle {
    pub ino: u64,
    pub extents: Vec<(u64, Vec<u8>)>,
}

/// Extents in the order they were written: offset and bytes.
pub type Extents = Seq<(u64, Seq<u8>)>;

pub struct HandleView {
    pub ino: u64,
    pub extents: Extents,
}

impl View for Handle {
    type V = HandleView;

    open spec fn view(&self) -> HandleView {
        HandleView { ino: self.ino, extents: views(self.extents@) }
    }
}

/// A mounted filesystem: inode tables and open handles. A replica's mount is
/// not writable.
pub struct LandslideFs {
    pub state: State,
    pub handles: Table<Vec<u8>, Handle>,
    pub next_fh: u64,
    pub writable: bool,
}

/// The key of a handle number.
pub open spec fn fh_key(fh: u64) -> Seq<u8> {
    be(fh as nat, 8)
}

pub open spec fn opt_name(name: Option<&str>) -> Option<Seq<char>> {
    match name {
        Some(n) => Some(n@),
        None => None,
    }
}

/// Whether a directory stands at `path`.
pub open spec fn is_dir(nodes: Nodes, path: Seq<u8>) -> bool {
    path == root() || (nodes.contains_key(path) && nodes[path] is Dir)
}

/// The path of `name` in the directory `parent`, or why there is none.
pub open spec fn resolve(
    st: StateView,
    nodes: Nodes,
    parent: u64,
    name: Option<Seq<char>>,
) -> Result<Seq<u8>, Errno> {
    match name {
        None => Err(Errno::EINVAL),
        Some(n) => match st.path_of(parent) {
            None => Err(Errno::ENOENT),
            Some(dir) => if is_dir(nodes, dir) {
                Ok(join_of(dir, utf8(n)))
            } else {
                Err(Errno::ENOTDIR)
            },
        },
    }
}

/// The path of `name` below the inode `parent`, whatever that is.
pub open spec fn locate(st: StateView, parent: u64, name: Option<Seq<char>>) -> Result<
    Seq<u8>,
    Errno,
> {
    match name {
        None => Err(Errno::EINVAL),
        Some(n) => match st.path_of(parent) {
            None => Err(Errno::ENOENT),
            Some(dir) => Ok(join_of(dir, utf8(n))),
        },
    }
}

/// The path where a new entry can be made, or why none can.
pub open spec fn vacant(
    st: StateView,
    nodes: Nodes,
    parent: u64,
    name: Option<Seq<char>>,
) -> Result<Seq<u8>, Errno> {
    match resolve(st, nodes, parent, name) {
        Err(e) => Err(e),
        Ok(path) => if nodes.contains_key(path) {
            Err(Errno::EEXIST)
        } else {
            Ok(path)
        },
    }
}

/// The path whose attributes a request changes: only a regular file can change
/// its size.
pub open spec fn changeable(st: StateView, nodes: Nodes, ino: u64, resize: bool) -> Result<
    Seq<u8>,
    Errno,
> {
    match st.path_of(ino) {
        None => Err(Errno::ENOENT),
        Some(path) => if path != root() && !nodes.contains_key(path) {
            Err(Errno::ENOENT)
        } else if resize && !(nodes.contains_key(path) && nodes[path] is File) {
            Err(Errno::EINVAL)
        } else {
            Ok(path)
        },
    }
}

/// The attributes behind a number.
pub open spec fn attributes_of(st: StateView, nodes: Nodes, ino: u64) -> Result<FileAttr, Errno> {
    match st.path_of(ino) {
        None => Err(Errno::ENOENT),
        Some(path) => match attr_view(nodes, ino, path) {
            Some(a) => Ok(a),
            None => Err(Errno::ENOENT),
        },
    }
}

/// Where a symbolic link leads.
pub open spec fn link_target(st: StateView, nodes: Nodes, ino: u64) -> Result<Seq<char>, Errno> {
    match st.path_of(ino) {
        None => Err(Errno::ENOENT),
        Some(path) => if !nodes.contains_key(path) {
            Err(Errno::ENOENT)
        } else {
            match nodes[path] {
                NodeView::Symlink { target, .. } => Ok(target),
                _ => Err(Errno::EINVAL),
            }
        },
    }
}

/// Whether a number can be opened: it leads to a regular file.
pub open spec fn openable(st: StateView, nodes: Nodes, ino: u64) -> Result<(), Errno> {
    match st.path_of(ino) {
        None => Err(Errno::ENOENT),
        Some(path) => if !nodes.contains_key(path) {
            Err(Errno::ENOENT)
        } else {
            match nodes[path] {
                NodeView::File { .. } => Ok(()),
                NodeView::Dir { .. } => Err(Errno::EISDIR),
                NodeView::Symlink { .. } => Err(Errno::ELOOP),
            }
        },
    }
}

/// The path of a creation, and whether a file stands there to be opened.
pub open spec fn creatable(
    st: StateView,
    nodes: Nodes,
    parent: u64,
    name: Option<Seq<char>>,
) -> Result<(Seq<u8>, bool), Errno> {
    match resolve(st, nodes, parent, name) {
        Err(e) => Err(e),
        Ok(path) => if nodes.contains_key(path) {
            match nodes[path] {
                NodeView::File { .. } => Ok((path, true)),
                NodeView::Dir { .. } => Err(Errno::EISDIR),
                NodeView::Symlink { .. } => Err(Errno::EEXIST),
            }
        } else {
            Ok((path, false))
        },
    }
}

/// The path of a file or link to be removed.
pub open spec fn unlinkable(
    st: StateView,
    nodes: Nodes,
    parent: u64,
    name: Option<Seq<char>>,
) -> Result<Seq<u8>, Errno> {
    match locate(st, parent, name) {
        Err(e) => Err(e),
        Ok(path) => if !nodes.contains_key(path) {
            Err(Errno::ENOENT)
        } else if nodes[path] is Dir {
            Err(Errno::EISDIR)
        } else {
            Ok(path)
        },
    }
}

/// The path of a directory to be removed: it must be empty.
pub open spec fn removable(
    st: StateView,
    nodes: Nodes,
    parent: u64,
    name: Option<Seq<char>>,
) -> Result<Seq<u8>, Errno> {
    match locate(st, parent, name) {
        Err(e) => Err(e),
        Ok(path) => if !(nodes.contains_key(path) && nodes[path] is Dir) {
            Err(Errno::ENOTDIR)
        } else if children_of(nodes, path).len() > 0 {
            Err(Errno::ENOTEMPTY)
        } else {
            Ok(path)
        },
    }
}

/// The path that an extended attribute is set on.
pub open spec fn taggable(st: StateView, nodes: Nodes, ino: u64, name: Option<Seq<char>>) -> Result<
    Seq<u8>,
    Errno,
> {
    match st.path_of(ino) {
        None => Err(Errno::ENOENT),
        Some(path) => if path != root() && !nodes.contains_key(path) {
            Err(Errno::ENOENT)
        } else if name is None {
            Err(Errno::EINVAL)
        } else {
            Ok(path)
        },
    }
}

/// The path that an extended attribute is removed from: it must be there.
pub open spec fn tagged(st: StateView, nodes: Nodes, ino: u64, name: Option<Seq<char>>) -> Result<
    Seq<u8>,
    Errno,
> {
    match st.path_of(ino) {
        None => Err(Errno::ENOENT),
        Some(path) => if name is None {
            Err(Errno::EINVAL)
        } else if !nodes.contains_key(path) {
            Err(Errno::ENOENT)
        } else if !nodes[path].meta().xattrs.contains_key(utf8(name->0)) {
            Err(Errno::NoXattr)
        } else {
            Ok(path)
        },
    }
}

/// The value of an extended attribute. The root has none.
pub open spec fn tag_value(st: StateView, nodes: Nodes, ino: u64, name: Option<Seq<char>>) -> Result<
    Seq<u8>,
    Errno,
> {
    match st.path_of(ino) {
        None => Err(Errno::ENOENT),
        Some(path) => if name is None {
            Err(Errno::EINVAL)
        } else if path != root() && !nodes.contains_key(path) {
            Err(Errno::ENOENT)
        } else if !nodes.contains_key(path) || !nodes[path].meta().xattrs.contains_key(
            utf8(name->0),
        ) {
            Err(Errno::NoXattr)
        } else {
            Ok(nodes[path].meta().xattrs[utf8(name->0)])
        },
    }
}

/// The names of the extended attributes, by name.
pub open spec fn tag_names(st: StateView, nodes: Nodes, ino: u64) -> Result<Seq<u8>, Errno> {
    match st.path_of(ino) {
        None => Err(Errno::ENOENT),
        Some(path) => if nodes.contains_key(path) {
            Ok(name_list(listing(nodes[path].meta().xattrs, any_key())))
        } else if path == root() {
            Ok(Seq::empty())
        } else {
            Err(Errno::ENOENT)
        },
    }
}

/// A result that stands for an outcome, paths as bytes.
pub open spec fn path_is(r: Result<String, Errno>, want: Result<Seq<u8>, Errno>) -> bool {
    match (r, want) {
        (Ok(p), Ok(w)) => utf8(p@) == w,
        (Err(a), Err(b)) => a == b,
        _ => false,
    }
}

/// The deltas of a result, or its error.
pub open spec fn deltas_are(
    r: Result<(String, Vec<Delta>), Errno>,
    path: Result<Seq<u8>, Errno>,
    want: spec_fn(Seq<u8>) -> Seq<DeltaView>,
) -> bool {
    match (r, path) {
        (Ok((p, ds)), Ok(w)) => utf8(p@) == w && views(ds@) == want(w),
        (Err(a), Err(b)) => a == b,
        _ => false,
    }
}

/// The deltas that make a node with the given owner and permission bits.
pub open spec fn birth(first: DeltaView, path: Seq<u8>, mode: Option<u32>, uid: u32, gid: u32) -> Seq<
    DeltaView,
> {
    seq![
        first,
        DeltaView::SetAttr { path, mode, uid: Some(uid), gid: Some(gid), mtime_ms: None },
    ]
}

/// The permission bits of a new node.
pub open spec fn masked(mode: u32, umask: u32) -> u32 {
    mode & !umask & 0xfff
}

fn is_directory(img: &FsImage, path: &str) -> (r: bool)
    ensures
        r == is_dir(img@, utf8(path@)),
{
    if is_slash(path) {
        return true;
    }
    match img.nodes.get(path.as_bytes()) {
        Some(Node::Dir { .. }) => true,
        _ => false,
    }
}

fn two(a: Delta, b: Delta) -> (r: Vec<Delta>)
    ensures
        views(r@) == seq![a@, b@],
{
    let mut r: Vec<Delta> = Vec::new();
    let ghost av = a@;
    let ghost bv = b@;
    r.push(a);
    r.push(b);
    assert(views(r@) =~= seq![av, bv]);
    r
}

fn one(a: Delta) -> (r: Vec<Delta>)
    ensures
        views(r@) == seq![a@],
{
    let mut r: Vec<Delta> = Vec::new();
    let ghost av = a@;
    r.push(a);
    assert(views(r@) =~= seq![av]);
    r
}

/// A directory entry as listed: where to go on after it, what it is, and its
/// name.
#[derive(Debug)]
pub struct DirEntry {
    pub ino: u64,
    pub cookie: u64,
    pub kind: FileType,
    pub name: String,
}

/// How an exclusive or plain creation goes on.
#[derive(Debug)]
pub enum CreateStep {
    /// A file stands there: open it in place.
    Existing(String),
    /// Commit these deltas, then open the path.
    New(String, Vec<Delta>),
}

/// The reply to a size-probing attribute read.
#[derive(Debug)]
pub enum XattrReply {
    Size(u32),
    Data(Vec<u8>),
}

/// A modification time to set.
#[derive(Debug, Clone, Copy)]
pub enum SetTime {
    /// Milliseconds since the epoch; `None` for a time before it.
    At(Option<u128>),
    Now,
}

/// The handle number that follows `fh`.
pub open spec fn next_handle(fh: u64) -> u64 {
    if fh == u64::MAX {
        0
    } else {
        (fh + 1) as u64
    }
}

impl LandslideFs {
    pub fn new(writable: bool) -> (r: Self)
        ensures
            r.state@ == crate::fuse::fs::fresh_state(),
            r.handles@ == Map::<Seq<u8>, HandleView>::empty(),
            r.next_fh == 1,
            r.writable == writable,
    {
        LandslideFs { state: State::new(), handles: Table::new(), next_fh: 1, writable }
    }

    /// Whether mutations are served: a replica's mount refuses them.
    pub fn check_writable(&self) -> (r: Result<(), Errno>)
        ensures
            r == (if self.writable {
                Ok::<(), Errno>(())
            } else {
                Err(Errno::EROFS)
            }),
    {
        if self.writable {
            Ok(())
        } else {
            Err(Errno::EROFS)
        }
    }

    fn resolve(&self, img: &FsImage, parent: u64, name: Option<&str>) -> (r: Result<String, Errno>)
        ensures
            path_is(r, resolve(self.state@, img@, parent, opt_name(name))),
    {
        let name = match name {
            Some(n) => n,
            None => return Err(Errno::EINVAL),
        };
        let dir = match self.state.path_of(parent) {
            Some(d) => d,
            None => return Err(Errno::ENOENT),
        };
        if !is_directory(img, dir.as_str()) {
            return Err(Errno::ENOTDIR);
        }
        Ok(join(dir.as_str(), name))
    }

    fn locate(&self, parent: u64, name: Option<&str>) -> (r: Result<String, Errno>)
        ensures
            path_is(r, locate(self.state@, parent, opt_name(name))),
    {
        let name = match name {
            Some(n) => n,
            None => return Err(Errno::EINVAL),
        };
        match self.state.path_of(parent) {
            Some(d) => Ok(join(d.as_str(), name)),
            None => Err(Errno::ENOENT),
        }
    }

    fn vacant(&self, img: &FsImage, parent: u64, name: Option<&str>) -> (r: Result<String, Errno>)
        ensures
            path_is(r, vacant(self.state@, img@, parent, opt_name(name))),
    {
        match self.resolve(img, parent, name) {
            Ok(path) => if img.nodes.contains(path.as_key()) {
                Err(Errno::EEXIST)
            } else {
                Ok(path)
            },
            Err(e) => Err(e),
        }
    }

    /// The attributes of the node at `path`, under its inode.
    pub fn entry(&mut self, img: &FsImage, path: &str) -> (r: Option<FileAttr>)
        ensures
            ({
                let (st, ino) = old(self).state@.with_ino(utf8(path@));
                final(self).state@ == st && r == attr_view(img@, ino, utf8(path@))
            }),
            final(self).handles == old(self).handles,
            final(self).next_fh == old(self).next_fh,
            final(self).writable == old(self).writable,
    {
        let ino = self.state.ino(path);
        attr_of(img, ino, path)
    }

    pub fn lookup(&mut self, img: &FsImage, parent: u64, name: Option<&str>) -> (r: Result<
        FileAttr,
        Errno,
    >)
        ensures
            match resolve(old(self).state@, img@, parent, opt_name(name)) {
                Err(e) => r == Err::<FileAttr, Errno>(e) && final(self).state@ == old(self).state@,
                Ok(path) => if img@.contains_key(path) {
                    let (st, ino) = old(self).state@.with_ino(path);
                    final(self).state@ == st && r == Ok::<FileAttr, Errno>(
                        attr_view(img@, ino, path)->0,
                    )
                } else {
                    r == Err::<FileAttr, Errno>(Errno::ENOENT) && final(self).state@
                        == old(self).state@
                },
            },
            final(self).handles == old(self).handles,
            final(self).next_fh == old(self).next_fh,
            final(self).writable == old(self).writable,
    {
        let path = match self.resolve(img, parent, name) {
            Ok(p) => p,
            Err(e) => return Err(e),
        };
        if !img.nodes.contains(path.as_key()) {
            return Err(Errno::ENOENT);
        }
        match self.entry(img, path.as_str()) {
            Some(attr) => Ok(attr),
            None => Err(Errno::ENOENT),
        }
    }

    pub fn getattr(&self, img: &FsImage, ino: u64) -> (r: Result<FileAttr, Errno>)
        ensures
            r == attributes_of(self.state@, img@, ino),
    {
        match self.state.path_of(ino) {
            None => Err(Errno::ENOENT),
            Some(path) => match attr_of(img, ino, path.as_str()) {
                Some(a) => Ok(a),
                None => Err(Errno::ENOENT),
            },
        }
    }

    /// The path whose attributes are to change, or why they cannot: only a
    /// regular file can change its size.
    pub fn setattr_target(&self, img: &FsImage, ino: u64, size: Option<u64>) -> (r: Result<
        String,
        Errno,
    >)
        ensures
            path_is(r, changeable(self.state@, img@, ino, size is Some)),
    {
        let path = match self.state.path_of(ino) {
            Some(p) => p,
            None => return Err(Errno::ENOENT),
        };
        let node = img.nodes.get(path.as_key());
        let is_file = match node {
            Some(Node::File { .. }) => true,
            _ => false,
        };
        if !is_slash(path.as_str()) && node.is_none() {
            return Err(Errno::ENOENT);
        }
        if size.is_some() && !is_file {
            return Err(Errno::EINVAL);
        }
        Ok(path)
    }

    /// Keeps the staged handles of an inode coherent with a new size: extents
    /// at or beyond it are dropped, one that crosses it is cut.
    pub fn clip_handles(&mut self, ino: u64, size: u64)
        ensures
            final(self).handles@ == clipped(old(self).handles@, ino, size),
            final(self).state == old(self).state,
            final(self).next_fh == old(self).next_fh,
            final(self).writable == old(self).writable,
    {
        let ghost m = self.handles@;
        let none: Vec<u8> = Vec::new();
        let keys = self.handles.keys_under(none.as_slice());
        let ghost l = listing(m, crate::table::under(Seq::empty()));
        assert(none@ =~= Seq::<u8>::empty());
        let mut i: usize = 0;
        while i < keys.len()
            invariant
                i <= keys.len(),
                m == old(self).handles@,
                is_listing(m, crate::table::under(Seq::empty()), l),
                keys.len() == l.len(),
                forall|j: int| 0 <= j < keys.len() ==> (#[trigger] keys@[j]).key() == l[j].0,
                forall|k: Seq<u8>| #[trigger] self.handles@.contains_key(k) == m.contains_key(k),
                forall|j: int|
                    0 <= j < i ==> self.handles@[(#[trigger] l[j]).0] == clip_one(
                        l[j].1,
                        ino,
                        size,
                    ),
                forall|j: int|
                    i <= j < l.len() ==> self.handles@[(#[trigger] l[j]).0] == l[j].1,
                self.state == old(self).state,
                self.next_fh == old(self).next_fh,
                self.writable == old(self).writable,
            decreases keys.len() - i,
        {
            let ghost before = self.handles@;
            proof {
                assert(keys@[i as int].key() == l[i as int].0);
                assert(m.contains_key(l[i as int].0));
                assert(before.contains_key(l[i as int].0));
            }
            if let Some(h) = self.handles.remove(keys[i].as_key()) {
                let key = keys[i].copy_key();
                if h.ino == ino {
                    let extents = clip_extents(h.extents, size);
                    self.handles.insert(key, Handle { ino: h.ino, extents });
                } else {
                    self.handles.insert(key, h);
                }
            }
            proof {
                assert forall|j: int| 0 <= j < l.len() && j != i implies (#[trigger] l[j]).0
                    != l[i as int].0 by {
                    crate::order::lex_irreflexive(l[j].0);
                    if j < i {
                        assert(crate::order::lex_lt(l[j].0, l[i as int].0));
                    } else {
                        assert(crate::order::lex_lt(l[i as int].0, l[j].0));
                    }
                }
            }
            i += 1;
        }
        proof {
            let want = clipped(m, ino, size);
            assert forall|k: Seq<u8>| self.handles@.contains_key(k) implies self.handles@[k]
                == want[k] by {
                assert(m.contains_key(k));
                crate::table::lemma_under(Seq::empty(), k);
                assert(k.subrange(0, 0) =~= Seq::<u8>::empty());
                assert(crate::table::under(Seq::empty())(k));
                let j = choose|j: int| 0 <= j < l.len() && #[trigger] l[j].0 == k;
                assert(self.handles@[l[j].0] == clip_one(l[j].1, ino, size));
            }
            assert(self.handles@ =~= want);
        }
    }

    pub fn readlink(&self, img: &FsImage, ino: u64) -> (r: Result<String, Errno>)
        ensures
            match link_target(self.state@, img@, ino) {
                Ok(target) => r is Ok && r->Ok_0@ == target,
                Err(e) => r == Err::<String, Errno>(e),
            },
    {
        let path = match self.state.path_of(ino) {
            Some(p) => p,
            None => return Err(Errno::ENOENT),
        };
        match img.nodes.get(path.as_key()) {
            Some(Node::Symlink { target, .. }) => Ok(target.clone()),
            Some(_) => Err(Errno::EINVAL),
            None => Err(Errno::ENOENT),
        }
    }

    pub fn symlink(
        &self,
        img: &FsImage,
        parent: u64,
        name: Option<&str>,
        target: Option<&str>,
        uid: u32,
        gid: u32,
    ) -> (r: Result<(String, Vec<Delta>), Errno>)
        ensures
            deltas_are(
                r,
                if name is Some && target is None {
                    Err(Errno::EINVAL)
                } else {
                    vacant(self.state@, img@, parent, opt_name(name))
                },
                |path: Seq<u8>|
                    birth(
                        DeltaView::Symlink { path, target: opt_name(target)->0 },
                        path,
                        None,
                        uid,
                        gid,
                    ),
            ),
    {
        if name.is_none() {
            return Err(Errno::EINVAL);
        }
        let target = match target {
            Some(t) => t,
            None => return Err(Errno::EINVAL),
        };
        let path = match self.vacant(img, parent, name) {
            Ok(p) => p,
            Err(e) => return Err(e),
        };
        let ds = two(
            Delta::Symlink { path: path.clone(), target: target.to_owned() },
            Delta::SetAttr {
                path: path.clone(),
                mode: None,
                uid: Some(uid),
                gid: Some(gid),
                mtime_ms: None,
            },
        );
        Ok((path, ds))
    }

    /// Hardlinks: a path is the identity of a node, so there is no aliasing.
    pub fn link(&self) -> (r: Result<FileAttr, Errno>)
        ensures
            r == Err::<FileAttr, Errno>(Errno::ENOSYS),
    {
        Err(Errno::ENOSYS)
    }

    pub fn mkdir(
        &self,
        img: &FsImage,
        parent: u64,
        name: Option<&str>,
        mode: u32,
        umask: u32,
        uid: u32,
        gid: u32,
    ) -> (r: Result<(String, Vec<Delta>), Errno>)
        ensures
            deltas_are(
                r,
                vacant(self.state@, img@, parent, opt_name(name)),
                |path: Seq<u8>|
                    birth(
                        DeltaView::Mkdir { path },
                        path,
                        Some(masked(mode, umask)),
                        uid,
                        gid,
                    ),
            ),
    {
        let path = match self.vacant(img, parent, name) {
            Ok(p) => p,
            Err(e) => return Err(e),
        };
        let ds = two(
            Delta::Mkdir { path: path.clone() },
            Delta::SetAttr {
                path: path.clone(),
                mode: Some(mode & !umask & 0xfff),
                uid: Some(uid),
                gid: Some(gid),
                mtime_ms: None,
            },
        );
        Ok((path, ds))
    }

    /// An existing file is opened in place (a truncation arrives as an
    /// attribute change); a new one is committed empty with its real
    /// attributes from birth.
    pub fn create(
        &self,
        img: &FsImage,
        parent: u64,
        name: Option<&str>,
        mode: u32,
        umask: u32,
        uid: u32,
        gid: u32,
    ) -> (r: Result<CreateStep, Errno>)
        ensures
            match creatable(self.state@, img@, parent, opt_name(name)) {
                Err(e) => r == Err::<CreateStep, Errno>(e),
                Ok((path, there)) => if there {
                    r is Ok && r->Ok_0 is Existing && utf8(r->Ok_0->Existing_0@) == path
                } else {
                    r is Ok && r->Ok_0 is New && utf8(r->Ok_0->New_0@) == path && views(
                        r->Ok_0->New_1@,
                    ) == birth(
                        DeltaView::Write {
                            path,
                            offset: 0,
                            data: DataView::Inline(Seq::empty()),
                        },
                        path,
                        Some(masked(mode, umask)),
                        uid,
                        gid,
                    )
                },
            },
    {
        let path = match self.resolve(img, parent, name) {
            Ok(p) => p,
            Err(e) => return Err(e),
        };
        match img.nodes.get(path.as_key()) {
            Some(Node::File { .. }) => Ok(CreateStep::Existing(path)),
            Some(Node::Dir { .. }) => Err(Errno::EISDIR),
            Some(Node::Symlink { .. }) => Err(Errno::EEXIST),
            None => {
                let empty: Vec<u8> = Vec::new();
                assert(empty@ =~= Seq::<u8>::empty());
                let ds = two(
                    Delta::Write { path: path.clone(), offset: 0, data: Data::Inline(empty) },
                    Delta::SetAttr {
                        path: path.clone(),
                        mode: Some(mode & !umask & 0xfff),
                        uid: Some(uid),
                        gid: Some(gid),
                        mtime_ms: None,
                    },
                );
                Ok(CreateStep::New(path, ds))
            },
        }
    }

    /// Opens a handle on an inode.
    pub fn new_handle(&mut self, ino: u64) -> (fh: u64)
        ensures
            fh == old(self).next_fh,
            final(self).handles@ == old(self).handles@.insert(
                fh_key(fh),
                HandleView { ino, extents: Seq::empty() },
            ),
            final(self).next_fh == next_handle(fh),
            final(self).state == old(self).state,
            final(self).writable == old(self).writable,
    {
        let fh = self.next_fh;
        self.next_fh = if fh == u64::MAX {
            0
        } else {
            fh + 1
        };
        let h = Handle { ino, extents: Vec::new() };
        assert(h@.extents =~= Seq::empty());
        self.handles.insert(be_bytes(fh), h);
        fh
    }

    pub fn open(&mut self, img: &FsImage, ino: u64) -> (r: Result<u64, Errno>)
        ensures
            match openable(old(self).state@, img@, ino) {
                Ok(_) => r == Ok::<u64, Errno>(old(self).next_fh) && final(self).handles@
                    == old(self).handles@.insert(
                    fh_key(old(self).next_fh),
                    HandleView { ino, extents: Seq::empty() },
                ),
                Err(e) => r == Err::<u64, Errno>(e) && final(self).handles@ == old(self).handles@,
            },
            final(self).state == old(self).state,
            final(self).next_fh == (if r is Ok {
                next_handle(old(self).next_fh)
            } else {
                old(self).next_fh
            }),
            final(self).writable == old(self).writable,
    {
        let path = match self.state.path_of(ino) {
            Some(p) => p,
            None => return Err(Errno::ENOENT),
        };
        match img.nodes.get(path.as_key()) {
            Some(Node::File { .. }) => Ok(self.new_handle(ino)),
            Some(Node::Dir { .. }) => Err(Errno::EISDIR),
            Some(Node::Symlink { .. }) => Err(Errno::ELOOP),
            None => Err(Errno::ENOENT),
        }
    }

    /// Read-your-own-writes: the handle's uncommitted extents laid over the
    /// bytes fetched from `offset` on.
    pub fn read(&self, fh: u64, offset: u64, fetched: Vec<u8>) -> (r: Vec<u8>)
        ensures
            r@ == laid_over(
                fetched@,
                offset,
                if self.handles@.contains_key(fh_key(fh)) {
                    self.handles@[fh_key(fh)].extents
                } else {
                    Seq::empty()
                },
            ),
    {
        match self.handles.get(be_bytes(fh).as_slice()) {
            Some(h) => lay_over(fetched, offset, &h.extents),
            None => fetched,
        }
    }

    /// Stages an extent on a handle.
    pub fn write(&mut self, fh: u64, offset: u64, data: Vec<u8>) -> (r: Result<usize, Errno>)
        ensures
            if old(self).handles@.contains_key(fh_key(fh)) {
                let h = old(self).handles@[fh_key(fh)];
                &&& r == Ok::<usize, Errno>(data.len())
                &&& final(self).handles@ == old(self).handles@.insert(
                    fh_key(fh),
                    HandleView { ino: h.ino, extents: h.extents.push((offset, data@)) },
                )
            } else {
                r == Err::<usize, Errno>(Errno::EBADF) && final(self).handles@
                    == old(self).handles@
            },
            final(self).state == old(self).state,
            final(self).next_fh == old(self).next_fh,
            final(self).writable == old(self).writable,
    {
        let key = be_bytes(fh);
        let ghost m = self.handles@;
        match self.handles.remove(key.as_slice()) {
            Some(h) => {
                let n: usize = data.len();
                let Handle { ino, mut extents } = h;
                let ghost before = views(extents@);
                let ghost dv = data@;
                extents.push((offset, data));
                assert(views(extents@) =~= before.push((offset, dv)));
                self.handles.insert(key, Handle { ino, extents });
                assert(self.handles@ =~= m.insert(
                    fh_key(fh),
                    HandleView { ino, extents: before.push((offset, dv)) },
                ));
                Ok(n)
            },
            None => {
                assert(self.handles@ =~= m);
                Err(Errno::EBADF)
            },
        }
    }

    /// Takes the staged extents of a handle for committing, with the current
    /// path of its inode: a rename since it was opened re-points the write.
    /// `None` when there is nothing to commit.
    pub fn take_extents(&mut self, fh: u64) -> (r: Option<(String, Vec<(u64, Vec<u8>)>)>)
        ensures
            ({
                let m = old(self).handles@;
                let k = fh_key(fh);
                if !m.contains_key(k) || m[k].extents.len() == 0 {
                    r is None && final(self).handles@ == m
                } else {
                    &&& final(self).handles@ == m.insert(
                        k,
                        HandleView { ino: m[k].ino, extents: Seq::empty() },
                    )
                    &&& match old(self).state@.path_of(m[k].ino) {
                        Some(path) => r is Some && taken_path(r) == path && taken_extents(r)
                            == m[k].extents,
                        None => r is None,
                    }
                }
            }),
            final(self).state == old(self).state,
            final(self).next_fh == old(self).next_fh,
            final(self).writable == old(self).writable,
    {
        let key = be_bytes(fh);
        let ghost m = self.handles@;
        let h = match self.handles.remove(key.as_slice()) {
            Some(h) => h,
            None => {
                assert(self.handles@ =~= m);
                return None;
            },
        };
        let Handle { ino, extents } = h;
        if extents.len() == 0 {
            self.handles.insert(key, Handle { ino, extents });
            assert(self.handles@ =~= m);
            return None;
        }
        let rest = Handle { ino, extents: Vec::new() };
        assert(rest@.extents =~= Seq::empty());
        self.handles.insert(key, rest);
        assert(self.handles@ =~= m.insert(
            fh_key(fh),
            HandleView { ino, extents: Seq::empty() },
        ));
        match self.state.path_of(ino) {
            Some(path) => Some((path, extents)),
            None => None,
        }
    }

    /// Closes a handle.
    pub fn release(&mut self, fh: u64)
        ensures
            final(self).handles@ == old(self).handles@.remove(fh_key(fh)),
            final(self).state == old(self).state,
            final(self).next_fh == old(self).next_fh,
            final(self).writable == old(self).writable,
    {
        let _ = self.handles.remove(be_bytes(fh).as_slice());
    }

    pub fn unlink(&self, img: &FsImage, parent: u64, name: Option<&str>) -> (r: Result<
        (String, Vec<Delta>),
        Errno,
    >)
        ensures
            deltas_are(
                r,
                unlinkable(self.state@, img@, parent, opt_name(name)),
                |path: Seq<u8>| seq![DeltaView::Remove { path }],
            ),
    {
        let path = match self.locate(parent, name) {
            Ok(p) => p,
            Err(e) => return Err(e),
        };
        match img.nodes.get(path.as_key()) {
            Some(Node::Dir { .. }) => return Err(Errno::EISDIR),
            Some(_) => {},
            None => return Err(Errno::ENOENT),
        }
        let ds = one(Delta::Remove { path: path.clone() });
        Ok((path, ds))
    }

    pub fn rmdir(&self, img: &FsImage, parent: u64, name: Option<&str>) -> (r: Result<
        (String, Vec<Delta>),
        Errno,
    >)
        ensures
            deltas_are(
                r,
                removable(self.state@, img@, parent, opt_name(name)),
                |path: Seq<u8>| seq![DeltaView::Remove { path }],
            ),
    {
        let path = match self.locate(parent, name) {
            Ok(p) => p,
            Err(e) => return Err(e),
        };
        match img.nodes.get(path.as_key()) {
            Some(Node::Dir { .. }) => {},
            _ => return Err(Errno::ENOTDIR),
        }
        let kids = children(img, path.as_str());
        assert(entry_views(kids@).len() == kids.len());
        if kids.len() > 0 {
            return Err(Errno::ENOTEMPTY);
        }
        let ds = one(Delta::Remove { path: path.clone() });
        Ok((path, ds))
    }

    /// Where a rename goes from and to, or why it cannot: a file cannot
    /// replace a directory nor the reverse, and a directory only an empty one.
    pub fn rename(
        &self,
        img: &FsImage,
        parent: u64,
        name: Option<&str>,
        newparent: u64,
        newname: Option<&str>,
        flags: bool,
    ) -> (r: Result<(String, String), Errno>)
        ensures
            match (
                r,
                rename_check(
                    self.state@,
                    img@,
                    parent,
                    opt_name(name),
                    newparent,
                    opt_name(newname),
                    flags,
                ),
            ) {
                (Ok((from, to)), Ok((f, t))) => utf8(from@) == f && utf8(to@) == t,
                (Err(a), Err(b)) => a == b,
                _ => false,
            },
    {
        if flags {
            // Exchange and no-replace are not offered.
            return Err(Errno::EINVAL);
        }
        let (name, newname) = match (name, newname) {
            (Some(a), Some(b)) => (a, b),
            _ => return Err(Errno::EINVAL),
        };
        let (from_dir, to_dir) = match (self.state.path_of(parent), self.state.path_of(newparent)) {
            (Some(a), Some(b)) => (a, b),
            _ => return Err(Errno::ENOENT),
        };
        let from = join(from_dir.as_str(), name);
        let to = join(to_dir.as_str(), newname);
        let from_is_dir = match img.nodes.get(from.as_key()) {
            Some(Node::Dir { .. }) => true,
            Some(_) => false,
            None => return Err(Errno::ENOENT),
        };
        match img.nodes.get(to.as_key()) {
            Some(Node::Dir { .. }) => {
                if !from_is_dir {
                    return Err(Errno::EISDIR);
                }
                let kids = children(img, to.as_str());
                assert(entry_views(kids@).len() == kids.len());
                if kids.len() > 0 {
                    return Err(Errno::ENOTEMPTY);
                }
            },
            Some(_) => {
                if from_is_dir {
                    return Err(Errno::ENOTDIR);
                }
            },
            None => {},
        }
        Ok((from, to))
    }

    /// Re-points inodes, and with them open handles, once the rename landed.
    pub fn renamed(&mut self, from: &str, to: &str)
        ensures
            final(self).state@ == old(self).state@.renamed(utf8(from@), utf8(to@)),
            final(self).handles == old(self).handles,
            final(self).next_fh == old(self).next_fh,
            final(self).writable == old(self).writable,
    {
        self.state.rename_subtree(from, to);
    }

    pub fn setxattr(&self, img: &FsImage, ino: u64, name: Option<&str>, value: Vec<u8>) -> (r:
        Result<(String, Vec<Delta>), Errno>)
        ensures
            deltas_are(
                r,
                taggable(self.state@, img@, ino, opt_name(name)),
                |path: Seq<u8>|
                    seq![
                        DeltaView::SetXattr {
                            path,
                            name: utf8(opt_name(name)->0),
                            value: Some(value@),
                        },
                    ],
            ),
    {
        let path = match self.state.path_of(ino) {
            Some(p) => p,
            None => return Err(Errno::ENOENT),
        };
        if !is_slash(path.as_str()) && !img.nodes.contains(path.as_key()) {
            return Err(Errno::ENOENT);
        }
        let name = match name {
            Some(n) => n,
            None => return Err(Errno::EINVAL),
        };
        let ds = one(
            Delta::SetXattr { path: path.clone(), name: name.to_owned(), value: Some(value) },
        );
        Ok((path, ds))
    }

    pub fn removexattr(&self, img: &FsImage, ino: u64, name: Option<&str>) -> (r: Result<
        (String, Vec<Delta>),
        Errno,
    >)
        ensures
            deltas_are(
                r,
                tagged(self.state@, img@, ino, opt_name(name)),
                |path: Seq<u8>|
                    seq![
                        DeltaView::SetXattr {
                            path,
                            name: utf8(opt_name(name)->0),
                            value: None,
                        },
                    ],
            ),
    {
        let path = match self.state.path_of(ino) {
            Some(p) => p,
            None => return Err(Errno::ENOENT),
        };
        let name = match name {
            Some(n) => n,
            None => return Err(Errno::EINVAL),
        };
        match img.nodes.get(path.as_key()) {
            None => return Err(Errno::ENOENT),
            Some(node) => {
                if !node.meta().xattrs.contains(name.as_bytes()) {
                    return Err(Errno::NoXattr);
                }
            },
        }
        let ds = one(Delta::SetXattr { path: path.clone(), name: name.to_owned(), value: None });
        Ok((path, ds))
    }

    pub fn getxattr(&self, img: &FsImage, ino: u64, name: Option<&str>, size: u32) -> (r: Result<
        XattrReply,
        Errno,
    >)
        ensures
            match tag_value(self.state@, img@, ino, opt_name(name)) {
                Ok(v) => sized_reply(v, size, r),
                Err(e) => r == Err::<XattrReply, Errno>(e),
            },
    {
        let path = match self.state.path_of(ino) {
            Some(p) => p,
            None => return Err(Errno::ENOENT),
        };
        let name = match name {
            Some(n) => n,
            None => return Err(Errno::EINVAL),
        };
        match img.nodes.get(path.as_key()) {
            Some(node) => match node.meta().xattrs.get(name.as_bytes()) {
                Some(v) => reply_of(v.dup(), size),
                None => Err(Errno::NoXattr),
            },
            None => if is_slash(path.as_str()) {
                Err(Errno::NoXattr)
            } else {
                Err(Errno::ENOENT)
            },
        }
    }

    pub fn listxattr(&self, img: &FsImage, ino: u64, size: u32) -> (r: Result<XattrReply, Errno>)
        ensures
            match tag_names(self.state@, img@, ino) {
                Ok(names) => sized_reply(names, size, r),
                Err(e) => r == Err::<XattrReply, Errno>(e),
            },
    {
        let path = match self.state.path_of(ino) {
            Some(p) => p,
            None => return Err(Errno::ENOENT),
        };
        match img.nodes.get(path.as_key()) {
            Some(node) => {
                let xattrs = &node.meta().xattrs;
                let n = xattrs.len();
                let ghost l = xattrs.entries();
                let mut out: Vec<u8> = Vec::new();
                let mut i: usize = 0;
                assert(l.take(0) =~= Seq::empty());
                assert(out@ =~= Seq::<u8>::empty());
                while i < n
                    invariant
                        i <= n,
                        n == l.len(),
                        l == xattrs.entries(),
                        out@ == name_list(l.take(i as int)),
                    decreases n - i,
                {
                    proof {
                        assert(l.take(i + 1).drop_last() =~= l.take(i as int));
                        assert(l.take(i + 1).last() == l[i as int]);
                    }
                    out.extend_from_slice(xattrs.key_at(i).as_key());
                    out.push(0);
                    assert(out@ =~= name_list(l.take(i + 1)));
                    i += 1;
                }
                assert(l.take(i as int) =~= l);
                reply_of(out, size)
            },
            None => if is_slash(path.as_str()) {
                let none: Vec<u8> = Vec::new();
                assert(none@ =~= Seq::<u8>::empty());
                reply_of(none, size)
            } else {
                Err(Errno::ENOENT)
            },
        }
    }

    /// The entries of a directory from `offset` on: itself, its parent, then
    /// its children by name. Every entry gets a number on first sight.
    pub fn readdir(&mut self, img: &FsImage, ino: u64, offset: u64) -> (r: Result<
        Vec<DirEntry>,
        Errno,
    >)
        ensures
            match old(self).state@.path_of(ino) {
                None => r == Err::<Vec<DirEntry>, Errno>(Errno::ENOENT) && final(self).state@
                    == old(self).state@,
                Some(dir) => if !is_dir(img@, dir) {
                    r == Err::<Vec<DirEntry>, Errno>(Errno::ENOTDIR) && final(self).state@
                        == old(self).state@
                } else {
                    exists|parent: Seq<u8>| #[trigger]
                        is_parent(dir, parent) && r is Ok && lists(
                            old(self).state@,
                            final(self).state@,
                            ino,
                            dir,
                            parent,
                            children_of(img@, dir),
                            offset as int,
                            r->Ok_0@,
                        )
                },
            },
            final(self).handles == old(self).handles,
            final(self).next_fh == old(self).next_fh,
            final(self).writable == old(self).writable,
    {
        let dir = match self.state.path_of(ino) {
            Some(d) => d,
            None => return Err(Errno::ENOENT),
        };
        if !is_directory(img, dir.as_str()) {
            return Err(Errno::ENOTDIR);
        }
        let kids = children(img, dir.as_str());
        let ghost es = entry_views(kids@);
        let ghost d = utf8(dir@);
        let up = parent_path(dir.as_str());
        let ghost parent = utf8(up@);
        let ghost st0 = self.state@;
        let parent_ino = self.state.ino(up.as_str());
        let ghost st1 = self.state@;
        let mut all: Vec<DirEntry> = Vec::new();
        all.push(
            DirEntry { ino, cookie: 1, kind: FileType::Directory, name: ".".to_owned() },
        );
        all.push(
            DirEntry {
                ino: parent_ino,
                cookie: 2,
                kind: FileType::Directory,
                name: "..".to_owned(),
            },
        );
        let mut i: usize = 0;
        assert(es.take(0) =~= Seq::<(Seq<u8>, FileType)>::empty());
        while i < kids.len()
            invariant
                i <= kids.len(),
                es == entry_views(kids@),
                d == utf8(dir@),
                st1 == st0.with_ino(parent).0,
                self.state@ == numbered(st1, d, es.take(i as int)),
                all.len() == i + 2,
                is_entry(all@[0], ino, 1, FileType::Directory, utf8("."@)),
                is_entry(
                    all@[1],
                    st0.with_ino(parent).1,
                    2,
                    FileType::Directory,
                    utf8(".."@),
                ),
                forall|j: int|
                    0 <= j < i ==> is_entry(
                        #[trigger] all@[j + 2],
                        numbered(st1, d, es.take(j)).with_ino(join_of(d, es[j].0)).1,
                        (j + 3) as u64,
                        es[j].1,
                        es[j].0,
                    ),
                self.handles == old(self).handles,
                self.next_fh == old(self).next_fh,
                self.writable == old(self).writable,
            decreases kids.len() - i,
        {
            let path = join(dir.as_str(), kids[i].0.as_str());
            proof {
                assert(es.take(i + 1).drop_last() =~= es.take(i as int));
                assert(es.take(i + 1).last() == es[i as int]);
                assert(es[i as int] == (utf8(kids@[i as int].0@), kids@[i as int].1));
            }
            let cino = self.state.ino(path.as_str());
            let ghost before = all@;
            all.push(
                DirEntry { ino: cino, cookie: 0, kind: kids[i].1, name: kids[i].0.clone() },
            );
            let n: usize = all.len();
            all[n - 1].cookie = n as u64;
            proof {
                assert forall|j: int| 0 <= j < i + 1 implies is_entry(
                    #[trigger] all@[j + 2],
                    numbered(st1, d, es.take(j)).with_ino(join_of(d, es[j].0)).1,
                    (j + 3) as u64,
                    es[j].1,
                    es[j].0,
                ) by {
                    if j < i {
                        assert(all@[j + 2] == before[j + 2]);
                    }
                }
                assert(all@[0] == before[0] && all@[1] == before[1]);
            }
            i += 1;
        }
        assert(es.take(i as int) =~= es);
        let ghost full = all@;
        let skip: usize = if offset < all.len() as u64 {
            offset as usize
        } else {
            all.len()
        };
        let out = all.split_off(skip);
        proof {
            assert(out@ =~= full.skip(skip as int));
            assert(lists(st0, self.state@, ino, d, parent, es, offset as int, out@)) by {
                assert(is_listed(full, ino, st0, d, parent, es));
            }
        }
        Ok(out)
    }
}

/// The tables once every listed entry of `dir` has a number.
pub open spec fn numbered(st: StateView, dir: Seq<u8>, es: Seq<(Seq<u8>, FileType)>) -> StateView
    decreases es.len(),
{
    if es.len() == 0 {
        st
    } else {
        numbered(st, dir, es.drop_last()).with_ino(join_of(dir, es.last().0)).0
    }
}

pub open spec fn is_entry(e: DirEntry, ino: u64, cookie: u64, kind: FileType, name: Seq<u8>) -> bool {
    &&& e.ino == ino
    &&& e.cookie == cookie
    &&& e.kind == kind
    &&& utf8(e.name@) == name
}

/// `full` is the whole listing of `dir`.
pub open spec fn is_listed(
    full: Seq<DirEntry>,
    ino: u64,
    st: StateView,
    dir: Seq<u8>,
    parent: Seq<u8>,
    es: Seq<(Seq<u8>, FileType)>,
) -> bool {
    let st1 = st.with_ino(parent).0;
    &&& full.len() == es.len() + 2
    &&& is_entry(full[0], ino, 1, FileType::Directory, utf8("."@))
    &&& is_entry(full[1], st.with_ino(parent).1, 2, FileType::Directory, utf8(".."@))
    &&& forall|j: int|
        0 <= j < es.len() ==> is_entry(
            #[trigger] full[j + 2],
            numbered(st1, dir, es.take(j)).with_ino(join_of(dir, es[j].0)).1,
            (j + 3) as u64,
            es[j].1,
            es[j].0,
        )
}

/// `out` is the listing of `dir` from `offset` on.
pub open spec fn lists(
    before: StateView,
    after: StateView,
    ino: u64,
    dir: Seq<u8>,
    parent: Seq<u8>,
    es: Seq<(Seq<u8>, FileType)>,
    offset: int,
    out: Seq<DirEntry>,
) -> bool {
    &&& after == numbered(before.with_ino(parent).0, dir, es)
    &&& exists|full: Seq<DirEntry>| #[trigger]
        is_listed(full, ino, before, dir, parent, es) && out == full.skip(
            if offset < full.len() {
                offset
            } else {
                full.len() as int
            },
        )
}

/// The names, each followed by a zero byte.
pub open spec fn name_list(l: Seq<(Seq<u8>, Seq<u8>)>) -> Seq<u8>
    decreases l.len(),
{
    if l.len() == 0 {
        Seq::empty()
    } else {
        name_list(l.drop_last()) + l.last().0 + seq![0u8]
    }
}

/// The reply to a read with a buffer of `size` bytes: the length when the
/// buffer is empty, an error when it is too small, else the data.
pub open spec fn sized_reply(data: Seq<u8>, size: u32, r: Result<XattrReply, Errno>) -> bool {
    if size == 0 {
        r == Ok::<XattrReply, Errno>(XattrReply::Size(data.len() as u32))
    } else if size < data.len() {
        r == Err::<XattrReply, Errno>(Errno::ERANGE)
    } else {
        r is Ok && r->Ok_0 is Data && r->Ok_0->Data_0@ == data
    }
}

fn reply_of(data: Vec<u8>, size: u32) -> (r: Result<XattrReply, Errno>)
    ensures
        sized_reply(data@, size, r),
{
    if size == 0 {
        Ok(XattrReply::Size(low32(data.len())))
    } else if (size as u64) < data.len() as u64 {
        Err(Errno::ERANGE)
    } else {
        Ok(XattrReply::Data(data))
    }
}

#[verifier::truncate]
fn low32(n: usize) -> (r: u32)
    ensures
        r == n as u32,
{
    #[verifier::truncate]
    let r: u32 = n as u32;
    r
}

/// The checks of a rename.
pub open spec fn rename_check(
    st: StateView,
    nodes: Nodes,
    parent: u64,
    name: Option<Seq<char>>,
    newparent: u64,
    newname: Option<Seq<char>>,
    flags: bool,
) -> Result<(Seq<u8>, Seq<u8>), Errno> {
    if flags || name is None || newname is None {
        Err(Errno::EINVAL)
    } else if st.path_of(parent) is None || st.path_of(newparent) is None {
        Err(Errno::ENOENT)
    } else {
        let from = join_of(st.path_of(parent)->0, utf8(name->0));
        let to = join_of(st.path_of(newparent)->0, utf8(newname->0));
        if !nodes.contains_key(from) {
            Err(Errno::ENOENT)
        } else if !nodes.contains_key(to) {
            Ok((from, to))
        } else if !(nodes[from] is Dir) && nodes[to] is Dir {
            Err(Errno::EISDIR)
        } else if nodes[from] is Dir && !(nodes[to] is Dir) {
            Err(Errno::ENOTDIR)
        } else if nodes[from] is Dir && children_of(nodes, to).len() > 0 {
            Err(Errno::ENOTEMPTY)
        } else {
            Ok((from, to))
        }
    }
}

/// One handle after its file was cut to `size`.
pub open spec fn clip_one(h: HandleView, ino: u64, size: u64) -> HandleView {
    if h.ino == ino {
        HandleView { ino: h.ino, extents: clip_all(h.extents, size) }
    } else {
        h
    }
}

/// The parts of extents below `size`.
pub open spec fn clip_all(s: Extents, size: u64) -> Extents
    decreases s.len(),
{
    if s.len() == 0 {
        Seq::empty()
    } else {
        let rest = clip_all(s.drop_last(), size);
        let (off, d) = s.last();
        if off >= size {
            rest
        } else if d.len() <= size - off {
            rest.push((off, d))
        } else {
            rest.push((off, d.take(size - off)))
        }
    }
}

pub open spec fn clipped(m: Map<Seq<u8>, HandleView>, ino: u64, size: u64) -> Map<
    Seq<u8>,
    HandleView,
> {
    Map::new(|k: Seq<u8>| m.contains_key(k), |k: Seq<u8>| clip_one(m[k], ino, size))
}

fn clip_extents(extents: Vec<(u64, Vec<u8>)>, size: u64) -> (r: Vec<(u64, Vec<u8>)>)
    ensures
        views(r@) == clip_all(views(extents@), size),
{
    let ghost all = extents@;
    let ghost s = views(extents@);
    let n: usize = extents.len();
    let mut rest: Vec<(u64, Vec<u8>)> = extents;
    let mut out: Vec<(u64, Vec<u8>)> = Vec::new();
    let mut i: usize = 0;
    assert(s.take(0) =~= Seq::<(u64, Seq<u8>)>::empty());
    assert(views(out@) =~= Seq::<(u64, Seq<u8>)>::empty());
    while i < n
        invariant
            i <= n,
            n == all.len(),
            rest@ == all.skip(i as int),
            s == views(all),
            views(out@) == clip_all(s.take(i as int), size),
        decreases n - i,
    {
        let (off, mut d) = rest.remove(0);
        let ghost before = views(out@);
        let ghost dv = d@;
        proof {
            assert(rest@ =~= all.skip(i + 1));
            assert(s.take(i + 1).drop_last() =~= s.take(i as int));
            assert(s.take(i + 1).last() == (off, dv));
        }
        if off < size {
            let room: u64 = size - off;
            if d.len() as u64 > room {
                d.truncate(room as usize);
                assert(d@ =~= dv.take(size - off));
            }
            let ghost cv = d@;
            out.push((off, d));
            assert(views(out@) =~= before.push((off, cv)));
        }
        i += 1;
    }
    assert(s.take(i as int) =~= s);
    out
}

pub open spec fn taken_path(r: Option<(String, Vec<(u64, Vec<u8>)>)>) -> Seq<u8> {
    let t = r->0;
    utf8(t.0@)
}

pub open spec fn taken_extents(r: Option<(String, Vec<(u64, Vec<u8>)>)>) -> Extents {
    let t = r->0;
    views(t.1@)
}

/// The byte at file position `k`, seen through the extents: the last one that
/// covers it wins.
pub open spec fn seen_byte(base: u8, k: int, extents: Extents) -> u8
    decreases extents.len(),
{
    if extents.len() == 0 {
        base
    } else {
        let (off, d) = extents.last();
        if off <= k < off + d.len() {
            d[k - off]
        } else {
            seen_byte(base, k, extents.drop_last())
        }
    }
}

/// Bytes fetched from `offset` on, seen through uncommitted extents.
pub open spec fn laid_over(buf: Seq<u8>, offset: u64, extents: Extents) -> Seq<u8> {
    Seq::new(buf.len(), |i: int| seen_byte(buf[i], offset + i, extents))
}

fn lay_over(buf: Vec<u8>, offset: u64, extents: &Vec<(u64, Vec<u8>)>) -> (r: Vec<u8>)
    ensures
        r@ == laid_over(buf@, offset, views(extents@)),
{
    let ghost b = buf@;
    let ghost s = views(extents@);
    let mut out: Vec<u8> = buf;
    let mut i: usize = 0;
    assert(s.take(0) =~= Seq::<(u64, Seq<u8>)>::empty());
    assert(out@ =~= laid_over(b, offset, s.take(0)));
    while i < extents.len()
        invariant
            i <= extents.len(),
            s == views(extents@),
            out.len() == b.len(),
            out@ == laid_over(b, offset, s.take(i as int)),
        decreases extents.len() - i,
    {
        let off: u64 = extents[i].0;
        let d = &extents[i].1;
        let ghost before = out@;
        proof {
            assert(s.take(i + 1).drop_last() =~= s.take(i as int));
            assert(s.take(i + 1).last() == (off, d@));
        }
        // The overlap of the extent with the fetched range: from `start` in
        // the buffer and `skip` in the extent on.
        let (start, skip): (u64, u64) = if off >= offset {
            (off - offset, 0)
        } else {
            (0, offset - off)
        };
        let mut n: u64 = 0;
        if start < out.len() as u64 && skip < d.len() as u64 {
            let room: u64 = out.len() as u64 - start;
            let have: u64 = d.len() as u64 - skip;
            n = if room < have {
                room
            } else {
                have
            };
        }
        let mut j: u64 = 0;
        while j < n
            invariant
                j <= n,
                out.len() == b.len(),
                out.len() == before.len(),
                n > 0 ==> start + n <= out.len() && skip + n <= d.len(),
                forall|k: int|
                    0 <= k < out.len() ==> #[trigger] out@[k] == (if start <= k < start + j {
                        d@[k - start + skip]
                    } else {
                        before[k]
                    }),
            decreases n - j,
        {
            out[(start + j) as usize] = d[(skip + j) as usize];
            j += 1;
        }
        proof {
            assert forall|k: int| 0 <= k < out.len() implies out@[k] == laid_over(
                b,
                offset,
                s.take(i + 1),
            )[k] by {
                assert(before[k] == seen_byte(b[k], offset + k, s.take(i as int)));
            }
            assert(out@ =~= laid_over(b, offset, s.take(i + 1)));
        }
        i += 1;
    }
    assert(s.take(i as int) =~= s);
    out
}

// ---- attribute changes ----------------------------------------------------

/// The modification time that a request sets.
pub open spec fn time_set(mtime: Option<SetTime>, resized: bool, now: i64) -> Option<i64> {
    match mtime {
        Some(SetTime::At(m)) => Some(crate::stamp::clock_ms(m) as i64),
        Some(SetTime::Now) => Some(now),
        None => if resized {
            Some(now)
        } else {
            None
        },
    }
}

/// The delta of an attribute change, if it changes anything. A size change
/// touches the modification time too.
pub open spec fn attr_change(
    path: Seq<u8>,
    mode: Option<u32>,
    uid: Option<u32>,
    gid: Option<u32>,
    mtime_ms: Option<i64>,
) -> Option<DeltaView> {
    if mode is None && uid is None && gid is None && mtime_ms is None {
        None
    } else {
        Some(
            DeltaView::SetAttr {
                path,
                mode: match mode {
                    Some(m) => Some(m & 0xfff),
                    None => None,
                },
                uid,
                gid,
                mtime_ms,
            },
        )
    }
}

pub fn setattr_delta(
    path: &str,
    mode: Option<u32>,
    uid: Option<u32>,
    gid: Option<u32>,
    mtime: Option<SetTime>,
    resized: bool,
    now: i64,
) -> (r: Option<Delta>)
    ensures
        match r {
            Some(d) => attr_change(
                utf8(path@),
                mode,
                uid,
                gid,
                time_set(mtime, resized, now),
            ) == Some(d@),
            None => attr_change(
                utf8(path@),
                mode,
                uid,
                gid,
                time_set(mtime, resized, now),
            ) is None,
        },
{
    let mtime_ms: Option<i64> = match mtime {
        Some(SetTime::At(m)) => Some(crate::stamp::ms_of(m)),
        Some(SetTime::Now) => Some(now),
        None => if resized {
            Some(now)
        } else {
            None
        },
    };
    if mode.is_none() && uid.is_none() && gid.is_none() && mtime_ms.is_none() {
        return None;
    }
    let mode: Option<u32> = match mode {
        Some(m) => Some(m & 0xfff),
        None => None,
    };
    Some(Delta::SetAttr { path: path.to_owned(), mode, uid, gid, mtime_ms })
}

// ---- flushing -------------------------------------------------------------

/// Whether the file at `path` is kept as blocks, so that writing to it takes
/// its whole content.
pub open spec fn is_block_backed(nodes: Nodes, path: Seq<u8>) -> bool {
    nodes.contains_key(path) && nodes[path] is File && nodes[path]->File_content is Blocks
}

pub fn needs_content(img: &FsImage, path: &str) -> (r: bool)
    ensures
        r == is_block_backed(img@, utf8(path@)),
{
    match img.nodes.get(path.as_bytes()) {
        Some(Node::File { content: Content::Blocks { .. }, .. }) => true,
        _ => false,
    }
}

/// Content with extents written over it in order.
pub open spec fn spliced(b: Seq<u8>, extents: Extents) -> Seq<u8>
    decreases extents.len(),
{
    if extents.len() == 0 {
        b
    } else {
        splice(spliced(b, extents.drop_last()), extents.last().0 as int, extents.last().1)
    }
}

/// Whether every extent ends within the address space.
pub open spec fn extents_fit(extents: Extents) -> bool {
    forall|i: int|
        0 <= i < extents.len() ==> (#[trigger] extents[i]).0 + extents[i].1.len() <= usize::MAX
}

/// One write per extent.
pub open spec fn extent_writes(path: Seq<u8>, extents: Extents) -> Seq<DeltaView> {
    Seq::new(
        extents.len(),
        |i: int|
            DeltaView::Write {
                path,
                offset: extents[i].0,
                data: DataView::Inline(extents[i].1),
            },
    )
}

/// The touch that ends a flush.
pub open spec fn touched(path: Seq<u8>, now: i64) -> DeltaView {
    DeltaView::SetAttr { path, mode: None, uid: None, gid: None, mtime_ms: Some(now) }
}

/// The deltas that commit staged extents to `path`, dated `now`. A
/// block-backed file is replaced by its `content` with the extents written
/// over it.
pub open spec fn flush_batch(
    nodes: Nodes,
    path: Seq<u8>,
    extents: Extents,
    content: Seq<u8>,
    now: i64,
) -> Seq<DeltaView> {
    if is_block_backed(nodes, path) {
        extent_writes(path, seq![(0u64, spliced(content, extents))]).push(touched(path, now))
    } else {
        extent_writes(path, extents).push(touched(path, now))
    }
}

/// The deltas that commit staged extents to `path`; `content` is the whole
/// content where [`needs_content`] asks for it.
pub fn flush_deltas(
    img: &FsImage,
    path: &str,
    extents: Vec<(u64, Vec<u8>)>,
    content: Vec<u8>,
    now: i64,
) -> (r: Vec<Delta>)
    requires
        extents_fit(views(extents@)),
    ensures
        views(r@) == flush_batch(img@, utf8(path@), views(extents@), content@, now),
{
    let ghost p = utf8(path@);
    let ghost given = views(extents@);
    let ghost whole = content@;
    let extents = if needs_content(img, path) {
        let all = splice_all(content, &extents);
        let ghost av = all@;
        let mut one: Vec<(u64, Vec<u8>)> = Vec::new();
        one.push((0, all));
        assert(views(one@) =~= seq![(0u64, av)]);
        one
    } else {
        extents
    };
    let ghost ev = views(extents@);
    let ghost all = extents@;
    let n: usize = extents.len();
    let mut out: Vec<Delta> = Vec::new();
    let mut rest: Vec<(u64, Vec<u8>)> = extents;
    let mut i: usize = 0;
    assert(views(out@) =~= extent_writes(p, ev.take(0)));
    while i < n
        invariant
            i <= n,
            n == all.len(),
            rest@ == all.skip(i as int),
            ev == views(all),
            p == utf8(path@),
            views(out@) == extent_writes(p, ev.take(i as int)),
        decreases n - i,
    {
        let (offset, data) = rest.remove(0);
        let ghost before = views(out@);
        assert(rest@ =~= all.skip(i + 1));
        let d = Delta::Write { path: path.to_owned(), offset, data: Data::Inline(data) };
        let ghost dv = d@;
        out.push(d);
        proof {
            assert(views(out@) =~= before.push(dv));
            assert(ev[i as int] == (offset, data@));
            assert(views(out@) =~= extent_writes(p, ev.take(i + 1)));
        }
        i += 1;
    }
    let ghost before = views(out@);
    let d = Delta::SetAttr {
        path: path.to_owned(),
        mode: None,
        uid: None,
        gid: None,
        mtime_ms: Some(now),
    };
    let ghost dv = d@;
    out.push(d);
    proof {
        assert(ev.take(i as int) =~= ev);
        assert(views(out@) =~= before.push(dv));
    }
    out
}

fn splice_all(content: Vec<u8>, extents: &Vec<(u64, Vec<u8>)>) -> (r: Vec<u8>)
    requires
        extents_fit(views(extents@)),
    ensures
        r@ == spliced(content@, views(extents@)),
{
    let ghost b = content@;
    let ghost s = views(extents@);
    let mut out: Vec<u8> = content;
    let mut i: usize = 0;
    assert(s.take(0) =~= Seq::<(u64, Seq<u8>)>::empty());
    while i < extents.len()
        invariant
            i <= extents.len(),
            s == views(extents@),
            extents_fit(s),
            out@ == spliced(b, s.take(i as int)),
        decreases extents.len() - i,
    {
        proof {
            assert(s.take(i + 1).drop_last() =~= s.take(i as int));
            assert(s.take(i + 1).last() == s[i as int]);
            assert(s[i as int] == (extents@[i as int].0, extents@[i as int].1@));
        }
        out = crate::fuse::splice_into(out, extents[i].0 as usize, &extents[i].1);
        i += 1;
    }
    assert(s.take(i as int) =~= s);
    out
}

impl LandslideFs {
    /// Opens a created or existing file: its attributes and a handle. Where
    /// the image does not show it, the attributes are those it was made with.
    pub fn created(
        &mut self,
        img: &FsImage,
        path: &str,
        size: u64,
        mode: u32,
        umask: u32,
        uid: u32,
        gid: u32,
        now: i64,
    ) -> (r: (FileAttr, u64))
        ensures
            ({
                let (st, ino) = old(self).state@.with_ino(utf8(path@));
                &&& final(self).state@ == st
                &&& r.1 == old(self).next_fh
                &&& final(self).handles@ == old(self).handles@.insert(
                    fh_key(r.1),
                    HandleView { ino, extents: Seq::empty() },
                )
                &&& r.0 == (match attr_view(img@, ino, utf8(path@)) {
                    Some(a) => a,
                    None => FileAttr {
                        ino,
                        size,
                        blocks: crate::fuse::fs::blocks_for(size),
                        time_ms: crate::fuse::fs::since_epoch(now),
                        kind: FileType::RegularFile,
                        perm: (masked(mode, umask) & 0xfff) as u16,
                        nlink: 1,
                        uid,
                        gid,
                        blksize: 4096,
                    },
                })
            }),
            final(self).next_fh == next_handle(old(self).next_fh),
            final(self).writable == old(self).writable,
    {
        let ino = self.state.ino(path);
        let fh = self.new_handle(ino);
        let attr = match attr_of(img, ino, path) {
            Some(a) => a,
            None => {
                let blocks: u64 = size / 512 + if size % 512 == 0 {
                    0u64
                } else {
                    1u64
                };
                FileAttr {
                    ino,
                    size,
                    blocks,
                    time_ms: crate::fuse::fs::ts(now),
                    kind: FileType::RegularFile,
                    perm: crate::fuse::fs::perm_bits(mode & !umask & 0xfff),
                    nlink: 1,
                    uid,
                    gid,
                    blksize: 4096,
                }
            },
        };
        (attr, fh)
    }
}

// ---- what a flush leaves --------------------------------------------------

/// A file with the given content and metadata.
pub open spec fn inline_file(b: Seq<u8>, meta: MetaView) -> NodeView {
    NodeView::File { content: ContentView::Inline(b), meta }
}

proof fn run_push(nodes: Nodes, ds: Seq<DeltaView>, d: DeltaView, now: i64)
    ensures
        run(nodes, ds.push(d), now) == crate::fuse::apply_delta(run(nodes, ds, now), d, now),
{
    assert(ds.push(d).drop_last() =~= ds);
}

/// Staged extents land in an inline file in the order they were written, and
/// only its modification time changes beside.
pub proof fn flush_lands_inline(
    nodes: Nodes,
    path: Seq<u8>,
    extents: Extents,
    content: Seq<u8>,
    b: Seq<u8>,
    meta: MetaView,
    now: i64,
)
    requires
        nodes.contains_key(path),
        nodes[path] == inline_file(b, meta),
    ensures
        run(nodes, flush_batch(nodes, path, extents, content, now), now) == nodes.insert(
            path,
            inline_file(spliced(b, extents), MetaView { mtime_ms: now, ..meta }),
        ),
{
    extents_land(nodes, path, extents, b, meta, now);
    let ds = extent_writes(path, extents);
    let d = DeltaView::SetAttr {
        path,
        mode: None,
        uid: None,
        gid: None,
        mtime_ms: Some(now),
    };
    run_push(nodes, ds, d, now);
    assert(run(nodes, ds.push(d), now) =~= nodes.insert(
        path,
        inline_file(spliced(b, extents), MetaView { mtime_ms: now, ..meta }),
    ));
}

proof fn extents_land(
    nodes: Nodes,
    path: Seq<u8>,
    extents: Extents,
    b: Seq<u8>,
    meta: MetaView,
    now: i64,
)
    requires
        nodes.contains_key(path),
        nodes[path] == inline_file(b, meta),
    ensures
        run(nodes, extent_writes(path, extents), now) == nodes.insert(
            path,
            inline_file(spliced(b, extents), meta),
        ),
    decreases extents.len(),
{
    let ds = extent_writes(path, extents);
    if extents.len() == 0 {
        assert(ds =~= Seq::<DeltaView>::empty());
        assert(nodes.insert(path, inline_file(b, meta)) =~= nodes);
    } else {
        let rest = extents.drop_last();
        extents_land(nodes, path, rest, b, meta, now);
        assert(ds.drop_last() =~= extent_writes(path, rest));
        let before = nodes.insert(path, inline_file(spliced(b, rest), meta));
        assert(run(nodes, ds, now) =~= nodes.insert(
            path,
            inline_file(spliced(b, extents), meta),
        ));
    }
}

/// Staged extents land in a block-backed file too: the file becomes its
/// content with the extents written over it, and keeps its owner, permission
/// bits and extended attributes.
pub proof fn flush_lands_on_blocks(
    nodes: Nodes,
    path: Seq<u8>,
    extents: Extents,
    content: Seq<u8>,
    now: i64,
)
    requires
        is_block_backed(nodes, path),
    ensures
        run(nodes, flush_batch(nodes, path, extents, content, now), now) == nodes.insert(
            path,
            inline_file(
                spliced(content, extents),
                MetaView { mtime_ms: now, ..nodes[path].meta() },
            ),
        ),
{
    let m = nodes[path].meta();
    let whole = spliced(content, extents);
    let w = DeltaView::Write { path, offset: 0, data: DataView::Inline(whole) };
    let none = Seq::<DeltaView>::empty();
    let t = touched(path, now);
    let ds = extent_writes(path, seq![(0u64, whole)]);
    assert(ds =~= none.push(w));
    run_push(nodes, none, w, now);
    run_push(nodes, ds, t, now);
    assert(splice(Seq::empty(), 0, whole) =~= whole);
    assert(run(nodes, ds.push(t), now) =~= nodes.insert(
        path,
        inline_file(whole, MetaView { mtime_ms: now, ..m }),
    ));
}

/// A change of size alone keeps a file's permission bits, owner and extended
/// attributes: only the content and the modification time are new.
pub proof fn resize_keeps_metadata(
    nodes: Nodes,
    path: Seq<u8>,
    b: Seq<u8>,
    mtime: Option<SetTime>,
    now: i64,
    later: i64,
)
    requires
        nodes.contains_key(path),
        nodes[path] is File,
    ensures
        ({
            let t = time_set(mtime, true, later);
            let d = attr_change(path, None, None, None, t);
            &&& t is Some && d is Some
            &&& crate::fuse::apply_delta(truncated(nodes, path, b, now), d->0, later)
                == nodes.insert(
                path,
                inline_file(b, MetaView { mtime_ms: t->0, ..nodes[path].meta() }),
            )
        }),
{
    let t = time_set(mtime, true, later);
    let d = attr_change(path, None, None, None, t);
    assert(crate::fuse::apply_delta(truncated(nodes, path, b, now), d->0, later) =~= nodes.insert(
        path,
        inline_file(b, MetaView { mtime_ms: t->0, ..nodes[path].meta() }),
    ));
}

} // verus!

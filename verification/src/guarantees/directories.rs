//! Names, directories and attributes as a mount shows them.
use vstd::prelude::*;
use vstd::string::*;

use crate::fuse::{below, ContentView, NodeView, Nodes};
use crate::fuse::fs::{
    attr_view, children_of, dirs_in, entries_in, entry_prefix, is_name, is_parent, join_of,
    kind_of, last_slash, links, root, Errno, FileType, StateView,
};
use crate::fuse::ops::{
    attributes_of, changeable, creatable, is_entry, is_listed, link_target, lists, locate, masked,
    name_list, next_handle, numbered, openable, removable, rename_check, resolve, sized_reply,
    tag_names, tag_value, taggable, tagged, unlinkable, vacant, DirEntry, XattrReply,
};
use crate::order::{after, has_prefix, lemma_prefix_of_concat, lemma_prefix_split, lex_lt};
use crate::table::{any_key, is_listing, lemma_under, listing, listing_exists, under};
use crate::text::{utf8, SLASH};

verus! {

// ---- paths ----------------------------------------------------------------

/// A name: not empty, without a slash.
pub open spec fn plain_name(name: Seq<u8>) -> bool {
    name.len() > 0 && forall|i: int| 0 <= i < name.len() ==> #[trigger] name[i] != 0x2f
}

/// The path of an entry is the directory's, a slash and the name; the root's
/// own slash does not count twice. The directory that holds it is where it was
/// put.
pub proof fn entry_path_names_its_directory(dir: Seq<u8>, name: Seq<u8>, p: Seq<u8>)
    requires
        dir.len() > 0,
        plain_name(name),
    ensures
        dir == seq![0x2fu8] ==> join_of(dir, name) == seq![0x2fu8] + name,
        dir != seq![0x2fu8] ==> join_of(dir, name) == dir + seq![0x2fu8] + name,
        is_parent(join_of(dir, name), p) <==> p == dir,
{
    let path = join_of(dir, name);
    let i: int = if dir == root() {
        0
    } else {
        dir.len() as int
    };
    assert forall|j: int| i < j < path.len() implies path[j] != SLASH by {
        assert(path[j] == name[j - i - 1]);
    }
    assert(last_slash(path, i));
    assert forall|j: int| last_slash(path, j) implies j == i by {
        if j < i {
            assert(path[i] == SLASH);
        }
    }
    if dir != root() {
        assert(path.take(i) =~= dir);
    }
}

// ---- listings -------------------------------------------------------------

proof fn entries_are(rows: Seq<(Seq<u8>, NodeView)>, prefix: Seq<u8>, name: Seq<u8>, kind: FileType)
    requires
        forall|i: int| 0 <= i < rows.len() ==> has_prefix((#[trigger] rows[i]).0, prefix),
    ensures
        entries_in(rows, prefix).contains((name, kind)) <==> plain_name(name) && exists|i: int|
            0 <= i < rows.len() && (#[trigger] rows[i]).0 == prefix + name && kind_of(rows[i].1)
                == kind,
    decreases rows.len(),
{
    if rows.len() > 0 {
        let rest = rows.drop_last();
        assert forall|i: int| 0 <= i < rest.len() implies has_prefix(
            (#[trigger] rest[i]).0,
            prefix,
        ) by {
            assert(has_prefix(rows[i].0, prefix));
        }
        entries_are(rest, prefix, name, kind);
        let last = rows[rows.len() - 1];
        assert(has_prefix(last.0, prefix));
        lemma_prefix_split(last.0, prefix);
        let own = after(last.0, prefix.len() as int);
        let before = entries_in(rest, prefix);
        let now = entries_in(rows, prefix);
        assert(is_name(own) == plain_name(own)) by {
            if is_name(own) {
                assert forall|i: int| 0 <= i < own.len() implies #[trigger] own[i] != 0x2f by {}
            }
            if plain_name(own) {
                assert forall|i: int| 0 <= i < own.len() implies own[i] != SLASH by {}
            }
        }
        if before.contains((name, kind)) {
            let i = choose|i: int| 0 <= i < before.len() && before[i] == (name, kind);
            assert(now[i] == (name, kind));
            let j = choose|j: int|
                0 <= j < rest.len() && (#[trigger] rest[j]).0 == prefix + name && kind_of(rest[j].1)
                    == kind;
            assert(rows[j] == rest[j]);
        }
        if is_name(own) && own == name && kind_of(last.1) == kind {
            assert(now[now.len() - 1] == (name, kind));
            assert(rows[rows.len() - 1].0 == prefix + name);
        }
        if now.contains((name, kind)) && !before.contains((name, kind)) {
            let i = choose|i: int| 0 <= i < now.len() && now[i] == (name, kind);
            if i < before.len() {
                assert(before[i] == (name, kind));
            }
            assert(own == name);
        }
        if plain_name(name) && exists|i: int|
            0 <= i < rows.len() && (#[trigger] rows[i]).0 == prefix + name && kind_of(rows[i].1)
                == kind {
            let i = choose|i: int|
                0 <= i < rows.len() && (#[trigger] rows[i]).0 == prefix + name && kind_of(rows[i].1)
                    == kind;
            if i < rest.len() {
                assert(rest[i] == rows[i]);
            } else {
                assert(own =~= name) by {
                    assert(prefix + own == prefix + name);
                    assert forall|k: int| 0 <= k < own.len() implies own[k] == name[k] by {
                        assert((prefix + own)[prefix.len() + k] == own[k]);
                        assert((prefix + name)[prefix.len() + k] == name[k]);
                    }
                    assert((prefix + own).len() == (prefix + name).len());
                }
            }
        }
    }
}

/// A directory lists a name exactly if a node stands at the entry's path, with
/// the kind of that node.
pub proof fn directory_lists_its_entries(nodes: Nodes, dir: Seq<u8>, name: Seq<u8>, kind: FileType)
    requires
        nodes.dom().finite(),
    ensures
        children_of(nodes, dir).contains((name, kind)) <==> {
            &&& plain_name(name)
            &&& nodes.contains_key(join_of(dir, name))
            &&& match nodes[join_of(dir, name)] {
                NodeView::File { .. } => kind == FileType::RegularFile,
                NodeView::Dir { .. } => kind == FileType::Directory,
                NodeView::Symlink { .. } => kind == FileType::Symlink,
            }
        },
{
    let prefix = entry_prefix(dir);
    let p = under(prefix);
    let rows = listing(nodes, p);
    listing_exists(nodes, p);
    assert(is_listing(nodes, p, rows));
    assert forall|i: int| 0 <= i < rows.len() implies has_prefix((#[trigger] rows[i]).0, prefix) by {
        assert(p(rows[i].0));
        lemma_under(prefix, rows[i].0);
    }
    entries_are(rows, prefix, name, kind);
    let path = join_of(dir, name);
    assert(path =~= prefix + name);
    lemma_prefix_of_concat(prefix, name);
    lemma_under(prefix, path);
    if nodes.contains_key(path) {
        assert(p(path));
        let i = choose|i: int| 0 <= i < rows.len() && #[trigger] rows[i].0 == path;
        assert(rows[i].0 == prefix + name);
    }
}

proof fn entry_names(rows: Seq<(Seq<u8>, NodeView)>, prefix: Seq<u8>, n: int)
    requires
        0 <= n <= rows.len(),
        forall|i: int, j: int| 0 <= i < j < rows.len() ==> #[trigger] lex_lt(rows[i].0, rows[j].0),
        forall|i: int| 0 <= i < rows.len() ==> has_prefix((#[trigger] rows[i]).0, prefix),
    ensures
        ({
            let es = entries_in(rows.take(n), prefix);
            &&& forall|a: int, b: int| 0 <= a < b < es.len() ==> #[trigger] lex_lt(es[a].0, es[b].0)
            &&& forall|a: int|
                0 <= a < es.len() ==> exists|i: int|
                    0 <= i < n && (#[trigger] rows[i]).0 == prefix + (#[trigger] es[a]).0
        }),
    decreases n,
{
    let es = entries_in(rows.take(n), prefix);
    if n > 0 {
        entry_names(rows, prefix, n - 1);
        assert(rows.take(n).drop_last() =~= rows.take(n - 1));
        assert(rows.take(n).last() == rows[n - 1]);
        let before = entries_in(rows.take(n - 1), prefix);
        assert(has_prefix(rows[n - 1].0, prefix));
        lemma_prefix_split(rows[n - 1].0, prefix);
        let own = after(rows[n - 1].0, prefix.len() as int);
        assert forall|a: int| 0 <= a < es.len() implies exists|i: int|
            0 <= i < n && (#[trigger] rows[i]).0 == prefix + (#[trigger] es[a]).0 by {
            if a < before.len() {
                assert(es[a] == before[a]);
                let i = choose|i: int|
                    0 <= i < n - 1 && (#[trigger] rows[i]).0 == prefix + before[a].0;
                assert(rows[i].0 == prefix + es[a].0);
            } else {
                assert(rows[n - 1].0 == prefix + es[a].0);
            }
        }
        assert forall|a: int, b: int| 0 <= a < b < es.len() implies #[trigger] lex_lt(
            es[a].0,
            es[b].0,
        ) by {
            assert(es[a] == before[a]);
            if b < before.len() {
                assert(es[b] == before[b]);
                assert(lex_lt(before[a].0, before[b].0));
            } else {
                let i = choose|i: int|
                    0 <= i < n - 1 && (#[trigger] rows[i]).0 == prefix + before[a].0;
                assert(lex_lt(rows[i].0, rows[n - 1].0));
                crate::order::lex_shared_prefix(prefix, before[a].0, own);
            }
        }
    } else {
        assert(rows.take(0) =~= Seq::empty());
    }
}

/// A directory lists each name once, in the order of names.
pub proof fn directory_lists_in_order(nodes: Nodes, dir: Seq<u8>)
    requires
        nodes.dom().finite(),
    ensures
        forall|a: int, b: int|
            0 <= a < b < children_of(nodes, dir).len() ==> #[trigger] lex_lt(
                children_of(nodes, dir)[a].0,
                children_of(nodes, dir)[b].0,
            ),
{
    let prefix = entry_prefix(dir);
    let p = under(prefix);
    let rows = listing(nodes, p);
    listing_exists(nodes, p);
    assert forall|i: int| 0 <= i < rows.len() implies has_prefix((#[trigger] rows[i]).0, prefix) by {
        assert(p(rows[i].0));
        lemma_under(prefix, rows[i].0);
    }
    entry_names(rows, prefix, rows.len() as int);
    assert(rows.take(rows.len() as int) =~= rows);
}

/// Handing out numbers leaves those that are out.
proof fn numbers_stay(st: StateView, dir: Seq<u8>, es: Seq<(Seq<u8>, FileType)>, p: Seq<u8>)
    requires
        st.ino_of.contains_key(p),
    ensures
        numbered(st, dir, es).ino_of.contains_key(p),
        numbered(st, dir, es).ino_of[p] == st.ino_of[p],
    decreases es.len(),
{
    if es.len() > 0 {
        numbers_stay(st, dir, es.drop_last(), p);
    }
}

proof fn numbers_grow(
    st: StateView,
    dir: Seq<u8>,
    es: Seq<(Seq<u8>, FileType)>,
    j: int,
    p: Seq<u8>,
)
    requires
        0 <= j <= es.len(),
        numbered(st, dir, es.take(j)).ino_of.contains_key(p),
    ensures
        numbered(st, dir, es).ino_of.contains_key(p),
        numbered(st, dir, es).ino_of[p] == numbered(st, dir, es.take(j)).ino_of[p],
    decreases es.len(),
{
    if j == es.len() {
        assert(es.take(j) =~= es);
    } else {
        let rest = es.drop_last();
        assert(rest.take(j) =~= es.take(j));
        numbers_grow(st, dir, rest, j, p);
    }
}

/// A listing from `offset` on: the directory itself and its parent come first,
/// then the entries as they are listed; each says where to go on after it, and
/// an entry's number is the one that its path has from now on. What is skipped
/// is what comes before `offset`.
pub proof fn listing_goes_on(
    before: StateView,
    after: StateView,
    ino: u64,
    dir: Seq<u8>,
    parent: Seq<u8>,
    es: Seq<(Seq<u8>, FileType)>,
    offset: u64,
    out: Seq<DirEntry>,
    i: int,
)
    requires
        lists(before, after, ino, dir, parent, es, offset as int, out),
        es.len() + 2 <= u64::MAX,
    ensures
        out.len() == if offset <= es.len() + 2 {
            es.len() + 2 - offset
        } else {
            0
        },
        0 <= i < out.len() ==> ({
            let e = out[i];
            let at = offset + i;
            &&& e.cookie == at + 1
            &&& at == 0 ==> utf8(e.name@) == utf8("."@) && e.ino == ino && e.kind
                == FileType::Directory
            &&& at == 1 ==> utf8(e.name@) == utf8(".."@) && e.kind == FileType::Directory
                && after.ino_of.contains_key(parent) && e.ino == after.ino_of[parent]
            &&& at >= 2 ==> utf8(e.name@) == es[at - 2].0 && e.kind == es[at - 2].1
                && after.ino_of.contains_key(join_of(dir, es[at - 2].0)) && e.ino
                == after.ino_of[join_of(dir, es[at - 2].0)]
        }),
{
    let st1 = before.with_ino(parent).0;
    let full = choose|full: Seq<DirEntry>| #[trigger]
        is_listed(full, ino, before, dir, parent, es) && out == full.skip(
            if offset < full.len() {
                offset as int
            } else {
                full.len() as int
            },
        );
    if 0 <= i < out.len() {
        let at = offset + i;
        assert(out[i] == full[at]);
        assert(st1.ino_of.contains_key(parent));
        assert(st1.ino_of[parent] == before.with_ino(parent).1);
        numbers_stay(st1, dir, es, parent);
        if at >= 2 {
            let j = at - 2;
            let path = join_of(dir, es[j].0);
            assert(full[j + 2] == full[at]);
            assert(is_entry(
                full[j + 2],
                numbered(st1, dir, es.take(j)).with_ino(path).1,
                (j + 3) as u64,
                es[j].1,
                es[j].0,
            ));
            assert(es.take(j + 1).drop_last() =~= es.take(j));
            assert(es.take(j + 1).last() == es[j]);
            let next = numbered(st1, dir, es.take(j + 1));
            assert(next == numbered(st1, dir, es.take(j)).with_ino(path).0);
            assert(next.ino_of.contains_key(path));
            numbers_grow(st1, dir, es, j + 1, path);
        }
    }
}

/// A path keeps the number that it has; a new one gets a number that no other
/// path has, and leads to its path.
pub proof fn number_is_kept(st: StateView, path: Seq<u8>, other: Seq<u8>)
    requires
        crate::fuse::fs::consistent(st),
        st.paths.len() < u64::MAX,
    ensures
        ({
            let (next, ino) = st.with_ino(path);
            &&& st.ino_of.contains_key(path) ==> ino == st.ino_of[path] && next == st
            &&& next.ino_of.contains_key(path) && next.ino_of[path] == ino
            &&& next.path_of(ino) == Some(path)
            &&& st.ino_of.contains_key(other) ==> next.ino_of.contains_key(other)
                && next.ino_of[other] == st.ino_of[other]
            &&& st.ino_of.contains_key(other) && other != path ==> ino != st.ino_of[other]
        }),
{
    if st.ino_of.contains_key(other) {
        assert(st.paths[st.ino_of[other] - 1] == other);
    }
    if st.ino_of.contains_key(path) {
        assert(st.paths[st.ino_of[path] - 1] == path);
    }
}

// ---- attributes -----------------------------------------------------------

/// The number of directories among entries.
proof fn dirs_are_counted(es: Seq<(Seq<u8>, FileType)>)
    ensures
        dirs_in(es) == es.filter(|e: (Seq<u8>, FileType)| e.1 == FileType::Directory).len(),
    decreases es.len(),
{
    reveal(Seq::filter);
    if es.len() > 0 {
        dirs_are_counted(es.drop_last());
    }
}

/// A directory has two links and one more per directory in it; anything else
/// has one.
pub proof fn directory_links(nodes: Nodes, path: Seq<u8>, kind: FileType)
    ensures
        kind != FileType::Directory ==> links(nodes, path, kind) == 1,
        kind == FileType::Directory && 2 + children_of(nodes, path).filter(
            |e: (Seq<u8>, FileType)| e.1 == FileType::Directory,
        ).len() <= u32::MAX ==> links(nodes, path, kind) == 2 + children_of(nodes, path).filter(
            |e: (Seq<u8>, FileType)| e.1 == FileType::Directory,
        ).len(),
{
    dirs_are_counted(children_of(nodes, path));
}

/// What a node's attributes say of it: its kind, its length in bytes and in
/// blocks of 512, rounded up, the permission bits of its mode, its owner and
/// its time. The root is a directory that is always there.
pub proof fn attributes_tell(nodes: Nodes, ino: u64, path: Seq<u8>)
    ensures
        ({
            let a = attr_view(nodes, ino, path);
            let n = nodes[path];
            &&& a is None <==> path != seq![0x2fu8] && !nodes.contains_key(path)
            &&& a is Some ==> {
                &&& a->0.ino == ino
                &&& a->0.blocks * 512 >= a->0.size
                &&& a->0.blocks * 512 < a->0.size + 512
                &&& a->0.nlink == links(nodes, path, a->0.kind)
            }
            &&& path == seq![0x2fu8] ==> a->0.kind == FileType::Directory && a->0.size == 0
                && a->0.perm == 0x1ed && a->0.time_ms == 0 && a->0.uid == 0 && a->0.gid == 0
            &&& path != seq![0x2fu8] && nodes.contains_key(path) ==> {
                &&& a->0.uid == n.meta().uid
                &&& a->0.gid == n.meta().gid
                &&& a->0.perm == n.meta().mode % 0x1000
                &&& n.meta().mtime_ms >= 0 ==> a->0.time_ms == n.meta().mtime_ms
                &&& n.meta().mtime_ms < 0 ==> a->0.time_ms == 0
                &&& match n {
                    NodeView::Dir { .. } => a->0.kind == FileType::Directory && a->0.size == 0,
                    NodeView::Symlink { target, .. } => a->0.kind == FileType::Symlink && (
                    utf8(target).len() <= u64::MAX ==> a->0.size == utf8(target).len()),
                    NodeView::File { content, .. } => a->0.kind == FileType::RegularFile && match content {
                        ContentView::Inline(b) => b.len() <= u64::MAX ==> a->0.size == b.len(),
                        ContentView::Blocks { size, .. } => a->0.size == size,
                    },
                }
            }
        }),
{
    let m: u32 = nodes[path].meta().mode;
    assert(m & 0xfff == m % 0x1000) by (bit_vector);
    assert(0x1edu32 & 0xfff == 0x1ed) by (bit_vector);
    assert(seq![SLASH] =~= seq![0x2fu8]);
}

// ---- where a request leads ------------------------------------------------

/// A name in a directory: what a request that creates or looks up something
/// there works on.
pub proof fn request_resolves(st: StateView, nodes: Nodes, parent: u64, name: Seq<char>)
    ensures
        resolve(st, nodes, parent, None) == Err::<Seq<u8>, Errno>(Errno::EINVAL),
        locate(st, parent, None) == Err::<Seq<u8>, Errno>(Errno::EINVAL),
        !(1 <= parent <= st.paths.len()) ==> resolve(st, nodes, parent, Some(name)) == Err::<
            Seq<u8>,
            Errno,
        >(Errno::ENOENT) && locate(st, parent, Some(name)) == Err::<Seq<u8>, Errno>(Errno::ENOENT),
        1 <= parent <= st.paths.len() ==> ({
            let dir = st.paths[parent - 1];
            let path = join_of(dir, utf8(name));
            &&& locate(st, parent, Some(name)) == Ok::<Seq<u8>, Errno>(path)
            &&& if dir == seq![0x2fu8] || (nodes.contains_key(dir) && nodes[dir] is Dir) {
                &&& resolve(st, nodes, parent, Some(name)) == Ok::<Seq<u8>, Errno>(path)
                &&& vacant(st, nodes, parent, Some(name)) == (if nodes.contains_key(path) {
                    Err::<Seq<u8>, Errno>(Errno::EEXIST)
                } else {
                    Ok(path)
                })
            } else {
                &&& resolve(st, nodes, parent, Some(name)) == Err::<Seq<u8>, Errno>(Errno::ENOTDIR)
                &&& vacant(st, nodes, parent, Some(name)) == Err::<Seq<u8>, Errno>(Errno::ENOTDIR)
            }
        }),
{
    assert(seq![SLASH] =~= seq![0x2fu8]);
}

/// A rename is let through exactly if it asks for nothing special, both
/// directories are known, something stands at the source, and what stands at
/// the target, if anything, is of the same sort: no directory for both, or an
/// empty directory for a directory.
pub proof fn rename_is_let_through(
    st: StateView,
    nodes: Nodes,
    parent: u64,
    name: Seq<char>,
    newparent: u64,
    newname: Seq<char>,
    flags: bool,
)
    requires
        1 <= parent <= st.paths.len(),
        1 <= newparent <= st.paths.len(),
        nodes.dom().finite(),
    ensures
        ({
            let from = join_of(st.paths[parent - 1], utf8(name));
            let to = join_of(st.paths[newparent - 1], utf8(newname));
            let r = rename_check(
                st,
                nodes,
                parent,
                Some(name),
                newparent,
                Some(newname),
                flags,
            );
            &&& r is Ok ==> r->Ok_0 == (from, to)
            &&& r is Ok <==> !flags && nodes.contains_key(from) && (nodes.contains_key(to) ==> (
            nodes[from] is Dir <==> nodes[to] is Dir) && (nodes[to] is Dir ==> forall|n: Seq<u8>|
                plain_name(n) ==> !nodes.contains_key(#[trigger] join_of(to, n))))
            &&& !flags && !nodes.contains_key(from) ==> r == Err::<(Seq<u8>, Seq<u8>), Errno>(
                Errno::ENOENT,
            )
            &&& !flags && nodes.contains_key(from) && nodes.contains_key(to) && nodes[to] is Dir
                && !(nodes[from] is Dir) ==> r == Err::<(Seq<u8>, Seq<u8>), Errno>(Errno::EISDIR)
            &&& !flags && nodes.contains_key(from) && nodes.contains_key(to) && nodes[from] is Dir
                && !(nodes[to] is Dir) ==> r == Err::<(Seq<u8>, Seq<u8>), Errno>(Errno::ENOTDIR)
        }),
{
    let to = join_of(st.paths[newparent - 1], utf8(newname));
    empty_directory_lists_nothing(nodes, to);
}

/// A directory lists nothing exactly if nothing stands in it.
pub proof fn empty_directory_lists_nothing(nodes: Nodes, dir: Seq<u8>)
    requires
        nodes.dom().finite(),
    ensures
        children_of(nodes, dir).len() == 0 <==> forall|n: Seq<u8>|
            plain_name(n) ==> !nodes.contains_key(#[trigger] join_of(dir, n)),
{
    let es = children_of(nodes, dir);
    if es.len() == 0 {
        assert forall|n: Seq<u8>| plain_name(n) implies !nodes.contains_key(
            #[trigger] join_of(dir, n),
        ) by {
            let kind = kind_of(nodes[join_of(dir, n)]);
            directory_lists_its_entries(nodes, dir, n, kind);
            assert(!es.contains((n, kind)));
        }
    } else {
        let (n, kind) = es[0];
        directory_lists_its_entries(nodes, dir, n, kind);
        assert(es[0] == (n, kind));
        assert(es.contains((n, kind)));
        assert(nodes.contains_key(join_of(dir, n)));
    }
}

// ---- extended attributes --------------------------------------------------

/// A reply to a request with a buffer of `size` bytes: without a buffer the
/// length, with one too small an error, else the bytes.
pub proof fn reply_fits_buffer(data: Seq<u8>, size: u32, r: Result<XattrReply, Errno>)
    requires
        sized_reply(data, size, r),
    ensures
        r is Err <==> 0 < size < data.len(),
        r is Err ==> r->Err_0 == Errno::ERANGE,
        size == 0 && data.len() <= u32::MAX ==> (r->Ok_0 matches XattrReply::Size(n) && n
            == data.len()),
        0 < size && data.len() <= size ==> (r->Ok_0 matches XattrReply::Data(d) && d@ == data),
{
}

/// The list of names ends each of them with a zero byte.
pub proof fn names_end_in_zero(l: Seq<(Seq<u8>, Seq<u8>)>, name: Seq<u8>, value: Seq<u8>)
    ensures
        name_list(Seq::empty()).len() == 0,
        name_list(l.push((name, value))) == name_list(l) + name + seq![0u8],
{
    assert(l.push((name, value)).drop_last() =~= l);
}

// ---- modes and handles ----------------------------------------------------

/// The mode of a new node has the permission bits asked for, without those of
/// the mask.
pub proof fn mask_takes_bits_away(mode: u32, umask: u32)
    ensures
        masked(mode, umask) & umask == 0,
        masked(mode, umask) | (mode & umask & 0xfff) == mode & 0xfff,
        masked(mode, umask) <= 0xfff,
{
    let m: u32 = masked(mode, umask);
    assert(m == mode & !umask & 0xfff);
    assert(m & umask == 0 && m | (mode & umask & 0xfff) == mode & 0xfff && m <= 0xfff) by (bit_vector)
        requires
            m == mode & !umask & 0xfff,
    ;
}

/// Handles are numbered one after the other.
pub proof fn handles_count_up(fh: u64)
    ensures
        next_handle(fh) != fh,
        fh < u64::MAX ==> next_handle(fh) == fh + 1,
{
}

// ---- renames --------------------------------------------------------------

/// A rename keeps the numbers: the path itself and every known path below it
/// keep theirs at the new place, and the number leads there.
pub proof fn rename_carries_numbers(st: StateView, from: Seq<u8>, to: Seq<u8>, rest: Seq<u8>)
    requires
        st.ino_of.dom().finite(),
        crate::fuse::fs::consistent(st),
        crate::fuse::fs::apart(st, from, to),
    ensures
        ({
            let r = st.renamed(from, to);
            let old = from + seq![0x2fu8] + rest;
            let new = to + seq![0x2fu8] + rest;
            &&& st.ino_of.contains_key(from) ==> r.ino_of.contains_key(to) && r.ino_of[to]
                == st.ino_of[from] && r.path_of(st.ino_of[from]) == Some(to)
            &&& st.ino_of.contains_key(old) ==> r.ino_of.contains_key(new) && r.ino_of[new]
                == st.ino_of[old] && r.path_of(st.ino_of[old]) == Some(new)
        }),
{
    let old = from + seq![0x2fu8] + rest;
    let new = to + seq![0x2fu8] + rest;
    assert(old =~= below(from) + rest);
    assert(new =~= below(to) + rest);
    lemma_prefix_of_concat(below(from), rest);
    if st.ino_of.contains_key(from) {
        crate::fuse::fs::rename_keeps_inodes(st, from, to, from);
    }
    if st.ino_of.contains_key(old) {
        crate::fuse::fs::rename_keeps_inodes(st, from, to, old);
        assert(old.len() > from.len());
        assert(after(old, below(from).len() as int) =~= rest);
        assert(crate::fuse::fs::remapped(old, from, to) =~= new);
    }
}

proof fn others_keep_numbers(
    st: StateView,
    l: Seq<(Seq<u8>, u64)>,
    n: nat,
    from: Seq<u8>,
    to: Seq<u8>,
    q: Seq<u8>,
)
    requires
        n <= l.len(),
        forall|i: int| 0 <= i < l.len() ==> crate::fuse::in_tree((#[trigger] l[i]).0, from),
        !crate::fuse::in_tree(q, from),
        !crate::fuse::in_tree(q, to),
    ensures
        ({
            let r = st.rekey_first(l, n, from, to);
            &&& r.ino_of.contains_key(q) == st.ino_of.contains_key(q)
            &&& st.ino_of.contains_key(q) ==> r.ino_of[q] == st.ino_of[q]
        }),
    decreases n,
{
    if n > 0 {
        others_keep_numbers(st, l, (n - 1) as nat, from, to, q);
        let p = l[n - 1].0;
        assert(crate::fuse::in_tree(p, from));
        let np = crate::fuse::fs::remapped(p, from, to);
        assert(crate::fuse::in_tree(np, to)) by {
            if p != from {
                lemma_prefix_of_concat(below(to), after(p, below(from).len() as int));
            }
        }
    }
}

/// A rename leaves the numbers of paths outside both trees.
pub proof fn rename_leaves_other_numbers(st: StateView, from: Seq<u8>, to: Seq<u8>, q: Seq<u8>)
    requires
        st.ino_of.dom().finite(),
        q != from,
        q != to,
        !has_prefix(q, from + seq![0x2fu8]),
        !has_prefix(q, to + seq![0x2fu8]),
    ensures
        st.renamed(from, to).ino_of.contains_key(q) == st.ino_of.contains_key(q),
        st.ino_of.contains_key(q) ==> st.renamed(from, to).ino_of[q] == st.ino_of[q],
{
    assert(below(from) =~= from + seq![0x2fu8]);
    assert(below(to) =~= to + seq![0x2fu8]);
    let p = crate::fuse::fs::tree(from);
    listing_exists(st.ino_of, p);
    let l = listing(st.ino_of, p);
    assert forall|i: int| 0 <= i < l.len() implies crate::fuse::in_tree(
        (#[trigger] l[i]).0,
        from,
    ) by {
        assert(p(l[i].0));
    }
    others_keep_numbers(st, l, l.len(), from, to, q);
}

/// The root is known from the start, as number 1.
pub proof fn root_is_number_one()
    ensures
        crate::fuse::fs::fresh_state().path_of(1) == Some(seq![0x2fu8]),
        crate::fuse::fs::fresh_state().ino_of.contains_key(seq![0x2fu8]),
        crate::fuse::fs::fresh_state().ino_of[seq![0x2fu8]] == 1,
        crate::fuse::fs::fresh_state().paths.len() == 1,
{
    assert(seq![SLASH] =~= seq![0x2fu8]);
}

/// A number leads to a path exactly if it was handed out.
pub proof fn number_leads_to_path(st: StateView, ino: u64)
    ensures
        st.path_of(ino) is Some <==> 1 <= ino <= st.paths.len(),
        st.path_of(ino) is Some ==> st.path_of(ino)->0 == st.paths[ino - 1],
{
}

/// The root is its own parent, and holds what has no other slash.
pub proof fn root_holds_itself(name: Seq<u8>, p: Seq<u8>)
    requires
        forall|i: int| 0 <= i < name.len() ==> #[trigger] name[i] != 0x2f,
    ensures
        is_parent(seq![0x2fu8], p) <==> p == seq![0x2fu8],
        is_parent(name, p) <==> p == seq![0x2fu8],
{
    assert(seq![SLASH] =~= seq![0x2fu8]);
    let r = seq![0x2fu8];
    assert forall|i: int| last_slash(r, i) implies i == 0 by {}
    assert forall|i: int| !last_slash(name, i) by {
        if 0 <= i < name.len() {
            assert(name[i] != 0x2f);
        }
    }
}

// ---- what a request is let do ---------------------------------------------

/// What a number can be used for, by what stands at its path: only a file is
/// opened or changes its size, only a link leads somewhere, and the root is
/// there without a node of its own.
pub proof fn number_is_used_by_kind(st: StateView, nodes: Nodes, ino: u64)
    requires
        1 <= ino <= st.paths.len(),
    ensures
        ({
            let p = st.paths[ino - 1];
            let n = nodes[p];
            let there = nodes.contains_key(p);
            &&& openable(st, nodes, ino) is Ok <==> there && n is File
            &&& !there ==> openable(st, nodes, ino) == Err::<(), Errno>(Errno::ENOENT)
            &&& there && n is Dir ==> openable(st, nodes, ino) == Err::<(), Errno>(Errno::EISDIR)
            &&& there && n is Symlink ==> openable(st, nodes, ino) == Err::<(), Errno>(
                Errno::ELOOP,
            )
            &&& link_target(st, nodes, ino) is Ok <==> there && n is Symlink
            &&& there && n is Symlink ==> link_target(st, nodes, ino)->Ok_0 == n->target
            &&& there && !(n is Symlink) ==> link_target(st, nodes, ino)->Err_0 == Errno::EINVAL
            &&& !there ==> link_target(st, nodes, ino)->Err_0 == Errno::ENOENT
            &&& changeable(st, nodes, ino, true) is Ok <==> there && n is File
            &&& changeable(st, nodes, ino, false) is Ok <==> there || p == seq![0x2fu8]
            &&& changeable(st, nodes, ino, true) is Ok ==> changeable(st, nodes, ino, true)->Ok_0
                == p
            &&& changeable(st, nodes, ino, false) is Ok ==> changeable(
                st,
                nodes,
                ino,
                false,
            )->Ok_0 == p
            &&& there && !(n is File) ==> changeable(st, nodes, ino, true)->Err_0 == Errno::EINVAL
            &&& !there && p != seq![0x2fu8] ==> changeable(st, nodes, ino, true)->Err_0
                == Errno::ENOENT && changeable(st, nodes, ino, false)->Err_0 == Errno::ENOENT
            &&& attributes_of(st, nodes, ino) is Ok <==> there || p == seq![0x2fu8]
            &&& attributes_of(st, nodes, ino) is Ok ==> Some(attributes_of(st, nodes, ino)->Ok_0)
                == attr_view(nodes, ino, p)
            &&& attributes_of(st, nodes, ino) is Err ==> attributes_of(st, nodes, ino)->Err_0
                == Errno::ENOENT
        }),
{
    assert(seq![SLASH] =~= seq![0x2fu8]);
}

/// A number that was not handed out can be used for nothing.
pub proof fn unknown_number_is_refused(st: StateView, nodes: Nodes, ino: u64, name: Option<Seq<char>>)
    requires
        !(1 <= ino <= st.paths.len()),
    ensures
        openable(st, nodes, ino) == Err::<(), Errno>(Errno::ENOENT),
        link_target(st, nodes, ino) == Err::<Seq<char>, Errno>(Errno::ENOENT),
        changeable(st, nodes, ino, true) == Err::<Seq<u8>, Errno>(Errno::ENOENT),
        changeable(st, nodes, ino, false) == Err::<Seq<u8>, Errno>(Errno::ENOENT),
        attributes_of(st, nodes, ino) is Err,
        taggable(st, nodes, ino, name) == Err::<Seq<u8>, Errno>(Errno::ENOENT),
        tagged(st, nodes, ino, name) == Err::<Seq<u8>, Errno>(Errno::ENOENT),
        tag_value(st, nodes, ino, name) == Err::<Seq<u8>, Errno>(Errno::ENOENT),
        tag_names(st, nodes, ino) == Err::<Seq<u8>, Errno>(Errno::ENOENT),
{
}

/// A creation opens a file that is there and makes one where nothing is; a file
/// or link is removed where one is; a directory is removed where an empty one
/// is.
pub proof fn entry_is_made_or_removed(st: StateView, nodes: Nodes, parent: u64, name: Seq<char>)
    requires
        nodes.dom().finite(),
        1 <= parent <= st.paths.len(),
    ensures
        ({
            let dir = st.paths[parent - 1];
            let p = join_of(dir, utf8(name));
            let n = nodes[p];
            let there = nodes.contains_key(p);
            let in_dir = dir == seq![0x2fu8] || (nodes.contains_key(dir) && nodes[dir] is Dir);
            let c = creatable(st, nodes, parent, Some(name));
            let u = unlinkable(st, nodes, parent, Some(name));
            let r = removable(st, nodes, parent, Some(name));
            let empty = forall|e: Seq<u8>|
                plain_name(e) ==> !nodes.contains_key(#[trigger] join_of(p, e));
            &&& c is Ok <==> in_dir && (there ==> n is File)
            &&& c is Ok ==> c->Ok_0 == (p, there)
            &&& !in_dir ==> c->Err_0 == Errno::ENOTDIR
            &&& in_dir && there && n is Dir ==> c->Err_0 == Errno::EISDIR
            &&& in_dir && there && n is Symlink ==> c->Err_0 == Errno::EEXIST
            &&& u is Ok <==> there && !(n is Dir)
            &&& u is Ok ==> u->Ok_0 == p
            &&& !there ==> u->Err_0 == Errno::ENOENT
            &&& there && n is Dir ==> u->Err_0 == Errno::EISDIR
            &&& r is Ok <==> there && n is Dir && empty
            &&& r is Ok ==> r->Ok_0 == p
            &&& !(there && n is Dir) ==> r->Err_0 == Errno::ENOTDIR
            &&& there && n is Dir && !empty ==> r->Err_0 == Errno::ENOTEMPTY
        }),
{
    assert(seq![SLASH] =~= seq![0x2fu8]);
    empty_directory_lists_nothing(nodes, join_of(st.paths[parent - 1], utf8(name)));
}

/// An extended attribute is set on what is there, removed where it is set, and
/// read as it was set.
pub proof fn tags_are_where_they_were_set(st: StateView, nodes: Nodes, ino: u64, name: Seq<char>)
    requires
        1 <= ino <= st.paths.len(),
    ensures
        ({
            let p = st.paths[ino - 1];
            let there = nodes.contains_key(p);
            let x = nodes[p].meta().xattrs;
            let k = utf8(name);
            let set = taggable(st, nodes, ino, Some(name));
            let gone = tagged(st, nodes, ino, Some(name));
            let read = tag_value(st, nodes, ino, Some(name));
            &&& set is Ok <==> there || p == seq![0x2fu8]
            &&& set is Ok ==> set->Ok_0 == p
            &&& set is Err ==> set->Err_0 == Errno::ENOENT
            &&& gone is Ok <==> there && x.contains_key(k)
            &&& gone is Ok ==> gone->Ok_0 == p
            &&& !there ==> gone->Err_0 == Errno::ENOENT
            &&& there && !x.contains_key(k) ==> gone->Err_0 == Errno::NoXattr && read->Err_0
                == Errno::NoXattr
            &&& read is Ok <==> there && x.contains_key(k)
            &&& read is Ok ==> read->Ok_0 == x[k]
            &&& !there && p == seq![0x2fu8] ==> read->Err_0 == Errno::NoXattr
            &&& !there && p != seq![0x2fu8] ==> read->Err_0 == Errno::ENOENT
            &&& tag_names(st, nodes, ino) is Ok <==> there || p == seq![0x2fu8]
            &&& there ==> tag_names(st, nodes, ino)->Ok_0 == name_list(listing(x, any_key()))
            &&& !there && p == seq![0x2fu8] ==> tag_names(st, nodes, ino)->Ok_0.len() == 0
            &&& taggable(st, nodes, ino, None) is Err && tagged(st, nodes, ino, None) is Err
                && tag_value(st, nodes, ino, None) == Err::<Seq<u8>, Errno>(Errno::EINVAL)
        }),
{
    assert(seq![SLASH] =~= seq![0x2fu8]);
}

} // verus!

//! What a directory mirror writes and removes, and where.
use vstd::prelude::*;

use crate::fuse::{NodeView, Nodes};
use crate::fuse::fs::{last_slash, FileType};
use crate::fuse::mirror::{
    components, fingerprint, is_normal, is_removal_order, is_stale, local_parts, slash_at,
    steps_for, Written,
};
use crate::guarantees::volumes::same_body;
use crate::text::{utf8, SLASH};

verus! {

/// A fingerprint tells nodes apart: two nodes have one only if they are of one
/// kind, hold the same and have one mode and one time.
pub proof fn fingerprint_tells_apart(a: NodeView, b: NodeView)
    ensures
        fingerprint(a) == fingerprint(b) <==> same_body(a, b) && a.meta().mode == b.meta().mode
            && a.meta().mtime_ms == b.meta().mtime_ms,
        fingerprint(a).mode == a.meta().mode,
        fingerprint(a).mtime_ms == a.meta().mtime_ms,
        a is Dir ==> fingerprint(a).size == 0,
        a is Symlink && utf8(a->target).len() <= u64::MAX ==> fingerprint(a).size == utf8(
            a->target,
        ).len(),
        a is File && a->File_content.size() <= u64::MAX ==> fingerprint(a).size
            == a->File_content.size(),
{
}

/// How a node comes to stand on disk: a directory that is there is kept, else
/// the place is cleared and one is made; a link is always made anew; a file is
/// written in place, once a directory there is cleared away.
pub proof fn node_is_put_in_place(n: NodeView, dir_there: bool)
    ensures
        ({
            let (clear, make) = steps_for(n, dir_there);
            &&& make is None <==> n is Dir && dir_there
            &&& make is None ==> !clear
            &&& make is Some ==> (make->0 == FileType::Directory <==> n is Dir)
            &&& make is Some ==> (make->0 == FileType::Symlink <==> n is Symlink)
            &&& make is Some ==> (make->0 == FileType::RegularFile <==> n is File)
            &&& n is File ==> clear == dir_there
            &&& n is Symlink ==> clear
            &&& n is Dir ==> clear == !dir_there
        }),
{
}

/// What a pass removes: the paths that were written and are not in the image any
/// more, each once, longer ones first.
pub proof fn removal_lists_what_is_gone(m: Written, image: Nodes, s: Seq<Seq<u8>>, p: Seq<u8>)
    requires
        is_removal_order(m, image, s),
    ensures
        s.contains(p) <==> m.contains_key(p) && !image.contains_key(p),
        s.no_duplicates(),
        forall|i: int, j: int| 0 <= i < j < s.len() ==> s[i].len() >= s[j].len(),
{
    if s.contains(p) {
        let i = choose|i: int| 0 <= i < s.len() && s[i] == p;
        assert(crate::fuse::mirror::is_gone(m, image, s[i]));
    }
    if m.contains_key(p) && !image.contains_key(p) {
        assert(crate::fuse::mirror::is_gone(m, image, p));
    }
    assert forall|i: int, j: int| 0 <= i < s.len() && 0 <= j < s.len() && i != j implies s[i]
        != s[j] by {
        if j < i {
            assert(s[j] != s[i]);
        }
    }
}

proof fn filter_pushes(s: Seq<Seq<u8>>, c: Seq<u8>)
    ensures
        s.push(c).filter(|x: Seq<u8>| is_normal(x)) == (if is_normal(c) {
            s.filter(|x: Seq<u8>| is_normal(x)).push(c)
        } else {
            s.filter(|x: Seq<u8>| is_normal(x))
        }),
{
    reveal(Seq::filter);
    assert(s.push(c).drop_last() =~= s);
}

/// The place of a path in the mirror: a further component is one more level
/// down, unless it is empty or made of one or two dots, which leads nowhere.
pub proof fn local_path_goes_down(dir: Seq<u8>, name: Seq<u8>)
    requires
        forall|i: int| 0 <= i < name.len() ==> #[trigger] name[i] != 0x2f,
    ensures
        local_parts(dir + seq![0x2fu8] + name) == (if name.len() == 0 || name == seq![0x2eu8]
            || name == seq![0x2eu8, 0x2eu8] {
            local_parts(dir)
        } else {
            local_parts(dir).push(name)
        }),
        local_parts(name) == (if name.len() == 0 || name == seq![0x2eu8] || name == seq![
            0x2eu8,
            0x2eu8,
        ] {
            Seq::empty()
        } else {
            seq![name]
        }),
{
    let path = dir + seq![0x2fu8] + name;
    let at = dir.len() as int;
    assert(path[at] == SLASH);
    assert forall|j: int| at < j < path.len() implies path[j] != SLASH by {
        assert(path[j] == name[j - at - 1]);
    }
    assert(last_slash(path, at));
    let c = slash_at(path);
    assert(last_slash(path, c));
    assert(c == at) by {
        if c < at {
            assert(path[at] != SLASH);
        }
        if at < c {
            assert(path[c] != SLASH);
        }
    }
    assert(path.take(at) =~= dir);
    assert(path.skip(at + 1) =~= name);
    assert(components(path) == components(dir).push(name));
    filter_pushes(components(dir), name);
    assert(components(name) == seq![name]) by {
        assert forall|i: int| 0 <= i < name.len() implies name[i] != SLASH by {}
    }
    let none = Seq::<Seq<u8>>::empty();
    assert(none.push(name) =~= seq![name]);
    filter_pushes(none, name);
    reveal(Seq::filter);
    assert(none.filter(|x: Seq<u8>| is_normal(x)) =~= none);
    assert(none.push(name) =~= seq![name]);
}

proof fn parts_are_normal(cs: Seq<Seq<u8>>, i: int)
    requires
        0 <= i < cs.filter(|x: Seq<u8>| is_normal(x)).len(),
    ensures
        is_normal(cs.filter(|x: Seq<u8>| is_normal(x))[i]),
    decreases cs.len(),
{
    reveal(Seq::filter);
    if cs.len() > 0 {
        let rest = cs.drop_last();
        if i < rest.filter(|x: Seq<u8>| is_normal(x)).len() {
            parts_are_normal(rest, i);
        }
    }
}

/// No component of a local path is empty or leads back up.
pub proof fn local_path_stays_inside(path: Seq<u8>, i: int)
    requires
        0 <= i < local_parts(path).len(),
    ensures
        local_parts(path)[i].len() > 0,
        local_parts(path)[i] != seq![0x2eu8],
        local_parts(path)[i] != seq![0x2eu8, 0x2eu8],
{
    parts_are_normal(components(path), i);
}

/// A node is written exactly if nothing stands at its place, it was never
/// written, or what was written last is of another kind, content, mode or time.
pub proof fn changed_node_is_written(m: Written, path: Seq<u8>, old: NodeView, n: NodeView)
    ensures
        is_stale(m, path, n, false),
        !m.contains_key(path) ==> is_stale(m, path, n, true),
        m.contains_key(path) && m[path] == fingerprint(old) ==> (is_stale(m, path, n, true) <==> !(
        same_body(old, n) && old.meta().mode == n.meta().mode && old.meta().mtime_ms
            == n.meta().mtime_ms)),
{
}

} // verus!

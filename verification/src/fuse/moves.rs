//! What a rename does to a tree of nodes.
use vstd::prelude::*;

use crate::fuse::checkpoint::apply_finite;
use crate::fuse::{
    apply_delta, below, in_tree, move_first, moved_to, rename, rename_root, DeltaView, NodeView,
    Nodes,
};
use crate::order::{
    after, has_prefix, lemma_prefix_of_concat, lemma_prefix_split, lex_irreflexive, lex_lt,
};
use crate::table::{is_listing, lemma_under, listing, listing_exists, under};

verus! {

/// Neither path is the other or lies below it.
pub open spec fn apart(f: Seq<u8>, t: Seq<u8>) -> bool {
    !in_tree(f, t) && !in_tree(t, f)
}

/// Nothing stands at `path` or below it.
pub open spec fn vacant(nodes: Nodes, path: Seq<u8>) -> bool {
    forall|k: Seq<u8>| #[trigger] nodes.contains_key(k) ==> !in_tree(k, path)
}

/// Where `k`, in the tree of `f`, stands when `f` has become `t`.
pub open spec fn relocated(k: Seq<u8>, f: Seq<u8>, t: Seq<u8>) -> Seq<u8> {
    if k == f {
        t
    } else {
        moved_to(k, f, t)
    }
}

/// `moved` is `nodes` with the tree of `f` standing at `t` instead.
pub open spec fn tree_moved(nodes: Nodes, moved: Nodes, f: Seq<u8>, t: Seq<u8>) -> bool {
    &&& vacant(moved, f)
    &&& forall|k: Seq<u8>|
        in_tree(k, t) ==> (#[trigger] moved.contains_key(k) == nodes.contains_key(
            relocated(k, t, f),
        ))
    &&& forall|k: Seq<u8>|
        in_tree(k, t) && #[trigger] moved.contains_key(k) ==> moved[k] == nodes[relocated(k, t, f)]
    &&& forall|k: Seq<u8>|
        !in_tree(k, f) && !in_tree(k, t) ==> (#[trigger] moved.contains_key(k)
            == nodes.contains_key(k))
    &&& forall|k: Seq<u8>|
        !in_tree(k, f) && !in_tree(k, t) && #[trigger] moved.contains_key(k) ==> moved[k]
            == nodes[k]
}

/// Trees of paths that are apart share nothing.
pub proof fn trees_apart(k: Seq<u8>, f: Seq<u8>, t: Seq<u8>)
    requires
        apart(f, t),
        in_tree(k, f),
    ensures
        !in_tree(k, t),
{
    if in_tree(k, t) {
        let (a, b) = if f.len() <= t.len() {
            (f, t)
        } else {
            (t, f)
        };
        if k == a || k == b {
            assert(in_tree(a, b) || in_tree(b, a));
        } else {
            assert(k.subrange(0, below(a).len() as int) == below(a));
            assert(k.subrange(0, below(b).len() as int) == below(b));
            assert forall|i: int| 0 <= i < a.len() implies a[i] == b[i] by {
                assert(below(a)[i] == k.subrange(0, below(a).len() as int)[i]);
                assert(below(b)[i] == k.subrange(0, below(b).len() as int)[i]);
            }
            if a.len() == b.len() {
                assert(a =~= b);
            } else {
                assert(b.subrange(0, below(a).len() as int) =~= below(a)) by {
                    assert forall|i: int| 0 <= i < below(a).len() implies b[i] == below(a)[i] by {
                        assert(below(a)[i] == k.subrange(0, below(a).len() as int)[i]);
                        assert(below(b)[i] == k.subrange(0, below(b).len() as int)[i]);
                        assert(below(b)[i] == b[i]);
                    }
                }
                assert(in_tree(b, a));
            }
        }
    }
}

/// A move there and back leads to the same place.
pub proof fn relocated_back(k: Seq<u8>, f: Seq<u8>, t: Seq<u8>)
    requires
        in_tree(k, f),
        f != t,
    ensures
        in_tree(relocated(k, f, t), t),
        relocated(relocated(k, f, t), t, f) == k,
        k != f ==> relocated(k, f, t) != t,
{
    if k != f {
        let x = after(k, below(f).len() as int);
        lemma_prefix_split(k, below(f));
        lemma_prefix_of_concat(below(t), x);
        assert((below(t) + x).len() > t.len());
    }
}

/// Nothing stands below `t`.
spec fn free_below(root: Nodes, t: Seq<u8>) -> bool {
    forall|k: Seq<u8>| #[trigger] root.contains_key(k) ==> !has_prefix(k, below(t))
}

/// Where `n` of the listed nodes have been moved.
spec fn part_moved(
    root: Nodes,
    m: Nodes,
    l: Seq<(Seq<u8>, NodeView)>,
    n: nat,
    f: Seq<u8>,
    t: Seq<u8>,
) -> bool {
    &&& m.dom().finite()
    &&& free_below(root, t) ==> m.dom().len() == root.dom().len()
    &&& forall|j: int|
        0 <= j < n ==> m.contains_key(moved_to((#[trigger] l[j]).0, f, t)) && m[moved_to(
            l[j].0,
            f,
            t,
        )] == l[j].1
    &&& forall|j: int| n <= j < l.len() ==> m.contains_key((#[trigger] l[j]).0) && m[l[j].0] == l[j].1
    &&& forall|k: Seq<u8>| #[trigger]
        m.contains_key(k) && has_prefix(k, below(t)) ==> (exists|j: int|
            0 <= j < n && moved_to((#[trigger] l[j]).0, f, t) == k) || (root.contains_key(k) && m[k]
            == root[k])
    &&& forall|k: Seq<u8>| #[trigger]
        root.contains_key(k) && has_prefix(k, below(t)) ==> m.contains_key(k)
    &&& forall|k: Seq<u8>| #[trigger]
        m.contains_key(k) && has_prefix(k, below(f)) ==> exists|j: int|
            n <= j < l.len() && (#[trigger] l[j]).0 == k
    &&& forall|k: Seq<u8>|
        !has_prefix(k, below(f)) && !has_prefix(k, below(t)) ==> (#[trigger] m.contains_key(k)
            == root.contains_key(k)) && (m.contains_key(k) ==> m[k] == root[k])
}

proof fn moves_part(
    root: Nodes,
    l: Seq<(Seq<u8>, NodeView)>,
    n: nat,
    f: Seq<u8>,
    t: Seq<u8>,
)
    requires
        root.dom().finite(),
        apart(f, t),
        is_listing(root, under(below(f)), l),
        n <= l.len(),
    ensures
        part_moved(root, move_first(root, l, n, f, t), l, n, f, t),
    decreases n,
{
    let next = move_first(root, l, n, f, t);
    if n == 0 {
        assert forall|j: int| 0 <= j < l.len() implies root.contains_key((#[trigger] l[j]).0)
            && root[l[j].0] == l[j].1 by {
            assert(root.contains_key(l[j].0) && root[l[j].0] == l[j].1);
        }
        assert forall|k: Seq<u8>| #[trigger]
            root.contains_key(k) && has_prefix(k, below(f)) implies exists|j: int|
            0 <= j < l.len() && (#[trigger] l[j]).0 == k by {
            lemma_under(below(f), k);
            assert(root.contains_key(k) && under(below(f))(k));
            let j = choose|j: int| 0 <= j < l.len() && #[trigger] l[j].0 == k;
            assert((l[j]).0 == k);
        }
    } else {
        let i = n - 1;
        moves_part(root, l, i as nat, f, t);
        let prev = move_first(root, l, i as nat, f, t);
        let p = l[i].0;
        let q = moved_to(p, f, t);
        assert(root.contains_key(p) && under(below(f))(p));
        lemma_under(below(f), p);
        assert(prev.contains_key(l[i].0) && prev[p] == l[i].1);
        assert(next == prev.remove(p).insert(q, prev[p]));
        assert(p != f) by {
            assert(p.len() >= below(f).len());
        }
        relocated_back(p, f, t);
        lemma_prefix_of_concat(below(t), after(p, below(f).len() as int));
        trees_apart(p, f, t);
        assert(in_tree(q, t));
        assert(p != q);
        // Each listed node has a place of its own to go to.
        assert forall|j: int| 0 <= j < l.len() && j != i implies (#[trigger] l[j]).0 != p && moved_to(
            l[j].0,
            f,
            t,
        ) != q && in_tree(l[j].0, f) && has_prefix(moved_to(l[j].0, f, t), below(t)) by {
            assert(root.contains_key(l[j].0) && under(below(f))(l[j].0));
            lemma_under(below(f), l[j].0);
            if j < i {
                assert(lex_lt(l[j].0, l[i].0));
            } else {
                assert(lex_lt(l[i].0, l[j].0));
            }
            lex_irreflexive(p);
            assert(l[j].0.len() >= below(f).len());
            relocated_back(l[j].0, f, t);
            lemma_prefix_of_concat(below(t), after(l[j].0, below(f).len() as int));
        }
        if free_below(root, t) && prev.contains_key(q) {
            let j = choose|j: int| 0 <= j < i && moved_to((#[trigger] l[j]).0, f, t) == q;
            assert(moved_to(l[j].0, f, t) != q);
        }
        assert forall|j: int| 0 <= j < n implies next.contains_key(
            moved_to((#[trigger] l[j]).0, f, t),
        ) && next[moved_to(l[j].0, f, t)] == l[j].1 by {
            if j < i {
                let r = moved_to(l[j].0, f, t);
                assert(prev.contains_key(r));
                if r == p {
                    assert(in_tree(r, t));
                }
            }
        }
        assert forall|j: int| n <= j < l.len() implies next.contains_key((#[trigger] l[j]).0)
            && next[l[j].0] == l[j].1 by {
            assert(prev.contains_key(l[j].0));
            trees_apart(l[j].0, f, t);
        }
        assert forall|k: Seq<u8>| #[trigger]
            next.contains_key(k) && has_prefix(k, below(t)) implies (exists|j: int|
            0 <= j < n && moved_to((#[trigger] l[j]).0, f, t) == k) || (root.contains_key(k)
            && next[k] == root[k]) by {
            if k == q {
                assert(moved_to((l[i]).0, f, t) == k);
            } else {
                assert(prev.contains_key(k));
                if exists|j: int| 0 <= j < i && moved_to((#[trigger] l[j]).0, f, t) == k {
                    let j = choose|j: int| 0 <= j < i && moved_to((#[trigger] l[j]).0, f, t) == k;
                    assert(moved_to((l[j]).0, f, t) == k);
                }
            }
        }
        assert forall|k: Seq<u8>| #[trigger]
            root.contains_key(k) && has_prefix(k, below(t)) implies next.contains_key(k) by {
            assert(prev.contains_key(k));
            if k == p {
                assert(in_tree(k, t));
            }
        }
        assert forall|k: Seq<u8>| #[trigger]
            next.contains_key(k) && has_prefix(k, below(f)) implies exists|j: int|
            n <= j < l.len() && (#[trigger] l[j]).0 == k by {
            trees_apart(k, f, t);
            assert(k != q);
            assert(prev.contains_key(k));
            let j = choose|j: int| i <= j < l.len() && (#[trigger] l[j]).0 == k;
            assert((l[j]).0 == k);
        }
        assert forall|k: Seq<u8>|
            !has_prefix(k, below(f)) && !has_prefix(k, below(t)) implies (
        #[trigger] next.contains_key(k) == root.contains_key(k)) && (next.contains_key(k)
            ==> next[k] == root[k]) by {
            assert(prev.contains_key(k) == root.contains_key(k));
        }
        assert(next.dom() =~= prev.dom().remove(p).insert(q));
    }
}

/// A rename between paths that are apart: the tree of `f` is gone from there;
/// at `t` stands what moved there, and between it what stood there before.
pub open spec fn tree_merged(nodes: Nodes, m: Nodes, f: Seq<u8>, t: Seq<u8>) -> bool {
    &&& forall|k: Seq<u8>| in_tree(k, f) ==> !#[trigger] m.contains_key(k)
    &&& forall|k: Seq<u8>|
        in_tree(k, t) ==> (#[trigger] m.contains_key(k) == (nodes.contains_key(k)
            || nodes.contains_key(relocated(k, t, f))))
    &&& forall|k: Seq<u8>|
        in_tree(k, t) && #[trigger] m.contains_key(k) ==> m[k] == (if nodes.contains_key(
            relocated(k, t, f),
        ) {
            nodes[relocated(k, t, f)]
        } else {
            nodes[k]
        })
    &&& forall|k: Seq<u8>|
        !in_tree(k, f) && !in_tree(k, t) ==> (#[trigger] m.contains_key(k) == nodes.contains_key(
            k,
        )) && (m.contains_key(k) ==> m[k] == nodes[k])
}

pub proof fn rename_merges(nodes: Nodes, f: Seq<u8>, t: Seq<u8>)
    requires
        nodes.dom().finite(),
        apart(f, t),
    ensures
        tree_merged(nodes, rename(nodes, f, t), f, t),
{
    let root = rename_root(nodes, f, t);
    let p = under(below(f));
    assert(root.dom().finite()) by {
        if nodes.contains_key(f) {
            assert(root.dom() =~= nodes.dom().remove(f).insert(t));
        }
    }
    listing_exists(root, p);
    let l = listing(root, p);
    moves_part(root, l, l.len(), f, t);
    let m = rename(nodes, f, t);
    assert(!has_prefix(f, below(f)) && !has_prefix(t, below(t)));
    assert(in_tree(f, f) && in_tree(t, t));
    assert(f != t);
    trees_apart(f, f, t);
    assert(!has_prefix(f, below(t)));
    trees_apart(t, t, f);
    assert(!has_prefix(t, below(f)));
    assert(m.contains_key(f) == root.contains_key(f));
    assert(m.contains_key(t) == root.contains_key(t));
    assert forall|k: Seq<u8>| in_tree(k, f) implies !#[trigger] m.contains_key(k) by {
        if m.contains_key(k) && has_prefix(k, below(f)) {
            let j = choose|j: int| l.len() <= j < l.len() && (#[trigger] l[j]).0 == k;
            assert(false);
        }
    }
    assert forall|k: Seq<u8>| in_tree(k, t) implies (#[trigger] m.contains_key(k) == (
    nodes.contains_key(k) || nodes.contains_key(relocated(k, t, f)))) && (m.contains_key(k) ==> m[k]
        == (if nodes.contains_key(relocated(k, t, f)) {
        nodes[relocated(k, t, f)]
    } else {
        nodes[k]
    })) by {
        let b = relocated(k, t, f);
        if k != t {
            relocated_back(k, t, f);
            lemma_under(below(f), b);
            trees_apart(b, f, t);
            trees_apart(k, t, f);
            assert(root.contains_key(k) == nodes.contains_key(k));
            assert(root.contains_key(b) == nodes.contains_key(b));
            if nodes.contains_key(b) {
                assert(root.contains_key(b) && p(b));
                let j = choose|j: int| 0 <= j < l.len() && #[trigger] l[j].0 == b;
                assert(m.contains_key(moved_to((l[j]).0, f, t)));
                assert(root[l[j].0] == l[j].1);
            } else if m.contains_key(k) {
                if exists|j: int| 0 <= j < l.len() && moved_to((#[trigger] l[j]).0, f, t) == k {
                    let j = choose|j: int|
                        0 <= j < l.len() && moved_to((#[trigger] l[j]).0, f, t) == k;
                    assert(root.contains_key(l[j].0) && p(l[j].0));
                    lemma_under(below(f), l[j].0);
                    assert(l[j].0.len() >= below(f).len());
                    relocated_back(l[j].0, f, t);
                    assert(l[j].0 == b);
                }
            }
        }
    }
    assert forall|k: Seq<u8>| !in_tree(k, f) && !in_tree(k, t) implies (#[trigger] m.contains_key(k)
        == nodes.contains_key(k)) && (m.contains_key(k) ==> m[k] == nodes[k]) by {
        assert(root.contains_key(k) == nodes.contains_key(k));
    }
}

/// A rename onto a free place moves the tree as a whole, and keeps the number
/// of nodes.
pub proof fn rename_moves_tree(nodes: Nodes, f: Seq<u8>, t: Seq<u8>)
    requires
        nodes.dom().finite(),
        apart(f, t),
        vacant(nodes, t),
    ensures
        tree_moved(nodes, rename(nodes, f, t), f, t),
        rename(nodes, f, t).dom().len() == nodes.dom().len(),
{
    let root = rename_root(nodes, f, t);
    let p = under(below(f));
    assert(root.dom().finite() && root.dom().len() == nodes.dom().len()) by {
        if nodes.contains_key(f) {
            assert(root.dom() =~= nodes.dom().remove(f).insert(t));
            assert(in_tree(t, t));
            assert(!nodes.contains_key(t));
        }
    }
    assert forall|k: Seq<u8>| #[trigger] root.contains_key(k) implies !has_prefix(
        k,
        below(t),
    ) by {
        if k == t {
            assert(t.len() < below(t).len());
        } else {
            assert(nodes.contains_key(k));
        }
    }
    listing_exists(root, p);
    let l = listing(root, p);
    moves_part(root, l, l.len(), f, t);
    let m = rename(nodes, f, t);
    assert(!has_prefix(f, below(f)) && !has_prefix(t, below(t)));
    assert(in_tree(f, f) && in_tree(t, t));
    assert(f != t);
    assert(m.contains_key(f) == root.contains_key(f));
    assert(m.contains_key(t) == root.contains_key(t));
    assert(!nodes.contains_key(t));
    assert forall|k: Seq<u8>| #[trigger] m.contains_key(k) implies !in_tree(k, f) by {
        if has_prefix(k, below(f)) {
            let j = choose|j: int| l.len() <= j < l.len() && (#[trigger] l[j]).0 == k;
            assert(false);
        }
    }
    assert forall|k: Seq<u8>| in_tree(k, t) implies (#[trigger] m.contains_key(k)
        == nodes.contains_key(relocated(k, t, f))) && (m.contains_key(k) ==> m[k]
        == nodes[relocated(k, t, f)]) by {
        if k != t {
            let b = relocated(k, t, f);
            relocated_back(k, t, f);
            lemma_under(below(f), b);
            trees_apart(b, f, t);
            if m.contains_key(k) {
                let j = choose|j: int| 0 <= j < l.len() && moved_to((#[trigger] l[j]).0, f, t) == k;
                assert(root.contains_key(l[j].0) && p(l[j].0));
                lemma_under(below(f), l[j].0);
                assert(l[j].0.len() >= below(f).len());
                relocated_back(l[j].0, f, t);
                assert(l[j].0 == b);
            }
            if nodes.contains_key(b) {
                assert(root.contains_key(b) && p(b));
                let j = choose|j: int| 0 <= j < l.len() && #[trigger] l[j].0 == b;
                assert(m.contains_key(moved_to((l[j]).0, f, t)));
            }
        }
    }
    assert forall|k: Seq<u8>| !in_tree(k, f) && !in_tree(k, t) implies (#[trigger] m.contains_key(k)
        == nodes.contains_key(k)) && (m.contains_key(k) ==> m[k] == nodes[k]) by {
        assert(root.contains_key(k) == nodes.contains_key(k));
    }
}

/// A rename onto a free place, and back, restores the image. In between,
/// nothing stands at the old place, and no node is lost or gained.
pub proof fn rename_there_and_back(nodes: Nodes, f: Seq<u8>, t: Seq<u8>, now: i64, later: i64)
    requires
        nodes.dom().finite(),
        apart(f, t),
        vacant(nodes, t),
    ensures
        ({
            let there = apply_delta(nodes, DeltaView::Rename { from: f, to: t }, now);
            &&& vacant(there, f)
            &&& there.dom().len() == nodes.dom().len()
            &&& apply_delta(there, DeltaView::Rename { from: t, to: f }, later) == nodes
        }),
{
    let there = rename(nodes, f, t);
    rename_moves_tree(nodes, f, t);
    apply_finite(nodes, DeltaView::Rename { from: f, to: t }, now);
    rename_moves_tree(there, t, f);
    let back = rename(there, t, f);
    assert forall|k: Seq<u8>| #![trigger back.dom().contains(k)] #![trigger nodes.dom().contains(k)]
        back.dom().contains(k) == nodes.dom().contains(k) && (nodes.dom().contains(k) ==> back[k]
            == nodes[k]) by {
        if in_tree(k, f) {
            relocated_back(k, f, t);
            let r = relocated(k, f, t);
            assert(back.contains_key(k) == there.contains_key(r));
            assert(there.contains_key(r) == nodes.contains_key(k));
        } else if in_tree(k, t) {
            assert(!nodes.contains_key(k));
            assert(!back.contains_key(k));
        } else {
            assert(back.contains_key(k) == there.contains_key(k));
            assert(there.contains_key(k) == nodes.contains_key(k));
        }
    }
    assert(back =~= nodes);
}

} // verus!

//! The image of a volume and what a mount makes of its stream.
use vstd::prelude::*;

use crate::fuse::checkpoint::{apply_finite, replay, replay_finite, subject};
use crate::fuse::commit::{
    bare_write, block_write, blockified, fate, full_write, inline_bytes, is_big, marked, replaces,
    stage, staged, swept, Chunked, StageView,
};
use crate::fuse::moves::{apart, relocated, relocated_back, rename_merges, trees_apart};
use crate::fuse::replica::{replay_agrees, replay_concat};
use crate::fuse::store::{blocks_of, file_bytes, marks_of, merge_all};
use crate::fuse::{
    apply_delta, below, in_tree, move_first, moved_to, rename, rename_root, total_len, BlockView,
    Changes, ContentView, DeltaView, MetaView, NodeView, Nodes,
};
use crate::order::{lex_irreflexive, lex_lt};
use crate::table::{
    any_key, is_listing, lemma_under, listing, listing_exists, listing_unique, under,
};

verus! {

// ---- runs -----------------------------------------------------------------

/// The state after a run of deltas, nodes dated `now` as they are created.
pub open spec fn run(nodes: Nodes, ds: Seq<DeltaView>, now: i64) -> Nodes
    decreases ds.len(),
{
    if ds.len() == 0 {
        nodes
    } else {
        apply_delta(run(nodes, ds.drop_last(), now), ds.last(), now)
    }
}

/// A run in two parts.
proof fn run_concat(nodes: Nodes, a: Seq<DeltaView>, b: Seq<DeltaView>, now: i64)
    ensures
        run(nodes, a + b, now) == run(run(nodes, a, now), b, now),
    decreases b.len(),
{
    if b.len() == 0 {
        assert(a + b =~= a);
    } else {
        run_concat(nodes, a, b.drop_last(), now);
        assert((a + b).drop_last() =~= a + b.drop_last());
        assert((a + b).last() == b.last());
    }
}

proof fn run_one(nodes: Nodes, d: DeltaView, now: i64)
    ensures
        run(nodes, seq![d], now) == apply_delta(nodes, d, now),
{
    reveal_with_fuel(run, 2);
    assert(seq![d].drop_last() =~= Seq::<DeltaView>::empty());
}

// ---- where files end up ---------------------------------------------------

/// Two paths do not end up in one place.
proof fn fate_injective(ds: Seq<DeltaView>, i: int, a: Seq<u8>, b: Seq<u8>)
    requires
        0 <= i <= ds.len(),
        fate(ds, i, a) is Some,
        fate(ds, i, a) == fate(ds, i, b),
    ensures
        a == b,
    decreases ds.len() - i,
{
    if i < ds.len() {
        match ds[i] {
            DeltaView::Rename { from, to } => {
                let x = if in_tree(a, from) {
                    relocated(a, from, to)
                } else {
                    a
                };
                let y = if in_tree(b, from) {
                    relocated(b, from, to)
                } else {
                    b
                };
                fate_injective(ds, i + 1, x, y);
                if in_tree(a, from) {
                    assert(in_tree(from, from));
                    trees_apart(from, from, to);
                    relocated_back(a, from, to);
                }
                if in_tree(b, from) {
                    assert(in_tree(from, from));
                    trees_apart(from, from, to);
                    relocated_back(b, from, to);
                }
            },
            _ => {
                fate_injective(ds, i + 1, a, b);
            },
        }
    }
}

/// What stands at `k` after `i` deltas ends up covered by its final content.
spec fn covered(ds: Seq<DeltaView>, i: int, m: Chunked, k: Seq<u8>) -> bool {
    fate(ds, i, k) is Some && m.contains_key(fate(ds, i, k)->0)
}

/// At `k` the committed run holds the final content as blocks, and the
/// metadata that the buffered run has there.
spec fn ahead(u: Nodes, s: Nodes, k: Seq<u8>, blocks: Seq<BlockView>) -> bool {
    &&& s[k] is File
    &&& u[k] == (NodeView::File {
        content: ContentView::Blocks { blocks, size: total_len(blocks) as u64 },
        meta: s[k].meta(),
    })
}

/// The committed run has the file that ends up at `q`.
spec fn holds(u: Nodes, ds: Seq<DeltaView>, i: int, q: Seq<u8>) -> bool {
    exists|k: Seq<u8>| #[trigger] u.contains_key(k) && fate(ds, i, k) == Some(q)
}

/// The committed run `u` and the buffered run `s` after `i` deltas.
spec fn in_step(u: Nodes, s: Nodes, ds: Seq<DeltaView>, i: int, m: Chunked) -> bool {
    &&& forall|k: Seq<u8>| #[trigger] u.contains_key(k) == s.contains_key(k)
    &&& forall|k: Seq<u8>| #[trigger]
        u.contains_key(k) ==> if covered(ds, i, m, k) {
            ahead(u, s, k, m[fate(ds, i, k)->0])
        } else {
            u[k] == s[k]
        }
    &&& forall|q: Seq<u8>| #[trigger] m.contains_key(q) ==> holds(u, ds, i, q)
}

/// Where a file is covered, the committed run has it.
proof fn covered_holds(u: Nodes, s: Nodes, ds: Seq<DeltaView>, i: int, m: Chunked, k: Seq<u8>)
    requires
        0 <= i <= ds.len(),
        in_step(u, s, ds, i, m),
        covered(ds, i, m, k),
    ensures
        u.contains_key(k),
{
    let q = fate(ds, i, k)->0;
    assert(holds(u, ds, i, q));
    let x = choose|x: Seq<u8>| #[trigger] u.contains_key(x) && fate(ds, i, x) == Some(q);
    fate_injective(ds, i, k, x);
}

/// What a delta at its turn leaves covered after it was covered before it.
proof fn covered_later(
    u: Nodes,
    s: Nodes,
    ds: Seq<DeltaView>,
    i: int,
    m: Chunked,
    k: Seq<u8>,
) -> (x: Seq<u8>)
    requires
        0 <= i < ds.len(),
        in_step(u, s, ds, i, m),
        covered(ds, i + 1, m, k),
    ensures
        u.contains_key(x),
        covered(ds, i, m, x),
        fate(ds, i, x) == fate(ds, i + 1, k),
        match ds[i] {
            DeltaView::Rename { from, to } => if in_tree(x, from) {
                apart(from, to) && k == relocated(x, from, to)
            } else {
                k == x && !in_tree(x, to)
            },
            DeltaView::Remove { path } => k == x && !in_tree(x, path),
            DeltaView::Symlink { path, .. } => k == x && x != path,
            _ => k == x,
        },
{
    let q = fate(ds, i + 1, k)->0;
    assert(holds(u, ds, i, q));
    let x = choose|x: Seq<u8>| #[trigger] u.contains_key(x) && fate(ds, i, x) == Some(q);
    match ds[i] {
        DeltaView::Rename { from, to } => {
            if in_tree(x, from) {
                fate_injective(ds, i + 1, k, relocated(x, from, to));
            } else {
                fate_injective(ds, i + 1, k, x);
            }
        },
        _ => {
            fate_injective(ds, i + 1, k, x);
        },
    }
    x
}

/// The write of a file as blocks leaves it as blocks, with the metadata that
/// the write itself leaves.
proof fn full_write_lands(
    u: Nodes,
    s: Nodes,
    d: DeltaView,
    path: Seq<u8>,
    blocks: Seq<BlockView>,
    now: i64,
)
    requires
        d is Write,
        path == d->Write_path,
        u.contains_key(path) == s.contains_key(path),
        u.contains_key(path) ==> u[path] == s[path],
    ensures
        ({
            let u1 = run(u, full_write(path, replaces(s, d), blocks), now);
            let s1 = apply_delta(s, d, now);
            &&& u1 == u.insert(path, u1[path])
            &&& ahead(u1, s1, path, blocks)
        }),
{
    let w = block_write(path, blocks);
    if replaces(s, d) {
        let b = bare_write(path);
        let ds = seq![b, w];
        assert(ds.drop_last() =~= seq![b]);
        let mid = apply_delta(u, b, now);
        run_one(u, b, now);
        assert(run(u, ds, now) == apply_delta(mid, w, now));
        assert(apply_delta(mid, w, now) =~= u.insert(path, apply_delta(mid, w, now)[path]));
    } else {
        run_one(u, w, now);
    }
}

/// A write keeps the runs in step: dropped where the file is covered, as it is
/// or in full where it is not.
proof fn write_in_step(
    u: Nodes,
    s: Nodes,
    ds: Seq<DeltaView>,
    i: int,
    m: Chunked,
    blocks: Seq<BlockView>,
    now: i64,
)
    requires
        0 <= i < ds.len(),
        ds[i] is Write,
        in_step(u, s, ds, i, m),
    ensures
        ({
            let path = ds[i]->Write_path;
            let f = fate(ds, i + 1, path);
            let s1 = apply_delta(s, ds[i], now);
            if f is Some && m.contains_key(f->0) {
                in_step(u, s1, ds, i + 1, m)
            } else {
                &&& f is Some ==> in_step(
                    run(u, full_write(path, replaces(s, ds[i]), blocks), now),
                    s1,
                    ds,
                    i + 1,
                    m.insert(f->0, blocks),
                )
                &&& in_step(apply_delta(u, ds[i], now), s1, ds, i + 1, m)
            }
        }),
{
    let path = ds[i]->Write_path;
    let f = fate(ds, i + 1, path);
    let s1 = apply_delta(s, ds[i], now);
    assert(forall|k: Seq<u8>| #[trigger] fate(ds, i, k) == fate(ds, i + 1, k));
    assert forall|q: Seq<u8>, x: Nodes| #[trigger]
        holds(x, ds, i + 1, q) == holds(x, ds, i, q) by {
        if holds(x, ds, i, q) {
            let k = choose|k: Seq<u8>| #[trigger] x.contains_key(k) && fate(ds, i, k) == Some(q);
            assert(x.contains_key(k) && fate(ds, i + 1, k) == Some(q));
        }
        if holds(x, ds, i + 1, q) {
            let k = choose|k: Seq<u8>| #[trigger]
                x.contains_key(k) && fate(ds, i + 1, k) == Some(q);
            assert(x.contains_key(k) && fate(ds, i, k) == Some(q));
        }
    }
    if f is Some && m.contains_key(f->0) {
        assert(covered(ds, i, m, path));
        covered_holds(u, s, ds, i, m, path);
        assert forall|k: Seq<u8>| #[trigger] u.contains_key(k) implies if covered(ds, i + 1, m, k) {
            ahead(u, s1, k, m[fate(ds, i + 1, k)->0])
        } else {
            u[k] == s1[k]
        } by {
            assert(covered(ds, i + 1, m, k) == covered(ds, i, m, k));
        }
    } else {
        assert(!covered(ds, i, m, path));
        assert(u.contains_key(path) == s.contains_key(path));
        let u1 = apply_delta(u, ds[i], now);
        assert forall|k: Seq<u8>| #[trigger] u1.contains_key(k) implies if covered(
            ds,
            i + 1,
            m,
            k,
        ) {
            ahead(u1, s1, k, m[fate(ds, i + 1, k)->0])
        } else {
            u1[k] == s1[k]
        } by {
            assert(covered(ds, i + 1, m, k) == covered(ds, i, m, k));
            if k != path {
                assert(u.contains_key(k));
            }
        }
        assert forall|q: Seq<u8>| #[trigger] m.contains_key(q) implies holds(u1, ds, i + 1, q) by {
            held_on(u, u1, ds, i, q);
        }
        assert(in_step(u1, s1, ds, i + 1, m));
        if f is Some {
            let q0 = f->0;
            let u2 = run(u, full_write(path, replaces(s, ds[i]), blocks), now);
            let m2 = m.insert(q0, blocks);
            full_write_lands(u, s, ds[i], path, blocks, now);
            assert forall|k: Seq<u8>| #[trigger] u2.contains_key(k) implies if covered(
                ds,
                i + 1,
                m2,
                k,
            ) {
                ahead(u2, s1, k, m2[fate(ds, i + 1, k)->0])
            } else {
                u2[k] == s1[k]
            } by {
                if k != path {
                    assert(u.contains_key(k));
                    if fate(ds, i + 1, k) == f {
                        fate_injective(ds, i + 1, k, path);
                    }
                    assert(covered(ds, i + 1, m2, k) == covered(ds, i, m, k));
                }
            }
            assert forall|q: Seq<u8>| #[trigger] m2.contains_key(q) implies holds(
                u2,
                ds,
                i + 1,
                q,
            ) by {
                if q == q0 {
                    assert(u2.contains_key(path) && fate(ds, i + 1, path) == Some(q));
                } else {
                    held_on(u, u2, ds, i, q);
                }
            }
            assert forall|k: Seq<u8>| #[trigger] u2.contains_key(k) == s1.contains_key(k) by {
                assert(u.contains_key(k) == s.contains_key(k));
            }
        }
    }
}

/// A run that has at least what it had still has the file.
proof fn held_on(u: Nodes, u1: Nodes, ds: Seq<DeltaView>, i: int, q: Seq<u8>)
    requires
        0 <= i < ds.len(),
        holds(u, ds, i, q),
        forall|k: Seq<u8>| #[trigger] u.contains_key(k) ==> u1.contains_key(k),
        forall|k: Seq<u8>| #[trigger] fate(ds, i, k) == fate(ds, i + 1, k),
    ensures
        holds(u1, ds, i + 1, q),
{
    let k = choose|k: Seq<u8>| #[trigger] u.contains_key(k) && fate(ds, i, k) == Some(q);
    assert(u1.contains_key(k) && fate(ds, i + 1, k) == Some(q));
}

/// Any other delta keeps the runs in step as it is.
proof fn other_in_step(u: Nodes, s: Nodes, ds: Seq<DeltaView>, i: int, m: Chunked, now: i64)
    requires
        0 <= i < ds.len(),
        !(ds[i] is Write),
        in_step(u, s, ds, i, m),
        u.dom().finite(),
        s.dom().finite(),
    ensures
        in_step(apply_delta(u, ds[i], now), apply_delta(s, ds[i], now), ds, i + 1, m),
{
    let u1 = apply_delta(u, ds[i], now);
    let s1 = apply_delta(s, ds[i], now);
    match ds[i] {
        DeltaView::Rename { from, to } => {
            if apart(from, to) {
                rename_apart_in_step(u, s, ds, i, m, from, to);
            } else {
                rename_mixed_in_step(u, s, ds, i, m, from, to);
            }
        },
        DeltaView::Remove { path } => {
            assert forall|k: Seq<u8>| #[trigger] u1.contains_key(k) == s1.contains_key(k) by {
                assert(u.contains_key(k) == s.contains_key(k));
            }
            assert forall|k: Seq<u8>| #[trigger] u1.contains_key(k) implies if covered(
                ds,
                i + 1,
                m,
                k,
            ) {
                ahead(u1, s1, k, m[fate(ds, i + 1, k)->0])
            } else {
                u1[k] == s1[k]
            } by {
                assert(u.contains_key(k));
                assert(fate(ds, i, k) == fate(ds, i + 1, k));
                assert(covered(ds, i, m, k) == covered(ds, i + 1, m, k));
            }
            assert forall|q: Seq<u8>| #[trigger] m.contains_key(q) implies holds(
                u1,
                ds,
                i + 1,
                q,
            ) by {
                assert(holds(u, ds, i, q));
                let k = choose|k: Seq<u8>| #[trigger]
                    u.contains_key(k) && fate(ds, i, k) == Some(q);
                assert(u1.contains_key(k) && fate(ds, i + 1, k) == Some(q));
            }
        },
        _ => {
            let path = subject(ds[i]);
            assert(u.contains_key(path) == s.contains_key(path));
            assert forall|k: Seq<u8>| #[trigger] u1.contains_key(k) == s1.contains_key(k) by {
                assert(u.contains_key(k) == s.contains_key(k));
            }
            assert forall|k: Seq<u8>| #[trigger] u1.contains_key(k) implies if covered(
                ds,
                i + 1,
                m,
                k,
            ) {
                ahead(u1, s1, k, m[fate(ds, i + 1, k)->0])
            } else {
                u1[k] == s1[k]
            } by {
                if covered(ds, i + 1, m, k) {
                    let x = covered_later(u, s, ds, i, m, k);
                    assert(x == k);
                    assert(ahead(u, s, k, m[fate(ds, i, k)->0]));
                } else {
                    assert(ds[i] is Symlink && k == path || !covered(ds, i, m, k));
                    if u.contains_key(k) && k != path {
                        assert(u[k] == s[k]);
                    }
                }
            }
            assert forall|q: Seq<u8>| #[trigger] m.contains_key(q) implies holds(
                u1,
                ds,
                i + 1,
                q,
            ) by {
                assert(holds(u, ds, i, q));
                let k = choose|k: Seq<u8>| #[trigger]
                    u.contains_key(k) && fate(ds, i, k) == Some(q);
                assert(u1.contains_key(k) && fate(ds, i + 1, k) == Some(q));
            }
        },
    }
}

proof fn rename_apart_in_step(
    u: Nodes,
    s: Nodes,
    ds: Seq<DeltaView>,
    i: int,
    m: Chunked,
    from: Seq<u8>,
    to: Seq<u8>,
)
    requires
        0 <= i < ds.len(),
        ds[i] == (DeltaView::Rename { from, to }),
        apart(from, to),
        in_step(u, s, ds, i, m),
        u.dom().finite(),
        s.dom().finite(),
    ensures
        in_step(rename(u, from, to), rename(s, from, to), ds, i + 1, m),
{
    let u1 = rename(u, from, to);
    let s1 = rename(s, from, to);
    rename_merges(u, from, to);
    rename_merges(s, from, to);
    assert(in_tree(from, from) && in_tree(to, to));
    trees_apart(from, from, to);
    assert(from != to);
    assert forall|k: Seq<u8>| #[trigger] u1.contains_key(k) == s1.contains_key(k) by {
        assert(u.contains_key(k) == s.contains_key(k));
        let b = relocated(k, to, from);
        assert(u.contains_key(b) == s.contains_key(b));
        if in_tree(k, from) {
            assert(!s1.contains_key(k));
        }
    }
    assert forall|k: Seq<u8>| #[trigger] u1.contains_key(k) implies if covered(ds, i + 1, m, k) {
        ahead(u1, s1, k, m[fate(ds, i + 1, k)->0])
    } else {
        u1[k] == s1[k]
    } by {
        assert(s1.contains_key(k));
        if in_tree(k, to) {
            let b = relocated(k, to, from);
            relocated_back(k, to, from);
            trees_apart(b, from, to);
            assert(u.contains_key(b) == s.contains_key(b));
            assert(u.contains_key(k) == s.contains_key(k));
            assert(relocated(b, from, to) == k);
            assert(fate(ds, i, b) == fate(ds, i + 1, k));
            if u.contains_key(b) {
                assert(covered(ds, i, m, b) == covered(ds, i + 1, m, k));
            } else {
                trees_apart(k, to, from);
                assert(fate(ds, i, k) is None);
                if covered(ds, i + 1, m, k) {
                    let x = covered_later(u, s, ds, i, m, k);
                    if in_tree(x, from) {
                        relocated_back(x, from, to);
                        assert(x == b);
                    }
                }
            }
        } else {
            assert(!in_tree(k, from));
            assert(u.contains_key(k));
            assert(fate(ds, i, k) == fate(ds, i + 1, k));
            assert(covered(ds, i, m, k) == covered(ds, i + 1, m, k));
        }
    }
    assert forall|q: Seq<u8>| #[trigger] m.contains_key(q) implies holds(u1, ds, i + 1, q) by {
        assert(holds(u, ds, i, q));
        let k = choose|k: Seq<u8>| #[trigger] u.contains_key(k) && fate(ds, i, k) == Some(q);
        if in_tree(k, from) {
            let t = relocated(k, from, to);
            relocated_back(k, from, to);
            assert(u1.contains_key(t) && fate(ds, i + 1, t) == Some(q));
        } else {
            assert(u1.contains_key(k) && fate(ds, i + 1, k) == Some(q));
        }
    }
}

proof fn rename_mixed_in_step(
    u: Nodes,
    s: Nodes,
    ds: Seq<DeltaView>,
    i: int,
    m: Chunked,
    from: Seq<u8>,
    to: Seq<u8>,
)
    requires
        0 <= i < ds.len(),
        ds[i] == (DeltaView::Rename { from, to }),
        !apart(from, to),
        in_step(u, s, ds, i, m),
        u.dom().finite(),
        s.dom().finite(),
    ensures
        in_step(rename(u, from, to), rename(s, from, to), ds, i + 1, m),
{
    let p = under(below(from));
    let ur = rename_root(u, from, to);
    let sr = rename_root(s, from, to);
    assert(u.contains_key(from) == s.contains_key(from));
    // Nothing in either tree is covered.
    assert forall|k: Seq<u8>| in_tree(k, from) || in_tree(k, to) implies (#[trigger] u.contains_key(
        k,
    ) == s.contains_key(k)) && (u.contains_key(k) ==> u[k] == s[k]) by {
        assert(fate(ds, i, k) is None);
        assert(!covered(ds, i, m, k));
    }
    listing_exists(sr, p);
    let l = listing(sr, p);
    assert(is_listing(ur, p, l)) by {
        assert forall|k: Seq<u8>| p(k) implies (ur.contains_key(k) == sr.contains_key(k)) && (
        sr.contains_key(k) ==> ur[k] == sr[k]) by {
            lemma_under(below(from), k);
            assert(in_tree(k, from));
            assert(u.contains_key(k) == s.contains_key(k));
            assert(u.contains_key(from) ==> u[from] == s[from]) by {
                assert(in_tree(from, from));
            }
        }
        assert forall|j: int| 0 <= j < l.len() implies ur.contains_key(#[trigger] l[j].0) && p(
            l[j].0,
        ) && ur[l[j].0] == l[j].1 by {
            assert(sr.contains_key(l[j].0) && p(l[j].0));
        }
        assert forall|k: Seq<u8>| #[trigger] ur.contains_key(k) && p(k) implies exists|j: int|
            0 <= j < l.len() && #[trigger] l[j].0 == k by {
            assert(sr.contains_key(k) && p(k));
        }
    }
    listing_unique(ur, p, l);
    assert(in_tree(from, from) && in_tree(to, to));
    assert(together(ur, sr, u, s, from, to)) by {
        assert forall|k: Seq<u8>| !in_tree(k, from) && !in_tree(k, to) implies (
        #[trigger] ur.contains_key(k) == u.contains_key(k)) && (sr.contains_key(k)
            == s.contains_key(k)) && (u.contains_key(k) ==> ur[k] == u[k]) && (s.contains_key(k)
            ==> sr[k] == s[k]) by {}
        assert forall|k: Seq<u8>| #[trigger] ur.contains_key(k) == sr.contains_key(k) by {
            assert(u.contains_key(k) == s.contains_key(k));
        }
        assert forall|k: Seq<u8>| #[trigger] ur.contains_key(k) implies ur[k] == sr[k] || (
        u.contains_key(k) && ur[k] == u[k] && sr[k] == s[k] && !in_tree(k, from)) by {
            assert(u.contains_key(k) == s.contains_key(k));
            if in_tree(k, from) {
                assert(u.contains_key(k) ==> u[k] == s[k]);
            }
        }
    }
    moves_together(ur, sr, u, s, l, l.len(), from, to);
    let u1 = rename(u, from, to);
    let s1 = rename(s, from, to);
    assert forall|k: Seq<u8>| #[trigger] u1.contains_key(k) implies if covered(ds, i + 1, m, k) {
        ahead(u1, s1, k, m[fate(ds, i + 1, k)->0])
    } else {
        u1[k] == s1[k]
    } by {
        if covered(ds, i + 1, m, k) {
            let x = covered_later(u, s, ds, i, m, k);
            assert(x == k && !in_tree(k, from) && !in_tree(k, to));
            assert(u1.contains_key(k) == u.contains_key(k));
            assert(s.contains_key(k));
            assert(ahead(u, s, k, m[fate(ds, i, k)->0]));
        } else if u1[k] != s1[k] {
            assert(u.contains_key(k) && u1[k] == u[k] && s1[k] == s[k]);
            assert(!in_tree(k, from));
            if in_tree(k, to) {
                assert(u[k] == s[k]);
            } else {
                assert(fate(ds, i, k) == fate(ds, i + 1, k));
                assert(covered(ds, i, m, k) == covered(ds, i + 1, m, k));
            }
        }
    }
    assert forall|q: Seq<u8>| #[trigger] m.contains_key(q) implies holds(u1, ds, i + 1, q) by {
        assert(holds(u, ds, i, q));
        let k = choose|k: Seq<u8>| #[trigger] u.contains_key(k) && fate(ds, i, k) == Some(q);
        assert(!in_tree(k, from) && !in_tree(k, to));
        assert(u1.contains_key(k) == u.contains_key(k));
        assert(u1.contains_key(k) && fate(ds, i + 1, k) == Some(q));
    }
}

/// Two runs through one rename: they differ only where they differed before,
/// outside what moves.
spec fn together(u1: Nodes, s1: Nodes, u: Nodes, s: Nodes, from: Seq<u8>, to: Seq<u8>) -> bool {
    &&& forall|k: Seq<u8>| #[trigger] u1.contains_key(k) == s1.contains_key(k)
    &&& forall|k: Seq<u8>| #[trigger]
        u1.contains_key(k) ==> u1[k] == s1[k] || (u.contains_key(k) && u1[k] == u[k] && s1[k]
            == s[k] && !in_tree(k, from))
    &&& forall|k: Seq<u8>|
        !in_tree(k, from) && !in_tree(k, to) ==> (#[trigger] u1.contains_key(k) == u.contains_key(
            k,
        )) && (s1.contains_key(k) == s.contains_key(k)) && (u.contains_key(k) ==> u1[k] == u[k])
            && (s.contains_key(k) ==> s1[k] == s[k])
}

proof fn moves_together(
    ur: Nodes,
    sr: Nodes,
    u: Nodes,
    s: Nodes,
    l: Seq<(Seq<u8>, NodeView)>,
    n: nat,
    from: Seq<u8>,
    to: Seq<u8>,
)
    requires
        together(ur, sr, u, s, from, to),
        is_listing(ur, under(below(from)), l),
        is_listing(sr, under(below(from)), l),
        n <= l.len(),
    ensures
        together(
            move_first(ur, l, n, from, to),
            move_first(sr, l, n, from, to),
            u,
            s,
            from,
            to,
        ),
        forall|j: int|
            n <= j < l.len() ==> move_first(ur, l, n, from, to).contains_key((#[trigger] l[j]).0),
    decreases n,
{
    if n == 0 {
        assert forall|j: int| 0 <= j < l.len() implies ur.contains_key((#[trigger] l[j]).0) by {
            assert(ur.contains_key(l[j].0));
        }
    } else {
        let m = (n - 1) as nat;
        moves_together(ur, sr, u, s, l, m, from, to);
        let um = move_first(ur, l, m, from, to);
        let sm = move_first(sr, l, m, from, to);
        let p = l[m as int].0;
        let q = moved_to(p, from, to);
        assert(ur.contains_key(p) && under(below(from))(p));
        lemma_under(below(from), p);
        assert(in_tree(p, from));
        assert(um.contains_key(p));
        assert(um[p] == sm[p]);
        crate::order::lemma_prefix_of_concat(
            below(to),
            crate::order::after(p, below(from).len() as int),
        );
        assert(in_tree(q, to));
        let u1 = move_first(ur, l, n, from, to);
        let s1 = move_first(sr, l, n, from, to);
        assert(u1 == um.remove(p).insert(q, um[p]));
        assert(s1 == sm.remove(p).insert(q, sm[p]));
        assert forall|k: Seq<u8>| #[trigger] u1.contains_key(k) == s1.contains_key(k) by {
            assert(um.contains_key(k) == sm.contains_key(k));
        }
        assert forall|k: Seq<u8>| #[trigger] u1.contains_key(k) implies u1[k] == s1[k] || (
        u.contains_key(k) && u1[k] == u[k] && s1[k] == s[k] && !in_tree(k, from)) by {
            if k != q {
                assert(um.contains_key(k));
            }
        }
        assert forall|k: Seq<u8>| !in_tree(k, from) && !in_tree(k, to) implies (
        #[trigger] u1.contains_key(k) == u.contains_key(k)) && (s1.contains_key(k)
            == s.contains_key(k)) && (u.contains_key(k) ==> u1[k] == u[k]) && (s.contains_key(k)
            ==> s1[k] == s[k]) by {
            assert(um.contains_key(k) == u.contains_key(k));
        }
        assert forall|j: int| n <= j < l.len() implies u1.contains_key((#[trigger] l[j]).0) by {
            assert(um.contains_key(l[j].0));
            assert(lex_lt(l[m as int].0, l[j].0));
            lex_irreflexive(p);
        }
    }
}

proof fn run_finite(base: Nodes, ds: Seq<DeltaView>, now: i64)
    requires
        base.dom().finite(),
    ensures
        run(base, ds, now).dom().finite(),
    decreases ds.len(),
{
    if ds.len() > 0 {
        run_finite(base, ds.drop_last(), now);
        apply_finite(run(base, ds.drop_last(), now), ds.last(), now);
    }
}

/// The marks of a run of deltas: which of them put a file in the place of
/// something else.
pub open spec fn marks_match(
    base: Nodes,
    ds: Seq<DeltaView>,
    marks: Seq<bool>,
    nows: Seq<i64>,
) -> bool {
    forall|i: int|
        0 <= i < ds.len() ==> #[trigger] marked(marks, i) == replaces(
            replay(base, ds.take(i), nows),
            ds[i],
        )
}

spec fn marks_run(base: Nodes, ds: Seq<DeltaView>, marks: Seq<bool>, now: i64) -> bool {
    forall|i: int|
        0 <= i < ds.len() ==> #[trigger] marked(marks, i) == replaces(
            run(base, ds.take(i), now),
            ds[i],
        )
}

proof fn stage_in_step(
    base: Nodes,
    ds: Seq<DeltaView>,
    marks: Seq<bool>,
    n: nat,
    image: Nodes,
    now: i64,
)
    requires
        n <= ds.len(),
        base.dom().finite(),
        marks_run(base, ds, marks, now),
    ensures
        ({
            let st = stage(ds, marks, n, image);
            &&& in_step(
                run(base, st.upgraded, now),
                run(base, ds.take(n as int), now),
                ds,
                n as int,
                st.chunked,
            )
            &&& covers_big(st.chunked, image)
        }),
    decreases n,
{
    if n == 0 {
        assert(ds.take(0) =~= Seq::<DeltaView>::empty());
    } else {
        let i = n - 1;
        stage_in_step(base, ds, marks, i as nat, image, now);
        let st = stage(ds, marks, i as nat, image);
        let next = stage(ds, marks, n, image);
        let u = run(base, st.upgraded, now);
        let s = run(base, ds.take(i), now);
        run_finite(base, st.upgraded, now);
        run_finite(base, ds.take(i), now);
        assert(ds.take(n as int).drop_last() =~= ds.take(i));
        assert(ds.take(n as int).last() == ds[i]);
        assert(marked(marks, i) == replaces(s, ds[i]));
        assert(st.upgraded.push(ds[i]).drop_last() =~= st.upgraded);
        match ds[i] {
            DeltaView::Write { path, offset, data } => {
                let f = fate(ds, i + 1, path);
                let blocks = if f is Some {
                    blocks_of(inline_bytes(image, f->0))
                } else {
                    Seq::empty()
                };
                write_in_step(u, s, ds, i, st.chunked, blocks, now);
                run_concat(base, st.upgraded, full_write(path, marked(marks, i), blocks), now);
            },
            _ => {
                other_in_step(u, s, ds, i, st.chunked, now);
            },
        }
    }
}

/// What is covered is large in the image, and covered by its blocks.
spec fn covers_big(m: Chunked, image: Nodes) -> bool {
    forall|q: Seq<u8>| #[trigger]
        m.contains_key(q) ==> is_big(image, q) && m[q] == blocks_of(inline_bytes(image, q))
}

/// The inline files of `a` are those of `b`, with the same bytes.
spec fn same_inline(a: Nodes, b: Nodes) -> bool {
    forall|k: Seq<u8>|
        #![trigger a.contains_key(k)]
        #![trigger b.contains_key(k)]
        a.contains_key(k) == b.contains_key(k) && (b.contains_key(k) ==> (a[k] is File) == (
        b[k] is File) && (b[k] is File ==> a[k]->File_content == b[k]->File_content))
}

/// Sweeping covers files where they stand.
proof fn sweep_in_step(
    base: Nodes,
    s: Nodes,
    st: StageView,
    l: Seq<(Seq<u8>, NodeView)>,
    n: nat,
    image: Nodes,
    now: i64,
)
    requires
        n <= l.len(),
        run(base, st.upgraded, now) == blockified(s, st.chunked),
        covers_big(st.chunked, image),
        same_inline(s, image),
    ensures
        ({
            let sw = swept(st, l, n, image);
            &&& run(base, sw.upgraded, now) == blockified(s, sw.chunked)
            &&& covers_big(sw.chunked, image)
            &&& forall|i: int|
                0 <= i < n && is_big(image, (#[trigger] l[i]).0) ==> sw.chunked.contains_key(l[i].0)
        }),
    decreases n,
{
    if n > 0 {
        let m = (n - 1) as nat;
        sweep_in_step(base, s, st, l, m, image, now);
        let before = swept(st, l, m, image);
        let after = swept(st, l, n, image);
        let q = l[n - 1].0;
        if is_big(image, q) && !before.chunked.contains_key(q) {
            let w = block_write(q, blocks_of(inline_bytes(image, q)));
            run_concat(base, before.upgraded, seq![w], now);
            let u = run(base, before.upgraded, now);
            run_one(u, w, now);
            assert(s.contains_key(q));
            assert(apply_delta(u, w, now) =~= blockified(s, after.chunked));
        }
    }
}

/// The committed run of a whole batch gives the image with its large files as
/// blocks.
proof fn staged_runs(
    base: Nodes,
    ds: Seq<DeltaView>,
    marks: Seq<bool>,
    image: Nodes,
    now: i64,
)
    requires
        base.dom().finite(),
        image.dom().finite(),
        marks_run(base, ds, marks, now),
        same_inline(run(base, ds, now), image),
    ensures
        ({
            let st = staged(ds, marks, image);
            &&& run(base, st.upgraded, now) == blockified(run(base, ds, now), st.chunked)
            &&& covers_big(st.chunked, image)
            &&& forall|k: Seq<u8>| is_big(image, k) ==> #[trigger] st.chunked.contains_key(k)
        }),
{
    let n = ds.len();
    let s = run(base, ds, now);
    stage_in_step(base, ds, marks, n, image, now);
    assert(ds.take(n as int) =~= ds);
    let st = stage(ds, marks, n, image);
    let u = run(base, st.upgraded, now);
    assert(forall|k: Seq<u8>| #[trigger] fate(ds, n as int, k) == Some(k));
    assert(u =~= blockified(s, st.chunked)) by {
        let v = blockified(s, st.chunked);
        assert forall|k: Seq<u8>|
            #![trigger u.dom().contains(k)]
            #![trigger v.dom().contains(k)]
            u.dom().contains(k) == v.dom().contains(k) && (u.dom().contains(k) ==> u[k] == v[k]) by {
            assert(u.contains_key(k) == s.contains_key(k));
            assert(covered(ds, n as int, st.chunked, k) == st.chunked.contains_key(k));
        }
    }
    let l = listing(image, any_key());
    listing_exists(image, any_key());
    sweep_in_step(base, s, st, l, l.len(), image, now);
    let sw = staged(ds, marks, image);
    assert forall|k: Seq<u8>| is_big(image, k) implies #[trigger] sw.chunked.contains_key(k) by {
        assert(image.contains_key(k) && any_key()(k));
        let i = choose|i: int| 0 <= i < l.len() && #[trigger] l[i].0 == k;
        assert(sw.chunked.contains_key(l[i].0));
    }
}

// ---- clock readings -------------------------------------------------------

/// Metadata without its modification time.
pub open spec fn undated(m: MetaView) -> MetaView {
    MetaView { mtime_ms: 0, ..m }
}

/// The same node, but that its modification time may be a clock reading of
/// `ta` on one side where it is one of `tb` on the other.
pub open spec fn alike_but_dates(a: NodeView, b: NodeView, ta: Seq<i64>, tb: Seq<i64>) -> bool {
    &&& a.with_meta(undated(a.meta())) == b.with_meta(undated(b.meta()))
    &&& a.meta().mtime_ms == b.meta().mtime_ms || (ta.contains(a.meta().mtime_ms)
        && tb.contains(b.meta().mtime_ms))
}

/// The same paths with nodes alike but for clock readings.
pub open spec fn all_alike(a: Nodes, b: Nodes, ta: Seq<i64>, tb: Seq<i64>) -> bool {
    &&& forall|k: Seq<u8>| #[trigger] a.contains_key(k) == b.contains_key(k)
    &&& forall|k: Seq<u8>| #[trigger] a.contains_key(k) ==> alike_but_dates(a[k], b[k], ta, tb)
}

proof fn moves_alike(
    a: Nodes,
    b: Nodes,
    la: Seq<(Seq<u8>, NodeView)>,
    lb: Seq<(Seq<u8>, NodeView)>,
    n: nat,
    from: Seq<u8>,
    to: Seq<u8>,
    ta: Seq<i64>,
    tb: Seq<i64>,
)
    requires
        all_alike(a, b, ta, tb),
        is_listing(a, under(below(from)), la),
        la.len() == lb.len(),
        n <= la.len(),
        forall|i: int| 0 <= i < la.len() ==> (#[trigger] la[i]).0 == lb[i].0,
    ensures
        all_alike(move_first(a, la, n, from, to), move_first(b, lb, n, from, to), ta, tb),
        forall|j: int|
            n <= j < la.len() ==> move_first(a, la, n, from, to).contains_key((#[trigger] la[j]).0),
    decreases n,
{
    if n == 0 {
        assert forall|j: int| 0 <= j < la.len() implies a.contains_key((#[trigger] la[j]).0) by {
            assert(a.contains_key(la[j].0));
        }
    }
    if n > 0 {
        let m = (n - 1) as nat;
        moves_alike(a, b, la, lb, m, from, to, ta, tb);
        let am = move_first(a, la, m, from, to);
        let bm = move_first(b, lb, m, from, to);
        let p = la[n - 1].0;
        let q = moved_to(p, from, to);
        let a1 = move_first(a, la, n, from, to);
        let b1 = move_first(b, lb, n, from, to);
        assert(lb[n - 1].0 == p);
        assert(am.contains_key(p) && bm.contains_key(p));
        assert forall|k: Seq<u8>| #[trigger] a1.contains_key(k) == b1.contains_key(k) by {
            assert(am.contains_key(k) == bm.contains_key(k));
        }
        assert forall|k: Seq<u8>| #[trigger] a1.contains_key(k) implies alike_but_dates(
            a1[k],
            b1[k],
            ta,
            tb,
        ) by {
            assert(am.contains_key(k) == bm.contains_key(k));
        }
        assert forall|j: int| n <= j < la.len() implies a1.contains_key((#[trigger] la[j]).0) by {
            assert(am.contains_key(la[j].0));
            assert(lex_lt(la[n - 1].0, la[j].0));
            lex_irreflexive(p);
        }
    }
}

/// One delta keeps two runs alike.
proof fn apply_alike(
    a: Nodes,
    b: Nodes,
    d: DeltaView,
    na: i64,
    nb: i64,
    ta: Seq<i64>,
    tb: Seq<i64>,
)
    requires
        all_alike(a, b, ta, tb),
        a.dom().finite(),
        b.dom().finite(),
        ta.contains(na),
        tb.contains(nb),
    ensures
        all_alike(apply_delta(a, d, na), apply_delta(b, d, nb), ta, tb),
{
    let a1 = apply_delta(a, d, na);
    let b1 = apply_delta(b, d, nb);
    match d {
        DeltaView::Remove { path } => {
            assert forall|k: Seq<u8>| #[trigger] a1.contains_key(k) == b1.contains_key(k) by {
                assert(a.contains_key(k) == b.contains_key(k));
            }
            assert forall|k: Seq<u8>| #[trigger] a1.contains_key(k) implies alike_but_dates(
                a1[k],
                b1[k],
                ta,
                tb,
            ) by {
                assert(a.contains_key(k));
            }
        },
        DeltaView::Rename { from, to } => {
            let ar = rename_root(a, from, to);
            let br = rename_root(b, from, to);
            assert(a.contains_key(from) == b.contains_key(from));
            assert(all_alike(ar, br, ta, tb)) by {
                assert forall|k: Seq<u8>| #[trigger] ar.contains_key(k) == br.contains_key(k) by {
                    assert(a.contains_key(k) == b.contains_key(k));
                }
                assert forall|k: Seq<u8>| #[trigger] ar.contains_key(k) implies alike_but_dates(
                    ar[k],
                    br[k],
                    ta,
                    tb,
                ) by {
                    assert(a.contains_key(k) == b.contains_key(k));
                }
            }
            let p = under(below(from));
            listing_exists(ar, p);
            let la = listing(ar, p);
            let lb = Seq::new(la.len(), |i: int| (la[i].0, br[la[i].0]));
            assert(is_listing(br, p, lb)) by {
                assert forall|i: int, j: int| 0 <= i < j < lb.len() implies #[trigger] lex_lt(
                    lb[i].0,
                    lb[j].0,
                ) by {
                    assert(lex_lt(la[i].0, la[j].0));
                }
                assert forall|i: int| 0 <= i < lb.len() implies br.contains_key(#[trigger] lb[i].0)
                    && p(lb[i].0) && br[lb[i].0] == lb[i].1 by {
                    assert(ar.contains_key(la[i].0) && p(la[i].0));
                }
                assert forall|k: Seq<u8>| #[trigger] br.contains_key(k) && p(k) implies exists|
                    i: int,
                |
                    0 <= i < lb.len() && #[trigger] lb[i].0 == k by {
                    assert(ar.contains_key(k) && p(k));
                    let i = choose|i: int| 0 <= i < la.len() && #[trigger] la[i].0 == k;
                    assert(lb[i].0 == k);
                }
            }
            listing_unique(br, p, lb);
            moves_alike(ar, br, la, lb, la.len(), from, to, ta, tb);
        },
        _ => {
            let path = crate::fuse::checkpoint::subject(d);
            assert(a.contains_key(path) == b.contains_key(path));
            assert forall|k: Seq<u8>| #[trigger] a1.contains_key(k) == b1.contains_key(k) by {
                assert(a.contains_key(k) == b.contains_key(k));
            }
            assert forall|k: Seq<u8>| #[trigger] a1.contains_key(k) implies alike_but_dates(
                a1[k],
                b1[k],
                ta,
                tb,
            ) by {
                if k != path {
                    assert(a.contains_key(k));
                } else if a.contains_key(path) {
                    let ma = a[path].meta();
                    let mb = b[path].meta();
                    assert(undated(ma) == undated(mb)) by {
                        assert(a[path].with_meta(undated(ma)).meta() == b[path].with_meta(
                            undated(mb),
                        ).meta());
                    }
                }
            }
        },
    }
}

/// Runs from states that are alike stay alike.
pub proof fn replay_alike(
    a: Nodes,
    b: Nodes,
    ds: Seq<DeltaView>,
    na: Seq<i64>,
    nb: Seq<i64>,
    ta: Seq<i64>,
    tb: Seq<i64>,
)
    requires
        a.dom().finite(),
        b.dom().finite(),
        all_alike(a, b, ta, tb),
        ds.len() <= na.len(),
        ds.len() <= nb.len(),
        forall|i: int| 0 <= i < na.len() ==> ta.contains(#[trigger] na[i]),
        forall|i: int| 0 <= i < nb.len() ==> tb.contains(#[trigger] nb[i]),
    ensures
        all_alike(replay(a, ds, na), replay(b, ds, nb), ta, tb),
    decreases ds.len(),
{
    if ds.len() > 0 {
        let rest = ds.drop_last();
        let n = ds.len() - 1;
        replay_alike(a, b, rest, na, nb, ta, tb);
        replay_finite(a, rest, na);
        replay_finite(b, rest, nb);
        assert(ta.contains(na[n]) && tb.contains(nb[n]));
        apply_alike(
            replay(a, rest, na),
            replay(b, rest, nb),
            ds.last(),
            na[n],
            nb[n],
            ta,
            tb,
        );
    }
}

/// The same reading, over and over.
spec fn always(now: i64, n: nat) -> Seq<i64> {
    Seq::new(n, |i: int| now)
}

proof fn run_is_replay(base: Nodes, ds: Seq<DeltaView>, now: i64, n: nat)
    requires
        ds.len() <= n,
    ensures
        run(base, ds, now) == replay(base, ds, always(now, n)),
    decreases ds.len(),
{
    if ds.len() > 0 {
        run_is_replay(base, ds.drop_last(), now, n);
    }
}

/// A run at given readings and one at a single reading, from states alike.
proof fn run_alike(
    a: Nodes,
    b: Nodes,
    ds: Seq<DeltaView>,
    na: Seq<i64>,
    now: i64,
    ta: Seq<i64>,
    tb: Seq<i64>,
)
    requires
        a.dom().finite(),
        b.dom().finite(),
        all_alike(a, b, ta, tb),
        ds.len() <= na.len(),
    ensures
        all_alike(replay(a, ds, na), run(b, ds, now), ta + na, tb.push(now)),
{
    let xa = ta + na;
    let xb = tb.push(now);
    let nb = always(now, ds.len());
    assert forall|x: i64| ta.contains(x) implies xa.contains(x) by {
        let i = choose|i: int| 0 <= i < ta.len() && ta[i] == x;
        assert(xa[i] == x);
    }
    assert forall|x: i64| tb.contains(x) implies xb.contains(x) by {
        let i = choose|i: int| 0 <= i < tb.len() && tb[i] == x;
        assert(xb[i] == x);
    }
    assert forall|i: int| 0 <= i < na.len() implies xa.contains(#[trigger] na[i]) by {
        assert(xa[ta.len() + i] == na[i]);
    }
    assert forall|i: int| 0 <= i < nb.len() implies xb.contains(#[trigger] nb[i]) by {
        assert(xb[tb.len() as int] == now);
    }
    replay_alike(a, b, ds, na, nb, xa, xb);
    run_is_replay(b, ds, now, ds.len());
}

/// Nodes that are alike but for dates are of one kind.
proof fn same_metas(a: NodeView, b: NodeView)
    requires
        a.with_meta(undated(a.meta())) == b.with_meta(undated(b.meta())),
    ensures
        undated(a.meta()) == undated(b.meta()),
        a is File == b is File,
        a is File ==> a->File_content == b->File_content,
{
    assert(a.with_meta(undated(a.meta())).meta() == b.with_meta(undated(b.meta())).meta());
}


proof fn alike_inline(a: Nodes, b: Nodes, ta: Seq<i64>, tb: Seq<i64>)
    requires
        all_alike(a, b, ta, tb),
    ensures
        same_inline(a, b),
        same_inline(b, a),
        forall|d: DeltaView| #[trigger] replaces(a, d) == replaces(b, d),
{
    assert forall|k: Seq<u8>|
        #![trigger a.contains_key(k)]
        #![trigger b.contains_key(k)]
        a.contains_key(k) == b.contains_key(k) && (b.contains_key(k) ==> (a[k] is File) == (
        b[k] is File) && (b[k] is File ==> a[k]->File_content == b[k]->File_content)) by {
        if a.contains_key(k) {
            same_metas(a[k], b[k]);
        }
    }
}

proof fn marks_at(
    base: Nodes,
    ds: Seq<DeltaView>,
    marks: Seq<bool>,
    nows: Seq<i64>,
    now: i64,
)
    requires
        base.dom().finite(),
        ds.len() <= nows.len(),
        marks_match(base, ds, marks, nows),
    ensures
        marks_run(base, ds, marks, now),
{
    let none = Seq::<i64>::empty();
    assert(all_alike(base, base, none, none));
    assert forall|i: int| 0 <= i < ds.len() implies #[trigger] marked(marks, i) == replaces(
        run(base, ds.take(i), now),
        ds[i],
    ) by {
        run_alike(base, base, ds.take(i), nows, now, none, none);
        alike_inline(
            replay(base, ds.take(i), nows),
            run(base, ds.take(i), now),
            none + nows,
            none.push(now),
        );
    }
}

// ---- the committed stream and the image -----------------------------------

/// `image` is `base` with the buffered deltas applied, each at some reading of
/// the clock, and the marks are theirs.
pub open spec fn buffered(
    base: Nodes,
    ds: Seq<DeltaView>,
    marks: Seq<bool>,
    image: Nodes,
) -> bool {
    exists|nows: Seq<i64>|
        nows.len() == ds.len() && image == #[trigger] replay(base, ds, nows) && marks.len()
            == ds.len() && marks_match(base, ds, marks, nows)
}

/// An image with nothing buffered.
pub proof fn buffer_starts(base: Nodes)
    ensures
        buffered(base, Seq::empty(), Seq::empty(), base),
{
    assert(base == replay(base, Seq::<DeltaView>::empty(), Seq::<i64>::empty()));
}

/// Every mutation keeps the image in step with the buffer: it is the state
/// after the last commit with all that is pending applied.
pub proof fn buffer_grows(
    base: Nodes,
    ds: Seq<DeltaView>,
    marks: Seq<bool>,
    image: Nodes,
    d: DeltaView,
    now: i64,
)
    requires
        buffered(base, ds, marks, image),
    ensures
        buffered(base, ds.push(d), marks.push(replaces(image, d)), apply_delta(image, d, now)),
{
    let nows = choose|nows: Seq<i64>|
        nows.len() == ds.len() && image == #[trigger] replay(base, ds, nows) && marks.len()
            == ds.len() && marks_match(base, ds, marks, nows);
    let all = ds.push(d);
    let next = nows.push(now);
    let marks2 = marks.push(replaces(image, d));
    assert(all.drop_last() =~= ds);
    assert(next.take(nows.len() as int) =~= nows);
    replay_agrees(base, ds, nows, next);
    assert(apply_delta(image, d, now) == replay(base, all, next));
    assert forall|i: int| 0 <= i < all.len() implies #[trigger] marked(marks2, i) == replaces(
        replay(base, all.take(i), next),
        all[i],
    ) by {
        if i < ds.len() {
            assert(all.take(i) =~= ds.take(i));
            replay_agrees(base, ds.take(i), nows, next);
            assert(marked(marks, i) == marked(marks2, i));
        } else {
            assert(all.take(i) =~= ds);
        }
    }
}

/// A run of mutations, all read at one time.
pub proof fn buffer_runs(
    base: Nodes,
    ds: Seq<DeltaView>,
    marks: Seq<bool>,
    image: Nodes,
    more: Seq<DeltaView>,
    now: i64,
)
    requires
        buffered(base, ds, marks, image),
    ensures
        buffered(
            base,
            ds + more,
            marks + marks_of(image, more, now),
            run(image, more, now),
        ),
    decreases more.len(),
{
    let mm = marks_of(image, more, now);
    if more.len() == 0 {
        assert(ds + more =~= ds);
        assert(marks + mm =~= marks);
    } else {
        let rest = more.drop_last();
        buffer_runs(base, ds, marks, image, rest, now);
        let before = run(image, rest, now);
        buffer_grows(
            base,
            ds + rest,
            marks + marks_of(image, rest, now),
            before,
            more.last(),
            now,
        );
        assert((ds + rest).push(more.last()) =~= ds + more);
        assert((marks + marks_of(image, rest, now)).push(
            replaces(before, more.last()),
        ) =~= marks + mm) by {
            assert forall|i: int| 0 <= i < rest.len() implies rest.take(i) == more.take(i) by {
                assert(rest.take(i) =~= more.take(i));
            }
            assert(more.take(rest.len() as int) =~= rest);
        }
    }
}

/// After a commit the image is consistent with the stream. Where the stream
/// gave the image before the buffered deltas `ds`, replaying the committed
/// batch too gives the image after the commit: the same paths, content and
/// metadata. Only a modification time that the clock gave to a node as it was
/// made is read anew by each replay. No file past a chunk is left inline.
pub proof fn commit_matches_stream(
    stream: Nodes,
    base: Nodes,
    ds: Seq<DeltaView>,
    marks: Seq<bool>,
    image: Nodes,
    later: Seq<i64>,
    ts: Seq<i64>,
    ti: Seq<i64>,
) -> (nows: Seq<i64>)
    requires
        stream.dom().finite(),
        base.dom().finite(),
        all_alike(stream, base, ts, ti),
        buffered(base, ds, marks, image),
        staged(ds, marks, image).upgraded.len() <= later.len(),
    ensures
        nows.len() == ds.len(),
        ({
            let st = staged(ds, marks, image);
            let after = blockified(image, st.chunked);
            &&& all_alike(replay(stream, st.upgraded, later), after, ts + later, ti + nows)
            &&& forall|k: Seq<u8>| !#[trigger] is_big(after, k)
        }),
{
    let nows = choose|nows: Seq<i64>|
        nows.len() == ds.len() && image == #[trigger] replay(base, ds, nows) && marks.len()
            == ds.len() && marks_match(base, ds, marks, nows);
    let st = staged(ds, marks, image);
    let u = replay(stream, st.upgraded, later);
    let v = blockified(image, st.chunked);
    let none = Seq::<i64>::empty();
    replay_finite(base, ds, nows);
    assert(all_alike(base, base, none, none));
    assert(none + nows =~= nows);
    assert forall|k: Seq<u8>| #[trigger] u.contains_key(k) == v.contains_key(k) by {
        commit_at(base, ds, marks, image, nows, 0);
        run_alike(base, base, ds, nows, 0, none, none);
        run_alike(stream, base, st.upgraded, later, 0, ts, ti);
        let un = run(base, st.upgraded, 0);
        let sn = run(base, ds, 0);
        assert(u.contains_key(k) == un.contains_key(k));
        assert(image.contains_key(k) == sn.contains_key(k));
        assert(un.contains_key(k) == sn.contains_key(k));
    }
    assert forall|k: Seq<u8>| #[trigger] u.contains_key(k) implies alike_but_dates(
        u[k],
        v[k],
        ts + later,
        ti + nows,
    ) by {
        assert(v.contains_key(k));
        // A reading that neither side shows at `k`.
        let x = u[k].meta().mtime_ms;
        let y = image[k].meta().mtime_ms;
        let now: i64 = if x != 0 && y != 0 {
            0
        } else if x != 1 && y != 1 {
            1
        } else {
            2
        };
        assert(now != x && now != y);
        commit_at(base, ds, marks, image, nows, now);
        run_alike(base, base, ds, nows, now, none, none);
        run_alike(stream, base, st.upgraded, later, now, ts, ti);
        let un = run(base, st.upgraded, now);
        let sn = run(base, ds, now);
        assert(image.contains_key(k) == sn.contains_key(k));
        assert(un.contains_key(k) && sn.contains_key(k));
        assert(alike_but_dates(u[k], un[k], ts + later, ti.push(now)));
        assert(alike_but_dates(image[k], sn[k], none + nows, none.push(now)));
        same_metas(u[k], un[k]);
        same_metas(image[k], sn[k]);
        if st.chunked.contains_key(k) {
            assert(is_big(image, k));
        }
        assert(un[k].meta() == sn[k].meta());
        let z = un[k].meta().mtime_ms;
        assert(none.push(now).contains(z) ==> z == now);
        assert(ti.push(now).contains(z) ==> z == now || ti.contains(z)) by {
            if ti.push(now).contains(z) {
                let i = choose|i: int| 0 <= i < ti.push(now).len() && ti.push(now)[i] == z;
                if i < ti.len() {
                    assert(ti[i] == z);
                }
            }
        }
        assert(ti.contains(y) ==> (ti + nows).contains(y)) by {
            if ti.contains(y) {
                let i = choose|i: int| 0 <= i < ti.len() && ti[i] == y;
                assert((ti + nows)[i] == y);
            }
        }
        assert(nows.contains(y) ==> (ti + nows).contains(y)) by {
            if nows.contains(y) {
                let i = choose|i: int| 0 <= i < nows.len() && nows[i] == y;
                assert((ti + nows)[ti.len() + i] == y);
            }
        }
        assert(v[k].meta() == image[k].meta());
        assert(v[k].with_meta(undated(v[k].meta())) == un[k].with_meta(undated(un[k].meta())));
    }
    assert forall|k: Seq<u8>| !#[trigger] is_big(v, k) by {
        if is_big(v, k) {
            commit_at(base, ds, marks, image, nows, 0);
            assert(is_big(image, k));
            assert(st.chunked.contains_key(k));
        }
    }
    nows
}

/// A commit at one reading of the clock.
proof fn commit_at(
    base: Nodes,
    ds: Seq<DeltaView>,
    marks: Seq<bool>,
    image: Nodes,
    nows: Seq<i64>,
    now: i64,
)
    requires
        base.dom().finite(),
        nows.len() == ds.len(),
        image == replay(base, ds, nows),
        marks_match(base, ds, marks, nows),
    ensures
        ({
            let st = staged(ds, marks, image);
            &&& run(base, st.upgraded, now) == blockified(run(base, ds, now), st.chunked)
            &&& covers_big(st.chunked, image)
            &&& forall|k: Seq<u8>| is_big(image, k) ==> #[trigger] st.chunked.contains_key(k)
        }),
{
    let none = Seq::<i64>::empty();
    assert(all_alike(base, base, none, none));
    replay_finite(base, ds, nows);
    marks_at(base, ds, marks, nows, now);
    run_alike(base, base, ds, nows, now, none, none);
    alike_inline(image, run(base, ds, now), none + nows, none.push(now));
    staged_runs(base, ds, marks, image, now);
}

/// Alike images read alike: every file has the same bytes in both.
pub proof fn alike_reads(
    a: Nodes,
    b: Nodes,
    ta: Seq<i64>,
    tb: Seq<i64>,
    cache: Map<Seq<u8>, Seq<u8>>,
    path: Seq<u8>,
)
    requires
        all_alike(a, b, ta, tb),
    ensures
        file_bytes(a, cache, path) == file_bytes(b, cache, path),
        (a.contains_key(path) && a[path] is File) == (b.contains_key(path) && b[path] is File),
{
    alike_inline(a, b, ta, tb);
    assert(a.contains_key(path) == b.contains_key(path));
}

/// Two mounts of one stream differ only in the readings of the clock.
pub proof fn mounts_agree(
    segs: Seq<Changes>,
    log: Seq<DeltaView>,
    ta: Seq<i64>,
    tb: Seq<i64>,
)
    requires
        merge_all(segs).dom().finite(),
        ta.len() == log.len(),
        tb.len() == log.len(),
    ensures
        all_alike(replay(merge_all(segs), log, ta), replay(merge_all(segs), log, tb), ta, tb),
{
    let base = merge_all(segs);
    assert forall|i: int| 0 <= i < ta.len() implies ta.contains(#[trigger] ta[i]) by {}
    assert forall|i: int| 0 <= i < tb.len() implies tb.contains(#[trigger] tb[i]) by {}
    assert(all_alike(base, base, ta, tb));
    replay_alike(base, base, log, ta, tb, ta, tb);
}

/// After a commit a new mount gives the volume's image. `base` is what the
/// stream `log` on the segments gave before the buffered deltas; once the
/// batch is appended, a mount at any readings `later` of the clock gives the
/// image after the commit, but for the times of nodes as they were made, and
/// every path reads the same bytes in both. So it is after the next commit.
pub proof fn commit_is_what_a_mount_gives(
    segs: Seq<Changes>,
    log: Seq<DeltaView>,
    base: Nodes,
    ds: Seq<DeltaView>,
    marks: Seq<bool>,
    image: Nodes,
    ts: Seq<i64>,
    ti: Seq<i64>,
    later: Seq<i64>,
) -> (nows: Seq<i64>)
    requires
        merge_all(segs).dom().finite(),
        base.dom().finite(),
        ts.len() == log.len(),
        all_alike(replay(merge_all(segs), log, ts), base, ts, ti),
        buffered(base, ds, marks, image),
        later.len() == staged(ds, marks, image).upgraded.len(),
    ensures
        ({
            let st = staged(ds, marks, image);
            let after = blockified(image, st.chunked);
            let mount = replay(merge_all(segs), log + st.upgraded, ts + later);
            &&& all_alike(mount, after, ts + later, ti + nows)
            &&& forall|cache: Map<Seq<u8>, Seq<u8>>, path: Seq<u8>| #[trigger]
                file_bytes(mount, cache, path) == file_bytes(after, cache, path)
            &&& buffered(after, Seq::empty(), Seq::empty(), after)
            &&& after.dom().finite()
            &&& forall|k: Seq<u8>| !#[trigger] is_big(after, k)
        }),
{
    let start = merge_all(segs);
    let st = staged(ds, marks, image);
    let after = blockified(image, st.chunked);
    let mount = replay(start, log + st.upgraded, ts + later);
    replay_finite(start, log, ts);
    replay_concat(start, log, st.upgraded, ts, later);
    let nows = commit_matches_stream(
        replay(start, log, ts),
        base,
        ds,
        marks,
        image,
        later,
        ts,
        ti,
    );
    assert forall|cache: Map<Seq<u8>, Seq<u8>>, path: Seq<u8>| #[trigger]
        file_bytes(mount, cache, path) == file_bytes(after, cache, path) by {
        alike_reads(mount, after, ts + later, ti + nows, cache, path);
    }
    buffer_starts(after);
    let at = choose|at: Seq<i64>|
        at.len() == ds.len() && image == #[trigger] replay(base, ds, at) && marks.len() == ds.len()
            && marks_match(base, ds, marks, at);
    replay_finite(base, ds, at);
    assert(after.dom() =~= image.dom());
    nows
}

} // verus!

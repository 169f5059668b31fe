//! Folding a run of deltas into the changes that a checkpoint seals.
use vstd::prelude::*;
use vstd::string::*;

use crate::fuse::{
    apply_delta, below, below_is_later, below_prefix, buried, fits, in_tree, in_tree_transitive,
    merged, move_first, move_one, moved_to, prune, rename, rename_root, Changes, Delta, DeltaView,
    Entry, FsImage, NodeView, Nodes, Segment,
};
use crate::order::{after, has_prefix, lemma_prefix_split, lex_irreflexive, lex_lt};
use crate::stamp::now_ms;
use crate::table::{
    is_listing, lemma_under, listing, listing_exists, listing_unique, under, views, Dup, Key, Table,
};
use crate::text::{after_slash, joined_by_slash, utf8};

verus! {

/// Tombstones for `path` and for everything that `live` holds below it.
pub open spec fn bury(changes: Changes, live: Nodes, path: Seq<u8>) -> Changes {
    Map::new(
        |k: Seq<u8>|
            changes.contains_key(k) || k == path || (live.contains_key(k) && has_prefix(
                k,
                below(path),
            )),
        |k: Seq<u8>|
            if k == path || (live.contains_key(k) && has_prefix(k, below(path))) {
                None
            } else {
                changes[k]
            },
    )
}

/// `from` becomes a tombstone, and `to` what `live` holds at `from`.
pub open spec fn record_root(
    changes: Changes,
    live: Nodes,
    from: Seq<u8>,
    to: Seq<u8>,
) -> Changes {
    if live.contains_key(from) {
        changes.insert(from, None).insert(to, Some(live[from]))
    } else {
        changes.insert(from, None)
    }
}

/// The first `n` listed descendants recorded at their new places, each
/// leaving a tombstone behind.
pub open spec fn record_first(
    changes: Changes,
    l: Seq<(Seq<u8>, NodeView)>,
    n: nat,
    from: Seq<u8>,
    to: Seq<u8>,
) -> Changes
    decreases n,
{
    if n == 0 {
        changes
    } else {
        let (p, node) = l[n - 1];
        record_first(changes, l, (n - 1) as nat, from, to).insert(p, None).insert(
            moved_to(p, from, to),
            Some(node),
        )
    }
}

/// The path that a delta other than `Remove` and `Rename` is about.
pub open spec fn subject(d: DeltaView) -> Seq<u8> {
    match d {
        DeltaView::Write { path, .. } => path,
        DeltaView::Mkdir { path } => path,
        DeltaView::Remove { path } => path,
        DeltaView::Rename { from, .. } => from,
        DeltaView::Symlink { path, .. } => path,
        DeltaView::SetAttr { path, .. } => path,
        DeltaView::SetXattr { path, .. } => path,
    }
}

/// The changes once `d` has been applied on top of `live`.
pub open spec fn record(changes: Changes, live: Nodes, d: DeltaView, now: i64) -> Changes {
    match d {
        DeltaView::Remove { path } => bury(changes, live, path),
        DeltaView::Rename { from, to } => {
            let l = listing(live, under(below(from)));
            record_first(record_root(changes, live, from, to), l, l.len(), from, to)
        },
        _ => {
            let after = apply_delta(live, d, now);
            if after.contains_key(subject(d)) {
                changes.insert(subject(d), Some(after[subject(d)]))
            } else {
                changes
            }
        },
    }
}

/// A checkpoint fold in progress: newest-wins whole-node entries with
/// tombstones, plus the running image, so that renames and removals see each
/// path as of their delta and not as of the end of the window.
pub struct DeltaImage {
    pub entries: Table<String, Entry>,
    pub live: FsImage,
}

/// Whether `k` is among the first `n` listed paths.
spec fn listed(l: Seq<(Seq<u8>, NodeView)>, n: int, k: Seq<u8>) -> bool {
    exists|j: int| 0 <= j < n && #[trigger] l[j].0 == k
}

impl DeltaImage {
    pub fn over(base: FsImage) -> (r: Self)
        ensures
            r.entries@ == Changes::empty(),
            r.live@ == base@,
    {
        DeltaImage { entries: Table::new(), live: base }
    }

    /// The paths of `live` that start with `prefix`, in order.
    pub fn descendants(&self, prefix: &[u8]) -> (r: Vec<String>)
        ensures
            r.len() == listing(self.live@, under(prefix@)).len(),
            is_listing(self.live@, under(prefix@), listing(self.live@, under(prefix@))),
            forall|i: int|
                0 <= i < r.len() ==> (#[trigger] r@[i]).key() == listing(
                    self.live@,
                    under(prefix@),
                )[i].0,
    {
        self.live.nodes.keys_under(prefix)
    }

    pub fn apply(&mut self, d: &Delta)
        requires
            fits(d@),
        ensures
            exists|now: i64|
                final(self).live@ == #[trigger] apply_delta(old(self).live@, d@, now)
                    && final(self).entries@ == record(old(self).entries@, old(self).live@, d@, now),
    {
        let now = now_ms();
        self.apply_at(d, now);
    }

    pub fn apply_at(&mut self, d: &Delta, now: i64)
        requires
            fits(d@),
        ensures
            final(self).live@ == apply_delta(old(self).live@, d@, now),
            final(self).entries@ == record(old(self).entries@, old(self).live@, d@, now),
    {
        match d {
            Delta::Remove { path } => {
                self.bury(path);
                self.live.apply_at(d, now);
            },
            Delta::Rename { from, to } => {
                self.record_rename(from, to);
                self.live.apply_at(d, now);
            },
            Delta::Write { path, .. } => self.record_node(d, path, now),
            Delta::Mkdir { path } => self.record_node(d, path, now),
            Delta::Symlink { path, .. } => self.record_node(d, path, now),
            Delta::SetAttr { path, .. } => self.record_node(d, path, now),
            Delta::SetXattr { path, .. } => self.record_node(d, path, now),
        }
    }

    fn record_node(&mut self, d: &Delta, path: &String, now: i64)
        requires
            fits(d@),
            utf8(path@) == subject(d@),
            !(d@ is Remove),
            !(d@ is Rename),
        ensures
            final(self).live@ == apply_delta(old(self).live@, d@, now),
            final(self).entries@ == record(old(self).entries@, old(self).live@, d@, now),
    {
        self.live.apply_at(d, now);
        if let Some(node) = self.live.nodes.get(path.as_key()) {
            let copy = node.dup();
            self.entries.insert(path.clone(), Entry(Some(copy)));
        }
    }

    fn bury(&mut self, path: &String)
        ensures
            final(self).live@ == old(self).live@,
            final(self).entries@ == bury(old(self).entries@, old(self).live@, utf8(path@)),
    {
        let ghost c = self.entries@;
        let ghost live = self.live@;
        let ghost b = utf8(path@);
        let prefix = below_prefix(path);
        let keys = self.descendants(prefix.as_slice());
        let ghost l = listing(live, under(below(b)));
        self.entries.insert(path.clone(), Entry(None));
        assert(is_listing(live, under(below(b)), l));
        let mut i: usize = 0;
        while i < keys.len()
            invariant
                i <= keys.len(),
                self.live@ == live,
                b == utf8(path@),
                keys.len() == l.len(),
                forall|j: int| 0 <= j < keys.len() ==> (#[trigger] keys@[j]).key() == l[j].0,
                forall|k: Seq<u8>| #[trigger]
                    self.entries@.contains_key(k) <==> c.contains_key(k) || k == b || listed(
                        l,
                        i as int,
                        k,
                    ),
                forall|k: Seq<u8>| #[trigger]
                    self.entries@.contains_key(k) ==> self.entries@[k] == (if k == b || listed(
                        l,
                        i as int,
                        k,
                    ) {
                        None
                    } else {
                        c[k]
                    }),
            decreases keys.len() - i,
        {
            let ghost before = self.entries@;
            self.entries.insert(keys[i].clone(), Entry(None));
            proof {
                let p = l[i as int].0;
                assert(keys@[i as int].key() == p);
                assert forall|k: Seq<u8>| #[trigger]
                    listed(l, i + 1, k) == (k == p || listed(l, i as int, k)) by {
                    if k == p {
                        assert(l[i as int].0 == k);
                    }
                    if listed(l, i as int, k) {
                        let j = choose|j: int| 0 <= j < i && #[trigger] l[j].0 == k;
                        assert(0 <= j < i + 1 && l[j].0 == k);
                    }
                }
            }
            i += 1;
        }
        proof {
            assert forall|k: Seq<u8>| #[trigger]
                listed(l, keys.len() as int, k) == (live.contains_key(k) && has_prefix(
                    k,
                    below(b),
                )) by {
                lemma_under(below(b), k);
                if live.contains_key(k) && has_prefix(k, below(b)) {
                    assert(under(below(b))(k));
                }
                if listed(l, keys.len() as int, k) {
                    let j = choose|j: int| 0 <= j < keys.len() && #[trigger] l[j].0 == k;
                    assert(live.contains_key(l[j].0) && under(below(b))(l[j].0));
                }
            }
            assert(self.entries@ =~= bury(c, live, b));
        }
    }

    fn record_rename(&mut self, from: &String, to: &String)
        ensures
            final(self).live@ == old(self).live@,
            final(self).entries@ == ({
                let l = listing(old(self).live@, under(below(utf8(from@))));
                record_first(
                    record_root(old(self).entries@, old(self).live@, utf8(from@), utf8(to@)),
                    l,
                    l.len(),
                    utf8(from@),
                    utf8(to@),
                )
            }),
    {
        let ghost live = self.live@;
        let ghost f = utf8(from@);
        let ghost t = utf8(to@);
        let prefix = below_prefix(from);
        self.entries.insert(from.clone(), Entry(None));
        if let Some(node) = self.live.nodes.get(from.as_key()) {
            let copy = node.dup();
            self.entries.insert(to.clone(), Entry(Some(copy)));
        }
        let ghost root = self.entries@;
        let keys = self.descendants(prefix.as_slice());
        let ghost l = listing(live, under(below(f)));
        let mut i: usize = 0;
        while i < keys.len()
            invariant
                i <= keys.len(),
                self.live@ == live,
                f == utf8(from@),
                t == utf8(to@),
                prefix@ == below(f),
                is_listing(live, under(below(f)), l),
                keys.len() == l.len(),
                forall|j: int| 0 <= j < keys.len() ==> (#[trigger] keys@[j]).key() == l[j].0,
                self.entries@ == record_first(root, l, i as nat, f, t),
            decreases keys.len() - i,
        {
            let p = &keys[i];
            proof {
                assert(p.key() == l[i as int].0);
                assert(live.contains_key(l[i as int].0));
                lemma_under(below(f), p.key());
                lemma_prefix_split(p.key(), below(f));
                assert(p.key()[f.len() as int] == below(f)[f.len() as int]);
            }
            let rest = after_slash(p.as_str(), prefix.len() - 1);
            let target = joined_by_slash(to.as_str(), rest.as_str());
            if let Some(node) = self.live.nodes.get(p.as_key()) {
                let copy = node.dup();
                self.entries.insert(p.clone(), Entry(None));
                self.entries.insert(target, Entry(Some(copy)));
            }
            i += 1;
        }
    }
}

/// Merging `changes` onto `base` gives `live`, and no tombstone covers a node
/// of `base` that the changes do not mention.
pub open spec fn tracks(base: Nodes, changes: Changes, live: Nodes) -> bool {
    &&& forall|k: Seq<u8>| #[trigger]
        changes.contains_key(k) ==> (match changes[k] {
            Some(n) => live.contains_key(k) && live[k] == n,
            None => !live.contains_key(k),
        })
    &&& forall|k: Seq<u8>|
        !changes.contains_key(k) ==> (#[trigger] live.contains_key(k) == base.contains_key(k)) && (
        live.contains_key(k) ==> live[k] == base[k])
    &&& forall|k: Seq<u8>|
        !changes.contains_key(k) && #[trigger] buried(changes, k) ==> !base.contains_key(k)
}

/// A rename that moves nothing onto a path that is itself still to be moved.
pub open spec fn clean(live: Nodes, d: DeltaView) -> bool {
    match d {
        DeltaView::Rename { from, to } => {
            &&& live.contains_key(from) ==> !has_prefix(to, below(from))
            &&& forall|p: Seq<u8>, q: Seq<u8>|
                #![trigger live.contains_key(p), live.contains_key(q)]
                live.contains_key(p) && has_prefix(p, below(from)) && live.contains_key(q)
                    && has_prefix(q, below(from)) && moved_to(p, from, to) == q ==> p == q
        },
        _ => true,
    }
}

pub proof fn tracks_merged(base: Nodes, changes: Changes, live: Nodes)
    requires
        tracks(base, changes, live),
    ensures
        merged(base, changes) == live,
{
    assert forall|k: Seq<u8>| merged(base, changes).contains_key(k) == live.contains_key(k) by {}
    assert forall|k: Seq<u8>| live.contains_key(k) implies merged(base, changes)[k] == live[k] by {
        if changes.contains_key(k) {
            assert(changes[k] is Some);
        }
    }
    assert(merged(base, changes) =~= live);
}

/// One delta keeps the changes in step with the image.
proof fn tracks_step(base: Nodes, changes: Changes, live: Nodes, d: DeltaView, now: i64)
    requires
        tracks(base, changes, live),
        clean(live, d),
        d is Rename ==> is_listing(
            live,
            under(below(d->from)),
            listing(live, under(below(d->from))),
        ),
    ensures
        tracks(base, record(changes, live, d, now), apply_delta(live, d, now)),
{
    match d {
        DeltaView::Remove { path } => tracks_remove(base, changes, live, path),
        DeltaView::Rename { from, to } => tracks_rename(base, changes, live, from, to),
        _ => {
            let next = apply_delta(live, d, now);
            let path = subject(d);
            let c = record(changes, live, d, now);
            assert forall|k: Seq<u8>| #[trigger] buried(c, k) implies buried(changes, k) by {
                let a = choose|a: Seq<u8>| #[trigger]
                    c.contains_key(a) && c[a] is None && in_tree(k, a);
                assert(changes.contains_key(a) && changes[a] is None);
            }
        },
    }
}

proof fn tracks_remove(base: Nodes, changes: Changes, live: Nodes, path: Seq<u8>)
    requires
        tracks(base, changes, live),
    ensures
        tracks(base, bury(changes, live, path), prune(live, path)),
{
    let c = bury(changes, live, path);
    let next = prune(live, path);
    assert forall|k: Seq<u8>| !c.contains_key(k) implies (#[trigger] next.contains_key(k)
        == base.contains_key(k)) && (next.contains_key(k) ==> next[k] == base[k]) by {
        assert(live.contains_key(k) == base.contains_key(k));
    }
    assert forall|k: Seq<u8>| !c.contains_key(k) && #[trigger] buried(
        c,
        k,
    ) implies !base.contains_key(k) by {
        let a = choose|a: Seq<u8>| #[trigger] c.contains_key(a) && c[a] is None && in_tree(k, a);
        assert(live.contains_key(k) == base.contains_key(k));
        if a == path || (live.contains_key(a) && has_prefix(a, below(path))) {
            in_tree_transitive(k, a, path);
        } else {
            assert(changes.contains_key(a) && changes[a] is None);
            assert(buried(changes, k));
        }
    }
}

proof fn tracks_rename(base: Nodes, changes: Changes, live: Nodes, from: Seq<u8>, to: Seq<u8>)
    requires
        tracks(base, changes, live),
        clean(live, (DeltaView::Rename { from, to })),
        is_listing(live, under(below(from)), listing(live, under(below(from)))),
    ensures
        ({
            let l = listing(live, under(below(from)));
            tracks(
                base,
                record_first(record_root(changes, live, from, to), l, l.len(), from, to),
                rename(live, from, to),
            )
        }),
{
    let l = listing(live, under(below(from)));
    let root = rename_root(live, from, to);
    let c0 = record_root(changes, live, from, to);
    // The same descendants stand below `from` before and after the root moved.
    assert(is_listing(root, under(below(from)), l)) by {
        assert forall|k: Seq<u8>| under(below(from))(k) implies (root.contains_key(k)
            == live.contains_key(k)) && (live.contains_key(k) ==> root[k] == live[k]) by {
            lemma_under(below(from), k);
            below_is_later(k, from);
        }
        assert forall|i: int| 0 <= i < l.len() implies root.contains_key(#[trigger] l[i].0)
            && under(below(from))(l[i].0) && root[l[i].0] == l[i].1 by {
            assert(live.contains_key(l[i].0) && under(below(from))(l[i].0));
        }
    }
    listing_unique(root, under(below(from)), l);
    lemma_moves(base, changes, live, l, l.len(), from, to);
    let c = record_first(c0, l, l.len(), from, to);
    assert forall|k: Seq<u8>| !c.contains_key(k) && #[trigger] buried(
        c,
        k,
    ) implies !base.contains_key(k) by {
        let a = choose|a: Seq<u8>| #[trigger] c.contains_key(a) && c[a] is None && in_tree(k, a);
        if a == from || has_prefix(a, below(from)) {
            in_tree_transitive(k, a, from);
            if live.contains_key(k) {
                lemma_under(below(from), k);
                assert(under(below(from))(k));
                let i = choose|i: int| 0 <= i < l.len() && #[trigger] l[i].0 == k;
                assert(c.contains_key(l[i].0));
            }
            assert(live.contains_key(k) == base.contains_key(k));
        } else {
            assert(changes.contains_key(a) && changes[a] is None);
            assert(buried(changes, k));
        }
    }
}

/// After `n` moves the recorded changes and the image still agree.
proof fn lemma_moves(
    base: Nodes,
    changes: Changes,
    live: Nodes,
    l: Seq<(Seq<u8>, NodeView)>,
    n: nat,
    from: Seq<u8>,
    to: Seq<u8>,
)
    requires
        tracks(base, changes, live),
        clean(live, (DeltaView::Rename { from, to })),
        is_listing(live, under(below(from)), l),
        n <= l.len(),
    ensures
        ({
            let root = rename_root(live, from, to);
            let next = move_first(root, l, n, from, to);
            let c = record_first(record_root(changes, live, from, to), l, n, from, to);
            &&& forall|k: Seq<u8>| #[trigger]
                c.contains_key(k) ==> (match c[k] {
                    Some(node) => next.contains_key(k) && next[k] == node,
                    None => !next.contains_key(k),
                })
            &&& forall|k: Seq<u8>|
                !c.contains_key(k) ==> (#[trigger] next.contains_key(k) == base.contains_key(k))
                    && (next.contains_key(k) ==> next[k] == base[k])
            &&& forall|i: int|
                n <= i < l.len() ==> next.contains_key((#[trigger] l[i]).0) && next[l[i].0]
                    == l[i].1
            &&& forall|k: Seq<u8>| #[trigger] changes.contains_key(k) ==> c.contains_key(k)
            &&& forall|i: int| 0 <= i < n ==> c.contains_key((#[trigger] l[i]).0)
            &&& forall|k: Seq<u8>| #[trigger]
                c.contains_key(k) && c[k] is None ==> in_tree(k, from) || (changes.contains_key(k)
                    && changes[k] is None)
            &&& c.contains_key(from)
        }),
    decreases n,
{
    let root = rename_root(live, from, to);
    let next = move_first(root, l, n, from, to);
    let c0 = record_root(changes, live, from, to);
    let c = record_first(c0, l, n, from, to);
    if n == 0 {
        assert forall|i: int| 0 <= i < l.len() implies root.contains_key((#[trigger] l[i]).0)
            && root[l[i].0] == l[i].1 by {
            let k = l[i].0;
            assert(live.contains_key(k) && under(below(from))(k));
            lemma_under(below(from), k);
            below_is_later(k, from);
        }
        assert forall|k: Seq<u8>| !c0.contains_key(k) implies (#[trigger] root.contains_key(k)
            == base.contains_key(k)) && (root.contains_key(k) ==> root[k] == base[k]) by {
            assert(live.contains_key(k) == base.contains_key(k));
        }
    } else {
        let m = (n - 1) as nat;
        lemma_moves(base, changes, live, l, m, from, to);
        let prev = move_first(root, l, m, from, to);
        let cm = record_first(c0, l, m, from, to);
        let p = l[m as int].0;
        let q = moved_to(p, from, to);
        assert(next == move_one(prev, p, from, to));
        assert(prev.contains_key(l[m as int].0) && prev[l[m as int].0] == l[m as int].1);
        assert(live.contains_key(p) && under(below(from))(p));
        lemma_under(below(from), p);
        assert forall|i: int| n <= i < l.len() implies next.contains_key((#[trigger] l[i]).0)
            && next[l[i].0] == l[i].1 by {
            let k = l[i].0;
            assert(lex_lt(l[m as int].0, l[i].0));
            lex_irreflexive(p);
            assert(live.contains_key(k) && under(below(from))(k));
            lemma_under(below(from), k);
            assert(q != k);
        }
        assert forall|k: Seq<u8>| !c.contains_key(k) implies (#[trigger] next.contains_key(k)
            == base.contains_key(k)) && (next.contains_key(k) ==> next[k] == base[k]) by {
            assert(!cm.contains_key(k));
            assert(prev.contains_key(k) == base.contains_key(k));
        }
        assert forall|i: int| 0 <= i < n implies c.contains_key((#[trigger] l[i]).0) by {
            if i < m {
                assert(cm.contains_key(l[i].0));
            }
        }
    }
}

/// The image after a run of deltas, `nows[i]` dating what the i-th creates.
pub open spec fn replay(nodes: Nodes, ds: Seq<DeltaView>, nows: Seq<i64>) -> Nodes
    decreases ds.len(),
{
    if ds.len() == 0 {
        nodes
    } else {
        apply_delta(replay(nodes, ds.drop_last(), nows), ds.last(), nows[ds.len() - 1])
    }
}

/// The changes after a run of deltas on top of `base`.
pub open spec fn recorded(base: Nodes, ds: Seq<DeltaView>, nows: Seq<i64>) -> Changes
    decreases ds.len(),
{
    if ds.len() == 0 {
        Map::empty()
    } else {
        record(
            recorded(base, ds.drop_last(), nows),
            replay(base, ds.drop_last(), nows),
            ds.last(),
            nows[ds.len() - 1],
        )
    }
}

/// Whether every rename of the run is clean at its turn.
pub open spec fn clean_run(base: Nodes, ds: Seq<DeltaView>, nows: Seq<i64>) -> bool
    decreases ds.len(),
{
    ds.len() == 0 || (clean_run(base, ds.drop_last(), nows) && clean(
        replay(base, ds.drop_last(), nows),
        ds.last(),
    ))
}

pub proof fn replay_finite(base: Nodes, ds: Seq<DeltaView>, nows: Seq<i64>)
    requires
        base.dom().finite(),
    ensures
        replay(base, ds, nows).dom().finite(),
    decreases ds.len(),
{
    if ds.len() > 0 {
        replay_finite(base, ds.drop_last(), nows);
        apply_finite(replay(base, ds.drop_last(), nows), ds.last(), nows[ds.len() - 1]);
    }
}

/// A delta leaves finitely many nodes.
pub proof fn apply_finite(nodes: Nodes, d: DeltaView, now: i64)
    requires
        nodes.dom().finite(),
    ensures
        apply_delta(nodes, d, now).dom().finite(),
{
    match d {
        DeltaView::Remove { path } => {
            assert(prune(nodes, path).dom().subset_of(nodes.dom()));
            vstd::set_lib::lemma_set_subset_finite(nodes.dom(), prune(nodes, path).dom());
        },
        DeltaView::Rename { from, to } => {
            let root = rename_root(nodes, from, to);
            let l = listing(root, under(below(from)));
            moves_finite(root, l, l.len(), from, to);
        },
        _ => {},
    }
}

proof fn moves_finite(
    nodes: Nodes,
    l: Seq<(Seq<u8>, NodeView)>,
    n: nat,
    from: Seq<u8>,
    to: Seq<u8>,
)
    requires
        nodes.dom().finite(),
    ensures
        move_first(nodes, l, n, from, to).dom().finite(),
    decreases n,
{
    if n > 0 {
        moves_finite(nodes, l, (n - 1) as nat, from, to);
    }
}

/// A checkpoint loses nothing: the segment sealed from a run of deltas,
/// merged onto the image that the run started from, gives the image that the
/// run ends in. (A rename that moves a node onto a path still to be moved is
/// left out.)
pub proof fn checkpoint_reproduces_image(base: Nodes, ds: Seq<DeltaView>, nows: Seq<i64>)
    requires
        base.dom().finite(),
        clean_run(base, ds, nows),
    ensures
        merged(base, recorded(base, ds, nows)) == replay(base, ds, nows),
{
    run_tracks(base, ds, nows);
    tracks_merged(base, recorded(base, ds, nows), replay(base, ds, nows));
}

proof fn run_tracks(base: Nodes, ds: Seq<DeltaView>, nows: Seq<i64>)
    requires
        base.dom().finite(),
        clean_run(base, ds, nows),
    ensures
        tracks(base, recorded(base, ds, nows), replay(base, ds, nows)),
    decreases ds.len(),
{
    if ds.len() > 0 {
        run_tracks(base, ds.drop_last(), nows);
        let live = replay(base, ds.drop_last(), nows);
        replay_finite(base, ds.drop_last(), nows);
        if ds.last() is Rename {
            listing_exists(live, under(below(ds.last()->from)));
        }
        tracks_step(
            base,
            recorded(base, ds.drop_last(), nows),
            live,
            ds.last(),
            nows[ds.len() - 1],
        );
    }
}

/// Folds `deltas` on top of `base` into the segment that a checkpoint
/// uploads; nodes are dated by the clock as they are created.
pub fn seal(base: FsImage, deltas: &Vec<Delta>) -> (r: (Segment, FsImage))
    requires
        forall|i: int| 0 <= i < deltas.len() ==> fits((#[trigger] deltas@[i])@),
    ensures
        exists|nows: Seq<i64>|
            nows.len() == deltas.len() && r.0.entries@ == #[trigger] recorded(
                base@,
                views(deltas@),
                nows,
            ) && r.1@ == replay(base@, views(deltas@), nows),
{
    let mut nows: Vec<i64> = Vec::new();
    let mut i: usize = 0;
    while i < deltas.len()
        invariant
            nows.len() == i,
            i <= deltas.len(),
        decreases deltas.len() - i,
    {
        nows.push(now_ms());
        i += 1;
    }
    let r = seal_at(base, deltas, &nows);
    assert(r.0.entries@ == recorded(base@, views(deltas@), nows@));
    r
}

/// Folds `deltas` on top of `base`, `nows[i]` dating what the i-th creates.
pub fn seal_at(base: FsImage, deltas: &Vec<Delta>, nows: &Vec<i64>) -> (r: (Segment, FsImage))
    requires
        nows.len() == deltas.len(),
        forall|i: int| 0 <= i < deltas.len() ==> fits((#[trigger] deltas@[i])@),
    ensures
        r.0.entries@ == recorded(base@, views(deltas@), nows@),
        r.1@ == replay(base@, views(deltas@), nows@),
{
    let ghost ds = views(deltas@);
    let ghost start = base@;
    let mut fold = DeltaImage::over(base);
    let mut i: usize = 0;
    assert(ds.take(0) =~= Seq::<DeltaView>::empty());
    while i < deltas.len()
        invariant
            i <= deltas.len(),
            nows.len() == deltas.len(),
            ds == views(deltas@),
            forall|j: int| 0 <= j < deltas.len() ==> fits((#[trigger] deltas@[j])@),
            fold.entries@ == recorded(start, ds.take(i as int), nows@),
            fold.live@ == replay(start, ds.take(i as int), nows@),
        decreases deltas.len() - i,
    {
        proof {
            assert(ds.take(i + 1).drop_last() =~= ds.take(i as int));
            assert(ds.take(i + 1).last() == deltas@[i as int]@);
        }
        fold.apply_at(&deltas[i], nows[i]);
        i += 1;
    }
    assert(ds.take(i as int) =~= ds);
    (Segment { entries: fold.entries }, fold.live)
}

} // verus!

//! File sizes that fit in 64 bits: checked where data comes in, kept by every
//! change.
use vstd::prelude::*;

use crate::fuse::store::{image_sized, sized};
use crate::fuse::{
    apply_delta, below, checked_total, fits, merged, move_first, move_one, rename_root, Changes,
    Content, DeltaView, Node, NodeView, Nodes, Segment,
};
use crate::table::{is_listing, listing, listing_exists, under};

verus! {

impl Content {
    /// Whether the block lengths add up within 64 bits.
    pub fn is_sized(&self) -> (r: bool)
        ensures
            r == sized(self@),
    {
        match self {
            Content::Inline(_) => true,
            Content::Blocks { blocks, .. } => checked_total(blocks).is_some(),
        }
    }
}

/// Whether the node is no file, or one whose size fits.
pub open spec fn node_sized(n: Option<NodeView>) -> bool {
    n is Some && n->0 is File ==> sized(n->0->File_content)
}

/// Whether the sizes of all files of a segment fit.
pub open spec fn changes_sized(c: Changes) -> bool {
    forall|k: Seq<u8>| #[trigger] c.contains_key(k) ==> node_sized(c[k])
}

impl Segment {
    /// Whether the sizes of all files fit.
    pub fn is_sized(&self) -> (r: bool)
        ensures
            r == changes_sized(self.entries@),
    {
        let n = self.entries.len();
        let ghost l = self.entries.entries();
        let mut i: usize = 0;
        while i < n
            invariant
                i <= n,
                n == l.len(),
                l == self.entries.entries(),
                is_listing(self.entries@, crate::table::any_key(), l),
                forall|j: int| 0 <= j < i ==> node_sized((#[trigger] l[j]).1),
            decreases n - i,
        {
            let v = self.entries.value_at(i);
            assert(v@ == l[i as int].1);
            if let Some(Node::File { content, .. }) = &v.0 {
                if !content.is_sized() {
                    proof {
                        assert(self.entries@.contains_key(l[i as int].0));
                        assert(self.entries@[l[i as int].0] == l[i as int].1);
                    }
                    return false;
                }
            }
            i += 1;
        }
        proof {
            assert forall|k: Seq<u8>| #[trigger] self.entries@.contains_key(k) implies node_sized(
                self.entries@[k],
            ) by {
                let j = choose|j: int| 0 <= j < l.len() && l[j].0 == k;
                assert(l[j].0 == k);
            }
        }
        true
    }
}

/// Merging a segment keeps the sizes of files within bounds.
pub proof fn merging_keeps_sizes(nodes: Nodes, changes: Changes)
    requires
        image_sized(nodes),
        changes_sized(changes),
    ensures
        image_sized(merged(nodes, changes)),
{
    let m = merged(nodes, changes);
    assert forall|k: Seq<u8>| #[trigger] m.contains_key(k) && m[k] is File implies sized(
        m[k]->File_content,
    ) by {
        if changes.contains_key(k) {
            assert(node_sized(changes[k]));
        } else {
            assert(nodes.contains_key(k));
        }
    }
}

/// Every change keeps the sizes of files within bounds.
pub proof fn deltas_keep_sizes(nodes: Nodes, d: DeltaView, now: i64)
    requires
        nodes.dom().finite(),
        image_sized(nodes),
        fits(d),
    ensures
        image_sized(apply_delta(nodes, d, now)),
{
    if let DeltaView::Rename { from, to } = d {
        let root = rename_root(nodes, from, to);
        let l = listing(root, under(below(from)));
        listing_exists(root, under(below(from)));
        moves_keep_sizes(root, l, l.len() as nat, from, to);
    }
}

proof fn moves_keep_sizes(
    nodes: Nodes,
    l: Seq<(Seq<u8>, NodeView)>,
    n: nat,
    from: Seq<u8>,
    to: Seq<u8>,
)
    requires
        image_sized(nodes),
        is_listing(nodes, under(below(from)), l),
        n <= l.len(),
    ensures
        image_sized(move_first(nodes, l, n, from, to)),
        forall|i: int|
            n <= i < l.len() ==> move_first(nodes, l, n, from, to).contains_key(
                (#[trigger] l[i]).0,
            ),
    decreases n,
{
    if n > 0 {
        moves_keep_sizes(nodes, l, (n - 1) as nat, from, to);
        let before = move_first(nodes, l, (n - 1) as nat, from, to);
        let p = l[n - 1].0;
        assert(before.contains_key(p));
        let m = move_one(before, p, from, to);
        assert forall|k: Seq<u8>| #[trigger] m.contains_key(k) && m[k] is File implies sized(
            m[k]->File_content,
        ) by {
            if k != crate::fuse::moved_to(p, from, to) {
                assert(before.contains_key(k));
            }
        }
        assert forall|i: int| n <= i < l.len() implies m.contains_key((#[trigger] l[i]).0) by {
            assert(before.contains_key(l[i].0));
            crate::order::lex_irreflexive(p);
            assert(crate::order::lex_lt(l[n - 1].0, l[i].0));
        }
    }
}

} // verus!

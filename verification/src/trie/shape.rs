//! The shape that every stored trie has: no branch that could be folded away.

use vstd::prelude::*;
use crate::node::branch::{used, BranchView, ChildView, NodeView};

verus! {

/// No branch below or at this node could be folded away: every branch has
/// a child, and a branch without a value has two.
pub open spec fn canonical(n: NodeView) -> bool
    decreases n,
{
    match n {
        NodeView::Leaf(_) => true,
        NodeView::Branch(b) => {
            &&& exists|i: int| #[trigger] used(b, i)
            &&& (b.value is Some || exists|i: int, j: int|
                i != j && #[trigger] used(b, i) && #[trigger] used(b, j))
            &&& children_canonical(b)
        },
    }
}

/// Every child of the branch that is held in memory is canonical.
pub open spec fn children_canonical(b: BranchView) -> bool
    decreases b,
{
    forall|i: int|
        0 <= i < b.children.len() ==> match #[trigger] b.children[i] {
            Some(ChildView::Node(c)) => canonical(c),
            _ => true,
        }
}

/// Whether a trie is canonical; the empty trie is.
pub open spec fn trie_canonical(root: Option<NodeView>) -> bool {
    match root {
        Some(n) => canonical(n),
        None => true,
    }
}

} // verus!

//! One content, one trie: canonical tries that map every key alike are the
//! same trie, and so have the same hash.

use vstd::prelude::*;
use crate::node::branch::{BranchView, ChildView, NodeView};
use crate::node::path::all_nibbles;
use crate::trie::insert::{lemma_lookup_branch, lemma_lookup_off_path, path_of};
use crate::trie::lookup::{lookup, resolved, starts_with, trie_lookup, trie_resolved};
use crate::trie::merkle::trie_hash;
use crate::trie::shape::{canonical, children_canonical, trie_canonical};
use crate::node::branch::used;

verus! {

/// Whether two nodes map every key alike.
pub open spec fn same_content(a: NodeView, b: NodeView) -> bool {
    forall|q: Seq<u8>| all_nibbles(q) ==> #[trigger] lookup(a, q) == lookup(b, q)
}

/// Whether two tries map every key alike.
pub open spec fn same_trie_content(a: Option<NodeView>, b: Option<NodeView>) -> bool {
    forall|q: Seq<u8>| all_nibbles(q) ==> #[trigger] trie_lookup(a, q) == trie_lookup(b, q)
}

/// A key that a canonical node holds.
pub open spec fn some_key(n: NodeView) -> Seq<u8>
    decreases n,
{
    match n {
        NodeView::Leaf(l) => l.partial_path,
        NodeView::Branch(b) => if b.value is Some {
            b.partial_path
        } else {
            let i = choose|i: int| used(b, i);
            if 0 <= i < b.children.len() {
                slot_key(b, i)
            } else {
                b.partial_path
            }
        },
    }
}

/// A key that a canonical branch holds in slot `i`.
pub open spec fn slot_key(b: BranchView, i: int) -> Seq<u8>
    decreases b,
    when 0 <= i < b.children.len()
{
    match b.children[i] {
        Some(ChildView::Node(c)) => b.partial_path.push(i as u8) + some_key(c),
        _ => b.partial_path,
    }
}

/// A canonical node holds a key.
pub proof fn lemma_some_key(n: NodeView)
    requires
        canonical(n),
        resolved(n),
    ensures
        all_nibbles(some_key(n)),
        lookup(n, some_key(n)) is Some,
        starts_with(some_key(n), path_of(n)),
    decreases n,
{
    match n {
        NodeView::Leaf(l) => {
            assert(l.partial_path.take(l.partial_path.len() as int) =~= l.partial_path);
        },
        NodeView::Branch(b) => {
            if b.value is Some {
                assert(b.partial_path.take(b.partial_path.len() as int) =~= b.partial_path);
            } else {
                let i = choose|i: int| used(b, i);
                lemma_slot_key(b, i);
            }
        },
    }
}

/// A canonical branch holds a key in each slot that is in use: one that
/// opens with the branch's path and goes on with the slot's nibble.
pub proof fn lemma_slot_key(b: BranchView, i: int)
    requires
        resolved(NodeView::Branch(b)),
        children_canonical(b),
        used(b, i),
    ensures
        all_nibbles(slot_key(b, i)),
        lookup(NodeView::Branch(b), slot_key(b, i)) is Some,
        starts_with(slot_key(b, i), b.partial_path),
        slot_key(b, i).len() > b.partial_path.len(),
        slot_key(b, i)[b.partial_path.len() as int] == i,
    decreases b,
{
    let p = b.partial_path;
    let c = p.len() as int;
    match b.children[i] {
        Some(ChildView::Node(child)) => {
            lemma_some_key(child);
            let w = slot_key(b, i);
            let tail = some_key(child);
            assert(w == p.push(i as u8) + tail);
            assert(w.take(c) =~= p);
            assert(w.skip(c + 1) =~= tail);
            assert(all_nibbles(w)) by {
                assert forall|x: int| 0 <= x < w.len() implies #[trigger] w[x] < 16 by {
                    if x < c {
                        assert(w[x] == p[x]);
                    } else if x > c {
                        assert(w[x] == tail[x - c - 1]);
                    }
                }
            }
            lemma_lookup_branch(b, w);
        },
        _ => {
            assert(false);
        },
    }
}

/// A canonical node's path is no longer than the path of any node with the same content.
proof fn lemma_path_not_longer(a: NodeView, b: NodeView)
    requires
        canonical(a),
        resolved(a),
        resolved(b),
        same_content(a, b),
    ensures
        path_of(b).len() <= path_of(a).len(),
{
    let pa = path_of(a);
    let pb = path_of(b);
    if pb.len() > pa.len() {
        let own_path_is_key = match a {
            NodeView::Leaf(_) => true,
            NodeView::Branch(x) => x.value is Some,
        };
        if own_path_is_key {
            assert(pa.take(pa.len() as int) =~= pa);
            match a {
                NodeView::Leaf(_) => {},
                NodeView::Branch(x) => {
                    lemma_lookup_branch(x, pa);
                },
            }
            assert(lookup(a, pa) is Some);
            assert(lookup(b, pa) is Some);
            lemma_lookup_off_path(b, pa);
        } else {
            let x = a->Branch_0;
            let (i, j) = choose|i: int, j: int| i != j && used(x, i) && used(x, j);
            lemma_slot_key(x, i);
            lemma_slot_key(x, j);
            let wi = slot_key(x, i);
            let wj = slot_key(x, j);
            assert(lookup(b, wi) == lookup(a, wi));
            assert(lookup(b, wj) == lookup(a, wj));
            if !starts_with(wi, pb) {
                lemma_lookup_off_path(b, wi);
            }
            if !starts_with(wj, pb) {
                lemma_lookup_off_path(b, wj);
            }
            assert(wi.take(pb.len() as int)[pa.len() as int] == pb[pa.len() as int]);
            assert(wj.take(pb.len() as int)[pa.len() as int] == pb[pa.len() as int]);
        }
    }
}

/// Canonical nodes with the same content have the same path.
proof fn lemma_same_path(a: NodeView, b: NodeView)
    requires
        canonical(a),
        resolved(a),
        canonical(b),
        resolved(b),
        same_content(a, b),
    ensures
        path_of(a) == path_of(b),
{
    lemma_path_not_longer(a, b);
    assert(same_content(b, a)) by {
        assert forall|q: Seq<u8>| all_nibbles(q) implies #[trigger] lookup(b, q) == lookup(a, q) by {
            assert(lookup(a, q) == lookup(b, q));
        }
    }
    lemma_path_not_longer(b, a);
    lemma_some_key(a);
    let w = some_key(a);
    assert(lookup(b, w) == lookup(a, w));
    if !starts_with(w, path_of(b)) {
        lemma_lookup_off_path(b, w);
    }
    assert(path_of(a) =~= path_of(b));
}

/// A branch maps a key that opens with its path and a nibble as the child
/// in that nibble's slot maps the rest.
proof fn lemma_lookup_through(b: BranchView, i: int, q: Seq<u8>)
    requires
        b.children.len() == 16,
        0 <= i < 16,
        all_nibbles(b.partial_path),
        all_nibbles(q),
    ensures
        all_nibbles(b.partial_path.push(i as u8) + q),
        lookup(NodeView::Branch(b), b.partial_path.push(i as u8) + q) == match b.children[i] {
            Some(ChildView::Node(c)) => lookup(c, q),
            _ => None,
        },
{
    let p = b.partial_path;
    let c = p.len() as int;
    let full = p.push(i as u8) + q;
    assert(full.take(c) =~= p);
    assert(full.skip(c + 1) =~= q);
    assert(all_nibbles(full)) by {
        assert forall|x: int| 0 <= x < full.len() implies #[trigger] full[x] < 16 by {
            if x < c {
                assert(full[x] == p[x]);
            } else if x > c {
                assert(full[x] == q[x - c - 1]);
            }
        }
    }
    lemma_lookup_branch(b, full);
}

/// Canonical nodes with the same content are the same node.
pub proof fn lemma_same_content_same_node(a: NodeView, b: NodeView)
    requires
        canonical(a),
        resolved(a),
        canonical(b),
        resolved(b),
        same_content(a, b),
    ensures
        a == b,
    decreases a,
{
    lemma_same_path(a, b);
    let p = path_of(a);
    assert(p.take(p.len() as int) =~= p);
    match (a, b) {
        (NodeView::Leaf(x), NodeView::Leaf(y)) => {
            assert(lookup(a, p) == lookup(b, p));
        },
        (NodeView::Leaf(x), NodeView::Branch(y)) => {
            let i = choose|i: int| used(y, i);
            lemma_slot_key(y, i);
            assert(lookup(a, slot_key(y, i)) == lookup(b, slot_key(y, i)));
        },
        (NodeView::Branch(x), NodeView::Leaf(y)) => {
            let i = choose|i: int| used(x, i);
            lemma_slot_key(x, i);
            assert(lookup(a, slot_key(x, i)) == lookup(b, slot_key(x, i)));
        },
        (NodeView::Branch(x), NodeView::Branch(y)) => {
            lemma_lookup_branch(x, p);
            lemma_lookup_branch(y, p);
            assert(lookup(a, p) == lookup(b, p));
            assert(x.value == y.value);
            assert forall|i: int| 0 <= i < 16 implies x.children[i] == y.children[i] by {
                match (x.children[i], y.children[i]) {
                    (Some(ChildView::Node(cx)), Some(ChildView::Node(cy))) => {
                        assert(same_content(cx, cy)) by {
                            assert forall|q: Seq<u8>| all_nibbles(q) implies #[trigger] lookup(
                                cx,
                                q,
                            ) == lookup(cy, q) by {
                                lemma_lookup_through(x, i, q);
                                lemma_lookup_through(y, i, q);
                                let full = p.push(i as u8) + q;
                                assert(lookup(a, full) == lookup(b, full));
                            }
                        }
                        lemma_same_content_same_node(cx, cy);
                    },
                    (Some(ChildView::Node(cx)), None) => {
                        lemma_slot_key(x, i);
                        let w = slot_key(x, i);
                        assert(lookup(a, w) == lookup(b, w));
                        lemma_lookup_branch(y, w);
                    },
                    (None, Some(ChildView::Node(cy))) => {
                        lemma_slot_key(y, i);
                        let w = slot_key(y, i);
                        assert(lookup(a, w) == lookup(b, w));
                        lemma_lookup_branch(x, w);
                    },
                    (None, None) => {},
                    _ => {
                        assert(false);
                    },
                }
            }
            assert(x.children =~= y.children);
        },
    }
}

/// The root hash depends on the content alone: canonical tries that map
/// every key alike, however they were built, are the same trie and have
/// the same root hash.
pub proof fn lemma_same_content_same_hash(a: Option<NodeView>, b: Option<NodeView>)
    requires
        trie_canonical(a),
        trie_resolved(a),
        trie_canonical(b),
        trie_resolved(b),
        same_trie_content(a, b),
    ensures
        a == b,
        trie_hash(a) == trie_hash(b),
{
    match (a, b) {
        (Some(x), Some(y)) => {
            assert(same_content(x, y)) by {
                assert forall|q: Seq<u8>| all_nibbles(q) implies #[trigger] lookup(x, q) == lookup(
                    y,
                    q,
                ) by {
                    assert(trie_lookup(a, q) == trie_lookup(b, q));
                }
            }
            lemma_same_content_same_node(x, y);
        },
        (Some(x), None) => {
            lemma_some_key(x);
            assert(trie_lookup(a, some_key(x)) == trie_lookup(b, some_key(x)));
        },
        (None, Some(y)) => {
            lemma_some_key(y);
            assert(trie_lookup(a, some_key(y)) == trie_lookup(b, some_key(y)));
        },
        (None, None) => {},
    }
}

} // verus!

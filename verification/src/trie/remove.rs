//! Removal from a trie of resolved nodes, folding away what a removal leaves bare.

use vstd::prelude::*;
use crate::node::branch::{
    child_view,
    BranchNode,
    BranchView,
    Child,
    ChildView,
    LeafNode,
    Node,
    NodeView,
};
use crate::node::codec::append_bytes;
use crate::node::path::{all_nibbles, Path};
use crate::trie::insert::{
    lemma_canonical_with_path,
    lemma_lookup_branch,
    lemma_lookup_off_path,
    lemma_lookup_shortened,
    path_of,
    with_path,
};
use crate::trie::lookup::{
    lookup,
    opens,
    resolved,
    same_from,
    starts_with,
    trie_lookup,
    trie_resolved,
};
use crate::trie::shape::{canonical, children_canonical, trie_canonical};
use crate::node::branch::used;

verus! {

/// What a trie holds, as the view of an optional root.
pub open spec fn root_view(root: Option<Node>) -> Option<NodeView> {
    match root {
        Some(n) => Some(n@),
        None => None,
    }
}

impl Node {
    /// This node with `prefix` put before its partial path.
    fn prepend(self, prefix: Vec<u8>) -> (out: Node)
        ensures
            out@ == with_path(self@, prefix@ + path_of(self@)),
    {
        let mut path = prefix;
        match self {
            Node::Leaf(l) => {
                append_bytes(&mut path, l.partial_path.0.as_slice());
                Node::Leaf(LeafNode { partial_path: Path(path), value: l.value })
            },
            Node::Branch(b) => {
                let branch: BranchNode = *b;
                let ghost before = branch@;
                append_bytes(&mut path, branch.partial_path.0.as_slice());
                let out = BranchNode {
                    partial_path: Path(path),
                    value: branch.value,
                    children: branch.children,
                };
                assert(out@.children =~= before.children);
                Node::Branch(Box::new(out))
            },
        }
    }

    /// Takes the nibbles `key[start..]`, counted from this node, and their
    /// value out. Every other key keeps what it had. A branch that is left
    /// with no value and one child is folded into that child, and one left
    /// with no child becomes a leaf or nothing.
    pub fn remove(self, key: &[u8], start: usize) -> (out: Option<Node>)
        requires
            resolved(self@),
            all_nibbles(key@),
            start <= key@.len(),
        ensures
            trie_resolved(root_view(out)),
            canonical(self@) ==> trie_canonical(root_view(out)),
            forall|q: Seq<u8>|
                all_nibbles(q) ==> #[trigger] trie_lookup(root_view(out), q) == if q == key@.skip(
                    start as int,
                ) {
                    None
                } else {
                    lookup(self@, q)
                },
        decreases self,
    {
        let ghost k = key@.skip(start as int);
        match self {
            Node::Leaf(l) => {
                if same_from(key, start, &l.partial_path.0) {
                    None
                } else {
                    Some(Node::Leaf(l))
                }
            },
            Node::Branch(b) => {
                let mut branch: BranchNode = *b;
                let ghost before = branch@;
                let ghost p = before.partial_path;
                let n = branch.partial_path.len();
                if !opens(key, start, &branch.partial_path.0) {
                    proof {
                        lemma_lookup_off_path(NodeView::Branch(before), k);
                    }
                    return Some(Node::Branch(Box::new(branch)));
                }
                if key.len() - start == n {
                    branch.value = None;
                    proof {
                        assert(branch@.children =~= before.children);
                        assert(k.take(n as int) =~= k);
                        lemma_clear_value(before, branch@);
                    }
                    return branch.fold();
                }
                let i = key[start + n];
                assert(k[n as int] == i);
                assert(key@.skip(start + n + 1) =~= k.skip(n + 1));
                assert(before.children[i as int] == child_view(branch.children@[i as int]));
                let mut slot: Option<Child> = None;
                std::mem::swap(&mut slot, &mut branch.children[i as usize]);
                match slot {
                    Some(Child::Node(child)) => {
                        let shrunk = child.remove(key, start + n + 1);
                        let ghost shrunk_view = root_view(shrunk);
                        let refill = match shrunk {
                            Some(node) => Some(Child::Node(node)),
                            None => None,
                        };
                        branch.update_child(i, refill);
                        proof {
                            let tv = branch@;
                            assert forall|j: int| 0 <= j < 16 implies tv.children[j] == if j == i {
                                match shrunk_view {
                                    Some(s) => Some(ChildView::Node(s)),
                                    None => None,
                                }
                            } else {
                                before.children[j]
                            } by {
                                assert(tv.children[j] == child_view(branch.children@[j]));
                            }
                            lemma_child_shrunk(before, tv, shrunk_view, k);
                        }
                        branch.fold()
                    },
                    _ => {
                        proof {
                            lemma_lookup_branch(before, k);
                        }
                        branch.update_child(i, None);
                        proof {
                            assert forall|j: int| 0 <= j < 16 implies branch@.children[j]
                                == before.children[j] by {
                                assert(branch@.children[j] == child_view(branch.children@[j]));
                            }
                            assert(branch@.children =~= before.children);
                        }
                        Some(Node::Branch(Box::new(branch)))
                    },
                }
            },
        }
    }
}

impl BranchNode {
    /// Folds this branch away if it can be: with no child it becomes a leaf
    /// with its value, or nothing if it has none; with no value and one
    /// child it becomes that child, with the branch's path and the child's
    /// nibble put before the child's path. It maps every key as before.
    pub fn fold(self) -> (out: Option<Node>)
        requires
            resolved(NodeView::Branch(self@)),
        ensures
            trie_resolved(root_view(out)),
            children_canonical(self@) ==> trie_canonical(root_view(out)),
            forall|q: Seq<u8>|
                all_nibbles(q) ==> #[trigger] trie_lookup(root_view(out), q) == lookup(
                    NodeView::Branch(self@),
                    q,
                ),
    {
        let ghost before = self@;
        let census = self.census();
        let mut branch = self;
        if census.count == 0 {
            match branch.value {
                None => {
                    proof {
                        lemma_bare_branch(before);
                    }
                    None
                },
                Some(v) => {
                    let out = Node::Leaf(LeafNode { partial_path: branch.partial_path, value: v });
                    proof {
                        lemma_bare_branch(before);
                    }
                    Some(out)
                },
            }
        } else if census.count == 1 && branch.value.is_none() {
            let i = census.first;
            assert(before.children[i as int] == child_view(branch.children@[i as int]));
            let mut slot: Option<Child> = None;
            std::mem::swap(&mut slot, &mut branch.children[i as usize]);
            match slot {
                Some(Child::Node(child)) => {
                    let mut prefix = branch.partial_path.0;
                    prefix.push(i);
                    let out = child.prepend(prefix);
                    proof {
                        lemma_fold_into_child(before, i as int, out@);
                    }
                    Some(out)
                },
                _ => {
                    assert(false);
                    None
                },
            }
        } else {
            proof {
                if children_canonical(before) {
                    assert(used(before, census.first as int));
                    if census.count == 2 {
                        assert(used(before, census.second as int));
                    }
                }
            }
            Some(Node::Branch(Box::new(branch)))
        }
    }
}

/// A branch without children maps its own path to its value and nothing else.
proof fn lemma_bare_branch(b: BranchView)
    requires
        resolved(NodeView::Branch(b)),
        forall|j: int| 0 <= j < 16 ==> !used(b, j),
    ensures
        forall|q: Seq<u8>|
            all_nibbles(q) ==> #[trigger] lookup(NodeView::Branch(b), q) == if q
                == b.partial_path {
                b.value
            } else {
                None
            },
{
    let p = b.partial_path;
    assert forall|q: Seq<u8>| all_nibbles(q) implies #[trigger] lookup(NodeView::Branch(b), q)
        == if q == p {
        b.value
    } else {
        None
    } by {
        lemma_lookup_branch(b, q);
        if starts_with(q, p) {
            if q.len() == p.len() {
                assert(q.take(p.len() as int) =~= q);
            } else {
                let j = q[p.len() as int] as int;
                assert(!used(b, j));
            }
        } else if q == p {
            assert(q.take(p.len() as int) =~= q);
        }
    }
}

/// Clearing the value of a branch empties its own path, and nothing else.
proof fn lemma_clear_value(before: BranchView, after: BranchView)
    requires
        resolved(NodeView::Branch(before)),
        after.partial_path == before.partial_path,
        after.children == before.children,
        after.value is None,
    ensures
        resolved(NodeView::Branch(after)),
        children_canonical(before) ==> children_canonical(after),
        forall|q: Seq<u8>|
            all_nibbles(q) ==> #[trigger] lookup(NodeView::Branch(after), q) == if q
                == before.partial_path {
                None
            } else {
                lookup(NodeView::Branch(before), q)
            },
{
    let p = before.partial_path;
    assert forall|q: Seq<u8>| all_nibbles(q) implies #[trigger] lookup(NodeView::Branch(after), q)
        == if q == p {
        None
    } else {
        lookup(NodeView::Branch(before), q)
    } by {
        lemma_lookup_branch(after, q);
        lemma_lookup_branch(before, q);
        if starts_with(q, p) && q.len() == p.len() {
            assert(q.take(p.len() as int) =~= q);
        }
        if q == p {
            assert(q.take(p.len() as int) =~= q);
        }
    }
}

/// Replacing one child of a branch by what is left of it after the rest of
/// the key was removed removes the key from the branch.
proof fn lemma_child_shrunk(
    before: BranchView,
    after: BranchView,
    shrunk: Option<NodeView>,
    k: Seq<u8>,
)
    requires
        resolved(NodeView::Branch(before)),
        trie_resolved(shrunk),
        all_nibbles(k),
        starts_with(k, before.partial_path),
        k.len() > before.partial_path.len(),
        before.children[k[before.partial_path.len() as int] as int] matches Some(
            ChildView::Node(child),
        ) && (canonical(child) ==> trie_canonical(shrunk)) && (forall|q: Seq<u8>|
            all_nibbles(q) ==> #[trigger] trie_lookup(shrunk, q) == if q == k.skip(
                before.partial_path.len() as int + 1,
            ) {
                None
            } else {
                lookup(child, q)
            }),
        after.partial_path == before.partial_path,
        after.value == before.value,
        after.children.len() == 16,
        forall|j: int|
            0 <= j < 16 ==> #[trigger] after.children[j] == if j
                == k[before.partial_path.len() as int] {
                match shrunk {
                    Some(s) => Some(ChildView::Node(s)),
                    None => None,
                }
            } else {
                before.children[j]
            },
    ensures
        resolved(NodeView::Branch(after)),
        children_canonical(before) ==> children_canonical(after),
        forall|q: Seq<u8>|
            all_nibbles(q) ==> #[trigger] lookup(NodeView::Branch(after), q) == if q == k {
                None
            } else {
                lookup(NodeView::Branch(before), q)
            },
{
    let p = before.partial_path;
    let c = p.len() as int;
    let i = k[c];
    assert(i < 16);
    assert forall|j: int| 0 <= j < after.children.len() implies match #[trigger] after.children[j] {
        None => true,
        Some(ChildView::Node(ch)) => resolved(ch),
        Some(ChildView::AddressWithHash(_, _)) => false,
    } by {
        if j != i {
            assert(after.children[j] == before.children[j]);
        }
    }
    if children_canonical(before) {
        assert forall|j: int| 0 <= j < after.children.len() implies match #[trigger] after.children[j] {
            Some(ChildView::Node(ch)) => canonical(ch),
            _ => true,
        } by {
            if j != i {
                assert(after.children[j] == before.children[j]);
            }
        }
    }
    assert forall|q: Seq<u8>| all_nibbles(q) implies #[trigger] lookup(NodeView::Branch(after), q)
        == if q == k {
        None
    } else {
        lookup(NodeView::Branch(before), q)
    } by {
        lemma_lookup_branch(after, q);
        lemma_lookup_branch(before, q);
        if starts_with(q, p) && q.len() > p.len() {
            let j = q[c];
            if j == i {
                let q2 = q.skip(c + 1);
                assert(all_nibbles(q2));
                assert(trie_lookup(shrunk, q2) == if q2 == k.skip(c + 1) {
                    None
                } else {
                    lookup(before.children[i as int]->0->Node_0, q2)
                });
                if q2 == k.skip(c + 1) {
                    crate::trie::insert::lemma_same_key(q, k, c);
                }
            } else {
                assert(after.children[j as int] == before.children[j as int]);
            }
        }
    }
}

/// A branch with no value and one child maps keys as that child does once
/// the branch's path and the child's nibble stand before the child's path.
proof fn lemma_fold_into_child(b: BranchView, i: int, merged: NodeView)
    requires
        resolved(NodeView::Branch(b)),
        b.value is None,
        0 <= i < 16,
        forall|j: int| 0 <= j < 16 && j != i ==> !used(b, j),
        b.children[i] matches Some(ChildView::Node(child)) && merged == with_path(
            child,
            b.partial_path.push(i as u8) + path_of(child),
        ),
    ensures
        resolved(merged),
        children_canonical(b) ==> canonical(merged),
        forall|q: Seq<u8>|
            all_nibbles(q) ==> #[trigger] lookup(merged, q) == lookup(NodeView::Branch(b), q),
{
    let child = b.children[i]->0->Node_0;
    let p = b.partial_path;
    let c = p.len() as int;
    let front = p.push(i as u8);
    let long = front + path_of(child);
    assert(resolved(child));
    assert(path_of(merged) == long);
    assert(all_nibbles(long)) by {
        assert forall|x: int| 0 <= x < long.len() implies #[trigger] long[x] < 16 by {
            if x < c {
                assert(long[x] == p[x]);
            } else if x > c {
                assert(long[x] == path_of(child)[x - c - 1]);
            }
        }
    }
    if children_canonical(b) {
        lemma_canonical_with_path(child, long);
    }
    assert(long.skip(c + 1) =~= path_of(child));
    assert(long.take(c + 1) =~= front);
    assert(with_path(merged, long.skip(c + 1)) == child);
    assert forall|q: Seq<u8>| all_nibbles(q) implies #[trigger] lookup(merged, q) == lookup(
        NodeView::Branch(b),
        q,
    ) by {
        lemma_lookup_branch(b, q);
        if starts_with(q, front) {
            let q2 = q.skip(c + 1);
            lemma_lookup_shortened(merged, c + 1, q2);
            assert(front + q2 =~= q) by {
                assert forall|x: int| 0 <= x < q.len() implies (front + q2)[x] == q[x] by {
                    if x <= c {
                        assert(q.take(c + 1)[x] == front[x]);
                    }
                }
            }
            assert(starts_with(q, p)) by {
                assert(q.take(c) =~= q.take(c + 1).take(c));
                assert(front.take(c) =~= p);
            }
            assert(q[c] == i) by {
                assert(q.take(c + 1)[c] == front[c]);
            }
        } else {
            assert(!starts_with(q, long)) by {
                if starts_with(q, long) {
                    assert(q.take(c + 1) =~= q.take(long.len() as int).take(c + 1));
                }
            }
            lemma_lookup_off_path(merged, q);
            if starts_with(q, p) && q.len() > p.len() {
                let j = q[c] as int;
                if j == i {
                    assert(q.take(c + 1) =~= front) by {
                        assert forall|x: int| 0 <= x < c + 1 implies q.take(c + 1)[x]
                            == front[x] by {
                            if x < c {
                                assert(q.take(c)[x] == p[x]);
                            }
                        }
                    }
                } else {
                    assert(!used(b, j));
                }
            }
        }
    }
}

} // verus!

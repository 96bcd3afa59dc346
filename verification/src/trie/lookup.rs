//! What a trie of resolved nodes maps each key to.

use vstd::prelude::*;
use crate::node::branch::{
    child_view,
    copy_bytes,
    option_bytes_view,
    BranchNode,
    Child,
    ChildView,
    LeafNode,
    Node,
    NodeView,
};
use crate::node::path::all_nibbles;

verus! {

/// Whether `prefix` opens `key`.
pub open spec fn starts_with(key: Seq<u8>, prefix: Seq<u8>) -> bool {
    prefix.len() <= key.len() && key.take(prefix.len() as int) == prefix
}

/// The value that a node holds for the key `key`, counted from the node.
pub open spec fn lookup(n: NodeView, key: Seq<u8>) -> Option<Seq<u8>>
    decreases n,
{
    match n {
        NodeView::Leaf(l) => if key == l.partial_path {
            Some(l.value)
        } else {
            None
        },
        NodeView::Branch(b) => {
            let p = b.partial_path;
            if !starts_with(key, p) {
                None
            } else if key.len() == p.len() {
                b.value
            } else {
                let i = key[p.len() as int] as int;
                if i < b.children.len() {
                    match b.children[i] {
                        Some(ChildView::Node(c)) => lookup(c, key.skip(p.len() as int + 1)),
                        _ => None,
                    }
                } else {
                    None
                }
            }
        },
    }
}

/// The value that a trie holds for `key`; the empty trie holds none.
pub open spec fn trie_lookup(root: Option<NodeView>, key: Seq<u8>) -> Option<Seq<u8>> {
    match root {
        Some(n) => lookup(n, key),
        None => None,
    }
}

/// Every path holds nibbles, every branch has sixteen slots, and every
/// child is held in memory.
pub open spec fn resolved(n: NodeView) -> bool
    decreases n,
{
    match n {
        NodeView::Leaf(l) => all_nibbles(l.partial_path),
        NodeView::Branch(b) => {
            &&& all_nibbles(b.partial_path)
            &&& b.children.len() == 16
            &&& forall|i: int|
                0 <= i < b.children.len() ==> match #[trigger] b.children[i] {
                    None => true,
                    Some(ChildView::Node(c)) => resolved(c),
                    Some(ChildView::AddressWithHash(_, _)) => false,
                }
        },
    }
}

/// Whether a trie is resolved; the empty trie is.
pub open spec fn trie_resolved(root: Option<NodeView>) -> bool {
    match root {
        Some(n) => resolved(n),
        None => true,
    }
}

impl Node {
    /// A copy of this node and all below it.
    #[verifier::loop_isolation(false)]
    pub fn deep_copy(&self) -> (copy: Node)
        ensures
            copy@ == self@,
        decreases self,
    {
        match self {
            Node::Leaf(l) => Node::Leaf(
                LeafNode { partial_path: l.partial_path.copy(), value: copy_bytes(&l.value) },
            ),
            Node::Branch(b) => {
                let value = match &b.value {
                    Some(v) => Some(copy_bytes(v)),
                    None => None,
                };
                let mut children: Vec<Option<Child>> = Vec::new();
                let mut i: usize = 0;
                while i < b.children.len()
                    invariant
                        i <= b.children@.len(),
                        children@.len() == i,
                        forall|k: int|
                            0 <= k < i ==> child_view(#[trigger] children@[k]) == child_view(
                                b.children@[k],
                            ),
                    decreases b.children@.len() - i,
                {
                    let child = match &b.children[i] {
                        None => None,
                        Some(Child::AddressWithHash(a, h)) => Some(Child::AddressWithHash(*a, *h)),
                        Some(Child::Node(n)) => Some(Child::Node(n.deep_copy())),
                    };
                    children.push(child);
                    i += 1;
                }
                let copy = BranchNode { partial_path: b.partial_path.copy(), value, children };
                assert(copy@.children =~= b@.children);
                Node::Branch(Box::new(copy))
            },
        }
    }

    /// The value stored under the nibbles `key[start..]`, counted from this node.
    pub fn get(&self, key: &[u8], start: usize) -> (found: Option<Vec<u8>>)
        requires
            start <= key@.len(),
        ensures
            option_bytes_view(found) == lookup(self@, key@.skip(start as int)),
        decreases self,
    {
        let ghost rest = key@.skip(start as int);
        match self {
            Node::Leaf(l) => {
                if same_from(key, start, &l.partial_path.0) {
                    Some(copy_bytes(&l.value))
                } else {
                    None
                }
            },
            Node::Branch(b) => {
                let n = b.partial_path.len();
                if !opens(key, start, &b.partial_path.0) {
                    return None;
                }
                if key.len() - start == n {
                    return match &b.value {
                        Some(v) => Some(copy_bytes(v)),
                        None => None,
                    };
                }
                let i = key[start + n];
                assert(rest[n as int] == i);
                if (i as usize) >= b.children.len() {
                    return None;
                }
                assert(b@.children[i as int] == child_view(b.children@[i as int]));
                match &b.children[i as usize] {
                    Some(Child::Node(c)) => {
                        assert(rest.skip(n + 1) =~= key@.skip(start + n + 1));
                        c.get(key, start + n + 1)
                    },
                    _ => None,
                }
            },
        }
    }
}

/// Whether `key[start..]` is exactly `path`.
pub fn same_from(key: &[u8], start: usize, path: &Vec<u8>) -> (same: bool)
    requires
        start <= key@.len(),
    ensures
        same == (key@.skip(start as int) == path@),
{
    if key.len() - start != path.len() {
        return false;
    }
    let same = opens(key, start, path);
    proof {
        let rest = key@.skip(start as int);
        assert(rest.take(path@.len() as int) =~= rest);
    }
    same
}

/// Whether `key[start..]` begins with `path`.
pub fn opens(key: &[u8], start: usize, path: &Vec<u8>) -> (yes: bool)
    requires
        start <= key@.len(),
    ensures
        yes == starts_with(key@.skip(start as int), path@),
{
    let ghost rest = key@.skip(start as int);
    if key.len() - start < path.len() {
        return false;
    }
    let mut i: usize = 0;
    while i < path.len()
        invariant
            i <= path@.len(),
            start + path@.len() <= key@.len() <= usize::MAX,
            rest == key@.skip(start as int),
            forall|k: int| 0 <= k < i ==> rest[k] == path@[k],
        decreases path@.len() - i,
    {
        if key[start + i] != path[i] {
            proof {
                assert(rest[i as int] != path@[i as int]);
                assert(rest.take(path@.len() as int)[i as int] == rest[i as int]);
            }
            return false;
        }
        i += 1;
    }
    assert(rest.take(path@.len() as int) =~= path@);
    true
}

} // verus!

//! Insertion into a trie of resolved nodes.

use vstd::prelude::*;
use vstd::slice::{slice_subrange, slice_to_vec};
use crate::node::branch::{
    child_view,
    BranchNode,
    BranchView,
    Child,
    ChildView,
    LeafNode,
    LeafView,
    Node,
    NodeView,
};
use crate::node::path::{all_nibbles, Path};
use crate::trie::lookup::{lookup, resolved, starts_with};
use crate::trie::shape::{canonical, children_canonical};
use crate::node::branch::used;

verus! {

/// The partial path of a node.
pub open spec fn path_of(n: NodeView) -> Seq<u8> {
    match n {
        NodeView::Leaf(l) => l.partial_path,
        NodeView::Branch(b) => b.partial_path,
    }
}

/// The node with its partial path replaced.
pub open spec fn with_path(n: NodeView, path: Seq<u8>) -> NodeView {
    match n {
        NodeView::Leaf(l) => NodeView::Leaf(LeafView { partial_path: path, value: l.value }),
        NodeView::Branch(b) => NodeView::Branch(
            BranchView { partial_path: path, value: b.value, children: b.children },
        ),
    }
}

/// The leaf that holds `value` under `path`.
pub open spec fn leaf_view(path: Seq<u8>, value: Seq<u8>) -> NodeView {
    NodeView::Leaf(LeafView { partial_path: path, value })
}

/// A node looked up below its path finds nothing, unless the key is the path itself.
pub proof fn lemma_lookup_off_path(n: NodeView, q: Seq<u8>)
    requires
        !starts_with(q, path_of(n)),
    ensures
        lookup(n, q) is None,
{
    match n {
        NodeView::Leaf(l) => {
            if q == l.partial_path {
                assert(q.take(q.len() as int) =~= q);
            }
        },
        NodeView::Branch(b) => {},
    }
}

/// Cutting the front off a node's path cuts the same front off its keys.
pub proof fn lemma_lookup_shortened(n: NodeView, c: int, q: Seq<u8>)
    requires
        0 <= c <= path_of(n).len(),
    ensures
        lookup(with_path(n, path_of(n).skip(c)), q) == lookup(n, path_of(n).take(c) + q),
{
    let p = path_of(n);
    let short = p.skip(c);
    let full = p.take(c) + q;
    match n {
        NodeView::Leaf(l) => {
            if q == short {
                assert(full =~= p);
            }
            if full == p {
                assert(q =~= short);
            }
        },
        NodeView::Branch(b) => {
            if starts_with(q, short) {
                assert(full.take(p.len() as int) =~= p) by {
                    assert forall|x: int| 0 <= x < p.len() implies full[x] == p[x] by {
                        if x >= c {
                            assert(q.take(short.len() as int)[x - c] == short[x - c]);
                        }
                    }
                }
                if q.len() > short.len() {
                    assert(q[short.len() as int] == full[p.len() as int]);
                    assert(q.skip(short.len() as int + 1) =~= full.skip(p.len() as int + 1));
                }
            }
            if starts_with(full, p) {
                assert(q.take(short.len() as int) =~= short) by {
                    assert forall|k: int| 0 <= k < short.len() implies q[k] == short[k] by {
                        assert(full.take(p.len() as int)[c + k] == p[c + k]);
                    }
                }
            }
        },
    }
}

/// What a branch that stands above one or two nodes maps a key to: the key
/// must open with the branch's path; a longer key goes on into the slot of
/// its next nibble.
pub proof fn lemma_lookup_branch(b: BranchView, q: Seq<u8>)
    requires
        b.children.len() == 16,
        all_nibbles(q),
    ensures
        lookup(NodeView::Branch(b), q) == if !starts_with(q, b.partial_path) {
            None
        } else if q.len() == b.partial_path.len() {
            b.value
        } else {
            match b.children[q[b.partial_path.len() as int] as int] {
                Some(ChildView::Node(c)) => lookup(c, q.skip(b.partial_path.len() as int + 1)),
                _ => None,
            }
        },
{
    if starts_with(q, b.partial_path) && q.len() > b.partial_path.len() {
        assert(q[b.partial_path.len() as int] < 16);
    }
}

/// The number of leading nibbles that `key[start..]` and `path` share.
pub fn common_prefix(key: &[u8], start: usize, path: &Vec<u8>) -> (c: usize)
    requires
        start <= key@.len(),
    ensures
        c <= path@.len(),
        start + c <= key@.len(),
        key@.skip(start as int).take(c as int) == path@.take(c as int),
        c < path@.len() && start + c < key@.len() ==> key@[start + c] != path@[c as int],
{
    let ghost rest = key@.skip(start as int);
    let limit = if key.len() - start < path.len() {
        key.len() - start
    } else {
        path.len()
    };
    let mut c: usize = 0;
    while c < limit && key[start + c] == path[c]
        invariant
            c <= limit,
            limit <= path@.len(),
            start + limit <= key@.len() <= usize::MAX,
            rest == key@.skip(start as int),
            forall|k: int| 0 <= k < c ==> rest[k] == path@[k],
        decreases limit - c,
    {
        c += 1;
    }
    assert(rest.take(c as int) =~= path@.take(c as int));
    c
}

/// The leaf that holds `value` under `key[start..]`.
pub fn leaf_from(key: &[u8], start: usize, value: Vec<u8>) -> (leaf: Node)
    requires
        start <= key@.len(),
        all_nibbles(key@),
    ensures
        leaf@ == leaf_view(key@.skip(start as int), value@),
        resolved(leaf@),
{
    let path = slice_to_vec(slice_subrange(key, start, key.len()));
    assert(path@ =~= key@.skip(start as int));
    Node::Leaf(LeafNode { partial_path: Path(path), value })
}

impl Node {
    /// The number of nibbles of this node's partial path.
    pub fn path_len(&self) -> (n: usize)
        ensures
            n == path_of(self@).len(),
    {
        match self {
            Node::Leaf(l) => l.partial_path.len(),
            Node::Branch(b) => b.partial_path.len(),
        }
    }

    /// The length of the common prefix of this node's path and `key[start..]`.
    fn shared(&self, key: &[u8], start: usize) -> (c: usize)
        requires
            start <= key@.len(),
        ensures
            c <= path_of(self@).len(),
            start + c <= key@.len(),
            key@.skip(start as int).take(c as int) == path_of(self@).take(c as int),
            c < path_of(self@).len() && start + c < key@.len() ==> key@[start + c] != path_of(
                self@,
            )[c as int],
    {
        match self {
            Node::Leaf(l) => common_prefix(key, start, &l.partial_path.0),
            Node::Branch(b) => common_prefix(key, start, &b.partial_path.0),
        }
    }

    /// Splits this node's path after `c` nibbles: gives the nibble that
    /// follows, and the node with only what follows that nibble as its path.
    fn shorten(self, c: usize) -> (cut: (u8, Node))
        requires
            resolved(self@),
            c < path_of(self@).len(),
        ensures
            cut.0 == path_of(self@)[c as int],
            cut.0 < 16,
            cut.1@ == with_path(self@, path_of(self@).skip(c + 1)),
            resolved(cut.1@),
    {
        match self {
            Node::Leaf(l) => {
                let n = l.partial_path.0.len();
                let nibble = l.partial_path.0[c];
                let path = slice_to_vec(
                    slice_subrange(l.partial_path.0.as_slice(), c + 1, l.partial_path.0.len()),
                );
                assert(path@ =~= l.partial_path@.skip(c + 1));
                (nibble, Node::Leaf(LeafNode { partial_path: Path(path), value: l.value }))
            },
            Node::Branch(b) => {
                let branch: BranchNode = *b;
                let ghost before = branch@;
                let n = branch.partial_path.0.len();
                let nibble = branch.partial_path.0[c];
                let path = slice_to_vec(
                    slice_subrange(
                        branch.partial_path.0.as_slice(),
                        c + 1,
                        branch.partial_path.0.len(),
                    ),
                );
                assert(path@ =~= branch.partial_path@.skip(c + 1));
                let lower = BranchNode {
                    partial_path: Path(path),
                    value: branch.value,
                    children: branch.children,
                };
                assert(lower@.children =~= before.children);
                (nibble, Node::Branch(Box::new(lower)))
            },
        }
    }

    /// Stores `value` under the nibbles `key[start..]`, counted from this
    /// node, in place of what was stored there. Every other key keeps what
    /// it had.
    pub fn insert(self, key: &[u8], start: usize, value: Vec<u8>) -> (out: Node)
        requires
            resolved(self@),
            all_nibbles(key@),
            start <= key@.len(),
        ensures
            resolved(out@),
            canonical(self@) ==> canonical(out@),
            forall|q: Seq<u8>|
                all_nibbles(q) ==> #[trigger] lookup(out@, q) == if q == key@.skip(start as int) {
                    Some(value@)
                } else {
                    lookup(self@, q)
                },
        decreases self,
    {
        let ghost k = key@.skip(start as int);
        let ghost orig = self@;
        let ghost p = path_of(orig);
        let ghost v = value@;
        let rest_len = key.len() - start;
        let path_len = self.path_len();
        let c = self.shared(key, start);
        if c < path_len {
            let (old_index, lower) = self.shorten(c);
            let top_path = slice_to_vec(slice_subrange(key, start, start + c));
            assert(top_path@ =~= k.take(c as int));
            let mut top = BranchNode::new(Path(top_path), None);
            let ghost lower_view = lower@;
            top.update_child(old_index, Some(Child::Node(lower)));
            if c == rest_len {
                top.value = Some(value);
            } else {
                let i = key[start + c];
                assert(k[c as int] == i);
                let fresh = leaf_from(key, start + c + 1, value);
                assert(key@.skip(start + c + 1) =~= k.skip(c + 1));
                top.update_child(i, Some(Child::Node(fresh)));
            }
            proof {
                let tv = top@;
                assert forall|j: int| 0 <= j < 16 implies tv.children[j] == child_view(
                    top.children@[j],
                ) by {}
                assert(tv.children[old_index as int] == Some(ChildView::Node(lower_view)));
                lemma_split(orig, tv, c as int, k, v);
            }
            Node::Branch(Box::new(top))
        } else if c == rest_len {
            assert(k =~= p) by {
                assert(k.take(c as int) =~= k);
                assert(p.take(c as int) =~= p);
            }
            match self {
                Node::Leaf(l) => {
                    let out = Node::Leaf(LeafNode { partial_path: l.partial_path, value });
                    assert forall|q: Seq<u8>| all_nibbles(q) implies #[trigger] lookup(out@, q)
                        == if q == k {
                        Some(v)
                    } else {
                        lookup(orig, q)
                    } by {}
                    out
                },
                Node::Branch(b) => {
                    let mut branch: BranchNode = *b;
                    let ghost before = branch@;
                    branch.value = Some(value);
                    proof {
                        assert(branch@.children =~= before.children);
                        lemma_set_value(before, branch@);
                    }
                    Node::Branch(Box::new(branch))
                },
            }
        } else {
            assert(p.take(c as int) =~= p);
            assert(starts_with(k, p));
            let i = key[start + c];
            assert(k[c as int] == i);
            assert(key@.skip(start + c + 1) =~= k.skip(c + 1));
            match self {
                Node::Leaf(l) => {
                    let fresh = leaf_from(key, start + c + 1, value);
                    let mut top = BranchNode::new(l.partial_path, Some(l.value));
                    top.update_child(i, Some(Child::Node(fresh)));
                    proof {
                        let tv = top@;
                        assert forall|j: int| 0 <= j < 16 implies tv.children[j] == child_view(
                            top.children@[j],
                        ) by {}
                        lemma_leaf_grows(orig, tv, k, v);
                    }
                    Node::Branch(Box::new(top))
                },
                Node::Branch(b) => {
                    let mut branch: BranchNode = *b;
                    let ghost before = branch@;
                    assert(before.children[i as int] == child_view(branch.children@[i as int]));
                    let mut slot: Option<Child> = None;
                    std::mem::swap(&mut slot, &mut branch.children[i as usize]);
                    let grown = match slot {
                        Some(Child::Node(child)) => child.insert(key, start + c + 1, value),
                        _ => leaf_from(key, start + c + 1, value),
                    };
                    let ghost grown_view = grown@;
                    branch.update_child(i, Some(Child::Node(grown)));
                    proof {
                        let tv = branch@;
                        assert forall|j: int| 0 <= j < 16 implies tv.children[j] == if j == i {
                            Some(ChildView::Node(grown_view))
                        } else {
                            before.children[j]
                        } by {
                            assert(tv.children[j] == child_view(branch.children@[j]));
                        }
                        lemma_descend(before, tv, grown_view, k, v);
                    }
                    Node::Branch(Box::new(branch))
                },
            }
        }
    }
}

/// Whether a node is canonical does not depend on its path.
pub proof fn lemma_canonical_with_path(n: NodeView, path: Seq<u8>)
    ensures
        canonical(with_path(n, path)) == canonical(n),
{
    match n {
        NodeView::Leaf(_) => {},
        NodeView::Branch(b) => {
            let b2 = BranchView { partial_path: path, value: b.value, children: b.children };
            assert(children_canonical(b2) == children_canonical(b));
            assert forall|i: int| used(b2, i) == used(b, i) by {}
            if canonical(n) {
                let i = choose|i: int| used(b, i);
                assert(used(b2, i));
                if b.value is None {
                    let (x, y) = choose|x: int, y: int| x != y && used(b, x) && used(b, y);
                    assert(used(b2, x) && used(b2, y));
                }
            }
            if canonical(with_path(n, path)) {
                let i = choose|i: int| used(b2, i);
                assert(used(b, i));
                if b.value is None {
                    let (x, y) = choose|x: int, y: int| x != y && used(b2, x) && used(b2, y);
                    assert(used(b, x) && used(b, y));
                }
            }
        },
    }
}

/// What a child slot maps a key to.
pub open spec fn slot_lookup(slot: Option<ChildView>, q: Seq<u8>) -> Option<Seq<u8>> {
    match slot {
        Some(ChildView::Node(c)) => lookup(c, q),
        _ => None,
    }
}

/// Two keys with the same first `c + 1` nibbles and the same rest are the same key.
pub proof fn lemma_same_key(q: Seq<u8>, k: Seq<u8>, c: int)
    requires
        0 <= c < q.len(),
        c < k.len(),
        q.take(c) == k.take(c),
        q[c] == k[c],
        q.skip(c + 1) == k.skip(c + 1),
    ensures
        q == k,
{
    let qs = q.skip(c + 1);
    let ks = k.skip(c + 1);
    assert(qs.len() == q.len() - (c + 1));
    assert(ks.len() == k.len() - (c + 1));
    assert(q.len() == k.len());
    assert forall|x: int| 0 <= x < q.len() implies q[x] == k[x] by {
        if x < c {
            assert(q.take(c)[x] == q[x]);
            assert(k.take(c)[x] == k[x]);
        } else if x > c {
            assert(qs[x - c - 1] == q[x]);
            assert(ks[x - c - 1] == k[x]);
        }
    }
    assert(q =~= k);
}

/// A new branch above a node whose path parts from the key after `c`
/// nibbles: the node keeps its keys, and the key gets its value.
proof fn lemma_split(orig: NodeView, top: BranchView, c: int, k: Seq<u8>, v: Seq<u8>)
    requires
        resolved(orig),
        all_nibbles(k),
        0 <= c < path_of(orig).len(),
        c <= k.len(),
        k.take(c) == path_of(orig).take(c),
        c < k.len() ==> k[c] != path_of(orig)[c],
        top.partial_path == k.take(c),
        top.children.len() == 16,
        top.value == (if c == k.len() {
            Some(v)
        } else {
            None
        }),
        forall|j: int|
            0 <= j < 16 ==> #[trigger] top.children[j] == if j == path_of(orig)[c] {
                Some(ChildView::Node(with_path(orig, path_of(orig).skip(c + 1))))
            } else if c < k.len() && j == k[c] {
                Some(ChildView::Node(leaf_view(k.skip(c + 1), v)))
            } else {
                None
            },
    ensures
        resolved(NodeView::Branch(top)),
        canonical(orig) ==> canonical(NodeView::Branch(top)),
        forall|q: Seq<u8>|
            all_nibbles(q) ==> #[trigger] lookup(NodeView::Branch(top), q) == if q == k {
                Some(v)
            } else {
                lookup(orig, q)
            },
{
    let p = path_of(orig);
    let pre = k.take(c);
    let old_index = p[c];
    assert(old_index < 16);
    if canonical(orig) {
        lemma_canonical_with_path(orig, p.skip(c + 1));
        assert(used(top, old_index as int));
        if c < k.len() {
            assert(k[c] < 16);
            assert(used(top, k[c] as int));
        }
        assert(children_canonical(top));
    }
    assert(all_nibbles(pre));
    assert(resolved(with_path(orig, p.skip(c + 1)))) by {
        assert(all_nibbles(p.skip(c + 1)));
    }
    if c < k.len() {
        assert(all_nibbles(k.skip(c + 1)));
    }
    assert forall|j: int| 0 <= j < top.children.len() implies match #[trigger] top.children[j] {
        None => true,
        Some(ChildView::Node(ch)) => resolved(ch),
        Some(ChildView::AddressWithHash(_, _)) => false,
    } by {}
    assert forall|q: Seq<u8>| all_nibbles(q) implies #[trigger] lookup(NodeView::Branch(top), q)
        == if q == k {
        Some(v)
    } else {
        lookup(orig, q)
    } by {
        lemma_lookup_branch(top, q);
        if !starts_with(q, pre) {
            if starts_with(q, p) {
                assert(q.take(c) =~= q.take(p.len() as int).take(c));
            }
            lemma_lookup_off_path(orig, q);
        } else if q.len() == c {
            assert(q.take(c) =~= q);
            lemma_lookup_off_path(orig, q);
            if c == k.len() {
                assert(k.take(c) =~= k);
            }
        } else {
            let j = q[c];
            if j == old_index {
                lemma_lookup_shortened(orig, c + 1, q.skip(c + 1));
                assert(p.take(c + 1) + q.skip(c + 1) =~= q) by {
                    assert forall|x: int| 0 <= x < q.len() implies (p.take(c + 1) + q.skip(
                        c + 1,
                    ))[x] == q[x] by {
                        if x < c {
                            assert(q.take(c)[x] == p.take(c)[x]);
                        }
                    }
                }
            } else {
                assert(!starts_with(q, p)) by {
                    if starts_with(q, p) {
                        assert(q.take(p.len() as int)[c] == p[c]);
                    }
                }
                lemma_lookup_off_path(orig, q);
                if c < k.len() && j == k[c] {
                    if q.skip(c + 1) == k.skip(c + 1) {
                        lemma_same_key(q, k, c);
                    }
                }
            }
        }
    }
}

/// Setting the value of a branch changes what its own path maps to, and nothing else.
proof fn lemma_set_value(before: BranchView, after: BranchView)
    requires
        resolved(NodeView::Branch(before)),
        after.partial_path == before.partial_path,
        after.children == before.children,
    ensures
        resolved(NodeView::Branch(after)),
        canonical(NodeView::Branch(before)) && after.value is Some ==> canonical(
            NodeView::Branch(after),
        ),
        forall|q: Seq<u8>|
            all_nibbles(q) ==> #[trigger] lookup(NodeView::Branch(after), q) == if q
                == before.partial_path {
                after.value
            } else {
                lookup(NodeView::Branch(before), q)
            },
{
    let p = before.partial_path;
    if canonical(NodeView::Branch(before)) {
        let i = choose|i: int| used(before, i);
        assert(used(after, i));
        assert(children_canonical(after));
    }
    assert forall|q: Seq<u8>| all_nibbles(q) implies #[trigger] lookup(NodeView::Branch(after), q)
        == if q == p {
        after.value
    } else {
        lookup(NodeView::Branch(before), q)
    } by {
        lemma_lookup_branch(after, q);
        lemma_lookup_branch(before, q);
        if starts_with(q, p) && q.len() == p.len() {
            assert(q.take(p.len() as int) =~= q);
        }
        if q == p {
            assert(q.take(p.len() as int) =~= q);
        }
    }
}

/// A leaf whose path opens the key becomes a branch with the leaf's value
/// and one child for the rest of the key.
proof fn lemma_leaf_grows(orig: NodeView, top: BranchView, k: Seq<u8>, v: Seq<u8>)
    requires
        orig is Leaf,
        resolved(orig),
        all_nibbles(k),
        starts_with(k, path_of(orig)),
        k.len() > path_of(orig).len(),
        top.partial_path == path_of(orig),
        top.value == Some(orig->Leaf_0.value),
        top.children.len() == 16,
        forall|j: int|
            0 <= j < 16 ==> #[trigger] top.children[j] == if j == k[path_of(orig).len() as int] {
                Some(ChildView::Node(leaf_view(k.skip(path_of(orig).len() as int + 1), v)))
            } else {
                None
            },
    ensures
        resolved(NodeView::Branch(top)),
        canonical(NodeView::Branch(top)),
        forall|q: Seq<u8>|
            all_nibbles(q) ==> #[trigger] lookup(NodeView::Branch(top), q) == if q == k {
                Some(v)
            } else {
                lookup(orig, q)
            },
{
    let p = path_of(orig);
    let c = p.len() as int;
    assert(all_nibbles(k.skip(c + 1)));
    assert(k[c] < 16);
    assert(used(top, k[c] as int));
    assert(children_canonical(top));
    assert forall|j: int| 0 <= j < top.children.len() implies match #[trigger] top.children[j] {
        None => true,
        Some(ChildView::Node(ch)) => resolved(ch),
        Some(ChildView::AddressWithHash(_, _)) => false,
    } by {}
    assert forall|q: Seq<u8>| all_nibbles(q) implies #[trigger] lookup(NodeView::Branch(top), q)
        == if q == k {
        Some(v)
    } else {
        lookup(orig, q)
    } by {
        lemma_lookup_branch(top, q);
        if starts_with(q, p) {
            if q.len() == p.len() {
                assert(q.take(c) =~= q);
            } else if q[c] == k[c] && q.skip(c + 1) == k.skip(c + 1) {
                lemma_same_key(q, k, c);
            }
        } else {
            if q == p {
                assert(q.take(c) =~= q);
            }
        }
    }
}

/// Replacing one child of a branch by a node that holds the rest of the
/// key, and otherwise what the child held, stores the key in the branch.
proof fn lemma_descend(
    before: BranchView,
    after: BranchView,
    grown: NodeView,
    k: Seq<u8>,
    v: Seq<u8>,
)
    requires
        resolved(NodeView::Branch(before)),
        resolved(grown),
        all_nibbles(k),
        starts_with(k, before.partial_path),
        k.len() > before.partial_path.len(),
        after.partial_path == before.partial_path,
        after.value == before.value,
        after.children.len() == 16,
        forall|j: int|
            0 <= j < 16 ==> #[trigger] after.children[j] == if j
                == k[before.partial_path.len() as int] {
                Some(ChildView::Node(grown))
            } else {
                before.children[j]
            },
        forall|q: Seq<u8>|
            all_nibbles(q) ==> #[trigger] lookup(grown, q) == if q == k.skip(
                before.partial_path.len() as int + 1,
            ) {
                Some(v)
            } else {
                slot_lookup(before.children[k[before.partial_path.len() as int] as int], q)
            },
    ensures
        resolved(NodeView::Branch(after)),
        canonical(NodeView::Branch(before)) && canonical(grown) ==> canonical(
            NodeView::Branch(after),
        ),
        forall|q: Seq<u8>|
            all_nibbles(q) ==> #[trigger] lookup(NodeView::Branch(after), q) == if q == k {
                Some(v)
            } else {
                lookup(NodeView::Branch(before), q)
            },
{
    let p = before.partial_path;
    let c = p.len() as int;
    let i = k[c];
    assert(i < 16);
    if canonical(NodeView::Branch(before)) && canonical(grown) {
        assert(used(after, i as int));
        if before.value is None {
            let (a, b) = choose|a: int, b: int| a != b && used(before, a) && used(before, b);
            assert(used(after, a));
            assert(used(after, b));
        }
        assert forall|j: int| 0 <= j < after.children.len() implies match #[trigger] after.children[j] {
            Some(ChildView::Node(ch)) => canonical(ch),
            _ => true,
        } by {
            if j != i {
                assert(after.children[j] == before.children[j]);
            }
        }
    }
    assert forall|j: int| 0 <= j < after.children.len() implies match #[trigger] after.children[j] {
        None => true,
        Some(ChildView::Node(ch)) => resolved(ch),
        Some(ChildView::AddressWithHash(_, _)) => false,
    } by {
        if j != i {
            assert(after.children[j] == before.children[j]);
        }
    }
    assert forall|q: Seq<u8>| all_nibbles(q) implies #[trigger] lookup(NodeView::Branch(after), q)
        == if q == k {
        Some(v)
    } else {
        lookup(NodeView::Branch(before), q)
    } by {
        lemma_lookup_branch(after, q);
        lemma_lookup_branch(before, q);
        if starts_with(q, p) && q.len() > p.len() {
            let j = q[c];
            if j == i {
                let q2 = q.skip(c + 1);
                assert(all_nibbles(q2));
                if q2 == k.skip(c + 1) {
                    lemma_same_key(q, k, c);
                }
            } else {
                assert(after.children[j as int] == before.children[j as int]);
            }
        }
    }
}

} // verus!

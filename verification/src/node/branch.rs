//! Branch nodes and their children.

use vstd::prelude::*;
use crate::address::LinearAddress;
use crate::hash::TrieHash;
use crate::node::path::Path;

verus! {

/// A leaf: the rest of a key and the value stored under it.
#[derive(Debug, PartialEq, Eq)]
pub struct LeafNode {
    pub partial_path: Path,
    pub value: Vec<u8>,
}

/// A trie node.
#[derive(Debug, PartialEq, Eq)]
pub enum Node {
    Branch(Box<BranchNode>),
    Leaf(LeafNode),
}

/// A child of a branch node.
#[derive(Debug, PartialEq, Eq)]
pub enum Child {
    /// A child held in memory, not yet hashed or given an address.
    Node(Node),
    /// A stored child, known by its address and hash.
    AddressWithHash(LinearAddress, TrieHash),
}

/// A branch node.
#[derive(Debug, PartialEq, Eq)]
pub struct BranchNode {
    /// The part of the key that this branch holds.
    pub partial_path: Path,
    /// The value stored at this branch, if any.
    pub value: Option<Vec<u8>>,
    /// The children; slot `i` holds the child under nibble `i`.
    /// A well-formed branch has exactly sixteen slots.
    pub children: Vec<Option<Child>>,
}

/// What a leaf holds.
pub struct LeafView {
    pub partial_path: Seq<u8>,
    pub value: Seq<u8>,
}

/// What a node holds.
pub enum NodeView {
    Branch(BranchView),
    Leaf(LeafView),
}

/// What a child slot's occupant holds.
pub enum ChildView {
    Node(NodeView),
    AddressWithHash(u64, Seq<u8>),
}

/// What a branch holds.
pub struct BranchView {
    pub partial_path: Seq<u8>,
    pub value: Option<Seq<u8>>,
    pub children: Seq<Option<ChildView>>,
}

/// The contents of an optional byte vector.
pub open spec fn option_bytes_view(v: Option<Vec<u8>>) -> Option<Seq<u8>> {
    match v {
        Some(b) => Some(b@),
        None => None,
    }
}

pub open spec fn node_view(n: Node) -> NodeView
    decreases n,
{
    match n {
        Node::Branch(b) => NodeView::Branch(branch_view(*b)),
        Node::Leaf(l) => NodeView::Leaf(l@),
    }
}

pub open spec fn child_view(c: Option<Child>) -> Option<ChildView>
    decreases c,
{
    match c {
        None => None,
        Some(Child::Node(n)) => Some(ChildView::Node(node_view(n))),
        Some(Child::AddressWithHash(a, h)) => Some(ChildView::AddressWithHash(a@, h@)),
    }
}

pub open spec fn branch_view(b: BranchNode) -> BranchView
    decreases b,
{
    BranchView {
        partial_path: b.partial_path@,
        value: option_bytes_view(b.value),
        children: Seq::new(
            b.children@.len(),
            |i: int|
                if 0 <= i < b.children@.len() {
                    child_view(b.children@[i])
                } else {
                    None
                },
        ),
    }
}

/// Paths hold nibbles, branches have sixteen slots, addresses are non-zero.
pub open spec fn node_wf(n: Node) -> bool
    decreases n,
{
    match n {
        Node::Branch(b) => branch_wf(*b),
        Node::Leaf(l) => l.wf(),
    }
}

pub open spec fn child_wf(c: Option<Child>) -> bool
    decreases c,
{
    match c {
        None => true,
        Some(Child::Node(n)) => node_wf(n),
        Some(Child::AddressWithHash(a, _)) => a@ != 0,
    }
}

pub open spec fn branch_wf(b: BranchNode) -> bool
    decreases b,
{
    &&& b.partial_path.wf()
    &&& b.children@.len() == 16
    &&& forall|i: int| 0 <= i < b.children@.len() ==> child_wf(#[trigger] b.children@[i])
}

/// The stored children among the first `n` slots, in slot order, each with its index.
pub open spec fn hashed_children(children: Seq<Option<Child>>, n: int) -> Seq<(usize, TrieHash)>
    decreases n,
{
    if n <= 0 {
        Seq::empty()
    } else {
        let rest = hashed_children(children, n - 1);
        match children[n - 1] {
            Some(Child::AddressWithHash(_, h)) => rest.push(((n - 1) as usize, h)),
            _ => rest,
        }
    }
}

impl View for LeafNode {
    type V = LeafView;

    open spec fn view(&self) -> LeafView {
        LeafView { partial_path: self.partial_path@, value: self.value@ }
    }
}

impl LeafNode {
    /// The partial path holds nibbles only.
    pub open spec fn wf(&self) -> bool {
        self.partial_path.wf()
    }
}

impl View for Node {
    type V = NodeView;

    open spec fn view(&self) -> NodeView {
        node_view(*self)
    }
}

impl Node {
    pub open spec fn wf(&self) -> bool {
        node_wf(*self)
    }
}

impl View for BranchNode {
    type V = BranchView;

    open spec fn view(&self) -> BranchView {
        branch_view(*self)
    }
}

impl BranchNode {
    /// The number of child slots of a branch.
    pub const MAX_CHILDREN: usize = 16;

    pub open spec fn wf(&self) -> bool {
        branch_wf(*self)
    }

    /// No slot holds an in-memory child: the branch is in its stored form.
    pub open spec fn is_stored(&self) -> bool {
        forall|i: int|
            0 <= i < self.children@.len() ==> !(#[trigger] self.children@[i] matches Some(
                Child::Node(_),
            ))
    }

    /// A branch with the given path and value and sixteen empty slots.
    pub fn new(partial_path: Path, value: Option<Vec<u8>>) -> (branch: BranchNode)
        ensures
            branch.partial_path == partial_path,
            branch.value == value,
            branch.children@.len() == 16,
            forall|i: int| 0 <= i < 16 ==> branch.children@[i] is None,
            partial_path.wf() ==> branch.wf(),
            branch.is_stored(),
    {
        let mut children: Vec<Option<Child>> = Vec::new();
        let mut i: usize = 0;
        while i < 16
            invariant
                i <= 16,
                children@.len() == i,
                forall|j: int| 0 <= j < i ==> children@[j] is None,
            decreases 16 - i,
        {
            children.push(None);
            i += 1;
        }
        BranchNode { partial_path, value, children }
    }

    /// The child in slot `child_index`.
    pub fn child(&self, child_index: u8) -> (child: &Option<Child>)
        requires
            self.children@.len() == 16,
            child_index < 16,
        ensures
            *child == self.children@[child_index as int],
    {
        &self.children[child_index as usize]
    }

    /// Puts `new_child` into slot `child_index`; `None` empties the slot.
    pub fn update_child(&mut self, child_index: u8, new_child: Option<Child>)
        requires
            old(self).children@.len() == 16,
            child_index < 16,
        ensures
            final(self).children@ == old(self).children@.update(child_index as int, new_child),
            final(self).partial_path == old(self).partial_path,
            final(self).value == old(self).value,
    {
        self.children[child_index as usize] = new_child;
    }

    /// The index and hash of each stored child, by ascending index.
    pub fn children_iter(&self) -> (out: Vec<(usize, TrieHash)>)
        requires
            self.children@.len() == 16,
            self.is_stored(),
        ensures
            out@ == hashed_children(self.children@, 16),
    {
        let mut out: Vec<(usize, TrieHash)> = Vec::new();
        let mut i: usize = 0;
        while i < 16
            invariant
                i <= 16,
                self.children@.len() == 16,
                out@ == hashed_children(self.children@, i as int),
            decreases 16 - i,
        {
            match &self.children[i] {
                Some(Child::AddressWithHash(_, hash)) => {
                    out.push((i, *hash));
                },
                _ => {},
            }
            i += 1;
        }
        out
    }
}

/// Whether slot `i` of a branch holds a child.
pub open spec fn used(b: BranchView, i: int) -> bool {
    0 <= i < b.children.len() && b.children[i] is Some
}

/// How many children a branch has, counted up to two, and where the first two are.
pub struct Census {
    pub count: u8,
    pub first: u8,
    pub second: u8,
}

impl BranchNode {
    /// Counts the children of this branch, up to two.
    pub fn census(&self) -> (c: Census)
        requires
            self@.children.len() == 16,
        ensures
            c.count <= 2,
            c.count == 0 ==> forall|j: int| 0 <= j < 16 ==> !used(self@, j),
            c.count >= 1 ==> c.first < 16 && used(self@, c.first as int),
            c.count == 1 ==> forall|j: int| 0 <= j < 16 && j != c.first ==> !used(self@, j),
            c.count == 2 ==> c.second < 16 && c.first != c.second && used(
                self@,
                c.second as int,
            ),
    {
        let mut count: u8 = 0;
        let mut first: u8 = 0;
        let mut second: u8 = 0;
        let mut i: u8 = 0;
        while i < 16
            invariant
                i <= 16,
                self@.children.len() == 16,
                count <= 2,
                count == 0 ==> forall|j: int| 0 <= j < i ==> !used(self@, j),
                count >= 1 ==> first < i && used(self@, first as int),
                count == 1 ==> forall|j: int| 0 <= j < i && j != first ==> !used(self@, j),
                count == 2 ==> second < i && first != second && used(self@, second as int),
            decreases 16 - i,
        {
            assert(self@.children[i as int] == child_view(self.children@[i as int]));
            if self.children[i as usize].is_some() {
                if count == 0 {
                    first = i;
                    count = 1;
                } else if count == 1 {
                    second = i;
                    count = 2;
                }
            }
            i += 1;
        }
        Census { count, first, second }
    }
}

impl vstd::std_specs::convert::FromSpecImpl<&LeafNode> for BranchNode {
    open spec fn obeys_from_spec() -> bool {
        false
    }

    open spec fn from_spec(leaf: &LeafNode) -> BranchNode {
        arbitrary()
    }
}

impl From<&LeafNode> for BranchNode {
    /// The branch that stands for a leaf: same path, the leaf's value, no children.
    fn from(leaf: &LeafNode) -> (branch: BranchNode)
        ensures
            branch@.partial_path == leaf@.partial_path,
            branch@.value == Some(leaf@.value),
            branch.children@.len() == 16,
            forall|i: int| 0 <= i < 16 ==> branch.children@[i] is None,
            leaf.wf() ==> branch.wf(),
    {
        let path = leaf.partial_path.copy();
        let value = copy_bytes(&leaf.value);
        BranchNode::new(path, Some(value))
    }
}

/// A fresh vector with the same bytes.
pub fn copy_bytes(bytes: &Vec<u8>) -> (out: Vec<u8>)
    ensures
        out@ == bytes@,
{
    let out = bytes.clone();
    assert(out@ =~= bytes@);
    out
}

} // verus!

//! A trie in the node region of the store: where each node's record lies,
//! and how a trie is read back from the record of its root.
//!
//! The nodes of a trie are written behind one another, every child before
//! its parent, so that the root comes last. Each node takes a region of
//! the store: 8 bytes that give the length of its record, then the record.
//! In the record of a branch each child in memory is replaced by the
//! address of the child's region and the child's hash.

use vstd::prelude::*;
use vstd::bytes::{
    lemma_auto_spec_u64_to_from_le_bytes,
    spec_u64_from_le_bytes,
    spec_u64_to_le_bytes,
};
use crate::node::branch::{BranchView, ChildView, NodeView};
use crate::node::codec::{
    decode_node,
    encode_node,
    lemma_decode_encode_node,
    storable,
    storable_node,
    DecodeError,
};

use crate::trie::lookup::resolved;
use crate::trie::merkle::merkle;

verus! {

/// Why a trie could not be read from the store.
#[derive(Clone, Copy, Debug, PartialEq, Eq)]
pub enum LoadError {
    /// A region does not lie within the store.
    OutOfBounds,
    /// The bytes of a region are not a node record.
    Decode(DecodeError),
    /// A child's address is not below its parent's.
    ChildNotBelow,
}

/// The region of a record: its length in 8 little-endian bytes, then the record.
pub open spec fn region(record: Seq<u8>) -> Seq<u8> {
    spec_u64_to_le_bytes(record.len() as u64) + record
}

/// The bytes that hold the children in the first `k` slots of a branch,
/// when the first of these bytes lies at offset `at`.
pub open spec fn slots_blob(b: BranchView, at: nat, k: int) -> Seq<u8>
    decreases b, 0int, k,
{
    if k <= 0 || k > b.children.len() {
        Seq::empty()
    } else {
        let before = slots_blob(b, at, k - 1);
        match b.children[k - 1] {
            Some(ChildView::Node(c)) => before + node_blob(c, at + before.len()),
            _ => before,
        }
    }
}

/// The address of the child in slot `i` of a branch whose children's
/// bytes begin at offset `at`; zero if the slot holds no child in memory.
pub open spec fn slot_address(b: BranchView, at: nat, i: int) -> nat
    decreases b, 1int, 0int,
{
    if 0 <= i < b.children.len() {
        match b.children[i] {
            Some(ChildView::Node(c)) => node_address(c, at + slots_blob(b, at, i).len()),
            _ => 0,
        }
    } else {
        0
    }
}

/// The branch as its record holds it: each child in memory replaced by its
/// address and hash.
pub open spec fn stored_branch(b: BranchView, at: nat) -> BranchView
    decreases b, 2int, 0int,
{
    BranchView {
        partial_path: b.partial_path,
        value: b.value,
        children: Seq::new(
            b.children.len(),
            |i: int|
                if 0 <= i < b.children.len() {
                    match b.children[i] {
                        Some(ChildView::Node(c)) => Some(
                            ChildView::AddressWithHash(slot_address(b, at, i) as u64, merkle(c)),
                        ),
                        other => other,
                    }
                } else {
                    None
                },
        ),
    }
}

/// The record of a node whose children's bytes begin at offset `at`.
pub open spec fn node_record(n: NodeView, at: nat) -> Seq<u8>
    decreases n, 0int, 0int,
{
    match n {
        NodeView::Leaf(_) => encode_node(n),
        NodeView::Branch(b) => encode_node(NodeView::Branch(stored_branch(b, at))),
    }
}

/// The bytes that hold a node and all below it, when the first of these
/// bytes lies at offset `at`: the children slot by slot, then the node.
pub open spec fn node_blob(n: NodeView, at: nat) -> Seq<u8>
    decreases n, 1int, 0int,
{
    match n {
        NodeView::Leaf(_) => region(node_record(n, at)),
        NodeView::Branch(b) => slots_blob(b, at, 16) + region(node_record(n, at)),
    }
}

/// The address of a node whose bytes, with all below it, begin at offset `at`.
pub open spec fn node_address(n: NodeView, at: nat) -> nat
    decreases n, 1int, 0int,
{
    match n {
        NodeView::Leaf(_) => at,
        NodeView::Branch(b) => at + slots_blob(b, at, 16).len(),
    }
}

/// Every hash below this node is 32 bytes long, and every path and value
/// fits the length field of a record.
pub open spec fn recordable(n: NodeView) -> bool
    decreases n,
{
    match n {
        NodeView::Leaf(l) => l.partial_path.len() <= u64::MAX && l.value.len() < u64::MAX,
        NodeView::Branch(b) => {
            &&& b.partial_path.len() <= u64::MAX
            &&& (b.value matches Some(v) ==> v.len() < u64::MAX)
            &&& forall|i: int|
                0 <= i < b.children.len() ==> match #[trigger] b.children[i] {
                    Some(ChildView::Node(c)) => recordable(c) && merkle(c).len() == 32,
                    _ => true,
                }
        },
    }
}

/// The children that the first `k` slots of a stored branch name, read
/// from the store; each must lie below `addr`.
pub open spec fn load_slots(image: Seq<u8>, addr: nat, b: BranchView, k: int) -> Result<
    Seq<Option<ChildView>>,
    LoadError,
>
    decreases addr, k,
{
    if k <= 0 || k > b.children.len() {
        Ok(Seq::empty())
    } else {
        match load_slots(image, addr, b, k - 1) {
            Err(e) => Err(e),
            Ok(done) => match b.children[k - 1] {
                None => Ok(done.push(None)),
                Some(ChildView::AddressWithHash(a, _)) => if a >= addr {
                    Err(LoadError::ChildNotBelow)
                } else {
                    match load(image, a as nat) {
                        Err(e) => Err(e),
                        Ok(c) => Ok(done.push(Some(ChildView::Node(c)))),
                    }
                },
                Some(ChildView::Node(_)) => Err(LoadError::ChildNotBelow),
            },
        }
    }
}

/// The node whose region lies at `addr`, with all below it, read from the store.
pub open spec fn load(image: Seq<u8>, addr: nat) -> Result<NodeView, LoadError>
    decreases addr, 17int,
{
    if addr + 8 > image.len() {
        Err(LoadError::OutOfBounds)
    } else {
        let len = spec_u64_from_le_bytes(image.subrange(addr as int, addr as int + 8));
        if addr + 8 + len > image.len() {
            Err(LoadError::OutOfBounds)
        } else {
            match decode_node(image.subrange(addr as int + 8, addr as int + 8 + len)) {
                Err(e) => Err(LoadError::Decode(e)),
                Ok(NodeView::Leaf(l)) => Ok(NodeView::Leaf(l)),
                Ok(NodeView::Branch(b)) => match load_slots(image, addr, b, 16) {
                    Err(e) => Err(e),
                    Ok(children) => Ok(
                        NodeView::Branch(
                            BranchView {
                                partial_path: b.partial_path,
                                value: b.value,
                                children,
                            },
                        ),
                    ),
                },
            }
        }
    }
}

/// What was read stays readable, and reads the same, when bytes are appended to the store.
pub proof fn lemma_load_frame(image: Seq<u8>, more: Seq<u8>, addr: nat)
    requires
        load(image, addr) is Ok,
    ensures
        load(image + more, addr) == load(image, addr),
    decreases addr, 17int,
{
    let grown = image + more;
    let a = addr as int;
    let len = spec_u64_from_le_bytes(image.subrange(a, a + 8));
    assert(grown.subrange(a, a + 8) =~= image.subrange(a, a + 8));
    assert(grown.subrange(a + 8, a + 8 + len) =~= image.subrange(a + 8, a + 8 + len));
    match decode_node(image.subrange(a + 8, a + 8 + len)) {
        Ok(NodeView::Branch(b)) => {
            lemma_load_slots_frame(image, more, addr, b, 16);
        },
        _ => {},
    }
}

proof fn lemma_load_slots_frame(image: Seq<u8>, more: Seq<u8>, addr: nat, b: BranchView, k: int)
    requires
        load_slots(image, addr, b, k) is Ok,
    ensures
        load_slots(image + more, addr, b, k) == load_slots(image, addr, b, k),
    decreases addr, k,
{
    if k <= 0 || k > b.children.len() {
    } else {
        lemma_load_slots_frame(image, more, addr, b, k - 1);
        match b.children[k - 1] {
            Some(ChildView::AddressWithHash(a, _)) => {
                lemma_load_frame(image, more, a as nat);
            },
            _ => {},
        }
    }
}

/// The bytes of the first slots are a prefix of the bytes of more slots.
proof fn lemma_slots_blob_grows(b: BranchView, at: nat, i: int, k: int)
    requires
        0 <= i <= k <= b.children.len(),
    ensures
        slots_blob(b, at, i).len() <= slots_blob(b, at, k).len(),
        slots_blob(b, at, k).take(slots_blob(b, at, i).len() as int) == slots_blob(b, at, i),
    decreases k - i,
{
    if i == k {
        assert(slots_blob(b, at, k).take(slots_blob(b, at, k).len() as int) =~= slots_blob(
            b,
            at,
            k,
        ));
    } else {
        lemma_slots_blob_grows(b, at, i, k - 1);
        let shorter = slots_blob(b, at, k - 1);
        let longer = slots_blob(b, at, k);
        assert(longer.take(shorter.len() as int) =~= shorter);
        assert(longer.take(slots_blob(b, at, i).len() as int) =~= shorter.take(
            slots_blob(b, at, i).len() as int,
        ));
    }
}

/// The region of a node is the end of its bytes, and begins at its address.
proof fn lemma_blob_ends_with_region(n: NodeView, at: nat)
    ensures
        node_blob(n, at).len() == node_address(n, at) - at + 8 + node_record(n, at).len(),
        node_blob(n, at).skip(node_address(n, at) - at) == region(node_record(n, at)),
        node_address(n, at) >= at,
{
    lemma_auto_spec_u64_to_from_le_bytes();
    match n {
        NodeView::Leaf(_) => {
            assert(node_blob(n, at).skip(0) =~= node_blob(n, at));
        },
        NodeView::Branch(b) => {
            let front = slots_blob(b, at, 16);
            assert((front + region(node_record(n, at))).skip(front.len() as int) =~= region(
                node_record(n, at),
            ));
        },
    }
}

/// A trie that was written is read back as it was: appended to a store
/// that ends at offset `at`, the bytes of a node and all below it hold
/// that node at its address.
pub proof fn lemma_load_written(image: Seq<u8>, n: NodeView, at: nat)
    requires
        resolved(n),
        recordable(n),
        image.len() == at,
        at >= 1,
        at + node_blob(n, at).len() <= u64::MAX,
    ensures
        load(image + node_blob(n, at), node_address(n, at)) == Ok::<NodeView, LoadError>(n),
    decreases n, 1int,
{
    lemma_auto_spec_u64_to_from_le_bytes();
    lemma_blob_ends_with_region(n, at);
    let blob = node_blob(n, at);
    let grown = image + blob;
    let addr = node_address(n, at);
    let a = addr as int;
    let record = node_record(n, at);
    assert(grown.subrange(a, a + 8) =~= spec_u64_to_le_bytes(record.len() as u64)) by {
        assert(blob.skip(a - at).take(8) =~= spec_u64_to_le_bytes(record.len() as u64));
        assert(grown.subrange(a, a + 8) =~= blob.skip(a - at).take(8));
    }
    assert(grown.subrange(a + 8, a + 8 + record.len()) =~= record) by {
        assert(blob.skip(a - at).skip(8) =~= record);
        assert(grown.subrange(a + 8, a + 8 + record.len()) =~= blob.skip(a - at).skip(8));
    }
    match n {
        NodeView::Leaf(l) => {
            assert(storable_node(n)) by {
                let stand_in = crate::node::codec::leaf_as_branch(l);
                assert(storable(stand_in));
            }
            lemma_decode_encode_node(n);
        },
        NodeView::Branch(b) => {
            let stored = stored_branch(b, at);
            assert(storable(stored)) by {
                assert forall|i: int| 0 <= i < 16 implies match #[trigger] stored.children[i] {
                    None => true,
                    Some(ChildView::AddressWithHash(a, h)) => a != 0 && h.len() == 32,
                    Some(ChildView::Node(_)) => false,
                } by {
                    lemma_slot_loaded(image, b, at, i);
                }
            }
            lemma_decode_encode_node(NodeView::Branch(stored));
            lemma_load_stored_slots(image, b, at, 16);
            let loaded = load_slots(grown, addr, stored, 16)->Ok_0;
            assert(loaded =~= b.children);
        },
    }
}

/// The child in slot `i` of a written branch is read back at its address,
/// which is not zero and lies below the branch.
proof fn lemma_slot_loaded(image: Seq<u8>, b: BranchView, at: nat, i: int)
    requires
        resolved(NodeView::Branch(b)),
        recordable(NodeView::Branch(b)),
        image.len() == at,
        at >= 1,
        at + node_blob(NodeView::Branch(b), at).len() <= u64::MAX,
        0 <= i < 16,
    ensures
        match b.children[i] {
            Some(ChildView::Node(c)) => {
                &&& 1 <= slot_address(b, at, i) < node_address(NodeView::Branch(b), at)
                &&& slot_address(b, at, i) <= u64::MAX
                &&& merkle(c).len() == 32
                &&& load(
                    image + node_blob(NodeView::Branch(b), at),
                    slot_address(b, at, i),
                ) == Ok::<NodeView, LoadError>(c)
            },
            _ => true,
        },
    decreases b, 0int,
{
    match b.children[i] {
        Some(ChildView::Node(c)) => {
            let before = slots_blob(b, at, i);
            let through = slots_blob(b, at, i + 1);
            let all = slots_blob(b, at, 16);
            let whole = node_blob(NodeView::Branch(b), at);
            assert(through == before + node_blob(c, at + before.len()));
            lemma_slots_blob_grows(b, at, i + 1, 16);
            lemma_blob_ends_with_region(c, at + before.len());
            let sub_image = image + before;
            lemma_load_written(sub_image, c, at + before.len());
            assert(sub_image + node_blob(c, at + before.len()) =~= image + through);
            let rest = whole.skip(through.len() as int);
            assert(image + whole =~= (image + through) + rest) by {
                assert(whole.take(through.len() as int) =~= through) by {
                    assert(whole.take(through.len() as int) =~= all.take(through.len() as int));
                }
                assert(whole =~= whole.take(through.len() as int) + rest);
            }
            lemma_load_frame(image + through, rest, slot_address(b, at, i));
        },
        _ => {},
    }
}

/// Reading the children that the record of a written branch names gives
/// the children of the branch.
proof fn lemma_load_stored_slots(image: Seq<u8>, b: BranchView, at: nat, k: int)
    requires
        resolved(NodeView::Branch(b)),
        recordable(NodeView::Branch(b)),
        image.len() == at,
        at >= 1,
        at + node_blob(NodeView::Branch(b), at).len() <= u64::MAX,
        0 <= k <= 16,
    ensures
        load_slots(
            image + node_blob(NodeView::Branch(b), at),
            node_address(NodeView::Branch(b), at),
            stored_branch(b, at),
            k,
        ) == Ok::<Seq<Option<ChildView>>, LoadError>(b.children.take(k)),
    decreases b, 1int, k,
{
    if k == 0 {
        assert(b.children.take(0) =~= Seq::<Option<ChildView>>::empty());
    } else {
        lemma_load_stored_slots(image, b, at, k - 1);
        lemma_slot_loaded(image, b, at, k - 1);
        assert(b.children.take(k) =~= b.children.take(k - 1).push(b.children[k - 1]));
    }
}

/// The bytes of a node and all below it begin at offset `at`: so does the
/// only write that holds them, and the node's address lies within them.
pub proof fn lemma_blob_begins_at(n: NodeView, at: nat)
    ensures
        at <= node_address(n, at) < at + node_blob(n, at).len(),
{
    lemma_blob_ends_with_region(n, at);
}

} // verus!

//! The hash of a node: a function of its path, its value and the hashes of its children.

use vstd::prelude::*;
use vstd::bytes::{spec_u64_to_le_bytes, u64_to_le_bytes};
use crate::digest::{sha256, sha256_digest};
use crate::hash::TrieHash;
use crate::node::branch::{child_view, Child, ChildView, Node, NodeView};
use crate::node::codec::{append_bytes, encode_value};

verus! {

/// The bytes that stand for sixteen optional child hashes among the first
/// `n` slots: for each slot a 0, or a 1 and the hash.
pub open spec fn hashes_bytes(hashes: Seq<Option<Seq<u8>>>, n: int) -> Seq<u8>
    decreases n,
{
    if n <= 0 {
        Seq::empty()
    } else {
        hashes_bytes(hashes, n - 1) + (match hashes[n - 1] {
            None => seq![0u8],
            Some(h) => seq![1u8] + h,
        })
    }
}

/// The bytes that are hashed for a node: its path and value as a record
/// writes them, then its sixteen child hashes.
pub open spec fn hash_input(
    path: Seq<u8>,
    value: Option<Seq<u8>>,
    hashes: Seq<Option<Seq<u8>>>,
) -> Seq<u8> {
    spec_u64_to_le_bytes(path.len() as u64) + path + encode_value(value) + hashes_bytes(hashes, 16)
}

/// The hash of what a slot holds: a stored child brings its hash along, a
/// child in memory is hashed.
pub open spec fn slot_hash(slot: Option<ChildView>) -> Option<Seq<u8>>
    decreases slot,
{
    match slot {
        None => None,
        Some(ChildView::AddressWithHash(_, h)) => Some(h),
        Some(ChildView::Node(c)) => Some(merkle(c)),
    }
}

/// The hashes of the sixteen slots of a node; a leaf has none.
pub open spec fn child_hashes(n: NodeView) -> Seq<Option<Seq<u8>>>
    decreases n, 0int,
{
    match n {
        NodeView::Leaf(_) => Seq::new(16, |i: int| None),
        NodeView::Branch(b) => Seq::new(
            16,
            |i: int|
                if 0 <= i < b.children.len() {
                    slot_hash(b.children[i])
                } else {
                    None
                },
        ),
    }
}

/// The hash of a node.
pub open spec fn merkle(n: NodeView) -> Seq<u8>
    decreases n, 1int,
{
    match n {
        NodeView::Leaf(l) => sha256(hash_input(l.partial_path, Some(l.value), child_hashes(n))),
        NodeView::Branch(b) => sha256(hash_input(b.partial_path, b.value, child_hashes(n))),
    }
}

/// The hash of a trie; the empty trie has none.
pub open spec fn trie_hash(root: Option<NodeView>) -> Option<Seq<u8>> {
    match root {
        Some(n) => Some(merkle(n)),
        None => None,
    }
}

/// The byte views of a list of optional hashes.
pub open spec fn option_hashes_view(list: Seq<Option<TrieHash>>) -> Seq<Option<Seq<u8>>> {
    Seq::new(
        list.len(),
        |i: int|
            match list[i] {
                Some(h) => Some(h@),
                None => None,
            },
    )
}

/// The bytes that are hashed for a node with the given path, value and child hashes.
pub fn hash_input_bytes(path: &Vec<u8>, value: &Option<Vec<u8>>, hashes: &Vec<Option<TrieHash>>) -> (out:
    Vec<u8>)
    requires
        hashes@.len() == 16,
    ensures
        out@ == hash_input(
            path@,
            crate::node::branch::option_bytes_view(*value),
            option_hashes_view(hashes@),
        ),
{
    let mut out = u64_to_le_bytes(path.len() as u64);
    append_bytes(&mut out, path.as_slice());
    match value {
        None => {
            let field = u64_to_le_bytes(u64::MAX);
            append_bytes(&mut out, field.as_slice());
        },
        Some(v) => {
            let field = u64_to_le_bytes(v.len() as u64);
            append_bytes(&mut out, field.as_slice());
            append_bytes(&mut out, v.as_slice());
        },
    }
    let ghost head = out@;
    let ghost views = option_hashes_view(hashes@);
    assert(head =~= spec_u64_to_le_bytes(path@.len() as u64) + path@ + encode_value(
        crate::node::branch::option_bytes_view(*value),
    ));
    let mut i: usize = 0;
    assert(out@ =~= head + hashes_bytes(views, 0));
    while i < 16
        invariant
            i <= 16,
            hashes@.len() == 16,
            views == option_hashes_view(hashes@),
            out@ == head + hashes_bytes(views, i as int),
        decreases 16 - i,
    {
        let ghost before = out@;
        match &hashes[i] {
            None => {
                out.push(0u8);
                assert(out@ =~= before + seq![0u8]);
            },
            Some(h) => {
                out.push(1u8);
                let bytes = h.to_vec();
                append_bytes(&mut out, bytes.as_slice());
                assert(out@ =~= before + (seq![1u8] + h@));
            },
        }
        i += 1;
        assert(out@ =~= head + hashes_bytes(views, i as int));
    }
    out
}

/// The SHA-256 digest of `data` as a hash.
pub fn digest_of(data: &Vec<u8>) -> (hash: TrieHash)
    ensures
        hash@ == sha256(data@),
{
    let digest = sha256_digest(data.as_slice());
    match TrieHash::from_slice(digest.as_slice()) {
        Some(h) => h,
        None => {
            assert(false);
            TrieHash::new([0u8; 32])
        },
    }
}

impl Node {
    /// The hash of this node, computed from the leaves up. Stored children
    /// are not read: the hash they carry is taken as it is.
    #[verifier::loop_isolation(false)]
    pub fn hash(&self) -> (hash: TrieHash)
        ensures
            hash@ == merkle(self@),
        decreases self,
    {
        let mut hashes: Vec<Option<TrieHash>> = Vec::new();
        match self {
            Node::Leaf(l) => {
                let mut i: usize = 0;
                while i < 16
                    invariant
                        i <= 16,
                        hashes@.len() == i,
                        forall|k: int| 0 <= k < i ==> hashes@[k] is None,
                    decreases 16 - i,
                {
                    hashes.push(None);
                    i += 1;
                }
                assert(option_hashes_view(hashes@) =~= child_hashes(self@));
                let value = Some(crate::node::branch::copy_bytes(&l.value));
                let input = hash_input_bytes(&l.partial_path.0, &value, &hashes);
                digest_of(&input)
            },
            Node::Branch(b) => {
                let mut i: usize = 0;
                while i < 16
                    invariant
                        i <= 16,
                        hashes@.len() == i,
                        forall|k: int|
                            0 <= k < i ==> option_hashes_view(hashes@)[k] == child_hashes(self@)[k],
                    decreases 16 - i,
                {
                    let ghost before = hashes@;
                    let h = if i < b.children.len() {
                        assert(b@.children[i as int] == child_view(b.children@[i as int]));
                        match &b.children[i] {
                            None => None,
                            Some(Child::AddressWithHash(_, h)) => Some(*h),
                            Some(Child::Node(c)) => Some(c.hash()),
                        }
                    } else {
                        None
                    };
                    hashes.push(h);
                    assert forall|k: int| 0 <= k < i + 1 implies option_hashes_view(hashes@)[k]
                        == child_hashes(self@)[k] by {
                        if k < i {
                            assert(option_hashes_view(before)[k] == child_hashes(self@)[k]);
                        }
                    }
                    i += 1;
                }
                assert(option_hashes_view(hashes@) =~= child_hashes(self@));
                let input = hash_input_bytes(&b.partial_path.0, &b.value, &hashes);
                digest_of(&input)
            },
        }
    }
}

} // verus!

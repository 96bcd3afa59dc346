//! Writing a trie into the bytes of a node region, and reading it back.

use vstd::prelude::*;
use vstd::bytes::{u64_from_le_bytes, u64_to_le_bytes};
use vstd::slice::slice_subrange;
use crate::address::LinearAddress;
use crate::hash::TrieHash;
use crate::node::branch::{
    child_view,
    child_wf,
    copy_bytes,
    option_bytes_view,
    BranchNode,
    BranchView,
    Child,
    ChildView,
    Node,
    NodeView,
};
use crate::node::codec::append_bytes;

use crate::trie::lookup::resolved;
use crate::trie::merkle::{child_hashes, digest_of, hash_input_bytes, merkle, option_hashes_view};
use crate::trie::store::{
    load,
    load_slots,
    node_address,
    node_blob,
    node_record,
    recordable,
    region,
    slots_blob,
    stored_branch,
    LoadError,
};

verus! {

/// Every path and value at or below this node fits the length field of a record.
pub open spec fn lengths_fit(n: NodeView) -> bool
    decreases n,
{
    match n {
        NodeView::Leaf(l) => l.value.len() < u64::MAX,
        NodeView::Branch(b) => {
            &&& (b.value matches Some(v) ==> v.len() < u64::MAX)
            &&& forall|i: int|
                0 <= i < b.children.len() ==> match #[trigger] b.children[i] {
                    Some(ChildView::Node(c)) => lengths_fit(c),
                    _ => true,
                }
        },
    }
}

/// Whether a node and all below it can be written at offset `at`: the
/// lengths fit, and the last byte lies within the reach of an address.
pub open spec fn fits(n: NodeView, at: nat) -> bool {
    lengths_fit(n) && at + node_blob(n, at).len() <= u64::MAX
}

/// The bytes of the first slots are no longer than the bytes of more slots.
proof fn lemma_slots_len_grows(b: BranchView, at: nat, i: int, k: int)
    requires
        0 <= i <= k <= b.children.len(),
    ensures
        slots_blob(b, at, i).len() <= slots_blob(b, at, k).len(),
    decreases k - i,
{
    if i < k {
        lemma_slots_len_grows(b, at, i, k - 1);
    }
}

/// `base + len`, if that is an address.
fn offset(base: u64, len: usize) -> (at: Option<u64>)
    ensures
        at is Some <==> base + len <= u64::MAX,
        at matches Some(a) ==> a == base + len,
{
    base.checked_add(len as u64)
}

/// A copy of an optional value.
fn copy_value(value: &Option<Vec<u8>>) -> (out: Option<Vec<u8>>)
    ensures
        option_bytes_view(out) == option_bytes_view(*value),
{
    match value {
        Some(v) => Some(copy_bytes(v)),
        None => None,
    }
}

/// Appends the region of a record to `out`.
fn append_region(out: &mut Vec<u8>, record: &Vec<u8>)
    ensures
        final(out)@ == old(out)@ + region(record@),
{
    let field = u64_to_le_bytes(record.len() as u64);
    append_bytes(out, field.as_slice());
    append_bytes(out, record.as_slice());
    assert(out@ =~= old(out)@ + region(record@));
}

impl Node {
    /// Appends the bytes of this node and all below it to `out`, whose
    /// first byte lies at offset `base` of the store, and gives the node's
    /// address and hash. Gives `None`, with `out` in no particular state,
    /// if and only if a value is too long for a record or the bytes would
    /// reach beyond the largest address.
    #[verifier::loop_isolation(false)]
    pub fn persist(&self, base: u64, out: &mut Vec<u8>) -> (done: Option<(LinearAddress, TrieHash)>)
        requires
            resolved(self@),
            base >= 1,
            base + old(out)@.len() <= u64::MAX,
        ensures
            done is Some <==> fits(self@, (base + old(out)@.len()) as nat),
            done matches Some((address, hash)) ==> {
                let at = (base + old(out)@.len()) as nat;
                &&& final(out)@ == old(out)@ + node_blob(self@, at)
                &&& address@ == node_address(self@, at)
                &&& hash@ == merkle(self@)
                &&& recordable(self@)
            },
        decreases self,
    {
        let ghost at = (base + old(out)@.len()) as nat;
        let ghost start = old(out)@;
        match self {
            Node::Leaf(l) => {
                if l.value.len() as u64 == u64::MAX {
                    return None;
                }
                let address = match offset(base, out.len()) {
                    Some(a) => a,
                    None => {
                        return None;
                    },
                };
                let record = self.serialize();
                append_region(out, &record);
                if offset(base, out.len()).is_none() {
                    return None;
                }
                let hash = self.hash();
                let address = LinearAddress::new(address).unwrap();
                Some((address, hash))
            },
            Node::Branch(b) => {
                if let Some(v) = &b.value {
                    if v.len() as u64 == u64::MAX {
                        return None;
                    }
                }
                let mut stored = BranchNode::new(b.partial_path.copy(), copy_value(&b.value));
                let mut hashes: Vec<Option<TrieHash>> = Vec::new();
                let mut i: usize = 0;
                assert(out@ =~= start + slots_blob(b@, at, 0));
                while i < 16
                    invariant
                        i <= 16,
                        b@.children.len() == 16,
                        base + out@.len() <= u64::MAX,
                        out@ == start + slots_blob(b@, at, i as int),
                        stored.wf(),
                        stored.is_stored(),
                        stored@.partial_path == b@.partial_path,
                        stored@.value == b@.value,
                        forall|j: int|
                            0 <= j < 16 ==> #[trigger] stored@.children[j] == if j < i {
                                stored_branch(b@, at).children[j]
                            } else {
                                None
                            },
                        hashes@.len() == i,
                        forall|j: int|
                            0 <= j < i ==> option_hashes_view(hashes@)[j] == child_hashes(self@)[j],
                        forall|j: int|
                            0 <= j < i ==> match #[trigger] b@.children[j] {
                                Some(ChildView::Node(c)) => recordable(c) && merkle(c).len() == 32
                                    && lengths_fit(c),
                                _ => true,
                            },
                    decreases 16 - i,
                {
                    assert(b@.children[i as int] == child_view(b.children@[i as int]));
                    let ghost before_hashes = hashes@;
                    let ghost before_stored = stored;
                    match &b.children[i] {
                        Some(Child::Node(child)) => {
                            let ghost child_at = (base + out@.len()) as nat;
                            let (address, hash) = match child.persist(base, out) {
                                Some(done) => done,
                                None => {
                                    proof {
                                        let blob = slots_blob(b@, at, i as int);
                                        assert(child_at == at + blob.len());
                                        if lengths_fit(self@) {
                                            assert(lengths_fit(child@));
                                            lemma_slots_len_grows(b@, at, i as int + 1, 16);
                                        }
                                    }
                                    return None;
                                },
                            };
                            proof {
                                assert(out@ =~= start + slots_blob(b@, at, i as int + 1));
                                assert(hash@.len() == 32);
                            }
                            let _ = address.get();
                            stored.update_child(
                                i as u8,
                                Some(Child::AddressWithHash(address, hash)),
                            );
                            hashes.push(Some(hash));
                        },
                        _ => {
                            hashes.push(None);
                        },
                    }
                    proof {
                        assert forall|j: int| 0 <= j < stored.children@.len() implies child_wf(
                            #[trigger] stored.children@[j],
                        ) by {
                            if j != i {
                                assert(stored.children@[j] == before_stored.children@[j]);
                            }
                        }
                        assert forall|j: int| 0 <= j < stored.children@.len() implies !(
                        #[trigger] stored.children@[j] matches Some(Child::Node(_))) by {
                            if j != i {
                                assert(stored.children@[j] == before_stored.children@[j]);
                            }
                        }
                        assert forall|j: int| 0 <= j < 16 implies #[trigger] stored@.children[j]
                            == if j < i + 1 {
                            stored_branch(b@, at).children[j]
                        } else {
                            None
                        } by {
                            assert(stored@.children[j] == child_view(stored.children@[j]));
                            if j != i {
                                assert(stored.children@[j] == before_stored.children@[j]);
                                assert(before_stored@.children[j] == child_view(
                                    before_stored.children@[j],
                                ));
                            }
                        }
                        assert forall|j: int| 0 <= j < i + 1 implies option_hashes_view(hashes@)[j]
                            == child_hashes(self@)[j] by {
                            if j < i {
                                assert(option_hashes_view(before_hashes)[j] == child_hashes(
                                    self@,
                                )[j]);
                            }
                        }
                    }
                    i += 1;
                }
                proof {
                    assert(stored@.children =~= stored_branch(b@, at).children);
                    assert(stored@ == stored_branch(b@, at));
                    assert(option_hashes_view(hashes@) =~= child_hashes(self@));
                }
                let address = match offset(base, out.len()) {
                    Some(a) => a,
                    None => {
                        return None;
                    },
                };
                let input = hash_input_bytes(&b.partial_path.0, &b.value, &hashes);
                let hash = digest_of(&input);
                let node = Node::Branch(Box::new(stored));
                let record = node.serialize();
                assert(record@ == node_record(self@, at));
                append_region(out, &record);
                assert(out@ =~= start + node_blob(self@, at));
                if offset(base, out.len()).is_none() {
                    return None;
                }
                let address = LinearAddress::new(address).unwrap();
                Some((address, hash))
            },
        }
    }
}

/// A failure to read the children in the first slots is a failure to read them all.
proof fn lemma_load_slots_fails(image: Seq<u8>, addr: nat, b: BranchView, i: int, k: int)
    requires
        0 <= i <= k <= b.children.len(),
        load_slots(image, addr, b, i) is Err,
    ensures
        load_slots(image, addr, b, k) == load_slots(image, addr, b, i),
    decreases k - i,
{
    if i < k {
        lemma_load_slots_fails(image, addr, b, i, k - 1);
    }
}

/// The children that were read are one for each slot.
proof fn lemma_load_slots_len(image: Seq<u8>, addr: nat, b: BranchView, k: int)
    requires
        0 <= k <= b.children.len(),
        load_slots(image, addr, b, k) is Ok,
    ensures
        load_slots(image, addr, b, k)->Ok_0.len() == k,
    decreases k,
{
    if k > 0 {
        lemma_load_slots_len(image, addr, b, k - 1);
    }
}

/// Reads the node whose region lies at `addr`, and all below it, from the
/// bytes of the store.
#[verifier::loop_isolation(false)]
pub fn load_node(image: &[u8], addr: u64) -> (read: Result<Node, LoadError>)
    ensures
        match load(image@, addr as nat) {
            Ok(v) => read matches Ok(n) && n@ == v && resolved(v),
            Err(e) => read matches Err(x) && x == e,
        },
    decreases addr,
{
    let len = image.len();
    if len < 8 || ((len - 8) as u64) < addr {
        return Err(LoadError::OutOfBounds);
    }
    let at = addr as usize;
    let size = u64_from_le_bytes(slice_subrange(image, at, at + 8));
    if ((len - 8 - at) as u64) < size {
        return Err(LoadError::OutOfBounds);
    }
    let end = at + 8 + (size as usize);
    let stored = match Node::deserialize(slice_subrange(image, at + 8, end)) {
        Err(e) => {
            return Err(LoadError::Decode(e));
        },
        Ok(n) => n,
    };
    match stored {
        Node::Leaf(l) => Ok(Node::Leaf(l)),
        Node::Branch(b) => {
            let branch: BranchNode = *b;
            let ghost stored_view = branch@;
            let mut children: Vec<Option<Child>> = Vec::new();
            let mut k: usize = 0;
            while k < 16
                invariant
                    k <= 16,
                    stored_view.children.len() == 16,
                    branch.children@.len() == 16,
                    children@.len() == k,
                    load_slots(image@, addr as nat, stored_view, k as int) is Ok,
                    load_slots(image@, addr as nat, stored_view, k as int)->Ok_0.len() == k,
                    forall|j: int|
                        0 <= j < k ==> child_view(#[trigger] children@[j]) == load_slots(
                            image@,
                            addr as nat,
                            stored_view,
                            k as int,
                        )->Ok_0[j],
                    forall|j: int|
                        0 <= j < k ==> match child_view(#[trigger] children@[j]) {
                            None => true,
                            Some(ChildView::Node(c)) => resolved(c),
                            Some(ChildView::AddressWithHash(_, _)) => false,
                        },
                decreases 16 - k,
            {
                assert(stored_view.children[k as int] == child_view(branch.children@[k as int]));
                let ghost done = load_slots(image@, addr as nat, stored_view, k as int)->Ok_0;
                let ghost before = children@;
                let child = match &branch.children[k] {
                    None => None,
                    Some(Child::AddressWithHash(a, _)) => {
                        let below = a.get();
                        if below >= addr {
                            proof {
                                lemma_load_slots_fails(
                                    image@,
                                    addr as nat,
                                    stored_view,
                                    k as int + 1,
                                    16,
                                );
                            }
                            return Err(LoadError::ChildNotBelow);
                        }
                        match load_node(image, below) {
                            Err(e) => {
                                proof {
                                    lemma_load_slots_fails(
                                        image@,
                                        addr as nat,
                                        stored_view,
                                        k as int + 1,
                                        16,
                                    );
                                }
                                return Err(e);
                            },
                            Ok(n) => Some(Child::Node(n)),
                        }
                    },
                    Some(Child::Node(_)) => {
                        assert(false);
                        None
                    },
                };
                children.push(child);
                proof {
                    let next = load_slots(image@, addr as nat, stored_view, k as int + 1)->Ok_0;
                    assert(next == done.push(child_view(child)));
                    assert forall|j: int| 0 <= j < k + 1 implies child_view(
                        #[trigger] children@[j],
                    ) == next[j] by {
                        if j < k {
                            assert(children@[j] == before[j]);
                        }
                    }
                    assert forall|j: int| 0 <= j < k + 1 implies match child_view(
                        #[trigger] children@[j],
                    ) {
                        None => true,
                        Some(ChildView::Node(c)) => resolved(c),
                        Some(ChildView::AddressWithHash(_, _)) => false,
                    } by {
                        if j < k {
                            assert(children@[j] == before[j]);
                        }
                    }
                }
                k += 1;
            }
            let node = BranchNode {
                partial_path: branch.partial_path,
                value: branch.value,
                children,
            };
            proof {
                let loaded = load_slots(image@, addr as nat, stored_view, 16)->Ok_0;
                assert(node@.children =~= loaded);
                assert(resolved(NodeView::Branch(node@))) by {
                    assert forall|j: int| 0 <= j < node@.children.len() implies match #[trigger] node@.children[j] {
                        None => true,
                        Some(ChildView::Node(c)) => resolved(c),
                        Some(ChildView::AddressWithHash(_, _)) => false,
                    } by {
                        assert(node@.children[j] == child_view(children@[j]));
                    }
                }
            }
            Ok(Node::Branch(Box::new(node)))
        },
    }
}

} // verus!

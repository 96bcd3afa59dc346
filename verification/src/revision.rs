//! Revisions: committed snapshots of the trie, and proposals that await commit.

use vstd::prelude::*;
use std::sync::Arc;
use crate::address::LinearAddress;
use crate::hash::{option_hash_view, same_root, TrieHash};
use crate::node::branch::{Node, NodeView};
use crate::shared::share;
use crate::storage::{
    addresses_view, encode_header, option_address_view, FileBacked, Header, HeaderView, StorageOp,
    StorageOpView,
};
use crate::node::branch::copy_bytes;

verus! {

/// A committed revision: an immutable snapshot named by its root.
#[derive(Debug)]
pub struct Committed {
    /// Where the root node is stored; `None` for the empty trie.
    pub root_address: Option<LinearAddress>,
    /// The hash of the root node; `None` for the empty trie.
    pub root_hash: Option<TrieHash>,
    /// The addresses that become free once this revision is reaped.
    pub deleted: Vec<LinearAddress>,
    /// The root node, where the trie is held in memory.
    pub root: Option<Arc<Node>>,
}

/// A frozen proposal: a trie built on a parent revision, not yet committed.
#[derive(Debug)]
pub struct ImmutableProposal {
    /// The root hash of the revision that this proposal was built on.
    pub parent: Option<TrieHash>,
    pub root_address: Option<LinearAddress>,
    pub root_hash: Option<TrieHash>,
    /// The records of the nodes that this proposal adds, each at the address reserved for it.
    pub new_nodes: Vec<(LinearAddress, Vec<u8>)>,
    /// The addresses that this proposal frees.
    pub deleted: Vec<LinearAddress>,
    /// The root node, where the trie is held in memory.
    pub root: Option<Arc<Node>>,
}

/// A committed revision, shared with whoever reads it.
pub type CommittedRevision = Arc<Committed>;

/// A proposal, shared with whoever may commit it.
pub type ProposedRevision = Arc<ImmutableProposal>;

/// What a committed revision holds.
pub struct CommittedView {
    pub root_address: Option<u64>,
    pub root_hash: Option<Seq<u8>>,
    pub deleted: Seq<u64>,
    pub root: Option<NodeView>,
}

/// What a proposal holds.
pub struct ProposalView {
    pub parent: Option<Seq<u8>>,
    pub root_address: Option<u64>,
    pub root_hash: Option<Seq<u8>>,
    pub new_nodes: Seq<(u64, Seq<u8>)>,
    pub deleted: Seq<u64>,
    pub root: Option<NodeView>,
}

/// What an optional in-memory root holds.
pub open spec fn option_root_view(root: Option<Arc<Node>>) -> Option<NodeView> {
    match root {
        Some(n) => Some(n@),
        None => None,
    }
}

/// What a list of node records holds.
pub open spec fn records_view(list: Seq<(LinearAddress, Vec<u8>)>) -> Seq<(u64, Seq<u8>)> {
    Seq::new(list.len(), |i: int| (list[i].0@, list[i].1@))
}

impl View for Committed {
    type V = CommittedView;

    open spec fn view(&self) -> CommittedView {
        CommittedView {
            root_address: option_address_view(self.root_address),
            root_hash: option_hash_view(self.root_hash),
            deleted: addresses_view(self.deleted@),
            root: option_root_view(self.root),
        }
    }
}

impl View for ImmutableProposal {
    type V = ProposalView;

    open spec fn view(&self) -> ProposalView {
        ProposalView {
            parent: option_hash_view(self.parent),
            root_address: option_address_view(self.root_address),
            root_hash: option_hash_view(self.root_hash),
            new_nodes: records_view(self.new_nodes@),
            deleted: addresses_view(self.deleted@),
            root: option_root_view(self.root),
        }
    }
}

/// The committed revision that a proposal becomes.
pub open spec fn committed_of(p: ProposalView) -> CommittedView {
    CommittedView {
        root_address: p.root_address,
        root_hash: p.root_hash,
        deleted: p.deleted,
        root: p.root,
    }
}

/// One release for each address, in order.
pub open spec fn release_ops(deleted: Seq<u64>) -> Seq<StorageOpView> {
    Seq::new(deleted.len(), |i: int| StorageOpView::Release(deleted[i]))
}

/// One write for each node record, in order.
pub open spec fn node_writes(nodes: Seq<(u64, Seq<u8>)>) -> Seq<StorageOpView> {
    Seq::new(nodes.len(), |i: int| StorageOpView::WriteNode(nodes[i].0, nodes[i].1))
}

/// Where the bytes of a proposal's nodes begin: at its first new node, if it has any.
pub open spec fn region_of(p: ProposalView) -> Option<u64> {
    if p.new_nodes.len() > 0 {
        Some(p.new_nodes[0].0)
    } else {
        None
    }
}

/// The header that names the root of a proposal.
pub open spec fn header_of(p: ProposalView) -> HeaderView {
    HeaderView { root_address: p.root_address, root_hash: p.root_hash, region: region_of(p) }
}

/// A fresh list with the same addresses.
pub fn copy_addresses(list: &Vec<LinearAddress>) -> (out: Vec<LinearAddress>)
    ensures
        addresses_view(out@) == addresses_view(list@),
        out@.len() == list@.len(),
{
    let mut out: Vec<LinearAddress> = Vec::new();
    let mut i: usize = 0;
    while i < list.len()
        invariant
            i <= list@.len(),
            out@.len() == i,
            forall|k: int| 0 <= k < i ==> out@[k] == list@[k],
        decreases list@.len() - i,
    {
        out.push(list[i]);
        i += 1;
    }
    assert(addresses_view(out@) =~= addresses_view(list@));
    out
}

impl Committed {
    /// What the revision of a store that holds no trie holds.
    pub open spec fn empty_view() -> CommittedView {
        CommittedView { root_address: None, root_hash: None, deleted: Seq::empty(), root: None }
    }

    /// The revision of a store that holds no trie.
    pub fn empty() -> (rev: Committed)
        ensures
            rev@ == Committed::empty_view(),
    {
        let rev = Committed { root_address: None, root_hash: None, deleted: Vec::new(), root: None };
        assert(rev@.deleted =~= Seq::<u64>::empty());
        rev
    }

    /// The revision that a header names; its trie is not in memory.
    pub fn open(header: &Header) -> (rev: Committed)
        ensures
            rev@ == (CommittedView {
                root_address: header@.root_address,
                root_hash: header@.root_hash,
                deleted: Seq::empty(),
                root: None,
            }),
    {
        let rev = Committed {
            root_address: header.root_address,
            root_hash: header.root_hash,
            deleted: Vec::new(),
            root: None,
        };
        assert(rev@.deleted =~= Seq::<u64>::empty());
        rev
    }

    /// The hash of the root; `None` for the empty trie.
    pub fn root_hash(&self) -> (hash: Option<TrieHash>)
        ensures
            hash == self.root_hash,
    {
        self.root_hash
    }

    /// Gives up this revision: each address on its delete list is released
    /// to the store, in list order.
    pub fn reap_deleted(self, store: &mut FileBacked)
        ensures
            final(store).pending() == old(store).pending() + release_ops(self@.deleted),
            final(store).spec_node_cache_size() == old(store).spec_node_cache_size(),
            final(store).spec_free_list_cache_size() == old(store).spec_free_list_cache_size(),
    {
        let mut i: usize = 0;
        assert(store.pending() =~= old(store).pending() + release_ops(self@.deleted).take(0));
        while i < self.deleted.len()
            invariant
                i <= self.deleted@.len(),
                store.pending() == old(store).pending() + release_ops(self@.deleted).take(
                    i as int,
                ),
                store.spec_node_cache_size() == old(store).spec_node_cache_size(),
                store.spec_free_list_cache_size() == old(store).spec_free_list_cache_size(),
            decreases self.deleted@.len() - i,
        {
            store.enqueue(StorageOp::Release(self.deleted[i]));
            i += 1;
            assert(store.pending() =~= old(store).pending() + release_ops(self@.deleted).take(
                i as int,
            ));
        }
        assert(release_ops(self@.deleted).take(i as int) =~= release_ops(self@.deleted));
    }
}

impl ImmutableProposal {
    /// The hash of the root; `None` for the empty trie.
    pub fn root_hash(&self) -> (hash: Option<TrieHash>)
        ensures
            hash == self.root_hash,
    {
        self.root_hash
    }

    /// Whether this proposal was built on the revision with root hash `hash`.
    pub fn parent_hash_is(&self, hash: Option<TrieHash>) -> (is: bool)
        ensures
            is == (self@.parent == option_hash_view(hash)),
    {
        same_root(&self.parent, &hash)
    }

    /// Queues the write of the free-list heads.
    pub fn flush_freelist(&self, store: &mut FileBacked)
        ensures
            final(store).pending() == old(store).pending().push(StorageOpView::FlushFreeList),
            final(store).spec_node_cache_size() == old(store).spec_node_cache_size(),
            final(store).spec_free_list_cache_size() == old(store).spec_free_list_cache_size(),
    {
        store.enqueue(StorageOp::FlushFreeList);
    }

    /// Queues the write of every new node at its address, then a sync.
    pub fn flush_nodes(&self, store: &mut FileBacked)
        ensures
            final(store).pending() == old(store).pending() + node_writes(self@.new_nodes).push(
                StorageOpView::Sync,
            ),
            final(store).spec_node_cache_size() == old(store).spec_node_cache_size(),
            final(store).spec_free_list_cache_size() == old(store).spec_free_list_cache_size(),
    {
        let mut i: usize = 0;
        assert(store.pending() =~= old(store).pending() + node_writes(self@.new_nodes).take(0));
        while i < self.new_nodes.len()
            invariant
                i <= self.new_nodes@.len(),
                store.pending() == old(store).pending() + node_writes(self@.new_nodes).take(
                    i as int,
                ),
                store.spec_node_cache_size() == old(store).spec_node_cache_size(),
                store.spec_free_list_cache_size() == old(store).spec_free_list_cache_size(),
            decreases self.new_nodes@.len() - i,
        {
            let record = copy_bytes(&self.new_nodes[i].1);
            store.enqueue(StorageOp::WriteNode(self.new_nodes[i].0, record));
            i += 1;
            assert(store.pending() =~= old(store).pending() + node_writes(self@.new_nodes).take(
                i as int,
            ));
        }
        assert(node_writes(self@.new_nodes).take(i as int) =~= node_writes(self@.new_nodes));
        store.enqueue(StorageOp::Sync);
        assert(store.pending() =~= old(store).pending() + node_writes(self@.new_nodes).push(
            StorageOpView::Sync,
        ));
    }

    /// Queues the write of the header that names this proposal's root, then a sync.
    pub fn flush_header(&self, store: &mut FileBacked)
        ensures
            final(store).pending() == old(store).pending().push(
                StorageOpView::WriteHeader(encode_header(header_of(self@))),
            ).push(StorageOpView::Sync),
            final(store).spec_node_cache_size() == old(store).spec_node_cache_size(),
            final(store).spec_free_list_cache_size() == old(store).spec_free_list_cache_size(),
    {
        let region = if self.new_nodes.len() > 0 {
            Some(self.new_nodes[0].0)
        } else {
            None
        };
        let header = Header { root_address: self.root_address, root_hash: self.root_hash, region };
        store.enqueue(StorageOp::WriteHeader(header.encode()));
        store.enqueue(StorageOp::Sync);
    }

    /// The committed revision that this proposal becomes: same root, same
    /// delete list, same trie.
    pub fn as_committed(&self) -> (rev: Committed)
        ensures
            rev@ == committed_of(self@),
    {
        let root = match &self.root {
            Some(n) => Some(share(n)),
            None => None,
        };
        Committed {
            root_address: self.root_address,
            root_hash: self.root_hash,
            deleted: copy_addresses(&self.deleted),
            root,
        }
    }
}

} // verus!

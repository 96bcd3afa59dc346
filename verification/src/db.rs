//! The database: batches proposed on the current revision, committed one at
//! a time, and read back by key from any revision that is still kept.
//!
//! The database touches no file. It is opened on the bytes of the store
//! and queues the storage operations of each commit; whoever owns the file
//! carries them out in order.

use vstd::prelude::*;
use std::sync::Arc;
use crate::address::LinearAddress;
use crate::hash::{option_hash_view, TrieHash};
use crate::manager::{
    after_commit,
    lemma_hashes_removed_subset,
    reap_outcome,
    started,
    CommitSummary,
    ManagerView,
    RevisionManager,
    RevisionManagerConfig,
    RevisionManagerError,
};
use crate::node::branch::{option_bytes_view, Node, NodeView};
use crate::node::path::nibbles_of;
use crate::revision::{
    committed_of,
    Committed,
    CommittedRevision,
    CommittedView,
    ImmutableProposal,
    ProposalView,
    ProposedRevision,
};
use crate::shared::share;
use crate::storage::{decode_header, option_address_view, Header, StorageOp};
use crate::trie::batch::{apply_all, apply_batch, batch_view, trie_map, BatchOp};
use crate::trie::lookup::{resolved, trie_lookup, trie_resolved};
use crate::trie::merkle::{merkle, trie_hash};
use crate::trie::persist::{fits, load_node};

use crate::trie::shape::{canonical, children_canonical, trie_canonical};
use crate::node::branch::used;
use crate::trie::store::{load, node_address, node_blob, recordable, LoadError};

verus! {

/// How to open a database.
#[derive(Clone, Copy, Debug)]
pub struct DbConfig {
    /// Start from an empty store, whatever the store holds.
    pub truncate: bool,
    /// The configuration of the revision manager.
    pub manager: RevisionManagerConfig,
}

/// Sets the fields of a [`DbConfig`] one by one.
#[derive(Clone, Copy, Debug)]
pub struct DbConfigBuilder {
    truncate: bool,
    manager: RevisionManagerConfig,
}

impl DbConfig {
    /// A builder that starts from the defaults: no truncation, and the
    /// default configuration of the revision manager.
    pub fn builder() -> (b: DbConfigBuilder)
        ensures
            !b.spec_build().truncate,
            b.spec_build().manager.wf(),
            b.spec_build().manager.spec_max_revisions() == 128,
    {
        DbConfigBuilder { truncate: false, manager: RevisionManagerConfig::builder().build() }
    }
}

impl DbConfigBuilder {
    /// The configuration that `build` would give now.
    pub closed spec fn spec_build(&self) -> DbConfig {
        DbConfig { truncate: self.truncate, manager: self.manager }
    }

    /// Sets whether to start from an empty store.
    pub fn truncate(self, truncate: bool) -> (b: DbConfigBuilder)
        ensures
            b.spec_build() == (DbConfig { truncate, manager: self.spec_build().manager }),
    {
        DbConfigBuilder { truncate, manager: self.manager }
    }

    /// Sets the configuration of the revision manager.
    pub fn manager(self, manager: RevisionManagerConfig) -> (b: DbConfigBuilder)
        ensures
            b.spec_build() == (DbConfig { truncate: self.spec_build().truncate, manager }),
    {
        DbConfigBuilder { truncate: self.truncate, manager }
    }

    /// The configuration with the fields as set.
    pub fn build(self) -> (config: DbConfig)
        ensures
            config == self.spec_build(),
    {
        DbConfig { truncate: self.truncate, manager: self.manager }
    }
}

/// Why the database refused.
#[derive(Clone, Copy, Debug, PartialEq, Eq)]
pub enum DbError {
    /// The revision manager refused.
    Manager(RevisionManagerError),
    /// The trie that the header names could not be read from the store.
    Load(LoadError),
    /// The header names a root hash and no root address, or an address and no hash.
    HalfRoot,
    /// The header says that the nodes of the trie begin before the end of
    /// the header or behind the root, or it names a beginning and no root.
    BadRegion,
    /// The trie that was read does not have the root hash that the header names.
    RootMismatch,
    /// The trie that was read has a branch that should have been folded away.
    NotCanonical,
    /// The trie of the proposal does not fit the store.
    TooLarge,
}

/// A revision whose trie is in memory, in canonical shape, with the hash
/// that the revision names.
pub open spec fn revision_ok(c: CommittedView) -> bool {
    &&& trie_resolved(c.root)
    &&& trie_canonical(c.root)
    &&& trie_hash(c.root) == c.root_hash
}

/// A proposal whose trie is in memory, in canonical shape, with the hash
/// that the proposal names.
pub open spec fn proposal_ok(p: ProposalView) -> bool {
    revision_ok(committed_of(p))
}

/// The nodes of a proposal, if it has any, lie in one stretch behind the
/// header and before `end`, and so do the addresses that it frees.
pub open spec fn proposal_within(p: ProposalView, end: nat) -> bool {
    &&& p.new_nodes.len() <= 1
    &&& (p.new_nodes.len() == 1 ==> 65 <= p.new_nodes[0].0 && p.new_nodes[0].1.len() >= 1
        && p.new_nodes[0].0 + p.new_nodes[0].1.len() <= end)
    &&& forall|k: int| 0 <= k < p.deleted.len() ==> 65 <= #[trigger] p.deleted[k] < end
}

/// The addresses that a revision frees lie behind the header and before `end`.
pub open spec fn revision_within(c: CommittedView, end: nat) -> bool {
    forall|k: int| 0 <= k < c.deleted.len() ==> 65 <= #[trigger] c.deleted[k] < end
}

/// Everything that is in use or will be freed lies before the next free
/// address: the nodes of every live proposal, the beginning of the current
/// trie, and every address on a delete list.
pub open spec fn all_within(db: DbView) -> bool {
    let end = db.next_address as nat;
    &&& forall|i: int|
        0 <= i < db.manager.historical.len() ==> revision_within(
            #[trigger] db.manager.historical[i],
            end,
        )
    &&& forall|j: int|
        0 <= j < db.manager.proposals.len() ==> proposal_within(
            #[trigger] db.manager.proposals[j],
            end,
        )
    &&& (db.tip_region matches Some(t) ==> 65 <= t < end)
}

/// What a proposal of the trie `root` on the revision `tip` holds, when its
/// nodes are written from offset `base` on and `region` is where the
/// nodes of `tip` begin.
pub open spec fn proposal_on(
    tip: CommittedView,
    root: Option<NodeView>,
    base: nat,
    region: Option<u64>,
) -> ProposalView {
    ProposalView {
        parent: tip.root_hash,
        root_address: match root {
            Some(n) => Some(node_address(n, base) as u64),
            None => None,
        },
        root_hash: trie_hash(root),
        new_nodes: match root {
            Some(n) => seq![(base as u64, node_blob(n, base))],
            None => Seq::empty(),
        },
        deleted: match region {
            Some(r) => seq![r],
            None => Seq::empty(),
        },
        root,
    }
}

/// The database.
#[derive(Debug)]
pub struct Db {
    manager: RevisionManager,
    /// The offset behind the last byte that the store holds or that a proposal has reserved.
    next_address: u64,
    /// Where the nodes of the current revision begin.
    tip_region: Option<LinearAddress>,
}

/// What the database holds.
pub struct DbView {
    pub manager: ManagerView,
    pub next_address: u64,
    pub tip_region: Option<u64>,
}

impl View for Db {
    type V = DbView;

    closed spec fn view(&self) -> DbView {
        DbView {
            manager: self.manager@,
            next_address: self.next_address,
            tip_region: option_address_view(self.tip_region),
        }
    }
}

/// Every revision of the history and of the index has its trie in memory,
/// canonical and with the hash that the revision names.
pub open spec fn revisions_ok(m: ManagerView) -> bool {
    &&& forall|i: int| 0 <= i < m.historical.len() ==> revision_ok(#[trigger] m.historical[i])
    &&& forall|h: Seq<u8>| m.by_hash.contains_key(h) ==> revision_ok(#[trigger] m.by_hash[h])
}

impl Node {
    /// Whether no branch at or below this node could be folded away.
    pub fn is_canonical(&self) -> (yes: bool)
        requires
            resolved(self@),
        ensures
            yes == canonical(self@),
        decreases self,
    {
        match self {
            Node::Leaf(_) => true,
            Node::Branch(b) => {
                let census = b.census();
                proof {
                    if census.count >= 1 {
                        assert(used(b@, census.first as int));
                    }
                    if census.count == 2 {
                        assert(used(b@, census.second as int));
                    }
                }
                if census.count == 0 || (census.count == 1 && b.value.is_none()) {
                    return false;
                }
                let mut i: usize = 0;
                while i < 16
                    invariant
                        i <= 16,
                        b@.children.len() == 16,
                        resolved(self@),
                        *self == Node::Branch(*b),
                        forall|j: int|
                            0 <= j < i ==> match #[trigger] b@.children[j] {
                                Some(crate::node::branch::ChildView::Node(c)) => canonical(c),
                                _ => true,
                            },
                    decreases 16 - i,
                {
                    assert(b@.children[i as int] == crate::node::branch::child_view(
                        b.children@[i as int],
                    ));
                    match &b.children[i] {
                        Some(crate::node::branch::Child::Node(c)) => {
                            if !c.is_canonical() {
                                assert(!children_canonical(b@));
                                return false;
                            }
                        },
                        _ => {},
                    }
                    i += 1;
                }
                assert(children_canonical(b@));
                true
            },
        }
    }
}

impl Committed {
    /// The value stored under `key` in this revision.
    pub fn get(&self, key: &[u8]) -> (found: Option<Vec<u8>>)
        ensures
            option_bytes_view(found) == trie_lookup(self@.root, nibbles_of(key@)),
    {
        match &self.root {
            None => None,
            Some(n) => {
                let path = crate::node::path::Path::from_key(key);
                assert(path@.skip(0) =~= path@);
                n.get(path.0.as_slice(), 0)
            },
        }
    }
}

impl ImmutableProposal {
    /// The value stored under `key` in this proposal.
    pub fn get(&self, key: &[u8]) -> (found: Option<Vec<u8>>)
        ensures
            option_bytes_view(found) == trie_lookup(self@.root, nibbles_of(key@)),
    {
        match &self.root {
            None => None,
            Some(n) => {
                let path = crate::node::path::Path::from_key(key);
                assert(path@.skip(0) =~= path@);
                n.get(path.0.as_slice(), 0)
            },
        }
    }
}

/// Whether the beginning of the trie that a header names goes with its
/// root: none without a root; with one, behind the header and not behind
/// the root.
pub open spec fn region_fits(region: Option<u64>, root_address: Option<u64>) -> bool {
    match (region, root_address) {
        (None, _) => true,
        (Some(r), Some(a)) => 65 <= r <= a,
        (Some(_), None) => false,
    }
}

/// The revision that a store holds: what its header names, with the trie
/// read from the root's address.
pub open spec fn stored_revision(image: Seq<u8>) -> Result<CommittedView, DbError> {
    match decode_header(image) {
        Err(e) => Err(DbError::Manager(RevisionManagerError::IO(e))),
        Ok(h) => match (h.root_address, h.root_hash) {
            (None, None) => if h.region is Some {
                Err(DbError::BadRegion)
            } else {
                Ok(
                    CommittedView {
                        root_address: None,
                        root_hash: None,
                        deleted: Seq::empty(),
                        root: None,
                    },
                )
            },
            (Some(a), Some(hash)) => if !region_fits(h.region, h.root_address) {
                Err(DbError::BadRegion)
            } else {
                match load(image, a as nat) {
                Err(e) => Err(DbError::Load(e)),
                Ok(n) => if !canonical(n) {
                    Err(DbError::NotCanonical)
                } else if merkle(n) != hash {
                    Err(DbError::RootMismatch)
                } else {
                    Ok(
                        CommittedView {
                            root_address: Some(a),
                            root_hash: Some(hash),
                            deleted: Seq::empty(),
                            root: Some(n),
                        },
                    )
                },
                }
            },
            _ => Err(DbError::HalfRoot),
        },
    }
}

/// Reads the revision that a store holds.
fn read_revision(image: &[u8]) -> (read: Result<(Committed, Option<LinearAddress>), DbError>)
    ensures
        match stored_revision(image@) {
            Ok(v) => read matches Ok((rev, region)) && rev@ == v && revision_ok(v)
                && option_address_view(region) == decode_header(image@)->Ok_0.region
                && (region matches Some(r) ==> 65 <= r@ && r@ + 8 <= image@.len()),
            Err(e) => read matches Err(x) && x == e,
        },
{
    let header = match Header::decode(image) {
        Err(e) => {
            return Err(DbError::Manager(RevisionManagerError::IO(e)));
        },
        Ok(h) => h,
    };
    match (header.root_address, header.root_hash) {
        (None, None) => {
            if header.region.is_some() {
                return Err(DbError::BadRegion);
            }
            let rev = Committed::empty();
            Ok((rev, header.region))
        },
        (Some(a), Some(hash)) => {
            match header.region {
                Some(r) => {
                    if r.get() < 65 || r.get() > a.get() {
                        return Err(DbError::BadRegion);
                    }
                },
                None => {},
            }
            let node = match load_node(image, a.get()) {
                Err(e) => {
                    return Err(DbError::Load(e));
                },
                Ok(n) => n,
            };
            if !node.is_canonical() {
                return Err(DbError::NotCanonical);
            }
            let found = node.hash();
            if !found.same(&hash) {
                return Err(DbError::RootMismatch);
            }
            let rev = Committed {
                root_address: Some(a),
                root_hash: Some(hash),
                deleted: Vec::new(),
                root: Some(Arc::new(node)),
            };
            assert(rev@.deleted =~= Seq::<u64>::empty());
            Ok((rev, header.region))
        },
        _ => Err(DbError::HalfRoot),
    }
}

impl Db {
    /// The manager is well-formed and keeps at least one revision, every
    /// revision has its trie in memory, and the next address lies behind the header.
    pub closed spec fn wf(&self) -> bool {
        &&& self.manager.wf()
        &&& self.manager@.max_revisions >= 1
        &&& revisions_ok(self.manager@)
        &&& self.next_address >= 65
        &&& all_within(self@)
    }

    /// In a well-formed database everything that is in use or will be
    /// freed lies before the next free address.
    pub proof fn lemma_all_within(&self)
        requires
            self.wf(),
        ensures
            all_within(self@),
            self@.next_address >= 65,
    {
    }

    /// The current revision.
    pub open spec fn tip(&self) -> CommittedView {
        self@.manager.historical.last()
    }

    /// Opens the database on the bytes of a store.
    ///
    /// With `truncate` the store starts empty, whatever `image` holds.
    /// Without it `image` must hold a header, and the trie that the header
    /// names is read from it, all of it, and checked against the root hash.
    pub fn new(image: &[u8], config: DbConfig) -> (made: Result<Db, DbError>)
        requires
            config.manager.wf(),
            config.manager.spec_max_revisions() >= 1,
        ensures
            match made {
                Ok(db) => {
                    &&& db.wf()
                    &&& if config.truncate {
                        db@ == (DbView {
                            manager: started(
                                config.manager.spec_max_revisions() as nat,
                                Committed::empty_view(),
                                true,
                            ),
                            next_address: 65,
                            tip_region: None,
                        })
                    } else {
                        (stored_revision(image@) matches Ok(rev) && db@ == (DbView {
                            manager: started(
                                config.manager.spec_max_revisions() as nat,
                                rev,
                                false,
                            ),
                            next_address: if image@.len() < 65 {
                                65
                            } else {
                                image@.len() as u64
                            },
                            tip_region: decode_header(image@)->Ok_0.region,
                        }))
                    }
                },
                Err(e) => !config.truncate && (stored_revision(image@) matches Err(x) && e == x),
            },
    {
        if config.truncate {
            let manager = RevisionManager::start(Committed::empty(), true, config.manager);
            let db = Db { manager, next_address: 65, tip_region: None };
            return Ok(db);
        }
        let (first, region) = match read_revision(image) {
            Err(e) => {
                return Err(e);
            },
            Ok(found) => found,
        };
        let manager = RevisionManager::start(first, false, config.manager);
        let next_address: u64 = if image.len() < 65 {
            65
        } else {
            image.len() as u64
        };
        Ok(Db { manager, next_address, tip_region: region })
    }

    /// Proposes a batch on the current revision: the trie of the current
    /// revision after the operations of the batch, first to last. The
    /// proposal joins the live proposals, and its nodes get the addresses
    /// from the next free one on. Nothing changes if the trie does not fit
    /// the store.
    pub fn propose(&mut self, batch: &Vec<BatchOp<Vec<u8>, Vec<u8>>>) -> (made: Result<
        ProposedRevision,
        DbError,
    >)
        requires
            old(self).wf(),
        ensures
            final(self).wf(),
            match made {
                Ok(p) => {
                    &&& proposal_ok(p@)
                    &&& proposal_within(p@, final(self)@.next_address as nat)
                    &&& trie_map(p@.root) == apply_all(
                        trie_map(old(self).tip().root),
                        batch_view(batch@),
                    )
                    &&& (p@.root matches Some(n) ==> fits(n, old(self)@.next_address as nat)
                        && recordable(n))
                    &&& p@ == proposal_on(
                        old(self).tip(),
                        p@.root,
                        old(self)@.next_address as nat,
                        old(self)@.tip_region,
                    )
                    &&& final(self)@ == (DbView {
                        manager: ManagerView {
                            proposals: old(self)@.manager.proposals.push(p@),
                            ..old(self)@.manager
                        },
                        next_address: (old(self)@.next_address + match p@.root {
                            Some(n) => node_blob(n, old(self)@.next_address as nat).len(),
                            None => 0,
                        }) as u64,
                        tip_region: old(self)@.tip_region,
                    })
                },
                Err(e) => {
                    &&& e == DbError::TooLarge
                    &&& final(self)@ == old(self)@
                    &&& forall|next: Option<NodeView>|
                        trie_resolved(next) && trie_canonical(next) && #[trigger] trie_map(next)
                            == apply_all(trie_map(old(self).tip().root), batch_view(batch@))
                            ==> (next matches Some(n) && !fits(
                            n,
                            old(self)@.next_address as nat,
                        ))
                },
            },
    {
        let tip = self.manager.current_revision();
        proof {
            self.manager.lemma_history_nonempty();
            assert(revision_ok(self@.manager.historical.last()));
        }
        let base_trie: Option<Node> = match &tip.root {
            Some(n) => Some(n.deep_copy()),
            None => None,
        };
        let next = apply_batch(base_trie, batch);
        let mut deleted: Vec<LinearAddress> = Vec::new();
        match self.tip_region {
            Some(r) => {
                deleted.push(r);
            },
            None => {},
        }
        let proposal = match next {
            None => ImmutableProposal {
                parent: tip.root_hash,
                root_address: None,
                root_hash: None,
                new_nodes: Vec::new(),
                deleted,
                root: None,
            },
            Some(node) => {
                let mut blob: Vec<u8> = Vec::new();
                let (address, hash) = match node.persist(self.next_address, &mut blob) {
                    None => {
                        proof {
                            assert forall|next: Option<NodeView>|
                                trie_resolved(next) && trie_canonical(next) && #[trigger] trie_map(
                                    next,
                                ) == apply_all(
                                    trie_map(old(self).tip().root),
                                    batch_view(batch@),
                                ) implies (next matches Some(n) && !fits(
                                n,
                                old(self)@.next_address as nat,
                            )) by {
                                crate::trie::batch::lemma_same_map_same_hash(next, Some(node@));
                            }
                        }
                        return Err(DbError::TooLarge);
                    },
                    Some(done) => done,
                };
                let base = LinearAddress::new(self.next_address).unwrap();
                let ghost at = self.next_address as nat;
                assert(blob@ =~= node_blob(node@, at));
                proof {
                    crate::trie::store::lemma_blob_begins_at(node@, at);
                }
                let mut new_nodes: Vec<(LinearAddress, Vec<u8>)> = Vec::new();
                new_nodes.push((base, blob));
                self.next_address = self.next_address + (new_nodes[0].1.len() as u64);
                ImmutableProposal {
                    parent: tip.root_hash,
                    root_address: Some(address),
                    root_hash: Some(hash),
                    new_nodes,
                    deleted,
                    root: Some(Arc::new(node)),
                }
            },
        };
        proof {
            let expected = proposal_on(
                old(self).tip(),
                proposal@.root,
                old(self)@.next_address as nat,
                old(self)@.tip_region,
            );
            assert(proposal@.new_nodes =~= expected.new_nodes);
            assert(proposal@.deleted =~= expected.deleted);
        }
        let proposal: ProposedRevision = Arc::new(proposal);
        self.manager.add_proposal(share(&proposal));
        Ok(proposal)
    }

    /// Commits a proposal of this database: see [`RevisionManager::commit`].
    pub fn commit(&mut self, proposal: ProposedRevision) -> (done: Result<CommitSummary, DbError>)
        requires
            old(self).wf(),
            proposal_ok(proposal@),
            proposal_within(proposal@, old(self)@.next_address as nat),
        ensures
            final(self).wf(),
            match done {
                Ok(summary) => {
                    &&& proposal@.parent == old(self).tip().root_hash
                    &&& reap_outcome(old(self)@.manager, summary.reaped as int, summary.blocked)
                    &&& summary.retired@.len() == old(self)@.manager.proposals.len()
                    &&& forall|i: int|
                        0 <= i < summary.retired@.len() && #[trigger] summary.retired@[i]
                            ==> old(self)@.manager.proposals[i] == proposal@
                    &&& final(self)@ == (DbView {
                        manager: after_commit(
                            old(self)@.manager,
                            proposal@,
                            summary.reaped as int,
                            summary.blocked,
                            summary.retired@,
                        ),
                        next_address: old(self)@.next_address,
                        tip_region: crate::revision::region_of(proposal@),
                    })
                },
                Err(e) => {
                    &&& e == DbError::Manager(RevisionManagerError::NotLatest)
                    &&& proposal@.parent != old(self).tip().root_hash
                    &&& final(self)@ == old(self)@
                },
            },
    {
        let region = if proposal.new_nodes.len() > 0 {
            Some(proposal.new_nodes[0].0)
        } else {
            None
        };
        let ghost before = self.manager@;
        match self.manager.commit(proposal) {
            Err(e) => Err(DbError::Manager(e)),
            Ok(summary) => {
                self.tip_region = region;
                proof {
                    let after = self.manager@;
                    let gone = before.historical.take(
                        if summary.blocked {
                            summary.reaped + 1
                        } else {
                            summary.reaped as int
                        },
                    );
                    lemma_hashes_removed_subset(before.by_hash, gone);
                    assert forall|i: int| 0 <= i < after.historical.len() implies revision_ok(
                        #[trigger] after.historical[i],
                    ) && revision_within(after.historical[i], self.next_address as nat) by {
                        if i < after.historical.len() - 1 {
                            assert(after.historical[i] == before.historical[i + summary.reaped]);
                        }
                    }
                    crate::manager::lemma_unmarked_within(
                        before.proposals,
                        summary.retired@,
                        before.proposals.len() as int,
                    );
                    assert forall|j: int| 0 <= j < after.proposals.len() implies proposal_within(
                        #[trigger] after.proposals[j],
                        self.next_address as nat,
                    ) by {
                        let k = choose|k: int|
                            0 <= k < before.proposals.len() && before.proposals[k]
                                == after.proposals[j];
                        assert(proposal_within(before.proposals[k], self.next_address as nat));
                    }
                }
                Ok(summary)
            },
        }
    }

    /// The root hash of the current revision; `None` while the trie is empty.
    pub fn root_hash(&self) -> (hash: Option<TrieHash>)
        requires
            self.wf(),
        ensures
            option_hash_view(hash) == self.tip().root_hash,
    {
        self.manager.current_revision().root_hash()
    }

    /// The root hashes of the committed revisions, oldest first, then those
    /// of the live proposals.
    pub fn all_hashes(&self) -> (hashes: Vec<TrieHash>)
        ensures
            crate::manager::hashes_view(hashes@) == crate::manager::all_root_hashes(
                self@.manager,
            ),
    {
        self.manager.all_hashes()
    }

    /// The committed revision with the given root hash, its trie in memory.
    pub fn revision(&self, root_hash: TrieHash) -> (found: Result<CommittedRevision, DbError>)
        requires
            self.wf(),
        ensures
            match found {
                Ok(rev) => {
                    &&& self@.manager.by_hash.contains_key(root_hash@)
                    &&& rev@ == self@.manager.by_hash[root_hash@]
                    &&& rev@.root_hash == Some(root_hash@)
                    &&& self@.manager.historical.contains(rev@)
                    &&& revision_ok(rev@)
                },
                Err(e) => !self@.manager.by_hash.contains_key(root_hash@) && e == DbError::Manager(
                    RevisionManagerError::NotFound,
                ),
            },
    {
        match self.manager.revision(root_hash) {
            Ok(rev) => Ok(rev),
            Err(e) => Err(DbError::Manager(e)),
        }
    }

    /// The current revision, its trie in memory.
    pub fn current_revision(&self) -> (rev: CommittedRevision)
        requires
            self.wf(),
        ensures
            rev@ == self.tip(),
            revision_ok(rev@),
    {
        proof {
            self.manager.lemma_history_nonempty();
            assert(revision_ok(self@.manager.historical.last()));
        }
        self.manager.current_revision()
    }

    /// Hands out the storage operations that are queued, oldest first, and
    /// empties the queue. They are to be carried out in that order.
    pub fn take_pending(&mut self) -> (ops: Vec<StorageOp>)
        requires
            old(self).wf(),
        ensures
            final(self).wf(),
            crate::storage::ops_view(ops@) == old(self)@.manager.pending,
            final(self)@ == (DbView {
                manager: ManagerView { pending: Seq::empty(), ..old(self)@.manager },
                ..old(self)@
            }),
    {
        self.manager.take_pending()
    }
}

} // verus!

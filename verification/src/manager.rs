//! The revision manager: the committed history, the live proposals, and the
//! order in which a commit reaches the store.

use vstd::prelude::*;
use std::collections::VecDeque;
use std::sync::Arc;
use crate::hash::{option_hash_view, TrieHash};
use crate::index::HashIndex;
use crate::revision::{
    committed_of, copy_addresses, header_of, node_writes, release_ops, Committed,
    CommittedRevision, CommittedView, ProposalView, ProposedRevision,
};
use crate::shared::{same_handle, share, sole_owner};
use crate::storage::{
    decode_header, encode_header, FileBacked, Header, HeaderError, HeaderView, StorageOp,
    StorageOpView,
};

verus! {

/// How many revisions to keep, and how large the store's caches are.
#[derive(Clone, Copy, Debug)]
pub struct RevisionManagerConfig {
    max_revisions: usize,
    node_cache_size: usize,
    free_list_cache_size: usize,
}

/// Sets the fields of a [`RevisionManagerConfig`] one by one.
#[derive(Clone, Copy, Debug)]
pub struct RevisionManagerConfigBuilder {
    max_revisions: usize,
    node_cache_size: usize,
    free_list_cache_size: usize,
}

impl RevisionManagerConfig {
    pub closed spec fn spec_max_revisions(&self) -> usize {
        self.max_revisions
    }

    pub closed spec fn spec_node_cache_size(&self) -> usize {
        self.node_cache_size
    }

    pub closed spec fn spec_free_list_cache_size(&self) -> usize {
        self.free_list_cache_size
    }

    /// Both cache sizes are positive.
    pub open spec fn wf(&self) -> bool {
        self.spec_node_cache_size() > 0 && self.spec_free_list_cache_size() > 0
    }

    /// A builder that starts from the defaults: 128 revisions, a node cache
    /// of 20480 entries, a free-list cache of 10000 entries.
    pub fn builder() -> (b: RevisionManagerConfigBuilder)
        ensures
            b.spec_build().spec_max_revisions() == 128,
            b.spec_build().spec_node_cache_size() == 20480,
            b.spec_build().spec_free_list_cache_size() == 10000,
    {
        RevisionManagerConfigBuilder {
            max_revisions: 128,
            node_cache_size: 20480,
            free_list_cache_size: 10000,
        }
    }

    /// The number of committed revisions to keep in memory.
    #[verifier::when_used_as_spec(spec_max_revisions)]
    pub fn max_revisions(&self) -> (n: usize)
        ensures
            n == self.spec_max_revisions(),
    {
        self.max_revisions
    }

    /// The capacity of the node cache, in entries.
    #[verifier::when_used_as_spec(spec_node_cache_size)]
    pub fn node_cache_size(&self) -> (n: usize)
        ensures
            n == self.spec_node_cache_size(),
    {
        self.node_cache_size
    }

    /// The capacity of the free-list cache, in entries.
    #[verifier::when_used_as_spec(spec_free_list_cache_size)]
    pub fn free_list_cache_size(&self) -> (n: usize)
        ensures
            n == self.spec_free_list_cache_size(),
    {
        self.free_list_cache_size
    }
}

impl RevisionManagerConfigBuilder {
    /// The configuration that `build` would give now.
    pub closed spec fn spec_build(&self) -> RevisionManagerConfig {
        RevisionManagerConfig {
            max_revisions: self.max_revisions,
            node_cache_size: self.node_cache_size,
            free_list_cache_size: self.free_list_cache_size,
        }
    }

    /// Sets the number of committed revisions to keep in memory.
    pub fn max_revisions(self, n: usize) -> (b: RevisionManagerConfigBuilder)
        ensures
            b.spec_build().spec_max_revisions() == n,
            b.spec_build().spec_node_cache_size() == self.spec_build().spec_node_cache_size(),
            b.spec_build().spec_free_list_cache_size()
                == self.spec_build().spec_free_list_cache_size(),
    {
        RevisionManagerConfigBuilder { max_revisions: n, ..self }
    }

    /// Sets the capacity of the node cache, which must be positive.
    pub fn node_cache_size(self, n: usize) -> (b: RevisionManagerConfigBuilder)
        requires
            n > 0,
        ensures
            b.spec_build().spec_node_cache_size() == n,
            b.spec_build().spec_max_revisions() == self.spec_build().spec_max_revisions(),
            b.spec_build().spec_free_list_cache_size()
                == self.spec_build().spec_free_list_cache_size(),
    {
        RevisionManagerConfigBuilder { node_cache_size: n, ..self }
    }

    /// Sets the capacity of the free-list cache, which must be positive.
    pub fn free_list_cache_size(self, n: usize) -> (b: RevisionManagerConfigBuilder)
        requires
            n > 0,
        ensures
            b.spec_build().spec_free_list_cache_size() == n,
            b.spec_build().spec_max_revisions() == self.spec_build().spec_max_revisions(),
            b.spec_build().spec_node_cache_size() == self.spec_build().spec_node_cache_size(),
    {
        RevisionManagerConfigBuilder { free_list_cache_size: n, ..self }
    }

    /// The configuration with the fields as set.
    pub fn build(self) -> (config: RevisionManagerConfig)
        ensures
            config == self.spec_build(),
    {
        RevisionManagerConfig {
            max_revisions: self.max_revisions,
            node_cache_size: self.node_cache_size,
            free_list_cache_size: self.free_list_cache_size,
        }
    }
}

/// Why the manager refused.
#[derive(Clone, Copy, Debug, PartialEq, Eq)]
pub enum RevisionManagerError {
    /// The proposal cannot be committed since a sibling was committed.
    SiblingCommitted,
    /// The proposal cannot be committed since it is not a direct child of the most recent commit.
    NotLatest,
    /// No committed revision has this root hash.
    NotFound,
    /// The store could not be read.
    IO(HeaderError),
}

/// What a successful commit did besides installing the new revision.
#[derive(Debug)]
pub struct CommitSummary {
    /// How many aged revisions were reaped.
    pub reaped: usize,
    /// Whether reaping stopped at a revision that someone else still holds.
    pub blocked: bool,
    /// For each proposal that was live, in order: whether it was the
    /// committed one and left the list.
    pub retired: Vec<bool>,
}

/// The revision manager.
#[derive(Debug)]
pub struct RevisionManager {
    /// Maximum number of revisions to keep.
    max_revisions: usize,
    /// The store's side of the manager.
    filebacked: FileBacked,
    /// The committed revisions, oldest first.
    historical: VecDeque<CommittedRevision>,
    /// The live proposals, in the order in which they were added.
    proposals: Vec<ProposedRevision>,
    /// The committed revisions by root hash.
    by_hash: HashIndex,
}

/// What the manager holds.
pub struct ManagerView {
    pub max_revisions: nat,
    pub historical: Seq<CommittedView>,
    pub proposals: Seq<ProposalView>,
    pub by_hash: Map<Seq<u8>, CommittedView>,
    pub pending: Seq<StorageOpView>,
}

/// What a list of committed revisions holds.
pub open spec fn history_view(revs: Seq<CommittedRevision>) -> Seq<CommittedView> {
    Seq::new(revs.len(), |i: int| revs[i]@)
}

/// What a list of proposals holds.
pub open spec fn proposals_view(list: Seq<ProposedRevision>) -> Seq<ProposalView> {
    Seq::new(list.len(), |i: int| list[i]@)
}

/// The hashes that are present among the first `n`, in order.
pub open spec fn present_hashes(hashes: Seq<Option<Seq<u8>>>, n: int) -> Seq<Seq<u8>>
    decreases n,
{
    if n <= 0 {
        Seq::empty()
    } else {
        match hashes[n - 1] {
            Some(h) => present_hashes(hashes, n - 1).push(h),
            None => present_hashes(hashes, n - 1),
        }
    }
}

/// The root hashes of the committed revisions, oldest first, then those of
/// the live proposals; a revision of the empty trie has none.
pub open spec fn all_root_hashes(s: ManagerView) -> Seq<Seq<u8>> {
    present_hashes(Seq::new(s.historical.len(), |i: int| s.historical[i].root_hash),
        s.historical.len() as int) + present_hashes(
        Seq::new(s.proposals.len(), |i: int| s.proposals[i].root_hash),
        s.proposals.len() as int,
    )
}

/// The index without the root hashes of `revs`.
pub open spec fn hashes_removed(
    by_hash: Map<Seq<u8>, CommittedView>,
    revs: Seq<CommittedView>,
) -> Map<Seq<u8>, CommittedView>
    decreases revs.len(),
{
    if revs.len() == 0 {
        by_hash
    } else {
        let m = hashes_removed(by_hash, revs.drop_last());
        match revs.last().root_hash {
            Some(h) => m.remove(h),
            None => m,
        }
    }
}

/// The releases of the delete lists of `revs`, one revision after the other.
pub open spec fn releases(revs: Seq<CommittedView>) -> Seq<StorageOpView>
    decreases revs.len(),
{
    if revs.len() == 0 {
        Seq::empty()
    } else {
        releases(revs.drop_last()) + release_ops(revs.last().deleted)
    }
}

/// Those of the first `n` proposals that are not marked, in order.
pub open spec fn unmarked(list: Seq<ProposalView>, marks: Seq<bool>, n: int) -> Seq<ProposalView>
    decreases n,
{
    if n <= 0 {
        Seq::empty()
    } else if marks[n - 1] {
        unmarked(list, marks, n - 1)
    } else {
        unmarked(list, marks, n - 1).push(list[n - 1])
    }
}

/// What a commit of `p` queues, in order: the delete list for recovery; the
/// releases of the reaped revisions; the free-list heads; the new nodes and
/// a sync; the header that names the new root and a sync.
pub open spec fn commit_ops(p: ProposalView, reaped: Seq<CommittedView>) -> Seq<StorageOpView> {
    seq![StorageOpView::PersistDeleted(p.deleted)] + releases(reaped) + seq![
        StorageOpView::FlushFreeList,
    ] + node_writes(p.new_nodes) + seq![
        StorageOpView::Sync,
        StorageOpView::WriteHeader(encode_header(header_of(p))),
        StorageOpView::Sync,
    ]
}

/// How reaping can end on a history: unblocked, it took the fewest
/// revisions from the front that leave fewer than `max_revisions`; blocked,
/// it stopped before a revision while at least `max_revisions` were left.
pub open spec fn reap_outcome(s: ManagerView, reaped: int, blocked: bool) -> bool {
    let left = s.historical.len() - reaped;
    &&& 0 <= reaped
    &&& if blocked {
        left >= s.max_revisions && left >= 1
    } else {
        left >= 0 && left < s.max_revisions && (reaped == 0 || left == s.max_revisions - 1)
    }
}

/// The state after a commit of `p` that reaped `reaped` revisions, was
/// blocked or not, and retired the marked proposals.
pub open spec fn after_commit(
    s: ManagerView,
    p: ProposalView,
    reaped: int,
    blocked: bool,
    retired: Seq<bool>,
) -> ManagerView {
    let unlisted = hashes_removed(
        s.by_hash,
        s.historical.take(
            if blocked {
                reaped + 1
            } else {
                reaped
            },
        ),
    );
    ManagerView {
        max_revisions: s.max_revisions,
        historical: s.historical.skip(reaped).push(committed_of(p)),
        proposals: unmarked(s.proposals, retired, s.proposals.len() as int),
        by_hash: match p.root_hash {
            Some(h) => unlisted.insert(h, committed_of(p)),
            None => unlisted,
        },
        pending: s.pending + commit_ops(p, s.historical.take(reaped)),
    }
}

/// The byte views of a list of hashes.
pub open spec fn hashes_view(list: Seq<TrieHash>) -> Seq<Seq<u8>> {
    Seq::new(list.len(), |i: int| list[i]@)
}

/// The state of a manager that starts with `first` as its one revision.
/// With `truncate` the store is told to clear the file and write the header
/// of an empty store.
pub open spec fn started(max_revisions: nat, first: CommittedView, truncate: bool) -> ManagerView {
    ManagerView {
        max_revisions,
        historical: seq![first],
        proposals: Seq::empty(),
        by_hash: match first.root_hash {
            Some(h) => Map::empty().insert(h, first),
            None => Map::empty(),
        },
        pending: if truncate {
            seq![
                StorageOpView::Truncate,
                StorageOpView::WriteHeader(
                    encode_header(HeaderView { root_address: None, root_hash: None, region: None }),
                ),
                StorageOpView::Sync,
            ]
        } else {
            Seq::empty()
        },
    }
}

/// The revision that a header names, its trie not in memory.
pub open spec fn named_by(header: HeaderView) -> CommittedView {
    CommittedView {
        root_address: header.root_address,
        root_hash: header.root_hash,
        deleted: Seq::empty(),
        root: None,
    }
}

/// The state of a manager that has just opened a store whose header names `header`.
pub open spec fn opened(max_revisions: nat, header: HeaderView, truncate: bool) -> ManagerView {
    started(max_revisions, named_by(header), truncate)
}

/// Which of the first `n` proposals are unmarked depends on the first `n` marks only.
proof fn lemma_unmarked_prefix(list: Seq<ProposalView>, a: Seq<bool>, b: Seq<bool>, n: int)
    requires
        0 <= n <= a.len(),
        n <= b.len(),
        forall|i: int| 0 <= i < n ==> a[i] == b[i],
    ensures
        unmarked(list, a, n) == unmarked(list, b, n),
    decreases n,
{
    if n > 0 {
        lemma_unmarked_prefix(list, a, b, n - 1);
    }
}

/// Every unmarked proposal is one of the proposals.
pub proof fn lemma_unmarked_within(list: Seq<ProposalView>, marks: Seq<bool>, n: int)
    requires
        0 <= n <= list.len(),
    ensures
        forall|j: int|
            0 <= j < unmarked(list, marks, n).len() ==> exists|k: int|
                0 <= k < n && list[k] == #[trigger] unmarked(list, marks, n)[j],
    decreases n,
{
    if n > 0 {
        lemma_unmarked_within(list, marks, n - 1);
        let shorter = unmarked(list, marks, n - 1);
        let all = unmarked(list, marks, n);
        assert forall|j: int| 0 <= j < all.len() implies exists|k: int|
            0 <= k < n && list[k] == #[trigger] all[j] by {
            if j < shorter.len() {
                assert(all[j] == shorter[j]);
                let k = choose|k: int| 0 <= k < n - 1 && list[k] == shorter[j];
                assert(0 <= k < n && list[k] == all[j]);
            } else {
                assert(list[n - 1] == all[j]);
            }
        }
    }
}

impl View for RevisionManager {
    type V = ManagerView;

    closed spec fn view(&self) -> ManagerView {
        ManagerView {
            max_revisions: self.max_revisions as nat,
            historical: history_view(self.historical@),
            proposals: proposals_view(self.proposals@),
            by_hash: self.by_hash@,
            pending: self.filebacked.pending(),
        }
    }
}

/// Every revision that the index lists is in the history, under its own root hash.
pub open spec fn index_within_history(s: ManagerView) -> bool {
    forall|h: Seq<u8>| #[trigger]
        s.by_hash.contains_key(h) ==> s.by_hash[h].root_hash == Some(h) && s.historical.contains(
            s.by_hash[h],
        )
}

impl RevisionManager {
    /// There is always a current revision, the index lists no hash twice,
    /// and every revision that it lists is in the history.
    pub closed spec fn wf(&self) -> bool {
        &&& self.historical@.len() >= 1
        &&& self.by_hash.wf()
        &&& index_within_history(self@)
    }

    /// In a well-formed manager every revision that the index lists is in
    /// the history, under its own root hash.
    pub proof fn lemma_index_within_history(&self)
        requires
            self.wf(),
        ensures
            index_within_history(self@),
    {
    }

    /// In a well-formed manager the history is never empty.
    pub proof fn lemma_history_nonempty(&self)
        requires
            self.wf(),
        ensures
            self@.historical.len() >= 1,
    {
    }

    /// Opens the manager on a store.
    ///
    /// With `truncate` the store starts empty, whatever `header` holds: the
    /// history is the one revision of the empty trie, and the store is told
    /// to clear the file and write a fresh header. Without it `header` must
    /// hold the bytes of the store's header region: the history is the one
    /// revision that the header names, and nothing is queued.
    pub fn new(header: &[u8], truncate: bool, config: RevisionManagerConfig) -> (made: Result<
        RevisionManager,
        RevisionManagerError,
    >)
        requires
            config.wf(),
        ensures
            match made {
                Ok(m) => {
                    &&& m.wf()
                    &&& if truncate {
                        m@ == opened(
                            config.max_revisions() as nat,
                            HeaderView { root_address: None, root_hash: None, region: None },
                            true,
                        )
                    } else {
                        (decode_header(header@) matches Ok(h) && m@ == opened(
                            config.max_revisions() as nat,
                            h,
                            false,
                        ))
                    }
                },
                Err(e) => !truncate && (decode_header(header@) matches Err(x) && e
                    == RevisionManagerError::IO(x)),
            },
    {
        let first = if truncate {
            Committed::empty()
        } else {
            match Header::decode(header) {
                Err(e) => {
                    return Err(RevisionManagerError::IO(e));
                },
                Ok(h) => Committed::open(&h),
            }
        };
        Ok(RevisionManager::start(first, truncate, config))
    }

    /// Starts the manager with `first` as its one revision. With `truncate`
    /// the store is told to clear the file and write the header of an empty
    /// store; `first` should then be the revision of the empty trie.
    pub fn start(first: Committed, truncate: bool, config: RevisionManagerConfig) -> (m:
        RevisionManager)
        requires
            config.wf(),
        ensures
            m.wf(),
            m@ == started(config.max_revisions() as nat, first@, truncate),
    {
        let mut storage = FileBacked::new(config.node_cache_size(), config.free_list_cache_size());
        let root_hash = first.root_hash();
        let nodestore = Arc::new(first);
        let mut historical: VecDeque<CommittedRevision> = VecDeque::new();
        historical.push_back(share(&nodestore));
        let mut by_hash = HashIndex::new();
        match root_hash {
            Some(h) => {
                by_hash.insert(h, share(&nodestore));
            },
            None => {},
        }
        if truncate {
            storage.enqueue(StorageOp::Truncate);
            storage.enqueue(StorageOp::WriteHeader(Header::empty().encode()));
            storage.enqueue(StorageOp::Sync);
        }
        let manager = RevisionManager {
            max_revisions: config.max_revisions(),
            filebacked: storage,
            historical,
            proposals: Vec::new(),
            by_hash,
        };
        proof {
            assert(manager@.historical =~= seq![nodestore@]);
            assert(manager@.proposals =~= Seq::<ProposalView>::empty());
            assert(manager@.historical[0] == nodestore@);
            if truncate {
                assert(manager@.pending =~= seq![
                    StorageOpView::Truncate,
                    StorageOpView::WriteHeader(
                        encode_header(
                            HeaderView { root_address: None, root_hash: None, region: None },
                        ),
                    ),
                    StorageOpView::Sync,
                ]);
            }
        }
        manager
    }

    /// The root hashes of the committed revisions, oldest first, then those
    /// of the live proposals.
    pub fn all_hashes(&self) -> (hashes: Vec<TrieHash>)
        ensures
            hashes_view(hashes@) == all_root_hashes(self@),
    {
        let mut out: Vec<TrieHash> = Vec::new();
        let ghost committed = Seq::new(
            self@.historical.len(),
            |i: int| self@.historical[i].root_hash,
        );
        let ghost proposed = Seq::new(self@.proposals.len(), |i: int| self@.proposals[i].root_hash);
        let mut i: usize = 0;
        while i < self.historical.len()
            invariant
                i <= self.historical@.len(),
                committed == Seq::new(
                    self@.historical.len(),
                    |i: int| self@.historical[i].root_hash,
                ),
                hashes_view(out@) == present_hashes(committed, i as int),
            decreases self.historical@.len() - i,
        {
            let ghost before = out@;
            match self.historical[i].root_hash {
                Some(h) => {
                    out.push(h);
                    assert(hashes_view(out@) =~= hashes_view(before).push(h@));
                },
                None => {},
            }
            i += 1;
        }
        let ghost first = out@;
        let mut k: usize = 0;
        while k < self.proposals.len()
            invariant
                k <= self.proposals@.len(),
                proposed == Seq::new(self@.proposals.len(), |i: int| self@.proposals[i].root_hash),
                hashes_view(out@) == hashes_view(first) + present_hashes(proposed, k as int),
            decreases self.proposals@.len() - k,
        {
            let ghost before = out@;
            match self.proposals[k].root_hash {
                Some(h) => {
                    out.push(h);
                    assert(hashes_view(out@) =~= hashes_view(before).push(h@));
                    assert(hashes_view(out@) =~= hashes_view(first) + present_hashes(
                        proposed,
                        k as int,
                    ).push(h@));
                },
                None => {},
            }
            k += 1;
        }
        out
    }

    /// Adds a proposal to the live proposals.
    pub fn add_proposal(&mut self, proposal: ProposedRevision)
        requires
            old(self).wf(),
        ensures
            final(self).wf(),
            final(self)@ == (ManagerView {
                proposals: old(self)@.proposals.push(proposal@),
                ..old(self)@
            }),
    {
        self.proposals.push(proposal);
        assert(self@.proposals =~= old(self)@.proposals.push(proposal@));
    }

    /// The committed revision with the given root hash.
    pub fn revision(&self, root_hash: TrieHash) -> (found: Result<
        CommittedRevision,
        RevisionManagerError,
    >)
        requires
            self.wf(),
        ensures
            match found {
                Ok(rev) => {
                    &&& self@.by_hash.contains_key(root_hash@)
                    &&& rev@ == self@.by_hash[root_hash@]
                    &&& rev@.root_hash == Some(root_hash@)
                    &&& self@.historical.contains(rev@)
                },
                Err(e) => !self@.by_hash.contains_key(root_hash@) && e
                    == RevisionManagerError::NotFound,
            },
    {
        match self.by_hash.get(&root_hash) {
            Some(rev) => Ok(rev),
            None => Err(RevisionManagerError::NotFound),
        }
    }

    /// The root hash of the current revision; `None` while the trie is empty.
    pub fn root_hash(&self) -> (hash: Result<Option<TrieHash>, RevisionManagerError>)
        requires
            self.wf(),
        ensures
            (hash matches Ok(h) && option_hash_view(h) == self@.historical.last().root_hash),
    {
        Ok(self.current_revision().root_hash())
    }

    /// Commits a proposal.
    ///
    /// The proposal must have been built on the current revision, else it is
    /// refused and nothing changes. Then, in this order: its delete list is
    /// queued for recovery; aged revisions are reaped from the front of the
    /// history while it holds `max_revisions` or more, each losing its entry
    /// in the index and releasing its delete list, until one is met that
    /// someone else still holds, which stays; the proposal becomes the
    /// current revision; the free-list heads, the new nodes and the header
    /// are queued for writing; the proposal leaves the live proposals.
    pub fn commit(&mut self, proposal: ProposedRevision) -> (done: Result<
        CommitSummary,
        RevisionManagerError,
    >)
        requires
            old(self).wf(),
            old(self)@.max_revisions >= 1,
        ensures
            final(self).wf(),
            match done {
                Ok(summary) => {
                    &&& proposal@.parent == old(self)@.historical.last().root_hash
                    &&& reap_outcome(old(self)@, summary.reaped as int, summary.blocked)
                    &&& summary.retired@.len() == old(self)@.proposals.len()
                    &&& forall|i: int|
                        0 <= i < summary.retired@.len() && #[trigger] summary.retired@[i]
                            ==> old(self)@.proposals[i] == proposal@
                    &&& final(self)@ == after_commit(
                        old(self)@,
                        proposal@,
                        summary.reaped as int,
                        summary.blocked,
                        summary.retired@,
                    )
                },
                Err(e) => {
                    &&& e == RevisionManagerError::NotLatest
                    &&& proposal@.parent != old(self)@.historical.last().root_hash
                    &&& final(self)@ == old(self)@
                },
            },
    {
        let tip_hash = self.current_revision().root_hash();
        if !proposal.parent_hash_is(tip_hash) {
            return Err(RevisionManagerError::NotLatest);
        }
        let committed = proposal.as_committed();
        self.filebacked.enqueue(StorageOp::PersistDeleted(copy_addresses(&proposal.deleted)));
        let (reaped, blocked) = self.reap();
        let ghost reaped_revs = old(self)@.historical.take(reaped as int);
        let root_hash = committed.root_hash();
        let committed: CommittedRevision = Arc::new(committed);
        self.historical.push_back(share(&committed));
        match root_hash {
            Some(hash) => {
                self.by_hash.insert(hash, share(&committed));
            },
            None => {},
        }
        proposal.flush_freelist(&mut self.filebacked);
        proposal.flush_nodes(&mut self.filebacked);
        proposal.flush_header(&mut self.filebacked);
        let retired = self.retire(&proposal);
        proof {
            assert(self@.historical =~= old(self)@.historical.skip(reaped as int).push(
                committed_of(proposal@),
            ));
            assert(self@.pending =~= old(self)@.pending + commit_ops(proposal@, reaped_revs));
            lemma_commit_keeps_index(old(self)@, proposal@, reaped as int, blocked, retired@);
        }
        Ok(CommitSummary { reaped, blocked, retired })
    }

    /// Reaps aged revisions from the front of the history; gives how many
    /// were reaped and whether a revision that is still held stopped it.
    fn reap(&mut self) -> (outcome: (usize, bool))
        requires
            old(self).by_hash.wf(),
            old(self)@.max_revisions >= 1,
        ensures
            final(self).by_hash.wf(),
            reap_outcome(old(self)@, outcome.0 as int, outcome.1),
            final(self)@ == (ManagerView {
                historical: old(self)@.historical.skip(outcome.0 as int),
                by_hash: hashes_removed(
                    old(self)@.by_hash,
                    old(self)@.historical.take(
                        if outcome.1 {
                            outcome.0 + 1
                        } else {
                            outcome.0 as int
                        },
                    ),
                ),
                pending: old(self)@.pending + releases(
                    old(self)@.historical.take(outcome.0 as int),
                ),
                ..old(self)@
            }),
    {
        let ghost start = self@;
        let mut reaped: usize = 0;
        let mut blocked = false;
        let initial = self.historical.len();
        proof {
            assert(start.historical.len() == initial);
            assert(self@.historical =~= start.historical.skip(0));
            assert(start.historical.take(0) =~= Seq::<CommittedView>::empty());
            assert(self@.pending =~= start.pending + releases(start.historical.take(0)));
        }
        while !blocked && self.historical.len() >= self.max_revisions
            invariant
                self.by_hash.wf(),
                start.max_revisions >= 1,
                start.historical.len() == initial,
                reaped <= start.historical.len(),
                reaped > 0 ==> start.historical.len() - reaped >= start.max_revisions - 1,
                blocked ==> start.historical.len() - reaped >= start.max_revisions,
                self@ == (ManagerView {
                    historical: start.historical.skip(reaped as int),
                    by_hash: hashes_removed(
                        start.by_hash,
                        start.historical.take(
                            if blocked {
                                reaped + 1
                            } else {
                                reaped as int
                            },
                        ),
                    ),
                    pending: start.pending + releases(start.historical.take(reaped as int)),
                    ..start
                }),
            decreases
                    self.historical@.len() + (if blocked {
                        0int
                    } else {
                        1int
                    }),
        {
            let ghost now = self.historical@;
            proof {
                assert(self@.historical.len() == now.len());
                assert(history_view(now)[0] == now[0]@);
                assert(start.historical.skip(reaped as int)[0] == start.historical[reaped as int]);
            }
            let popped = self.historical.pop_front();
            let oldest = popped.unwrap();
            proof {
                assert(oldest@ == start.historical[reaped as int]);
                let upto = start.historical.take(reaped + 1);
                assert(upto.drop_last() =~= start.historical.take(reaped as int));
                assert(upto.last() == oldest@);
            }
            match oldest.root_hash {
                Some(hash) => {
                    self.by_hash.remove(&hash);
                },
                None => {},
            }
            match sole_owner(oldest) {
                Ok(rev) => {
                    rev.reap_deleted(&mut self.filebacked);
                    proof {
                        assert(self.historical@ =~= now.skip(1));
                        assert(history_view(now.skip(1)) =~= history_view(now).skip(1));
                        assert(start.historical.skip(reaped as int).skip(1)
                            =~= start.historical.skip(reaped + 1));
                        assert(self@.historical =~= start.historical.skip(reaped + 1));
                        assert(self@.pending =~= start.pending + releases(
                            start.historical.take(reaped + 1),
                        ));
                    }
                    reaped = reaped + 1;
                },
                Err(held) => {
                    self.historical.push_front(held);
                    proof {
                        assert(self.historical@ =~= now);
                    }
                    blocked = true;
                },
            }
        }
        proof {
            assert(self@.historical.len() == self.historical@.len());
            assert(self@.historical.len() == start.historical.len() - reaped);
        }
        (reaped, blocked)
    }

    /// Takes the proposals that are the very handle `proposal` out of the
    /// live proposals; gives, for each proposal that was live, whether it went.
    fn retire(&mut self, proposal: &ProposedRevision) -> (marks: Vec<bool>)
        ensures
            marks@.len() == old(self)@.proposals.len(),
            forall|i: int|
                0 <= i < marks@.len() && #[trigger] marks@[i] ==> old(self)@.proposals[i]
                    == proposal@,
            final(self)@ == (ManagerView {
                proposals: unmarked(
                    old(self)@.proposals,
                    marks@,
                    old(self)@.proposals.len() as int,
                ),
                ..old(self)@
            }),
            final(self).by_hash == old(self).by_hash,
            final(self).historical == old(self).historical,
    {
        let mut kept: Vec<ProposedRevision> = Vec::new();
        let mut marks: Vec<bool> = Vec::new();
        let ghost live = self@.proposals;
        let mut i: usize = 0;
        while i < self.proposals.len()
            invariant
                i <= self.proposals@.len(),
                self.proposals == old(self).proposals,
                live == proposals_view(self.proposals@),
                marks@.len() == i,
                forall|k: int| 0 <= k < i && #[trigger] marks@[k] ==> live[k] == proposal@,
                proposals_view(kept@) == unmarked(live, marks@, i as int),
            decreases self.proposals@.len() - i,
        {
            let same = same_handle(proposal, &self.proposals[i]);
            let ghost kept_before = kept@;
            let ghost marks_before = marks@;
            if !same {
                kept.push(share(&self.proposals[i]));
            }
            marks.push(same);
            proof {
                lemma_unmarked_prefix(live, marks_before, marks@, i as int);
                if !same {
                    assert(proposals_view(kept@) =~= proposals_view(kept_before).push(
                        live[i as int],
                    ));
                }
            }
            i += 1;
        }
        self.proposals = kept;
        marks
    }

    /// Hands out the storage operations that are queued, oldest first, and
    /// empties the queue. They are to be carried out in that order.
    pub fn take_pending(&mut self) -> (ops: Vec<StorageOp>)
        requires
            old(self).wf(),
        ensures
            final(self).wf(),
            crate::storage::ops_view(ops@) == old(self)@.pending,
            final(self)@ == (ManagerView { pending: Seq::empty(), ..old(self)@ }),
    {
        self.filebacked.take_pending()
    }

    /// The current revision: the one committed last.
    pub fn current_revision(&self) -> (rev: CommittedRevision)
        requires
            self.wf(),
        ensures
            rev@ == self@.historical.last(),
    {
        let n = self.historical.len();
        share(&self.historical[n - 1])
    }
}

/// A commit keeps the index within the history: what it unlists are the
/// revisions that leave, and what it lists anew is the revision that enters.
pub proof fn lemma_commit_keeps_index(
    s: ManagerView,
    p: ProposalView,
    reaped: int,
    blocked: bool,
    retired: Seq<bool>,
)
    requires
        index_within_history(s),
        reap_outcome(s, reaped, blocked),
    ensures
        index_within_history(after_commit(s, p, reaped, blocked, retired)),
{
    let after = after_commit(s, p, reaped, blocked, retired);
    let n = if blocked {
        reaped + 1
    } else {
        reaped
    };
    let gone = s.historical.take(n);
    let new = committed_of(p);
    lemma_hashes_removed_subset(s.by_hash, gone);
    assert forall|h: Seq<u8>| #[trigger] after.by_hash.contains_key(h) implies after.by_hash[h].root_hash
        == Some(h) && after.historical.contains(after.by_hash[h]) by {
        if p.root_hash == Some(h) {
            assert(after.historical[after.historical.len() - 1] == new);
        } else {
            let v = s.by_hash[h];
            assert(hashes_removed(s.by_hash, gone).contains_key(h));
            assert(s.by_hash.contains_key(h));
            assert(after.by_hash[h] == v);
            let i = choose|i: int| 0 <= i < s.historical.len() && s.historical[i] == v;
            if i < n {
                assert(gone[i] == s.historical[i]);
                lemma_hashes_removed(s.by_hash, gone, i);
            }
            assert(after.historical[i - reaped] == v);
        }
    }
}

/// How one commit ended: how many revisions it reaped, whether reaping was
/// blocked, and which live proposals it retired.
pub struct Outcome {
    pub reaped: int,
    pub blocked: bool,
    pub retired: Seq<bool>,
}

/// Whether a commit of `p` in state `s` is accepted and can end as `o` says.
pub open spec fn accepted(s: ManagerView, p: ProposalView, o: Outcome) -> bool {
    p.parent == s.historical.last().root_hash && reap_outcome(s, o.reaped, o.blocked)
}

/// The state after committing the proposals `ps` one after the other.
pub open spec fn run(s: ManagerView, ps: Seq<ProposalView>, os: Seq<Outcome>) -> ManagerView
    decreases ps.len(),
{
    if ps.len() == 0 {
        s
    } else {
        let o = os.last();
        after_commit(run(s, ps.drop_last(), os.drop_last()), ps.last(), o.reaped, o.blocked, o.retired)
    }
}

/// Whether each of the commits of `ps`, one after the other, is accepted.
pub open spec fn all_accepted(s: ManagerView, ps: Seq<ProposalView>, os: Seq<Outcome>) -> bool
    decreases ps.len(),
{
    ps.len() == os.len() && (ps.len() == 0 || (all_accepted(s, ps.drop_last(), os.drop_last())
        && accepted(run(s, ps.drop_last(), os.drop_last()), ps.last(), os.last())))
}

/// How many of the last commits in a row were blocked.
pub open spec fn blocked_streak(os: Seq<Outcome>) -> nat
    decreases os.len(),
{
    if os.len() == 0 || !os.last().blocked {
        0
    } else {
        blocked_streak(os.drop_last()) + 1
    }
}

/// Whether each commit of the last blocked streak reaped nothing.
pub open spec fn streak_reaped_nothing(os: Seq<Outcome>) -> bool
    decreases os.len(),
{
    os.len() == 0 || !os.last().blocked || (os.last().reaped == 0 && streak_reaped_nothing(
        os.drop_last(),
    ))
}

/// A committed proposal is the current revision, and stays the ancestor of
/// the tip: after any accepted commits, the tip is the last proposal
/// committed, the first was built on the tip they started from, and each
/// later one was built on the one committed before it.
pub proof fn lemma_lineage(s: ManagerView, ps: Seq<ProposalView>, os: Seq<Outcome>)
    requires
        all_accepted(s, ps, os),
        ps.len() > 0,
    ensures
        run(s, ps, os).historical.last() == committed_of(ps.last()),
        run(s, ps, os).historical.last().root_hash == ps.last().root_hash,
        ps[0].parent == s.historical.last().root_hash,
        forall|i: int| 0 < i < ps.len() ==> (#[trigger] ps[i]).parent == ps[i - 1].root_hash,
    decreases ps.len(),
{
    let front = ps.drop_last();
    if front.len() > 0 {
        lemma_lineage(s, front, os.drop_last());
        assert forall|i: int| 0 < i < ps.len() implies (#[trigger] ps[i]).parent == ps[i
            - 1].root_hash by {
            if i < front.len() {
                assert(front[i] == ps[i]);
                assert(front[i - 1] == ps[i - 1]);
            } else {
                assert(front.last() == ps[i - 1]);
            }
        }
        assert(front[0] == ps[0]);
    }
}

/// The history is bounded: starting within the bound, after any accepted
/// commits it holds at most `max_revisions` revisions plus one for each of
/// the last commits in a row whose reaping was blocked; and it holds exactly
/// that many if those commits reaped nothing.
pub proof fn lemma_bounded_history(s: ManagerView, ps: Seq<ProposalView>, os: Seq<Outcome>)
    requires
        all_accepted(s, ps, os),
        s.max_revisions >= 1,
        1 <= s.historical.len() <= s.max_revisions,
    ensures
        run(s, ps, os).max_revisions == s.max_revisions,
        1 <= run(s, ps, os).historical.len() <= s.max_revisions + blocked_streak(os),
        blocked_streak(os) > 0 && streak_reaped_nothing(os) ==> run(s, ps, os).historical.len()
            == s.max_revisions + blocked_streak(os),
    decreases ps.len(),
{
    if ps.len() > 0 {
        lemma_bounded_history(s, ps.drop_last(), os.drop_last());
    }
}

/// The index without the root hashes of `revs` lists none of them.
pub proof fn lemma_hashes_removed(
    by_hash: Map<Seq<u8>, CommittedView>,
    revs: Seq<CommittedView>,
    i: int,
)
    requires
        0 <= i < revs.len(),
    ensures
        revs[i].root_hash matches Some(h) ==> !hashes_removed(by_hash, revs).contains_key(h),
        forall|k: Seq<u8>| #[trigger]
            hashes_removed(by_hash, revs).contains_key(k) ==> by_hash.contains_key(k)
                && hashes_removed(by_hash, revs)[k] == by_hash[k],
    decreases revs.len(),
{
    lemma_hashes_removed_subset(by_hash, revs);
    if i < revs.len() - 1 {
        lemma_hashes_removed(by_hash, revs.drop_last(), i);
        assert(revs.drop_last()[i] == revs[i]);
    }
}

pub proof fn lemma_hashes_removed_subset(by_hash: Map<Seq<u8>, CommittedView>, revs: Seq<CommittedView>)
    ensures
        forall|k: Seq<u8>| #[trigger]
            hashes_removed(by_hash, revs).contains_key(k) ==> by_hash.contains_key(k)
                && hashes_removed(by_hash, revs)[k] == by_hash[k],
    decreases revs.len(),
{
    if revs.len() > 0 {
        lemma_hashes_removed_subset(by_hash, revs.drop_last());
        let m = hashes_removed(by_hash, revs.drop_last());
        assert forall|k: Seq<u8>| #[trigger]
            hashes_removed(by_hash, revs).contains_key(k) implies by_hash.contains_key(k)
            && hashes_removed(by_hash, revs)[k] == by_hash[k] by {
            assert(m.contains_key(k));
            assert(hashes_removed(by_hash, revs)[k] == m[k]);
        }
    }
}

/// A reaped revision is gone for good: after a commit, the hash of a
/// revision that it reaped or was blocked at is not in the index, so looking
/// it up finds nothing, unless it is the hash of the revision just
/// committed; and a proposal built on that hash is refused, unless it is
/// the hash of the new tip.
pub proof fn lemma_reaped_unreachable(
    s: ManagerView,
    p: ProposalView,
    o: Outcome,
    i: int,
    later: ProposalView,
    later_outcome: Outcome,
)
    requires
        accepted(s, p, o),
        0 <= i < o.reaped + (if o.blocked {
            1int
        } else {
            0int
        }),
        s.historical[i].root_hash is Some,
        s.historical[i].root_hash != p.root_hash,
    ensures
        !after_commit(s, p, o.reaped, o.blocked, o.retired).by_hash.contains_key(
            s.historical[i].root_hash->0,
        ),
        later.parent == s.historical[i].root_hash ==> !accepted(
            after_commit(s, p, o.reaped, o.blocked, o.retired),
            later,
            later_outcome,
        ),
{
    let n = o.reaped + (if o.blocked {
        1int
    } else {
        0int
    });
    let gone = s.historical.take(n);
    assert(gone[i] == s.historical[i]);
    lemma_hashes_removed(s.by_hash, gone, i);
}

} // verus!

use std::sync::Arc;

use firewood::address::LinearAddress;
use firewood::hash::TrieHash;
use firewood::manager::{RevisionManager, RevisionManagerConfig, RevisionManagerError};
use firewood::revision::{ImmutableProposal, ProposedRevision};
use firewood::storage::{Header, HeaderError, StorageOp};

fn addr(n: u64) -> LinearAddress {
    LinearAddress::new(n).expect("non-zero")
}

fn hash(n: u8) -> TrieHash {
    TrieHash::new([n; 32])
}

fn config(max_revisions: usize) -> RevisionManagerConfig {
    RevisionManagerConfig::builder().max_revisions(max_revisions).build()
}

fn proposal(parent: Option<TrieHash>, n: u8) -> ProposedRevision {
    Arc::new(ImmutableProposal {
        parent,
        root_address: Some(addr(100 + u64::from(n))),
        root_hash: Some(hash(n)),
        new_nodes: vec![(addr(100 + u64::from(n)), vec![n, n])],
        deleted: vec![addr(50 + u64::from(n))],
        root: None,
    })
}

fn fresh(max_revisions: usize) -> RevisionManager {
    let mut m = RevisionManager::new(&[], true, config(max_revisions)).expect("truncate");
    m.take_pending();
    m
}

/// Commits `count` proposals in a chain, with root hashes 1, 2, ...
fn commit_chain(m: &mut RevisionManager, count: u8) {
    for n in 1..=count {
        let parent = m.root_hash().expect("root hash");
        let p = proposal(parent, n);
        m.add_proposal(p.clone());
        m.commit(p).expect("commit");
    }
}

#[test]
fn config_defaults() {
    let c = RevisionManagerConfig::builder().build();
    assert_eq!(c.max_revisions(), 128);
    assert_eq!(c.node_cache_size(), 20480);
    assert_eq!(c.free_list_cache_size(), 10000);
}

#[test]
fn config_builder_sets_each_field() {
    let c = RevisionManagerConfig::builder()
        .max_revisions(4)
        .node_cache_size(7)
        .free_list_cache_size(9)
        .build();
    assert_eq!(c.max_revisions(), 4);
    assert_eq!(c.node_cache_size(), 7);
    assert_eq!(c.free_list_cache_size(), 9);
}

#[test]
fn truncated_store_starts_empty() {
    let mut m = RevisionManager::new(&[1, 2, 3], true, config(4)).expect("truncate");
    assert_eq!(m.root_hash(), Ok(None));
    assert!(m.all_hashes().is_empty());
    assert_eq!(m.current_revision().root_hash(), None);
    assert_eq!(
        m.take_pending(),
        vec![
            StorageOp::Truncate,
            StorageOp::WriteHeader(Header::empty().encode()),
            StorageOp::Sync
        ]
    );
    assert!(m.take_pending().is_empty());
}

#[test]
fn first_commit_establishes_a_hash() {
    let mut m = fresh(4);
    assert_eq!(m.root_hash(), Ok(None));
    let p = proposal(None, 1);
    m.add_proposal(p.clone());
    m.commit(p).expect("commit");
    assert_eq!(m.root_hash(), Ok(Some(hash(1))));
    assert_eq!(m.current_revision().root_hash(), Some(hash(1)));
}

#[test]
fn open_reads_the_root_from_the_header() {
    let header = Header { root_address: Some(addr(4096)), root_hash: Some(hash(3)), region: Some(addr(65)) };
    let mut m = RevisionManager::new(&header.encode(), false, config(4)).expect("open");
    assert_eq!(m.root_hash(), Ok(Some(hash(3))));
    assert_eq!(m.all_hashes(), vec![hash(3)]);
    let rev = m.revision(hash(3)).expect("indexed");
    assert_eq!(rev.root_address, Some(addr(4096)));
    assert!(m.take_pending().is_empty());
}

#[test]
fn open_refuses_a_bad_header() {
    let good = Header::empty().encode();
    let short = RevisionManager::new(&good[..64], false, config(4));
    assert_eq!(short.err(), Some(RevisionManagerError::IO(HeaderError::TooShort)));
    let mut magic = good.clone();
    magic[0] = b'F';
    assert_eq!(
        RevisionManager::new(&magic, false, config(4)).err(),
        Some(RevisionManagerError::IO(HeaderError::BadMagic))
    );
    let mut version = good.clone();
    version[8] = 2;
    assert_eq!(
        RevisionManager::new(&version, false, config(4)).err(),
        Some(RevisionManagerError::IO(HeaderError::BadVersion))
    );
    let mut marker = good.clone();
    marker[24] = 2;
    assert_eq!(
        RevisionManager::new(&marker, false, config(4)).err(),
        Some(RevisionManagerError::IO(HeaderError::BadRootHash))
    );
}

#[test]
fn header_round_trip() {
    let with_root =
        Header { root_address: Some(addr(77)), root_hash: Some(hash(9)), region: Some(addr(70)) };
    let bytes = with_root.encode();
    assert_eq!(bytes.len(), 65);
    assert_eq!(&bytes[8..16], &[1, 0, 0, 0, 0, 0, 0, 0]);
    assert_eq!(&bytes[16..24], &[77, 0, 0, 0, 0, 0, 0, 0]);
    assert_eq!(bytes[24], 1);
    assert_eq!(&bytes[25..57], &[9u8; 32]);
    assert_eq!(&bytes[57..65], &[70, 0, 0, 0, 0, 0, 0, 0]);
    assert_eq!(&bytes[..8], b"firewood");
    assert_eq!(Header::decode(&bytes), Ok(with_root));
    assert_eq!(Header::decode(&Header::empty().encode()), Ok(Header::empty()));
    let mut padded = bytes.clone();
    padded.extend_from_slice(&[0u8; 100]);
    assert_eq!(Header::decode(&padded), Ok(with_root));
}

#[test]
fn reopening_recovers_the_committed_root_hash() {
    let mut m = fresh(4);
    commit_chain(&mut m, 2);
    let ops = m.take_pending();
    let header = ops
        .iter()
        .rev()
        .find_map(|op| match op {
            StorageOp::WriteHeader(bytes) => Some(bytes.clone()),
            _ => None,
        })
        .expect("a header was written");
    let reopened = RevisionManager::new(&header, false, config(4)).expect("open");
    assert_eq!(reopened.root_hash(), Ok(Some(hash(2))));
    assert_eq!(reopened.root_hash(), m.root_hash());
}

#[test]
fn commit_queues_the_writes_in_order() {
    let mut m = fresh(4);
    let p = proposal(None, 1);
    m.add_proposal(p.clone());
    let summary = m.commit(p).expect("commit");
    assert_eq!(summary.reaped, 0);
    assert!(!summary.blocked);
    assert_eq!(summary.retired, vec![true]);
    let header =
        Header { root_address: Some(addr(101)), root_hash: Some(hash(1)), region: Some(addr(101)) };
    assert_eq!(
        m.take_pending(),
        vec![
            StorageOp::PersistDeleted(vec![addr(51)]),
            StorageOp::FlushFreeList,
            StorageOp::WriteNode(addr(101), vec![1, 1]),
            StorageOp::Sync,
            StorageOp::WriteHeader(header.encode()),
            StorageOp::Sync,
        ]
    );
}

#[test]
fn reaping_releases_the_delete_list_before_the_flushes() {
    let mut m = fresh(2);
    commit_chain(&mut m, 2);
    m.take_pending();
    let p = proposal(Some(hash(2)), 3);
    let summary = m.commit(p).expect("commit");
    assert_eq!(summary.reaped, 1);
    assert!(!summary.blocked);
    let ops = m.take_pending();
    assert_eq!(ops[0], StorageOp::PersistDeleted(vec![addr(53)]));
    assert_eq!(ops[1], StorageOp::Release(addr(51)));
    assert_eq!(ops[2], StorageOp::FlushFreeList);
    assert_eq!(ops.len(), 7);
}

#[test]
fn lineage_rejection() {
    let mut m = fresh(8);
    commit_chain(&mut m, 1);
    let a = proposal(Some(hash(1)), 2);
    let b = proposal(Some(hash(1)), 3);
    m.add_proposal(a.clone());
    m.add_proposal(b.clone());
    assert!(m.commit(a).is_ok());
    let before = m.all_hashes();
    assert_eq!(m.commit(b).err(), Some(RevisionManagerError::NotLatest));
    assert_eq!(m.all_hashes(), before);
    assert_eq!(m.root_hash(), Ok(Some(hash(2))));
}

#[test]
fn commit_against_an_old_parent_is_refused() {
    let mut m = fresh(8);
    commit_chain(&mut m, 3);
    let stale = proposal(Some(hash(1)), 9);
    assert_eq!(m.commit(stale).err(), Some(RevisionManagerError::NotLatest));
    let on_empty = proposal(None, 9);
    assert_eq!(m.commit(on_empty).err(), Some(RevisionManagerError::NotLatest));
    assert_eq!(m.root_hash(), Ok(Some(hash(3))));
}

#[test]
fn history_bound() {
    let mut m = fresh(4);
    commit_chain(&mut m, 10);
    assert_eq!(m.all_hashes(), vec![hash(7), hash(8), hash(9), hash(10)]);
    for n in 1..=3u8 {
        assert_eq!(m.revision(hash(n)).err(), Some(RevisionManagerError::NotFound));
    }
    for n in 7..=10u8 {
        assert_eq!(m.revision(hash(n)).expect("kept").root_hash(), Some(hash(n)));
    }
}

#[test]
fn history_of_one_keeps_only_the_tip() {
    let mut m = fresh(1);
    commit_chain(&mut m, 3);
    assert_eq!(m.all_hashes(), vec![hash(3)]);
    assert_eq!(m.revision(hash(2)).err(), Some(RevisionManagerError::NotFound));
}

#[test]
fn a_held_revision_blocks_reaping() {
    let mut m = fresh(2);
    commit_chain(&mut m, 2);
    let held = m.revision(hash(1)).expect("indexed");

    let third = proposal(Some(hash(2)), 3);
    let after_third = m.commit(third).expect("commit");
    assert_eq!(after_third.reaped, 0);
    assert!(after_third.blocked);
    assert_eq!(m.all_hashes(), vec![hash(1), hash(2), hash(3)]);
    assert_eq!(m.revision(hash(1)).err(), Some(RevisionManagerError::NotFound));

    let fourth = proposal(Some(hash(3)), 4);
    let after_fourth = m.commit(fourth).expect("commit");
    assert_eq!(after_fourth.reaped, 0);
    assert!(after_fourth.blocked);
    assert_eq!(m.all_hashes(), vec![hash(1), hash(2), hash(3), hash(4)]);

    drop(held);
    let fifth = proposal(Some(hash(4)), 5);
    let after_fifth = m.commit(fifth).expect("commit");
    assert_eq!(after_fifth.reaped, 3);
    assert!(!after_fifth.blocked);
    assert_eq!(m.all_hashes(), vec![hash(4), hash(5)]);
}

#[test]
fn a_reaped_parent_gives_not_latest_or_not_found() {
    let mut m = fresh(2);
    commit_chain(&mut m, 4);
    assert_eq!(m.revision(hash(1)).err(), Some(RevisionManagerError::NotFound));
    let late = proposal(Some(hash(1)), 9);
    assert_eq!(m.commit(late).err(), Some(RevisionManagerError::NotLatest));
    assert_eq!(m.all_hashes(), vec![hash(3), hash(4)]);
}

#[test]
fn all_hashes_lists_history_then_proposals() {
    let mut m = fresh(8);
    commit_chain(&mut m, 2);
    let a = proposal(Some(hash(2)), 20);
    let b = proposal(Some(hash(2)), 21);
    m.add_proposal(a);
    m.add_proposal(b.clone());
    assert_eq!(m.all_hashes(), vec![hash(1), hash(2), hash(20), hash(21)]);
    let summary = m.commit(b).expect("commit");
    assert_eq!(summary.retired, vec![false, true]);
    assert_eq!(m.all_hashes(), vec![hash(1), hash(2), hash(21), hash(20)]);
}

#[test]
fn all_hashes_skips_empty_tries() {
    let mut m = fresh(8);
    let empty = Arc::new(ImmutableProposal {
        parent: None,
        root_address: None,
        root_hash: None,
        new_nodes: vec![],
        deleted: vec![],
        root: None,
    });
    m.add_proposal(empty.clone());
    assert!(m.all_hashes().is_empty());
    m.commit(empty).expect("commit");
    assert!(m.all_hashes().is_empty());
    assert_eq!(m.root_hash(), Ok(None));
}

#[test]
fn revision_finds_committed_roots_only() {
    let mut m = fresh(8);
    commit_chain(&mut m, 2);
    let pending = proposal(Some(hash(2)), 7);
    m.add_proposal(pending);
    assert!(m.revision(hash(1)).is_ok());
    assert!(m.revision(hash(2)).is_ok());
    assert_eq!(m.revision(hash(7)).err(), Some(RevisionManagerError::NotFound));
    assert_eq!(m.revision(hash(99)).err(), Some(RevisionManagerError::NotFound));
}

#[test]
fn proposal_knows_its_parent() {
    let p = proposal(Some(hash(2)), 3);
    assert!(p.parent_hash_is(Some(hash(2))));
    assert!(!p.parent_hash_is(Some(hash(3))));
    assert!(!p.parent_hash_is(None));
    let c = p.as_committed();
    assert_eq!(c.root_hash(), Some(hash(3)));
    assert_eq!(c.root_address, Some(addr(103)));
    assert_eq!(c.deleted, vec![addr(53)]);
}

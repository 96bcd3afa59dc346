use firewood::address::LinearAddress;
use firewood::db::{Db, DbConfig, DbError};
use firewood::manager::{RevisionManagerConfig, RevisionManagerError};
use firewood::node::branch::{BranchNode, Child, LeafNode, Node};
use firewood::node::path::Path;
use firewood::storage::{Header, HeaderError, StorageOp};
use firewood::trie::batch::BatchOp;
use firewood::trie::store::LoadError;
use firewood::workload::{generate_deletes, generate_inserts, generate_updates, key_of_row};

fn config(truncate: bool, max_revisions: usize) -> DbConfig {
    let manager = RevisionManagerConfig::builder().max_revisions(max_revisions).build();
    DbConfig::builder().truncate(truncate).manager(manager).build()
}

/// Carries storage operations out on the bytes of a store.
fn carry_out(image: &mut Vec<u8>, ops: &[StorageOp]) {
    for op in ops {
        let (at, bytes) = match op {
            StorageOp::Truncate => {
                image.clear();
                continue;
            }
            StorageOp::WriteHeader(bytes) => (0usize, bytes),
            StorageOp::WriteNode(address, bytes) => (address.get() as usize, bytes),
            _ => continue,
        };
        if image.len() < at + bytes.len() {
            image.resize(at + bytes.len(), 0);
        }
        image[at..at + bytes.len()].copy_from_slice(bytes);
    }
}

fn put(key: &[u8], value: &[u8]) -> BatchOp<Vec<u8>, Vec<u8>> {
    BatchOp::Put { key: key.to_vec(), value: value.to_vec() }
}

/// A fresh database with rows 0..1024 committed, and the bytes of its store.
fn with_rows() -> (Db, Vec<u8>) {
    let mut image = vec![1u8, 2, 3];
    let mut db = Db::new(&image, config(true, 128)).expect("truncate");
    let proposal = db.propose(&generate_inserts(0, 1024)).expect("fits");
    db.commit(proposal).expect("commit");
    carry_out(&mut image, &db.take_pending());
    (db, image)
}

#[test]
fn empty_database_has_no_root_hash() {
    let db = Db::new(&[], config(true, 4)).expect("truncate");
    assert_eq!(db.root_hash(), None);
    assert!(db.all_hashes().is_empty());
    assert_eq!(db.current_revision().get(b"any"), None);
}

#[test]
fn default_config_does_not_truncate() {
    let c = DbConfig::builder().build();
    assert!(!c.truncate);
    assert_eq!(c.manager.max_revisions(), 128);
}

#[test]
fn insert_then_read_back() {
    let (db, image) = with_rows();
    let hash = db.root_hash().expect("first commit establishes a hash");
    let reopened = Db::new(&image, config(false, 128)).expect("open");
    assert_eq!(reopened.root_hash(), Some(hash));
    let before = db.current_revision();
    let after = reopened.current_revision();
    for i in 0..1024u64 {
        let key = key_of_row(i);
        assert_eq!(before.get(&key), Some(key.clone()));
        assert_eq!(after.get(&key), Some(key.clone()));
    }
    assert_eq!(after.get(&key_of_row(1024)), None);
}

#[test]
fn delete_half() {
    let (mut db, mut image) = with_rows();
    let proposal = db.propose(&generate_deletes(0, 512)).expect("fits");
    db.commit(proposal).expect("commit");
    carry_out(&mut image, &db.take_pending());
    let reopened = Db::new(&image, config(false, 128)).expect("open");
    assert_eq!(reopened.root_hash(), db.root_hash());
    for rev in [db.current_revision(), reopened.current_revision()] {
        for i in 0..1024u64 {
            let key = key_of_row(i);
            if i < 512 {
                assert_eq!(rev.get(&key), None);
            } else {
                assert_eq!(rev.get(&key), Some(key.clone()));
            }
        }
    }
}

#[test]
fn update_to_common_value() {
    let (mut db, _) = with_rows();
    let proposal = db.propose(&generate_updates(256, 512, 0)).expect("fits");
    db.commit(proposal).expect("commit");
    let common = key_of_row(0);
    let rev = db.current_revision();
    for i in 0..1024u64 {
        let key = key_of_row(i);
        if (256..768).contains(&i) {
            assert_eq!(rev.get(&key), Some(common.clone()));
        } else {
            assert_eq!(rev.get(&key), Some(key.clone()));
        }
    }
}

#[test]
fn sibling_proposal_is_refused() {
    let (mut db, _) = with_rows();
    let a = db.propose(&vec![put(b"a", b"1")]).expect("fits");
    let b = db.propose(&vec![put(b"b", b"2")]).expect("fits");
    let hash_a = a.root_hash().expect("hash");
    assert!(db.commit(a).is_ok());
    let before = db.all_hashes();
    assert_eq!(db.commit(b).err(), Some(DbError::Manager(RevisionManagerError::NotLatest)));
    assert_eq!(db.all_hashes(), before);
    assert_eq!(db.root_hash(), Some(hash_a));
    assert_eq!(db.current_revision().get(b"a"), Some(b"1".to_vec()));
    assert_eq!(db.current_revision().get(b"b"), None);
}

#[test]
fn history_is_bounded() {
    let mut db = Db::new(&[], config(true, 4)).expect("truncate");
    let mut hashes = Vec::new();
    for i in 0..10u64 {
        let proposal = db.propose(&generate_inserts(i, 1)).expect("fits");
        hashes.push(proposal.root_hash().expect("hash"));
        let summary = db.commit(proposal).expect("commit");
        assert!(!summary.blocked);
    }
    assert_eq!(db.all_hashes(), hashes[6..].to_vec());
    for h in &hashes[..3] {
        assert_eq!(
            db.revision(*h).err(),
            Some(DbError::Manager(RevisionManagerError::NotFound))
        );
    }
    let kept = db.revision(hashes[6]).expect("kept");
    assert_eq!(kept.get(&key_of_row(6)), Some(key_of_row(6)));
    assert_eq!(kept.get(&key_of_row(7)), None);
}

#[test]
fn old_revisions_keep_their_contents() {
    let mut db = Db::new(&[], config(true, 8)).expect("truncate");
    let first = db.propose(&vec![put(b"k", b"1")]).expect("fits");
    let first_hash = first.root_hash().expect("hash");
    db.commit(first).expect("commit");
    let second = db.propose(&vec![put(b"k", b"2"), put(b"l", b"3")]).expect("fits");
    db.commit(second).expect("commit");
    let old = db.revision(first_hash).expect("kept");
    assert_eq!(old.get(b"k"), Some(b"1".to_vec()));
    assert_eq!(old.get(b"l"), None);
    assert_eq!(db.current_revision().get(b"k"), Some(b"2".to_vec()));
}

#[test]
fn crash_before_the_root_moves_keeps_the_previous_revision() {
    let (mut db, image) = with_rows();
    let committed = db.root_hash();
    let proposal = db.propose(&generate_deletes(0, 512)).expect("fits");
    db.commit(proposal).expect("commit");
    let ops = db.take_pending();
    let header_at = ops
        .iter()
        .position(|op| matches!(op, StorageOp::WriteHeader(_)))
        .expect("a commit writes the header");
    assert!(ops[..header_at].iter().any(|op| matches!(op, StorageOp::FlushFreeList)));
    assert!(ops[..header_at].iter().any(|op| matches!(op, StorageOp::WriteNode(_, _))));
    assert_eq!(ops[header_at - 1], StorageOp::Sync);
    for stop in 0..=header_at {
        let mut crashed = image.clone();
        carry_out(&mut crashed, &ops[..stop]);
        let reopened = Db::new(&crashed, config(false, 128)).expect("open");
        assert_eq!(reopened.root_hash(), committed);
        let rev = reopened.current_revision();
        for i in [0u64, 1, 511, 512, 1023] {
            let key = key_of_row(i);
            assert_eq!(rev.get(&key), Some(key.clone()));
        }
    }
    let mut finished = image.clone();
    carry_out(&mut finished, &ops);
    let reopened = Db::new(&finished, config(false, 128)).expect("open");
    assert_eq!(reopened.root_hash(), db.root_hash());
    assert_eq!(reopened.current_revision().get(&key_of_row(0)), None);
}

#[test]
fn new_nodes_lie_behind_everything_written_before() {
    let (mut db, image) = with_rows();
    let a = db.propose(&vec![put(b"a", b"1")]).expect("fits");
    let b = db.propose(&vec![put(b"b", b"2")]).expect("fits");
    let (a_at, a_len) = (a.new_nodes[0].0.get(), a.new_nodes[0].1.len() as u64);
    let (b_at, b_len) = (b.new_nodes[0].0.get(), b.new_nodes[0].1.len() as u64);
    assert_eq!(a.new_nodes.len(), 1);
    assert_eq!(a_at, image.len() as u64);
    assert_eq!(b_at, a_at + a_len);
    let root = a.root_address.expect("root").get();
    assert!(a_at <= root && root < a_at + a_len);
    let root = b.root_address.expect("root").get();
    assert!(b_at <= root && root < b_at + b_len);
    assert_eq!(a.deleted, b.deleted);
    assert_eq!(a.deleted.len(), 1);
    assert_eq!(a.deleted[0].get(), 65);
}

#[test]
fn a_commit_that_empties_the_trie_clears_the_root() {
    let mut image = Vec::new();
    let mut db = Db::new(&image, config(true, 4)).expect("truncate");
    let p = db.propose(&vec![put(b"k", b"v")]).expect("fits");
    db.commit(p).expect("commit");
    let p = db.propose(&vec![BatchOp::Delete { key: b"k".to_vec() }]).expect("fits");
    assert_eq!(p.root_hash(), None);
    assert!(p.new_nodes.is_empty());
    db.commit(p).expect("commit");
    assert_eq!(db.root_hash(), None);
    carry_out(&mut image, &db.take_pending());
    let reopened = Db::new(&image, config(false, 4)).expect("open");
    assert_eq!(reopened.root_hash(), None);
    assert_eq!(reopened.current_revision().get(b"k"), None);
}

#[test]
fn open_refuses_a_damaged_store() {
    let (_, image) = with_rows();
    assert_eq!(
        Db::new(&image[..10], config(false, 4)).err(),
        Some(DbError::Manager(RevisionManagerError::IO(HeaderError::TooShort)))
    );
    assert_eq!(
        Db::new(&image[..image.len() - 1], config(false, 4)).err(),
        Some(DbError::Load(LoadError::OutOfBounds))
    );
    let mut wrong_hash = image.clone();
    wrong_hash[30] ^= 1;
    assert_eq!(Db::new(&wrong_hash, config(false, 4)).err(), Some(DbError::RootMismatch));
    let mut no_hash = image.clone();
    no_hash[24] = 0;
    assert_eq!(Db::new(&no_hash, config(false, 4)).err(), Some(DbError::HalfRoot));
    let mut no_address = image.clone();
    for b in &mut no_address[16..24] {
        *b = 0;
    }
    assert_eq!(Db::new(&no_address, config(false, 4)).err(), Some(DbError::HalfRoot));
    let mut flipped = image.clone();
    let mut field = [0u8; 8];
    field.copy_from_slice(&image[65..73]);
    let first_record = u64::from_le_bytes(field) as usize;
    flipped[73 + first_record - 9] ^= 1;
    assert_eq!(Db::new(&flipped, config(false, 4)).err(), Some(DbError::RootMismatch));
}

#[test]
fn open_refuses_a_beginning_that_does_not_go_with_the_root() {
    let (_, image) = with_rows();
    let header = Header::decode(&image).expect("header");
    let root = header.root_address.expect("root");
    let behind = Header { region: LinearAddress::new(root.get() + 1), ..header };
    let mut damaged = image.clone();
    damaged[..65].copy_from_slice(&behind.encode());
    assert_eq!(Db::new(&damaged, config(false, 4)).err(), Some(DbError::BadRegion));
    let inside_header = Header { region: LinearAddress::new(64), ..header };
    damaged[..65].copy_from_slice(&inside_header.encode());
    assert_eq!(Db::new(&damaged, config(false, 4)).err(), Some(DbError::BadRegion));
    let rootless = Header { root_address: None, root_hash: None, region: header.region };
    damaged[..65].copy_from_slice(&rootless.encode());
    assert_eq!(Db::new(&damaged, config(false, 4)).err(), Some(DbError::BadRegion));
    let unnamed = Header { region: None, ..header };
    damaged[..65].copy_from_slice(&unnamed.encode());
    assert!(Db::new(&damaged, config(false, 4)).is_ok());
}

#[test]
fn open_refuses_a_trie_with_a_bare_branch() {
    let mut b = BranchNode::new(Path(vec![1]), None);
    let leaf = Node::Leaf(LeafNode { partial_path: Path(vec![2]), value: vec![3] });
    b.update_child(0, Some(Child::Node(leaf)));
    let root = Node::Branch(Box::new(b));
    let mut blob = Vec::new();
    let (address, hash) = root.persist(65, &mut blob).expect("fits");
    let header = Header {
        root_address: Some(address),
        root_hash: Some(hash),
        region: LinearAddress::new(65),
    };
    let mut image = header.encode();
    image.extend_from_slice(&blob);
    assert_eq!(Db::new(&image, config(false, 4)).err(), Some(DbError::NotCanonical));
}

#[test]
fn proposals_read_their_own_writes() {
    let (mut db, _) = with_rows();
    let p = db.propose(&vec![put(b"new", b"value")]).expect("fits");
    assert_eq!(p.get(b"new"), Some(b"value".to_vec()));
    assert_eq!(p.get(&key_of_row(3)), Some(key_of_row(3)));
    assert_eq!(db.current_revision().get(b"new"), None);
    assert!(p.parent_hash_is(db.root_hash()));
}

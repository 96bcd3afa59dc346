use firewood::address::LinearAddress;
use firewood::hash::{same_root, TrieHash};
use firewood::node::branch::{BranchNode, Child, LeafNode, Node};
use firewood::node::codec::DecodeError;
use firewood::node::path::Path;

fn addr(n: u64) -> LinearAddress {
    LinearAddress::new(n).expect("non-zero")
}

fn sample_branch() -> BranchNode {
    let mut b = BranchNode::new(Path(vec![1, 2]), Some(vec![0xab]));
    b.update_child(3, Some(Child::AddressWithHash(addr(16), TrieHash::new([7u8; 32]))));
    b
}

fn sample_record() -> Vec<u8> {
    let mut bytes = vec![2u8, 0, 0, 0, 0, 0, 0, 0, 1, 2];
    bytes.extend_from_slice(&[1, 0, 0, 0, 0, 0, 0, 0, 0xab]);
    bytes.extend_from_slice(&[1, 0, 0, 0, 0, 0, 0, 0]);
    bytes.push(3);
    bytes.extend_from_slice(&[16, 0, 0, 0, 0, 0, 0, 0]);
    bytes.extend_from_slice(&[7u8; 32]);
    bytes
}

#[test]
fn address_zero_is_none() {
    assert!(LinearAddress::new(0).is_none());
    assert_eq!(addr(42).get(), 42);
}

#[test]
fn hash_from_slice_needs_32_bytes() {
    assert!(TrieHash::from_slice(&[1u8; 31]).is_none());
    assert!(TrieHash::from_slice(&[1u8; 33]).is_none());
    let h = TrieHash::from_slice(&[9u8; 32]).expect("32 bytes");
    assert_eq!(h.to_vec(), vec![9u8; 32]);
    assert!(h.same(&TrieHash::new([9u8; 32])));
    assert!(!h.same(&TrieHash::new([8u8; 32])));
}

#[test]
fn optional_hashes_compare() {
    let a = Some(TrieHash::new([1u8; 32]));
    let b = Some(TrieHash::new([2u8; 32]));
    assert!(same_root(&None, &None));
    assert!(same_root(&a, &a));
    assert!(!same_root(&a, &b));
    assert!(!same_root(&a, &None));
    assert!(!same_root(&None, &b));
}

#[test]
fn path_from_key_splits_bytes() {
    let p = Path::from_key(&[0x12, 0xaf]);
    assert_eq!(p.0, vec![1, 2, 10, 15]);
    assert_eq!(p.len(), 4);
    assert_eq!(Path::from_key(&[]).0, Vec::<u8>::new());
    assert_eq!(Path::new().len(), 0);
}

#[test]
fn path_rejects_wide_nibbles() {
    assert!(Path::from_nibbles(vec![0, 15]).is_some());
    assert!(Path::from_nibbles(vec![0, 16]).is_none());
    assert_eq!(Path(vec![3, 4]).copy(), Path(vec![3, 4]));
}

#[test]
fn new_branch_has_sixteen_empty_slots() {
    let b = BranchNode::new(Path(vec![]), None);
    assert_eq!(b.children.len(), BranchNode::MAX_CHILDREN);
    for i in 0..16u8 {
        assert!(b.child(i).is_none());
    }
}

#[test]
fn update_child_sets_and_clears_one_slot() {
    let mut b = BranchNode::new(Path(vec![5]), None);
    let c = Child::AddressWithHash(addr(8), TrieHash::new([1u8; 32]));
    b.update_child(15, Some(c));
    assert_eq!(
        b.child(15),
        &Some(Child::AddressWithHash(addr(8), TrieHash::new([1u8; 32])))
    );
    assert!(b.child(14).is_none());
    assert!(b.child(0).is_none());
    b.update_child(15, None);
    assert!(b.child(15).is_none());
    assert_eq!(b.partial_path, Path(vec![5]));
    assert_eq!(b.value, None);
}

#[test]
fn update_child_holds_in_memory_nodes() {
    let mut b = BranchNode::new(Path(vec![]), None);
    let leaf = Node::Leaf(LeafNode { partial_path: Path(vec![1]), value: vec![2] });
    b.update_child(0, Some(Child::Node(leaf)));
    match b.child(0) {
        Some(Child::Node(Node::Leaf(l))) => assert_eq!(l.value, vec![2]),
        other => panic!("unexpected child {:?}", other),
    }
}

#[test]
fn children_iter_lists_stored_children_in_order() {
    let mut b = BranchNode::new(Path(vec![]), None);
    b.update_child(9, Some(Child::AddressWithHash(addr(2), TrieHash::new([9u8; 32]))));
    b.update_child(1, Some(Child::AddressWithHash(addr(3), TrieHash::new([1u8; 32]))));
    let listed = b.children_iter();
    assert_eq!(
        listed,
        vec![(1usize, TrieHash::new([1u8; 32])), (9usize, TrieHash::new([9u8; 32]))]
    );
    assert!(BranchNode::new(Path(vec![]), None).children_iter().is_empty());
}

#[test]
fn branch_from_leaf_keeps_path_and_value() {
    let leaf = LeafNode { partial_path: Path(vec![1, 2, 3]), value: vec![4, 5] };
    let b = BranchNode::from(&leaf);
    assert_eq!(b.partial_path, Path(vec![1, 2, 3]));
    assert_eq!(b.value, Some(vec![4, 5]));
    assert_eq!(b.children.len(), 16);
    assert!(b.children.iter().all(|c| c.is_none()));
}

#[test]
fn serialize_writes_the_record() {
    assert_eq!(sample_branch().serialize(), sample_record());
}

#[test]
fn serialize_marks_a_missing_value() {
    let b = BranchNode::new(Path(vec![]), None);
    let mut expected = vec![0u8; 8];
    expected.extend_from_slice(&[0xff; 8]);
    expected.extend_from_slice(&[0u8; 8]);
    assert_eq!(b.serialize(), expected);
}

#[test]
fn serialize_tells_empty_value_from_none() {
    let with_empty = BranchNode::new(Path(vec![]), Some(vec![])).serialize();
    let without = BranchNode::new(Path(vec![]), None).serialize();
    assert_ne!(with_empty, without);
    assert_eq!(BranchNode::deserialize(&with_empty).expect("record").value, Some(vec![]));
    assert_eq!(BranchNode::deserialize(&without).expect("record").value, None);
}

#[test]
fn deserialize_reads_the_record() {
    assert_eq!(BranchNode::deserialize(&sample_record()), Ok(sample_branch()));
}

#[test]
fn serialize_then_deserialize_gives_the_branch_back() {
    let mut b = BranchNode::new(Path(vec![15, 0, 7]), Some(vec![1, 2, 3, 4]));
    for i in [0u8, 4, 5, 15] {
        let h = TrieHash::new([i.wrapping_mul(17); 32]);
        b.update_child(i, Some(Child::AddressWithHash(addr(1000 + u64::from(i)), h)));
    }
    let bytes = b.serialize();
    assert_eq!(BranchNode::deserialize(&bytes), Ok(b));
}

#[test]
fn deserialize_reports_truncation() {
    let record = sample_record();
    assert_eq!(BranchNode::deserialize(&[]), Err(DecodeError::Truncated));
    assert_eq!(BranchNode::deserialize(&record[..5]), Err(DecodeError::Truncated));
    assert_eq!(BranchNode::deserialize(&record[..9]), Err(DecodeError::Truncated));
    assert_eq!(BranchNode::deserialize(&record[..12]), Err(DecodeError::Truncated));
    assert_eq!(BranchNode::deserialize(&record[..20]), Err(DecodeError::Truncated));
    assert_eq!(
        BranchNode::deserialize(&record[..record.len() - 1]),
        Err(DecodeError::Truncated)
    );
}

#[test]
fn deserialize_reports_a_bad_path() {
    let mut record = sample_record();
    record[8] = 16;
    assert_eq!(BranchNode::deserialize(&record), Err(DecodeError::InvalidPath));
}

#[test]
fn deserialize_reports_bad_children() {
    let mut wide = sample_record();
    wide[27] = 16;
    assert_eq!(BranchNode::deserialize(&wide), Err(DecodeError::InvalidChild));

    let mut zero = sample_record();
    zero[28] = 0;
    assert_eq!(BranchNode::deserialize(&zero), Err(DecodeError::InvalidChild));

    let mut twice = sample_record();
    twice[19] = 2;
    let second: Vec<u8> = twice[27..].to_vec();
    twice.extend_from_slice(&second);
    assert_eq!(BranchNode::deserialize(&twice), Err(DecodeError::InvalidChild));
}

#[test]
fn deserialize_reports_trailing_bytes() {
    let mut record = sample_record();
    record.push(0);
    assert_eq!(BranchNode::deserialize(&record), Err(DecodeError::TrailingBytes));
}

#[test]
fn debug_string_describes_the_branch() {
    let text = sample_branch().debug_string();
    let hash = "07".repeat(32);
    assert_eq!(
        text,
        format!("[Branch path=\"12\"(index: 3), address=16, hash=\"{hash}\") v=ab]")
    );
}

#[test]
fn debug_string_of_an_empty_branch() {
    let b = BranchNode::new(Path(vec![10, 11, 0]), None);
    assert_eq!(b.debug_string(), "[Branch path=\"ab0\" v=nil]");
}

#[test]
fn debug_string_prints_wide_numbers_and_bytes() {
    let mut b = BranchNode::new(Path(vec![]), Some(vec![0x00, 0x9f, 0xff]));
    let mut raw = [0u8; 32];
    raw[0] = 0xde;
    raw[31] = 0x0a;
    b.update_child(12, Some(Child::AddressWithHash(addr(1234567890123), TrieHash::new(raw))));
    let hash = format!("de{}0a", "00".repeat(30));
    assert_eq!(
        b.debug_string(),
        format!("[Branch path=\"\"(index: 12), address=1234567890123, hash=\"{hash}\") v=009fff]")
    );
}

use firewood::hash::TrieHash;
use firewood::node::branch::{BranchNode, Child, LeafNode, Node};
use firewood::node::codec::DecodeError;
use firewood::node::path::Path;
use firewood::trie::batch::{apply_batch, delete, get, put, BatchOp};
use firewood::trie::merkle::{digest_of, hash_input_bytes};
use firewood::trie::persist::load_node;
use firewood::trie::store::LoadError;

fn from_pairs(pairs: &[(&[u8], &[u8])]) -> Option<Node> {
    let mut root = None;
    for (k, v) in pairs {
        root = Some(put(root, k, v.to_vec()));
    }
    root
}

fn root_hash(root: &Option<Node>) -> Option<TrieHash> {
    root.as_ref().map(|n| n.hash())
}

fn leaf(path: &[u8], value: &[u8]) -> Node {
    Node::Leaf(LeafNode { partial_path: Path(path.to_vec()), value: value.to_vec() })
}

#[test]
fn empty_trie_holds_nothing() {
    assert_eq!(get(&None, b"key"), None);
    assert_eq!(delete(None, b"key"), None);
    assert_eq!(root_hash(&None), None);
}

#[test]
fn put_then_get() {
    let root = Some(put(None, b"key", b"value".to_vec()));
    assert_eq!(get(&root, b"key"), Some(b"value".to_vec()));
    assert_eq!(get(&root, b"ke"), None);
    assert_eq!(get(&root, b"keys"), None);
    assert_eq!(get(&root, b""), None);
}

#[test]
fn put_delete_get_is_none() {
    let root = Some(put(None, b"key", b"value".to_vec()));
    let root = delete(root, b"key");
    assert_eq!(get(&root, b"key"), None);
    assert_eq!(root, None);
}

#[test]
fn second_put_replaces_and_hashes_like_one_put() {
    let prior = from_pairs(&[(b"a", b"1"), (b"b", b"2")]);
    let twice = Some(put(Some(put(from_pairs(&[(b"a", b"1"), (b"b", b"2")]), b"k", b"v".to_vec())), b"k", b"w".to_vec()));
    let once = Some(put(prior, b"k", b"w".to_vec()));
    assert_eq!(get(&twice, b"k"), Some(b"w".to_vec()));
    assert_eq!(twice, once);
    assert_eq!(root_hash(&twice), root_hash(&once));
}

#[test]
fn put_keeps_other_keys() {
    let root = from_pairs(&[(b"abc", b"1"), (b"abd", b"2"), (b"ab", b"3"), (b"x", b"4"), (b"", b"5")]);
    assert_eq!(get(&root, b"abc"), Some(b"1".to_vec()));
    assert_eq!(get(&root, b"abd"), Some(b"2".to_vec()));
    assert_eq!(get(&root, b"ab"), Some(b"3".to_vec()));
    assert_eq!(get(&root, b"x"), Some(b"4".to_vec()));
    assert_eq!(get(&root, b""), Some(b"5".to_vec()));
    assert_eq!(get(&root, b"a"), None);
    assert_eq!(get(&root, b"abcd"), None);
}

#[test]
fn insert_splits_a_leaf_where_the_keys_part() {
    let root = from_pairs(&[(&[0x12, 0x34], b"a"), (&[0x12, 0x56], b"b")]);
    let mut expected = BranchNode::new(Path(vec![1, 2]), None);
    expected.update_child(3, Some(Child::Node(leaf(&[4], b"a"))));
    expected.update_child(5, Some(Child::Node(leaf(&[6], b"b"))));
    assert_eq!(root, Some(Node::Branch(Box::new(expected))));
}

#[test]
fn insert_of_a_prefix_puts_the_value_on_the_branch() {
    let root = from_pairs(&[(&[0x12, 0x34], b"a"), (&[0x12], b"b")]);
    let mut expected = BranchNode::new(Path(vec![1, 2]), Some(b"b".to_vec()));
    expected.update_child(3, Some(Child::Node(leaf(&[4], b"a"))));
    assert_eq!(root, Some(Node::Branch(Box::new(expected))));
}

#[test]
fn insert_below_a_leaf_turns_it_into_a_branch() {
    let root = from_pairs(&[(&[0x12], b"a"), (&[0x12, 0x34], b"b")]);
    let mut expected = BranchNode::new(Path(vec![1, 2]), Some(b"a".to_vec()));
    expected.update_child(3, Some(Child::Node(leaf(&[4], b"b"))));
    assert_eq!(root, Some(Node::Branch(Box::new(expected))));
}

#[test]
fn a_branch_left_with_one_child_is_collapsed() {
    let root = from_pairs(&[(&[0x12, 0x34], b"a"), (&[0x12, 0x56], b"b")]);
    let root = delete(root, &[0x12, 0x56]);
    assert_eq!(root, Some(leaf(&[1, 2, 3, 4], b"a")));
}

#[test]
fn a_branch_left_with_only_its_value_becomes_a_leaf() {
    let root = from_pairs(&[(&[0x12], b"a"), (&[0x12, 0x34], b"b")]);
    let root = delete(root, &[0x12, 0x34]);
    assert_eq!(root, Some(leaf(&[1, 2], b"a")));
}

#[test]
fn a_branch_that_loses_its_value_folds_into_its_only_child() {
    let root = from_pairs(&[(&[0x12], b"a"), (&[0x12, 0x34], b"b")]);
    let root = delete(root, &[0x12]);
    assert_eq!(root, Some(leaf(&[1, 2, 3, 4], b"b")));
}

#[test]
fn a_transient_branch_leaves_no_trace_in_the_hash() {
    let direct = from_pairs(&[(b"alpha", b"1"), (b"beta", b"2")]);
    let detour = from_pairs(&[(b"alpha", b"1"), (b"alps", b"x"), (b"beta", b"2")]);
    let detour = delete(detour, b"alps");
    assert_eq!(detour, direct);
    assert_eq!(root_hash(&detour), root_hash(&direct));
}

#[test]
fn delete_of_an_absent_key_changes_nothing() {
    let root = from_pairs(&[(b"abc", b"1"), (b"abd", b"2")]);
    let hash = root_hash(&root);
    let root = delete(root, b"abe");
    let root = delete(root, b"ab");
    let root = delete(root, b"abcd");
    let root = delete(root, b"zzz");
    assert_eq!(root_hash(&root), hash);
    assert_eq!(get(&root, b"abc"), Some(b"1".to_vec()));
}

#[test]
fn root_hash_does_not_depend_on_the_order_of_operations() {
    let keys: Vec<Vec<u8>> = (0u8..40).map(|i| vec![i.wrapping_mul(37), i, i ^ 0x5a]).collect();
    let mut forward = None;
    for k in keys.iter() {
        forward = Some(put(forward, k, k.clone()));
    }
    let mut backward = None;
    for k in keys.iter().rev() {
        backward = Some(put(backward, k, vec![0]));
    }
    for k in keys.iter() {
        backward = Some(put(backward, k, k.clone()));
    }
    backward = Some(put(backward, b"extra", b"x".to_vec()));
    backward = delete(backward, b"extra");
    assert_eq!(forward, backward);
    assert_eq!(root_hash(&forward), root_hash(&backward));
    assert!(root_hash(&forward).is_some());
}

#[test]
fn different_contents_hash_differently() {
    let a = from_pairs(&[(b"k", b"v")]);
    let b = from_pairs(&[(b"k", b"w")]);
    let c = from_pairs(&[(b"l", b"v")]);
    assert_ne!(root_hash(&a), root_hash(&b));
    assert_ne!(root_hash(&a), root_hash(&c));
}

#[test]
fn hash_input_lists_path_value_and_children() {
    let mut hashes: Vec<Option<TrieHash>> = vec![None; 16];
    hashes[2] = Some(TrieHash::new([7u8; 32]));
    let input = hash_input_bytes(&vec![1, 2], &Some(vec![9]), &hashes);
    let mut expected = vec![2u8, 0, 0, 0, 0, 0, 0, 0, 1, 2];
    expected.extend_from_slice(&[1, 0, 0, 0, 0, 0, 0, 0, 9]);
    expected.extend_from_slice(&[0, 0]);
    expected.push(1);
    expected.extend_from_slice(&[7u8; 32]);
    expected.extend_from_slice(&[0u8; 13]);
    assert_eq!(input, expected);
}

#[test]
fn leaf_hash_is_the_digest_of_its_input() {
    let node = leaf(&[1, 2], b"v");
    let hashes: Vec<Option<TrieHash>> = vec![None; 16];
    let input = hash_input_bytes(&vec![1, 2], &Some(b"v".to_vec()), &hashes);
    assert_eq!(node.hash(), digest_of(&input));
}

#[test]
fn digest_is_sha256() {
    let expected: Vec<u8> = vec![
        0xe3, 0xb0, 0xc4, 0x42, 0x98, 0xfc, 0x1c, 0x14, 0x9a, 0xfb, 0xf4, 0xc8, 0x99, 0x6f, 0xb9,
        0x24, 0x27, 0xae, 0x41, 0xe4, 0x64, 0x9b, 0x93, 0x4c, 0xa4, 0x95, 0x99, 0x1b, 0x78, 0x52,
        0xb8, 0x55,
    ];
    assert_eq!(digest_of(&vec![]).to_vec(), expected);
}

#[test]
fn branch_hash_folds_in_stored_children_unchanged() {
    let child = leaf(&[4], b"a");
    let mut in_memory = BranchNode::new(Path(vec![1]), None);
    in_memory.update_child(3, Some(Child::Node(leaf(&[4], b"a"))));
    in_memory.update_child(5, Some(Child::Node(leaf(&[6], b"b"))));
    let mut stored = BranchNode::new(Path(vec![1]), None);
    let address = firewood::address::LinearAddress::new(99).expect("non-zero");
    stored.update_child(3, Some(Child::AddressWithHash(address, child.hash())));
    stored.update_child(5, Some(Child::Node(leaf(&[6], b"b"))));
    assert_eq!(
        Node::Branch(Box::new(in_memory)).hash(),
        Node::Branch(Box::new(stored)).hash()
    );
}

#[test]
fn apply_batch_runs_operations_in_order() {
    let batch = vec![
        BatchOp::Put { key: b"a".to_vec(), value: b"1".to_vec() },
        BatchOp::Put { key: b"b".to_vec(), value: b"2".to_vec() },
        BatchOp::Put { key: b"a".to_vec(), value: b"3".to_vec() },
        BatchOp::Delete { key: b"b".to_vec() },
        BatchOp::Delete { key: b"c".to_vec() },
        BatchOp::Put { key: b"c".to_vec(), value: b"4".to_vec() },
    ];
    let root = apply_batch(None, &batch);
    assert_eq!(get(&root, b"a"), Some(b"3".to_vec()));
    assert_eq!(get(&root, b"b"), None);
    assert_eq!(get(&root, b"c"), Some(b"4".to_vec()));
    assert_eq!(root, from_pairs(&[(b"a", b"3"), (b"c", b"4")]));
    assert_eq!(apply_batch(None, &vec![]), None);
}

#[test]
fn deep_copy_is_equal() {
    let root = from_pairs(&[(b"abc", b"1"), (b"abd", b"2"), (b"x", b"3")]).expect("root");
    assert_eq!(root.deep_copy(), root);
    assert!(root.is_canonical());
}

#[test]
fn a_bare_branch_is_not_canonical() {
    let mut one_child = BranchNode::new(Path(vec![1]), None);
    one_child.update_child(0, Some(Child::Node(leaf(&[], b"a"))));
    assert!(!Node::Branch(Box::new(one_child)).is_canonical());
    let no_child = BranchNode::new(Path(vec![1]), Some(b"v".to_vec()));
    assert!(!Node::Branch(Box::new(no_child)).is_canonical());
    let mut nested = BranchNode::new(Path(vec![]), Some(b"v".to_vec()));
    let mut inner = BranchNode::new(Path(vec![]), None);
    inner.update_child(1, Some(Child::Node(leaf(&[], b"a"))));
    nested.update_child(2, Some(Child::Node(Node::Branch(Box::new(inner)))));
    assert!(!Node::Branch(Box::new(nested)).is_canonical());
    assert!(leaf(&[1], b"v").is_canonical());
}

#[test]
fn node_records_are_tagged() {
    let l = leaf(&[1, 2], b"v");
    let record = l.serialize();
    assert_eq!(record[0], 1);
    assert_eq!(Node::deserialize(&record), Ok(leaf(&[1, 2], b"v")));
    let mut b = BranchNode::new(Path(vec![3]), None);
    let address = firewood::address::LinearAddress::new(99).expect("non-zero");
    b.update_child(4, Some(Child::AddressWithHash(address, TrieHash::new([1u8; 32]))));
    let expected_record = b.serialize();
    let node = Node::Branch(Box::new(b));
    let record = node.serialize();
    assert_eq!(record[0], 0);
    assert_eq!(&record[1..], &expected_record[..]);
    assert_eq!(Node::deserialize(&record), Ok(node));
}

#[test]
fn node_records_with_bad_tags_or_leaves_are_refused() {
    assert_eq!(Node::deserialize(&[]), Err(DecodeError::Truncated));
    let mut record = leaf(&[1], b"v").serialize();
    record[0] = 2;
    assert_eq!(Node::deserialize(&record), Err(DecodeError::InvalidTag));
    let mut valueless = vec![1u8];
    valueless.extend_from_slice(&BranchNode::new(Path(vec![]), None).serialize());
    assert_eq!(Node::deserialize(&valueless), Err(DecodeError::InvalidLeaf));
    let mut b = BranchNode::new(Path(vec![]), Some(vec![1]));
    let address = firewood::address::LinearAddress::new(9).expect("non-zero");
    b.update_child(0, Some(Child::AddressWithHash(address, TrieHash::new([1u8; 32]))));
    let mut with_child = vec![1u8];
    with_child.extend_from_slice(&b.serialize());
    assert_eq!(Node::deserialize(&with_child), Err(DecodeError::InvalidLeaf));
    assert_eq!(Node::deserialize(&[0u8, 1, 2]), Err(DecodeError::Truncated));
}

#[test]
fn persist_then_load_gives_the_trie_back() {
    let root = from_pairs(&[(b"abc", b"1"), (b"abd", b"2"), (b"ab", b"3"), (b"x", b"4")])
        .expect("root");
    let mut image = vec![0u8; 100];
    let mut blob = Vec::new();
    let (address, hash) = root.persist(100, &mut blob).expect("fits");
    assert_eq!(hash, root.hash());
    image.extend_from_slice(&blob);
    assert_eq!(load_node(&image, address.get()), Ok(from_pairs(&[(b"abc", b"1"), (b"abd", b"2"), (b"ab", b"3"), (b"x", b"4")]).expect("root")));
    image.extend_from_slice(&[0xffu8; 50]);
    assert_eq!(load_node(&image, address.get()).expect("loads").hash(), hash);
}

#[test]
fn persist_writes_children_before_parents() {
    let root = from_pairs(&[(&[0x12, 0x34], b"a"), (&[0x12, 0x56], b"b")]).expect("root");
    let mut blob = Vec::new();
    let (address, _) = root.persist(1000, &mut blob).expect("fits");
    let first = leaf(&[4], b"a").serialize();
    let second = leaf(&[6], b"b").serialize();
    assert_eq!(&blob[..8], &(first.len() as u64).to_le_bytes());
    assert_eq!(&blob[8..8 + first.len()], &first[..]);
    let next = 8 + first.len();
    assert_eq!(&blob[next..next + 8], &(second.len() as u64).to_le_bytes());
    assert_eq!(address.get(), 1000 + (next + 8 + second.len()) as u64);
    let own = &blob[(address.get() - 1000) as usize + 8..];
    let stored = Node::deserialize(own).expect("record");
    let a3 = firewood::address::LinearAddress::new(1000).expect("non-zero");
    let a5 = firewood::address::LinearAddress::new(1000 + next as u64).expect("non-zero");
    let mut expected = BranchNode::new(Path(vec![1, 2]), None);
    expected.update_child(3, Some(Child::AddressWithHash(a3, leaf(&[4], b"a").hash())));
    expected.update_child(5, Some(Child::AddressWithHash(a5, leaf(&[6], b"b").hash())));
    assert_eq!(stored, Node::Branch(Box::new(expected)));
}

#[test]
fn persist_refuses_what_reaches_beyond_the_last_address() {
    let root = leaf(&[1], b"v");
    let mut blob = Vec::new();
    assert_eq!(root.persist(u64::MAX - 3, &mut blob), None);
}

#[test]
fn load_reports_what_is_wrong() {
    assert_eq!(load_node(&[0u8; 4], 1), Err(LoadError::OutOfBounds));
    assert_eq!(load_node(&[0u8; 20], 16), Err(LoadError::OutOfBounds));
    let mut long = vec![0u8; 8];
    long.extend_from_slice(&100u64.to_le_bytes());
    long.extend_from_slice(&[0u8; 50]);
    assert_eq!(load_node(&long, 8), Err(LoadError::OutOfBounds));
    let mut bad = vec![0u8; 8];
    bad.extend_from_slice(&1u64.to_le_bytes());
    bad.push(7);
    assert_eq!(load_node(&bad, 8), Err(LoadError::Decode(DecodeError::InvalidTag)));

    let mut b = BranchNode::new(Path(vec![]), Some(vec![1]));
    let above = firewood::address::LinearAddress::new(500).expect("non-zero");
    b.update_child(0, Some(Child::AddressWithHash(above, TrieHash::new([1u8; 32]))));
    let record = Node::Branch(Box::new(b)).serialize();
    let mut image = vec![0u8; 8];
    image.extend_from_slice(&(record.len() as u64).to_le_bytes());
    image.extend_from_slice(&record);
    assert_eq!(load_node(&image, 8), Err(LoadError::ChildNotBelow));
}

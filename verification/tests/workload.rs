use firewood::trie::batch::BatchOp;
use firewood::workload::{
    delete_op, generate_deletes, generate_inserts, generate_updates, insert_op, key_of_row,
    update_op,
};

fn unhex(s: &str) -> Vec<u8> {
    (0..s.len() / 2)
        .map(|i| u8::from_str_radix(&s[2 * i..2 * i + 2], 16).expect("hex"))
        .collect()
}

const ROW0: &str = "af5570f5a1810b7af78caf4bc70a660f0df51e42baf91d4de5b2328de0e83dfc";
const ROW1: &str = "7c9fa136d4413fa6173637e883b6998d32e1d675f88cddff9dcbcf331820f4b8";
const ROW2: &str = "d86e8112f3c4c4442126f8e9f44f16867da487f29052bf91b810457db34209a4";
const ROW5: &str = "f13ee6ed54ea2aae9fc49a9faeb5da6e8ddef0e12ed5d30d35a624ae813e0485";

#[test]
fn key_of_row_is_sha256_of_little_endian_number() {
    assert_eq!(key_of_row(0), unhex(ROW0));
    assert_eq!(key_of_row(1), unhex(ROW1));
    assert_eq!(key_of_row(5), unhex(ROW5));
    assert_eq!(key_of_row(7).len(), 32);
}

#[test]
fn single_operations() {
    assert_eq!(insert_op(vec![1, 2]), BatchOp::Put { key: vec![1, 2], value: vec![1, 2] });
    assert_eq!(delete_op(vec![3]), BatchOp::Delete { key: vec![3] });
    assert_eq!(update_op(vec![4], &vec![5, 6]), BatchOp::Put { key: vec![4], value: vec![5, 6] });
}

#[test]
fn inserts_cover_the_range_in_order() {
    let batch = generate_inserts(0, 3);
    assert_eq!(
        batch,
        vec![
            BatchOp::Put { key: unhex(ROW0), value: unhex(ROW0) },
            BatchOp::Put { key: unhex(ROW1), value: unhex(ROW1) },
            BatchOp::Put { key: unhex(ROW2), value: unhex(ROW2) },
        ]
    );
    assert!(generate_inserts(10, 0).is_empty());
    assert_eq!(generate_inserts(5, 1), vec![BatchOp::Put { key: unhex(ROW5), value: unhex(ROW5) }]);
}

#[test]
fn deletes_cover_the_range_in_order() {
    let batch = generate_deletes(1, 2);
    assert_eq!(
        batch,
        vec![BatchOp::Delete { key: unhex(ROW1) }, BatchOp::Delete { key: unhex(ROW2) }]
    );
    assert!(generate_deletes(0, 0).is_empty());
}

#[test]
fn updates_set_the_key_of_the_low_row() {
    let batch = generate_updates(1, 2, 0);
    assert_eq!(
        batch,
        vec![
            BatchOp::Put { key: unhex(ROW1), value: unhex(ROW0) },
            BatchOp::Put { key: unhex(ROW2), value: unhex(ROW0) },
        ]
    );
}

#[test]
fn ranges_may_end_at_the_largest_row() {
    let batch = generate_inserts(u64::MAX - 1, 1);
    assert_eq!(batch.len(), 1);
    assert_eq!(batch[0], BatchOp::Put { key: key_of_row(u64::MAX - 1), value: key_of_row(u64::MAX - 1) });
}

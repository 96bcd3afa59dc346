//! Batches of operations on keys that are SHA-256 digests of row numbers.
//!
//! Row `i` has the key `SHA256(i as 8 little-endian bytes)`. A steady-state
//! batch inserts new rows at the high end, deletes rows at the low end and
//! overwrites rows in between with the key of the lowest row.

use vstd::prelude::*;
use vstd::bytes::{spec_u64_to_le_bytes, u64_to_le_bytes};
use crate::digest::{sha256, sha256_digest};
use crate::node::branch::copy_bytes;
use crate::trie::batch::{BatchOp, BatchOpView};

verus! {

/// The key of row `row`.
pub open spec fn row_key(row: u64) -> Seq<u8> {
    sha256(spec_u64_to_le_bytes(row))
}

/// The key of row `row`: the SHA-256 digest of its number in 8 little-endian bytes.
pub fn key_of_row(row: u64) -> (key: Vec<u8>)
    ensures
        key@ == row_key(row),
        key@.len() == 32,
{
    let bytes = u64_to_le_bytes(row);
    sha256_digest(bytes.as_slice())
}

/// The operation that inserts a row: its key, with the key as its value.
pub fn insert_op(digest: Vec<u8>) -> (op: BatchOp<Vec<u8>, Vec<u8>>)
    ensures
        op@ == (BatchOpView::Put { key: digest@, value: digest@ }),
{
    let key = copy_bytes(&digest);
    BatchOp::Put { key, value: digest }
}

/// The operation that deletes a row.
pub fn delete_op(digest: Vec<u8>) -> (op: BatchOp<Vec<u8>, Vec<u8>>)
    ensures
        op@ == (BatchOpView::Delete { key: digest@ }),
{
    BatchOp::Delete { key: digest }
}

/// The operation that overwrites a row with `value`.
pub fn update_op(digest: Vec<u8>, value: &Vec<u8>) -> (op: BatchOp<Vec<u8>, Vec<u8>>)
    ensures
        op@ == (BatchOpView::Put { key: digest@, value: value@ }),
{
    BatchOp::Put { key: digest, value: copy_bytes(value) }
}

/// Inserts of the rows `start .. start + count`, in order, each with its key as its value.
pub fn generate_inserts(start: u64, count: u64) -> (batch: Vec<BatchOp<Vec<u8>, Vec<u8>>>)
    requires
        start + count <= u64::MAX,
    ensures
        batch@.len() == count,
        forall|i: int|
            0 <= i < count ==> (#[trigger] batch@[i])@ == (BatchOpView::Put {
                key: row_key((start + i) as u64),
                value: row_key((start + i) as u64),
            }),
{
    let mut batch: Vec<BatchOp<Vec<u8>, Vec<u8>>> = Vec::new();
    let mut i: u64 = 0;
    while i < count
        invariant
            i <= count,
            start + count <= u64::MAX,
            batch@.len() == i,
            forall|k: int|
                0 <= k < i ==> (#[trigger] batch@[k])@ == (BatchOpView::Put {
                    key: row_key((start + k) as u64),
                    value: row_key((start + k) as u64),
                }),
        decreases count - i,
    {
        let digest = key_of_row(start + i);
        batch.push(insert_op(digest));
        i += 1;
    }
    batch
}

/// Deletes of the rows `start .. start + count`, in order.
pub fn generate_deletes(start: u64, count: u64) -> (batch: Vec<BatchOp<Vec<u8>, Vec<u8>>>)
    requires
        start + count <= u64::MAX,
    ensures
        batch@.len() == count,
        forall|i: int|
            0 <= i < count ==> (#[trigger] batch@[i])@ == (BatchOpView::Delete {
                key: row_key((start + i) as u64),
            }),
{
    let mut batch: Vec<BatchOp<Vec<u8>, Vec<u8>>> = Vec::new();
    let mut i: u64 = 0;
    while i < count
        invariant
            i <= count,
            start + count <= u64::MAX,
            batch@.len() == i,
            forall|k: int|
                0 <= k < i ==> (#[trigger] batch@[k])@ == (BatchOpView::Delete {
                    key: row_key((start + k) as u64),
                }),
        decreases count - i,
    {
        let digest = key_of_row(start + i);
        batch.push(delete_op(digest));
        i += 1;
    }
    batch
}

/// Overwrites of the rows `start .. start + count`, in order, each with the key of row `low`.
pub fn generate_updates(start: u64, count: u64, low: u64) -> (batch: Vec<BatchOp<Vec<u8>, Vec<u8>>>)
    requires
        start + count <= u64::MAX,
    ensures
        batch@.len() == count,
        forall|i: int|
            0 <= i < count ==> (#[trigger] batch@[i])@ == (BatchOpView::Put {
                key: row_key((start + i) as u64),
                value: row_key(low),
            }),
{
    let hash_of_low = key_of_row(low);
    let mut batch: Vec<BatchOp<Vec<u8>, Vec<u8>>> = Vec::new();
    let mut i: u64 = 0;
    while i < count
        invariant
            i <= count,
            start + count <= u64::MAX,
            hash_of_low@ == row_key(low),
            batch@.len() == i,
            forall|k: int|
                0 <= k < i ==> (#[trigger] batch@[k])@ == (BatchOpView::Put {
                    key: row_key((start + k) as u64),
                    value: row_key(low),
                }),
        decreases count - i,
    {
        let digest = key_of_row(start + i);
        batch.push(update_op(digest, &hash_of_low));
        i += 1;
    }
    batch
}

} // verus!

//! Tries as maps from keys to values: single operations and batches.

use vstd::prelude::*;
use crate::node::branch::{copy_bytes, option_bytes_view, Node, NodeView};
use crate::node::path::{all_nibbles, nibbles_of, Path};
use crate::trie::insert::leaf_from;
use crate::trie::lookup::{lookup, resolved, trie_lookup, trie_resolved};
use crate::trie::merkle::trie_hash;
use crate::trie::remove::root_view;
use crate::trie::shape::{canonical, trie_canonical};
use crate::trie::unique::{lemma_same_content_same_hash, same_trie_content};

verus! {

/// One operation of a batch.
#[derive(Debug, PartialEq, Eq)]
pub enum BatchOp<K, V> {
    /// Store `value` under `key`, in place of what was there.
    Put { key: K, value: V },
    /// Take `key` and its value out.
    Delete { key: K },
}

/// What an operation on byte strings says.
pub enum BatchOpView {
    Put { key: Seq<u8>, value: Seq<u8> },
    Delete { key: Seq<u8> },
}

impl View for BatchOp<Vec<u8>, Vec<u8>> {
    type V = BatchOpView;

    open spec fn view(&self) -> BatchOpView {
        match *self {
            BatchOp::Put { key, value } => BatchOpView::Put { key: key@, value: value@ },
            BatchOp::Delete { key } => BatchOpView::Delete { key: key@ },
        }
    }
}

/// What a batch says, operation by operation.
pub open spec fn batch_view(batch: Seq<BatchOp<Vec<u8>, Vec<u8>>>) -> Seq<BatchOpView> {
    Seq::new(batch.len(), |i: int| batch[i]@)
}

/// The map that a trie stands for, from keys in nibbles to values.
pub open spec fn trie_map(root: Option<NodeView>) -> Map<Seq<u8>, Seq<u8>> {
    Map::new(
        |q: Seq<u8>| all_nibbles(q) && trie_lookup(root, q) is Some,
        |q: Seq<u8>| trie_lookup(root, q)->0,
    )
}

/// The map after one operation.
pub open spec fn apply_op(m: Map<Seq<u8>, Seq<u8>>, op: BatchOpView) -> Map<Seq<u8>, Seq<u8>> {
    match op {
        BatchOpView::Put { key, value } => m.insert(nibbles_of(key), value),
        BatchOpView::Delete { key } => m.remove(nibbles_of(key)),
    }
}

/// The map after the operations of a batch, first to last.
pub open spec fn apply_all(m: Map<Seq<u8>, Seq<u8>>, ops: Seq<BatchOpView>) -> Map<
    Seq<u8>,
    Seq<u8>,
>
    decreases ops.len(),
{
    if ops.len() == 0 {
        m
    } else {
        apply_op(apply_all(m, ops.drop_last()), ops.last())
    }
}

/// Different byte strings have different nibbles.
pub proof fn lemma_nibbles_injective(a: Seq<u8>, b: Seq<u8>)
    requires
        nibbles_of(a) == nibbles_of(b),
    ensures
        a == b,
{
    assert(a.len() == b.len()) by {
        assert(nibbles_of(a).len() == 2 * a.len());
        assert(nibbles_of(b).len() == 2 * b.len());
    }
    assert forall|i: int| 0 <= i < a.len() implies a[i] == b[i] by {
        assert(nibbles_of(a)[2 * i] == a[i] / 16);
        assert(nibbles_of(b)[2 * i] == b[i] / 16);
        assert(nibbles_of(a)[2 * i + 1] == a[i] % 16);
        assert(nibbles_of(b)[2 * i + 1] == b[i] % 16);
    }
    assert(a =~= b);
}

/// Tries with the same map have the same content, key by key.
pub proof fn lemma_same_map_same_content(a: Option<NodeView>, b: Option<NodeView>)
    requires
        trie_map(a) == trie_map(b),
    ensures
        same_trie_content(a, b),
{
    assert forall|q: Seq<u8>| all_nibbles(q) implies #[trigger] trie_lookup(a, q) == trie_lookup(
        b,
        q,
    ) by {
        assert(trie_map(a).contains_key(q) == trie_map(b).contains_key(q));
        if trie_map(a).contains_key(q) {
            assert(trie_map(a)[q] == trie_map(b)[q]);
        }
    }
}

/// The root hash is a function of the map: canonical tries that stand for
/// the same map have the same root hash, whatever operations built them
/// and in whatever order.
pub proof fn lemma_same_map_same_hash(a: Option<NodeView>, b: Option<NodeView>)
    requires
        trie_canonical(a),
        trie_resolved(a),
        trie_canonical(b),
        trie_resolved(b),
        trie_map(a) == trie_map(b),
    ensures
        a == b,
        trie_hash(a) == trie_hash(b),
{
    lemma_same_map_same_content(a, b);
    lemma_same_content_same_hash(a, b);
}

/// What was put is read back; what was put and then deleted is gone.
pub proof fn lemma_put_get_delete(m: Map<Seq<u8>, Seq<u8>>, key: Seq<u8>, value: Seq<u8>)
    ensures
        apply_op(m, BatchOpView::Put { key, value }).contains_key(nibbles_of(key)),
        apply_op(m, BatchOpView::Put { key, value })[nibbles_of(key)] == value,
        !apply_op(
            apply_op(m, BatchOpView::Put { key, value }),
            BatchOpView::Delete { key },
        ).contains_key(nibbles_of(key)),
{
}

/// A second put under a key replaces the first: the key reads the second
/// value, and the map, and with it the root hash of a canonical trie, is
/// that of the second put alone.
pub proof fn lemma_put_twice(
    m: Map<Seq<u8>, Seq<u8>>,
    key: Seq<u8>,
    first: Seq<u8>,
    second: Seq<u8>,
    twice: Option<NodeView>,
    once: Option<NodeView>,
)
    requires
        trie_canonical(twice),
        trie_resolved(twice),
        trie_canonical(once),
        trie_resolved(once),
        trie_map(twice) == apply_op(
            apply_op(m, BatchOpView::Put { key, value: first }),
            BatchOpView::Put { key, value: second },
        ),
        trie_map(once) == apply_op(m, BatchOpView::Put { key, value: second }),
    ensures
        trie_map(twice)[nibbles_of(key)] == second,
        trie_map(twice) == trie_map(once),
        trie_hash(twice) == trie_hash(once),
{
    assert(trie_map(twice) =~= trie_map(once));
    lemma_same_map_same_hash(twice, once);
}

/// The value that a trie holds under `key`.
pub fn get(root: &Option<Node>, key: &[u8]) -> (found: Option<Vec<u8>>)
    ensures
        option_bytes_view(found) == trie_lookup(root_view(*root), nibbles_of(key@)),
{
    match root {
        None => None,
        Some(n) => {
            let path = Path::from_key(key);
            assert(path@.skip(0) =~= path@);
            n.get(path.0.as_slice(), 0)
        },
    }
}

/// Stores `value` under `key`, in place of what was stored there.
pub fn put(root: Option<Node>, key: &[u8], value: Vec<u8>) -> (out: Node)
    requires
        trie_resolved(root_view(root)),
    ensures
        resolved(out@),
        trie_canonical(root_view(root)) ==> canonical(out@),
        trie_map(Some(out@)) == apply_op(
            trie_map(root_view(root)),
            BatchOpView::Put { key: key@, value: value@ },
        ),
{
    let path = Path::from_key(key);
    let ghost k = nibbles_of(key@);
    let ghost v = value@;
    assert(path@.skip(0) =~= path@);
    let out = match root {
        None => leaf_from(path.0.as_slice(), 0, value),
        Some(n) => n.insert(path.0.as_slice(), 0, value),
    };
    proof {
        let before = trie_map(root_view(root));
        let after = trie_map(Some(out@));
        assert forall|q: Seq<u8>| after.contains_key(q) == before.insert(k, v).contains_key(
            q,
        ) && (after.contains_key(q) ==> after[q] == before.insert(k, v)[q]) by {
            if all_nibbles(q) {
                assert(lookup(out@, q) == if q == k {
                    Some(v)
                } else {
                    trie_lookup(root_view(root), q)
                });
            }
        }
        assert(after =~= before.insert(k, v));
    }
    out
}

/// Takes `key` and its value out.
pub fn delete(root: Option<Node>, key: &[u8]) -> (out: Option<Node>)
    requires
        trie_resolved(root_view(root)),
    ensures
        trie_resolved(root_view(out)),
        trie_canonical(root_view(root)) ==> trie_canonical(root_view(out)),
        trie_map(root_view(out)) == apply_op(
            trie_map(root_view(root)),
            BatchOpView::Delete { key: key@ },
        ),
{
    let path = Path::from_key(key);
    let ghost k = nibbles_of(key@);
    assert(path@.skip(0) =~= path@);
    let out = match root {
        None => None,
        Some(n) => n.remove(path.0.as_slice(), 0),
    };
    proof {
        let before = trie_map(root_view(root));
        let after = trie_map(root_view(out));
        assert forall|q: Seq<u8>| after.contains_key(q) == before.remove(k).contains_key(q) && (
        after.contains_key(q) ==> after[q] == before.remove(k)[q]) by {
            if all_nibbles(q) {
                assert(trie_lookup(root_view(out), q) == if q == k {
                    None
                } else {
                    trie_lookup(root_view(root), q)
                });
            }
        }
        assert(after =~= before.remove(k));
    }
    out
}

/// Carries out the operations of a batch, first to last.
pub fn apply_batch(root: Option<Node>, batch: &Vec<BatchOp<Vec<u8>, Vec<u8>>>) -> (out: Option<
    Node,
>)
    requires
        trie_resolved(root_view(root)),
    ensures
        trie_resolved(root_view(out)),
        trie_canonical(root_view(root)) ==> trie_canonical(root_view(out)),
        trie_map(root_view(out)) == apply_all(trie_map(root_view(root)), batch_view(batch@)),
{
    let ghost start = root_view(root);
    let ghost ops = batch_view(batch@);
    let mut current = root;
    let mut i: usize = 0;
    assert(ops.take(0) =~= Seq::<BatchOpView>::empty());
    while i < batch.len()
        invariant
            i <= batch@.len(),
            ops == batch_view(batch@),
            trie_resolved(root_view(current)),
            trie_canonical(start) ==> trie_canonical(root_view(current)),
            trie_map(root_view(current)) == apply_all(trie_map(start), ops.take(i as int)),
        decreases batch@.len() - i,
    {
        proof {
            let upto = ops.take(i as int + 1);
            assert(upto.drop_last() =~= ops.take(i as int));
            assert(upto.last() == batch@[i as int]@);
        }
        current = match &batch[i] {
            BatchOp::Put { key, value } => Some(put(current, key.as_slice(), copy_bytes(value))),
            BatchOp::Delete { key } => delete(current, key.as_slice()),
        };
        i += 1;
    }
    assert(ops.take(i as int) =~= ops);
    current
}

} // verus!

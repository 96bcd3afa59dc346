//! The stored form of a branch: the bytes of a node record.
//!
//! A record is, in order: the partial path (a length, then one byte per
//! nibble), the value (a length, then the bytes; the length `u64::MAX` alone
//! stands for "no value"), and the stored children (a count, then for each
//! child its slot index, address and 32 hash bytes, by ascending index).
//! Lengths, counts and addresses are 8 bytes, little-endian.

use vstd::prelude::*;
use vstd::bytes::*;
use vstd::slice::*;
use crate::address::LinearAddress;
use crate::hash::TrieHash;
use crate::node::branch::{
    child_view,
    child_wf,
    option_bytes_view,
    BranchNode,
    BranchView,
    Child,
    ChildView,
    LeafNode,
    LeafView,
    Node,
    NodeView,
};
use crate::node::entries::{
    child_entries,
    entries_get,
    entries_len,
    entries_new,
    entries_push,
    ChildEntries,
};
use crate::node::path::{all_nibbles, Path};

verus! {

/// Why a byte string is not a branch record.
#[derive(Clone, Copy, Debug, PartialEq, Eq)]
pub enum DecodeError {
    /// The bytes end before a length, or before what a length announces.
    Truncated,
    /// A byte of the partial path is not a nibble.
    InvalidPath,
    /// A child's index is above 15 or not above its predecessor's, or its address is zero.
    InvalidChild,
    /// Bytes follow the last child.
    TrailingBytes,
    /// The first byte of a node record is neither 0 (branch) nor 1 (leaf).
    InvalidTag,
    /// A record tagged as a leaf has children or lacks a value.
    InvalidLeaf,
}

/// The stored children among the first `n` slots, by slot: index, address, hash.
pub open spec fn stored_entries(children: Seq<Option<ChildView>>, n: int) -> Seq<
    (u8, u64, Seq<u8>),
>
    decreases n,
{
    if n <= 0 {
        Seq::empty()
    } else {
        let rest = stored_entries(children, n - 1);
        match children[n - 1] {
            Some(ChildView::AddressWithHash(a, h)) => rest.push(((n - 1) as u8, a, h)),
            _ => rest,
        }
    }
}

/// The sixteen slots that a list of entries fills; a later entry wins a slot.
pub open spec fn place_entries(entries: Seq<(u8, u64, Seq<u8>)>) -> Seq<Option<ChildView>>
    decreases entries.len(),
{
    if entries.len() == 0 {
        Seq::new(16, |i: int| None)
    } else {
        let e = entries.last();
        place_entries(entries.drop_last()).update(
            e.0 as int,
            Some(ChildView::AddressWithHash(e.1, e.2)),
        )
    }
}

pub open spec fn encode_entry(e: (u8, u64, Seq<u8>)) -> Seq<u8> {
    seq![e.0] + spec_u64_to_le_bytes(e.1) + e.2
}

pub open spec fn encode_entries(entries: Seq<(u8, u64, Seq<u8>)>) -> Seq<u8>
    decreases entries.len(),
{
    if entries.len() == 0 {
        Seq::empty()
    } else {
        encode_entries(entries.drop_last()) + encode_entry(entries.last())
    }
}

pub open spec fn encode_value(value: Option<Seq<u8>>) -> Seq<u8> {
    match value {
        None => spec_u64_to_le_bytes(u64::MAX),
        Some(v) => spec_u64_to_le_bytes(v.len() as u64) + v,
    }
}

/// The record of a branch.
pub open spec fn encode_branch(b: BranchView) -> Seq<u8> {
    let entries = stored_entries(b.children, 16);
    spec_u64_to_le_bytes(b.partial_path.len() as u64) + (b.partial_path + (encode_value(b.value)
        + (spec_u64_to_le_bytes(entries.len() as u64) + encode_entries(entries))))
}

/// Reads a value field from the front of `r`; gives the value and what follows it.
pub open spec fn decode_value(r: Seq<u8>) -> Result<(Option<Seq<u8>>, Seq<u8>), DecodeError> {
    if r.len() < 8 {
        Err(DecodeError::Truncated)
    } else {
        let m = spec_u64_from_le_bytes(r.take(8));
        let rest = r.skip(8);
        if m == u64::MAX {
            Ok((None, rest))
        } else if rest.len() < m {
            Err(DecodeError::Truncated)
        } else {
            Ok((Some(rest.take(m as int)), rest.skip(m as int)))
        }
    }
}

/// Reads `count` children from the front of `r`, each with an index of at
/// least `floor`; gives them and what follows them.
pub open spec fn decode_entries(r: Seq<u8>, count: nat, floor: int) -> Result<
    (Seq<(u8, u64, Seq<u8>)>, Seq<u8>),
    DecodeError,
>
    decreases count,
{
    if count == 0 {
        Ok((Seq::empty(), r))
    } else if r.len() < 41 {
        Err(DecodeError::Truncated)
    } else {
        let index = r[0];
        let address = spec_u64_from_le_bytes(r.subrange(1, 9));
        let hash = r.subrange(9, 41);
        if index >= 16 || index < floor || address == 0 {
            Err(DecodeError::InvalidChild)
        } else {
            match decode_entries(r.skip(41), (count - 1) as nat, index + 1) {
                Err(e) => Err(e),
                Ok((entries, rest)) => Ok((seq![(index, address, hash)] + entries, rest)),
            }
        }
    }
}

/// The last step of reading a record: nothing may follow the children.
pub open spec fn finish_branch(
    path: Seq<u8>,
    value: Option<Seq<u8>>,
    read: Result<(Seq<(u8, u64, Seq<u8>)>, Seq<u8>), DecodeError>,
) -> Result<BranchView, DecodeError> {
    match read {
        Err(e) => Err(e),
        Ok((entries, rest)) => {
            if rest.len() != 0 {
                Err(DecodeError::TrailingBytes)
            } else {
                Ok(BranchView { partial_path: path, value, children: place_entries(entries) })
            }
        },
    }
}

/// The branch that a record holds, or why the bytes are not a record.
pub open spec fn decode_branch(bytes: Seq<u8>) -> Result<BranchView, DecodeError> {
    if bytes.len() < 8 {
        Err(DecodeError::Truncated)
    } else {
        let n = spec_u64_from_le_bytes(bytes.take(8));
        let r1 = bytes.skip(8);
        if r1.len() < n {
            Err(DecodeError::Truncated)
        } else {
            let path = r1.take(n as int);
            let r2 = r1.skip(n as int);
            if !all_nibbles(path) {
                Err(DecodeError::InvalidPath)
            } else {
                match decode_value(r2) {
                    Err(e) => Err(e),
                    Ok((value, r3)) => {
                        if r3.len() < 8 {
                            Err(DecodeError::Truncated)
                        } else {
                            let count = spec_u64_from_le_bytes(r3.take(8));
                            finish_branch(path, value, decode_entries(r3.skip(8), count as nat, 0))
                        }
                    },
                }
            }
        }
    }
}

/// What a branch must satisfy to have a record: nibbles in its path, lengths
/// that fit the length fields, sixteen slots, and in each slot nothing or a
/// stored child with a non-zero address and a 32-byte hash.
pub open spec fn storable(b: BranchView) -> bool {
    &&& all_nibbles(b.partial_path)
    &&& b.partial_path.len() <= u64::MAX
    &&& (b.value matches Some(v) ==> v.len() < u64::MAX)
    &&& b.children.len() == 16
    &&& forall|i: int|
        0 <= i < 16 ==> match #[trigger] b.children[i] {
            None => true,
            Some(ChildView::AddressWithHash(a, h)) => a != 0 && h.len() == 32,
            Some(ChildView::Node(_)) => false,
        }
}

/// Entries as a record lists them: indices below 16 and ascending from
/// `floor`, addresses non-zero, hashes of 32 bytes.
pub open spec fn entries_valid(entries: Seq<(u8, u64, Seq<u8>)>, floor: int) -> bool {
    &&& forall|k: int|
        0 <= k < entries.len() ==> {
            let e = #[trigger] entries[k];
            floor <= e.0 < 16 && e.1 != 0 && e.2.len() == 32
        }
    &&& forall|j: int, k: int|
        0 <= j < k < entries.len() ==> (#[trigger] entries[j]).0 < (#[trigger] entries[k]).0
}

proof fn lemma_stored_entries_valid(children: Seq<Option<ChildView>>, n: int)
    requires
        0 <= n <= 16,
        children.len() == 16,
        forall|i: int|
            0 <= i < 16 ==> match #[trigger] children[i] {
                None => true,
                Some(ChildView::AddressWithHash(a, h)) => a != 0 && h.len() == 32,
                Some(ChildView::Node(_)) => false,
            },
    ensures
        entries_valid(stored_entries(children, n), 0),
        stored_entries(children, n).len() <= n,
        forall|k: int|
            0 <= k < stored_entries(children, n).len() ==> (#[trigger] stored_entries(
                children,
                n,
            )[k]).0 < n,
    decreases n,
{
    if n > 0 {
        lemma_stored_entries_valid(children, n - 1);
        let rest = stored_entries(children, n - 1);
        match children[n - 1] {
            Some(ChildView::AddressWithHash(a, h)) => {
                let all = rest.push(((n - 1) as u8, a, h));
                assert(all == stored_entries(children, n));
                assert forall|k: int| 0 <= k < all.len() implies {
                    let e = #[trigger] all[k];
                    0 <= e.0 < 16 && e.1 != 0 && e.2.len() == 32 && e.0 < n
                } by {
                    if k < rest.len() {
                        assert(all[k] == rest[k]);
                    }
                }
                assert forall|j: int, k: int| 0 <= j < k < all.len() implies (#[trigger] all[j]).0
                    < (#[trigger] all[k]).0 by {
                    assert(all[j] == rest[j]);
                    if k < rest.len() {
                        assert(all[k] == rest[k]);
                    }
                }
            },
            _ => {},
        }
    }
}

proof fn lemma_place_stored(children: Seq<Option<ChildView>>, n: int)
    requires
        0 <= n <= 16,
        children.len() == 16,
        forall|i: int| 0 <= i < 16 ==> !(#[trigger] children[i] matches Some(ChildView::Node(_))),
    ensures
        place_entries(stored_entries(children, n)) == Seq::new(
            16,
            |i: int|
                if i < n {
                    children[i]
                } else {
                    None
                },
        ),
    decreases n,
{
    let goal = Seq::new(
        16,
        |i: int|
            if i < n {
                children[i]
            } else {
                None
            },
    );
    if n <= 0 {
        assert(place_entries(stored_entries(children, n)) =~= goal);
    } else {
        lemma_place_stored(children, n - 1);
        let rest = stored_entries(children, n - 1);
        match children[n - 1] {
            Some(ChildView::AddressWithHash(a, h)) => {
                let all = rest.push(((n - 1) as u8, a, h));
                assert(all.drop_last() =~= rest);
                assert(place_entries(all) =~= goal);
            },
            _ => {
                assert(children[n - 1] is None);
                assert(place_entries(rest) =~= goal);
            },
        }
    }
}

proof fn lemma_encode_entries_concat(a: Seq<(u8, u64, Seq<u8>)>, b: Seq<(u8, u64, Seq<u8>)>)
    ensures
        encode_entries(a + b) == encode_entries(a) + encode_entries(b),
    decreases b.len(),
{
    if b.len() == 0 {
        assert(a + b =~= a);
        assert(encode_entries(a) + encode_entries(b) =~= encode_entries(a));
    } else {
        lemma_encode_entries_concat(a, b.drop_last());
        assert((a + b).drop_last() =~= a + b.drop_last());
        assert((a + b).last() == b.last());
        assert(encode_entries(a + b) =~= encode_entries(a) + encode_entries(b));
    }
}

proof fn lemma_decode_encoded_entries(entries: Seq<(u8, u64, Seq<u8>)>, tail: Seq<u8>, floor: int)
    requires
        entries_valid(entries, floor),
    ensures
        decode_entries(encode_entries(entries) + tail, entries.len(), floor) == Ok::<
            (Seq<(u8, u64, Seq<u8>)>, Seq<u8>),
            DecodeError,
        >((entries, tail)),
    decreases entries.len(),
{
    lemma_auto_spec_u64_to_from_le_bytes();
    if entries.len() == 0 {
        assert(encode_entries(entries) + tail =~= tail);
        assert(entries =~= Seq::<(u8, u64, Seq<u8>)>::empty());
    } else {
        let e = entries[0];
        let later = entries.skip(1);
        assert(entries =~= seq![e] + later);
        lemma_encode_entries_concat(seq![e], later);
        assert(seq![e].drop_last() =~= Seq::<(u8, u64, Seq<u8>)>::empty());
        assert(seq![e].last() == e);
        assert(encode_entries(seq![e].drop_last()) =~= Seq::<u8>::empty());
        assert(encode_entries(seq![e]) =~= encode_entry(e));
        let r = encode_entries(entries) + tail;
        let next = encode_entries(later) + tail;
        assert(r =~= encode_entry(e) + next);
        assert(encode_entry(e).len() == 41);
        assert(r[0] == e.0);
        assert(r.subrange(1, 9) =~= spec_u64_to_le_bytes(e.1));
        assert(r.subrange(9, 41) =~= e.2);
        assert(r.skip(41) =~= next);
        assert(entries_valid(later, e.0 + 1)) by {
            assert forall|k: int| 0 <= k < later.len() implies {
                let x = #[trigger] later[k];
                e.0 + 1 <= x.0 < 16 && x.1 != 0 && x.2.len() == 32
            } by {
                assert(later[k] == entries[k + 1]);
                assert(entries[0].0 < entries[k + 1].0);
            }
            assert forall|j: int, k: int| 0 <= j < k < later.len() implies (#[trigger] later[j]).0
                < (#[trigger] later[k]).0 by {
                assert(later[j] == entries[j + 1]);
                assert(later[k] == entries[k + 1]);
            }
        }
        lemma_decode_encoded_entries(later, tail, e.0 + 1);
    }
}

proof fn lemma_decode_encoded_value(value: Option<Seq<u8>>, tail: Seq<u8>)
    requires
        value matches Some(v) ==> v.len() < u64::MAX,
    ensures
        decode_value(encode_value(value) + tail) == Ok::<(Option<Seq<u8>>, Seq<u8>), DecodeError>(
            (value, tail),
        ),
{
    lemma_auto_spec_u64_to_from_le_bytes();
    let r = encode_value(value) + tail;
    match value {
        None => {
            assert(r.take(8) =~= spec_u64_to_le_bytes(u64::MAX));
            assert(r.skip(8) =~= tail);
        },
        Some(v) => {
            let m = v.len() as u64;
            assert(r.take(8) =~= spec_u64_to_le_bytes(m));
            assert(r.skip(8) =~= v + tail);
            assert((v + tail).take(m as int) =~= v);
            assert((v + tail).skip(m as int) =~= tail);
        },
    }
}

/// Reading back the record of a branch gives that branch.
pub proof fn lemma_decode_encode(b: BranchView)
    requires
        storable(b),
    ensures
        decode_branch(encode_branch(b)) == Ok::<BranchView, DecodeError>(b),
{
    lemma_auto_spec_u64_to_from_le_bytes();
    let entries = stored_entries(b.children, 16);
    let n = b.partial_path.len() as u64;
    let part4 = spec_u64_to_le_bytes(entries.len() as u64) + encode_entries(entries);
    let part3 = encode_value(b.value) + part4;
    let part2 = b.partial_path + part3;
    let bytes = spec_u64_to_le_bytes(n) + part2;
    assert(bytes == encode_branch(b));
    assert(bytes.take(8) =~= spec_u64_to_le_bytes(n));
    assert(bytes.skip(8) =~= part2);
    assert(part2.take(n as int) =~= b.partial_path);
    assert(part2.skip(n as int) =~= part3);
    lemma_decode_encoded_value(b.value, part4);
    lemma_stored_entries_valid(b.children, 16);
    assert(part4.take(8) =~= spec_u64_to_le_bytes(entries.len() as u64));
    assert(part4.skip(8) =~= encode_entries(entries) + Seq::<u8>::empty());
    lemma_decode_encoded_entries(entries, Seq::empty(), 0);
    lemma_place_stored(b.children, 16);
    assert(place_entries(entries) =~= b.children);
}

/// Slots from `m` on that are empty add no entries.
proof fn lemma_stored_entries_skip_empty(children: Seq<Option<ChildView>>, m: int, n: int)
    requires
        0 <= m <= n,
        forall|i: int| m <= i < n ==> #[trigger] children[i] is None,
    ensures
        stored_entries(children, n) == stored_entries(children, m),
    decreases n - m,
{
    if m < n {
        lemma_stored_entries_skip_empty(children, m, n - 1);
    }
}

/// The entries of the first `n` slots depend on those slots alone.
proof fn lemma_stored_entries_agree(a: Seq<Option<ChildView>>, b: Seq<Option<ChildView>>, n: int)
    requires
        forall|i: int| 0 <= i < n ==> a[i] == b[i],
    ensures
        stored_entries(a, n) == stored_entries(b, n),
    decreases n,
{
    if n > 0 {
        lemma_stored_entries_agree(a, b, n - 1);
    }
}

/// Entries fill sixteen slots, and only slots that an entry names.
proof fn lemma_place_entries_shape(entries: Seq<(u8, u64, Seq<u8>)>, bound: int)
    requires
        0 <= bound,
        entries_valid(entries, 0),
        forall|k: int| 0 <= k < entries.len() ==> (#[trigger] entries[k]).0 < bound,
    ensures
        place_entries(entries).len() == 16,
        forall|i: int| bound <= i < 16 ==> #[trigger] place_entries(entries)[i] is None,
        forall|i: int|
            0 <= i < 16 ==> match #[trigger] place_entries(entries)[i] {
                None => true,
                Some(ChildView::AddressWithHash(a, h)) => a != 0 && h.len() == 32,
                Some(ChildView::Node(_)) => false,
            },
    decreases entries.len(),
{
    if entries.len() > 0 {
        let front = entries.drop_last();
        assert(entries_valid(front, 0)) by {
            assert forall|k: int| 0 <= k < front.len() implies {
                let e = #[trigger] front[k];
                0 <= e.0 < 16 && e.1 != 0 && e.2.len() == 32
            } by {
                assert(front[k] == entries[k]);
            }
            assert forall|j: int, k: int| 0 <= j < k < front.len() implies (#[trigger] front[j]).0
                < (#[trigger] front[k]).0 by {
                assert(front[j] == entries[j]);
                assert(front[k] == entries[k]);
            }
        }
        assert forall|k: int| 0 <= k < front.len() implies (#[trigger] front[k]).0 < bound by {
            assert(front[k] == entries[k]);
        }
        lemma_place_entries_shape(front, bound);
        let e = entries[entries.len() - 1];
        assert(e.0 < bound);
    }
}

/// Filling slots from entries in ascending order and listing the stored
/// children again gives the entries.
proof fn lemma_stored_placed(entries: Seq<(u8, u64, Seq<u8>)>)
    requires
        entries_valid(entries, 0),
    ensures
        stored_entries(place_entries(entries), 16) == entries,
    decreases entries.len(),
{
    if entries.len() == 0 {
        lemma_stored_entries_skip_empty(place_entries(entries), 0, 16);
        assert(entries =~= Seq::<(u8, u64, Seq<u8>)>::empty());
    } else {
        let front = entries.drop_last();
        let e = entries[entries.len() - 1];
        let index = e.0 as int;
        assert(entries_valid(front, 0)) by {
            assert forall|k: int| 0 <= k < front.len() implies {
                let x = #[trigger] front[k];
                0 <= x.0 < 16 && x.1 != 0 && x.2.len() == 32
            } by {
                assert(front[k] == entries[k]);
            }
            assert forall|j: int, k: int| 0 <= j < k < front.len() implies (#[trigger] front[j]).0
                < (#[trigger] front[k]).0 by {
                assert(front[j] == entries[j]);
                assert(front[k] == entries[k]);
            }
        }
        assert forall|k: int| 0 <= k < front.len() implies (#[trigger] front[k]).0 < index by {
            assert(front[k] == entries[k]);
            assert(entries[k].0 < entries[entries.len() - 1].0);
        }
        lemma_place_entries_shape(front, index);
        lemma_stored_placed(front);
        let before = place_entries(front);
        let after = place_entries(entries);
        assert(after == before.update(index, Some(ChildView::AddressWithHash(e.1, e.2))));
        lemma_stored_entries_skip_empty(after, index + 1, 16);
        lemma_stored_entries_agree(after, before, index);
        lemma_stored_entries_skip_empty(before, index, 16);
        assert(stored_entries(after, index + 1) == stored_entries(after, index).push(
            (index as u8, e.1, e.2),
        ));
        assert(front.push(e) =~= entries);
    }
}

/// What was read as entries was written as entries.
proof fn lemma_encode_decoded_entries(r: Seq<u8>, count: nat, floor: int)
    requires
        decode_entries(r, count, floor) is Ok,
        0 <= floor,
    ensures
        ({
            let (entries, rest) = decode_entries(r, count, floor)->Ok_0;
            &&& r == encode_entries(entries) + rest
            &&& entries.len() == count
            &&& entries_valid(entries, floor)
        }),
    decreases count,
{
    lemma_auto_spec_u64_to_from_le_bytes();
    let (entries, rest) = decode_entries(r, count, floor)->Ok_0;
    if count == 0 {
        assert(r =~= encode_entries(entries) + rest);
    } else {
        let index = r[0];
        let address = spec_u64_from_le_bytes(r.subrange(1, 9));
        let hash = r.subrange(9, 41);
        let e = (index, address, hash);
        lemma_encode_decoded_entries(r.skip(41), (count - 1) as nat, index + 1);
        let (later, rest2) = decode_entries(r.skip(41), (count - 1) as nat, index + 1)->Ok_0;
        assert(entries == seq![e] + later);
        lemma_encode_entries_concat(seq![e], later);
        assert(seq![e].drop_last() =~= Seq::<(u8, u64, Seq<u8>)>::empty());
        assert(seq![e].last() == e);
        assert(encode_entries(seq![e].drop_last()) =~= Seq::<u8>::empty());
        assert(encode_entries(seq![e]) =~= encode_entry(e));
        assert(spec_u64_to_le_bytes(address) == r.subrange(1, 9));
        assert(r =~= encode_entry(e) + r.skip(41)) by {
            assert(encode_entry(e).len() == 41);
            assert forall|x: int| 0 <= x < 41 implies r[x] == encode_entry(e)[x] by {
                if 1 <= x < 9 {
                    assert(r.subrange(1, 9)[x - 1] == r[x]);
                } else if x >= 9 {
                    assert(r.subrange(9, 41)[x - 9] == r[x]);
                }
            }
        }
        assert(r =~= encode_entries(entries) + rest);
        assert(entries_valid(entries, floor)) by {
            assert forall|k: int| 0 <= k < entries.len() implies {
                let x = #[trigger] entries[k];
                floor <= x.0 < 16 && x.1 != 0 && x.2.len() == 32
            } by {
                if k > 0 {
                    assert(entries[k] == later[k - 1]);
                }
            }
            assert forall|j: int, k: int| 0 <= j < k < entries.len() implies (
            #[trigger] entries[j]).0 < (#[trigger] entries[k]).0 by {
                assert(entries[k] == later[k - 1]);
                if j > 0 {
                    assert(entries[j] == later[j - 1]);
                }
            }
        }
    }
}

/// Only records are read as branches: bytes that are read as a branch are
/// the record of that branch, and the branch is one that has a record.
pub proof fn lemma_encode_decode(bytes: Seq<u8>)
    requires
        decode_branch(bytes) is Ok,
    ensures
        storable(decode_branch(bytes)->Ok_0),
        encode_branch(decode_branch(bytes)->Ok_0) == bytes,
{
    lemma_auto_spec_u64_to_from_le_bytes();
    let b = decode_branch(bytes)->Ok_0;
    let n = spec_u64_from_le_bytes(bytes.take(8));
    let r1 = bytes.skip(8);
    let path = r1.take(n as int);
    let r2 = r1.skip(n as int);
    let (value, r3) = decode_value(r2)->Ok_0;
    let count = spec_u64_from_le_bytes(r3.take(8));
    let r4 = r3.skip(8);
    lemma_encode_decoded_entries(r4, count as nat, 0);
    let (entries, r5) = decode_entries(r4, count as nat, 0)->Ok_0;
    assert(r5 =~= Seq::<u8>::empty());
    lemma_place_entries_shape(entries, 16);
    lemma_stored_placed(entries);
    assert(b.partial_path == path);
    assert(b.value == value);
    assert(b.children == place_entries(entries));
    assert(spec_u64_to_le_bytes(n) == bytes.take(8));
    assert(spec_u64_to_le_bytes(count) == r3.take(8));
    assert(r2 =~= encode_value(value) + r3) by {
        let m = spec_u64_from_le_bytes(r2.take(8));
        assert(spec_u64_to_le_bytes(m) == r2.take(8));
        if m == u64::MAX {
            assert(r2 =~= r2.take(8) + r2.skip(8));
        } else {
            let rest = r2.skip(8);
            assert(rest =~= rest.take(m as int) + rest.skip(m as int));
            assert(r2 =~= r2.take(8) + rest);
        }
    }
    assert(r3 =~= r3.take(8) + r4);
    assert(r1 =~= path + r2);
    assert(bytes =~= bytes.take(8) + r1);
    assert(r4 =~= encode_entries(entries));
    assert(bytes =~= encode_branch(b));
}

/// Appends `src` to `out`.
pub fn append_bytes(out: &mut Vec<u8>, src: &[u8])
    ensures
        final(out)@ == old(out)@ + src@,
{
    let mut i: usize = 0;
    while i < src.len()
        invariant
            i <= src@.len(),
            out@ == old(out)@ + src@.take(i as int),
        decreases src@.len() - i,
    {
        out.push(src[i]);
        i += 1;
        assert(out@ =~= old(out)@ + src@.take(i as int));
    }
    assert(src@.take(src@.len() as int) =~= src@);
}

/// The prefix of a list of entries re-read after a successful read of what follows.
pub open spec fn prepend_entries(
    done: Seq<(u8, u64, Seq<u8>)>,
    read: Result<(Seq<(u8, u64, Seq<u8>)>, Seq<u8>), DecodeError>,
) -> Result<(Seq<(u8, u64, Seq<u8>)>, Seq<u8>), DecodeError> {
    match read {
        Err(e) => Err(e),
        Ok((entries, rest)) => Ok((done + entries, rest)),
    }
}

impl BranchNode {
    /// A well-formed branch in stored form whose value fits a length field has a record.
    pub proof fn lemma_storable(&self)
        requires
            self.wf(),
            self.is_stored(),
            self.partial_path@.len() <= u64::MAX,
            self.value matches Some(v) ==> v@.len() < u64::MAX,
        ensures
            storable(self@),
    {
        assert forall|i: int| 0 <= i < 16 implies match #[trigger] self@.children[i] {
            None => true,
            Some(ChildView::AddressWithHash(a, h)) => a != 0 && h.len() == 32,
            Some(ChildView::Node(_)) => false,
        } by {
            let c = self.children@[i];
            assert(child_wf(c));
            assert(self@.children[i] == child_view(c));
        }
    }

    /// Writing a branch and reading the record back gives the branch.
    pub proof fn lemma_roundtrip(&self)
        requires
            self.wf(),
            self.is_stored(),
            self.partial_path@.len() <= u64::MAX,
            self.value matches Some(v) ==> v@.len() < u64::MAX,
        ensures
            decode_branch(encode_branch(self@)) == Ok::<BranchView, DecodeError>(self@),
    {
        self.lemma_storable();
        lemma_decode_encode(self@);
    }

    /// Writes the record of this branch.
    pub fn serialize(&self) -> (out: Vec<u8>)
        requires
            self.wf(),
            self.is_stored(),
            self.value matches Some(v) ==> v@.len() < u64::MAX,
        ensures
            out@ == encode_branch(self@),
    {
        let mut list = entries_new();
        let mut i: usize = 0;
        while i < 16
            invariant
                i <= 16,
                self.children@.len() == 16,
                self.is_stored(),
                child_entries(list) == stored_entries(self@.children, i as int),
                child_entries(list).len() <= i,
            decreases 16 - i,
        {
            assert(self@.children[i as int] == child_view(
                self.children@[i as int],
            ));
            match &self.children[i] {
                Some(Child::AddressWithHash(address, hash)) => {
                    entries_push(&mut list, i as u8, *address, *hash);
                },
                _ => {},
            }
            i += 1;
        }
        let ghost entries = child_entries(list);
        let mut out = u64_to_le_bytes(self.partial_path.len() as u64);
        append_bytes(&mut out, self.partial_path.0.as_slice());
        match &self.value {
            None => {
                let field = u64_to_le_bytes(u64::MAX);
                append_bytes(&mut out, field.as_slice());
            },
            Some(v) => {
                let field = u64_to_le_bytes(v.len() as u64);
                append_bytes(&mut out, field.as_slice());
                append_bytes(&mut out, v.as_slice());
            },
        }
        let n = entries_len(&list);
        let field = u64_to_le_bytes(n as u64);
        append_bytes(&mut out, field.as_slice());
        let ghost head = out@;
        assert(head =~= spec_u64_to_le_bytes(self@.partial_path.len() as u64) + (self@.partial_path
            + (encode_value(self@.value) + spec_u64_to_le_bytes(entries.len() as u64))));
        let mut k: usize = 0;
        while k < n
            invariant
                k <= n,
                n == entries.len(),
                entries == child_entries(list),
                out@ == head + encode_entries(entries.take(k as int)),
            decreases n - k,
        {
            let item = entries_get(&list, k);
            out.push(item.0);
            let field = u64_to_le_bytes(item.1.get());
            append_bytes(&mut out, field.as_slice());
            let hash = item.2.to_vec();
            append_bytes(&mut out, hash.as_slice());
            proof {
                let before = entries.take(k as int);
                let after = entries.take(k as int + 1);
                assert(after.drop_last() =~= before);
                assert(after.last() == entries[k as int]);
                assert(out@ =~= head + encode_entries(after));
            }
            k += 1;
        }
        assert(entries.take(n as int) =~= entries);
        assert(out@ =~= encode_branch(self@));
        out
    }

    /// Reads a branch from its record.
    pub fn deserialize(bytes: &[u8]) -> (read: Result<BranchNode, DecodeError>)
        ensures
            match decode_branch(bytes@) {
                Ok(v) => read matches Ok(b) && b@ == v && b.wf() && b.is_stored(),
                Err(e) => read matches Err(x) && x == e,
            },
    {
        let len = bytes.len();
        if len < 8 {
            return Err(DecodeError::Truncated);
        }
        let n = u64_from_le_bytes(slice_subrange(bytes, 0, 8));
        assert(bytes@.take(8) =~= bytes@.subrange(0, 8));
        if ((len - 8) as u64) < n {
            return Err(DecodeError::Truncated);
        }
        let path_end: usize = 8 + (n as usize);
        let path_bytes = slice_to_vec(slice_subrange(bytes, 8, path_end));
        assert(bytes@.skip(8).take(n as int) =~= bytes@.subrange(8, path_end as int));
        let path = match Path::from_nibbles(path_bytes) {
            None => {
                return Err(DecodeError::InvalidPath);
            },
            Some(p) => p,
        };
        assert(bytes@.skip(8).skip(n as int) =~= bytes@.skip(path_end as int));
        let (value, value_end) = match read_value(bytes, path_end) {
            Err(e) => {
                return Err(e);
            },
            Ok(v) => v,
        };
        if len - value_end < 8 {
            return Err(DecodeError::Truncated);
        }
        let count = u64_from_le_bytes(slice_subrange(bytes, value_end, value_end + 8));
        assert(bytes@.skip(value_end as int).take(8) =~= bytes@.subrange(
            value_end as int,
            value_end + 8,
        ));
        assert(bytes@.skip(value_end as int).skip(8) =~= bytes@.skip(value_end + 8));
        let (list, end) = match read_entries(bytes, value_end + 8, count) {
            Err(e) => {
                return Err(e);
            },
            Ok(v) => v,
        };
        if end != len {
            return Err(DecodeError::TrailingBytes);
        }
        Ok(fill_children(path, value, &list))
    }
}

/// Reads a value field at `pos`; gives the value and where the field ends.
fn read_value(bytes: &[u8], pos: usize) -> (read: Result<(Option<Vec<u8>>, usize), DecodeError>)
    requires
        pos <= bytes@.len(),
    ensures
        match decode_value(bytes@.skip(pos as int)) {
            Ok((v, rest)) => read matches Ok((value, end)) && option_bytes_view(value) == v && pos
                <= end <= bytes@.len() && rest == bytes@.skip(end as int),
            Err(e) => read matches Err(x) && x == e,
        },
{
    let len = bytes.len();
    let ghost r = bytes@.skip(pos as int);
    if len - pos < 8 {
        return Err(DecodeError::Truncated);
    }
    let m = u64_from_le_bytes(slice_subrange(bytes, pos, pos + 8));
    assert(r.take(8) =~= bytes@.subrange(pos as int, pos + 8));
    let start: usize = pos + 8;
    assert(r.skip(8) =~= bytes@.skip(start as int));
    if m == u64::MAX {
        return Ok((None, start));
    }
    if ((len - start) as u64) < m {
        return Err(DecodeError::Truncated);
    }
    let end: usize = start + (m as usize);
    let v = slice_to_vec(slice_subrange(bytes, start, end));
    assert(r.skip(8).take(m as int) =~= bytes@.subrange(start as int, end as int));
    assert(r.skip(8).skip(m as int) =~= bytes@.skip(end as int));
    Ok((Some(v), end))
}

/// Reads `count` children at `pos`; gives them and where the last one ends.
fn read_entries(bytes: &[u8], pos: usize, count: u64) -> (read: Result<
    (ChildEntries, usize),
    DecodeError,
>)
    requires
        pos <= bytes@.len(),
    ensures
        match decode_entries(bytes@.skip(pos as int), count as nat, 0) {
            Ok((entries, rest)) => read matches Ok((list, end)) && child_entries(list) == entries
                && entries_valid(entries, 0) && pos <= end <= bytes@.len() && rest == bytes@.skip(
                end as int,
            ),
            Err(e) => read matches Err(x) && x == e,
        },
{
    let len = bytes.len();
    let ghost whole = decode_entries(bytes@.skip(pos as int), count as nat, 0);
    let mut list = entries_new();
    let mut floor: u8 = 0;
    let mut remaining: u64 = count;
    let mut at: usize = pos;
    proof {
        let first = decode_entries(bytes@.skip(pos as int), count as nat, 0);
        match first {
            Err(x) => {},
            Ok((es, rest)) => {
                assert(child_entries(list) + es =~= es);
            },
        }
    }
    while remaining > 0
        invariant
            pos <= at <= len,
            len == bytes@.len(),
            whole == decode_entries(bytes@.skip(pos as int), count as nat, 0),
            floor <= 16,
            child_entries(list).len() <= floor,
            entries_valid(child_entries(list), 0),
            forall|k: int|
                0 <= k < child_entries(list).len() ==> (#[trigger] child_entries(list)[k]).0
                    < floor,
            whole == prepend_entries(
                child_entries(list),
                decode_entries(bytes@.skip(at as int), remaining as nat, floor as int),
            ),
        ensures
            remaining == 0,
            pos <= at <= len,
            entries_valid(child_entries(list), 0),
            whole == prepend_entries(
                child_entries(list),
                decode_entries(bytes@.skip(at as int), 0, floor as int),
            ),
        decreases remaining,
    {
        let ghost r = bytes@.skip(at as int);
        let ghost done = child_entries(list);
        if len - at < 41 {
            return Err(DecodeError::Truncated);
        }
        let index = bytes[at];
        let raw = u64_from_le_bytes(slice_subrange(bytes, at + 1, at + 9));
        assert(r.subrange(1, 9) =~= bytes@.subrange(at + 1, at + 9));
        assert(r[0] == bytes@[at as int]);
        if index >= 16 || index < floor {
            return Err(DecodeError::InvalidChild);
        }
        let address = match LinearAddress::new(raw) {
            None => {
                return Err(DecodeError::InvalidChild);
            },
            Some(a) => a,
        };
        let hash = match TrieHash::from_slice(slice_subrange(bytes, at + 9, at + 41)) {
            None => {
                return Err(DecodeError::Truncated);
            },
            Some(h) => h,
        };
        assert(r.subrange(9, 41) =~= bytes@.subrange(at + 9, at + 41));
        entries_push(&mut list, index, address, hash);
        proof {
            let e = (index, raw, hash@);
            let now = child_entries(list);
            assert(now == done.push(e));
            assert(r.skip(41) =~= bytes@.skip(at + 41));
            let next = decode_entries(r.skip(41), (remaining - 1) as nat, index + 1);
            assert(decode_entries(r, remaining as nat, floor as int) == match next {
                Err(x) => Err(x),
                Ok((es, rest)) => Ok((seq![e] + es, rest)),
            });
            match next {
                Err(x) => {},
                Ok((es, rest)) => {
                    assert(done + (seq![e] + es) =~= now + es);
                },
            }
            assert forall|k: int| 0 <= k < now.len() implies {
                let x = #[trigger] now[k];
                0 <= x.0 < 16 && x.1 != 0 && x.2.len() == 32 && x.0 < index + 1
            } by {
                if k < done.len() {
                    assert(now[k] == done[k]);
                }
            }
            assert forall|j: int, k: int| 0 <= j < k < now.len() implies (#[trigger] now[j]).0 < (
            #[trigger] now[k]).0 by {
                assert(now[j] == done[j]);
                if k < done.len() {
                    assert(now[k] == done[k]);
                }
            }
        }
        floor = index + 1;
        at = at + 41;
        remaining = remaining - 1;
    }
    assert(child_entries(list) + Seq::<(u8, u64, Seq<u8>)>::empty() =~= child_entries(list));
    Ok((list, at))
}

/// The branch with the given path and value whose slots the entries fill.
fn fill_children(path: Path, value: Option<Vec<u8>>, list: &ChildEntries) -> (node: BranchNode)
    requires
        path.wf(),
        entries_valid(child_entries(*list), 0),
    ensures
        node@ == (BranchView {
            partial_path: path@,
            value: option_bytes_view(value),
            children: place_entries(child_entries(*list)),
        }),
        node.wf(),
        node.is_stored(),
{
    let ghost entries = child_entries(*list);
    let ghost path_view = path@;
    let ghost value_view = option_bytes_view(value);
    let mut node = BranchNode::new(path, value);
    assert(node@.children =~= place_entries(entries.take(0)));
    let n = entries_len(list);
    let mut k: usize = 0;
    while k < n
        invariant
            k <= n,
            n == entries.len(),
            entries == child_entries(*list),
            entries_valid(entries, 0),
            node.wf(),
            node.is_stored(),
            node@.partial_path == path_view,
            node@.value == value_view,
            node@.children == place_entries(entries.take(k as int)),
        decreases n - k,
    {
        let item = entries_get(list, k);
        let ghost before = node;
        assert(entries[k as int].0 < 16);
        node.update_child(item.0, Some(Child::AddressWithHash(item.1, item.2)));
        proof {
            let e = entries[k as int];
            let after = entries.take(k as int + 1);
            assert(after.drop_last() =~= entries.take(k as int));
            assert(after.last() == e);
            assert forall|i: int| 0 <= i < node.children@.len() implies child_wf(
                #[trigger] node.children@[i],
            ) by {
                if i != item.0 {
                    assert(node.children@[i] == before.children@[i]);
                }
            }
            assert forall|i: int| 0 <= i < node.children@.len() implies !(
            #[trigger] node.children@[i] matches Some(Child::Node(_))) by {
                if i != item.0 {
                    assert(node.children@[i] == before.children@[i]);
                }
            }
            assert forall|i: int| 0 <= i < 16 implies node@.children[i] == place_entries(after)[i] by {
                assert(node@.children[i] == child_view(node.children@[i]));
                if i != item.0 {
                    assert(node.children@[i] == before.children@[i]);
                    assert(before@.children[i] == child_view(before.children@[i]));
                }
            }
            assert(node@.children =~= place_entries(after));
        }
        k += 1;
    }
    assert(entries.take(n as int) =~= entries);
    node
}

/// The branch that stands for a leaf in a record: the leaf's path and
/// value, and no children.
pub open spec fn leaf_as_branch(l: LeafView) -> BranchView {
    BranchView {
        partial_path: l.partial_path,
        value: Some(l.value),
        children: Seq::new(16, |i: int| None),
    }
}

/// The record of a node: a tag, 0 for a branch and 1 for a leaf, then the
/// record of the branch, or of the branch that stands for the leaf.
pub open spec fn encode_node(n: NodeView) -> Seq<u8> {
    match n {
        NodeView::Branch(b) => seq![0u8] + encode_branch(b),
        NodeView::Leaf(l) => seq![1u8] + encode_branch(leaf_as_branch(l)),
    }
}

/// The node that a record holds, or why the bytes are not a record.
pub open spec fn decode_node(bytes: Seq<u8>) -> Result<NodeView, DecodeError> {
    if bytes.len() == 0 {
        Err(DecodeError::Truncated)
    } else if bytes[0] > 1 {
        Err(DecodeError::InvalidTag)
    } else {
        match decode_branch(bytes.skip(1)) {
            Err(e) => Err(e),
            Ok(b) => if bytes[0] == 0 {
                Ok(NodeView::Branch(b))
            } else if b.value is Some && b.children == Seq::new(16, |i: int| None::<ChildView>) {
                Ok(NodeView::Leaf(LeafView { partial_path: b.partial_path, value: b.value->0 }))
            } else {
                Err(DecodeError::InvalidLeaf)
            },
        }
    }
}

/// What a node must satisfy to have a record.
pub open spec fn storable_node(n: NodeView) -> bool {
    match n {
        NodeView::Branch(b) => storable(b),
        NodeView::Leaf(l) => storable(leaf_as_branch(l)),
    }
}

/// Reading back the record of a node gives that node.
pub proof fn lemma_decode_encode_node(n: NodeView)
    requires
        storable_node(n),
    ensures
        decode_node(encode_node(n)) == Ok::<NodeView, DecodeError>(n),
{
    let bytes = encode_node(n);
    match n {
        NodeView::Branch(b) => {
            assert(bytes.skip(1) =~= encode_branch(b));
            lemma_decode_encode(b);
        },
        NodeView::Leaf(l) => {
            assert(bytes.skip(1) =~= encode_branch(leaf_as_branch(l)));
            lemma_decode_encode(leaf_as_branch(l));
        },
    }
}

impl Node {
    /// No branch slot of this node holds an in-memory child.
    pub open spec fn is_stored(&self) -> bool {
        match *self {
            Node::Branch(b) => b.is_stored(),
            Node::Leaf(_) => true,
        }
    }

    /// The value of this node, if it has one.
    pub open spec fn spec_value(&self) -> Option<Vec<u8>> {
        match *self {
            Node::Branch(b) => b.value,
            Node::Leaf(l) => Some(l.value),
        }
    }

    /// Writes the record of this node.
    pub fn serialize(&self) -> (out: Vec<u8>)
        requires
            self.wf(),
            self.is_stored(),
            self.spec_value() matches Some(v) ==> v@.len() < u64::MAX,
        ensures
            out@ == encode_node(self@),
    {
        match self {
            Node::Branch(b) => {
                let mut out: Vec<u8> = Vec::new();
                out.push(0u8);
                let record = b.serialize();
                append_bytes(&mut out, record.as_slice());
                out
            },
            Node::Leaf(l) => {
                let mut out: Vec<u8> = Vec::new();
                out.push(1u8);
                let stand_in = BranchNode::from(l);
                assert(stand_in@.children =~= Seq::new(16, |i: int| None::<ChildView>)) by {
                    assert forall|i: int| 0 <= i < 16 implies stand_in@.children[i]
                        == None::<ChildView> by {
                        assert(stand_in@.children[i] == child_view(stand_in.children@[i]));
                    }
                }
                assert(stand_in@ == leaf_as_branch(l@));
                let record = stand_in.serialize();
                append_bytes(&mut out, record.as_slice());
                out
            },
        }
    }

    /// Reads a node from its record.
    pub fn deserialize(bytes: &[u8]) -> (read: Result<Node, DecodeError>)
        ensures
            match decode_node(bytes@) {
                Ok(v) => read matches Ok(n) && n@ == v && n.wf() && n.is_stored(),
                Err(e) => read matches Err(x) && x == e,
            },
    {
        if bytes.len() == 0 {
            return Err(DecodeError::Truncated);
        }
        let tag = bytes[0];
        if tag > 1 {
            return Err(DecodeError::InvalidTag);
        }
        let rest = slice_subrange(bytes, 1, bytes.len());
        assert(rest@ =~= bytes@.skip(1));
        let branch = match BranchNode::deserialize(rest) {
            Err(e) => {
                return Err(e);
            },
            Ok(b) => b,
        };
        if tag == 0 {
            return Ok(Node::Branch(Box::new(branch)));
        }
        let census = branch.census();
        let ghost view = branch@;
        proof {
            if census.count == 0 {
                assert(view.children =~= Seq::new(16, |i: int| None::<ChildView>)) by {
                    assert forall|i: int| 0 <= i < 16 implies view.children[i]
                        == None::<ChildView> by {
                        assert(!crate::node::branch::used(view, i));
                    }
                }
            } else {
                assert(crate::node::branch::used(view, census.first as int));
                assert(view.children[census.first as int] is Some);
                assert(Seq::new(16, |i: int| None::<ChildView>)[census.first as int] is None);
            }
        }
        if census.count != 0 {
            return Err(DecodeError::InvalidLeaf);
        }
        match branch.value {
            None => Err(DecodeError::InvalidLeaf),
            Some(value) => Ok(Node::Leaf(LeafNode { partial_path: branch.partial_path, value })),
        }
    }
}

} // verus!

//! The list of stored children that stands between a branch and its bytes.

use vstd::prelude::*;
use smallvec::SmallVec;
use crate::address::LinearAddress;
use crate::hash::TrieHash;

verus! {

/// A short list of stored children, kept in a `SmallVec` with room for
/// sixteen items inline.
#[verifier::external_body]
pub struct ChildEntries {
    items: SmallVec<[(u8, LinearAddress, TrieHash); 16]>,
}

/// The items of a child list, first to last: slot index, address, hash bytes.
pub uninterp spec fn child_entries(list: ChildEntries) -> Seq<
    (u8, u64, Seq<u8>),
>;

/// `SmallVec::new`: the new list holds nothing.
#[verifier::external_body]
pub(crate) fn entries_new() -> (list: ChildEntries)
    ensures
        child_entries(list) == Seq::<(u8, u64, Seq<u8>)>::empty(),
{
    ChildEntries { items: SmallVec::new() }
}

/// `SmallVec::push`: the item is appended after the items already there.
#[verifier::external_body]
pub(crate) fn entries_push(
    list: &mut ChildEntries,
    index: u8,
    address: LinearAddress,
    hash: TrieHash,
)
    requires
        child_entries(*old(list)).len() < usize::MAX,
    ensures
        child_entries(*final(list)) == child_entries(*old(list)).push((index, address@, hash@)),
{
    list.items.push((index, address, hash));
}

/// `SmallVec::len`: the number of items.
#[verifier::external_body]
pub(crate) fn entries_len(list: &ChildEntries) -> (n: usize)
    ensures
        n == child_entries(*list).len(),
{
    list.items.len()
}

/// Indexing a `SmallVec`: the item at position `i`.
#[verifier::external_body]
pub(crate) fn entries_get(list: &ChildEntries, i: usize) -> (item: (
    u8,
    LinearAddress,
    TrieHash,
))
    requires
        i < child_entries(*list).len(),
    ensures
        (item.0, item.1@, item.2@) == child_entries(*list)[i as int],
{
    list.items[i]
}

} // verus!

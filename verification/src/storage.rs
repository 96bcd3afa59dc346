//! The linear store as the revision manager sees it: the header that names
//! the current root, and the ordered queue of writes that a commit produces.
//!
//! Nothing here touches a file. Whoever owns the file hands in the bytes of
//! its header region and carries out the queued operations in order.

use vstd::prelude::*;
use vstd::bytes::*;
use vstd::slice::*;
use crate::address::LinearAddress;
use crate::hash::{option_hash_view, TrieHash};
use crate::node::codec::append_bytes;

verus! {

/// One step of storage work, to be carried out in queue order.
#[derive(Debug, PartialEq, Eq)]
pub enum StorageOp {
    /// Empty the file.
    Truncate,
    /// Record the addresses that a commit will free, for recovery.
    PersistDeleted(Vec<LinearAddress>),
    /// Put the region at this address onto its free chain.
    Release(LinearAddress),
    /// Write the free-list heads.
    FlushFreeList,
    /// Write a node record at its address.
    WriteNode(LinearAddress, Vec<u8>),
    /// Make every earlier write durable.
    Sync,
    /// Write the header region.
    WriteHeader(Vec<u8>),
}

/// What a storage operation says.
pub enum StorageOpView {
    Truncate,
    PersistDeleted(Seq<u64>),
    Release(u64),
    FlushFreeList,
    WriteNode(u64, Seq<u8>),
    Sync,
    WriteHeader(Seq<u8>),
}

/// The offsets of a list of addresses.
pub open spec fn addresses_view(list: Seq<LinearAddress>) -> Seq<u64> {
    Seq::new(list.len(), |i: int| list[i]@)
}

/// The offset of an optional address.
pub open spec fn option_address_view(a: Option<LinearAddress>) -> Option<u64> {
    match a {
        Some(x) => Some(x@),
        None => None,
    }
}

impl View for StorageOp {
    type V = StorageOpView;

    open spec fn view(&self) -> StorageOpView {
        match *self {
            StorageOp::Truncate => StorageOpView::Truncate,
            StorageOp::PersistDeleted(list) => StorageOpView::PersistDeleted(
                addresses_view(list@),
            ),
            StorageOp::Release(a) => StorageOpView::Release(a@),
            StorageOp::FlushFreeList => StorageOpView::FlushFreeList,
            StorageOp::WriteNode(a, bytes) => StorageOpView::WriteNode(a@, bytes@),
            StorageOp::Sync => StorageOpView::Sync,
            StorageOp::WriteHeader(bytes) => StorageOpView::WriteHeader(bytes@),
        }
    }
}

/// What a list of storage operations says, in order.
pub open spec fn ops_view(ops: Seq<StorageOp>) -> Seq<StorageOpView> {
    Seq::new(ops.len(), |i: int| ops[i]@)
}

/// Why the bytes of a header region do not name a root.
#[derive(Clone, Copy, Debug, PartialEq, Eq)]
pub enum HeaderError {
    /// Fewer bytes than a header has.
    TooShort,
    /// The first eight bytes are not the magic.
    BadMagic,
    /// A version other than the one this library writes.
    BadVersion,
    /// The root hash marker is neither 0 nor 1.
    BadRootHash,
}

/// The part of the header that names the current root.
#[derive(Clone, Copy, Debug, PartialEq, Eq)]
pub struct Header {
    /// Where the root node is stored; `None` for the empty trie.
    pub root_address: Option<LinearAddress>,
    /// The hash of the root node; `None` for the empty trie.
    pub root_hash: Option<TrieHash>,
    /// Where the bytes of the current trie begin; `None` if it has none.
    pub region: Option<LinearAddress>,
}

/// What a header names.
pub struct HeaderView {
    pub root_address: Option<u64>,
    pub root_hash: Option<Seq<u8>>,
    pub region: Option<u64>,
}

impl View for Header {
    type V = HeaderView;

    open spec fn view(&self) -> HeaderView {
        HeaderView {
            root_address: option_address_view(self.root_address),
            root_hash: option_hash_view(self.root_hash),
            region: option_address_view(self.region),
        }
    }
}

/// The eight bytes that open a header.
pub open spec fn magic() -> Seq<u8> {
    seq![0x66u8, 0x69u8, 0x72u8, 0x65u8, 0x77u8, 0x6fu8, 0x6fu8, 0x64u8]
}

/// The version that this library writes.
pub const HEADER_VERSION: u64 = 1;

/// The number of bytes of a header.
pub const HEADER_LEN: usize = 65;

/// An optional address as a number: zero for none.
pub open spec fn address_or_zero(a: Option<u64>) -> u64 {
    match a {
        Some(x) => x,
        None => 0,
    }
}

/// The bytes of a header: magic, version, root address (zero for none), a
/// marker for the root hash (1 present, 0 absent), 32 hash bytes (zeros
/// when absent), and the address where the current trie begins (zero for
/// none).
pub open spec fn encode_header(h: HeaderView) -> Seq<u8> {
    magic() + (spec_u64_to_le_bytes(HEADER_VERSION) + (spec_u64_to_le_bytes(
        address_or_zero(h.root_address),
    ) + ((match h.root_hash {
        Some(hash) => seq![1u8] + hash,
        None => seq![0u8] + Seq::new(32, |i: int| 0u8),
    }) + spec_u64_to_le_bytes(address_or_zero(h.region)))))
}

/// The header that the first 65 bytes of a header region hold.
pub open spec fn decode_header(bytes: Seq<u8>) -> Result<HeaderView, HeaderError> {
    if bytes.len() < 65 {
        Err(HeaderError::TooShort)
    } else if bytes.subrange(0, 8) != magic() {
        Err(HeaderError::BadMagic)
    } else if spec_u64_from_le_bytes(bytes.subrange(8, 16)) != HEADER_VERSION {
        Err(HeaderError::BadVersion)
    } else if bytes[24] > 1 {
        Err(HeaderError::BadRootHash)
    } else {
        let a = spec_u64_from_le_bytes(bytes.subrange(16, 24));
        let r = spec_u64_from_le_bytes(bytes.subrange(57, 65));
        Ok(
            HeaderView {
                root_address: if a == 0 {
                    None
                } else {
                    Some(a)
                },
                root_hash: if bytes[24] == 1 {
                    Some(bytes.subrange(25, 57))
                } else {
                    None
                },
                region: if r == 0 {
                    None
                } else {
                    Some(r)
                },
            },
        )
    }
}

/// A header that was written is read back as it was, whatever follows it.
pub proof fn lemma_header_roundtrip(h: HeaderView, padding: Seq<u8>)
    requires
        h.root_address matches Some(a) ==> a != 0,
        h.root_hash matches Some(hash) ==> hash.len() == 32,
        h.region matches Some(r) ==> r != 0,
    ensures
        decode_header(encode_header(h) + padding) == Ok::<HeaderView, HeaderError>(h),
        encode_header(h).len() == 65,
{
    lemma_auto_spec_u64_to_from_le_bytes();
    let a: u64 = address_or_zero(h.root_address);
    let tail = match h.root_hash {
        Some(hash) => seq![1u8] + hash,
        None => seq![0u8] + Seq::new(32, |i: int| 0u8),
    };
    let bytes = encode_header(h) + padding;
    assert(bytes.subrange(0, 8) =~= magic());
    assert(bytes.subrange(8, 16) =~= spec_u64_to_le_bytes(HEADER_VERSION));
    assert(bytes.subrange(16, 24) =~= spec_u64_to_le_bytes(a));
    assert(bytes[24] == tail[0]);
    assert(bytes.subrange(25, 57) =~= tail.subrange(1, 33));
    assert(bytes.subrange(57, 65) =~= spec_u64_to_le_bytes(address_or_zero(h.region)));
    match h.root_hash {
        Some(hash) => {
            assert(tail.subrange(1, 33) =~= hash);
        },
        None => {},
    }
}

impl Header {
    /// The header of a store that holds no trie.
    pub fn empty() -> (h: Header)
        ensures
            h@ == (HeaderView { root_address: None, root_hash: None, region: None }),
    {
        Header { root_address: None, root_hash: None, region: None }
    }

    /// The bytes of this header.
    pub fn encode(&self) -> (out: Vec<u8>)
        ensures
            out@ == encode_header(self@),
            out@.len() == 65,
    {
        proof {
            lemma_auto_spec_u64_to_from_le_bytes();
        }
        let mut out: Vec<u8> = Vec::new();
        out.push(0x66u8);
        out.push(0x69u8);
        out.push(0x72u8);
        out.push(0x65u8);
        out.push(0x77u8);
        out.push(0x6fu8);
        out.push(0x6fu8);
        out.push(0x64u8);
        assert(out@ =~= magic());
        let version = u64_to_le_bytes(HEADER_VERSION);
        append_bytes(&mut out, version.as_slice());
        let raw: u64 = match &self.root_address {
            Some(a) => a.get(),
            None => 0,
        };
        let address = u64_to_le_bytes(raw);
        append_bytes(&mut out, address.as_slice());
        match &self.root_hash {
            Some(hash) => {
                out.push(1u8);
                let bytes = hash.to_vec();
                append_bytes(&mut out, bytes.as_slice());
            },
            None => {
                out.push(0u8);
                let mut i: usize = 0;
                let ghost start = out@;
                while i < 32
                    invariant
                        i <= 32,
                        out@ == start + Seq::new(i as nat, |k: int| 0u8),
                    decreases 32 - i,
                {
                    out.push(0u8);
                    i += 1;
                    assert(out@ =~= start + Seq::new(i as nat, |k: int| 0u8));
                }
            },
        }
        let raw_region: u64 = match &self.region {
            Some(a) => a.get(),
            None => 0,
        };
        let region = u64_to_le_bytes(raw_region);
        append_bytes(&mut out, region.as_slice());
        assert(out@ =~= encode_header(self@));
        out
    }

    /// Reads the header at the start of a header region.
    pub fn decode(bytes: &[u8]) -> (read: Result<Header, HeaderError>)
        ensures
            match decode_header(bytes@) {
                Ok(v) => read matches Ok(h) && h@ == v,
                Err(e) => read matches Err(x) && x == e,
            },
    {
        if bytes.len() < 65 {
            return Err(HeaderError::TooShort);
        }
        if bytes[0] != 0x66u8 || bytes[1] != 0x69u8 || bytes[2] != 0x72u8 || bytes[3] != 0x65u8
            || bytes[4] != 0x77u8 || bytes[5] != 0x6fu8 || bytes[6] != 0x6fu8 || bytes[7]
            != 0x64u8 {
            proof {
                let m = bytes@.subrange(0, 8);
                assert(m[0] == bytes@[0] && m[1] == bytes@[1] && m[2] == bytes@[2] && m[3]
                    == bytes@[3] && m[4] == bytes@[4] && m[5] == bytes@[5] && m[6] == bytes@[6]
                    && m[7] == bytes@[7]);
            }
            return Err(HeaderError::BadMagic);
        }
        assert(bytes@.subrange(0, 8) =~= magic());
        let version = u64_from_le_bytes(slice_subrange(bytes, 8, 16));
        if version != HEADER_VERSION {
            return Err(HeaderError::BadVersion);
        }
        if bytes[24] > 1 {
            return Err(HeaderError::BadRootHash);
        }
        let raw = u64_from_le_bytes(slice_subrange(bytes, 16, 24));
        let root_address = LinearAddress::new(raw);
        let root_hash = if bytes[24] == 1 {
            TrieHash::from_slice(slice_subrange(bytes, 25, 57))
        } else {
            None
        };
        let raw_region = u64_from_le_bytes(slice_subrange(bytes, 57, 65));
        let region = LinearAddress::new(raw_region);
        Ok(Header { root_address, root_hash, region })
    }
}

/// The store's side of the revision manager: the sizes of its two caches and
/// the storage operations that are queued and not yet carried out.
#[derive(Debug)]
pub struct FileBacked {
    node_cache_size: usize,
    free_list_cache_size: usize,
    pending: Vec<StorageOp>,
}

impl FileBacked {
    /// The queued operations, oldest first.
    pub closed spec fn pending(&self) -> Seq<StorageOpView> {
        ops_view(self.pending@)
    }

    pub closed spec fn spec_node_cache_size(&self) -> usize {
        self.node_cache_size
    }

    pub closed spec fn spec_free_list_cache_size(&self) -> usize {
        self.free_list_cache_size
    }

    /// A store with the given cache sizes and nothing queued.
    pub fn new(node_cache_size: usize, free_list_cache_size: usize) -> (store: FileBacked)
        requires
            node_cache_size > 0,
            free_list_cache_size > 0,
        ensures
            store.pending() == Seq::<StorageOpView>::empty(),
            store.spec_node_cache_size() == node_cache_size,
            store.spec_free_list_cache_size() == free_list_cache_size,
    {
        let store = FileBacked { node_cache_size, free_list_cache_size, pending: Vec::new() };
        assert(store.pending() =~= Seq::<StorageOpView>::empty());
        store
    }

    /// The capacity of the node cache, in entries.
    #[verifier::when_used_as_spec(spec_node_cache_size)]
    pub fn node_cache_size(&self) -> (n: usize)
        ensures
            n == self.spec_node_cache_size(),
    {
        self.node_cache_size
    }

    /// The capacity of the free-list cache, in entries.
    #[verifier::when_used_as_spec(spec_free_list_cache_size)]
    pub fn free_list_cache_size(&self) -> (n: usize)
        ensures
            n == self.spec_free_list_cache_size(),
    {
        self.free_list_cache_size
    }

    /// Queues one operation behind those already queued.
    pub fn enqueue(&mut self, op: StorageOp)
        ensures
            final(self).pending() == old(self).pending().push(op@),
            final(self).spec_node_cache_size() == old(self).spec_node_cache_size(),
            final(self).spec_free_list_cache_size() == old(self).spec_free_list_cache_size(),
    {
        self.pending.push(op);
        assert(self.pending() =~= old(self).pending().push(op@));
    }

    /// Hands out the queued operations, oldest first, and leaves the queue empty.
    pub fn take_pending(&mut self) -> (ops: Vec<StorageOp>)
        ensures
            ops_view(ops@) == old(self).pending(),
            final(self).pending() == Seq::<StorageOpView>::empty(),
            final(self).spec_node_cache_size() == old(self).spec_node_cache_size(),
            final(self).spec_free_list_cache_size() == old(self).spec_free_list_cache_size(),
    {
        let mut ops: Vec<StorageOp> = Vec::new();
        std::mem::swap(&mut ops, &mut self.pending);
        assert(self.pending() =~= Seq::<StorageOpView>::empty());
        ops
    }
}

} // verus!

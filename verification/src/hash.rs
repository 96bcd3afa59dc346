//! Fixed-size digests that identify trie roots and hashed children.

use vstd::prelude::*;

verus! {

/// A 32-byte digest identifying a trie root or a hashed child.
#[derive(Clone, Copy, Debug, PartialEq, Eq, Hash)]
pub struct TrieHash {
    pub bytes: [u8; 32],
}

impl View for TrieHash {
    type V = Seq<u8>;

    open spec fn view(&self) -> Seq<u8> {
        self.bytes@
    }
}

impl TrieHash {
    /// Number of bytes in a digest.
    pub const LEN: usize = 32;

    /// Wraps 32 raw bytes as a digest.
    pub fn new(bytes: [u8; 32]) -> (hash: TrieHash)
        ensures
            hash.bytes == bytes,
            hash@ == bytes@,
    {
        TrieHash { bytes }
    }

    /// Builds a digest from a slice, which must hold exactly 32 bytes.
    pub fn from_slice(bytes: &[u8]) -> (hash: Option<TrieHash>)
        ensures
            hash is Some <==> bytes@.len() == 32,
            hash matches Some(h) ==> h@ == bytes@,
    {
        if bytes.len() != 32 {
            return None;
        }
        let mut out: [u8; 32] = [0u8; 32];
        let mut i: usize = 0;
        while i < 32
            invariant
                i <= 32,
                bytes@.len() == 32,
                forall|j: int| 0 <= j < i ==> out@[j] == bytes@[j],
            decreases 32 - i,
        {
            out[i] = bytes[i];
            i += 1;
        }
        assert(out@ =~= bytes@);
        Some(TrieHash { bytes: out })
    }

    /// The digest as a freshly allocated byte vector.
    pub fn to_vec(&self) -> (out: Vec<u8>)
        ensures
            out@ == self@,
    {
        let mut out: Vec<u8> = Vec::new();
        let mut i: usize = 0;
        while i < 32
            invariant
                i <= 32,
                out@.len() == i,
                forall|j: int| 0 <= j < i ==> out@[j] == self.bytes@[j],
            decreases 32 - i,
        {
            out.push(self.bytes[i]);
            i += 1;
        }
        assert(out@ =~= self@);
        out
    }

    /// Byte-wise comparison of two digests.
    pub fn same(&self, other: &TrieHash) -> (eq: bool)
        ensures
            eq == (self@ == other@),
    {
        let mut i: usize = 0;
        while i < 32
            invariant
                i <= 32,
                forall|j: int| 0 <= j < i ==> self.bytes@[j] == other.bytes@[j],
            decreases 32 - i,
        {
            if self.bytes[i] != other.bytes[i] {
                return false;
            }
            i += 1;
        }
        assert(self@ =~= other@);
        true
    }
}

/// Compares two optional digests, `None` being equal only to `None`.
pub fn same_root(a: &Option<TrieHash>, b: &Option<TrieHash>) -> (eq: bool)
    ensures
        eq == (option_hash_view(*a) == option_hash_view(*b)),
{
    match (a, b) {
        (None, None) => true,
        (Some(x), Some(y)) => x.same(y),
        _ => false,
    }
}

/// The byte view of an optional digest.
pub open spec fn option_hash_view(h: Option<TrieHash>) -> Option<Seq<u8>> {
    match h {
        Some(x) => Some(x@),
        None => None,
    }
}

} // verus!

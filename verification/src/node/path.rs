//! Nibble paths.

use vstd::prelude::*;

verus! {

/// The nibbles of a byte string: two per byte, high half first.
pub open spec fn nibbles_of(bytes: Seq<u8>) -> Seq<u8> {
    Seq::new(2 * bytes.len(), |i: int| if i % 2 == 0 { bytes[i / 2] / 16 } else { bytes[i / 2] % 16 })
}

/// Whether every element is a 4-bit value.
pub open spec fn all_nibbles(s: Seq<u8>) -> bool {
    forall|i: int| 0 <= i < s.len() ==> #[trigger] s[i] < 16
}

/// A sequence of 4-bit nibbles: the part of a key that one node holds.
#[derive(Clone, Debug, PartialEq, Eq)]
pub struct Path(pub Vec<u8>);

impl View for Path {
    type V = Seq<u8>;

    open spec fn view(&self) -> Seq<u8> {
        self.0@
    }
}

impl Path {
    /// Every element is below 16.
    pub open spec fn wf(&self) -> bool {
        all_nibbles(self@)
    }

    /// The empty path.
    pub fn new() -> (path: Path)
        ensures
            path@ == Seq::<u8>::empty(),
            path.wf(),
    {
        Path(Vec::new())
    }

    /// Wraps a vector of nibbles, or returns `None` if an element is 16 or more.
    pub fn from_nibbles(nibbles: Vec<u8>) -> (path: Option<Path>)
        ensures
            path is Some <==> all_nibbles(nibbles@),
            path matches Some(p) ==> p@ == nibbles@,
    {
        let mut i: usize = 0;
        while i < nibbles.len()
            invariant
                i <= nibbles.len(),
                forall|j: int| 0 <= j < i ==> #[trigger] nibbles@[j] < 16,
            decreases nibbles.len() - i,
        {
            if nibbles[i] >= 16 {
                return None;
            }
            i += 1;
        }
        Some(Path(nibbles))
    }

    /// Splits each byte of a key into its two nibbles.
    pub fn from_key(key: &[u8]) -> (path: Path)
        ensures
            path@ == nibbles_of(key@),
            path.wf(),
    {
        let mut out: Vec<u8> = Vec::new();
        let mut i: usize = 0;
        while i < key.len()
            invariant
                i <= key.len(),
                out@.len() == 2 * i,
                forall|j: int| 0 <= j < 2 * i ==> out@[j] == nibbles_of(key@)[j],
            decreases key.len() - i,
        {
            let b: u8 = key[i];
            out.push(b / 16);
            out.push(b % 16);
            i += 1;
        }
        assert(out@ =~= nibbles_of(key@));
        Path(out)
    }

    /// A fresh path with the same nibbles.
    pub fn copy(&self) -> (path: Path)
        ensures
            path@ == self@,
    {
        let nibbles = self.0.clone();
        assert(nibbles@ =~= self.0@);
        Path(nibbles)
    }

    /// Number of nibbles.
    pub fn len(&self) -> (n: usize)
        ensures
            n == self@.len(),
    {
        self.0.len()
    }
}

} // verus!

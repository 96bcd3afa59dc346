//! Addresses of node records in the linear store.

use vstd::prelude::*;

verus! {

/// A non-zero offset into the linear store. Zero is reserved for "none".
#[derive(Clone, Copy, Debug, PartialEq, Eq, Hash)]
pub struct LinearAddress {
    offset: u64,
}

impl View for LinearAddress {
    type V = u64;

    closed spec fn view(&self) -> u64 {
        self.offset
    }
}

impl LinearAddress {
    #[verifier::type_invariant]
    spec fn nonzero(self) -> bool {
        self.offset != 0
    }

    /// Wraps an offset; zero is not an address.
    pub fn new(offset: u64) -> (addr: Option<LinearAddress>)
        ensures
            addr is None <==> offset == 0,
            addr matches Some(a) ==> a@ == offset,
    {
        if offset == 0 {
            None
        } else {
            Some(LinearAddress { offset })
        }
    }

    /// The offset, which is never zero.
    pub fn get(&self) -> (offset: u64)
        ensures
            offset == self@,
            offset != 0,
    {
        proof {
            use_type_invariant(self);
        }
        self.offset
    }
}

} // verus!

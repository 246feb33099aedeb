//! Physical addresses.
use vstd::prelude::*;

verus! {

/// A physical address.
#[derive(Clone, Copy, PartialEq, Eq, Structural, PartialOrd, Ord)]
pub struct PAddr(pub usize);

impl PAddr {
    /// The physical address `addr`.
    pub fn new(addr: usize) -> (r: Self)
        ensures
            r.0 == addr,
    {
        Self(addr)
    }

    /// The address as an integer.
    pub fn addr(self) -> (r: usize)
        ensures
            r == self.0,
    {
        self.0
    }

    /// The address `offset` bytes further.
    pub fn byte_add(self, offset: usize) -> (r: Self)
        requires
            self.0 + offset <= usize::MAX,
        ensures
            r.0 == self.0 + offset,
    {
        Self(self.0 + offset)
    }
}

} // verus!

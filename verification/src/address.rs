//! Asset identifiers.

use vstd::prelude::*;

verus! {

/// Number of bytes in an address.
pub const ADDRESS_LENGTH: usize = 30;

/// The ledger-wide identifier of an asset: the thirty bytes of its address.
#[derive(Clone, Copy, Debug, PartialEq, Eq)]
pub struct ResourceAddress {
    pub bytes: [u8; 30],
}

impl ResourceAddress {
    /// The address with the given bytes.
    pub fn new(bytes: [u8; 30]) -> (a: ResourceAddress)
        ensures
            a.bytes == bytes,
    {
        ResourceAddress { bytes }
    }

    /// Whether two addresses name the same asset.
    pub fn same(&self, other: &ResourceAddress) -> (b: bool)
        ensures
            b == (*self == *other),
    {
        let mut i: usize = 0;
        while i < ADDRESS_LENGTH
            invariant
                i <= ADDRESS_LENGTH,
                forall|j: int| 0 <= j < i ==> self.bytes[j] == other.bytes[j],
            decreases ADDRESS_LENGTH - i,
        {
            if self.bytes[i] != other.bytes[i] {
                return false;
            }
            i += 1;
        }
        assert(self.bytes =~= other.bytes);
        true
    }
}

} // verus!

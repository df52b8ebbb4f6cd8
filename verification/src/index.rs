//! The key abstraction of the key-reusing table.

use vstd::prelude::*;

verus! {

/// A key type for a `Stash`: a lossless encoding of slot offsets.
pub trait Index: Sized {
    /// Whether `idx` can be encoded in this key type.
    spec fn representable(idx: usize) -> bool;

    /// The slot offset that this key encodes.
    spec fn offset(self) -> usize;

    /// Encodes the slot offset `idx`.
    fn from_usize(idx: usize) -> (key: Self)
        requires
            Self::representable(idx),
        ensures
            key.offset() == idx,
    ;

    /// Decodes the slot offset.
    fn into_usize(self) -> (idx: usize)
        ensures
            idx == self.offset(),
    ;
}

impl Index for usize {
    open spec fn representable(idx: usize) -> bool {
        true
    }

    open spec fn offset(self) -> usize {
        self
    }

    fn from_usize(idx: usize) -> (key: Self) {
        idx
    }

    fn into_usize(self) -> (idx: usize) {
        self
    }
}

} // verus!

//! Contracts for the operations of `Vec` and `String` that the library calls
//! and for which vstd has none. They are believed, not proved.

use std::collections::VecDeque;
use vstd::prelude::*;

verus! {

/// `Vec::capacity`: the number of elements that the vector can hold without
/// reallocating. How much the allocator gave is not ours to say; the
/// contract claims only what the documentation of `Vec` guarantees of every
/// vector, that the capacity is at least the length.
#[verifier::external_body]
pub(crate) fn capacity<T>(vec: &Vec<T>) -> (cap: usize)
    ensures
        cap >= vec@.len(),
{
    vec.capacity()
}

/// `Vec::reserve_exact`: makes room for at least `additional` more elements.
/// The contract claims that the elements stay as they are. The call panics
/// where the new capacity overflows, which `requires` leaves out; what the
/// allocator can give is outside the model, as in vstd's contract of
/// `Vec::reserve`.
#[verifier::external_body]
pub(crate) fn reserve_exact<T>(vec: &mut Vec<T>, additional: usize)
    requires
        old(vec)@.len() + additional <= usize::MAX,
    ensures
        final(vec)@ == old(vec)@,
{
    vec.reserve_exact(additional)
}

/// `String::from_utf8`: the string whose bytes are `bytes`. Bytes below 128
/// are ASCII, which is valid UTF-8, so the conversion does not fail on what
/// `requires` admits; the contract claims that the string then encodes to
/// the very bytes given.
#[verifier::external_body]
pub(crate) fn string_from_ascii(bytes: Vec<u8>) -> (s: String)
    requires
        forall|i: int| 0 <= i < bytes@.len() ==> bytes@[i] < 128,
    ensures
        vstd::utf8::encode_utf8(s@) == bytes@,
{
    match String::from_utf8(bytes) {
        Ok(s) => s,
        Err(_) => String::new(),
    }
}

/// `VecDeque::from` of a `Vec`: a queue of the same elements in the same
/// order, the first of the vector at the front.
#[verifier::external_body]
pub(crate) fn deque_from_vec<T>(vec: Vec<T>) -> (deque: VecDeque<T>)
    ensures
        deque@ == vec@,
{
    VecDeque::from(vec)
}

} // verus!

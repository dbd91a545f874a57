//! The inline byte vector that holds each symbol's expansion.
use smallvec::SmallVec;
use vstd::prelude::*;

verus! {

/// A byte string kept inline when it is short, in a `SmallVec`.
#[verifier::external_body]
pub struct SmallBytes {
    inner: SmallVec<[u8; 4]>,
}

/// The bytes that a `SmallBytes` holds, in order.
pub uninterp spec fn small_bytes(v: SmallBytes) -> Seq<u8>;

/// Relies on `SmallVec::from_vec`: the small vector holds the vector's items, in order.
#[verifier::external_body]
pub(crate) fn small_from_vec(v: Vec<u8>) -> (r: SmallBytes)
    ensures
        small_bytes(r) == v@,
{
    SmallBytes { inner: SmallVec::from_vec(v) }
}

/// Relies on `SmallVec::as_slice`: the slice of all items, in order.
#[verifier::external_body]
pub(crate) fn small_as_slice(v: &SmallBytes) -> (r: &[u8])
    ensures
        r@ == small_bytes(*v),
{
    v.inner.as_slice()
}

} // verus!

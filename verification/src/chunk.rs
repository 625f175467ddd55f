//! The byte buffers that segments are made of: `axum::body::Bytes`.

use vstd::prelude::*;

verus! {

/// `axum::body::Bytes` (the `bytes` crate's `Bytes`), carried through the
/// library as an opaque value.
#[verifier::external_type_specification]
#[verifier::external_body]
pub struct ExBytes(axum::body::Bytes);

/// The bytes that a `Bytes` buffer holds, in order.
pub uninterp spec fn bytes_contents(b: axum::body::Bytes) -> Seq<u8>;

/// Calls `<Bytes as Clone>::clone`. The clone is a new handle on the same
/// storage, so it holds the same bytes as the original.
#[verifier::external_body]
pub(crate) fn bytes_clone(b: &axum::body::Bytes) -> (r: axum::body::Bytes)
    ensures
        bytes_contents(r) == bytes_contents(*b),
{
    b.clone()
}

} // verus!

//! Bulk payloads.
//!
//! Stored values and bulk frame payloads are held as `bytes::Bytes`, a
//! reference-counted byte buffer whose clones are cheap and share contents.
//! Verus sees the type as opaque; `bytes_view` names the byte sequence a
//! buffer holds, and the small wrappers below state what each call does to
//! that sequence, as the crate's source shows.

use vstd::prelude::*;

verus! {

#[verifier::external_type_specification]
#[verifier::external_body]
pub struct ExBytes(bytes::Bytes);

/// The byte sequence a `bytes::Bytes` buffer holds.
pub uninterp spec fn bytes_view(b: bytes::Bytes) -> Seq<u8>;

/// Relies on `<Bytes as From<Vec<u8>>>::from`: the buffer takes over the
/// vector's contents unchanged.
#[verifier::external_body]
pub fn bytes_from_vec(v: Vec<u8>) -> (b: bytes::Bytes)
    ensures
        bytes_view(b) == v@,
{
    bytes::Bytes::from(v)
}

/// Relies on `Bytes::copy_from_slice`: the new buffer holds a copy of the
/// slice.
#[verifier::external_body]
pub fn bytes_copy_from_slice(s: &[u8]) -> (b: bytes::Bytes)
    ensures
        bytes_view(b) == s@,
{
    bytes::Bytes::copy_from_slice(s)
}

/// Relies on `Bytes::len`: the stored length of the buffer.
#[verifier::external_body]
pub fn bytes_len(b: &bytes::Bytes) -> (n: usize)
    ensures
        n == bytes_view(*b).len(),
{
    b.len()
}

/// Relies on `<Bytes as Clone>::clone`: a clone is a new handle to the same
/// contents.
#[verifier::external_body]
pub fn bytes_clone(b: &bytes::Bytes) -> (r: bytes::Bytes)
    ensures
        bytes_view(r) == bytes_view(*b),
{
    b.clone()
}

/// Relies on `<Bytes as Deref>::deref`: the slice of the buffer's contents.
#[verifier::external_body]
pub fn bytes_as_slice(b: &bytes::Bytes) -> (s: &[u8])
    ensures
        s@ == bytes_view(*b),
{
    &b[..]
}

} // verus!

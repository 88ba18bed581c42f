//! The immutable byte buffer of the `bytes` crate, as the store uses it for
//! keys and values that it hands out.

use vstd::prelude::*;

verus! {

#[verifier::external_type_specification]
#[verifier::external_body]
pub struct ExBytes(bytes::Bytes);

/// The bytes that a `bytes::Bytes` buffer holds.
pub uninterp spec fn bytes_view(b: bytes::Bytes) -> Seq<u8>;

/// `bytes::Bytes::copy_from_slice`: a new buffer that holds a copy of `data`.
#[verifier::external_body]
pub(crate) fn bytes_copy_from_slice(data: &[u8]) -> (b: bytes::Bytes)
    ensures
        bytes_view(b) == data@,
{
    bytes::Bytes::copy_from_slice(data)
}

/// `<bytes::Bytes as From<Vec<u8>>>::from`: a buffer that takes over the
/// bytes of `v`.
#[verifier::external_body]
pub(crate) fn bytes_from_vec(v: Vec<u8>) -> (b: bytes::Bytes)
    ensures
        bytes_view(b) == v@,
{
    bytes::Bytes::from(v)
}

/// `<bytes::Bytes as AsRef<[u8]>>::as_ref`: the buffer's bytes as a slice.
#[verifier::external_body]
pub(crate) fn bytes_as_slice(b: &bytes::Bytes) -> (s: &[u8])
    ensures
        s@ == bytes_view(*b),
{
    b.as_ref()
}

/// `<bytes::Bytes as Clone>::clone`: a second handle on the same bytes.
#[verifier::external_body]
pub(crate) fn bytes_clone(b: &bytes::Bytes) -> (c: bytes::Bytes)
    ensures
        bytes_view(c) == bytes_view(*b),
{
    b.clone()
}

} // verus!

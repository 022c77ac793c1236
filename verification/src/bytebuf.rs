//! The byte buffers handed back across the public API are `bytes::BytesMut`
//! values; their contents are named here so that contracts can speak of
//! them.

use vstd::prelude::*;

verus! {

/// Declares `bytes::BytesMut` to the verifier as an opaque byte buffer.
#[verifier::external_type_specification]
#[verifier::external_body]
pub struct ExBytesMut(bytes::BytesMut);

/// The bytes a `BytesMut` buffer holds.
pub uninterp spec fn bytes_mut_view(b: bytes::BytesMut) -> Seq<u8>;

/// Relies on `bytes::BytesMut::from(&[u8])`: the new buffer holds a copy of
/// the slice's bytes.
#[verifier::external_body]
pub fn bytes_mut_from_vec(v: &Vec<u8>) -> (r: bytes::BytesMut)
    ensures
        bytes_mut_view(r) == v@,
{
    bytes::BytesMut::from(&v[..])
}

} // verus!

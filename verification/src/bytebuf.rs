//! The output byte buffer: `bytes::BytesMut`, behind trusted wrappers whose
//! contracts state what the crate's source shows about its contents.
use vstd::prelude::*;

verus! {

#[verifier::external_type_specification]
#[verifier::external_body]
pub struct ExBytesMut(bytes::BytesMut);

/// The bytes the buffer holds, in order.
pub uninterp spec fn buffer_bytes(b: bytes::BytesMut) -> Seq<u8>;

/// Relies on `bytes::BytesMut::new`: a fresh buffer holds no bytes.
#[verifier::external_body]
pub(crate) fn buffer_new() -> (b: bytes::BytesMut)
    ensures
        buffer_bytes(b) == Seq::<u8>::empty(),
{
    bytes::BytesMut::new()
}

/// Relies on `bytes::BytesMut::extend_from_slice`: appends the slice's bytes
/// at the end of the buffer.
#[verifier::external_body]
pub(crate) fn buffer_extend(b: &mut bytes::BytesMut, s: &[u8])
    ensures
        buffer_bytes(*final(b)) == buffer_bytes(*old(b)) + s@,
{
    b.extend_from_slice(s)
}

/// Relies on `bytes::BytesMut`'s `AsRef<[u8]>` impl: the buffer's bytes, in
/// order, copied out into a vector.
#[verifier::external_body]
pub(crate) fn buffer_to_vec(b: &bytes::BytesMut) -> (r: Vec<u8>)
    ensures
        r@ == buffer_bytes(*b),
{
    b.as_ref().to_vec()
}

} // verus!

//! The byte buffer that frames are read from and written into.
use vstd::prelude::*;

verus! {

#[verifier::external_type_specification]
#[verifier::external_body]
pub struct ExBytesMut(bytes::BytesMut);

/// The bytes that a buffer currently holds, front first.
pub uninterp spec fn buf_bytes(b: bytes::BytesMut) -> Seq<u8>;

/// Relies on `BytesMut::as_ref`: a view of exactly the bytes held.
#[verifier::external_body]
pub fn buffer_slice<'a>(b: &'a bytes::BytesMut) -> (r: &'a [u8])
    ensures
        r@ == buf_bytes(*b),
{
    b.as_ref()
}

/// Relies on `BytesMut::extend_from_slice`: the slice is appended at the back.
#[verifier::external_body]
pub fn buffer_put(b: &mut bytes::BytesMut, s: &[u8])
    ensures
        buf_bytes(*final(b)) == buf_bytes(*old(b)) + s@,
{
    b.extend_from_slice(s)
}

/// Relies on `Buf::advance` for `BytesMut`: the first `n` bytes are dropped
/// (it panics when `n` exceeds what is held).
#[verifier::external_body]
pub fn buffer_advance(b: &mut bytes::BytesMut, n: usize)
    requires
        n <= buf_bytes(*old(b)).len(),
    ensures
        buf_bytes(*final(b)) == buf_bytes(*old(b)).skip(n as int),
{
    bytes::Buf::advance(b, n)
}

} // verus!

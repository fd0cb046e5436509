//! The growable byte buffer that both decoders read from.

use bytes::Buf;
use bytes::BytesMut;
use vstd::prelude::*;

verus! {

#[verifier::external_type_specification]
#[verifier::external_body]
pub struct ExBytesMut(BytesMut);

/// The bytes that a buffer currently holds, front first.
pub uninterp spec fn buf_contents(b: BytesMut) -> Seq<u8>;

/// Relies on `BytesMut::from(&[u8])`: a new buffer holding a copy of the slice.
#[verifier::external_body]
pub(crate) fn buf_from_slice(s: &[u8]) -> (r: BytesMut)
    ensures
        buf_contents(r) == s@,
{
    BytesMut::from(s)
}

/// Relies on `BytesMut::len`: the number of bytes held.
#[verifier::external_body]
pub(crate) fn buf_len(b: &BytesMut) -> (r: usize)
    ensures
        r as int == buf_contents(*b).len(),
{
    b.len()
}

/// Relies on `BytesMut`'s `Deref` to `[u8]`: the byte at position `i`.
#[verifier::external_body]
pub(crate) fn buf_byte(b: &BytesMut, i: usize) -> (r: u8)
    requires
        i < buf_contents(*b).len(),
    ensures
        r == buf_contents(*b)[i as int],
{
    b[i]
}

/// Relies on `Buf::advance` for `BytesMut`: drops the first `n` bytes
/// (it panics when `n` exceeds the length, which `requires` rules out).
#[verifier::external_body]
pub(crate) fn buf_advance(b: &mut BytesMut, n: usize)
    requires
        n <= buf_contents(*old(b)).len(),
    ensures
        buf_contents(*final(b)) == buf_contents(*old(b)).subrange(n as int, buf_contents(*old(b)).len() as int),
{
    b.advance(n)
}

} // verus!

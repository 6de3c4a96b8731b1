//! The byte buffer of the `bytes` crate, as the decoder and the encoder see it.

use bytes::Buf;
use bytes::BufMut;
use bytes::BytesMut;
use vstd::prelude::*;

verus! {

/// `bytes::BytesMut`: the growable byte buffer. Nothing is known of its inside.
#[verifier::external_type_specification]
#[verifier::external_body]
pub struct ExBytesMut(bytes::BytesMut);

/// The bytes that a buffer holds, in order, the next to be read first.
pub uninterp spec fn buffer_bytes(buf: &BytesMut) -> Seq<u8>;

/// `BytesMut::new`: a buffer that holds nothing.
#[verifier::external_body]
pub(crate) fn buffer_new() -> (buf: BytesMut)
    ensures
        buffer_bytes(&buf) == Seq::<u8>::empty(),
{
    BytesMut::new()
}

/// `BytesMut::len`: how many bytes the buffer holds.
#[verifier::external_body]
pub(crate) fn buffer_len(buf: &BytesMut) -> (n: usize)
    ensures
        n == buffer_bytes(buf).len(),
{
    buf.len()
}

/// `BytesMut` seen as a slice (its `Deref`): exactly the bytes it holds.
#[verifier::external_body]
pub(crate) fn buffer_slice(buf: &BytesMut) -> (s: &[u8])
    ensures
        s@ == buffer_bytes(buf),
{
    &buf[..]
}

/// `Buf::advance` on `BytesMut`: drops the first `count` bytes and keeps the
/// rest. It panics when `count` is more than the buffer holds, which the
/// precondition rules out.
#[verifier::external_body]
pub(crate) fn buffer_advance(buf: &mut BytesMut, count: usize)
    requires
        count <= buffer_bytes(old(buf)).len(),
    ensures
        buffer_bytes(final(buf)) == buffer_bytes(old(buf)).skip(count as int),
{
    buf.advance(count)
}

/// `BufMut::put_slice` on `BytesMut`: appends `data` after what is held.
/// The buffer grows as needed; growth fails only where the allocator does,
/// since `data` and the buffer already lie side by side in memory.
#[verifier::external_body]
pub(crate) fn buffer_put(buf: &mut BytesMut, data: &[u8])
    ensures
        buffer_bytes(final(buf)) == buffer_bytes(old(buf)) + data@,
{
    buf.put_slice(data)
}

/// `BufMut::put_u8` on `BytesMut`: appends one byte.
#[verifier::external_body]
pub(crate) fn buffer_put_byte(buf: &mut BytesMut, byte: u8)
    ensures
        buffer_bytes(final(buf)) == buffer_bytes(old(buf)).push(byte),
{
    buf.put_u8(byte)
}

} // verus!

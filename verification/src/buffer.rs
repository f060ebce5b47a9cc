//! The byte buffers of the `bytes` crate, as the packet codecs see them.
//!
//! `Bytes` and `BytesMut` are opaque here; what each holds is named by
//! `bytes_view` and `bytes_mut_view`, and every method the codecs call is
//! wrapped below with a contract over those names.
use vstd::prelude::*;
use bytes::{Buf, BufMut, Bytes, BytesMut};

verus! {

#[verifier::external_type_specification]
#[verifier::external_body]
pub struct ExBytes(Bytes);

#[verifier::external_type_specification]
#[verifier::external_body]
pub struct ExBytesMut(BytesMut);

/// The sequence of bytes that a `Bytes` handle refers to.
pub uninterp spec fn bytes_view(b: Bytes) -> Seq<u8>;

/// The sequence of bytes written into a `BytesMut` buffer (its length, not its capacity).
pub uninterp spec fn bytes_mut_view(b: BytesMut) -> Seq<u8>;

/// The two bytes of `v` in network (big-endian) order.
pub open spec fn be16(v: u16) -> Seq<u8> {
    seq![(v / 256) as u8, (v % 256) as u8]
}

/// The number that two bytes in network order denote.
pub open spec fn be16_value(hi: u8, lo: u8) -> u16 {
    (hi as nat * 256 + lo as nat) as u16
}

/// `Bytes::new`: an empty handle.
#[verifier::external_body]
pub(crate) fn bytes_empty() -> (r: Bytes)
    ensures
        bytes_view(r) == Seq::<u8>::empty(),
{
    Bytes::new()
}

/// `Bytes::copy_from_slice`: a handle on a copy of `data`.
#[verifier::external_body]
pub(crate) fn bytes_copy(data: &[u8]) -> (r: Bytes)
    ensures
        bytes_view(r) == data@,
{
    Bytes::copy_from_slice(data)
}

/// `<Bytes as Deref>::deref`: the bytes as a slice.
#[verifier::external_body]
pub(crate) fn bytes_as_slice(b: &Bytes) -> (r: &[u8])
    ensures
        r@ == bytes_view(*b),
{
    b
}

/// `Bytes::slice`: a handle on the bytes from `start` up to `end`; the crate
/// panics unless `start <= end <= len`.
#[verifier::external_body]
pub(crate) fn bytes_slice(b: &Bytes, start: usize, end: usize) -> (r: Bytes)
    requires
        start <= end <= bytes_view(*b).len(),
    ensures
        bytes_view(r) == bytes_view(*b).subrange(start as int, end as int),
{
    b.slice(start..end)
}

/// `<Bytes as Clone>::clone`: another handle on the same bytes.
#[verifier::external_body]
pub(crate) fn bytes_clone(b: &Bytes) -> (r: Bytes)
    ensures
        bytes_view(r) == bytes_view(*b),
{
    b.clone()
}

/// `BytesMut::new`: an empty buffer.
#[verifier::external_body]
pub(crate) fn bytes_mut_new() -> (r: BytesMut)
    ensures
        bytes_mut_view(r) == Seq::<u8>::empty(),
{
    BytesMut::new()
}

/// `BytesMut::with_capacity`: an empty buffer with room reserved; the
/// allocation panics on a capacity above `isize::MAX`.
#[verifier::external_body]
pub(crate) fn bytes_mut_with_capacity(capacity: usize) -> (r: BytesMut)
    requires
        capacity <= isize::MAX,
    ensures
        bytes_mut_view(r) == Seq::<u8>::empty(),
{
    BytesMut::with_capacity(capacity)
}

/// `<BytesMut as Deref>::deref`: the written bytes as a slice.
#[verifier::external_body]
pub(crate) fn bytes_mut_as_slice(b: &BytesMut) -> (r: &[u8])
    ensures
        r@ == bytes_mut_view(*b),
{
    b
}

/// `<BytesMut as BufMut>::put_u8`: appends one byte. The buffer cannot grow
/// past `isize::MAX` bytes (the crate panics there).
#[verifier::external_body]
pub(crate) fn put_u8(buf: &mut BytesMut, v: u8)
    requires
        bytes_mut_view(*old(buf)).len() + 1 <= isize::MAX,
    ensures
        bytes_mut_view(*final(buf)) == bytes_mut_view(*old(buf)).push(v),
{
    buf.put_u8(v)
}

/// `<BytesMut as BufMut>::put_u16`: appends `v` in big-endian order.
#[verifier::external_body]
pub(crate) fn put_u16(buf: &mut BytesMut, v: u16)
    requires
        bytes_mut_view(*old(buf)).len() + 2 <= isize::MAX,
    ensures
        bytes_mut_view(*final(buf)) == bytes_mut_view(*old(buf)) + be16(v),
{
    buf.put_u16(v)
}

/// `<BytesMut as BufMut>::put_slice`: appends the bytes of `data`.
#[verifier::external_body]
pub(crate) fn put_slice(buf: &mut BytesMut, data: &[u8])
    requires
        bytes_mut_view(*old(buf)).len() + data@.len() <= isize::MAX,
    ensures
        bytes_mut_view(*final(buf)) == bytes_mut_view(*old(buf)) + data@,
{
    buf.put_slice(data)
}

/// `BytesMut::freeze`: the written bytes as an immutable handle.
#[verifier::external_body]
pub(crate) fn freeze(b: BytesMut) -> (r: Bytes)
    ensures
        bytes_view(r) == bytes_mut_view(b),
{
    b.freeze()
}

/// `BytesMut::split_to`: removes the first `at` bytes and returns them; the
/// crate panics when `at` exceeds the length.
#[verifier::external_body]
pub(crate) fn split_to(buf: &mut BytesMut, at: usize) -> (r: BytesMut)
    requires
        at <= bytes_mut_view(*old(buf)).len(),
    ensures
        bytes_mut_view(r) == bytes_mut_view(*old(buf)).take(at as int),
        bytes_mut_view(*final(buf)) == bytes_mut_view(*old(buf)).skip(at as int),
{
    buf.split_to(at)
}

/// `<&[u8] as Buf>::advance`: drops the first `n` bytes of the cursor; the
/// crate panics when fewer remain.
#[verifier::external_body]
pub(crate) fn advance(buf: &mut &[u8], n: usize)
    requires
        n <= old(buf)@.len(),
    ensures
        final(buf)@ == old(buf)@.skip(n as int),
{
    Buf::advance(buf, n)
}

/// `<&[u8] as Buf>::get_u8`: reads one byte and moves past it; the crate
/// panics on an empty cursor.
#[verifier::external_body]
pub(crate) fn get_u8(buf: &mut &[u8]) -> (r: u8)
    requires
        old(buf)@.len() >= 1,
    ensures
        r == old(buf)@[0],
        final(buf)@ == old(buf)@.skip(1),
{
    Buf::get_u8(buf)
}

/// `<&[u8] as Buf>::get_u16`: reads two bytes in big-endian order and moves
/// past them; the crate panics when fewer than two remain.
#[verifier::external_body]
pub(crate) fn get_u16(buf: &mut &[u8]) -> (r: u16)
    requires
        old(buf)@.len() >= 2,
    ensures
        r == be16_value(old(buf)@[0], old(buf)@[1]),
        final(buf)@ == old(buf)@.skip(2),
{
    Buf::get_u16(buf)
}

} // verus!

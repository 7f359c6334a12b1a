//! Byte buffers of the `bytes` crate, seen through their contents, and the
//! big-endian integer reads that the framing uses.

use bytes::{Bytes, BytesMut};
use vstd::prelude::*;

verus! {

#[verifier::external_type_specification]
#[verifier::external_body]
pub struct ExBytesMut(BytesMut);

#[verifier::external_type_specification]
#[verifier::external_body]
pub struct ExBytes(Bytes);

/// The bytes that a growable buffer holds, in order.
pub uninterp spec fn buf_contents(b: BytesMut) -> Seq<u8>;

/// The bytes that a frozen buffer holds, in order.
pub uninterp spec fn bytes_contents(b: Bytes) -> Seq<u8>;

/// Relies on `BytesMut::len`: the number of bytes held.
#[verifier::external_body]
pub(crate) fn buf_len(b: &BytesMut) -> (r: usize)
    ensures
        r == buf_contents(*b).len(),
{
    b.len()
}

/// Relies on indexing a `BytesMut` through its `Deref` to `[u8]`.
#[verifier::external_body]
pub(crate) fn buf_byte(b: &BytesMut, i: usize) -> (r: u8)
    requires
        i < buf_contents(*b).len(),
    ensures
        r == buf_contents(*b)[i as int],
{
    b[i]
}

/// Relies on `BytesMut::split_to`: the first `at` bytes are returned and the
/// rest stay behind. It panics when `at` exceeds the length.
#[verifier::external_body]
pub(crate) fn buf_split_to(b: &mut BytesMut, at: usize) -> (r: BytesMut)
    requires
        at <= buf_contents(*old(b)).len(),
    ensures
        buf_contents(r) == buf_contents(*old(b)).take(at as int),
        buf_contents(*final(b)) == buf_contents(*old(b)).skip(at as int),
{
    b.split_to(at)
}

/// Relies on `BytesMut::freeze`: the same bytes, now immutable.
#[verifier::external_body]
pub(crate) fn buf_freeze(b: BytesMut) -> (r: Bytes)
    ensures
        bytes_contents(r) == buf_contents(b),
{
    b.freeze()
}

/// Relies on `[u8]::to_vec`, reached through `BytesMut`'s `Deref`: a copy of
/// the bytes.
#[verifier::external_body]
pub(crate) fn buf_to_vec(b: &BytesMut) -> (r: Vec<u8>)
    ensures
        r@ == buf_contents(*b),
{
    b.to_vec()
}

/// The big-endian unsigned value of the first four bytes of `s`.
pub open spec fn be_u32(s: Seq<u8>) -> int {
    s[0] as int * 16777216 + s[1] as int * 65536 + s[2] as int * 256 + s[3] as int
}

/// The big-endian two's-complement value of the first four bytes of `s`.
pub open spec fn be_i32(s: Seq<u8>) -> int {
    if be_u32(s) >= 0x8000_0000 {
        be_u32(s) - 0x1_0000_0000
    } else {
        be_u32(s)
    }
}

/// The number of bytes that `b` holds.
pub fn buffer_len(b: &BytesMut) -> (r: usize)
    ensures
        r == buf_contents(*b).len(),
{
    buf_len(b)
}

/// Reads the first four bytes of `b` as a big-endian `u32`, consuming nothing.
pub fn peek_u32_be(b: &BytesMut) -> (r: u32)
    requires
        buf_contents(*b).len() >= 4,
    ensures
        r == be_u32(buf_contents(*b)),
{
    let b0 = buf_byte(b, 0) as u32;
    let b1 = buf_byte(b, 1) as u32;
    let b2 = buf_byte(b, 2) as u32;
    let b3 = buf_byte(b, 3) as u32;
    b0 * 16777216 + b1 * 65536 + b2 * 256 + b3
}

/// Reads the first four bytes of `b` as a big-endian `i32`, consuming nothing.
pub fn peek_i32_be(b: &BytesMut) -> (r: i32)
    requires
        buf_contents(*b).len() >= 4,
    ensures
        r == be_i32(buf_contents(*b)),
{
    let u = peek_u32_be(b);
    if u >= 0x8000_0000 {
        (u as i64 - 0x1_0000_0000i64) as i32
    } else {
        u as i32
    }
}

/// Consumes the first four bytes of `b` and returns them as a big-endian `i32`.
pub fn drain_i32_be(b: &mut BytesMut) -> (r: i32)
    requires
        buf_contents(*old(b)).len() >= 4,
    ensures
        r == be_i32(buf_contents(*old(b))),
        buf_contents(*final(b)) == buf_contents(*old(b)).skip(4),
{
    let r = peek_i32_be(b);
    let _ = buf_split_to(b, 4);
    r
}

} // verus!

//! The byte buffer that every operation works on: `bytes::BytesMut`, with its
//! contents modelled as a sequence of bytes.

use bytes::BytesMut;
use vstd::prelude::*;

verus! {

#[verifier::external_type_specification]
#[verifier::external_body]
pub struct ExBytesMut(bytes::BytesMut);

/// The bytes a buffer holds, in order.
pub uninterp spec fn bytes_of(b: BytesMut) -> Seq<u8>;

/// `n` copies of the byte `v`.
pub open spec fn repeat_byte(v: u8, n: nat) -> Seq<u8> {
    Seq::new(n, |_i: int| v)
}

/// `s` resized to `n` bytes: cut, or grown with copies of `v`.
pub open spec fn resized(s: Seq<u8>, n: nat, v: u8) -> Seq<u8> {
    if n <= s.len() {
        s.take(n as int)
    } else {
        s + repeat_byte(v, (n - s.len()) as nat)
    }
}

/// Relies on `BytesMut::new`: a new buffer is empty.
#[verifier::external_body]
pub(crate) fn buf_new() -> (r: BytesMut)
    ensures
        bytes_of(r) == Seq::<u8>::empty(),
{
    BytesMut::new()
}

/// Relies on `BytesMut::from(Vec<u8>)`: the buffer holds the vector's bytes.
#[verifier::external_body]
pub(crate) fn buf_from_vec(v: Vec<u8>) -> (r: BytesMut)
    ensures
        bytes_of(r) == v@,
{
    BytesMut::from(v)
}

/// Relies on `BytesMut::len`: the number of bytes held.
#[verifier::external_body]
pub(crate) fn buf_len(b: &BytesMut) -> (r: usize)
    ensures
        r == bytes_of(*b).len(),
{
    b.len()
}

/// Relies on `BytesMut`'s `Deref` to `[u8]`: a view of the bytes held.
#[verifier::external_body]
pub(crate) fn buf_slice(b: &BytesMut) -> (r: &[u8])
    ensures
        r@ == bytes_of(*b),
{
    &b[..]
}

/// Relies on `BytesMut::resize`: cuts to `n` bytes, or appends copies of `v`
/// up to `n` bytes.
#[verifier::external_body]
pub(crate) fn buf_resize(b: &mut BytesMut, n: usize, v: u8)
    ensures
        bytes_of(*final(b)) == resized(bytes_of(*old(b)), n as nat, v),
{
    b.resize(n, v)
}

/// Relies on `BytesMut::extend_from_slice`: appends the slice's bytes.
#[verifier::external_body]
pub(crate) fn buf_extend(b: &mut BytesMut, s: &[u8])
    ensures
        bytes_of(*final(b)) == bytes_of(*old(b)) + s@,
{
    b.extend_from_slice(s)
}

/// Relies on `BytesMut::split_off`: keeps `[0, at)` and returns `[at, len)`.
/// It panics only past the capacity, which is at least the length.
#[verifier::external_body]
pub(crate) fn buf_split_off(b: &mut BytesMut, at: usize) -> (r: BytesMut)
    requires
        at <= bytes_of(*old(b)).len(),
    ensures
        bytes_of(*final(b)) == bytes_of(*old(b)).take(at as int),
        bytes_of(r) == bytes_of(*old(b)).skip(at as int),
{
    b.split_off(at)
}

/// Relies on `BytesMut::split_to`: returns `[0, at)` and keeps `[at, len)`.
#[verifier::external_body]
pub(crate) fn buf_split_to(b: &mut BytesMut, at: usize) -> (r: BytesMut)
    requires
        at <= bytes_of(*old(b)).len(),
    ensures
        bytes_of(r) == bytes_of(*old(b)).take(at as int),
        bytes_of(*final(b)) == bytes_of(*old(b)).skip(at as int),
{
    b.split_to(at)
}

/// Relies on `BytesMut::truncate`: keeps the first `n` bytes, and does
/// nothing when there are no more than `n`.
#[verifier::external_body]
pub(crate) fn buf_truncate(b: &mut BytesMut, n: usize)
    ensures
        bytes_of(*final(b)) == if n < bytes_of(*old(b)).len() {
            bytes_of(*old(b)).take(n as int)
        } else {
            bytes_of(*old(b))
        },
{
    b.truncate(n)
}

} // verus!

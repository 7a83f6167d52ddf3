//! The byte buffers that packets arrive in and leave in.
//!
//! `bytes::Bytes` and `bytes::BytesMut` are opaque here. What they
//! hold is named by `bytes_seq` and `bytes_mut_seq`, and the functions below
//! state, without proof, what each buffer operation does to those contents.
use vstd::prelude::*;
use bytes::{Buf, Bytes, BytesMut};

verus! {

/// `bytes::Bytes`, which is opaque here: only its name is known.
#[verifier::external_type_specification]
#[verifier::external_body]
pub struct ExBytes(bytes::Bytes);

/// `bytes::BytesMut`, which is opaque here: only its name is known.
#[verifier::external_type_specification]
#[verifier::external_body]
pub struct ExBytesMut(bytes::BytesMut);

/// The bytes that a `Bytes` buffer holds, from its cursor to its end.
pub uninterp spec fn bytes_seq(b: Bytes) -> Seq<u8>;

/// The bytes that a `BytesMut` buffer holds, from its cursor to its end.
pub uninterp spec fn bytes_mut_seq(b: BytesMut) -> Seq<u8>;

/// `Clone::clone` of `Bytes`: another handle to the same contents.
pub assume_specification[ <Bytes as Clone>::clone ](b: &Bytes) -> (copy: Bytes)
    ensures
        bytes_seq(copy) == bytes_seq(*b),
;

/// `Bytes::from(Vec<u8>)`: a buffer that holds exactly the vector's bytes.
#[verifier::external_body]
pub(crate) fn bytes_from_vec(data: Vec<u8>) -> (b: Bytes)
    ensures
        bytes_seq(b) == data@,
{
    Bytes::from(data)
}

/// `Bytes::as_ref`: the contents as a slice.
#[verifier::external_body]
pub(crate) fn bytes_as_slice(b: &Bytes) -> (s: &[u8])
    ensures
        s@ == bytes_seq(*b),
{
    b.as_ref()
}

/// `Bytes::slice` on the range `begin..end`: a buffer over that part of the
/// contents. The call panics unless `begin <= end <= len`.
#[verifier::external_body]
pub(crate) fn bytes_slice(b: &Bytes, begin: usize, end: usize) -> (part: Bytes)
    requires
        begin <= end <= bytes_seq(*b).len(),
    ensures
        bytes_seq(part) == bytes_seq(*b).subrange(begin as int, end as int),
{
    b.slice(begin..end)
}

/// `Buf::advance` of `Bytes`: drops the first `count` bytes. The call panics
/// if `count` exceeds the length.
#[verifier::external_body]
pub(crate) fn bytes_advance(b: &mut Bytes, count: usize)
    requires
        count <= bytes_seq(*old(b)).len(),
    ensures
        bytes_seq(*final(b)) == bytes_seq(*old(b)).skip(count as int),
{
    b.advance(count)
}

/// `BytesMut::as_ref`: the contents as a slice.
#[verifier::external_body]
pub(crate) fn bytes_mut_as_slice(b: &BytesMut) -> (s: &[u8])
    ensures
        s@ == bytes_mut_seq(*b),
{
    b.as_ref()
}

/// `BytesMut::split_to`: removes the first `at` bytes from the buffer and
/// returns them. The call panics if `at` exceeds the length.
#[verifier::external_body]
pub(crate) fn bytes_mut_split_to(b: &mut BytesMut, at: usize) -> (head: BytesMut)
    requires
        at <= bytes_mut_seq(*old(b)).len(),
    ensures
        bytes_mut_seq(head) == bytes_mut_seq(*old(b)).take(at as int),
        bytes_mut_seq(*final(b)) == bytes_mut_seq(*old(b)).skip(at as int),
{
    b.split_to(at)
}

/// `BytesMut::freeze`: the same contents, immutable.
#[verifier::external_body]
pub(crate) fn bytes_mut_freeze(b: BytesMut) -> (frozen: Bytes)
    ensures
        bytes_seq(frozen) == bytes_mut_seq(b),
{
    b.freeze()
}

/// `BytesMut::reserve`: makes room for `additional` more bytes and leaves the
/// contents as they are. Where the buffer has to grow, the call ends in
/// `Vec::reserve`, which panics once the capacity asked for is above
/// `isize::MAX` bytes. The bound on `additional`, 2^28 + 5 bytes, which
/// is the longest frame and one byte more, keeps the request itself
/// small; it is not a bound on what the buffer holds already, and a
/// buffer that has grown to within that distance of `isize::MAX` has run
/// out of memory as far as this contract goes.
#[verifier::external_body]
pub(crate) fn bytes_mut_reserve(b: &mut BytesMut, additional: usize)
    requires
        additional <= 268_435_461,
    ensures
        bytes_mut_seq(*final(b)) == bytes_mut_seq(*old(b)),
{
    b.reserve(additional)
}

} // verus!

//! Byte buffers of the `bytes` crate, as the library sees them.
//!
//! A `Bytes` or a `BytesMut` is opaque to the verifier. What it holds is given
//! a name, and each operation that the library uses is stated over that name.

use bytes::{BufMut, Bytes, BytesMut};
use vstd::prelude::*;

verus! {

/// `bytes::Bytes`: a handle to bytes. Nothing is known of what is inside it
/// but what `contents` names.
#[verifier::external_type_specification]
#[verifier::external_body]
pub struct ExBytes(bytes::Bytes);

/// `bytes::BytesMut`: a buffer that bytes are written to. Nothing is known of
/// what is inside it but what `written` names.
#[verifier::external_type_specification]
#[verifier::external_body]
pub struct ExBytesMut(bytes::BytesMut);

/// The bytes that a `Bytes` handle gives access to, in order.
pub uninterp spec fn contents(b: Bytes) -> Seq<u8>;

/// The bytes written to a `BytesMut` so far, in order.
pub uninterp spec fn written(b: BytesMut) -> Seq<u8>;

/// `Bytes::from(Vec<u8>)`: the handle takes the vector over and holds exactly
/// its elements.
#[verifier::external_body]
pub(crate) fn bytes_from_vec(v: Vec<u8>) -> (b: Bytes)
    ensures
        contents(b) == v@,
{
    Bytes::from(v)
}

/// `AsRef<[u8]>::as_ref` of `Bytes`: the slice that the handle stands for.
#[verifier::external_body]
pub(crate) fn bytes_as_slice(b: &Bytes) -> (s: &[u8])
    ensures
        s@ == contents(*b),
{
    b.as_ref()
}

/// `Clone::clone` of `Bytes`: a second handle to the same bytes.
pub assume_specification[ <Bytes as Clone>::clone ](b: &Bytes) -> (c: Bytes)
    ensures
        contents(c) == contents(*b),
;

/// `Bytes::slice` with the range `begin..end`: a handle to that part of the
/// bytes. The method panics unless `begin <= end <= len`.
#[verifier::external_body]
pub(crate) fn bytes_slice(b: &Bytes, begin: usize, end: usize) -> (s: Bytes)
    requires
        begin <= end <= contents(*b).len(),
    ensures
        contents(s) == contents(*b).subrange(begin as int, end as int),
{
    b.slice(begin..end)
}

/// `BytesMut::new`: an empty buffer.
#[verifier::external_body]
pub(crate) fn bytes_mut_new() -> (b: BytesMut)
    ensures
        written(b) == Seq::<u8>::empty(),
{
    BytesMut::new()
}

/// `BufMut::put_u8` on a `BytesMut`: appends one byte. The buffer grows as
/// needed and panics only when its length would pass `isize::MAX`.
#[verifier::external_body]
pub(crate) fn bytes_mut_put_u8(b: &mut BytesMut, n: u8)
    requires
        written(*old(b)).len() < isize::MAX,
    ensures
        written(*final(b)) == written(*old(b)).push(n),
{
    b.put_u8(n)
}

/// `BufMut::put_slice` on a `BytesMut`: appends the bytes of `src`. The buffer
/// grows as needed and panics only when its length would pass `isize::MAX`.
#[verifier::external_body]
pub(crate) fn bytes_mut_put_slice(b: &mut BytesMut, src: &[u8])
    requires
        written(*old(b)).len() + src@.len() <= isize::MAX,
    ensures
        written(*final(b)) == written(*old(b)) + src@,
{
    b.put_slice(src)
}

/// `BytesMut::freeze`: the buffer becomes an immutable handle to what was
/// written.
#[verifier::external_body]
pub(crate) fn bytes_mut_freeze(b: BytesMut) -> (f: Bytes)
    ensures
        contents(f) == written(b),
{
    b.freeze()
}

} // verus!

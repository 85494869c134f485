//! Trusted declarations for `bytes::Bytes`, the byte buffer that the
//! downloader and the file stream hand around.
use bytes::Buf;
use vstd::prelude::*;

verus! {

/// `bytes::Bytes`; its contents are `bytes_contents`.
#[verifier::external_type_specification]
#[verifier::external_body]
pub struct ExBytes(bytes::Bytes);

/// The bytes a `bytes::Bytes` value holds, from its read position to its end.
pub uninterp spec fn bytes_contents(b: bytes::Bytes) -> Seq<u8>;

/// `<Bytes as Buf>::remaining`: returns `self.len()`, the number
/// of bytes the value still holds.
#[verifier::external_body]
pub(crate) fn bytes_remaining(b: &bytes::Bytes) -> (n: usize)
    ensures
        n == bytes_contents(*b).len(),
{
    b.remaining()
}

/// `<Bytes as Buf>::chunk`: returns `self.as_slice()`, all the
/// bytes the value holds.
#[verifier::external_body]
pub(crate) fn bytes_chunk(b: &bytes::Bytes) -> (s: &[u8])
    ensures
        s@ == bytes_contents(*b),
{
    b.chunk()
}

/// `<Bytes as Buf>::advance`: asserts `cnt <= self.len()` (a panic
/// otherwise) and then drops the first `cnt` bytes.
#[verifier::external_body]
pub(crate) fn bytes_advance(b: &mut bytes::Bytes, cnt: usize)
    requires
        cnt <= bytes_contents(*old(b)).len(),
    ensures
        bytes_contents(*final(b)) == bytes_contents(*old(b)).skip(cnt as int),
{
    b.advance(cnt)
}

/// `Bytes::copy_from_slice`: a new value holding a copy of `data`.
#[verifier::external_body]
pub(crate) fn bytes_copy_from_slice(data: &[u8]) -> (b: bytes::Bytes)
    ensures
        bytes_contents(b) == data@,
{
    bytes::Bytes::copy_from_slice(data)
}

} // verus!

//! Message payloads: the `Bytes` buffers of the `bytes` crate and the
//! variable-length integer sizes of the `octets` crate.

use vstd::prelude::*;

verus! {

#[verifier::external_type_specification]
#[verifier::external_body]
pub struct ExBytes(bytes::Bytes);

/// The bytes that a `Bytes` buffer holds.
pub uninterp spec fn bytes_view(b: bytes::Bytes) -> Seq<u8>;

/// `Bytes::len`: the number of bytes in the buffer, which (as for every
/// Rust slice) is at most `isize::MAX`.
#[verifier::external_body]
pub(crate) fn bytes_len(b: &bytes::Bytes) -> (n: usize)
    ensures
        n == bytes_view(*b).len(),
        n <= isize::MAX,
{
    b.len()
}

/// `Bytes::clone`: another handle on the same bytes.
#[verifier::external_body]
pub(crate) fn bytes_clone(b: &bytes::Bytes) -> (c: bytes::Bytes)
    ensures
        bytes_view(c) == bytes_view(*b),
{
    b.clone()
}

/// `Bytes::slice`: the bytes from `start` up to `end`. `Bytes::slice`
/// panics unless `start <= end <= len`.
#[verifier::external_body]
pub(crate) fn bytes_slice(b: &bytes::Bytes, start: usize, end: usize) -> (s: bytes::Bytes)
    requires
        start <= end <= bytes_view(*b).len(),
    ensures
        bytes_view(s) == bytes_view(*b).subrange(start as int, end as int),
{
    b.slice(start..end)
}

/// `Bytes::from(Vec<u8>)`: a buffer holding the bytes of the vector.
#[verifier::external_body]
pub(crate) fn bytes_from_vec(v: Vec<u8>) -> (b: bytes::Bytes)
    ensures
        bytes_view(b) == v@,
{
    bytes::Bytes::from(v)
}

/// `<[u8]>::to_vec` on the bytes of the buffer (through `Bytes`'s `Deref`).
#[verifier::external_body]
pub(crate) fn bytes_to_vec(b: &bytes::Bytes) -> (v: Vec<u8>)
    ensures
        v@ == bytes_view(*b),
{
    b.to_vec()
}

/// The number of bytes a payload holds, for callers that must show a bound
/// on it before handing it to a channel.
pub fn payload_len(b: &bytes::Bytes) -> (n: usize)
    ensures
        n == bytes_view(*b).len(),
        n <= isize::MAX,
{
    bytes_len(b)
}

/// The largest value that `octets::varint_len` accepts; it panics above.
pub const VARINT_MAX: u64 = 4611686018427387903;

/// How many bytes the variable-length encoding of `v` takes.
pub open spec fn spec_varint_len(v: u64) -> usize {
    if v <= 63 {
        1
    } else if v <= 16383 {
        2
    } else if v <= 1073741823 {
        4
    } else {
        8
    }
}

/// `octets::varint_len`: the length of the variable-length encoding of
/// `v`, 1, 2, 4 or 8 bytes by the size of `v`; it panics above
/// `VARINT_MAX`.
#[verifier::external_body]
pub(crate) fn varint_len(v: u64) -> (n: usize)
    requires
        v <= VARINT_MAX,
    ensures
        n == spec_varint_len(v),
{
    octets::varint_len(v)
}

} // verus!

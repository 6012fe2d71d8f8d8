use vstd::prelude::*;

verus! {

/// `bytes::Bytes`, a shared, cheaply cloned byte buffer, as an opaque type.
#[verifier::external_type_specification]
#[verifier::external_body]
pub struct ExBytes(bytes::Bytes);

/// The bytes that a `bytes::Bytes` holds.
pub uninterp spec fn bytes_content(b: bytes::Bytes) -> Seq<u8>;

/// Relies on `bytes::Bytes::len`: the number of bytes held.
#[verifier::external_body]
pub(crate) fn bytes_len(b: &bytes::Bytes) -> (r: usize)
    ensures
        r == bytes_content(*b).len(),
{
    b.len()
}

/// Relies on `bytes::Bytes::slice` with the range `from..`: the bytes from
/// index `from` on. It panics where `from` exceeds the length.
#[verifier::external_body]
pub(crate) fn bytes_tail(b: &bytes::Bytes, from: usize) -> (r: bytes::Bytes)
    requires
        from <= bytes_content(*b).len(),
    ensures
        bytes_content(r) == bytes_content(*b).subrange(from as int, bytes_content(*b).len() as int),
{
    b.slice(from..)
}

/// Relies on `Clone for bytes::Bytes`: the clone holds the same bytes.
#[verifier::external_body]
pub(crate) fn bytes_clone(b: &bytes::Bytes) -> (r: bytes::Bytes)
    ensures
        bytes_content(r) == bytes_content(*b),
{
    b.clone()
}

} // verus!

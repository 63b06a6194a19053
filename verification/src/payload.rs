//! Reference-counted byte buffers, as the `bytes` crate provides them.
//!
//! Everything that travels between the serial port and its clients is a
//! [`bytes::Bytes`]. The declarations below say what the multiplexer relies on
//! of that type. They are believed, not proved.
use bytes::Bytes;
use vstd::prelude::*;
use vstd::utf8::encode_utf8;

verus! {

/// Declares [`bytes::Bytes`]: an immutable, cheaply shared sequence of bytes.
#[verifier::external_type_specification]
#[verifier::external_body]
pub struct ExBytes(bytes::Bytes);

/// The bytes that a buffer holds, in order.
pub uninterp spec fn content(b: bytes::Bytes) -> Seq<u8>;

/// [`bytes::Bytes::len`] gives the number of bytes held.
pub assume_specification[ bytes::Bytes::len ](b: &bytes::Bytes) -> (n: usize)
    ensures
        n == content(*b).len(),
;

/// [`bytes::Bytes::copy_from_slice`] makes a buffer that holds a copy of `data`.
pub assume_specification[ bytes::Bytes::copy_from_slice ](data: &[u8]) -> (b: bytes::Bytes)
    ensures
        content(b) == data@,
;

/// Calls [`bytes::Bytes::slice`] with the range `from..`: the result holds the
/// bytes of `b` from position `from` to the end. A start beyond the end would
/// panic, so it is ruled out.
#[verifier::external_body]
pub(crate) fn tail(b: &Bytes, from: usize) -> (r: Bytes)
    requires
        from <= content(*b).len(),
    ensures
        content(r) == content(*b).skip(from as int),
{
    b.slice(from..)
}

/// `clone` of [`bytes::Bytes`] gives another handle on the same bytes.
pub assume_specification[ <bytes::Bytes as Clone>::clone ](b: &bytes::Bytes) -> (r: bytes::Bytes)
    ensures
        content(r) == content(*b),
;

/// Calls the conversion of [`bytes::Bytes`] from a `String`: the result holds
/// the string's UTF-8 bytes.
#[verifier::external_body]
pub(crate) fn from_text(text: String) -> (r: Bytes)
    ensures
        content(r) == encode_utf8(text@),
{
    Bytes::from(text)
}

} // verus!

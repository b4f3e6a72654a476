//! Trusted interface to the `bytes` crate.
//!
//! Keys are stored as `bytes::Bytes` values: cheaply clonable, immutable
//! byte strings. The type is opaque here; `bytes_view` names the byte
//! string a value holds, and each wrapper states what the crate's own
//! source shows about that view.

use bytes::Bytes;
use vstd::prelude::*;

verus! {

#[verifier::external_type_specification]
#[verifier::external_body]
pub struct ExBytes(Bytes);

/// The byte string a `Bytes` value holds.
pub uninterp spec fn bytes_view(b: Bytes) -> Seq<u8>;

/// Relies on `Bytes::new`: an empty byte string, no allocation.
#[verifier::external_body]
pub fn bytes_new() -> (b: Bytes)
    ensures
        bytes_view(b) == Seq::<u8>::empty(),
{
    Bytes::new()
}

/// Relies on `<Bytes as From<Vec<u8>>>::from`: the result holds exactly
/// the vector's bytes.
#[verifier::external_body]
pub fn bytes_from_vec(v: Vec<u8>) -> (b: Bytes)
    ensures
        bytes_view(b) == v@,
{
    Bytes::from(v)
}

/// Relies on `<Bytes as AsRef<[u8]>>::as_ref`: a slice of exactly the
/// held bytes.
#[verifier::external_body]
pub fn bytes_as_slice(b: &Bytes) -> (r: &[u8])
    ensures
        r@ == bytes_view(*b),
{
    b.as_ref()
}

/// The standard `Debug` rendering of a byte string, decimal values in
/// square brackets.
pub uninterp spec fn debug_bytes(s: Seq<u8>) -> Seq<char>;

/// Relies on `format!` with the standard `Debug` form for byte slices:
/// the rendering depends on the bytes alone.
#[verifier::external_body]
pub fn fmt_bytes(b: &[u8]) -> (r: String)
    ensures
        r@ == debug_bytes(b@),
{
    format!("{:?}", b)
}

} // verus!

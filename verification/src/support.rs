//! The trusted boundary around the shared byte buffers that leaves hold.
//!
//! A leaf of the rope is a `bytes::Bytes`: a reference-counted, immutable,
//! possibly-sliced byte buffer whose clone and advance never copy the bytes.
//! Verus does not read that crate, so its type is declared opaque here, its
//! contents are named by [`bytes_view`], and each operation the rope needs is
//! wrapped in a function whose contract states what the crate's source shows.

use vstd::prelude::*;
use bytes::Buf;
use bytes::Bytes;
use std::sync::Arc;
use crate::rope::RopeElem;

verus! {

#[verifier::external_type_specification]
#[verifier::external_body]
pub struct ExBytes(Bytes);

/// The byte contents of a shared `bytes::Bytes` buffer.
pub uninterp spec fn bytes_view(b: Bytes) -> Seq<u8>;

/// Relies on Bytes::new: a freshly created buffer is empty.
#[verifier::external_body]
pub fn bytes_new() -> (r: Bytes)
    ensures
        bytes_view(r).len() == 0,
{
    Bytes::new()
}

/// Relies on Bytes::from_static: the buffer points directly at the given
/// static slice, with no allocation or copy, so it holds exactly those bytes.
#[verifier::external_body]
pub fn bytes_from_static(s: &'static [u8]) -> (r: Bytes)
    ensures
        bytes_view(r) == s@,
{
    Bytes::from_static(s)
}

/// Relies on From<Vec<u8>> for Bytes: the buffer takes over the vector's
/// contents unchanged.
#[verifier::external_body]
pub fn bytes_from_vec(v: Vec<u8>) -> (r: Bytes)
    ensures
        bytes_view(r) == v@,
{
    Bytes::from(v)
}

/// Relies on Bytes::len: the length of the contents.
#[verifier::external_body]
pub fn bytes_len(b: &Bytes) -> (r: usize)
    ensures
        r == bytes_view(*b).len(),
{
    b.len()
}

/// Relies on AsRef<[u8]> for Bytes: a borrow of the full contents.
#[verifier::external_body]
pub fn bytes_as_slice(b: &Bytes) -> (r: &[u8])
    ensures
        r@ == bytes_view(*b),
{
    b.as_ref()
}

/// Relies on Clone for Bytes: the clone shares the same bytes, so its
/// contents are the same; no bytes are copied.
#[verifier::external_body]
pub fn bytes_clone(b: &Bytes) -> (r: Bytes)
    ensures
        bytes_view(r) == bytes_view(*b),
{
    b.clone()
}

/// Relies on Buf::advance for Bytes: the buffer drops its first `n` bytes in
/// place, without copying. It panics when `n` exceeds the length, so that
/// case is excluded here.
#[verifier::external_body]
pub fn bytes_advance(b: &mut Bytes, n: usize)
    requires
        n <= bytes_view(*old(b)).len(),
    ensures
        bytes_view(*final(b)) == bytes_view(*old(b)).skip(n as int),
{
    b.advance(n)
}

/// Relies on Clone for Arc: the clone points at the same allocation, so it
/// is the same shared value; only a reference count changes.
#[verifier::external_body]
pub fn arc_clone(a: &Arc<Vec<RopeElem>>) -> (r: Arc<Vec<RopeElem>>)
    ensures
        r == *a,
{
    a.clone()
}

/// Relies on String::from_utf8: it succeeds exactly on valid UTF-8 input and
/// then returns the string whose characters decode those bytes.
#[verifier::external_body]
pub fn string_from_utf8(v: Vec<u8>) -> (r: Option<String>)
    ensures
        r is Some <==> vstd::utf8::valid_utf8(v@),
        r matches Some(s) ==> s@ == vstd::utf8::decode_utf8(v@),
{
    match String::from_utf8(v) {
        Ok(s) => Some(s),
        Err(_) => None,
    }
}

} // verus!

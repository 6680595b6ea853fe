//! The payload of a segment as it crosses the boundary of the engine: a `bytes::Bytes`.
//!
//! Inside, the engine keeps bytes in vectors. The two functions here convert at the boundary;
//! their contracts are taken on trust from the `bytes` crate.

use vstd::prelude::*;
use bytes::Bytes;

verus! {

#[verifier::external_type_specification]
#[verifier::external_body]
pub struct ExBytes(bytes::Bytes);

/// The bytes that a `Bytes` value holds, in order.
pub uninterp spec fn payload_bytes(b: Bytes) -> Seq<u8>;

/// `Bytes::from(Vec<u8>)`: the result holds the bytes of the vector, in the same order.
#[verifier::external_body]
pub(crate) fn bytes_from_vec(v: Vec<u8>) -> (b: Bytes)
    ensures
        payload_bytes(b) == v@,
{
    Bytes::from(v)
}

/// `Vec::<u8>::from(Bytes)`: the result holds the bytes of the argument, in the same order.
#[verifier::external_body]
pub(crate) fn vec_from_bytes(b: Bytes) -> (v: Vec<u8>)
    ensures
        v@ == payload_bytes(b),
{
    Vec::<u8>::from(b)
}

} // verus!

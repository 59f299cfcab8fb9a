//! The calls into `storekey`, the order-preserving serializer, on plain values.
use vstd::prelude::*;

verus! {

#[verifier::external_type_specification]
#[verifier::external_body]
pub struct ExEncodeError(storekey::encode::Error);

#[verifier::external_type_specification]
#[verifier::external_body]
pub struct ExDecodeError(storekey::decode::Error);

/// The eight big-endian bytes of `n`.
pub open spec fn be8(n: u64) -> Seq<u8> {
    seq![
        (n >> 56u64) as u8,
        ((n >> 48u64) & 0xffu64) as u8,
        ((n >> 40u64) & 0xffu64) as u8,
        ((n >> 32u64) & 0xffu64) as u8,
        ((n >> 24u64) & 0xffu64) as u8,
        ((n >> 16u64) & 0xffu64) as u8,
        ((n >> 8u64) & 0xffu64) as u8,
        (n & 0xffu64) as u8,
    ]
}

/// `v` moved up by 2^63, so that signed order becomes unsigned order; the bit
/// pattern of `v ^ i64::MIN`.
pub open spec fn biased(v: i64) -> u64 {
    (v as int + 0x8000_0000_0000_0000) as u64
}

/// Relies on `storekey::serialize` for an `i64`: `v ^ i64::MIN` in eight big-endian
/// bytes (`serialize_i64`); writing into a `Vec` does not fail.
#[verifier::external_body]
pub(crate) fn serialize_i64(v: i64) -> (r: Result<Vec<u8>, storekey::encode::Error>)
    ensures
        r is Ok,
        r->Ok_0@ == be8(biased(v)),
{
    storekey::serialize(&v)
}

/// Relies on `storekey::deserialize` for an `i64`: eight big-endian bytes, with the
/// top bit flipped back (`deserialize_i64`).
#[verifier::external_body]
pub(crate) fn deserialize_i64(b: &[u8]) -> (r: Result<i64, storekey::decode::Error>)
    requires
        b@.len() == 8,
    ensures
        r is Ok,
        be8(biased(r->Ok_0)) == b@,
{
    storekey::deserialize::<i64>(b)
}

} // verus!

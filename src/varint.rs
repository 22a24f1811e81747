//! Variable-length unsigned integers, in the self-describing format of the
//! `vint64` crate: the number of trailing zero bits of the first byte gives
//! the total length, one to nine bytes.
use vstd::prelude::*;

verus! {

/// The bytes that `vint64` writes for a value.
pub uninterp spec fn vint_of(v: u64) -> Seq<u8>;

/// Relies on `vint64::encode`: the encoding of `v`, one to nine bytes.
#[verifier::external_body]
pub fn encode_varint(v: u64) -> (r: Vec<u8>)
    ensures
        r@ == vint_of(v),
        1 <= r@.len() <= 9,
{
    vint64::encode(v).as_ref().to_vec()
}

/// Whether `b` starts with the encoding of `v`.
pub open spec fn starts_with_vint(b: Seq<u8>, v: u64) -> bool {
    vint_of(v).len() <= b.len() && b.subrange(0, vint_of(v).len() as int) == vint_of(v)
}

/// Relies on `vint64::decode`: it reads one value off the front of `b` and
/// hands back the bytes after it. It accepts the canonical encoding only, so
/// what it read is exactly `vint64::encode` of the value, and it reads every
/// such encoding back.
#[verifier::external_body]
pub fn decode_varint(b: &[u8]) -> (r: Option<(u64, &[u8])>)
    ensures
        r is Some ==> b@ == vint_of(r.unwrap().0) + r.unwrap().1@,
        r is Some ==> r.unwrap().1@.len() < b@.len(),
        forall|v: u64| #[trigger] starts_with_vint(b@, v) ==> (r is Some && r.unwrap().0 == v),
{
    let mut input = b;
    match vint64::decode(&mut input) {
        Ok(v) => Some((v, input)),
        Err(_) => None,
    }
}

} // verus!

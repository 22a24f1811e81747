//! Hash keys of field values: equal fields get equal keys, so rows can be
//! bucketed by the hash of their key column.
use vstd::prelude::*;
use vstd::bytes::{spec_u64_to_le_bytes, u64_to_le_bytes};
use vstd::std_specs::hash::DefaultHasherAdditionalSpecFns;
use std::collections::hash_map::DefaultHasher;
use std::hash::Hasher;
use crate::field::{FieldValue, ObjectField, decimal_key, spec_bytes_cmp, spec_decimal_key, spec_field_cmp};
use crate::field_codec::{IntoHashable, spec_field_bytes};

verus! {

/// The bytes hashed for a field: its stand-alone encoding, except that a
/// decimal is written through its order key, so that all NaNs agree.
pub open spec fn spec_hash_key(v: FieldValue) -> Seq<u8> {
    match v {
        FieldValue::Decimal(bits) => seq![3u8] + spec_u64_to_le_bytes(spec_decimal_key(bits)),
        _ => spec_field_bytes(v),
    }
}

/// The hash of a field.
pub open spec fn spec_hash_of(v: FieldValue) -> u64 {
    DefaultHasher::spec_finish(seq![spec_hash_key(v)])
}

proof fn lemma_bytes_cmp_zero(a: Seq<u8>, b: Seq<u8>)
    requires
        spec_bytes_cmp(a, b) == 0,
    ensures
        a == b,
    decreases a.len(),
{
    if a.len() > 0 && b.len() > 0 {
        lemma_bytes_cmp_zero(a.drop_first(), b.drop_first());
        assert(a =~= seq![a[0]] + a.drop_first());
        assert(b =~= seq![b[0]] + b.drop_first());
    } else {
        assert(a.len() == 0 && b.len() == 0);
        assert(a =~= b);
    }
}

/// Fields that compare equal have the same hash.
pub proof fn lemma_equal_fields_same_hash(x: FieldValue, y: FieldValue)
    requires
        spec_field_cmp(x, y) == 0,
    ensures
        spec_hash_key(x) == spec_hash_key(y),
        spec_hash_of(x) == spec_hash_of(y),
{
    match (x, y) {
        (FieldValue::Bytes(a), FieldValue::Bytes(b)) => lemma_bytes_cmp_zero(a, b),
        (FieldValue::String(a), FieldValue::String(b)) => {
            lemma_bytes_cmp_zero(vstd::utf8::encode_utf8(a), vstd::utf8::encode_utf8(b));
            vstd::utf8::encode_utf8_decode_utf8(a);
            vstd::utf8::encode_utf8_decode_utf8(b);
        },
        _ => {},
    }
}

/// The hash of a field.
pub fn hash_of(f: &ObjectField) -> (r: u64)
    ensures
        r == spec_hash_of(f@),
{
    let key: Vec<u8> = match f {
        ObjectField::Decimal(bits) => {
            let mut k: Vec<u8> = Vec::new();
            k.push(3u8);
            let mut rest = u64_to_le_bytes(decimal_key(*bits));
            k.append(&mut rest);
            k
        },
        _ => f.to_hashable(),
    };
    assert(key@ =~= spec_hash_key(f@));
    let mut hasher = DefaultHasher::new();
    hasher.write(key.as_slice());
    assert(hasher@ =~= seq![spec_hash_key(f@)]);
    hasher.finish()
}

} // verus!

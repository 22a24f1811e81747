//! Stand-alone encoding of one field: `[tag:u8] [payload]`, where bytes and
//! strings carry a varint length instead of the one-byte length used inside
//! rows, so they may be of any size.
use vstd::prelude::*;
use vstd::slice::{slice_subrange, slice_to_vec};
use vstd::string::StringSliceAdditionalSpecFns;
use vstd::utf8::{encode_utf8, encode_utf8_decode_utf8, encode_utf8_valid_utf8};
use crate::entry_fields::{read_payload, spec_payload, spec_holds_at, spec_field_fits, push_payload};
use crate::field::{FieldType, FieldValue, ObjectField, spec_kind, spec_tag};
use crate::utf8::str_from_utf8;
use crate::varint::{decode_varint, encode_varint, starts_with_vint, vint_of};

verus! {

/// Content of a variable-length field.
pub open spec fn spec_content(v: FieldValue) -> Seq<u8> {
    match v {
        FieldValue::Bytes(b) => b,
        FieldValue::String(s) => encode_utf8(s),
        _ => seq![],
    }
}

pub open spec fn spec_is_variable(v: FieldValue) -> bool {
    v is Bytes || v is String
}

/// A field can be encoded: its content length fits in 64 bits.
pub open spec fn spec_codec_fits(v: FieldValue) -> bool {
    spec_content(v).len() <= u64::MAX
}

/// The stand-alone encoding of a field.
pub open spec fn spec_field_bytes(v: FieldValue) -> Seq<u8> {
    if spec_is_variable(v) {
        seq![spec_tag(spec_kind(v))] + vint_of(spec_content(v).len() as u64) + spec_content(v)
    } else {
        seq![spec_tag(spec_kind(v))] + spec_payload(v)
    }
}

impl ObjectField {
    /// Appends the stand-alone encoding of this field.
    pub fn encode_to(&self, out: &mut Vec<u8>)
        requires
            spec_codec_fits(self@),
        ensures
            final(out)@ == old(out)@ + spec_field_bytes(self@),
    {
        let ghost start = out@;
        out.push(self.field_type().tag());
        let content: &[u8] = match self {
            ObjectField::Bytes(b) => b.as_slice(),
            ObjectField::String(s) => s.as_str().as_bytes(),
            _ => {
                push_payload(self, out);
                assert(out@ =~= start + spec_field_bytes(self@));
                return;
            },
        };
        let mut len = encode_varint(content.len() as u64);
        out.append(&mut len);
        let ghost mid = out@;
        let mut i: usize = 0;
        while i < content.len()
            invariant
                0 <= i <= content@.len(),
                out@ == mid + content@.take(i as int),
            decreases content@.len() - i,
        {
            out.push(content[i]);
            assert(content@.take(i + 1) =~= content@.take(i as int).push(content@[i as int]));
            i = i + 1;
        }
        assert(content@.take(content@.len() as int) =~= content@);
        assert(out@ =~= start + spec_field_bytes(self@));
    }

    /// Reads one field off the front of `b`: the field and the number of
    /// bytes it took, or `None` where `b` starts with no field encoding.
    /// Reading the encoding of a field gives that field back.
    pub fn decode(b: &[u8]) -> (r: Option<(ObjectField, usize)>)
        ensures
            r is Some ==> spec_codec_fits(r.unwrap().0@) && r.unwrap().1 <= b@.len()
                && b@.subrange(0, r.unwrap().1 as int) == spec_field_bytes(r.unwrap().0@),
            forall|v: FieldValue|
                spec_codec_fits(v) && #[trigger] spec_holds_at(b@, 0, spec_field_bytes(v))
                ==> (r is Some && r.unwrap().0@ == v && r.unwrap().1 == spec_field_bytes(v).len()),
    {
        if b.len() < 1 {
            return None;
        }
        let t = match FieldType::from_tag(b[0]) {
            Some(t) => t,
            None => {
                assert forall|v: FieldValue|
                    spec_codec_fits(v) && #[trigger] spec_holds_at(b@, 0, spec_field_bytes(v)) implies false by {
                    assert(spec_field_bytes(v)[0] == b@[0]);
                }
                return None;
            },
        };
        proof {
            assert forall|v: FieldValue|
                spec_codec_fits(v) && #[trigger] spec_holds_at(b@, 0, spec_field_bytes(v)) implies spec_kind(v) == t by {
                assert(spec_field_bytes(v)[0] == b@[0]);
            }
        }
        match t {
            FieldType::Bytes | FieldType::String => {},
            _ => {
                return match read_payload(t, b, 1) {
                    Some((f, next)) => {
                        proof {
                            assert(b@.subrange(0, next as int) =~= seq![b@[0]] + b@.subrange(1, next as int));
                            assert forall|v: FieldValue|
                                spec_codec_fits(v) && #[trigger] spec_holds_at(b@, 0, spec_field_bytes(v))
                                implies f@ == v && next == spec_field_bytes(v).len() by {
                                assert(spec_kind(v) == t);
                                assert(!spec_is_variable(v));
                                let fb = spec_field_bytes(v);
                                assert(fb == seq![spec_tag(t)] + spec_payload(v));
                                assert(b@.subrange(1, 1 + spec_payload(v).len() as int) =~= b@.subrange(0, fb.len() as int).subrange(1, fb.len() as int));
                                assert(fb.subrange(1, fb.len() as int) =~= spec_payload(v));
                                assert(spec_holds_at(b@, 1, spec_payload(v)));
                            }
                        }
                        Some((f, next))
                    },
                    None => {
                        proof {
                            assert forall|v: FieldValue|
                                spec_codec_fits(v) && #[trigger] spec_holds_at(b@, 0, spec_field_bytes(v)) implies false by {
                                assert(spec_kind(v) == t);
                                assert(!spec_is_variable(v));
                                let fb = spec_field_bytes(v);
                                assert(fb == seq![spec_tag(t)] + spec_payload(v));
                                assert(b@.subrange(1, 1 + spec_payload(v).len() as int) =~= b@.subrange(0, fb.len() as int).subrange(1, fb.len() as int));
                                assert(fb.subrange(1, fb.len() as int) =~= spec_payload(v));
                                assert(spec_holds_at(b@, 1, spec_payload(v)));
                            }
                        }
                        None
                    },
                };
            },
        }
        decode_variable(t, b)
    }
}

/// Reads a bytes or string field whose tag byte has already been checked.
#[verifier::rlimit(50)]
fn decode_variable(t: FieldType, b: &[u8]) -> (r: Option<(ObjectField, usize)>)
    requires
        t == FieldType::Bytes || t == FieldType::String,
        b@.len() >= 1,
        b@[0] == spec_tag(t),
    ensures
        r is Some ==> spec_codec_fits(r.unwrap().0@) && r.unwrap().1 <= b@.len()
            && b@.subrange(0, r.unwrap().1 as int) == spec_field_bytes(r.unwrap().0@),
        forall|v: FieldValue|
            spec_codec_fits(v) && spec_kind(v) == t && #[trigger] spec_holds_at(b@, 0, spec_field_bytes(v))
            ==> (r is Some && r.unwrap().0@ == v && r.unwrap().1 == spec_field_bytes(v).len()),
{
    let tail = slice_subrange(b, 1, b.len());
    assert(tail@ =~= b@.subrange(1, b@.len() as int));
    let (n, rest) = match decode_varint(tail) {
        Some(p) => p,
        None => {
            proof {
                assert forall|v: FieldValue|
                    spec_codec_fits(v) && spec_kind(v) == t && #[trigger] spec_holds_at(b@, 0, spec_field_bytes(v))
                    implies false by {
                    let m = spec_content(v).len() as u64;
                    let vb = vint_of(m);
                    let fb = spec_field_bytes(v);
                    assert(fb == seq![spec_tag(t)] + vb + spec_content(v));
                    assert(tail@.subrange(0, vb.len() as int) =~= fb.subrange(1, 1 + vb.len() as int));
                    assert(fb.subrange(1, 1 + vb.len() as int) =~= vb);
                    assert(starts_with_vint(tail@, m));
                }
            }
            return None;
        },
    };
    let ghost vb = vint_of(n);
    assert(tail@ == vb + rest@);
    assert(b@ =~= seq![b@[0]] + tail@);
    let used = b.len() - rest.len();
    assert(used == 1 + vb.len());
    proof {
        assert forall|v: FieldValue|
            spec_codec_fits(v) && spec_kind(v) == t && #[trigger] spec_holds_at(b@, 0, spec_field_bytes(v))
            implies spec_content(v).len() == n && spec_holds_at(b@, used as int, spec_content(v)) by {
            let m = spec_content(v).len() as u64;
            let wb = vint_of(m);
            let fb = spec_field_bytes(v);
            assert(fb == seq![spec_tag(t)] + wb + spec_content(v));
            assert(tail@.subrange(0, wb.len() as int) =~= fb.subrange(1, 1 + wb.len() as int));
            assert(fb.subrange(1, 1 + wb.len() as int) =~= wb);
            assert(starts_with_vint(tail@, m));
            assert(m == n);
            assert(b@.subrange(used as int, used + spec_content(v).len() as int)
                =~= fb.subrange(1 + wb.len() as int, fb.len() as int));
            assert(fb.subrange(1 + wb.len() as int, fb.len() as int) =~= spec_content(v));
        }
    }
    if (rest.len() as u64) < n {
        return None;
    }
    let end = used + n as usize;
    let content = slice_subrange(b, used, end);
    assert(b@.subrange(0, end as int) =~= seq![b@[0]] + vb + content@) by {
        assert(b@.subrange(0, end as int) =~= seq![b@[0]] + tail@.subrange(0, end - 1));
        assert(tail@.subrange(0, end - 1) =~= vb + rest@.subrange(0, n as int));
        assert(b@ =~= seq![b@[0]] + vb + rest@);
        assert(content@ =~= rest@.subrange(0, n as int));
    }
    if t == FieldType::Bytes {
        let f = ObjectField::Bytes(slice_to_vec(content));
        proof {
            assert forall|v: FieldValue|
                spec_codec_fits(v) && spec_kind(v) == t && #[trigger] spec_holds_at(b@, 0, spec_field_bytes(v))
                implies f@ == v && end == spec_field_bytes(v).len() by {
                assert(content@ =~= spec_content(v));
            }
        }
        Some((f, end))
    } else {
        match str_from_utf8(content) {
            None => {
                proof {
                    assert forall|v: FieldValue|
                        spec_codec_fits(v) && spec_kind(v) == t && #[trigger] spec_holds_at(b@, 0, spec_field_bytes(v))
                        implies false by {
                        assert(content@ =~= spec_content(v));
                        if let FieldValue::String(c) = v {
                            encode_utf8_valid_utf8(c);
                        }
                    }
                }
                None
            },
            Some(text) => {
                let owned = text.to_owned();
                proof {
                    encode_utf8_decode_utf8(text@);
                }
                let f = ObjectField::String(owned);
                proof {
                    assert forall|v: FieldValue|
                        spec_codec_fits(v) && spec_kind(v) == t && #[trigger] spec_holds_at(b@, 0, spec_field_bytes(v))
                        implies f@ == v && end == spec_field_bytes(v).len() by {
                        assert(content@ =~= spec_content(v));
                        if let FieldValue::String(c) = v {
                            encode_utf8_decode_utf8(c);
                        }
                    }
                }
                Some((f, end))
            },
        }
    }
}

/// A value that can stand for another as a hashable join or group key.
pub trait IntoHashable {
    fn to_hashable(&self) -> Vec<u8>;
}

impl IntoHashable for ObjectField {
    /// The canonical key of a field: its stand-alone encoding, kind tag
    /// first. Two fields have the same key exactly when they are the same
    /// value.
    fn to_hashable(&self) -> (r: Vec<u8>)
        ensures
            r@ == spec_field_bytes(self@),
    {
        match self {
            ObjectField::Bytes(b) => {
                let _n = b.len();
            },
            ObjectField::String(s) => {
                let _n = s.as_str().as_bytes().len();
            },
            _ => {},
        }
        let mut out: Vec<u8> = Vec::new();
        self.encode_to(&mut out);
        assert(out@ =~= spec_field_bytes(self@));
        out
    }
}

} // verus!

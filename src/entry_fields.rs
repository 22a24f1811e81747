//! The packed binary payload of a row:
//! `[N:u8] [tag_0 .. tag_{N-1}] [value_0 .. value_{N-1}]`, where a bool takes
//! one byte, integers, decimals and ids their little-endian bytes, and bytes
//! and strings a length byte followed by their content.
use vstd::prelude::*;
use vstd::bytes::*;
use vstd::slice::{slice_subrange, slice_to_vec};
use vstd::string::StringSliceAdditionalSpecFns;
use vstd::utf8::{encode_utf8, decode_utf8, encode_utf8_decode_utf8, encode_utf8_valid_utf8};
use crate::field::{FieldType, FieldValue, ObjectField, spec_kind, spec_tag};
use crate::utf8::str_from_utf8;

verus! {

/// Bytes of one value inside a row.
pub open spec fn spec_payload(v: FieldValue) -> Seq<u8> {
    match v {
        FieldValue::Bool(b) => seq![if b { 1u8 } else { 0u8 }],
        FieldValue::I32(i) => spec_u32_to_le_bytes(i as u32),
        FieldValue::I64(i) => spec_u64_to_le_bytes(i as u64),
        FieldValue::Decimal(d) => spec_u64_to_le_bytes(d),
        FieldValue::Id(u) => spec_u128_to_le_bytes(u),
        FieldValue::Bytes(b) => seq![b.len() as u8] + b,
        FieldValue::String(s) => seq![encode_utf8(s).len() as u8] + encode_utf8(s),
    }
}

/// A value fits in a row when its content, if any, is at most 255 bytes.
pub open spec fn spec_field_fits(v: FieldValue) -> bool {
    match v {
        FieldValue::Bytes(b) => b.len() <= 255,
        FieldValue::String(s) => encode_utf8(s).len() <= 255,
        _ => true,
    }
}

/// The value bytes of a sequence of columns, in order.
pub open spec fn spec_payloads(vs: Seq<FieldValue>) -> Seq<u8>
    decreases vs.len(),
{
    if vs.len() == 0 {
        seq![]
    } else {
        spec_payloads(vs.drop_last()) + spec_payload(vs.last())
    }
}

/// The tag bytes of a sequence of columns.
pub open spec fn spec_tags(vs: Seq<FieldValue>) -> Seq<u8> {
    vs.map_values(|v: FieldValue| spec_tag(spec_kind(v)))
}

/// The full encoding of a row with columns `vs`.
pub open spec fn spec_row_bytes(vs: Seq<FieldValue>) -> Seq<u8> {
    seq![vs.len() as u8] + spec_tags(vs) + spec_payloads(vs)
}

/// A row can be encoded: at most 255 columns, each of which fits.
pub open spec fn spec_row_fits(vs: Seq<FieldValue>) -> bool {
    vs.len() <= 255 && forall|i: int| 0 <= i < vs.len() ==> #[trigger] spec_field_fits(vs[i])
}

/// Values of a vector of fields.
pub open spec fn spec_values(fs: Seq<ObjectField>) -> Seq<FieldValue> {
    fs.map_values(|f: ObjectField| f@)
}

proof fn lemma_payloads_prefix(vs: Seq<FieldValue>, j: int)
    requires
        0 <= j <= vs.len(),
    ensures
        spec_payloads(vs.take(j)).len() <= spec_payloads(vs).len(),
        spec_payloads(vs).subrange(0, spec_payloads(vs.take(j)).len() as int) == spec_payloads(vs.take(j)),
    decreases vs.len(),
{
    if j == vs.len() {
        assert(vs.take(j) =~= vs);
        assert(spec_payloads(vs).subrange(0, spec_payloads(vs).len() as int) =~= spec_payloads(vs));
    } else {
        lemma_payloads_prefix(vs.drop_last(), j);
        assert(vs.drop_last().take(j) =~= vs.take(j));
        let p = spec_payloads(vs.take(j));
        assert(spec_payloads(vs).subrange(0, p.len() as int) =~= spec_payloads(vs.drop_last()).subrange(0, p.len() as int));
    }
}

proof fn lemma_payloads_step(vs: Seq<FieldValue>, j: int)
    requires
        0 <= j < vs.len(),
    ensures
        spec_payloads(vs.take(j + 1)) == spec_payloads(vs.take(j)) + spec_payload(vs[j]),
{
    assert(vs.take(j + 1).drop_last() =~= vs.take(j));
}

proof fn lemma_payloads_concat(a: Seq<FieldValue>, b: Seq<FieldValue>)
    ensures
        spec_payloads(a + b) == spec_payloads(a) + spec_payloads(b),
    decreases b.len(),
{
    if b.len() == 0 {
        assert(a + b =~= a);
        assert(spec_payloads(a) + spec_payloads(b) =~= spec_payloads(a));
    } else {
        lemma_payloads_concat(a, b.drop_last());
        assert((a + b).drop_last() =~= a + b.drop_last());
        assert(spec_payloads(a) + spec_payloads(b) =~= spec_payloads(a) + spec_payloads(b.drop_last()) + spec_payload(b.last()));
    }
}

/// Appends the encoding of one value.
pub(crate) fn push_payload(f: &ObjectField, out: &mut Vec<u8>)
    requires
        spec_field_fits(f@),
    ensures
        final(out)@ == old(out)@ + spec_payload(f@),
{
    match f {
        ObjectField::Bool(b) => {
            out.push(if *b { 1u8 } else { 0u8 });
        },
        ObjectField::I32(i) => {
            let mut bytes = u32_to_le_bytes(#[verifier::truncate] (*i as u32));
            out.append(&mut bytes);
        },
        ObjectField::I64(i) => {
            let mut bytes = u64_to_le_bytes(#[verifier::truncate] (*i as u64));
            out.append(&mut bytes);
        },
        ObjectField::Decimal(d) => {
            let mut bytes = u64_to_le_bytes(*d);
            out.append(&mut bytes);
        },
        ObjectField::Id(u) => {
            let mut bytes = u128_to_le_bytes(*u);
            out.append(&mut bytes);
        },
        ObjectField::Bytes(b) => {
            out.push(b.len() as u8);
            let mut i: usize = 0;
            let ghost start = out@;
            while i < b.len()
                invariant
                    0 <= i <= b@.len(),
                    out@ == start + b@.take(i as int),
                decreases b@.len() - i,
            {
                out.push(b[i]);
                assert(b@.take(i + 1) =~= b@.take(i as int).push(b@[i as int]));
                i = i + 1;
            }
            assert(b@.take(b@.len() as int) =~= b@);
            assert(old(out)@ + spec_payload(f@) =~= start + b@);
        },
        ObjectField::String(s) => {
            let bs = s.as_str().as_bytes();
            out.push(bs.len() as u8);
            let mut i: usize = 0;
            let ghost start = out@;
            while i < bs.len()
                invariant
                    0 <= i <= bs@.len(),
                    out@ == start + bs@.take(i as int),
                decreases bs@.len() - i,
            {
                out.push(bs[i]);
                assert(bs@.take(i + 1) =~= bs@.take(i as int).push(bs@[i as int]));
                i = i + 1;
            }
            assert(bs@.take(bs@.len() as int) =~= bs@);
            assert(old(out)@ + spec_payload(f@) =~= start + bs@);
        },
    }
}

/// Whether `b` holds `p` at offset `at`.
pub open spec fn spec_holds_at(b: Seq<u8>, at: int, p: Seq<u8>) -> bool {
    0 <= at && at + p.len() <= b.len() && b.subrange(at, at + p.len()) == p
}

proof fn lemma_len_prefixed(b: Seq<u8>, at: int, c: Seq<u8>)
    requires
        c.len() <= 255,
        spec_holds_at(b, at, seq![c.len() as u8] + c),
    ensures
        b[at] as int == c.len(),
        at + 1 + c.len() <= b.len(),
        b.subrange(at + 1, at + 1 + c.len()) == c,
{
    let p = seq![c.len() as u8] + c;
    assert(b[at] == b.subrange(at, at + p.len())[0]);
    assert(b.subrange(at + 1, at + 1 + c.len()) =~= b.subrange(at, at + p.len()).subrange(1, p.len() as int));
    assert(p.subrange(1, p.len() as int) =~= c);
}

/// What reading one value of kind `t` at offset `at` of `b` must give:
/// on success a value of that kind whose bytes stand there, with the offset
/// after them; and success with that very value wherever such a value's
/// bytes stand there.
pub open spec fn spec_read_result(t: FieldType, b: Seq<u8>, at: int, r: Option<(ObjectField, usize)>) -> bool {
    &&& r is Some ==> spec_kind(r.unwrap().0@) == t && spec_field_fits(r.unwrap().0@)
        && r.unwrap().1 == at + spec_payload(r.unwrap().0@).len()
        && spec_holds_at(b, at, spec_payload(r.unwrap().0@))
    &&& forall|v: FieldValue|
        spec_kind(v) == t && spec_field_fits(v) && #[trigger] spec_holds_at(b, at, spec_payload(v))
        ==> (r is Some && r.unwrap().0@ == v)
}

fn read_bool(b: &[u8], at: usize) -> (r: Option<(ObjectField, usize)>)
    requires
        at <= b@.len(),
    ensures
        spec_read_result(FieldType::Bool, b@, at as int, r),
{
    let t = FieldType::Bool;
    let rest = b.len() - at;

    if rest < 1 || b[at] > 1 {
        assert forall|v: FieldValue|
            spec_kind(v) == t && spec_field_fits(v) && #[trigger] spec_holds_at(b@, at as int, spec_payload(v))
            implies false by {
            assert(spec_payload(v)[0] == b@[at as int]);
        }
        return None;
    }
    let f = ObjectField::Bool(b[at] == 1);
    assert(b@.subrange(at as int, at + 1) =~= spec_payload(f@));
    assert forall|v: FieldValue|
        spec_kind(v) == t && spec_field_fits(v) && #[trigger] spec_holds_at(b@, at as int, spec_payload(v))
        implies f@ == v by {
        assert(spec_payload(v)[0] == b@[at as int]);
    }
    Some((f, at + 1))
}

fn read_i32(b: &[u8], at: usize) -> (r: Option<(ObjectField, usize)>)
    requires
        at <= b@.len(),
    ensures
        spec_read_result(FieldType::I32, b@, at as int, r),
{
    let t = FieldType::I32;
    let rest = b.len() - at;
    proof {
        lemma_auto_spec_u32_to_from_le_bytes();
        lemma_auto_spec_u64_to_from_le_bytes();
        lemma_auto_spec_u128_to_from_le_bytes();
    }

    if rest < 4 {
        return None;
    }
    let s = slice_subrange(b, at, at + 4);
    let x = u32_from_le_bytes(s);
    let f = ObjectField::I32(#[verifier::truncate] (x as i32));
    assert((x as i32) as u32 == x) by (bit_vector);
    assert forall|v: FieldValue|
        spec_kind(v) == t && spec_field_fits(v) && #[trigger] spec_holds_at(b@, at as int, spec_payload(v))
        implies f@ == v by {
        if let FieldValue::I32(y) = v {
            assert((y as u32) as i32 == y) by (bit_vector);
        }
    }
    Some((f, at + 4))
}

fn read_i64(b: &[u8], at: usize) -> (r: Option<(ObjectField, usize)>)
    requires
        at <= b@.len(),
    ensures
        spec_read_result(FieldType::I64, b@, at as int, r),
{
    let t = FieldType::I64;
    let rest = b.len() - at;
    proof {
        lemma_auto_spec_u32_to_from_le_bytes();
        lemma_auto_spec_u64_to_from_le_bytes();
        lemma_auto_spec_u128_to_from_le_bytes();
    }

    if rest < 8 {
        return None;
    }
    let s = slice_subrange(b, at, at + 8);
    let x = u64_from_le_bytes(s);
    let f = ObjectField::I64(#[verifier::truncate] (x as i64));
    assert((x as i64) as u64 == x) by (bit_vector);
    assert forall|v: FieldValue|
        spec_kind(v) == t && spec_field_fits(v) && #[trigger] spec_holds_at(b@, at as int, spec_payload(v))
        implies f@ == v by {
        if let FieldValue::I64(y) = v {
            assert((y as u64) as i64 == y) by (bit_vector);
        }
    }
    Some((f, at + 8))
}

fn read_decimal(b: &[u8], at: usize) -> (r: Option<(ObjectField, usize)>)
    requires
        at <= b@.len(),
    ensures
        spec_read_result(FieldType::Decimal, b@, at as int, r),
{
    let t = FieldType::Decimal;
    let rest = b.len() - at;
    proof {
        lemma_auto_spec_u32_to_from_le_bytes();
        lemma_auto_spec_u64_to_from_le_bytes();
        lemma_auto_spec_u128_to_from_le_bytes();
    }

    if rest < 8 {
        return None;
    }
    let s = slice_subrange(b, at, at + 8);
    let x = u64_from_le_bytes(s);
    Some((ObjectField::Decimal(x), at + 8))
}

fn read_id(b: &[u8], at: usize) -> (r: Option<(ObjectField, usize)>)
    requires
        at <= b@.len(),
    ensures
        spec_read_result(FieldType::Id, b@, at as int, r),
{
    let t = FieldType::Id;
    let rest = b.len() - at;
    proof {
        lemma_auto_spec_u32_to_from_le_bytes();
        lemma_auto_spec_u64_to_from_le_bytes();
        lemma_auto_spec_u128_to_from_le_bytes();
    }

    if rest < 16 {
        return None;
    }
    let s = slice_subrange(b, at, at + 16);
    let x = u128_from_le_bytes(s);
    Some((ObjectField::Id(x), at + 16))
}

fn read_bytes_value(b: &[u8], at: usize) -> (r: Option<(ObjectField, usize)>)
    requires
        at <= b@.len(),
    ensures
        spec_read_result(FieldType::Bytes, b@, at as int, r),
{
    let t = FieldType::Bytes;
    let rest = b.len() - at;

    if rest < 1 {
        return None;
    }
    let n = b[at] as usize;
    if rest - 1 < n {
        proof {
            assert forall|w: FieldValue|
                spec_kind(w) == t && spec_field_fits(w) && #[trigger] spec_holds_at(b@, at as int, spec_payload(w))
                implies false by {
                if let FieldValue::Bytes(c) = w {
                    lemma_len_prefixed(b@, at as int, c);
                }
            }
        }
        return None;
    }
    let s = slice_subrange(b, at + 1, at + 1 + n);
    let v = slice_to_vec(s);
    let f = ObjectField::Bytes(v);
    assert(b@.subrange(at as int, at + 1 + n) =~= spec_payload(f@));
    assert forall|w: FieldValue|
        spec_kind(w) == t && spec_field_fits(w) && #[trigger] spec_holds_at(b@, at as int, spec_payload(w))
        implies f@ == w by {
        if let FieldValue::Bytes(c) = w {
            lemma_len_prefixed(b@, at as int, c);
            assert(v@ =~= c);
        }
    }
    Some((f, at + 1 + n))
}

fn read_string_value(b: &[u8], at: usize) -> (r: Option<(ObjectField, usize)>)
    requires
        at <= b@.len(),
    ensures
        spec_read_result(FieldType::String, b@, at as int, r),
{
    let t = FieldType::String;
    let rest = b.len() - at;

    if rest < 1 {
        return None;
    }
    let n = b[at] as usize;
    if rest - 1 < n {
        proof {
            assert forall|w: FieldValue|
                spec_kind(w) == t && spec_field_fits(w) && #[trigger] spec_holds_at(b@, at as int, spec_payload(w))
                implies false by {
                if let FieldValue::String(c) = w {
                    lemma_len_prefixed(b@, at as int, encode_utf8(c));
                }
            }
        }
        return None;
    }
    let s = slice_subrange(b, at + 1, at + 1 + n);
    match str_from_utf8(s) {
        None => {
            assert forall|w: FieldValue|
                spec_kind(w) == t && spec_field_fits(w) && #[trigger] spec_holds_at(b@, at as int, spec_payload(w))
                implies false by {
                if let FieldValue::String(c) = w {
                    lemma_len_prefixed(b@, at as int, encode_utf8(c));
                    assert(s@ =~= encode_utf8(c));
                    encode_utf8_valid_utf8(c);
                }
            }
            None
        },
        Some(text) => {
            let owned = text.to_owned();
            proof {
                encode_utf8_decode_utf8(text@);
            }
            let f = ObjectField::String(owned);
            assert(b@.subrange(at as int, at + 1 + n) =~= spec_payload(f@));
            assert forall|w: FieldValue|
                spec_kind(w) == t && spec_field_fits(w) && #[trigger] spec_holds_at(b@, at as int, spec_payload(w))
                implies f@ == w by {
                if let FieldValue::String(c) = w {
                    lemma_len_prefixed(b@, at as int, encode_utf8(c));
                    assert(s@ =~= encode_utf8(c));
                    encode_utf8_decode_utf8(c);
                }
            }
            Some((f, at + 1 + n))
        },
    }
}

/// Reads one value of kind `t` from `b` at offset `at`: the value and the
/// offset just after it, or `None` where the bytes there are no such value.
pub(crate) fn read_payload(t: FieldType, b: &[u8], at: usize) -> (r: Option<(ObjectField, usize)>)
    requires
        at <= b@.len(),
    ensures
        spec_read_result(t, b@, at as int, r),
{
    match t {
        FieldType::Bool => read_bool(b, at),
        FieldType::I32 => read_i32(b, at),
        FieldType::I64 => read_i64(b, at),
        FieldType::Decimal => read_decimal(b, at),
        FieldType::Id => read_id(b, at),
        FieldType::Bytes => read_bytes_value(b, at),
        FieldType::String => read_string_value(b, at),
    }
}

proof fn lemma_tags_push(vs: Seq<FieldValue>, i: int)
    requires
        0 <= i < vs.len(),
    ensures
        spec_tags(vs.take(i + 1)) == spec_tags(vs.take(i)).push(spec_tag(spec_kind(vs[i]))),
{
    assert(spec_tags(vs.take(i + 1)) =~= spec_tags(vs.take(i)).push(spec_tag(spec_kind(vs[i]))));
}

/// Where column `i` of a row stands in its encoding.
proof fn lemma_row_layout(vs: Seq<FieldValue>, i: int)
    requires
        spec_row_fits(vs),
        0 <= i < vs.len(),
    ensures
        spec_row_bytes(vs)[0] as int == vs.len(),
        spec_row_bytes(vs)[1 + i] == spec_tag(spec_kind(vs[i])),
        spec_holds_at(
            spec_row_bytes(vs),
            (1 + vs.len() + spec_payloads(vs.take(i)).len()) as int,
            spec_payload(vs[i]),
        ),
        1 + vs.len() + spec_payloads(vs).len() == spec_row_bytes(vs).len(),
{
    let d = spec_row_bytes(vs);
    let head = seq![vs.len() as u8] + spec_tags(vs);
    assert(d == head + spec_payloads(vs));
    assert(d[1 + i] == spec_tags(vs)[i]);
    lemma_payloads_prefix(vs, i + 1);
    lemma_payloads_step(vs, i);
    let off: int = (1 + vs.len() + spec_payloads(vs.take(i)).len()) as int;
    let p = spec_payload(vs[i]);
    let pre = spec_payloads(vs.take(i + 1));
    let full = spec_payloads(vs);
    let q = spec_payloads(vs.take(i)).len() as int;
    assert(full.subrange(0, pre.len() as int) == pre);
    assert(pre.len() == q + p.len());
    assert(d.subrange(off, off + p.len()) =~= full.subrange(q, q + p.len()));
    assert(full.subrange(q, q + p.len()) =~= pre.subrange(q, q + p.len()));
    assert(pre.subrange(q, q + p.len()) =~= p);
}

/// Whether a field fits in a row.
pub fn field_fits(f: &ObjectField) -> (r: bool)
    ensures
        r == spec_field_fits(f@),
{
    match f {
        ObjectField::Bytes(b) => {
            let n: usize = b.len();
            let ok: bool = n <= 255;
            ok
        },
        ObjectField::String(s) => {
            let n: usize = s.as_str().as_bytes().len();
            let ok: bool = n <= 255;
            ok
        },
        _ => true,
    }
}

/// The packed payload of one row. Its bytes are always the encoding of its
/// column values.
pub struct EntryFields {
    data: Vec<u8>,
    values: Ghost<Seq<FieldValue>>,
}

impl View for EntryFields {
    type V = Seq<FieldValue>;

    closed spec fn view(&self) -> Seq<FieldValue> {
        self.values@
    }
}

impl EntryFields {
    #[verifier::type_invariant]
    spec fn well_formed(self) -> bool {
        spec_row_fits(self.values@) && self.data@ == spec_row_bytes(self.values@)
    }

    /// Packs a list of fields; `None` when there are more than 255 of them or
    /// a string or byte field is longer than 255 bytes.
    pub fn new(fields: &Vec<ObjectField>) -> (r: Option<EntryFields>)
        ensures
            r is Some <==> spec_row_fits(spec_values(fields@)),
            r is Some ==> r.unwrap()@ == spec_values(fields@),
    {
        let ghost vs = spec_values(fields@);
        let n = fields.len();
        if n > 255 {
            return None;
        }
        let mut i: usize = 0;
        while i < n
            invariant
                n == fields@.len(),
                vs == spec_values(fields@),
                0 <= i <= n,
                forall|j: int| 0 <= j < i ==> #[trigger] spec_field_fits(vs[j]),
            decreases n - i,
        {
            if !field_fits(&fields[i]) {
                assert(!spec_field_fits(vs[i as int]));
                return None;
            }
            i = i + 1;
        }
        let mut data: Vec<u8> = Vec::new();
        data.push(n as u8);
        let mut i: usize = 0;
        while i < n
            invariant
                n == fields@.len(),
                n <= 255,
                vs == spec_values(fields@),
                0 <= i <= n,
                data@ == seq![n as u8] + spec_tags(vs.take(i as int)),
            decreases n - i,
        {
            let t = fields[i].field_type().tag();
            proof {
                lemma_tags_push(vs, i as int);
            }
            data.push(t);
            assert(data@ =~= seq![n as u8] + spec_tags(vs.take(i + 1)));
            i = i + 1;
        }
        assert(vs.take(n as int) =~= vs);
        let mut i: usize = 0;
        while i < n
            invariant
                n == fields@.len(),
                n <= 255,
                vs == spec_values(fields@),
                0 <= i <= n,
                forall|j: int| 0 <= j < n ==> #[trigger] spec_field_fits(vs[j]),
                data@ == seq![n as u8] + spec_tags(vs) + spec_payloads(vs.take(i as int)),
            decreases n - i,
        {
            proof {
                lemma_payloads_step(vs, i as int);
            }
            push_payload(&fields[i], &mut data);
            assert(data@ =~= seq![n as u8] + spec_tags(vs) + spec_payloads(vs.take(i + 1)));
            i = i + 1;
        }
        assert(vs.take(n as int) =~= vs);
        Some(EntryFields { data, values: Ghost(vs) })
    }

    /// Reads a row from its encoding; `None` when the bytes are not the
    /// encoding of any row.
    pub fn parse(b: &[u8]) -> (r: Option<EntryFields>)
        ensures
            r is Some ==> spec_row_bytes(r.unwrap()@) == b@ && spec_row_fits(r.unwrap()@),
            forall|vs: Seq<FieldValue>|
                spec_row_fits(vs) && #[trigger] spec_row_bytes(vs) == b@ ==> (r is Some && r.unwrap()@ == vs),
    {
        if b.len() < 1 {
            return None;
        }
        let n = b[0] as usize;
        if b.len() - 1 < n {
            return None;
        }
        let mut types: Vec<FieldType> = Vec::new();
        let mut i: usize = 0;
        while i < n
            invariant
                n == b@[0] as usize,
                1 + n <= b@.len(),
                0 <= i <= n,
                types@.len() == i,
                forall|j: int| 0 <= j < i ==> spec_tag(#[trigger] types@[j]) == b@[1 + j],
            decreases n - i,
        {
            match FieldType::from_tag(b[1 + i]) {
                None => {
                    proof {
                        assert forall|vs: Seq<FieldValue>|
                            spec_row_fits(vs) && #[trigger] spec_row_bytes(vs) == b@ implies false by {
                            lemma_row_layout(vs, i as int);
                        }
                    }
                    return None;
                },
                Some(t) => {
                    types.push(t);
                },
            }
            i = i + 1;
        }
        let mut at: usize = 1 + n;
        let ghost mut vs: Seq<FieldValue> = seq![];
        let mut fields_ok = true;
        let mut i: usize = 0;
        while i < n
            invariant
                n == b@[0] as usize,
                n <= 255,
                1 + n <= b@.len(),
                0 <= i <= n,
                types@.len() == n,
                forall|j: int| 0 <= j < n ==> spec_tag(#[trigger] types@[j]) == b@[1 + j],
                vs.len() == i,
                forall|j: int| 0 <= j < i ==> spec_kind(#[trigger] vs[j]) == types@[j],
                forall|j: int| 0 <= j < i ==> spec_field_fits(#[trigger] vs[j]),
                at == 1 + n + spec_payloads(vs).len(),
                at <= b@.len(),
                b@.subrange(1 + n, at as int) == spec_payloads(vs),
                forall|ws: Seq<FieldValue>|
                    spec_row_fits(ws) && #[trigger] spec_row_bytes(ws) == b@ ==> ws.take(i as int) == vs,
            decreases n - i,
        {
            match read_payload(types[i], b, at) {
                None => {
                    proof {
                        assert forall|ws: Seq<FieldValue>|
                            spec_row_fits(ws) && #[trigger] spec_row_bytes(ws) == b@ implies false by {
                            lemma_row_layout(ws, i as int);
                            assert(ws.take(i as int) == vs);
                            assert(spec_kind(ws[i as int]) == types@[i as int]);
                            assert(spec_field_fits(ws[i as int]));
                        }
                    }
                    return None;
                },
                Some((f, next)) => {
                    proof {
                        let v = f@;
                        assert(vs.push(v).drop_last() =~= vs);
                        assert(b@.subrange(1 + n, next as int) =~= b@.subrange(1 + n, at as int) + spec_payload(v));
                        assert forall|ws: Seq<FieldValue>|
                            spec_row_fits(ws) && #[trigger] spec_row_bytes(ws) == b@ implies ws.take(i + 1) == vs.push(v) by {
                            lemma_row_layout(ws, i as int);
                            assert(ws.take(i as int) == vs);
                            assert(spec_kind(ws[i as int]) == types@[i as int]);
                            assert(spec_field_fits(ws[i as int]));
                            assert(ws.take(i + 1) =~= vs.push(ws[i as int]));
                        }
                        vs = vs.push(v);
                    }
                    at = next;
                },
            }
            i = i + 1;
        }
        if at != b.len() {
            proof {
                assert forall|ws: Seq<FieldValue>|
                    spec_row_fits(ws) && #[trigger] spec_row_bytes(ws) == b@ implies false by {
                    assert(ws.take(n as int) == vs);
                    assert(ws.len() == n) by {
                        assert(spec_row_bytes(ws)[0] == ws.len() as u8);
                    }
                    assert(ws.take(n as int) =~= ws);
                }
            }
            return None;
        }
        proof {
            assert(vs.len() <= 255);
            assert(spec_tags(vs) =~= b@.subrange(1, 1 + n));
            assert(b@ =~= seq![n as u8] + b@.subrange(1, 1 + n) + b@.subrange(1 + n, at as int));
            assert forall|ws: Seq<FieldValue>|
                spec_row_fits(ws) && #[trigger] spec_row_bytes(ws) == b@ implies ws == vs by {
                assert(ws.take(n as int) == vs);
                assert(ws.len() == n) by {
                    assert(spec_row_bytes(ws)[0] == ws.len() as u8);
                }
                assert(ws.take(n as int) =~= ws);
            }
        }
        Some(EntryFields { data: slice_to_vec(b), values: Ghost(vs) })
    }

    /// The encoded bytes of the row.
    pub fn as_bytes(&self) -> (r: &[u8])
        ensures
            r@ == spec_row_bytes(self@),
            spec_row_fits(self@),
    {
        proof {
            use_type_invariant(self);
        }
        self.data.as_slice()
    }

    /// Number of columns.
    pub fn len(&self) -> (r: usize)
        ensures
            r == self@.len(),
    {
        proof {
            use_type_invariant(self);
            assert(self.data@[0] == self@.len() as u8);
        }
        self.data[0] as usize
    }

    /// Whether the row has no column (the payload of a tombstone).
    pub fn is_empty(&self) -> (r: bool)
        ensures
            r == (self@.len() == 0),
    {
        self.len() == 0
    }

    /// Kind of column `index`.
    pub fn column_type(&self, index: usize) -> (r: FieldType)
        requires
            index < self@.len(),
        ensures
            r == spec_kind(self@[index as int]),
    {
        proof {
            use_type_invariant(self);
            lemma_row_layout(self@, index as int);
        }
        let t = FieldType::from_tag(self.data[1 + index]);
        match t {
            Some(t) => t,
            None => {
                assert(false);
                FieldType::Bool
            },
        }
    }

    /// Kinds of all columns, in order.
    pub fn column_types(&self) -> (r: Vec<FieldType>)
        ensures
            r@ == self@.map_values(|v: FieldValue| spec_kind(v)),
    {
        let n = self.len();
        let mut r: Vec<FieldType> = Vec::new();
        let mut i: usize = 0;
        while i < n
            invariant
                n == self@.len(),
                0 <= i <= n,
                r@ == self@.take(i as int).map_values(|v: FieldValue| spec_kind(v)),
            decreases n - i,
        {
            r.push(self.column_type(i));
            assert(r@ =~= self@.take(i + 1).map_values(|v: FieldValue| spec_kind(v)));
            i = i + 1;
        }
        assert(self@.take(n as int) =~= self@);
        r
    }

    /// Offset of the value of column `index` in the encoding.
    fn column_offset(&self, index: usize) -> (r: usize)
        requires
            index < self@.len(),
        ensures
            r == 1 + self@.len() + spec_payloads(self@.take(index as int)).len(),
    {
        proof {
            use_type_invariant(self);
        }
        let n = self.len();
        let mut at: usize = 1 + n;
        let mut i: usize = 0;
        assert(self@.take(0) =~= Seq::<FieldValue>::empty());
        while i < index
            invariant
                n == self@.len(),
                0 <= i <= index < n,
                spec_row_fits(self@),
                self.data@ == spec_row_bytes(self@),
                at == 1 + n + spec_payloads(self@.take(i as int)).len(),
            decreases index - i,
        {
            proof {
                lemma_row_layout(self@, i as int);
                lemma_payloads_step(self@, i as int);
            }
            let t = self.column_type(i);
            match read_payload(t, self.data.as_slice(), at) {
                Some((_, next)) => {
                    at = next;
                },
                None => {
                    assert(false);
                },
            }
            i = i + 1;
        }
        at
    }

    /// The value region of the encoding: every column's value bytes, in
    /// order.
    pub fn column_bytes(&self) -> (r: &[u8])
        ensures
            r@ == spec_payloads(self@),
    {
        proof {
            use_type_invariant(self);
            assert(self.data@[0] == self@.len() as u8);
            assert(self.data@.subrange(1 + self@.len() as int, self.data@.len() as int) =~= spec_payloads(self@));
        }
        let n = self.len();
        slice_subrange(self.data.as_slice(), 1 + n, self.data.len())
    }

    /// Kind of column `index` and the bytes of its value (for bytes and
    /// strings, their content without the length byte).
    pub fn get_column_data(&self, index: usize) -> (r: (FieldType, &[u8]))
        requires
            index < self@.len(),
        ensures
            r.0 == spec_kind(self@[index as int]),
            match self@[index as int] {
                FieldValue::Bytes(b) => r.1@ == b,
                FieldValue::String(c) => r.1@ == encode_utf8(c),
                v => r.1@ == spec_payload(v),
            },
    {
        proof {
            use_type_invariant(self);
            lemma_row_layout(self@, index as int);
        }
        let at = self.column_offset(index);
        let t = self.column_type(index);
        let total = self.data.len();
        let ghost v = self@[index as int];
        let ghost p = spec_payload(v);
        assert(self.data@.subrange(at as int, at + p.len()) == p);
        assert(at + p.len() <= self.data@.len());
        assert(spec_field_fits(self@[index as int]));
        match t {
            FieldType::Bytes | FieldType::String => {
                let n = self.data[at] as usize;
                proof {
                    assert(self.data@[at as int] == p[0]);
                    match v {
                        FieldValue::Bytes(b) => {
                            assert(p[0] as int == b.len());
                            assert(p.len() == 1 + n);
                            assert(self.data@.subrange(at + 1, at + 1 + n) =~= p.subrange(1, p.len() as int));
                            assert(p.subrange(1, p.len() as int) =~= b);
                        },
                        FieldValue::String(c) => {
                            assert(p[0] as int == encode_utf8(c).len());
                            assert(p.len() == 1 + n);
                            assert(self.data@.subrange(at + 1, at + 1 + n) =~= p.subrange(1, p.len() as int));
                            assert(p.subrange(1, p.len() as int) =~= encode_utf8(c));
                        },
                        _ => {},
                    }
                }
                (t, slice_subrange(self.data.as_slice(), at + 1, at + 1 + n))
            },
            _ => {
                let len: usize = match t {
                    FieldType::Bool => 1,
                    FieldType::I32 => 4,
                    FieldType::I64 | FieldType::Decimal => 8,
                    _ => 16,
                };
                proof {
                    lemma_auto_spec_u32_to_from_le_bytes();
                    lemma_auto_spec_u64_to_from_le_bytes();
                    lemma_auto_spec_u128_to_from_le_bytes();
                    assert(p.len() == len);
                }
                (t, slice_subrange(self.data.as_slice(), at, at + len))
            },
        }
    }

    /// The value of column `index`.
    pub fn column(&self, index: usize) -> (r: ObjectField)
        requires
            index < self@.len(),
        ensures
            r@ == self@[index as int],
    {
        proof {
            use_type_invariant(self);
            lemma_row_layout(self@, index as int);
        }
        let at = self.column_offset(index);
        let t = self.column_type(index);
        match read_payload(t, self.data.as_slice(), at) {
            Some((f, _)) => f,
            None => {
                assert(false);
                ObjectField::Bool(false)
            },
        }
    }

    /// All columns, decoded in order.
    pub fn fields(&self) -> (r: Vec<ObjectField>)
        ensures
            spec_values(r@) == self@,
    {
        let n = self.len();
        let mut r: Vec<ObjectField> = Vec::new();
        let mut i: usize = 0;
        while i < n
            invariant
                n == self@.len(),
                0 <= i <= n,
                spec_values(r@) == self@.take(i as int),
            decreases n - i,
        {
            let f = self.column(i);
            let ghost before = r@;
            r.push(f);
            assert(r@ == before.push(f));
            assert(spec_values(r@) =~= spec_values(before).push(f@));
            assert(spec_values(r@) =~= self@.take(i + 1));
            i = i + 1;
        }
        assert(self@.take(n as int) =~= self@);
        r
    }

    /// The columns of `a` followed by those of `b`; `None` when that makes
    /// more than 255 columns.
    pub fn combine(a: &EntryFields, b: &EntryFields) -> (r: Option<EntryFields>)
        ensures
            r is Some <==> a@.len() + b@.len() <= 255,
            r is Some ==> r.unwrap()@ == a@ + b@,
    {
        proof {
            use_type_invariant(a);
            use_type_invariant(b);
        }
        let na = a.len();
        let nb = b.len();
        if na + nb > 255 {
            return None;
        }
        let ghost vs = a@ + b@;
        let total: u8 = (na + nb) as u8;
        let mut data: Vec<u8> = Vec::new();
        data.push(total);
        let mut i: usize = 1;
        while i < 1 + na
            invariant
                na + nb <= 255,
                1 <= i <= 1 + na,
                na == a@.len(),
                a.data@ == spec_row_bytes(a@),
                data@ == seq![total] + a.data@.subrange(1, i as int),
            decreases 1 + na - i,
        {
            data.push(a.data[i]);
            assert(data@ =~= seq![total] + a.data@.subrange(1, i + 1));
            i = i + 1;
        }
        let mut i: usize = 1;
        while i < 1 + nb
            invariant
                na + nb <= 255,
                1 <= i <= 1 + nb,
                nb == b@.len(),
                b.data@ == spec_row_bytes(b@),
                data@ == seq![total] + a.data@.subrange(1, 1 + na) + b.data@.subrange(1, i as int),
            decreases 1 + nb - i,
        {
            data.push(b.data[i]);
            assert(data@ =~= seq![total] + a.data@.subrange(1, 1 + na) + b.data@.subrange(1, i + 1));
            i = i + 1;
        }
        let mut i: usize = 1 + na;
        while i < a.data.len()
            invariant
                1 + na <= i <= a.data@.len(),
                data@ == seq![total] + a.data@.subrange(1, 1 + na) + b.data@.subrange(1, 1 + nb)
                    + a.data@.subrange(1 + na, i as int),
            decreases a.data@.len() - i,
        {
            data.push(a.data[i]);
            assert(data@ =~= seq![total] + a.data@.subrange(1, 1 + na) + b.data@.subrange(1, 1 + nb)
                + a.data@.subrange(1 + na, i + 1));
            i = i + 1;
        }
        let mut i: usize = 1 + nb;
        while i < b.data.len()
            invariant
                1 + nb <= i <= b.data@.len(),
                data@ == seq![total] + a.data@.subrange(1, 1 + na) + b.data@.subrange(1, 1 + nb)
                    + a.data@.subrange(1 + na, a.data@.len() as int) + b.data@.subrange(1 + nb, i as int),
            decreases b.data@.len() - i,
        {
            data.push(b.data[i]);
            assert(data@ =~= seq![total] + a.data@.subrange(1, 1 + na) + b.data@.subrange(1, 1 + nb)
                + a.data@.subrange(1 + na, a.data@.len() as int) + b.data@.subrange(1 + nb, i + 1));
            i = i + 1;
        }
        proof {
            lemma_payloads_concat(a@, b@);
            assert(a.data@.subrange(1, 1 + na) =~= spec_tags(a@));
            assert(b.data@.subrange(1, 1 + nb) =~= spec_tags(b@));
            assert(a.data@.subrange(1 + na, a.data@.len() as int) =~= spec_payloads(a@));
            assert(b.data@.subrange(1 + nb, b.data@.len() as int) =~= spec_payloads(b@));
            assert(spec_tags(vs) =~= spec_tags(a@) + spec_tags(b@));
            assert(total == vs.len() as u8);
            assert(data@ =~= spec_row_bytes(vs));
            assert forall|j: int| 0 <= j < vs.len() implies #[trigger] spec_field_fits(vs[j]) by {
                if j < a@.len() {
                    assert(spec_field_fits(a@[j]));
                } else {
                    assert(spec_field_fits(b@[j - a@.len()]));
                }
            }
        }
        Some(EntryFields { data, values: Ghost(vs) })
    }

    /// Estimated memory taken by the row, for cache accounting: its bytes and
    /// a fixed overhead.
    pub fn byte_size(&self) -> (r: usize)
        ensures
            r == spec_row_bytes(self@).len() + ROW_OVERHEAD,
            r <= 256 * 256 + 256 + ROW_OVERHEAD,
    {
        proof {
            use_type_invariant(self);
        }
        proof {
            lemma_row_bytes_len(self@);
        }
        self.data.len() + ROW_OVERHEAD
    }
}

/// Fixed bookkeeping counted per row payload.
pub const ROW_OVERHEAD: usize = 32;

/// A row's encoding is short.
pub proof fn lemma_row_bytes_len(vs: Seq<FieldValue>)
    requires
        spec_row_fits(vs),
    ensures
        spec_row_bytes(vs).len() <= 256 * 256 + 256,
{
    lemma_payloads_len(vs);
}

proof fn lemma_payloads_len(vs: Seq<FieldValue>)
    requires
        forall|i: int| 0 <= i < vs.len() ==> #[trigger] spec_field_fits(vs[i]),
    ensures
        spec_payloads(vs).len() <= 256 * vs.len(),
    decreases vs.len(),
{
    if vs.len() > 0 {
        assert forall|i: int| 0 <= i < vs.len() - 1 implies #[trigger] spec_field_fits(vs.drop_last()[i]) by {
            assert(spec_field_fits(vs[i]));
        }
        lemma_payloads_len(vs.drop_last());
        assert(spec_field_fits(vs[vs.len() - 1]));
        lemma_auto_spec_u32_to_from_le_bytes();
        lemma_auto_spec_u64_to_from_le_bytes();
        lemma_auto_spec_u128_to_from_le_bytes();
    }
}

impl Clone for EntryFields {
    fn clone(&self) -> (r: EntryFields)
        ensures
            r@ == self@,
    {
        proof {
            use_type_invariant(self);
        }
        EntryFields { data: self.data.clone(), values: Ghost(self.values@) }
    }
}

} // verus!

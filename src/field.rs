//! Field values: the seven kinds of scalar a row column can hold, their
//! type tags, their total order and their canonical key bytes.
use vstd::prelude::*;
use vstd::utf8::encode_utf8;

verus! {

/// The kind of a column, stored as one tag byte.
#[derive(PartialEq, Eq, Structural, Debug, Clone, Copy)]
pub enum FieldType {
    Bool,
    I32,
    I64,
    Decimal,
    Id,
    Bytes,
    String,
}

/// Tag byte written for each kind.
pub open spec fn spec_tag(t: FieldType) -> u8 {
    match t {
        FieldType::Bool => 0,
        FieldType::I32 => 1,
        FieldType::I64 => 2,
        FieldType::Decimal => 3,
        FieldType::Id => 4,
        FieldType::Bytes => 5,
        FieldType::String => 6,
    }
}

/// Kind named by a tag byte, if any.
pub open spec fn spec_type_of_tag(b: u8) -> Option<FieldType> {
    if b == 0 {
        Some(FieldType::Bool)
    } else if b == 1 {
        Some(FieldType::I32)
    } else if b == 2 {
        Some(FieldType::I64)
    } else if b == 3 {
        Some(FieldType::Decimal)
    } else if b == 4 {
        Some(FieldType::Id)
    } else if b == 5 {
        Some(FieldType::Bytes)
    } else if b == 6 {
        Some(FieldType::String)
    } else {
        None
    }
}

impl FieldType {
    /// The tag byte of this kind.
    pub fn tag(&self) -> (r: u8)
        ensures
            r == spec_tag(*self),
            spec_type_of_tag(r) == Some(*self),
    {
        match self {
            FieldType::Bool => 0,
            FieldType::I32 => 1,
            FieldType::I64 => 2,
            FieldType::Decimal => 3,
            FieldType::Id => 4,
            FieldType::Bytes => 5,
            FieldType::String => 6,
        }
    }

    /// The kind that a tag byte names; `None` for a byte that names none.
    pub fn from_tag(b: u8) -> (r: Option<FieldType>)
        ensures
            r == spec_type_of_tag(b),
            r matches Some(t) ==> spec_tag(t) == b,
    {
        if b == 0 {
            Some(FieldType::Bool)
        } else if b == 1 {
            Some(FieldType::I32)
        } else if b == 2 {
            Some(FieldType::I64)
        } else if b == 3 {
            Some(FieldType::Decimal)
        } else if b == 4 {
            Some(FieldType::Id)
        } else if b == 5 {
            Some(FieldType::Bytes)
        } else if b == 6 {
            Some(FieldType::String)
        } else {
            None
        }
    }
}

/// Mathematical value of a field. A decimal is held as the bit pattern of
/// its IEEE-754 double; a string as its characters.
pub enum FieldValue {
    Bool(bool),
    I32(i32),
    I64(i64),
    Decimal(u64),
    Id(u128),
    Bytes(Seq<u8>),
    String(Seq<char>),
}

/// One column value of a row.
#[derive(Debug)]
pub enum ObjectField {
    Bool(bool),
    I32(i32),
    I64(i64),
    /// Bit pattern of an IEEE-754 double (`f64::to_bits`).
    Decimal(u64),
    Id(u128),
    Bytes(Vec<u8>),
    String(String),
}

impl View for ObjectField {
    type V = FieldValue;

    open spec fn view(&self) -> FieldValue {
        match self {
            ObjectField::Bool(b) => FieldValue::Bool(*b),
            ObjectField::I32(i) => FieldValue::I32(*i),
            ObjectField::I64(i) => FieldValue::I64(*i),
            ObjectField::Decimal(d) => FieldValue::Decimal(*d),
            ObjectField::Id(u) => FieldValue::Id(*u),
            ObjectField::Bytes(b) => FieldValue::Bytes(b@),
            ObjectField::String(s) => FieldValue::String(s@),
        }
    }
}

/// Kind of a field value.
pub open spec fn spec_kind(v: FieldValue) -> FieldType {
    match v {
        FieldValue::Bool(_) => FieldType::Bool,
        FieldValue::I32(_) => FieldType::I32,
        FieldValue::I64(_) => FieldType::I64,
        FieldValue::Decimal(_) => FieldType::Decimal,
        FieldValue::Id(_) => FieldType::Id,
        FieldValue::Bytes(_) => FieldType::Bytes,
        FieldValue::String(_) => FieldType::String,
    }
}

impl ObjectField {
    /// The kind of this field.
    pub fn field_type(&self) -> (r: FieldType)
        ensures
            r == spec_kind(self@),
    {
        match self {
            ObjectField::Bool(_) => FieldType::Bool,
            ObjectField::I32(_) => FieldType::I32,
            ObjectField::I64(_) => FieldType::I64,
            ObjectField::Decimal(_) => FieldType::Decimal,
            ObjectField::Id(_) => FieldType::Id,
            ObjectField::Bytes(_) => FieldType::Bytes,
            ObjectField::String(_) => FieldType::String,
        }
    }

    pub fn as_bool(&self) -> (r: Option<bool>)
        ensures
            r == (match self@ {
                FieldValue::Bool(b) => Some(b),
                _ => None::<bool>,
            }),
    {
        match self {
            ObjectField::Bool(b) => Some(*b),
            _ => None,
        }
    }

    pub fn as_i32(&self) -> (r: Option<i32>)
        ensures
            r == (match self@ {
                FieldValue::I32(i) => Some(i),
                _ => None::<i32>,
            }),
    {
        match self {
            ObjectField::I32(i) => Some(*i),
            _ => None,
        }
    }

    pub fn as_i64(&self) -> (r: Option<i64>)
        ensures
            r == (match self@ {
                FieldValue::I64(i) => Some(i),
                _ => None::<i64>,
            }),
    {
        match self {
            ObjectField::I64(i) => Some(*i),
            _ => None,
        }
    }

    /// The bit pattern of a decimal field.
    pub fn as_decimal(&self) -> (r: Option<u64>)
        ensures
            r == (match self@ {
                FieldValue::Decimal(d) => Some(d),
                _ => None::<u64>,
            }),
    {
        match self {
            ObjectField::Decimal(d) => Some(*d),
            _ => None,
        }
    }

    pub fn as_id(&self) -> (r: Option<u128>)
        ensures
            r == (match self@ {
                FieldValue::Id(u) => Some(u),
                _ => None::<u128>,
            }),
    {
        match self {
            ObjectField::Id(u) => Some(*u),
            _ => None,
        }
    }

    pub fn as_bytes(&self) -> (r: Option<Vec<u8>>)
        ensures
            match self@ {
                FieldValue::Bytes(b) => r matches Some(v) && v@ == b,
                _ => r is None,
            },
    {
        match self {
            ObjectField::Bytes(b) => Some(b.clone()),
            _ => None,
        }
    }

    pub fn as_string(&self) -> (r: Option<String>)
        ensures
            match self@ {
                FieldValue::String(s) => r matches Some(v) && v@ == s,
                _ => r is None,
            },
    {
        match self {
            ObjectField::String(s) => Some(s.clone()),
            _ => None,
        }
    }
}


/// Lexicographic comparison of byte strings: -1, 0 or 1.
pub open spec fn spec_bytes_cmp(a: Seq<u8>, b: Seq<u8>) -> int
    decreases a.len(),
{
    if a.len() == 0 {
        if b.len() == 0 {
            0
        } else {
            -1
        }
    } else if b.len() == 0 {
        1
    } else if a[0] < b[0] {
        -1
    } else if a[0] > b[0] {
        1
    } else {
        spec_bytes_cmp(a.drop_first(), b.drop_first())
    }
}

/// Whether a double's bit pattern is a NaN.
pub open spec fn spec_is_nan(bits: u64) -> bool {
    (bits / 0x10_0000_0000_0000) % 0x800 == 0x7ff && bits % 0x10_0000_0000_0000 != 0
}

/// Integer whose order is the order of doubles: negative values below
/// positive ones, every NaN equal to every other and above all numbers.
pub open spec fn spec_decimal_key(bits: u64) -> u64 {
    if spec_is_nan(bits) {
        u64::MAX
    } else if bits >= 0x8000_0000_0000_0000 {
        (u64::MAX - bits) as u64
    } else {
        (bits + 0x8000_0000_0000_0000) as u64
    }
}

/// Rank of a kind in the order across kinds.
pub open spec fn spec_rank(v: FieldValue) -> u8 {
    spec_tag(spec_kind(v))
}

pub open spec fn spec_int_cmp(a: int, b: int) -> int {
    if a < b {
        -1
    } else if a > b {
        1
    } else {
        0
    }
}

/// Total order of field values: by kind first, then by value.
pub open spec fn spec_field_cmp(a: FieldValue, b: FieldValue) -> int {
    match (a, b) {
        (FieldValue::Bool(x), FieldValue::Bool(y)) => spec_int_cmp(
            if x { 1 } else { 0 },
            if y { 1 } else { 0 },
        ),
        (FieldValue::I32(x), FieldValue::I32(y)) => spec_int_cmp(x as int, y as int),
        (FieldValue::I64(x), FieldValue::I64(y)) => spec_int_cmp(x as int, y as int),
        (FieldValue::Decimal(x), FieldValue::Decimal(y)) => spec_int_cmp(
            spec_decimal_key(x) as int,
            spec_decimal_key(y) as int,
        ),
        (FieldValue::Id(x), FieldValue::Id(y)) => spec_int_cmp(x as int, y as int),
        (FieldValue::Bytes(x), FieldValue::Bytes(y)) => spec_bytes_cmp(x, y),
        (FieldValue::String(x), FieldValue::String(y)) => spec_bytes_cmp(
            encode_utf8(x),
            encode_utf8(y),
        ),
        _ => spec_int_cmp(spec_rank(a) as int, spec_rank(b) as int),
    }
}

proof fn lemma_bytes_cmp_skip(a: Seq<u8>, b: Seq<u8>, i: int)
    requires
        0 <= i <= a.len(),
        i <= b.len(),
        a.subrange(0, i) == b.subrange(0, i),
    ensures
        spec_bytes_cmp(a, b) == spec_bytes_cmp(a.subrange(i, a.len() as int), b.subrange(i, b.len() as int)),
    decreases i,
{
    if i > 0 {
        assert(a[0] == a.subrange(0, i)[0]);
        assert(b[0] == b.subrange(0, i)[0]);
        assert(a.drop_first().subrange(0, i - 1) =~= a.subrange(0, i).drop_first());
        assert(b.drop_first().subrange(0, i - 1) =~= b.subrange(0, i).drop_first());
        lemma_bytes_cmp_skip(a.drop_first(), b.drop_first(), i - 1);
        assert(a.drop_first().subrange(i - 1, a.len() - 1) =~= a.subrange(i, a.len() as int));
        assert(b.drop_first().subrange(i - 1, b.len() - 1) =~= b.subrange(i, b.len() as int));
    } else {
        assert(a.subrange(0, a.len() as int) =~= a);
        assert(b.subrange(0, b.len() as int) =~= b);
    }
}

/// Compares two byte strings lexicographically.
pub fn bytes_cmp(a: &[u8], b: &[u8]) -> (r: i8)
    ensures
        r as int == spec_bytes_cmp(a@, b@),
{
    let mut i: usize = 0;
    while i < a.len() && i < b.len()
        invariant
            0 <= i <= a@.len(),
            i <= b@.len(),
            a@.subrange(0, i as int) == b@.subrange(0, i as int),
        decreases a@.len() - i,
    {
        if a[i] < b[i] {
            proof {
                lemma_bytes_cmp_skip(a@, b@, i as int);
                assert(a@.subrange(i as int, a@.len() as int)[0] == a@[i as int]);
                assert(b@.subrange(i as int, b@.len() as int)[0] == b@[i as int]);
            }
            return -1;
        }
        if a[i] > b[i] {
            proof {
                lemma_bytes_cmp_skip(a@, b@, i as int);
                assert(a@.subrange(i as int, a@.len() as int)[0] == a@[i as int]);
                assert(b@.subrange(i as int, b@.len() as int)[0] == b@[i as int]);
            }
            return 1;
        }
        assert(a@.subrange(0, i + 1) =~= a@.subrange(0, i as int).push(a@[i as int]));
        assert(b@.subrange(0, i + 1) =~= b@.subrange(0, i as int).push(b@[i as int]));
        i = i + 1;
    }
    proof {
        lemma_bytes_cmp_skip(a@, b@, i as int);
    }
    if i < a.len() {
        1
    } else if i < b.len() {
        -1
    } else {
        0
    }
}

/// Order key of a double's bit pattern.
pub fn decimal_key(bits: u64) -> (r: u64)
    ensures
        r == spec_decimal_key(bits),
{
    let exponent = (bits / 0x10_0000_0000_0000) % 0x800;
    let mantissa = bits % 0x10_0000_0000_0000;
    if exponent == 0x7ff && mantissa != 0 {
        u64::MAX
    } else if bits >= 0x8000_0000_0000_0000 {
        u64::MAX - bits
    } else {
        bits + 0x8000_0000_0000_0000
    }
}

fn int_cmp_u128(a: u128, b: u128) -> (r: i8)
    ensures
        r as int == spec_int_cmp(a as int, b as int),
{
    if a < b {
        -1
    } else if a > b {
        1
    } else {
        0
    }
}

fn int_cmp_i64(a: i64, b: i64) -> (r: i8)
    ensures
        r as int == spec_int_cmp(a as int, b as int),
{
    if a < b {
        -1
    } else if a > b {
        1
    } else {
        0
    }
}

impl ObjectField {
    /// Compares two fields in the total order of field values: -1, 0 or 1.
    pub fn compare(&self, other: &ObjectField) -> (r: i8)
        ensures
            r as int == spec_field_cmp(self@, other@),
    {
        match (self, other) {
            (ObjectField::Bool(x), ObjectField::Bool(y)) => int_cmp_i64(
                if *x { 1 } else { 0 },
                if *y { 1 } else { 0 },
            ),
            (ObjectField::I32(x), ObjectField::I32(y)) => int_cmp_i64(*x as i64, *y as i64),
            (ObjectField::I64(x), ObjectField::I64(y)) => int_cmp_i64(*x, *y),
            (ObjectField::Decimal(x), ObjectField::Decimal(y)) => int_cmp_u128(
                decimal_key(*x) as u128,
                decimal_key(*y) as u128,
            ),
            (ObjectField::Id(x), ObjectField::Id(y)) => int_cmp_u128(*x, *y),
            (ObjectField::Bytes(x), ObjectField::Bytes(y)) => bytes_cmp(x.as_slice(), y.as_slice()),
            (ObjectField::String(x), ObjectField::String(y)) => bytes_cmp(
                x.as_str().as_bytes(),
                y.as_str().as_bytes(),
            ),
            _ => {
                let a = self.field_type().tag();
                let b = other.field_type().tag();
                int_cmp_i64(a as i64, b as i64)
            },
        }
    }
}

impl Clone for ObjectField {
    fn clone(&self) -> (r: ObjectField)
        ensures
            r@ == self@,
    {
        match self {
            ObjectField::Bool(b) => ObjectField::Bool(*b),
            ObjectField::I32(i) => ObjectField::I32(*i),
            ObjectField::I64(i) => ObjectField::I64(*i),
            ObjectField::Decimal(d) => ObjectField::Decimal(*d),
            ObjectField::Id(u) => ObjectField::Id(*u),
            ObjectField::Bytes(b) => ObjectField::Bytes(b.clone()),
            ObjectField::String(s) => ObjectField::String(s.clone()),
        }
    }
}

impl PartialEq for ObjectField {
    fn eq(&self, other: &ObjectField) -> (r: bool) {
        self.compare(other) == 0
    }
}

impl vstd::std_specs::cmp::PartialEqSpecImpl for ObjectField {
    open spec fn obeys_eq_spec() -> bool {
        true
    }

    open spec fn eq_spec(&self, other: &ObjectField) -> bool {
        spec_field_cmp(self@, other@) == 0
    }
}

} // verus!

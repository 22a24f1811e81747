//! Reads a row column by column into typed values, the way a structure with
//! one field per column is filled: column `i` goes to field `i`, an `I32`
//! column may fill a 64-bit field, and extra columns are ignored.
use vstd::prelude::*;
use crate::entry_fields::EntryFields;
use crate::errors::DeserializerError;
use crate::field::{FieldValue, ObjectField};
use crate::log_entry::spec_id_bytes;

verus! {

/// A cursor over the columns of one row.
pub struct ObjectDeserializer {
    data: EntryFields,
    index: usize,
}

impl ObjectDeserializer {
    pub closed spec fn columns(&self) -> Seq<FieldValue> {
        self.data@
    }

    /// Index of the next column to read.
    pub closed spec fn position(&self) -> nat {
        self.index as nat
    }

    pub fn new(data: EntryFields) -> (r: ObjectDeserializer)
        ensures
            r.columns() == data@,
            r.position() == 0,
    {
        ObjectDeserializer { data, index: 0 }
    }

    /// Checks that a structure of `field_count` fields can be filled: fails
    /// exactly when the row has fewer columns.
    pub fn check_struct_len(&self, field_count: usize) -> (r: Result<(), DeserializerError>)
        ensures
            r is Err <==> field_count > self.columns().len(),
    {
        if field_count > self.data.len() {
            Err(DeserializerError::from_str("not enough columns in the row to fill the structure"))
        } else {
            Ok(())
        }
    }

    /// The next column, moving past it; `None` when there is none left.
    pub fn next_item(&mut self) -> (r: Option<ObjectField>)
        ensures
            final(self).columns() == old(self).columns(),
            old(self).position() < old(self).columns().len() ==> r is Some
                && r.unwrap()@ == old(self).columns()[old(self).position() as int]
                && final(self).position() == old(self).position() + 1,
            old(self).position() >= old(self).columns().len() ==> r is None && final(self).position() == old(self).position(),
    {
        if self.index < self.data.len() {
            let f = self.data.column(self.index);
            self.index = self.index + 1;
            Some(f)
        } else {
            None
        }
    }

    pub fn next_bool(&mut self) -> (r: Result<bool, DeserializerError>)
        ensures
            final(self).columns() == old(self).columns(),
            r is Ok <==> old(self).position() < old(self).columns().len()
                && old(self).columns()[old(self).position() as int] is Bool,
            r is Ok ==> old(self).columns()[old(self).position() as int] == FieldValue::Bool(r.unwrap())
                && final(self).position() == old(self).position() + 1,
    {
        match self.next_item() {
            Some(ObjectField::Bool(b)) => Ok(b),
            Some(_) => Err(DeserializerError::from_str("column is not a bool")),
            None => Err(DeserializerError::from_str("no more columns in the row")),
        }
    }

    pub fn next_i32(&mut self) -> (r: Result<i32, DeserializerError>)
        ensures
            final(self).columns() == old(self).columns(),
            r is Ok <==> old(self).position() < old(self).columns().len()
                && old(self).columns()[old(self).position() as int] is I32,
            r is Ok ==> old(self).columns()[old(self).position() as int] == FieldValue::I32(r.unwrap())
                && final(self).position() == old(self).position() + 1,
    {
        match self.next_item() {
            Some(ObjectField::I32(i)) => Ok(i),
            Some(_) => Err(DeserializerError::from_str("column is not a 32-bit integer")),
            None => Err(DeserializerError::from_str("no more columns in the row")),
        }
    }

    /// A 64-bit integer; a 32-bit integer column is widened.
    pub fn next_i64(&mut self) -> (r: Result<i64, DeserializerError>)
        ensures
            final(self).columns() == old(self).columns(),
            r is Ok <==> old(self).position() < old(self).columns().len()
                && (old(self).columns()[old(self).position() as int] is I64
                    || old(self).columns()[old(self).position() as int] is I32),
            r is Ok ==> (old(self).columns()[old(self).position() as int] == FieldValue::I64(r.unwrap())
                || old(self).columns()[old(self).position() as int] == FieldValue::I32(r.unwrap() as i32)
                    && i32::MIN <= r.unwrap() <= i32::MAX)
                && final(self).position() == old(self).position() + 1,
    {
        match self.next_item() {
            Some(ObjectField::I64(i)) => Ok(i),
            Some(ObjectField::I32(i)) => Ok(i as i64),
            Some(_) => Err(DeserializerError::from_str("column is not an integer")),
            None => Err(DeserializerError::from_str("no more columns in the row")),
        }
    }

    /// The bit pattern of a decimal column.
    pub fn next_decimal(&mut self) -> (r: Result<u64, DeserializerError>)
        ensures
            final(self).columns() == old(self).columns(),
            r is Ok <==> old(self).position() < old(self).columns().len()
                && old(self).columns()[old(self).position() as int] is Decimal,
            r is Ok ==> old(self).columns()[old(self).position() as int] == FieldValue::Decimal(r.unwrap())
                && final(self).position() == old(self).position() + 1,
    {
        match self.next_item() {
            Some(ObjectField::Decimal(d)) => Ok(d),
            Some(_) => Err(DeserializerError::from_str("column is not a decimal")),
            None => Err(DeserializerError::from_str("no more columns in the row")),
        }
    }

    pub fn next_string(&mut self) -> (r: Result<String, DeserializerError>)
        ensures
            final(self).columns() == old(self).columns(),
            r is Ok <==> old(self).position() < old(self).columns().len()
                && old(self).columns()[old(self).position() as int] is String,
            r is Ok ==> old(self).columns()[old(self).position() as int] == FieldValue::String(r.unwrap()@)
                && final(self).position() == old(self).position() + 1,
    {
        match self.next_item() {
            Some(ObjectField::String(s)) => Ok(s),
            Some(_) => Err(DeserializerError::from_str("column is not a string")),
            None => Err(DeserializerError::from_str("no more columns in the row")),
        }
    }

    /// Raw bytes: of a byte column, of an id (its sixteen big-endian bytes),
    /// or of a string (its UTF-8 bytes).
    pub fn next_bytes(&mut self) -> (r: Result<Vec<u8>, DeserializerError>)
        ensures
            final(self).columns() == old(self).columns(),
            r is Ok <==> old(self).position() < old(self).columns().len()
                && (old(self).columns()[old(self).position() as int] is Bytes
                    || old(self).columns()[old(self).position() as int] is Id
                    || old(self).columns()[old(self).position() as int] is String),
            r is Ok ==> match old(self).columns()[old(self).position() as int] {
                FieldValue::Bytes(b) => r.unwrap()@ == b,
                FieldValue::Id(u) => r.unwrap()@ == spec_id_bytes(u),
                FieldValue::String(s) => r.unwrap()@ == vstd::utf8::encode_utf8(s),
                _ => false,
            },
    {
        match self.next_item() {
            Some(ObjectField::Bytes(b)) => Ok(b),
            Some(ObjectField::Id(u)) => {
                let mut out: Vec<u8> = Vec::new();
                crate::log_entry::push_id(u, &mut out);
                assert(out@ =~= spec_id_bytes(u));
                Ok(out)
            },
            Some(ObjectField::String(s)) => Ok(vstd::slice::slice_to_vec(s.as_str().as_bytes())),
            Some(_) => Err(DeserializerError::from_str("column is not bytes")),
            None => Err(DeserializerError::from_str("no more columns in the row")),
        }
    }
}

} // verus!

use db::entry_fields::EntryFields;
use db::field::{FieldType, ObjectField};
use db::log_entry::{EntityEntry, LogEntry};
use db::log_file::{LogFile, SplitByLengthEncoding};
use db::field_codec::IntoHashable;
use db::ObjectDeserializer;

fn row(fields: Vec<ObjectField>) -> EntryFields {
    EntryFields::new(&fields).unwrap()
}

#[test]
fn test_deserialization_serialization() {
    let mut data: Vec<u8> = vec![
        0, 0, 0, 0, 0, 0, 0, 0, 0, 0, 0, 0, 0, 0, 0, 0, // transaction id
        1, // kind: update
        2, 3, 2, 3, 2, 3, 2, 3, 2, 3, 2, 3, 2, 3, 2, 3, // row id
        4, // column count
        FieldType::I64.tag(),
        FieldType::I32.tag(),
        FieldType::String.tag(),
        FieldType::Bool.tag(),
        12, 0, 0, 0, 0, 0, 0, 0, // i64
        9, 0, 0, 0, // i32
        13, // string length
    ];
    data.extend("Hello, World!".as_bytes());
    data.extend([1]); // bool

    let entry = LogEntry::decompress(&data).unwrap();

    assert_eq!(entry.byte_size(), 136);
    match entry {
        LogEntry::Entity(transaction_id, EntityEntry::Updated(ref row)) => {
            assert_eq!(transaction_id, uuid::Uuid::nil().as_u128());
            assert_eq!(row.id, uuid::Uuid::parse_str("02030203020302030203020302030203").unwrap().as_u128());
            assert_eq!(row.fields.len(), 4);
            let checks = vec![
                row.fields.column(0),
                row.fields.column(1),
                row.fields.column(2),
                row.fields.column(3),
            ];
            let wanted: Vec<ObjectField> = vec![
                ObjectField::I64(12),
                ObjectField::I32(9),
                ObjectField::String("Hello, World!".to_string()),
                ObjectField::Bool(true),
            ];
            assert_eq!(checks, wanted);
        }
        _ => panic!("entry should be an entity update!"),
    }

    let mut output = vec![];
    entry.compress_to(&mut output);
    assert_eq!(output, data);
}

#[test]
fn test_splitting() {
    let mut data: Vec<u8> = vec![];
    data.extend(vint64::encode(5).as_ref());
    data.extend([1, 2, 3, 4, 5]);
    data.extend(vint64::encode(8).as_ref());
    data.extend([8, 7, 6, 5, 4, 3, 2, 1]);

    let mut split = SplitByLengthEncoding::new(data.clone());
    let mut splitted = vec![];
    while let Some(frame) = split.next() {
        splitted.push(frame.unwrap());
    }

    assert_eq!(splitted.len(), 2);
    assert_eq!(data[splitted[0].0..splitted[0].1], [1, 2, 3, 4, 5]);
    assert_eq!(data[splitted[1].0..splitted[1].1], [8, 7, 6, 5, 4, 3, 2, 1]);
}

#[test]
fn test_deserialization() {
    let entry = row(vec![
        ObjectField::I32(12),
        ObjectField::String("test string".to_string()),
        ObjectField::Decimal(4.55f64.to_bits()),
    ]);
    let mut d = ObjectDeserializer::new(entry);
    d.check_struct_len(3).unwrap();
    let a = d.next_i64().unwrap();
    let b = d.next_string().unwrap();
    let c = f64::from_bits(d.next_decimal().unwrap());
    assert_eq!(12, a);
    assert_eq!("test string", b);
    assert_eq!(4.55, c);
}

#[test]
fn test_deserialization_more_columns() {
    let entry = row(vec![
        ObjectField::I32(12),
        ObjectField::String("test string".to_string()),
        ObjectField::Decimal(4.55f64.to_bits()),
        ObjectField::I32(5),
    ]);
    let mut d = ObjectDeserializer::new(entry);
    d.check_struct_len(3).unwrap();
    let a = d.next_i64().unwrap();
    let b = d.next_string().unwrap();
    let c = f64::from_bits(d.next_decimal().unwrap());
    assert_eq!(12, a);
    assert_eq!("test string", b);
    assert_eq!(4.55, c);
}

#[test]
fn test_deserialization_not_enough_columns() {
    let entry = row(vec![ObjectField::I32(12), ObjectField::String("test string".to_string())]);
    let d = ObjectDeserializer::new(entry);
    let res = d.check_struct_len(3);
    assert!(res.is_err());
}

#[test]
fn test_deserialization_different_column_format() {
    let entry = row(vec![ObjectField::I32(12), ObjectField::String("test string".to_string())]);
    let mut d = ObjectDeserializer::new(entry);
    d.check_struct_len(2).unwrap();
    let a = d.next_i64().unwrap();
    let b = d.next_string().unwrap();
    assert_eq!(12, a);
    assert_eq!("test string", b);
}

#[test]
fn deserializer_rejects_wrong_kind_and_missing_column() {
    let entry = row(vec![ObjectField::Bool(true)]);
    let mut d = ObjectDeserializer::new(entry);
    assert!(d.next_i32().is_err());
    let mut d = ObjectDeserializer::new(row(vec![ObjectField::Bool(true)]));
    assert_eq!(d.next_bool().unwrap(), true);
    assert!(d.next_bool().is_err());
}

#[test]
fn field_round_trip_every_kind() {
    let fields = vec![
        ObjectField::Bool(false),
        ObjectField::Bool(true),
        ObjectField::I32(-7),
        ObjectField::I64(i64::MIN),
        ObjectField::Decimal(f64::NAN.to_bits()),
        ObjectField::Decimal((-0.5f64).to_bits()),
        ObjectField::Id(0x0102_0304_0506_0708_090a_0b0c_0d0e_0f10),
        ObjectField::Bytes(vec![]),
        ObjectField::Bytes(vec![1, 2, 3]),
        ObjectField::String(String::new()),
        ObjectField::String("ż".repeat(200)),
        ObjectField::String("x".repeat(1000)),
    ];
    for f in fields {
        let mut buf = vec![];
        f.encode_to(&mut buf);
        buf.extend([9, 9]);
        let (back, used) = ObjectField::decode(&buf).unwrap();
        assert_eq!(back, f);
        assert_eq!(used, buf.len() - 2);
    }
}

#[test]
fn field_codec_uses_varint_lengths() {
    let mut buf = vec![];
    ObjectField::String("ab".to_string()).encode_to(&mut buf);
    assert_eq!(buf, vec![FieldType::String.tag(), 0x05, b'a', b'b']);
    let mut buf = vec![];
    ObjectField::I32(1).encode_to(&mut buf);
    assert_eq!(buf, vec![1, 1, 0, 0, 0]);
    assert!(ObjectField::decode(&[7]).is_none());
    assert!(ObjectField::decode(&[FieldType::Bytes.tag(), 0x07, 1, 2]).is_none());
}

#[test]
fn row_layout_and_columns() {
    let r = row(vec![ObjectField::Bool(true), ObjectField::String("hi".to_string()), ObjectField::I32(258)]);
    assert_eq!(r.as_bytes(), &[3, 0, 6, 1, 1, 2, b'h', b'i', 2, 1, 0, 0]);
    assert_eq!(r.len(), 3);
    assert_eq!(r.column(2), ObjectField::I32(258));
    assert_eq!(r.column_types(), vec![FieldType::Bool, FieldType::String, FieldType::I32]);
    let back = EntryFields::parse(r.as_bytes()).unwrap();
    assert_eq!(back.fields(), r.fields());
    assert!(EntryFields::parse(&[1, 0, 2]).is_none());
    assert!(EntryFields::parse(&[1, 9, 0]).is_none());
}

#[test]
fn row_limits() {
    assert!(EntryFields::new(&vec![ObjectField::String("x".repeat(255))]).is_some());
    assert!(EntryFields::new(&vec![ObjectField::String("x".repeat(256))]).is_none());
    assert!(EntryFields::new(&vec![ObjectField::Bool(true); 256]).is_none());
    let empty = EntryFields::new(&vec![]).unwrap();
    assert!(empty.is_empty());
    let a = row(vec![ObjectField::I32(1)]);
    let b = row(vec![ObjectField::Bool(false), ObjectField::Bytes(vec![7])]);
    let c = EntryFields::combine(&a, &b).unwrap();
    assert_eq!(c.fields(), vec![ObjectField::I32(1), ObjectField::Bool(false), ObjectField::Bytes(vec![7])]);
}

#[test]
fn log_entry_round_trip() {
    let entries = vec![
        LogEntry::update(5, 6, row(vec![ObjectField::I64(3)])),
        LogEntry::delete(5, 6),
        LogEntry::commit(5),
        LogEntry::rollback(7),
    ];
    for e in &entries {
        let mut buf = vec![];
        e.compress_to(&mut buf);
        let back = LogEntry::decompress(&buf).unwrap();
        let mut again = vec![];
        back.compress_to(&mut again);
        assert_eq!(buf, again);
        assert_eq!(back.transaction_id(), e.transaction_id());
    }
    assert!(LogEntry::decompress(&[0; 16]).is_err());
    let mut bad = vec![0u8; 16];
    bad.push(9);
    assert!(LogEntry::decompress(&bad).is_err());
}

#[test]
fn segment_file_round_trip() {
    let entries = vec![
        LogEntry::update(0, 1, row(vec![ObjectField::I32(1)])),
        LogEntry::delete(0, 2),
        LogEntry::commit(3),
    ];
    let bytes = LogFile::serialize(&entries);
    assert_eq!(bytes[0], 79);
    let file = LogFile::deserialize(bytes.clone(), 4).unwrap();
    assert_eq!(file.index, 4);
    assert_eq!(file.entries.len(), 3);
    assert_eq!(LogFile::serialize(&file.entries), bytes);
    let truncated = bytes[..bytes.len() - 1].to_vec();
    assert!(LogFile::deserialize(truncated, 4).is_err());
    assert_eq!(LogFile::deserialize(vec![], 0).unwrap().entries.len(), 0);
}

#[test]
fn field_order_across_and_within_kinds() {
    let order = vec![
        ObjectField::Bool(false),
        ObjectField::Bool(true),
        ObjectField::I32(-1),
        ObjectField::I64(0),
        ObjectField::Decimal((-1.0f64).to_bits()),
        ObjectField::Decimal(2.0f64.to_bits()),
        ObjectField::Decimal(f64::NAN.to_bits()),
        ObjectField::Id(1),
        ObjectField::Bytes(vec![0]),
        ObjectField::String("a".to_string()),
        ObjectField::String("b".to_string()),
    ];
    for i in 0..order.len() - 1 {
        assert_eq!(order[i].compare(&order[i + 1]), -1);
        assert_eq!(order[i + 1].compare(&order[i]), 1);
    }
    assert_eq!(ObjectField::Decimal(f64::NAN.to_bits()).compare(&ObjectField::Decimal((-f64::NAN).to_bits())), 0);
    assert_eq!(ObjectField::field_type(&ObjectField::Id(3)), FieldType::Id);
    assert_eq!(FieldType::from_tag(6), Some(FieldType::String));
    assert_eq!(FieldType::from_tag(7), None);
}

#[test]
fn invalid_utf8_is_rejected() {
    // one string column holding the bytes ff fe
    assert!(EntryFields::parse(&[1, FieldType::String.tag(), 2, 0xff, 0xfe]).is_none());
    assert!(ObjectField::decode(&[FieldType::String.tag(), 0x05, 0xff, 0xfe]).is_none());
    let ok = EntryFields::parse(&[1, FieldType::String.tag(), 2, b'o', b'k']).unwrap();
    assert_eq!(ok.column(0), ObjectField::String("ok".to_string()));
}

#[test]
fn canonical_keys_are_tagged_encodings() {
    assert_eq!(ObjectField::I32(1).to_hashable(), vec![1, 1, 0, 0, 0]);
    assert_eq!(ObjectField::Bool(true).to_hashable(), vec![0, 1]);
    assert_ne!(ObjectField::I32(1).to_hashable(), ObjectField::I64(1).to_hashable());
    assert_ne!(
        ObjectField::Bytes(b"ab".to_vec()).to_hashable(),
        ObjectField::String("ab".to_string()).to_hashable()
    );
}

#[test]
fn column_data_and_value_region() {
    let r = row(vec![ObjectField::I32(-2), ObjectField::Bytes(vec![5, 6]), ObjectField::Id(1)]);
    let (t, b) = r.get_column_data(1);
    assert_eq!(t, FieldType::Bytes);
    assert_eq!(b, &[5, 6]);
    let (t, b) = r.get_column_data(0);
    assert_eq!(t, FieldType::I32);
    assert_eq!(b, &[0xfe, 0xff, 0xff, 0xff]);
    assert_eq!(r.column_bytes().len(), 4 + 3 + 16);
    let mut d = ObjectDeserializer::new(r);
    assert_eq!(d.next_i32().unwrap(), -2);
    assert_eq!(d.next_bytes().unwrap(), vec![5, 6]);
    let mut id = vec![0u8; 15];
    id.push(1);
    assert_eq!(d.next_bytes().unwrap(), id);
}

#[test]
fn segment_file_names() {
    assert_eq!(db::layout::log_file_index("0.log"), Some(0));
    assert_eq!(db::layout::log_file_index("12.log"), Some(12));
    assert_eq!(db::layout::log_file_index(".log"), None);
    assert_eq!(db::layout::log_file_index("12.txt"), None);
    assert_eq!(db::layout::log_file_index("1a.log"), None);
    assert_eq!(db::layout::log_file_index("99999999999999999999999.log"), None);
}

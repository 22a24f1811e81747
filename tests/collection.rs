use db::collection::Collection;
use db::errors::{DatabaseError, StorageError};
use db::field::ObjectField;
use db::log_entry::Row;
use db::log_file::LogFile;
use db::{collect, DBOperator, EntryFields, MAX_TRANSACTION, ObjectDeserializer};

fn fields(v: Vec<ObjectField>) -> EntryFields {
    EntryFields::new(&v).unwrap()
}

fn sample_row(id: u128) -> Row {
    Row {
        id,
        fields: fields(vec![
            ObjectField::String("Michał".to_string()),
            ObjectField::I32(26),
            ObjectField::Decimal(654.645f64.to_bits()),
        ]),
    }
}

fn new_id() -> u128 {
    uuid::Uuid::new_v4().as_u128()
}

fn scan_all(c: &Collection, tx: u128) -> Vec<Row> {
    let mut scan = c.table_scan(tx);
    collect(&mut scan).unwrap()
}

#[test]
fn save_speed_test() {
    let mut collection = Collection::new("table".to_string(), 8192);
    for _ in 1..1000 {
        collection.set_object(0, new_id(), sample_row(0).fields).unwrap();
    }
    assert_eq!(scan_all(&collection, MAX_TRANSACTION).len(), 999);
}

#[test]
fn save_multiple_speed_test() {
    let mut collection = Collection::new("table".to_string(), 8192);
    let data: Vec<Row> = (1..10000).map(|_| sample_row(new_id())).collect();
    assert_eq!(collection.set_objects(0, data).unwrap(), 9999);
}

#[test]
fn save_multiple_tables_speed_test() {
    let id = new_id();
    let mut collection1 = Collection::new("table".to_string(), 8192);
    collection1.set_object(0, id, sample_row(id).fields).unwrap();
    let mut collection2 = Collection::new("table2".to_string(), 8192);
    collection2.set_object(0, id, sample_row(id).fields).unwrap();
    assert_eq!(collection1.name(), "table");
    assert_eq!(collection2.name(), "table2");
}

#[test]
fn collection_iteration() {
    let mut collection = Collection::new("table".to_string(), 8192);
    let data: Vec<Row> = (1..10000).map(|_| sample_row(new_id())).collect();
    collection.set_objects(0, data).unwrap();

    let rows = scan_all(&collection, uuid::Uuid::now_v7().as_u128());
    let mut decoded = vec![];
    for row in rows {
        let mut d = ObjectDeserializer::new(row.fields);
        d.check_struct_len(3).unwrap();
        let a = d.next_string().unwrap();
        let b = d.next_i32().unwrap();
        let c = f64::from_bits(d.next_decimal().unwrap());
        decoded.push((a, b, c));
    }
    assert_eq!(decoded.len(), 9999);
    assert_eq!(decoded[0], ("Michał".to_string(), 26, 654.645));
}

#[test]
fn insert_and_scan_ten_thousand_rows() {
    let mut c = Collection::new("t".to_string(), 8192);
    let rows: Vec<Row> = (0..10000u128)
        .map(|i| Row {
            id: i + 1,
            fields: fields(vec![
                ObjectField::I32(i as i32),
                ObjectField::I32(2),
                ObjectField::I32(3),
                ObjectField::Bool(i % 2 == 0),
            ]),
        })
        .collect();
    assert_eq!(c.set_objects(0, rows).unwrap(), 10000);
    assert_eq!(scan_all(&c, MAX_TRANSACTION).len(), 10000);
    assert_eq!(c.last_segment_index(), 1);
    assert_eq!(c.get_file(0).unwrap().entries.len(), 8192);
    assert_eq!(c.get_file(1).unwrap().entries.len(), 10000 - 8192);
}

#[test]
fn tombstone_suppression() {
    let mut c = Collection::new("t".to_string(), 8192);
    let r = 42u128;
    c.set_objects(0, vec![Row { id: r, fields: fields(vec![ObjectField::I32(1)]) }]).unwrap();
    c.set_objects(0, vec![Row { id: r, fields: fields(vec![]) }]).unwrap();
    assert!(scan_all(&c, MAX_TRANSACTION).iter().all(|row| row.id != r));
}

#[test]
fn snapshot_isolation() {
    let mut c = Collection::new("t".to_string(), 8192);
    let (t1, t2) = (10u128, 20u128);
    c.set_objects(t1, vec![Row { id: 1, fields: fields(vec![ObjectField::I32(1)]) }]).unwrap();
    c.commit(t1);
    c.set_objects(t2, vec![Row { id: 2, fields: fields(vec![ObjectField::I32(2)]) }]).unwrap();
    let ids = |c: &Collection, tx: u128| {
        let mut v: Vec<u128> = scan_all(c, tx).iter().map(|r| r.id).collect();
        v.sort();
        v
    };
    assert_eq!(ids(&c, t1), vec![1]);
    assert_eq!(ids(&c, t2), vec![1]);
    c.commit(t2);
    assert_eq!(ids(&c, t2), vec![1, 2]);
    assert_eq!(ids(&c, t1), vec![1]);
}

#[test]
fn rolled_back_writes_stay_invisible() {
    let mut c = Collection::new("t".to_string(), 8192);
    c.set_objects(5, vec![Row { id: 1, fields: fields(vec![ObjectField::I32(1)]) }]).unwrap();
    c.rollback(5);
    assert_eq!(scan_all(&c, MAX_TRANSACTION).len(), 0);
}

#[test]
fn latest_version_wins() {
    let mut c = Collection::new("t".to_string(), 8192);
    c.set_objects(0, vec![Row { id: 1, fields: fields(vec![ObjectField::I32(1)]) }]).unwrap();
    c.set_objects(0, vec![Row { id: 1, fields: fields(vec![ObjectField::I32(2)]) }]).unwrap();
    let rows = scan_all(&c, MAX_TRANSACTION);
    assert_eq!(rows.len(), 1);
    assert_eq!(rows[0].fields.column(0), ObjectField::I32(2));
}

#[test]
fn write_commit_scan_gives_back_the_rows() {
    let mut c = Collection::new("t".to_string(), 4);
    let rows: Vec<Row> = (1..=6u128).map(|i| Row { id: i, fields: fields(vec![ObjectField::I64(i as i64)]) }).collect();
    c.set_objects(77, rows).unwrap();
    c.commit(77);
    let mut got: Vec<(u128, ObjectField)> = scan_all(&c, 77).iter().map(|r| (r.id, r.fields.column(0))).collect();
    got.sort_by_key(|p| p.0);
    let want: Vec<(u128, ObjectField)> = (1..=6u128).map(|i| (i, ObjectField::I64(i as i64))).collect();
    assert_eq!(got, want);
}

#[test]
fn segment_boundary() {
    let mut c = Collection::new("t".to_string(), 3);
    let rows: Vec<Row> = (1..=3u128).map(|i| Row { id: i, fields: fields(vec![ObjectField::I32(1)]) }).collect();
    c.set_objects(0, rows).unwrap();
    assert_eq!(c.last_segment_index(), 0);
    assert_eq!(c.get_file(0).unwrap().entries.len(), 3);
    c.set_objects(0, vec![Row { id: 4, fields: fields(vec![ObjectField::I32(1)]) }]).unwrap();
    assert_eq!(c.last_segment_index(), 1);
    assert_eq!(c.get_file(1).unwrap().entries.len(), 1);
    assert_eq!(c.get_file(1).unwrap().index, 1);
}

#[test]
fn schema_shape_rejection() {
    let mut c = Collection::new("t".to_string(), 8192);
    c.set_objects(0, vec![Row { id: 1, fields: fields(vec![ObjectField::I32(1)]) }]).unwrap();
    let res = c.set_objects(0, vec![
        Row { id: 2, fields: fields(vec![ObjectField::I32(5)]) },
        Row { id: 3, fields: fields(vec![ObjectField::Bool(true)]) },
        Row { id: 4, fields: fields(vec![ObjectField::I64(2)]) },
    ]);
    match res {
        Err(DatabaseError::Storage(StorageError::Schema(_, id))) => assert_eq!(id, 3),
        _ => panic!("expected a schema error"),
    }
    assert_eq!(c.get_file(0).unwrap().entries.len(), 1);
    assert_eq!(c.statistics.approximate_total_entries, 1);
    assert!(c.set_objects(0, vec![Row { id: 1, fields: fields(vec![]) }]).is_ok());
}

#[test]
fn scan_emits_each_id_once() {
    let mut c = Collection::new("t".to_string(), 2);
    for v in 0..5 {
        c.set_objects(0, vec![Row { id: 9, fields: fields(vec![ObjectField::I32(v)]) }]).unwrap();
    }
    let rows = scan_all(&c, MAX_TRANSACTION);
    assert_eq!(rows.len(), 1);
    assert_eq!(rows[0].fields.column(0), ObjectField::I32(4));
}

#[test]
fn compaction_keeps_latest_state() {
    let mut c = Collection::new("t".to_string(), 4);
    let rows: Vec<Row> = (1..=4u128).map(|i| Row { id: i, fields: fields(vec![ObjectField::I32(i as i32)]) }).collect();
    c.set_objects(0, rows).unwrap();
    c.set_objects(0, vec![
        Row { id: 1, fields: fields(vec![ObjectField::I32(10)]) },
        Row { id: 2, fields: fields(vec![]) },
    ]).unwrap();
    c.compact_files(0, 1).unwrap();
    let mut got: Vec<(u128, ObjectField)> = scan_all(&c, MAX_TRANSACTION).iter().map(|r| (r.id, r.fields.column(0))).collect();
    got.sort_by_key(|p| p.0);
    assert_eq!(got, vec![(1, ObjectField::I32(10)), (3, ObjectField::I32(3)), (4, ObjectField::I32(4))]);
    assert!(c.compact_files(0, 2).is_err());
}

#[test]
fn statistics_counters() {
    let mut c = Collection::new("t".to_string(), 8);
    c.set_objects(0, vec![Row { id: 1, fields: fields(vec![ObjectField::I32(1)]) }]).unwrap();
    assert_eq!(c.statistics.approximate_total_entries, 1);
    let mut s = db::statistics::CollectionStatistics::new();
    s.count_entry(false);
    s.count_entry(true);
    assert_eq!(s.approximate_entries(), 1);
    assert!(s.should_compact(50));
    assert!(!s.should_compact(51));
}

#[test]
fn inconsistent_segments_are_refused() {
    assert!(matches!(
        Collection::from_segments("t".to_string(), 4, vec![]),
        Err(StorageError::Inconsistency())
    ));
    assert!(matches!(
        Collection::from_segments("t".to_string(), 4, vec![LogFile::new(1)]),
        Err(StorageError::Inconsistency())
    ));
    let ok = Collection::from_segments("t".to_string(), 4, vec![LogFile::new(0), LogFile::new(1)]).unwrap();
    assert_eq!(ok.last_segment_index(), 1);
}

#[test]
fn malformed_segment_is_a_parse_error() {
    assert!(matches!(LogFile::deserialize(vec![0x05, 1], 0), Err(StorageError::Parse(_))));
}

#[test]
fn compaction_refuses_more_than_two_segments_of_rows() {
    let mut c = Collection::new("t".to_string(), 2);
    let rows: Vec<Row> = (1..=4u128).map(|i| Row { id: i, fields: fields(vec![ObjectField::I32(1)]) }).collect();
    c.set_objects(0, rows).unwrap();
    c.set_objects(0, vec![Row { id: 9, fields: fields(vec![ObjectField::I32(1)]) }]).unwrap();
    assert!(c.compact_files(0, 1).is_ok());
    let mut d = Collection::new("u".to_string(), 1);
    d.set_objects(0, vec![Row { id: 1, fields: fields(vec![ObjectField::I32(1)]) }]).unwrap();
    d.set_objects(0, vec![Row { id: 2, fields: fields(vec![ObjectField::I32(1)]) }]).unwrap();
    assert!(d.compact_files(0, 1).is_ok());
    assert!(d.compact_files(1, 0).is_err());
}

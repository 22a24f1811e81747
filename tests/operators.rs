use db::collection::Collection;
use db::errors::{DatabaseError, QueryError};
use db::field::ObjectField;
use db::log_entry::Row;
use db::operators::select::SelectBuilder;
use db::{collect, EntryFields, Filter, HashMatch, InMemorySort, NestedLoop, Select, Skip, SortDirection, Take, MAX_TRANSACTION};

fn fields(v: Vec<ObjectField>) -> EntryFields {
    EntryFields::new(&v).unwrap()
}

fn table_with(rows: Vec<Row>) -> Collection {
    let mut c = Collection::new("t".to_string(), 8192);
    c.set_objects(0, rows).unwrap();
    c
}

fn left_rows() -> Vec<Row> {
    (0..10000u128)
        .map(|i| Row {
            id: i + 1,
            fields: fields(vec![
                ObjectField::I32(i as i32 * 7),
                ObjectField::String(format!("first{}", i)),
                ObjectField::String(format!("last{}", i)),
                ObjectField::I32((i % 100) as i32),
                ObjectField::Decimal((i as f64 * 0.5).to_bits()),
                ObjectField::Bool(i % 3 == 0),
            ]),
        })
        .collect()
}

fn right_rows() -> Vec<Row> {
    (0..100u128)
        .map(|i| Row {
            id: 100_000 + i,
            fields: fields(vec![ObjectField::I32(i as i32), ObjectField::String(format!("country{}", i))]),
        })
        .collect()
}

#[test]
fn nested_loop_test() {
    let table1 = table_with(left_rows());
    let table2 = table_with(right_rows());
    let transaction = uuid::Uuid::now_v7().as_u128();
    let mut join = NestedLoop::new(table1.table_scan(transaction), table2.table_scan(transaction), 3, 0);
    let rows = collect(&mut join).unwrap();
    assert_eq!(rows.len(), 10000);
    assert_eq!(rows[0].fields.len(), 8);
}

#[test]
fn hash_join_cardinality() {
    let table1 = table_with(left_rows());
    let table2 = table_with(right_rows());
    let mut join = HashMatch::new(table1.table_scan(MAX_TRANSACTION), table2.table_scan(MAX_TRANSACTION), 3, 0);
    let rows = collect(&mut join).unwrap();
    assert_eq!(rows.len(), 10000);
    for r in rows.iter().take(50) {
        assert_eq!(r.fields.column(3), r.fields.column(6));
    }
}

fn keyed(keys: &[i32]) -> Collection {
    let mut c = Collection::new("k".to_string(), 8192);
    let rows: Vec<Row> = keys
        .iter()
        .enumerate()
        .map(|(i, k)| Row { id: i as u128 + 1, fields: fields(vec![ObjectField::I32(*k)]) })
        .collect();
    // written one by one, so that the scan (newest first) yields them in input order
    for r in rows.into_iter().rev() {
        c.set_objects(0, vec![r]).unwrap();
    }
    c
}

fn keys_of(rows: &[Row]) -> Vec<i32> {
    rows.iter().map(|r| r.fields.column(0).as_i32().unwrap()).collect()
}

#[test]
fn sort_direction() {
    let c = keyed(&[3, 1, 4, 1, 5, 9, 2, 6]);
    let mut asc = InMemorySort::new(c.table_scan(MAX_TRANSACTION), 0, SortDirection::Ascending);
    assert_eq!(keys_of(&collect(&mut asc).unwrap()), vec![1, 1, 2, 3, 4, 5, 6, 9]);
    let mut desc = InMemorySort::new(c.table_scan(MAX_TRANSACTION), 0, SortDirection::Descending);
    assert_eq!(keys_of(&collect(&mut desc).unwrap()), vec![9, 6, 5, 4, 3, 2, 1, 1]);
}

#[test]
fn scan_order_is_newest_first() {
    let c = keyed(&[3, 1, 4]);
    let mut scan = c.table_scan(MAX_TRANSACTION);
    assert_eq!(keys_of(&collect(&mut scan).unwrap()), vec![3, 1, 4]);
}

#[test]
fn select_with_max_aggregate() {
    let input = [("a", "b", 5), ("a", "b", 7), ("a", "b", 2), ("c", "d", 3)];
    let mut c = Collection::new("s".to_string(), 8192);
    for (i, (x, y, v)) in input.iter().enumerate().rev() {
        let row = Row {
            id: i as u128 + 1,
            fields: fields(vec![
                ObjectField::I32(0),
                ObjectField::String(x.to_string()),
                ObjectField::String(y.to_string()),
                ObjectField::I32(0),
                ObjectField::I32(*v),
            ]),
        };
        c.set_objects(0, vec![row]).unwrap();
    }
    let builder = SelectBuilder::new().column(1).column(2).max_value(4);
    let mut select = Select::new(c.table_scan(MAX_TRANSACTION), builder);
    let rows = collect(&mut select).unwrap();
    let got: Vec<Vec<ObjectField>> = rows.iter().map(|r| r.fields.fields()).collect();
    let want = vec![
        vec![ObjectField::String("a".to_string()), ObjectField::String("b".to_string()), ObjectField::I32(7)],
        vec![ObjectField::String("c".to_string()), ObjectField::String("d".to_string()), ObjectField::I32(3)],
    ];
    assert_eq!(got, want);
}

#[test]
fn select_sum_min_count() {
    let c = keyed(&[2, 2, 5]);
    let builder = SelectBuilder::new().sum_value(0).min_value(0).count().count_when(0);
    let mut select = Select::new(c.table_scan(MAX_TRANSACTION), builder);
    let rows = collect(&mut select).unwrap();
    assert_eq!(rows.len(), 1);
    assert_eq!(
        rows[0].fields.fields(),
        vec![ObjectField::I32(9), ObjectField::I32(2), ObjectField::I64(3), ObjectField::I64(3)]
    );
    let plain = SelectBuilder::new().value(0);
    let mut select = Select::new(c.table_scan(MAX_TRANSACTION), plain);
    assert_eq!(collect(&mut select).unwrap().len(), 3);
    let missing = SelectBuilder::new().max_value(5);
    let mut select = Select::new(c.table_scan(MAX_TRANSACTION), missing);
    assert!(collect(&mut select).is_err());
}

#[test]
fn filter_take_skip() {
    let c = keyed(&[1, 2, 3, 4, 5, 6]);
    let even = |f: &EntryFields| f.column(0).as_i32().unwrap() % 2 == 0;
    let mut filtered = Filter::new(c.table_scan(MAX_TRANSACTION), even);
    assert_eq!(keys_of(&collect(&mut filtered).unwrap()), vec![2, 4, 6]);
    let mut taken = Take::new(c.table_scan(MAX_TRANSACTION), 4);
    assert_eq!(keys_of(&collect(&mut taken).unwrap()), vec![1, 2, 3, 4]);
    let mut skipped = Skip::new(c.table_scan(MAX_TRANSACTION), 4);
    assert_eq!(keys_of(&collect(&mut skipped).unwrap()), vec![5, 6]);
    let mut all = Take::new(Skip::new(c.table_scan(MAX_TRANSACTION), 10), 1);
    assert_eq!(collect(&mut all).unwrap().len(), 0);
}

#[test]
fn join_refuses_rows_over_255_columns() {
    let wide = |id: u128| Row { id, fields: fields(vec![ObjectField::I32(1); 200]) };
    let left = table_with(vec![wide(1)]);
    let right = table_with(vec![wide(2)]);
    let mut join = NestedLoop::new(left.table_scan(MAX_TRANSACTION), right.table_scan(MAX_TRANSACTION), 0, 0);
    assert!(matches!(collect(&mut join), Err(DatabaseError::Query(QueryError::TooManyColumns()))));
}

#[test]
fn sum_of_strings_is_an_aggregate_error() {
    let mut c = Collection::new("s".to_string(), 8192);
    for i in 0..2u128 {
        c.set_objects(0, vec![Row { id: i + 1, fields: fields(vec![ObjectField::String("x".to_string())]) }]).unwrap();
    }
    let mut select = Select::new(c.table_scan(MAX_TRANSACTION), SelectBuilder::new().sum_value(0));
    assert!(matches!(collect(&mut select), Err(DatabaseError::Query(QueryError::Aggregate()))));
}

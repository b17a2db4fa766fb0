use rowstore::{
    ColumnType, Database, EncodeError, Field, FieldType, Query, SchemaError, StorageError, Table,
    Value,
};

fn items_table() -> Table {
    let mut t = Table::new("items");
    t.add_fields(vec![
        Field::new("id", FieldType::Int32),
        Field::new("title", FieldType::String),
    ])
    .unwrap();
    t
}

#[test]
fn insert_counts_rows_and_select_all_in_order() {
    let mut t = items_table();
    let db = Database::new();
    assert_eq!(t.row_count(), 0);
    assert_eq!(t.select(&db, None), Vec::<Vec<Value>>::new());
    for (i, title) in ["a", "bb", "ccc"].iter().enumerate() {
        let index = t
            .insert(&[Value::Int32(i as i32 * 10), Value::String(title.to_string())])
            .unwrap();
        assert_eq!(index, i);
    }
    assert_eq!(t.row_count(), 3);
    assert_eq!(
        t.select(&db, None),
        vec![
            vec![Value::Int32(0), Value::String("a".to_string())],
            vec![Value::Int32(10), Value::String("bb".to_string())],
            vec![Value::Int32(20), Value::String("ccc".to_string())],
        ]
    );
}

#[test]
fn scalar_values_round_trip() {
    let mut t = Table::new("numbers");
    t.add_fields(vec![
        Field::new("u", FieldType::Ulid),
        Field::new("a", FieldType::Int32),
        Field::new("b", FieldType::Int64),
    ])
    .unwrap();
    let rows = [
        (u128::MAX, i32::MIN, i64::MIN),
        (0, -1, -1),
        (0x0123_4567_89ab_cdef_0011_2233_4455_6677, i32::MAX, i64::MAX),
    ];
    for (u, a, b) in rows.iter() {
        t.insert(&[Value::Ulid(*u), Value::Int32(*a), Value::Int64(*b)]).unwrap();
    }
    for (i, (u, a, b)) in rows.iter().enumerate() {
        assert_eq!(t.get_field(i, 0), Ok(Value::Ulid(*u)));
        assert_eq!(t.get_field(i, 1), Ok(Value::Int32(*a)));
        assert_eq!(t.get_field(i, 2), Ok(Value::Int64(*b)));
        assert_eq!(
            t.extract_record(i),
            Ok(vec![Value::Ulid(*u), Value::Int32(*a), Value::Int64(*b)])
        );
    }
}

#[test]
fn string_of_max_length_round_trips() {
    let mut t = items_table();
    let long = "x".repeat(65535);
    t.insert(&[Value::Int32(1), Value::String(long.clone())]).unwrap();
    assert_eq!(t.get_field(0, 1), Ok(Value::String(long)));
}

#[test]
fn empty_string_round_trips() {
    let mut t = items_table();
    t.insert(&[Value::Int32(1), Value::String(String::new())]).unwrap();
    t.insert(&[Value::Int32(2), Value::String("after".to_string())]).unwrap();
    assert_eq!(t.get_field(0, 1), Ok(Value::String(String::new())));
    assert_eq!(t.get_field(1, 1), Ok(Value::String("after".to_string())));
}

#[test]
fn non_ascii_string_round_trips() {
    let mut t = items_table();
    t.insert(&[Value::Int32(1), Value::String("ÀÀ €𝄞".to_string())]).unwrap();
    assert_eq!(t.get_field(0, 1), Ok(Value::String("ÀÀ €𝄞".to_string())));
}

#[test]
fn string_over_max_length_is_too_large() {
    let mut t = items_table();
    let r = t.insert(&[Value::Int32(1), Value::String("x".repeat(65536))]);
    assert_eq!(r, Err(EncodeError::ValueTooLarge));
    assert_eq!(t.row_count(), 0);
    // multi-byte characters count in bytes
    let r = t.insert(&[Value::Int32(1), Value::String("À".repeat(32768))]);
    assert_eq!(r, Err(EncodeError::ValueTooLarge));
    assert_eq!(t.row_count(), 0);
}

#[test]
fn type_mismatch_names_the_column() {
    let mut t = items_table();
    let r = t.insert(&[Value::Int32(1), Value::Int32(2)]);
    assert_eq!(
        r,
        Err(EncodeError::TypeMismatch {
            column: "title".to_string(),
            expected: ColumnType::String,
            actual: Some(ColumnType::Int32),
        })
    );
    let r = t.insert(&[Value::Array(vec![]), Value::String("a".to_string())]);
    assert_eq!(
        r,
        Err(EncodeError::TypeMismatch {
            column: "id".to_string(),
            expected: ColumnType::Int32,
            actual: None,
        })
    );
    assert_eq!(t.row_count(), 0);
}

#[test]
fn first_refused_column_is_reported() {
    let mut t = items_table();
    let r = t.insert(&[Value::Int64(1), Value::String("x".repeat(70000))]);
    assert_eq!(
        r,
        Err(EncodeError::TypeMismatch {
            column: "id".to_string(),
            expected: ColumnType::Int32,
            actual: Some(ColumnType::Int64),
        })
    );
}

#[test]
fn duplicate_field_name_is_rejected() {
    let mut t = Table::new("t");
    let r = t.add_fields(vec![
        Field::new("a", FieldType::Int32),
        Field::new("b", FieldType::Int64),
        Field::new("a", FieldType::String),
    ]);
    assert_eq!(r, Err(SchemaError::DuplicateFieldName));
    assert_eq!(t.columns().len(), 0);
}

#[test]
fn layout_is_frozen_once_rows_exist() {
    let mut t = items_table();
    assert_eq!(
        t.add_fields(vec![Field::new("other", FieldType::Int64)]),
        Ok(())
    );
    t.insert(&[Value::Int64(5)]).unwrap();
    assert_eq!(
        t.add_fields(vec![Field::new("id", FieldType::Int32)]),
        Err(SchemaError::LayoutFrozen)
    );
    assert_eq!(t.columns().len(), 1);
    assert_eq!(t.columns()[0].name, "other");
}

#[test]
fn reads_out_of_bounds_are_refused() {
    let mut t = items_table();
    t.insert(&[Value::Int32(1), Value::String("a".to_string())]).unwrap();
    assert_eq!(t.get_field(1, 0), Err(StorageError::OutOfBounds));
    assert_eq!(t.get_field(0, 2), Err(StorageError::OutOfBounds));
    assert_eq!(t.extract_record(1), Err(StorageError::OutOfBounds));
    assert_eq!(t.extract_column(&[0u8; 8], 2), Err(StorageError::OutOfBounds));
    assert_eq!(t.extract_column(&[0u8; 6], 1), Err(StorageError::OutOfBounds));
}

#[test]
fn extract_column_decodes_record_bytes() {
    let mut t = items_table();
    t.insert(&[Value::Int32(-2), Value::String("hey".to_string())]).unwrap();
    let record = [0xfe, 0xff, 0xff, 0xff, 0, 0, 0, 0];
    assert_eq!(t.extract_column(&record, 0), Ok(Value::Int32(-2)));
    assert_eq!(t.extract_column(&record, 1), Ok(Value::String("hey".to_string())));
}

#[test]
fn extract_column_reports_corrupt_heap() {
    let mut t = items_table();
    t.insert(&[Value::Int32(1), Value::String("hey".to_string())]).unwrap();
    // heap offset 100 lies beyond the heap
    assert_eq!(
        t.extract_column(&[0, 0, 0, 0, 100, 0, 0, 0], 1),
        Err(StorageError::CorruptHeap)
    );
    // offset 1 reads the length 0x6800 from inside the first payload
    assert_eq!(
        t.extract_column(&[0, 0, 0, 0, 1, 0, 0, 0], 1),
        Err(StorageError::CorruptHeap)
    );
}

#[test]
fn extract_column_reports_invalid_utf8() {
    let mut t = items_table();
    t.insert(&[Value::Int32(1), Value::String("\u{e9}".to_string())]).unwrap();
    // the heap holds [2, 0, 0xc3, 0xa9]; offset 2 reads length 0xa9c3, too long,
    // while a length prefix of 1 would cut the character in half
    assert_eq!(
        t.extract_column(&[0, 0, 0, 0, 2, 0, 0, 0], 1),
        Err(StorageError::CorruptHeap)
    );
    t.insert(&[Value::Int32(2), Value::String("\u{1}\u{0}\u{ff}".to_string())]).unwrap();
    // second payload at offset 4: [4, 0, 1, 0, 0xc3, 0xbf]; offset 6 reads length 1
    // followed by the byte 0xc3 alone
    assert_eq!(
        t.extract_column(&[0, 0, 0, 0, 6, 0, 0, 0], 1),
        Err(StorageError::CorruptHeap)
    );
}

#[test]
fn table_without_fields_stores_empty_rows() {
    let mut t = Table::new("empty");
    assert_eq!(t.add_fields(vec![]), Ok(()));
    assert_eq!(t.row_width(), 0);
    assert_eq!(t.insert(&[]), Ok(0));
    assert_eq!(t.insert(&[]), Ok(1));
    assert_eq!(t.select(&Database::new(), None), vec![Vec::<Value>::new(), vec![]]);
}

#[test]
fn filter_selects_rows_with_equal_value() {
    let mut t = items_table();
    for (id, title) in [(1, "a"), (2, "b"), (1, "c"), (3, "a")] {
        t.insert(&[Value::Int32(id), Value::String(title.to_string())]).unwrap();
    }
    let db = Database::new();
    let one = Value::Int32(1);
    assert_eq!(
        t.select(&db, Some(&Query::Eq("id", &one))),
        vec![
            vec![Value::Int32(1), Value::String("a".to_string())],
            vec![Value::Int32(1), Value::String("c".to_string())],
        ]
    );
    let a = Value::String("a".to_string());
    assert_eq!(
        t.select(&db, Some(&Query::Eq("title", &a))),
        vec![
            vec![Value::Int32(1), Value::String("a".to_string())],
            vec![Value::Int32(3), Value::String("a".to_string())],
        ]
    );
}

#[test]
fn filter_without_match_is_empty() {
    let mut t = items_table();
    t.insert(&[Value::Int32(1), Value::String("a".to_string())]).unwrap();
    let db = Database::new();
    let nine = Value::Int32(9);
    assert!(t.select(&db, Some(&Query::Eq("id", &nine))).is_empty());
    // values of another type never compare equal
    let wide = Value::Int64(1);
    assert!(t.select(&db, Some(&Query::Eq("id", &wide))).is_empty());
    // an unknown column matches no row
    let one = Value::Int32(1);
    assert!(t.select(&db, Some(&Query::Eq("missing", &one))).is_empty());
}

#[test]
fn select_twice_gives_the_same_rows() {
    let mut t = items_table();
    t.insert(&[Value::Int32(4), Value::String("x".to_string())]).unwrap();
    t.insert(&[Value::Int32(5), Value::String("y".to_string())]).unwrap();
    let db = Database::new();
    let five = Value::Int32(5);
    let q = Query::Eq("id", &five);
    assert_eq!(t.select(&db, Some(&q)), t.select(&db, Some(&q)));
    assert_eq!(t.select(&db, None), t.select(&db, None));
}

#[test]
fn items_example_selects_by_id() {
    let mut t = items_table();
    t.insert(&[Value::Int32(255), Value::String("ÀÀ".to_string())]).unwrap();
    t.insert(&[Value::Int32(10), Value::String("AA".to_string())]).unwrap();
    let key = Value::Int32(255);
    assert_eq!(
        t.select(&Database::new(), Some(&Query::Eq("id", &key))),
        vec![vec![Value::Int32(255), Value::String("ÀÀ".to_string())]]
    );
}

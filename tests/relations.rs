use rowstore::{Database, Field, FieldType, Query, RelationType, SchemaError, Value};

fn items_and_comments() -> (Database, usize, usize) {
    let mut db = Database::new();
    let items = db.create_table("items");
    let comments = db.create_table("comments");
    assert_eq!((items, comments), (0, 1));
    db.add_fields(
        items,
        vec![
            Field::new("id", FieldType::Int32),
            Field::new("title", FieldType::String),
            Field::new("estimate", FieldType::Int64),
            Field::new(
                "comments",
                FieldType::Table {
                    key: "item_id".to_string(),
                    relation_type: RelationType::Array,
                    table: comments,
                },
            ),
        ],
    )
    .unwrap();
    db.add_fields(
        comments,
        vec![
            Field::new("id", FieldType::Int32),
            Field::new("item_id", FieldType::Relation { table: items }),
            Field::new("comment", FieldType::Int32),
        ],
    )
    .unwrap();
    (db, items, comments)
}

#[test]
fn relation_expands_to_matching_child_rows() {
    let (mut db, items, comments) = items_and_comments();
    db.insert(items, &[Value::Int32(7), Value::String("seven".to_string()), Value::Int64(1)])
        .unwrap();
    for (id, item) in [(1, 7), (2, 8), (3, 7), (4, 9), (5, 7)] {
        db.insert(comments, &[Value::Int32(id), Value::Int32(item), Value::Int32(id * 100)])
            .unwrap();
    }
    let rows = db.select(items, None);
    assert_eq!(rows.len(), 1);
    assert_eq!(rows[0].len(), 4);
    match &rows[0][3] {
        Value::Array(nested) => {
            assert_eq!(nested.len(), 3);
            assert_eq!(
                nested,
                &vec![
                    vec![Value::Int32(1), Value::Int32(7), Value::Int32(100)],
                    vec![Value::Int32(3), Value::Int32(7), Value::Int32(300)],
                    vec![Value::Int32(5), Value::Int32(7), Value::Int32(500)],
                ]
            );
        }
        other => panic!("expected nested rows, got {:?}", other),
    }
}

#[test]
fn parent_without_children_expands_to_empty_rows() {
    let (mut db, items, comments) = items_and_comments();
    db.insert(items, &[Value::Int32(1), Value::String("a".to_string()), Value::Int64(0)])
        .unwrap();
    db.insert(comments, &[Value::Int32(9), Value::Int32(2), Value::Int32(0)]).unwrap();
    assert_eq!(
        db.select(items, None),
        vec![vec![
            Value::Int32(1),
            Value::String("a".to_string()),
            Value::Int64(0),
            Value::Array(vec![]),
        ]]
    );
}

#[test]
fn program_scenario_selects_items_with_comments() {
    let (mut db, items, comments) = items_and_comments();
    db.insert(items, &[Value::Int32(255), Value::String("ÀÀ".to_string()), Value::Int64(65535)])
        .unwrap();
    db.insert(items, &[Value::Int32(10), Value::String("AA".to_string()), Value::Int64(20)])
        .unwrap();
    db.insert(comments, &[Value::Int32(100), Value::Int32(255), Value::Int32(200)]).unwrap();
    assert_eq!(
        db.select(items, None),
        vec![
            vec![
                Value::Int32(255),
                Value::String("ÀÀ".to_string()),
                Value::Int64(65535),
                Value::Array(vec![vec![Value::Int32(100), Value::Int32(255), Value::Int32(200)]]),
            ],
            vec![
                Value::Int32(10),
                Value::String("AA".to_string()),
                Value::Int64(20),
                Value::Array(vec![]),
            ],
        ]
    );
    let key = Value::Int32(10);
    let q = Query::Eq("id", &key);
    assert_eq!(db.select(items, Some(&q)), db.select(items, Some(&q)));
    assert_eq!(db.select(items, Some(&q)).len(), 1);
    assert_eq!(db.table(comments).row_count(), 1);
}

#[test]
fn relation_targets_must_exist_and_come_later() {
    let mut db = Database::new();
    let a = db.create_table("a");
    let b = db.create_table("b");
    let backward = vec![Field::new(
        "parents",
        FieldType::Table { key: "x".to_string(), relation_type: RelationType::Array, table: a },
    )];
    assert_eq!(db.add_fields(b, backward), Err(SchemaError::InvalidRelationTarget));
    let missing = vec![Field::new("owner", FieldType::Relation { table: 5 })];
    assert_eq!(db.add_fields(a, missing), Err(SchemaError::InvalidRelationTarget));
    let forward = vec![Field::new(
        "children",
        FieldType::Table { key: "x".to_string(), relation_type: RelationType::Array, table: b },
    )];
    assert_eq!(db.add_fields(a, forward), Ok(()));
    assert_eq!(db.table(a).relations().len(), 1);
    assert_eq!(db.len(), 2);
}

#[test]
fn nested_relations_expand_recursively() {
    let mut db = Database::new();
    let a = db.create_table("a");
    let b = db.create_table("b");
    let c = db.create_table("c");
    db.add_fields(
        a,
        vec![
            Field::new("id", FieldType::Int32),
            Field::new(
                "bs",
                FieldType::Table { key: "a_id".to_string(), relation_type: RelationType::Array, table: b },
            ),
        ],
    )
    .unwrap();
    db.add_fields(
        b,
        vec![
            Field::new("id", FieldType::Int32),
            Field::new("a_id", FieldType::Relation { table: a }),
            Field::new(
                "cs",
                FieldType::Table { key: "b_id".to_string(), relation_type: RelationType::Array, table: c },
            ),
        ],
    )
    .unwrap();
    db.add_fields(c, vec![Field::new("b_id", FieldType::Int32), Field::new("n", FieldType::Int64)])
        .unwrap();
    db.insert(a, &[Value::Int32(1)]).unwrap();
    db.insert(b, &[Value::Int32(2), Value::Int32(1)]).unwrap();
    db.insert(c, &[Value::Int32(2), Value::Int64(-5)]).unwrap();
    db.insert(c, &[Value::Int32(3), Value::Int64(6)]).unwrap();
    assert_eq!(
        db.select(a, None),
        vec![vec![
            Value::Int32(1),
            Value::Array(vec![vec![
                Value::Int32(2),
                Value::Int32(1),
                Value::Array(vec![vec![Value::Int32(2), Value::Int64(-5)]]),
            ]]),
        ]]
    );
}

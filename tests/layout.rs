use rowstore::{ColumnType, Field, FieldType, Table};

fn planned(types: &[FieldType]) -> Table {
    let mut t = Table::new("t");
    let fields = types
        .iter()
        .enumerate()
        .map(|(i, ft)| Field::new(&format!("f{}", i), clone_type(ft)))
        .collect();
    t.add_fields(fields).unwrap();
    t
}

fn clone_type(ft: &FieldType) -> FieldType {
    match ft {
        FieldType::Ulid => FieldType::Ulid,
        FieldType::Int32 => FieldType::Int32,
        FieldType::Int64 => FieldType::Int64,
        FieldType::String => FieldType::String,
        FieldType::Relation { table } => FieldType::Relation { table: *table },
        FieldType::Table { key, relation_type, table } => FieldType::Table {
            key: key.clone(),
            relation_type: *relation_type,
            table: *table,
        },
    }
}

fn offsets(t: &Table) -> Vec<usize> {
    (0..t.columns().len()).map(|c| t.column_offset(c)).collect()
}

fn alignment(t: ColumnType) -> usize {
    match t {
        ColumnType::Ulid => 16,
        ColumnType::Int32 => 4,
        ColumnType::Int64 => 8,
        ColumnType::String => 2,
    }
}

#[test]
fn columns_are_placed_at_aligned_offsets() {
    let t = planned(&[FieldType::Int32, FieldType::Ulid, FieldType::String, FieldType::Int64]);
    assert_eq!(offsets(&t), vec![0, 16, 32, 40]);
    assert_eq!(t.row_width(), 48);
}

#[test]
fn row_width_is_padded_to_widest_alignment() {
    let t = planned(&[FieldType::String, FieldType::Int32]);
    assert_eq!(offsets(&t), vec![0, 4]);
    assert_eq!(t.row_width(), 8);
    let t = planned(&[FieldType::Int64, FieldType::String, FieldType::Ulid]);
    assert_eq!(offsets(&t), vec![0, 8, 16]);
    assert_eq!(t.row_width(), 32);
    let t = planned(&[FieldType::Int64, FieldType::Int32]);
    assert_eq!(offsets(&t), vec![0, 8]);
    assert_eq!(t.row_width(), 16);
}

#[test]
fn alignment_holds_for_every_order() {
    let types = [FieldType::Int32, FieldType::Ulid, FieldType::String, FieldType::Int64];
    let mut orders: Vec<Vec<usize>> = vec![vec![]];
    for _ in 0..types.len() {
        let mut next = vec![];
        for o in orders {
            for i in 0..types.len() {
                if !o.contains(&i) {
                    let mut o2 = o.clone();
                    o2.push(i);
                    next.push(o2);
                }
            }
        }
        orders = next;
    }
    assert_eq!(orders.len(), 24);
    for o in orders {
        let chosen: Vec<FieldType> = o.iter().map(|i| clone_type(&types[*i])).collect();
        let t = planned(&chosen);
        let mut end = 0;
        for c in 0..t.columns().len() {
            let ct = t.columns()[c].column_type;
            let off = t.column_offset(c);
            assert_eq!(off % alignment(ct), 0);
            assert!(off >= end);
            end = off + if ct == ColumnType::String { 4 } else { alignment(ct) };
        }
        assert!(end <= t.row_width());
        assert_eq!(t.row_width() % 16, 0);
    }
}

#[test]
fn relation_fields_are_not_stored() {
    let t = planned(&[
        FieldType::Int32,
        FieldType::Table {
            key: "parent".to_string(),
            relation_type: rowstore::RelationType::Array,
            table: 1,
        },
        FieldType::Relation { table: 0 },
    ]);
    assert_eq!(offsets(&t), vec![0, 4]);
    assert_eq!(t.columns()[1].column_type, ColumnType::Int32);
    assert_eq!(t.row_width(), 8);
    assert_eq!(t.relations().len(), 1);
    assert_eq!(t.relations()[0].name, "f1");
    assert_eq!(t.relations()[0].key, "parent");
    assert_eq!(t.relations()[0].table, 1);
}

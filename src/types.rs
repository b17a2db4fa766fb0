use vstd::prelude::*;

verus! {

/// Declared type of a field, as written in a schema.
///
/// `Table` is a one-to-many edge to another table, resolved when rows are
/// selected and never stored; `Relation` is a foreign key stored in this
/// table as a 32-bit integer. Both name their target by its index in the
/// database that holds the tables.
#[derive(Debug)]
pub enum FieldType {
    Ulid,
    Int32,
    Int64,
    String,
    Table { key: String, relation_type: RelationType, table: usize },
    Relation { table: usize },
}

/// A named field of a schema.
#[derive(Debug)]
pub struct Field {
    pub name: String,
    pub field_type: FieldType,
}

impl Field {
    pub fn new(name: &str, field_type: FieldType) -> (f: Field)
        ensures
            f.name@ == name@,
            f.field_type == field_type,
    {
        Field { name: name.to_owned(), field_type }
    }
}

/// Physical type of a stored column.
#[derive(Debug, Clone, Copy, PartialEq, Eq, Structural)]
pub enum ColumnType {
    Ulid,
    Int32,
    Int64,
    String,
}

/// Byte alignment of a column of type `t`.
pub open spec fn alignment(t: ColumnType) -> nat {
    match t {
        ColumnType::Ulid => 16,
        ColumnType::Int32 => 4,
        ColumnType::Int64 => 8,
        ColumnType::String => 2,
    }
}

/// Bytes that a column of type `t` takes in a row; a string column holds a
/// 4-byte offset into the heap.
pub open spec fn width(t: ColumnType) -> nat {
    match t {
        ColumnType::Ulid => 16,
        ColumnType::Int32 => 4,
        ColumnType::Int64 => 8,
        ColumnType::String => 4,
    }
}

impl ColumnType {
    pub fn alignment(&self) -> (r: usize)
        ensures
            r == alignment(*self),
    {
        match self {
            ColumnType::Ulid => 16,
            ColumnType::Int32 => 4,
            ColumnType::Int64 => 8,
            ColumnType::String => 2,
        }
    }

    pub fn width(&self) -> (r: usize)
        ensures
            r == width(*self),
    {
        match self {
            ColumnType::Ulid => 16,
            ColumnType::Int32 => 4,
            ColumnType::Int64 => 8,
            ColumnType::String => 4,
        }
    }
}

/// What a value means: a scalar, a text as its characters, or the rows that
/// a relation expanded to.
pub enum Datum {
    Ulid(u128),
    Int32(i32),
    Int64(i64),
    Text(Seq<char>),
    Rows(Seq<Seq<Datum>>),
}

/// Whether `d` can be stored in a column of type `t`. A foreign key column
/// stores an `Int32`.
pub open spec fn fits(d: Datum, t: ColumnType) -> bool {
    match (d, t) {
        (Datum::Ulid(_), ColumnType::Ulid) => true,
        (Datum::Int32(_), ColumnType::Int32) => true,
        (Datum::Int64(_), ColumnType::Int64) => true,
        (Datum::Text(_), ColumnType::String) => true,
        _ => false,
    }
}

/// The column type that holds `d`, if any.
pub open spec fn kind_of(d: Datum) -> Option<ColumnType> {
    match d {
        Datum::Ulid(_) => Some(ColumnType::Ulid),
        Datum::Int32(_) => Some(ColumnType::Int32),
        Datum::Int64(_) => Some(ColumnType::Int64),
        Datum::Text(_) => Some(ColumnType::String),
        Datum::Rows(_) => None,
    }
}

/// Equality of two values of the same scalar type; values of different
/// types, and nested rows, never compare equal.
pub open spec fn same_value(a: Datum, b: Datum) -> bool {
    match (a, b) {
        (Datum::Ulid(x), Datum::Ulid(y)) => x == y,
        (Datum::Int32(x), Datum::Int32(y)) => x == y,
        (Datum::Int64(x), Datum::Int64(y)) => x == y,
        (Datum::Text(x), Datum::Text(y)) => x == y,
        _ => false,
    }
}

/// A value as inserted into or selected from a table.
#[derive(Debug, PartialEq)]
pub enum Value {
    Ulid(u128),
    Int32(i32),
    Int64(i64),
    String(String),
    Array(Vec<Vec<Value>>),
}

impl Value {
    pub open spec fn model(self) -> Datum
        decreases self,
    {
        match self {
            Value::Ulid(u) => Datum::Ulid(u),
            Value::Int32(i) => Datum::Int32(i),
            Value::Int64(i) => Datum::Int64(i),
            Value::String(s) => Datum::Text(s@),
            Value::Array(rows) => Datum::Rows(
                Seq::new(
                    rows@.len(),
                    |i: int|
                        Seq::new(
                            rows@[i]@.len(),
                            |j: int|
                                if 0 <= i < rows@.len() && 0 <= j < rows@[i]@.len() {
                                    rows@[i]@[j].model()
                                } else {
                                    Datum::Int32(0)
                                },
                        ),
                ),
            ),
        }
    }

    /// The column type that holds this value, if any.
    pub fn kind(&self) -> (r: Option<ColumnType>)
        ensures
            r == kind_of(self.model()),
    {
        match self {
            Value::Ulid(_) => Some(ColumnType::Ulid),
            Value::Int32(_) => Some(ColumnType::Int32),
            Value::Int64(_) => Some(ColumnType::Int64),
            Value::String(_) => Some(ColumnType::String),
            Value::Array(_) => None,
        }
    }
}

/// Meaning of a sequence of values.
pub open spec fn values_model(vs: Seq<Value>) -> Seq<Datum> {
    vs.map_values(|v: Value| v.model())
}

/// Meaning of a sequence of rows.
pub open spec fn rows_model(rows: Seq<Vec<Value>>) -> Seq<Seq<Datum>> {
    rows.map_values(|r: Vec<Value>| values_model(r@))
}

/// The meaning of nested rows is the meaning of each row.
pub proof fn lemma_array_model(rows: Vec<Vec<Value>>)
    ensures
        Value::Array(rows).model() == Datum::Rows(rows_model(rows@)),
{
    let m = rows_model(rows@);
    let inner = Value::Array(rows).model()->Rows_0;
    assert forall|i: int| 0 <= i < rows@.len() implies #[trigger] inner[i] == m[i] by {
        assert(inner[i] =~= m[i]);
    }
    assert(inner =~= m);
}

/// A stored column of a table.
#[derive(Debug)]
pub struct Column {
    pub name: String,
    pub column_type: ColumnType,
}

impl Column {
    pub fn new(name: &str, column_type: ColumnType) -> (c: Column)
        ensures
            c.name@ == name@,
            c.column_type == column_type,
    {
        Column { name: name.to_owned(), column_type }
    }
}

/// Cardinality that a relation was declared with.
#[derive(Debug, Clone, Copy, PartialEq, Eq, Structural)]
pub enum RelationType {
    Scalar,
    Array,
}

/// A one-to-many edge: rows of table `table` whose column `key` equals the
/// first value of a row of the declaring table, which links them.
#[derive(Debug)]
pub struct Relation {
    pub name: String,
    pub key: String,
    pub relation_type: RelationType,
    pub table: usize,
}

/// Meaning of a relation.
pub struct RelationModel {
    pub name: Seq<char>,
    pub key: Seq<char>,
    pub relation_type: RelationType,
    pub table: nat,
}

impl Relation {
    pub open spec fn model(self) -> RelationModel {
        RelationModel {
            name: self.name@,
            key: self.key@,
            relation_type: self.relation_type,
            table: self.table as nat,
        }
    }
}

/// Meaning of a stored column: its name, type and byte offset in a row.
pub struct ColumnModel {
    pub name: Seq<char>,
    pub column_type: ColumnType,
    pub offset: nat,
}

} // verus!

use vstd::arithmetic::mul::*;
use vstd::bytes::*;
use vstd::prelude::*;
use vstd::utf8::encode_utf8;
use vstd::view::View as _;

use crate::arena::{
    heap_len_after, write_at, BlobHeap, RowArena, HEAP_LIMIT, MAX_TEXT_LEN,
};
use crate::codec::{
    cell_holds, decode_cell, encode_scalar, lemma_cell_holds_extend, lemma_cell_round_trip,
    lemma_scalar_round_trip, read_cell, result_model, same_text,
};
use crate::database::Database;
use crate::engine::{expand, passes, position_from, select_prefix, select_rows};
use crate::errors::{EncodeError, SchemaError, StorageError};
use crate::layout::{
    column_type_of, columns_laid_out, has_duplicate_names, lemma_align_up,
    lemma_planned_columns_laid_out, lemma_planned_end_monotone, lemma_widest_alignment, padding,
    planned_columns, planned_end, planned_relations, planned_row_width, widest_alignment,
};
use crate::types::{
    fits, kind_of, lemma_array_model, rows_model, same_value, values_model, width, Column,
    ColumnModel, ColumnType, Datum, Field, FieldType, Relation, RelationModel, Value,
};

verus! {

/// A result set together with the fields that describe its columns.
pub struct View {
    pub fields: Vec<Field>,
    pub values: Vec<Vec<Value>>,
}

/// An equality predicate: the rows whose column of the given name holds a
/// value equal to the given one.
pub enum Query<'a> {
    Eq(&'a str, &'a Value),
}

/// Meaning of a query: a column name and the value it must equal.
pub struct Predicate {
    pub column: Seq<char>,
    pub value: Datum,
}

pub open spec fn query_model(q: Option<&Query>) -> Option<Predicate> {
    match q {
        Some(query) => match *query {
            Query::Eq(column, value) => Some(Predicate { column: column@, value: value.model() }),
        },
        None => None,
    }
}

/// Meaning of a table: its schema, the rows it holds, and its heap.
pub struct TableModel {
    pub name: Seq<char>,
    pub columns: Seq<ColumnModel>,
    pub relations: Seq<RelationModel>,
    pub row_width: nat,
    pub rows: Seq<Seq<Datum>>,
    pub heap: Seq<u8>,
}

impl TableModel {
    /// Columns aligned and apart within a row; every row a value of the
    /// right type for each column.
    pub open spec fn well_formed(self) -> bool {
        &&& columns_laid_out(self.columns, self.row_width)
        &&& forall|r: int|
            0 <= r < self.rows.len() ==> #[trigger] self.rows[r].len() == self.columns.len()
        &&& forall|r: int, c: int|
            0 <= r < self.rows.len() && 0 <= c < self.columns.len() ==> fits(
                #[trigger] self.rows[r][c],
                self.columns[c].column_type,
            )
    }
}

/// UTF-8 bytes of a text; empty for any other value.
pub open spec fn text_bytes(d: Datum) -> Seq<u8> {
    match d {
        Datum::Text(s) => encode_utf8(s),
        _ => Seq::empty(),
    }
}

/// Heap length once the strings among the first `n` values are appended to
/// a heap of `start` bytes.
pub open spec fn heap_after(cols: Seq<ColumnModel>, vals: Seq<Datum>, start: nat, n: nat) -> nat
    decreases n,
{
    if n == 0 {
        start
    } else {
        let p = heap_after(cols, vals, start, (n - 1) as nat);
        if cols[n - 1].column_type == ColumnType::String {
            heap_len_after(p, text_bytes(vals[n - 1]).len())
        } else {
            p
        }
    }
}

/// Whether the value for column `c` can be stored once the strings of the
/// columns before it are: it has the column's type, and a string has at
/// most 65535 bytes and still fits in the heap.
pub open spec fn accepts(cols: Seq<ColumnModel>, vals: Seq<Datum>, start: nat, c: int) -> bool {
    &&& fits(vals[c], cols[c].column_type)
    &&& cols[c].column_type == ColumnType::String ==> {
        &&& text_bytes(vals[c]).len() <= MAX_TEXT_LEN
        &&& heap_len_after(heap_after(cols, vals, start, c as nat), text_bytes(vals[c]).len())
            <= HEAP_LIMIT
    }
}

/// Whether every column accepts its value.
pub open spec fn accepts_row(cols: Seq<ColumnModel>, vals: Seq<Datum>, start: nat) -> bool {
    forall|c: int| 0 <= c < cols.len() ==> #[trigger] accepts(cols, vals, start, c)
}

/// Whether `c` is the first column that refuses its value.
pub open spec fn first_refusal(cols: Seq<ColumnModel>, vals: Seq<Datum>, start: nat, c: int) -> bool {
    &&& 0 <= c < cols.len()
    &&& forall|k: int| 0 <= k < c ==> #[trigger] accepts(cols, vals, start, k)
    &&& !accepts(cols, vals, start, c)
}

/// Whether `e` reports that column `col` refuses `d`: a type mismatch
/// naming the column, or a value too large.
pub open spec fn reports(e: EncodeError, col: ColumnModel, d: Datum) -> bool {
    if fits(d, col.column_type) {
        e is ValueTooLarge
    } else {
        &&& e matches EncodeError::TypeMismatch { column, expected, actual }
        &&& column@ == col.name
        &&& expected == col.column_type
        &&& actual == kind_of(d)
    }
}

/// A cell keeps its value while the bytes before `end` stay the same.
proof fn lemma_cell_holds_prefix(
    heap: Seq<u8>,
    row: Seq<u8>,
    row2: Seq<u8>,
    offset: int,
    d: Datum,
    t: ColumnType,
    end: int,
)
    requires
        cell_holds(heap, row, offset, d),
        fits(d, t),
        0 <= offset,
        offset + width(t) <= end <= row.len(),
        row2.len() == row.len(),
        row2.subrange(0, end) == row.subrange(0, end),
    ensures
        cell_holds(heap, row2, offset, d),
{
    let w = width(t) as int;
    if !(d is Text) {
        lemma_scalar_round_trip(d, t);
    }
    assert(row2.subrange(offset, offset + w) =~= row2.subrange(0, end).subrange(offset, offset + w));
    assert(row.subrange(offset, offset + w) =~= row.subrange(0, end).subrange(offset, offset + w));
}

/// Storing strings only makes the heap longer.
proof fn lemma_heap_after_grows(cols: Seq<ColumnModel>, vals: Seq<Datum>, start: nat, i: nat, j: nat)
    requires
        i <= j,
    ensures
        heap_after(cols, vals, start, i) <= heap_after(cols, vals, start, j),
    decreases j,
{
    if i < j {
        lemma_heap_after_grows(cols, vals, start, i, (j - 1) as nat);
    }
}

/// Rows already in the arena keep their bytes when a row is appended.
proof fn lemma_row_bytes_append(old_bytes: Seq<u8>, row: Seq<u8>, count: nat, rw: nat, r: int)
    requires
        old_bytes.len() == count * rw,
        row.len() == rw,
        0 <= r <= count,
    ensures
        (old_bytes + row).len() == (count + 1) * rw,
        r < count ==> (old_bytes + row).subrange(r * rw, r * rw + rw) == old_bytes.subrange(
            r * rw,
            r * rw + rw,
        ),
        r == count ==> (old_bytes + row).subrange(r * rw, r * rw + rw) == row,
{
    lemma_mul_is_distributive_add_other_way(rw as int, count as int, 1);
    lemma_mul_is_distributive_add_other_way(rw as int, r, 1);
    if r < count {
        lemma_mul_inequality(r + 1, count as int, rw as int);
        assert((old_bytes + row).subrange(r * rw, r * rw + rw) =~= old_bytes.subrange(
            r * rw,
            r * rw + rw,
        ));
    } else {
        assert((old_bytes + row).subrange(r * rw, r * rw + rw) =~= row);
    }
}

/// A table: a schema planned into fixed-width rows, the rows in a row
/// arena, their strings in a blob heap, and one-to-many relations to other
/// tables.
pub struct Table {
    pub name: String,
    relations: Vec<Relation>,
    columns: Vec<Column>,
    column_offsets: Vec<usize>,
    row_width: usize,
    records: RowArena,
    row_count: usize,
    storage: BlobHeap,
    rows: Ghost<Seq<Seq<Datum>>>,
}

impl Table {
    pub closed spec fn model(&self) -> TableModel {
        TableModel {
            name: self.name@,
            columns: Seq::new(
                self.columns@.len(),
                |c: int|
                    ColumnModel {
                        name: self.columns@[c].name@,
                        column_type: self.columns@[c].column_type,
                        offset: self.column_offsets@[c] as nat,
                    },
            ),
            relations: self.relations@.map_values(|r: Relation| r.model()),
            row_width: self.row_width as nat,
            rows: self.rows@,
            heap: self.storage.contents(),
        }
    }

    /// The bytes of row `r` in the arena.
    pub closed spec fn row_bytes(&self, r: int) -> Seq<u8> {
        self.records.contents().subrange(r * self.row_width, r * self.row_width + self.row_width)
    }

    /// The arena and the heap hold exactly the rows of the model.
    pub closed spec fn stored(&self) -> bool {
        &&& self.column_offsets@.len() == self.columns@.len()
        &&& self.records.wf()
        &&& self.storage.wf()
        &&& self.row_count == self.rows@.len()
        &&& self.records.contents().len() == self.row_count * self.row_width
        &&& forall|r: int, c: int|
            0 <= r < self.row_count && 0 <= c < self.columns@.len() ==> cell_holds(
                self.storage.contents(),
                #[trigger] self.row_bytes(r),
                self.column_offsets@[c] as int,
                #[trigger] self.rows@[r][c],
            )
    }

    pub open spec fn wf(&self) -> bool {
        &&& self.model().well_formed()
        &&& self.stored()
    }

    /// An empty table with no fields.
    pub fn new(name: &str) -> (t: Table)
        ensures
            t.wf(),
            t.model() == (TableModel {
                name: name@,
                columns: Seq::empty(),
                relations: Seq::empty(),
                row_width: 0,
                rows: Seq::empty(),
                heap: Seq::empty(),
            }),
    {
        let t = Table {
            name: name.to_owned(),
            relations: Vec::new(),
            columns: Vec::new(),
            column_offsets: Vec::new(),
            row_width: 0,
            records: RowArena::new(),
            row_count: 0,
            storage: BlobHeap::new(),
            rows: Ghost(Seq::empty()),
        };
        assert(t.model().columns =~= Seq::empty());
        assert(t.model().relations =~= Seq::empty());
        t
    }

    /// Bytes to add to `offset` to reach a multiple of `alignment`.
    fn memory_align(offset: usize, alignment: usize) -> (r: usize)
        requires
            alignment > 0,
        ensures
            r == padding(offset as int, alignment as int),
    {
        if offset % alignment == 0 {
            0
        } else {
            alignment - offset % alignment
        }
    }

    /// Lays out `fields`: each stored field becomes a column at the next
    /// multiple of its alignment, each one-to-many field a relation, and the
    /// row is padded to the widest alignment. Refused once rows exist, or
    /// when two fields share a name.
    pub fn add_fields(&mut self, fields: Vec<Field>) -> (r: Result<(), SchemaError>)
        requires
            old(self).wf(),
            planned_row_width(fields@) <= usize::MAX,
        ensures
            final(self).wf(),
            old(self).model().rows.len() > 0 ==> r == Err::<(), SchemaError>(
                SchemaError::LayoutFrozen,
            ),
            old(self).model().rows.len() == 0 && has_duplicate_names(fields@) ==> r == Err::<
                (),
                SchemaError,
            >(SchemaError::DuplicateFieldName),
            r is Err ==> final(self).model() == old(self).model(),
            old(self).model().rows.len() == 0 && !has_duplicate_names(fields@) ==> {
                &&& r is Ok
                &&& final(self).model() == (TableModel {
                    name: old(self).model().name,
                    columns: planned_columns(fields@, fields@.len()),
                    relations: planned_relations(fields@, fields@.len()),
                    row_width: planned_row_width(fields@),
                    rows: Seq::empty(),
                    heap: old(self).model().heap,
                })
            },
    {
        if self.row_count > 0 {
            return Err(SchemaError::LayoutFrozen);
        }
        if has_duplicate(&fields) {
            return Err(SchemaError::DuplicateFieldName);
        }
        let ghost fs = fields@;
        let ghost n = fs.len();
        let mut columns: Vec<Column> = Vec::new();
        let mut column_offsets: Vec<usize> = Vec::new();
        let mut relations: Vec<Relation> = Vec::new();
        let mut offset: usize = 0;
        let mut widest: usize = 1;
        proof {
            lemma_widest_alignment(fs, n);
            lemma_align_up(planned_end(fs, n) as int, widest_alignment(fs, n) as int);
        }
        let mut i: usize = 0;
        while i < fields.len()
            invariant
                fields@ == fs,
                n == fs.len(),
                i <= n,
                planned_end(fs, n) <= planned_row_width(fs) <= usize::MAX,
                offset == planned_end(fs, i as nat),
                widest == widest_alignment(fs, i as nat),
                columns@.len() == column_offsets@.len() == planned_columns(fs, i as nat).len(),
                forall|c: int|
                    0 <= c < columns@.len() ==> (ColumnModel {
                        name: columns@[c].name@,
                        column_type: columns@[c].column_type,
                        offset: column_offsets@[c] as nat,
                    }) == #[trigger] planned_columns(fs, i as nat)[c],
                relations@.map_values(|r: Relation| r.model()) == planned_relations(
                    fs,
                    i as nat,
                ),
            decreases n - i,
        {
            proof {
                lemma_planned_end_monotone(fs, (i + 1) as nat, n);
                lemma_widest_alignment(fs, (i + 1) as nat);
            }
            let field = &fields[i];
            let ghost prev_cols = planned_columns(fs, i as nat);
            let ghost prev_rels = relations@;
            match &field.field_type {
                FieldType::Table { key, relation_type, table } => {
                    relations.push(
                        Relation {
                            name: field.name.clone(),
                            key: key.clone(),
                            relation_type: *relation_type,
                            table: *table,
                        },
                    );
                    assert(relations@.map_values(|r: Relation| r.model()) =~= planned_relations(
                        fs,
                        i as nat,
                    ).push(relations@.last().model()));
                },
                _ => {
                    let t = field_type_to_column_type(&field.field_type);
                    let a = t.alignment();
                    proof {
                        lemma_align_up(offset as int, a as int);
                    }
                    offset = offset + Self::memory_align(offset, a);
                    column_offsets.push(offset);
                    columns.push(Column { name: field.name.clone(), column_type: t });
                    offset = offset + t.width();
                    if a > widest {
                        widest = a;
                    }
                    assert(relations@.map_values(|r: Relation| r.model()) =~= prev_rels.map_values(
                        |r: Relation| r.model(),
                    ));
                    assert forall|c: int| 0 <= c < columns@.len() implies (ColumnModel {
                        name: columns@[c].name@,
                        column_type: columns@[c].column_type,
                        offset: column_offsets@[c] as nat,
                    }) == #[trigger] planned_columns(fs, (i + 1) as nat)[c] by {
                        if c < prev_cols.len() {
                            assert(planned_columns(fs, (i + 1) as nat)[c] == prev_cols[c]);
                        }
                    }
                },
            }
            i += 1;
        }
        offset = offset + Self::memory_align(offset, widest);
        self.columns = columns;
        self.column_offsets = column_offsets;
        self.relations = relations;
        self.row_width = offset;
        proof {
            lemma_planned_columns_laid_out(fs, n);
            let cols = planned_columns(fs, n);
            assert forall|c: int| 0 <= c < cols.len() implies #[trigger] cols[c].offset + width(
                cols[c].column_type,
            ) <= planned_row_width(fs) by {}
            assert(self.model().columns =~= cols);
            lemma_mul_basics(old(self).row_width as int);
            lemma_mul_basics(self.row_width as int);
            assert(self.rows@ =~= Seq::empty());
        }
        Ok(())
    }

    /// Stores one row: `values` gives a value for each column, in column
    /// order; strings go to the heap and the row keeps their offsets. Either
    /// the whole row is stored and its index returned, or nothing changes
    /// and the first column that refuses its value is reported.
    pub fn insert(&mut self, values: &[Value]) -> (r: Result<usize, EncodeError>)
        requires
            old(self).wf(),
            values@.len() == old(self).model().columns.len(),
            old(self).model().rows.len() < usize::MAX,
            (old(self).model().rows.len() + 1) * old(self).model().row_width <= usize::MAX,
        ensures
            final(self).wf(),
            r is Ok <== accepts_row(
                old(self).model().columns,
                values_model(values@),
                old(self).model().heap.len(),
            ),
            r matches Ok(index) ==> {
                &&& accepts_row(
                    old(self).model().columns,
                    values_model(values@),
                    old(self).model().heap.len(),
                )
                &&& index == old(self).model().rows.len()
                &&& final(self).model() == (TableModel {
                    rows: old(self).model().rows.push(values_model(values@)),
                    heap: final(self).model().heap,
                    ..old(self).model()
                })
                &&& final(self).model().heap.len() == heap_after(
                    old(self).model().columns,
                    values_model(values@),
                    old(self).model().heap.len(),
                    values@.len(),
                )
                &&& final(self).model().heap.subrange(0, old(self).model().heap.len() as int)
                    == old(self).model().heap
            },
            r matches Err(e) ==> {
                &&& final(self).model() == old(self).model()
                &&& exists|c: int|
                    first_refusal(
                        old(self).model().columns,
                        values_model(values@),
                        old(self).model().heap.len(),
                        c,
                    ) && reports(
                        e,
                        #[trigger] old(self).model().columns[c],
                        values_model(values@)[c],
                    )
            },
    {
        let ghost cols = self.model().columns;
        let ghost vals = values_model(values@);
        let ghost h0 = self.storage.contents().len();
        let n = self.columns.len();
        let mut pos: usize = self.storage.len();
        let mut c: usize = 0;
        while c < n
            invariant
                n == cols.len() == values@.len() == vals.len(),
                old(self).wf(),
                *self == *old(self),
                h0 == self.model().heap.len(),
                cols == self.model().columns,
                vals == values_model(values@),
                c <= n,
                pos == heap_after(cols, vals, h0, c as nat),
                pos <= HEAP_LIMIT,
                forall|k: int| 0 <= k < c ==> #[trigger] accepts(cols, vals, h0, k),
            decreases n - c,
        {
            let t = self.columns[c].column_type;
            let v = &values[c];
            let kind = v.kind();
            if kind != Some(t) {
                proof {
                    assert(first_refusal(cols, vals, h0, c as int));
                }
                return Err(
                    EncodeError::TypeMismatch {
                        column: self.columns[c].name.clone(),
                        expected: t,
                        actual: kind,
                    },
                );
            }
            match v {
                Value::String(s) => {
                    let len = s.as_str().as_bytes().len();
                    if pos > HEAP_LIMIT - 2 {
                        proof {
                            assert(first_refusal(cols, vals, h0, c as int));
                        }
                        return Err(EncodeError::ValueTooLarge);
                    }
                    let start: usize = if pos % 2 == 1 {
                        pos + 1
                    } else {
                        pos
                    };
                    if len > MAX_TEXT_LEN || len > HEAP_LIMIT - 2 || start > HEAP_LIMIT - 2 - len {
                        proof {
                            assert(first_refusal(cols, vals, h0, c as int));
                        }
                        return Err(EncodeError::ValueTooLarge);
                    }
                    pos = start + 2 + len;
                },
                _ => {},
            }
            c += 1;
        }
        let ghost old_self = *self;
        let rw = self.row_width;
        let mut row: Vec<u8> = Vec::new();
        while row.len() < rw
            invariant
                row@.len() <= rw,
            decreases rw - row@.len(),
        {
            row.push(0u8);
        }
        let mut c: usize = 0;
        while c < n
            invariant
                n == cols.len() == values@.len() == vals.len(),
                cols == old_self.model().columns,
                vals == values_model(values@),
                old_self.wf(),
                accepts_row(cols, vals, h0),
                h0 == old_self.storage.contents().len(),
                rw == old_self.row_width,
                self.columns == old_self.columns,
                self.column_offsets == old_self.column_offsets,
                self.records == old_self.records,
                self.row_count == old_self.row_count,
                self.rows == old_self.rows,
                self.row_width == old_self.row_width,
                self.relations == old_self.relations,
                self.name == old_self.name,
                c <= n,
                row@.len() == rw,
                self.storage.wf(),
                self.storage.contents().len() == heap_after(cols, vals, h0, c as nat),
                self.storage.contents().subrange(0, h0 as int) == old_self.storage.contents(),
                forall|k: int|
                    0 <= k < c ==> cell_holds(
                        self.storage.contents(),
                        row@,
                        cols[k].offset as int,
                        #[trigger] vals[k],
                    ),
            decreases n - c,
        {
            let off = self.column_offsets[c];
            let v = &values[c];
            let ghost heap_before = self.storage.contents();
            let ghost row_before = row@;
            assert(accepts(cols, vals, h0, c as int));
            assert(cols[c as int].offset == off);
            match v {
                Value::String(s) => {
                    let at = self.storage.append(s.as_str().as_bytes());
                    let enc = u32_to_le_bytes(at as u32);
                    write_at(&mut row, off, enc.as_slice());
                    proof {
                        lemma_auto_spec_u32_to_from_le_bytes();
                        assert(spec_u32_to_le_bytes(at as u32).len() == 4);
                    }
                },
                _ => {
                    let enc = encode_scalar(v);
                    proof {
                        lemma_scalar_round_trip(vals[c as int], cols[c as int].column_type);
                    }
                    write_at(&mut row, off, enc.as_slice());
                },
            }
            proof {
                lemma_heap_after_grows(cols, vals, h0, 0, c as nat);
                assert(self.storage.contents().subrange(0, heap_before.len() as int) =~= heap_before);
                assert(self.storage.contents().subrange(0, h0 as int) =~= self.storage.contents().subrange(
                    0,
                    heap_before.len() as int,
                ).subrange(0, h0 as int));
                assert(heap_before.subrange(0, h0 as int) =~= old_self.storage.contents());
                assert forall|k: int| 0 <= k < c + 1 implies cell_holds(
                    self.storage.contents(),
                    row@,
                    cols[k].offset as int,
                    #[trigger] vals[k],
                ) by {
                    if k < c {
                        assert(accepts(cols, vals, h0, k));
                        assert(cols[k].offset + width(cols[k].column_type) <= off);
                        lemma_cell_holds_prefix(
                            heap_before,
                            row_before,
                            row@,
                            cols[k].offset as int,
                            vals[k],
                            cols[k].column_type,
                            off as int,
                        );
                        lemma_cell_holds_extend(
                            heap_before,
                            self.storage.contents(),
                            row@,
                            cols[k].offset as int,
                            vals[k],
                        );
                    }
                }
            }
            c += 1;
        }
        let index = self.row_count;
        let ghost old_records = self.records.contents();
        proof {
            lemma_mul_is_distributive_add_other_way(rw as int, index as int, 1);
        }
        self.records.append(row.as_slice());
        self.row_count = index + 1;
        self.rows = Ghost(self.rows@.push(vals));
        proof {
            lemma_heap_after_grows(cols, vals, h0, 0, n as nat);
            assert forall|r: int, k: int|
                0 <= r < self.row_count && 0 <= k < self.columns@.len() implies cell_holds(
                self.storage.contents(),
                #[trigger] self.row_bytes(r),
                self.column_offsets@[k] as int,
                #[trigger] self.rows@[r][k],
            ) by {
                lemma_row_bytes_append(old_records, row@, index as nat, rw as nat, r);
                if r < index {
                    assert(self.row_bytes(r) == old_self.row_bytes(r));
                    assert(old_self.rows@[r][k] == self.rows@[r][k]);
                    lemma_cell_holds_extend(
                        old_self.storage.contents(),
                        self.storage.contents(),
                        self.row_bytes(r),
                        self.column_offsets@[k] as int,
                        self.rows@[r][k],
                    );
                } else {
                    assert(self.row_bytes(r) == row@);
                    assert(self.rows@[r][k] == vals[k]);
                }
            }
            lemma_row_bytes_append(old_records, row@, index as nat, rw as nat, index as int);
            assert(self.model().columns =~= old_self.model().columns);
            assert forall|r: int| 0 <= r < self.rows@.len() implies #[trigger] self.rows@[r].len()
                == self.model().columns.len() by {
                if r < index {
                    assert(self.rows@[r] == old_self.rows@[r]);
                }
            }
            assert forall|r: int, k: int|
                0 <= r < self.rows@.len() && 0 <= k < self.model().columns.len() implies fits(
                #[trigger] self.rows@[r][k],
                self.model().columns[k].column_type,
            ) by {
                if r < index {
                    assert(self.rows@[r] == old_self.rows@[r]);
                } else {
                    assert(accepts(cols, vals, h0, k));
                }
            }
        }
        Ok(index)
    }

    /// The bytes of row `index`.
    fn row_slice(&self, index: usize) -> (r: &[u8])
        requires
            self.wf(),
            index < self.model().rows.len(),
        ensures
            r@ == self.row_bytes(index as int),
    {
        // the arena's length fits in a usize, and so do the products below it
        let _arena_len = self.records.len();
        let rw = self.row_width;
        proof {
            lemma_mul_inequality(index + 1, self.row_count as int, rw as int);
            lemma_mul_is_distributive_add_other_way(rw as int, index as int, 1);
        }
        match self.records.read(index * rw, rw) {
            Ok(bytes) => bytes,
            Err(_) => {
                assert(false);
                &[]
            },
        }
    }

    /// The value of column `column_index` in row `row_index`.
    pub fn get_field(&self, row_index: usize, column_index: usize) -> (r: Result<Value, StorageError>)
        requires
            self.wf(),
        ensures
            row_index >= self.model().rows.len() || column_index >= self.model().columns.len()
                ==> r == Err::<Value, StorageError>(StorageError::OutOfBounds),
            row_index < self.model().rows.len() && column_index < self.model().columns.len() ==> {
                &&& r is Ok
                &&& r->Ok_0.model() == self.model().rows[row_index as int][column_index as int]
            },
    {
        if row_index >= self.row_count || column_index >= self.columns.len() {
            return Err(StorageError::OutOfBounds);
        }
        let record = self.row_slice(row_index);
        let ghost d = self.rows@[row_index as int][column_index as int];
        proof {
            lemma_cell_round_trip(
                self.storage.contents(),
                record@,
                self.column_offsets@[column_index as int] as int,
                d,
                self.columns@[column_index as int].column_type,
            );
        }
        read_cell(
            &self.storage,
            record,
            self.column_offsets[column_index],
            self.columns[column_index].column_type,
        )
    }

    /// Decodes column `column_index` of the row bytes `record`, reading a
    /// string from the heap.
    pub fn extract_column(&self, record: &[u8], column_index: usize) -> (r: Result<
        Value,
        StorageError,
    >)
        requires
            self.wf(),
        ensures
            column_index >= self.model().columns.len() ==> r == Err::<Value, StorageError>(
                StorageError::OutOfBounds,
            ),
            column_index < self.model().columns.len() ==> result_model(r) == decode_cell(
                self.model().heap,
                record@,
                self.model().columns[column_index as int].offset as int,
                self.model().columns[column_index as int].column_type,
            ),
    {
        if column_index >= self.columns.len() {
            return Err(StorageError::OutOfBounds);
        }
        read_cell(
            &self.storage,
            record,
            self.column_offsets[column_index],
            self.columns[column_index].column_type,
        )
    }

    /// The values of row `index`, in column order.
    pub fn extract_record(&self, index: usize) -> (r: Result<Vec<Value>, StorageError>)
        requires
            self.wf(),
        ensures
            index >= self.model().rows.len() ==> r == Err::<Vec<Value>, StorageError>(
                StorageError::OutOfBounds,
            ),
            index < self.model().rows.len() ==> {
                &&& r is Ok
                &&& values_model(r->Ok_0@) == self.model().rows[index as int]
            },
    {
        if index >= self.row_count {
            return Err(StorageError::OutOfBounds);
        }
        let record = self.row_slice(index);
        let n = self.columns.len();
        let mut columns: Vec<Value> = Vec::new();
        let mut c: usize = 0;
        while c < n
            invariant
                self.wf(),
                index < self.row_count,
                n == self.columns@.len(),
                record@ == self.row_bytes(index as int),
                c <= n,
                columns@.len() == c,
                forall|k: int|
                    0 <= k < c ==> (#[trigger] columns@[k]).model() == self.rows@[index as int][k],
            decreases n - c,
        {
            proof {
                assert(fits(
                    self.model().rows[index as int][c as int],
                    self.model().columns[c as int].column_type,
                ));
                lemma_cell_round_trip(
                    self.storage.contents(),
                    record@,
                    self.column_offsets@[c as int] as int,
                    self.rows@[index as int][c as int],
                    self.columns@[c as int].column_type,
                );
            }
            match read_cell(
                &self.storage,
                record,
                self.column_offsets[c],
                self.columns[c].column_type,
            ) {
                Ok(v) => columns.push(v),
                Err(e) => return Err(e),
            }
            c += 1;
        }
        assert(self.model().rows[index as int].len() == self.model().columns.len());
        assert(values_model(columns@) =~= self.rows@[index as int]);
        Ok(columns)
    }

    /// Whether the decoded row `values` passes `query`.
    fn filter(&self, query: Option<&Query>, values: &Vec<Value>) -> (r: bool)
        requires
            self.wf(),
        ensures
            r == passes(self.model().columns, values_model(values@), query_model(query)),
    {
        match query {
            None => true,
            Some(q) => match q {
                Query::Eq(column_name, query_value) => {
                    let ghost cols = self.model().columns;
                    let ghost pred = Predicate { column: column_name@, value: query_value.model() };
                    assert(query_model(query) == Some(pred));
                    let n = self.columns.len();
                    let mut i: usize = 0;
                    while i < n
                        invariant
                            n == cols.len(),
                            cols == self.model().columns,
                            query_model(query) == Some(pred),
                            pred == (Predicate { column: column_name@, value: query_value.model() }),
                            i <= n,
                            position_from(cols, column_name@, 0) == position_from(
                                cols,
                                column_name@,
                                i as int,
                            ),
                        decreases n - i,
                    {
                        if same_text(self.columns[i].name.as_str(), column_name) {
                            assert(cols[i as int].name == column_name@);
                            assert(position_from(cols, column_name@, i as int) == i);
                            if i < values.len() {
                                assert(values_model(values@)[i as int] == values@[i as int].model());
                                return values_equal(&values[i], query_value);
                            }
                            return false;
                        }
                        assert(position_from(cols, column_name@, i as int) == position_from(
                            cols,
                            column_name@,
                            i + 1,
                        ));
                        i += 1;
                    }
                    false
                },
            },
        }
    }

    /// The rows that pass `query`, in row order. Each is followed, for every
    /// relation in declaration order, by the rows of the relation's target
    /// table in `db` whose key column equals the row's first value, itself
    /// selected the same way.
    pub fn select(&self, db: &Database, query: Option<&Query>) -> (r: Vec<Vec<Value>>)
        requires
            self.wf(),
            db.wf(),
        ensures
            rows_model(r@) == select_rows(db.model(), self.model(), query_model(query), 0),
    {
        self.select_from(db, query, 0)
    }

    /// `select`, following only relations to tables from `floor` on.
    fn select_from(&self, db: &Database, query: Option<&Query>, floor: usize) -> (r: Vec<
        Vec<Value>,
    >)
        requires
            self.wf(),
            db.wf(),
            floor <= db.model().len(),
        ensures
            rows_model(r@) == select_rows(
                db.model(),
                self.model(),
                query_model(query),
                floor as nat,
            ),
        decreases db.model().len() - floor,
    {
        let ghost dbm = db.model();
        let ghost t = self.model();
        let ghost q = query_model(query);
        let mut rows: Vec<Vec<Value>> = Vec::new();
        let n = self.row_count;
        let mut i: usize = 0;
        while i < n
            invariant
                self.wf(),
                db.wf(),
                dbm == db.model(),
                t == self.model(),
                q == query_model(query),
                floor <= dbm.len(),
                n == t.rows.len(),
                i <= n,
                rows_model(rows@) == select_prefix(dbm, t, q, floor as nat, i as nat),
            decreases n - i,
        {
            let mut columns = match self.extract_record(i) {
                Ok(values) => values,
                Err(_) => {
                    assert(false);
                    Vec::new()
                },
            };
            let ghost row = values_model(columns@);
            if self.filter(query, &columns) {
                let mut expansions: Vec<Value> = Vec::new();
                let nrel = self.relations.len();
                let mut k: usize = 0;
                while k < nrel
                    invariant
                        self.wf(),
                        db.wf(),
                        dbm == db.model(),
                        t == self.model(),
                        floor <= dbm.len(),
                        nrel == t.relations.len(),
                        row == values_model(columns@),
                        k <= nrel,
                        values_model(expansions@) == expand(dbm, t, row, floor as nat, k as nat),
                    decreases nrel - k,
                {
                    let rel = &self.relations[k];
                    let g = rel.table;
                    assert(t.relations[k as int] == rel.model());
                    let ghost expected = if floor <= g < dbm.len() && row.len() > 0 {
                        select_rows(
                            dbm,
                            dbm[g as int],
                            Some(Predicate { column: rel.key@, value: row[0] }),
                            (g + 1) as nat,
                        )
                    } else {
                        Seq::empty()
                    };
                    let nested = if floor <= g && g < db.len() && columns.len() > 0 {
                        let link = Query::Eq(rel.key.as_str(), &columns[0]);
                        assert(query_model(Some(&link)) == Some(
                            Predicate { column: rel.key@, value: row[0] },
                        ));
                        db.table(g).select_from(db, Some(&link), g + 1)
                    } else {
                        Vec::new()
                    };
                    proof {
                        lemma_array_model(nested);
                        assert(rows_model(nested@) =~= expected);
                    }
                    let ghost before = expansions@;
                    expansions.push(Value::Array(nested));
                    assert(values_model(expansions@) =~= values_model(before).push(
                        Value::Array(nested).model(),
                    ));
                    k += 1;
                }
                let ghost before = columns@;
                columns.append(&mut expansions);
                assert(values_model(columns@) =~= row + expand(
                    dbm,
                    t,
                    row,
                    floor as nat,
                    nrel as nat,
                ));
                let ghost before_rows = rows@;
                rows.push(columns);
                assert(rows_model(rows@) =~= rows_model(before_rows).push(
                    values_model(columns@),
                ));
            }
            i += 1;
        }
        rows
    }

    /// Number of rows stored.
    pub fn row_count(&self) -> (r: usize)
        requires
            self.wf(),
        ensures
            r == self.model().rows.len(),
    {
        self.row_count
    }

    /// Bytes that each row takes.
    pub fn row_width(&self) -> (r: usize)
        ensures
            r == self.model().row_width,
    {
        self.row_width
    }

    /// The stored columns, in order.
    pub fn columns(&self) -> (r: &Vec<Column>)
        requires
            self.wf(),
        ensures
            r@.len() == self.model().columns.len(),
            forall|c: int|
                0 <= c < r@.len() ==> #[trigger] r@[c].name@ == self.model().columns[c].name
                    && r@[c].column_type == self.model().columns[c].column_type,
    {
        &self.columns
    }

    /// Byte offset of column `c` within a row.
    pub fn column_offset(&self, c: usize) -> (r: usize)
        requires
            self.wf(),
            c < self.model().columns.len(),
        ensures
            r == self.model().columns[c as int].offset,
    {
        self.column_offsets[c]
    }

    /// The one-to-many relations, in declaration order.
    pub fn relations(&self) -> (r: &Vec<Relation>)
        ensures
            r@.map_values(|rel: Relation| rel.model()) == self.model().relations,
    {
        &self.relations
    }

    /// Replaces the table's one-to-many relations.
    pub fn add_relations(&mut self, relations: Vec<Relation>)
        requires
            old(self).wf(),
        ensures
            final(self).wf(),
            final(self).model() == (TableModel {
                relations: relations@.map_values(|r: Relation| r.model()),
                ..old(self).model()
            }),
    {
        self.relations = relations;
        assert(self.model().columns =~= old(self).model().columns);
        assert forall|r: int, c: int|
            0 <= r < self.row_count && 0 <= c < self.columns@.len() implies cell_holds(
                self.storage.contents(),
                #[trigger] self.row_bytes(r),
                self.column_offsets@[c] as int,
                #[trigger] self.rows@[r][c],
            ) by {
            assert(self.row_bytes(r) == old(self).row_bytes(r));
        }
    }
}

/// Whether two values are equal scalars of the same type.
fn values_equal(a: &Value, b: &Value) -> (r: bool)
    ensures
        r == same_value(a.model(), b.model()),
{
    match (a, b) {
        (Value::Ulid(x), Value::Ulid(y)) => *x == *y,
        (Value::Int32(x), Value::Int32(y)) => *x == *y,
        (Value::Int64(x), Value::Int64(y)) => *x == *y,
        (Value::String(x), Value::String(y)) => same_text(x.as_str(), y.as_str()),
        _ => false,
    }
}

/// Whether two of `fields` share a name.
fn has_duplicate(fields: &Vec<Field>) -> (r: bool)
    ensures
        r == has_duplicate_names(fields@),
{
    let n = fields.len();
    let mut j: usize = 0;
    while j < n
        invariant
            n == fields@.len(),
            j <= n,
            forall|a: int, b: int|
                0 <= a < b < j ==> #[trigger] fields@[a].name@ != #[trigger] fields@[b].name@,
        decreases n - j,
    {
        let mut i: usize = 0;
        while i < j
            invariant
                n == fields@.len(),
                i <= j < n,
                forall|a: int, b: int|
                    0 <= a < b < j ==> #[trigger] fields@[a].name@ != #[trigger] fields@[b].name@,
                forall|a: int| 0 <= a < i ==> #[trigger] fields@[a].name@ != fields@[j as int].name@,
            decreases j - i,
        {
            if same_text(fields[i].name.as_str(), fields[j].name.as_str()) {
                assert(fields@[i as int].name@ == fields@[j as int].name@);
                return true;
            }
            i += 1;
        }
        j += 1;
    }
    false
}

/// The column type a stored field is kept as.
fn field_type_to_column_type(field_type: &FieldType) -> (r: ColumnType)
    requires
        column_type_of(*field_type) is Some,
    ensures
        column_type_of(*field_type) == Some(r),
{
    match field_type {
        FieldType::Ulid => ColumnType::Ulid,
        FieldType::Int32 => ColumnType::Int32,
        FieldType::Int64 => ColumnType::Int64,
        FieldType::String => ColumnType::String,
        FieldType::Relation { .. } => ColumnType::Int32,
        FieldType::Table { .. } => ColumnType::Int32,
    }
}

} // verus!

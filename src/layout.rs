use vstd::prelude::*;

use crate::types::{alignment, width, ColumnModel, ColumnType, Field, FieldType, RelationModel};

verus! {

/// Bytes to add to `offset` to reach a multiple of `alignment`.
pub open spec fn padding(offset: int, alignment: int) -> int {
    if offset % alignment == 0 {
        0
    } else {
        alignment - offset % alignment
    }
}

/// The first multiple of `alignment` at or after `offset`.
pub open spec fn align_up(offset: int, alignment: int) -> int {
    offset + padding(offset, alignment)
}

/// The column type that a field is stored as; none for a one-to-many
/// relation, which is not stored.
pub open spec fn column_type_of(ft: FieldType) -> Option<ColumnType> {
    match ft {
        FieldType::Ulid => Some(ColumnType::Ulid),
        FieldType::Int32 => Some(ColumnType::Int32),
        FieldType::Int64 => Some(ColumnType::Int64),
        FieldType::String => Some(ColumnType::String),
        FieldType::Relation { .. } => Some(ColumnType::Int32),
        FieldType::Table { .. } => None,
    }
}

/// Offset just past the columns of the first `n` fields, each placed at the
/// next multiple of its alignment.
pub open spec fn planned_end(fields: Seq<Field>, n: nat) -> nat
    decreases n,
{
    if n == 0 {
        0
    } else {
        let prev = planned_end(fields, (n - 1) as nat);
        match column_type_of(fields[n - 1].field_type) {
            Some(t) => (align_up(prev as int, alignment(t) as int) + width(t)) as nat,
            None => prev,
        }
    }
}

/// Columns of the first `n` fields, in declaration order.
pub open spec fn planned_columns(fields: Seq<Field>, n: nat) -> Seq<ColumnModel>
    decreases n,
{
    if n == 0 {
        Seq::empty()
    } else {
        let prev = planned_columns(fields, (n - 1) as nat);
        match column_type_of(fields[n - 1].field_type) {
            Some(t) => prev.push(
                ColumnModel {
                    name: fields[n - 1].name@,
                    column_type: t,
                    offset: align_up(
                        planned_end(fields, (n - 1) as nat) as int,
                        alignment(t) as int,
                    ) as nat,
                },
            ),
            None => prev,
        }
    }
}

/// One-to-many relations among the first `n` fields, in declaration order.
pub open spec fn planned_relations(fields: Seq<Field>, n: nat) -> Seq<RelationModel>
    decreases n,
{
    if n == 0 {
        Seq::empty()
    } else {
        let prev = planned_relations(fields, (n - 1) as nat);
        match fields[n - 1].field_type {
            FieldType::Table { key, relation_type, table } => prev.push(
                RelationModel {
                    name: fields[n - 1].name@,
                    key: key@,
                    relation_type,
                    table: table as nat,
                },
            ),
            _ => prev,
        }
    }
}

/// The widest alignment among the columns of the first `n` fields; 1 when
/// there is none.
pub open spec fn widest_alignment(fields: Seq<Field>, n: nat) -> nat
    decreases n,
{
    if n == 0 {
        1
    } else {
        let prev = widest_alignment(fields, (n - 1) as nat);
        match column_type_of(fields[n - 1].field_type) {
            Some(t) => if alignment(t) > prev {
                alignment(t)
            } else {
                prev
            },
            None => prev,
        }
    }
}

/// Width of a row: the end of the last column, padded to the widest
/// alignment so that rows placed back to back keep every column aligned.
pub open spec fn planned_row_width(fields: Seq<Field>) -> nat {
    align_up(
        planned_end(fields, fields.len()) as int,
        widest_alignment(fields, fields.len()) as int,
    ) as nat
}

/// Whether two fields share a name.
pub open spec fn has_duplicate_names(fields: Seq<Field>) -> bool {
    exists|i: int, j: int|
        0 <= i < j < fields.len() && #[trigger] fields[i].name@ == #[trigger] fields[j].name@
}

/// Whether the columns are each aligned, lie in order without overlap, and
/// end by `end`.
pub open spec fn columns_laid_out(cols: Seq<ColumnModel>, end: nat) -> bool {
    &&& forall|c: int|
        0 <= c < cols.len() ==> #[trigger] cols[c].offset % alignment(cols[c].column_type) == 0
    &&& forall|c: int|
        0 <= c < cols.len() ==> #[trigger] cols[c].offset + width(cols[c].column_type) <= end
    &&& forall|c: int, d: int|
        0 <= c < d < cols.len() ==> #[trigger] cols[c].offset + width(cols[c].column_type)
            <= #[trigger] cols[d].offset
}

pub proof fn lemma_align_up(offset: int, a: int)
    requires
        offset >= 0,
        a > 0,
    ensures
        offset <= align_up(offset, a) < offset + a,
        align_up(offset, a) % a == 0,
{
    if offset % a != 0 {
        assert((offset + (a - offset % a)) % a == 0) by (nonlinear_arith)
            requires
                a > 0,
        ;
    }
}

/// The planned end grows with the number of fields planned.
pub proof fn lemma_planned_end_monotone(fields: Seq<Field>, i: nat, j: nat)
    requires
        i <= j,
    ensures
        planned_end(fields, i) <= planned_end(fields, j),
    decreases j,
{
    if i < j {
        lemma_planned_end_monotone(fields, i, (j - 1) as nat);
        match column_type_of(fields[j - 1].field_type) {
            Some(t) => lemma_align_up(planned_end(fields, (j - 1) as nat) as int, alignment(t) as int),
            None => {},
        }
    }
}

/// The planned columns of any field sequence are aligned, in order, and
/// within the planned end.
pub proof fn lemma_planned_columns_laid_out(fields: Seq<Field>, n: nat)
    ensures
        columns_laid_out(planned_columns(fields, n), planned_end(fields, n)),
    decreases n,
{
    if n > 0 {
        let m = (n - 1) as nat;
        lemma_planned_columns_laid_out(fields, m);
        match column_type_of(fields[n - 1].field_type) {
            Some(t) => {
                lemma_align_up(planned_end(fields, m) as int, alignment(t) as int);
                let cols = planned_columns(fields, n);
                let prev = planned_columns(fields, m);
                assert(cols == prev.push(cols.last()));
                assert forall|c: int, d: int|
                    0 <= c < d < cols.len() implies #[trigger] cols[c].offset + width(
                        cols[c].column_type,
                    ) <= #[trigger] cols[d].offset by {
                    if d < prev.len() {
                        assert(cols[c] == prev[c] && cols[d] == prev[d]);
                    } else {
                        assert(cols[c] == prev[c]);
                    }
                }
                assert forall|c: int| 0 <= c < cols.len() implies #[trigger] cols[c].offset
                    + width(cols[c].column_type) <= planned_end(fields, n) by {
                    if c < prev.len() {
                        assert(cols[c] == prev[c]);
                    }
                }
                assert forall|c: int| 0 <= c < cols.len() implies #[trigger] cols[c].offset
                    % alignment(cols[c].column_type) == 0 by {
                    if c < prev.len() {
                        assert(cols[c] == prev[c]);
                    }
                }
            },
            None => {},
        }
    }
}

/// Whether `x` is one of the alignments a row can need.
pub open spec fn is_alignment(x: nat) -> bool {
    x == 1 || x == 2 || x == 4 || x == 8 || x == 16
}

proof fn lemma_multiple_of_alignment(r: int, w: nat, a: nat)
    requires
        is_alignment(w),
        is_alignment(a),
        a <= w,
        r % (w as int) == 0,
    ensures
        r % (a as int) == 0,
{
    let k: int = if w == 1 {
        r % 1
    } else if w == 2 {
        r % 2
    } else if w == 4 {
        r % 4
    } else if w == 8 {
        r % 8
    } else {
        r % 16
    };
    assert(k == 0);
    if a == 1 {
        assert(r % 1 == 0);
    } else if a == 2 {
        assert(r % 2 == 0);
    } else if a == 4 {
        assert(r % 4 == 0);
    } else if a == 8 {
        assert(r % 8 == 0);
    } else {
        assert(r % 16 == 0);
    }
}

/// The widest alignment is one of 1, 2, 4, 8 and 16, and at least the
/// alignment of every planned column.
pub proof fn lemma_widest_alignment(fields: Seq<Field>, n: nat)
    ensures
        is_alignment(widest_alignment(fields, n)),
        forall|c: int|
            0 <= c < planned_columns(fields, n).len() ==> alignment(
                #[trigger] planned_columns(fields, n)[c].column_type,
            ) <= widest_alignment(fields, n),
    decreases n,
{
    if n > 0 {
        let m = (n - 1) as nat;
        lemma_widest_alignment(fields, m);
        let cols = planned_columns(fields, n);
        let prev = planned_columns(fields, m);
        assert forall|c: int| 0 <= c < cols.len() implies alignment(
            #[trigger] cols[c].column_type,
        ) <= widest_alignment(fields, n) by {
            if c < prev.len() {
                assert(cols[c] == prev[c]);
            }
        }
    }
}

/// Whatever the fields and their order, every planned column sits at a
/// multiple of its type's alignment, the columns do not overlap, and they
/// fit in a row whose width is a multiple of every column's alignment.
pub proof fn lemma_layout_aligned(fields: Seq<Field>)
    ensures
        columns_laid_out(
            planned_columns(fields, fields.len()),
            planned_row_width(fields),
        ),
        forall|c: int|
            0 <= c < planned_columns(fields, fields.len()).len() ==> planned_row_width(fields)
                % alignment(#[trigger] planned_columns(fields, fields.len())[c].column_type) == 0,
{
    let n = fields.len();
    let w = widest_alignment(fields, n);
    lemma_planned_columns_laid_out(fields, n);
    lemma_widest_alignment(fields, n);
    lemma_align_up(planned_end(fields, n) as int, w as int);
    let rw = planned_row_width(fields);
    let cols = planned_columns(fields, n);
    assert forall|c: int| 0 <= c < cols.len() implies rw % alignment(
        #[trigger] cols[c].column_type,
    ) == 0 by {
        let a = alignment(cols[c].column_type);
        lemma_multiple_of_alignment(rw as int, w, a);
    }
}

} // verus!

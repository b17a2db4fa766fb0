use vstd::prelude::*;

use crate::engine::{relations_point_forward, select_rows};
use crate::errors::{EncodeError, SchemaError};
use crate::layout::{planned_columns, planned_relations, planned_row_width, has_duplicate_names};
use crate::table::{
    accepts_row, first_refusal, heap_after, query_model, reports, Query, Table, TableModel,
};
use crate::types::{rows_model, values_model, Field, FieldType, Value};

verus! {

/// Whether the relation targets of `fields`, declared for table `id` of a
/// database of `len` tables, exist; a one-to-many relation must also point
/// to a later table.
pub open spec fn targets_valid(fields: Seq<Field>, id: nat, len: nat) -> bool {
    forall|j: int|
        0 <= j < fields.len() ==> match #[trigger] fields[j].field_type {
            FieldType::Table { table, .. } => id < table < len,
            FieldType::Relation { table } => table < len,
            _ => true,
        }
}

/// The tables of a schema, each reached by its index, which relations use
/// to name their targets.
pub struct Database {
    tables: Vec<Table>,
}

impl Database {
    pub closed spec fn model(&self) -> Seq<TableModel> {
        self.tables@.map_values(|t: Table| t.model())
    }

    /// Every table well formed, every one-to-many relation pointing to a
    /// later table.
    pub closed spec fn wf(&self) -> bool {
        forall|i: int|
            0 <= i < self.tables@.len() ==> #[trigger] self.tables@[i].wf()
                && relations_point_forward(self.model(), i)
    }

    /// What a well-formed database guarantees of its tables.
    pub proof fn lemma_wf(&self)
        requires
            self.wf(),
        ensures
            forall|i: int|
                0 <= i < self.model().len() ==> (#[trigger] self.model()[i]).well_formed()
                    && relations_point_forward(self.model(), i),
    {
        assert forall|i: int| 0 <= i < self.model().len() implies (#[trigger] self.model()[
            i
        ]).well_formed() && relations_point_forward(self.model(), i) by {
            assert(self.tables@[i].wf());
        }
    }

    pub fn new() -> (db: Database)
        ensures
            db.wf(),
            db.model() == Seq::<TableModel>::empty(),
    {
        let db = Database { tables: Vec::new() };
        assert(db.model() =~= Seq::<TableModel>::empty());
        db
    }

    pub fn len(&self) -> (r: usize)
        ensures
            r == self.model().len(),
    {
        self.tables.len()
    }

    /// The table with index `id`.
    pub fn table(&self, id: usize) -> (t: &Table)
        requires
            self.wf(),
            id < self.model().len(),
        ensures
            t.wf(),
            t.model() == self.model()[id as int],
    {
        &self.tables[id]
    }

    /// Adds an empty table named `name` and returns its index.
    pub fn create_table(&mut self, name: &str) -> (id: usize)
        requires
            old(self).wf(),
        ensures
            final(self).wf(),
            id == old(self).model().len(),
            final(self).model() == old(self).model().push(
                TableModel {
                    name: name@,
                    columns: Seq::empty(),
                    relations: Seq::empty(),
                    row_width: 0,
                    rows: Seq::empty(),
                    heap: Seq::empty(),
                },
            ),
    {
        let id = self.tables.len();
        self.tables.push(Table::new(name));
        assert(self.model() =~= old(self).model().push(self.tables@[id as int].model()));
        assert forall|i: int| 0 <= i < self.tables@.len() implies #[trigger] self.tables@[i].wf()
            && relations_point_forward(self.model(), i) by {
            if i < id {
                assert(old(self).tables@[i].wf());
                assert(relations_point_forward(old(self).model(), i));
                assert(self.model()[i] == old(self).model()[i]);
            }
        }
        id
    }

    /// Lays out the fields of table `id` as `Table::add_fields` does, after
    /// checking that every relation names an existing table and every
    /// one-to-many relation a later one.
    pub fn add_fields(&mut self, id: usize, fields: Vec<Field>) -> (r: Result<(), SchemaError>)
        requires
            old(self).wf(),
            id < old(self).model().len(),
            planned_row_width(fields@) <= usize::MAX,
        ensures
            final(self).wf(),
            !targets_valid(fields@, id as nat, old(self).model().len()) ==> r == Err::<
                (),
                SchemaError,
            >(SchemaError::InvalidRelationTarget),
            targets_valid(fields@, id as nat, old(self).model().len()) ==> {
                let t = old(self).model()[id as int];
                &&& t.rows.len() > 0 ==> r == Err::<(), SchemaError>(SchemaError::LayoutFrozen)
                &&& t.rows.len() == 0 && has_duplicate_names(fields@) ==> r == Err::<
                    (),
                    SchemaError,
                >(SchemaError::DuplicateFieldName)
                &&& t.rows.len() == 0 && !has_duplicate_names(fields@) ==> {
                    &&& r is Ok
                    &&& final(self).model() == old(self).model().update(
                        id as int,
                        TableModel {
                            name: t.name,
                            columns: planned_columns(fields@, fields@.len()),
                            relations: planned_relations(fields@, fields@.len()),
                            row_width: planned_row_width(fields@),
                            rows: Seq::empty(),
                            heap: t.heap,
                        },
                    )
                }
            },
            r is Err ==> final(self).model() == old(self).model(),
    {
        let len = self.tables.len();
        let mut j: usize = 0;
        while j < fields.len()
            invariant
                self.wf(),
                *self == *old(self),
                len == old(self).model().len(),
                j <= fields@.len(),
                forall|k: int| 0 <= k < j ==> match #[trigger] fields@[k].field_type {
                    FieldType::Table { table, .. } => id < table < len,
                    FieldType::Relation { table } => table < len,
                    _ => true,
                },
            decreases fields@.len() - j,
        {
            let ok = match &fields[j].field_type {
                FieldType::Table { table, .. } => id < *table && *table < len,
                FieldType::Relation { table } => *table < len,
                _ => true,
            };
            if !ok {
                return Err(SchemaError::InvalidRelationTarget);
            }
            j += 1;
        }
        let ghost fs = fields@;
        let r = self.tables[id].add_fields(fields);
        proof {
            assert(self.model() =~= old(self).model().update(id as int, self.tables@[id as int].model()));
            assert forall|i: int| 0 <= i < self.tables@.len() implies #[trigger] self.tables@[i].wf()
                && relations_point_forward(self.model(), i) by {
                if i != id {
                    assert(old(self).tables@[i].wf());
                assert(relations_point_forward(old(self).model(), i));
                    assert(self.model()[i] == old(self).model()[i]);
                } else if r is Ok {
                    lemma_planned_relations_forward(fs, fs.len(), id as nat, len as nat);
                } else {
                    assert(old(self).tables@[i].wf());
                assert(relations_point_forward(old(self).model(), i));
                }
            }
        }
        r
    }

    /// Inserts a row into table `id`, as `Table::insert` does.
    pub fn insert(&mut self, id: usize, values: &[Value]) -> (r: Result<usize, EncodeError>)
        requires
            old(self).wf(),
            id < old(self).model().len(),
            values@.len() == old(self).model()[id as int].columns.len(),
            old(self).model()[id as int].rows.len() < usize::MAX,
            (old(self).model()[id as int].rows.len() + 1) * old(self).model()[id as int].row_width
                <= usize::MAX,
        ensures
            final(self).wf(),
            ({
                let t = old(self).model()[id as int];
                let vals = values_model(values@);
                &&& r is Ok <== accepts_row(t.columns, vals, t.heap.len())
                &&& r matches Ok(index) ==> {
                    &&& accepts_row(t.columns, vals, t.heap.len())
                    &&& index == t.rows.len()
                    &&& final(self).model() == old(self).model().update(
                        id as int,
                        TableModel {
                            rows: t.rows.push(vals),
                            heap: final(self).model()[id as int].heap,
                            ..t
                        },
                    )
                    &&& final(self).model()[id as int].heap.len() == heap_after(
                        t.columns,
                        vals,
                        t.heap.len(),
                        values@.len(),
                    )
                }
                &&& r matches Err(e) ==> {
                    &&& final(self).model() == old(self).model()
                    &&& exists|c: int|
                        first_refusal(t.columns, vals, t.heap.len(), c) && reports(
                            e,
                            #[trigger] t.columns[c],
                            vals[c],
                        )
                }
            }),
    {
        let r = self.tables[id].insert(values);
        proof {
            assert(self.model() =~= old(self).model().update(id as int, self.tables@[id as int].model()));
            assert forall|i: int| 0 <= i < self.tables@.len() implies #[trigger] self.tables@[i].wf()
                && relations_point_forward(self.model(), i) by {
                assert(old(self).tables@[i].wf());
                assert(relations_point_forward(old(self).model(), i));
                if i != id {
                    assert(self.model()[i] == old(self).model()[i]);
                }
            }
        }
        r
    }

    /// The rows of table `id` that pass `query`, each with its relations
    /// expanded, as `Table::select` gives them.
    pub fn select(&self, id: usize, query: Option<&Query>) -> (r: Vec<Vec<Value>>)
        requires
            self.wf(),
            id < self.model().len(),
        ensures
            rows_model(r@) == select_rows(
                self.model(),
                self.model()[id as int],
                query_model(query),
                0,
            ),
    {
        self.table(id).select(self, query)
    }
}

/// The one-to-many relations planned from fields whose targets are valid
/// all point to a later table.
proof fn lemma_planned_relations_forward(fields: Seq<Field>, n: nat, id: nat, len: nat)
    requires
        targets_valid(fields, id, len),
        n <= fields.len(),
    ensures
        forall|k: int|
            0 <= k < planned_relations(fields, n).len() ==> id < #[trigger] planned_relations(
                fields,
                n,
            )[k].table < len,
    decreases n,
{
    if n > 0 {
        lemma_planned_relations_forward(fields, (n - 1) as nat, id, len);
        let rels = planned_relations(fields, n);
        let prev = planned_relations(fields, (n - 1) as nat);
        assert(match fields[n - 1].field_type {
            FieldType::Table { table, .. } => id < table < len,
            FieldType::Relation { table } => table < len,
            _ => true,
        });
        assert forall|k: int| 0 <= k < rels.len() implies id < #[trigger] rels[k].table < len by {
            if k < prev.len() {
                assert(rels[k] == prev[k]);
            }
        }
    }
}

} // verus!

use vstd::prelude::*;

use crate::table::{Predicate, TableModel};
use crate::types::{same_value, ColumnModel, Datum};

verus! {

/// Position of the first column from `i` on that is named `name`; -1 when
/// there is none.
pub open spec fn position_from(cols: Seq<ColumnModel>, name: Seq<char>, i: int) -> int
    decreases cols.len() - i,
{
    if i < 0 || i >= cols.len() {
        -1
    } else if cols[i].name == name {
        i
    } else {
        position_from(cols, name, i + 1)
    }
}

/// Position of the first column named `name`; -1 when there is none.
pub open spec fn column_position(cols: Seq<ColumnModel>, name: Seq<char>) -> int {
    position_from(cols, name, 0)
}

/// Whether a row passes a predicate: always without one; with one, when the
/// column it names exists and holds an equal value of the same type.
pub open spec fn passes(cols: Seq<ColumnModel>, row: Seq<Datum>, q: Option<Predicate>) -> bool {
    match q {
        None => true,
        Some(p) => {
            let i = column_position(cols, p.column);
            0 <= i < row.len() && same_value(row[i], p.value)
        },
    }
}

/// The rows of `t` that pass `q`, in row order, each followed by one
/// `Rows` value per relation of `t`, in declaration order.
///
/// Relations lead to tables of `db` by index. Only targets from `floor` on
/// are followed, and a nested select raises the floor past its own table;
/// in a well-formed database every one-to-many relation points to a later
/// table, so nothing is cut, and the expansion is finite however the
/// tables refer to each other.
pub open spec fn select_rows(
    db: Seq<TableModel>,
    t: TableModel,
    q: Option<Predicate>,
    floor: nat,
) -> Seq<Seq<Datum>>
    decreases db.len() - floor, 2nat, 0nat,
{
    select_prefix(db, t, q, floor, t.rows.len())
}

/// `select_rows` over the first `n` rows of `t`.
pub open spec fn select_prefix(
    db: Seq<TableModel>,
    t: TableModel,
    q: Option<Predicate>,
    floor: nat,
    n: nat,
) -> Seq<Seq<Datum>>
    decreases db.len() - floor, 1nat, n,
{
    if n == 0 {
        Seq::empty()
    } else {
        let prev = select_prefix(db, t, q, floor, (n - 1) as nat);
        let row = t.rows[n - 1];
        if passes(t.columns, row, q) {
            prev.push(row + expand(db, t, row, floor, t.relations.len()))
        } else {
            prev
        }
    }
}

/// The nested rows that the first `k` relations of `t` give for `row`: for
/// each, the rows of its target whose key column equals the row's first
/// value.
pub open spec fn expand(
    db: Seq<TableModel>,
    t: TableModel,
    row: Seq<Datum>,
    floor: nat,
    k: nat,
) -> Seq<Datum>
    decreases db.len() - floor, 0nat, k,
{
    if k == 0 {
        Seq::empty()
    } else {
        let prev = expand(db, t, row, floor, (k - 1) as nat);
        let rel = t.relations[k - 1];
        let nested = if floor <= rel.table < db.len() && row.len() > 0 {
            select_rows(
                db,
                db[rel.table as int],
                Some(Predicate { column: rel.key, value: row[0] }),
                rel.table + 1,
            )
        } else {
            Seq::empty()
        };
        prev.push(Datum::Rows(nested))
    }
}

/// Whether every one-to-many relation of table `i` points to a later table
/// of `db`.
pub open spec fn relations_point_forward(db: Seq<TableModel>, i: int) -> bool {
    forall|k: int|
        0 <= k < db[i].relations.len() ==> i < #[trigger] db[i].relations[k].table < db.len()
}

} // verus!

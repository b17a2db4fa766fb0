//! Properties of selection that hold for every table and database.
use vstd::prelude::*;

use crate::engine::{column_position, expand, passes, select_prefix, select_rows};
use crate::table::{Predicate, TableModel};
use crate::types::{ColumnModel, Datum};

verus! {

/// The test that keeps the rows passing predicate `p` on columns `cols`.
pub open spec fn keeps(cols: Seq<ColumnModel>, p: Predicate) -> spec_fn(Seq<Datum>) -> bool {
    |row: Seq<Datum>| passes(cols, row, Some(p))
}

/// A row followed by its expansions passes a predicate exactly when the
/// row does.
proof fn lemma_passes_extended(t: TableModel, row: Seq<Datum>, extra: Seq<Datum>, q: Option<Predicate>)
    requires
        row.len() == t.columns.len(),
    ensures
        passes(t.columns, row + extra, q) == passes(t.columns, row, q),
{
    if let Some(p) = q {
        lemma_position_in_range(t.columns, p.column, 0);
        let i = column_position(t.columns, p.column);
        if 0 <= i < row.len() {
            assert((row + extra)[i] == row[i]);
        }
    }
}

/// A column position is -1 or the index of a column.
proof fn lemma_position_in_range(cols: Seq<ColumnModel>, name: Seq<char>, i: int)
    requires
        0 <= i,
    ensures
        crate::engine::position_from(cols, name, i) == -1 || i <= crate::engine::position_from(
            cols,
            name,
            i,
        ) < cols.len(),
    decreases cols.len() - i,
{
    if i < cols.len() && cols[i].name != name {
        lemma_position_in_range(cols, name, i + 1);
    }
}

proof fn lemma_prefix_all(db: Seq<TableModel>, t: TableModel, floor: nat, n: nat)
    requires
        n <= t.rows.len(),
    ensures
        select_prefix(db, t, None, floor, n).len() == n,
        forall|i: int|
            0 <= i < n ==> #[trigger] select_prefix(db, t, None, floor, n)[i] == t.rows[i] + expand(
                db,
                t,
                t.rows[i],
                floor,
                t.relations.len(),
            ),
    decreases n,
{
    if n > 0 {
        lemma_prefix_all(db, t, floor, (n - 1) as nat);
        let s = select_prefix(db, t, None, floor, n);
        let prev = select_prefix(db, t, None, floor, (n - 1) as nat);
        assert forall|i: int| 0 <= i < n implies #[trigger] s[i] == t.rows[i] + expand(
            db,
            t,
            t.rows[i],
            floor,
            t.relations.len(),
        ) by {
            if i < n - 1 {
                assert(s[i] == prev[i]);
            }
        }
    }
}

/// Selecting without a predicate gives one result per stored row, in the
/// order the rows were inserted: the row's values followed by the rows its
/// relations lead to.
pub proof fn lemma_select_all(db: Seq<TableModel>, t: TableModel, floor: nat)
    ensures
        select_rows(db, t, None, floor).len() == t.rows.len(),
        forall|i: int|
            0 <= i < t.rows.len() ==> #[trigger] select_rows(db, t, None, floor)[i] == t.rows[i]
                + expand(db, t, t.rows[i], floor, t.relations.len()),
{
    lemma_prefix_all(db, t, floor, t.rows.len());
}

/// A table that starts empty and then accepts the rows of `inserted`, one
/// insert after another, holds exactly those rows in insertion order; so it
/// counts one row per insert, and selecting without a predicate gives one
/// result per insert, in that order, each starting with the inserted values.
///
/// `states[i]` is the table before insert `i`; each step is what an
/// accepted insert does to the rows.
pub proof fn lemma_inserts_in_order(
    db: Seq<TableModel>,
    states: Seq<TableModel>,
    inserted: Seq<Seq<Datum>>,
    floor: nat,
)
    requires
        states.len() == inserted.len() + 1,
        states[0].rows.len() == 0,
        forall|i: int|
            0 <= i < inserted.len() ==> #[trigger] states[i + 1].rows == states[i].rows.push(
                inserted[i],
            ),
    ensures
        states.last().rows == inserted,
        states.last().rows.len() == inserted.len(),
        select_rows(db, states.last(), None, floor).len() == inserted.len(),
        forall|i: int|
            0 <= i < inserted.len() ==> (#[trigger] select_rows(db, states.last(), None, floor)[i]).subrange(
                0,
                inserted[i].len() as int,
            ) == inserted[i],
{
    lemma_states_rows(states, inserted, inserted.len());
    assert(inserted.take(inserted.len() as int) =~= inserted);
    let last = states.last();
    lemma_select_all(db, last, floor);
    assert forall|i: int| 0 <= i < inserted.len() implies (#[trigger] select_rows(
        db,
        last,
        None,
        floor,
    )[i]).subrange(0, inserted[i].len() as int) == inserted[i] by {
        let exp = expand(db, last, last.rows[i], floor, last.relations.len());
        assert((last.rows[i] + exp).subrange(0, inserted[i].len() as int) =~= inserted[i]);
    }
}

proof fn lemma_states_rows(states: Seq<TableModel>, inserted: Seq<Seq<Datum>>, k: nat)
    requires
        states.len() == inserted.len() + 1,
        states[0].rows.len() == 0,
        forall|i: int|
            0 <= i < inserted.len() ==> #[trigger] states[i + 1].rows == states[i].rows.push(
                inserted[i],
            ),
        k <= inserted.len(),
    ensures
        states[k as int].rows == inserted.take(k as int),
    decreases k,
{
    if k == 0 {
        assert(states[0].rows =~= inserted.take(0));
    } else {
        lemma_states_rows(states, inserted, (k - 1) as nat);
        assert(states[k as int].rows == states[k - 1].rows.push(inserted[k - 1]));
        assert(inserted.take(k as int) =~= inserted.take(k - 1).push(inserted[k - 1]));
    }
}

proof fn lemma_prefix_filter(db: Seq<TableModel>, t: TableModel, p: Predicate, floor: nat, n: nat)
    requires
        t.well_formed(),
        n <= t.rows.len(),
    ensures
        select_prefix(db, t, Some(p), floor, n) == select_prefix(db, t, None, floor, n).filter(
            keeps(t.columns, p),
        ),
        select_prefix(db, t, Some(p), floor, n).len() == t.rows.take(n as int).filter(
            keeps(t.columns, p),
        ).len(),
    decreases n,
{
    reveal(Seq::filter);
    let f = keeps(t.columns, p);
    if n == 0 {
        assert(t.rows.take(0) =~= Seq::<Seq<Datum>>::empty());
    } else {
        let m = (n - 1) as nat;
        lemma_prefix_filter(db, t, p, floor, m);
        let row = t.rows[m as int];
        let exp = expand(db, t, row, floor, t.relations.len());
        let all = select_prefix(db, t, None, floor, n);
        let prevs = select_prefix(db, t, Some(p), floor, m);
        let prevn = select_prefix(db, t, None, floor, m);
        assert(all == prevn.push(row + exp));
        assert(all.drop_last() =~= prevn);
        assert(all.last() == row + exp);
        lemma_passes_extended(t, row, exp, Some(p));
        assert(f(row + exp) == f(row));
        let taken = t.rows.take(n as int);
        assert(taken.drop_last() =~= t.rows.take(m as int));
        assert(taken.last() == row);
        if passes(t.columns, row, Some(p)) {
            assert(select_prefix(db, t, Some(p), floor, n) == prevs.push(row + exp));
            assert(all.filter(f) == prevn.filter(f).push(row + exp));
            assert(taken.filter(f) == t.rows.take(m as int).filter(f).push(row));
        } else {
            assert(select_prefix(db, t, Some(p), floor, n) == prevs);
            assert(all.filter(f) == prevn.filter(f));
            assert(taken.filter(f) == t.rows.take(m as int).filter(f));
        }
    }
}

/// Selecting with a predicate keeps exactly those results of selecting
/// without one whose row holds, in the named column, a value equal to the
/// predicate's; how many there are is how many stored rows pass, so none
/// when no row does.
pub proof fn lemma_select_filter(db: Seq<TableModel>, t: TableModel, p: Predicate, floor: nat)
    requires
        t.well_formed(),
    ensures
        select_rows(db, t, Some(p), floor) == select_rows(db, t, None, floor).filter(
            keeps(t.columns, p),
        ),
        select_rows(db, t, Some(p), floor).len() == t.rows.filter(keeps(t.columns, p)).len(),
        (forall|i: int| 0 <= i < t.rows.len() ==> !passes(t.columns, #[trigger] t.rows[i], Some(p)))
            ==> select_rows(db, t, Some(p), floor).len() == 0,
{
    broadcast use vstd::seq_lib::group_filter_ensures;

    let f = keeps(t.columns, p);
    lemma_prefix_filter(db, t, p, floor, t.rows.len());
    assert(t.rows.take(t.rows.len() as int) =~= t.rows);
    if forall|i: int| 0 <= i < t.rows.len() ==> !passes(t.columns, #[trigger] t.rows[i], Some(p)) {
        if t.rows.filter(f).len() > 0 {
            let x = t.rows.filter(f)[0];
            assert(f(x));
            assert(t.rows.filter(f).contains(x));
            t.rows.lemma_filter_contains_rev(f, x);
            assert(t.rows.contains(x));
        }
    }
}

/// A parent table with one row, whose first value is the key K, and one
/// relation to a child table, selects to one row whose trailing nested rows
/// are exactly the child rows whose key column equals K: as many as the
/// child has such rows, however many others it has.
pub proof fn lemma_expansion_matches(db: Seq<TableModel>, t: TableModel, floor: nat)
    requires
        t.well_formed(),
        t.rows.len() == 1,
        t.columns.len() > 0,
        t.relations.len() == 1,
        floor <= t.relations[0].table < db.len(),
        db[t.relations[0].table as int].well_formed(),
    ensures
        ({
            let child = t.relations[0].table;
            let link = Predicate { column: t.relations[0].key, value: t.rows[0][0] };
            let nested = select_rows(db, db[child as int], Some(link), child + 1);
            let s = select_rows(db, t, None, floor);
            &&& s.len() == 1
            &&& s[0] == t.rows[0].push(Datum::Rows(nested))
            &&& nested.len() == db[child as int].rows.filter(
                keeps(db[child as int].columns, link),
            ).len()
        }),
{
    let child = t.relations[0].table;
    let link = Predicate { column: t.relations[0].key, value: t.rows[0][0] };
    lemma_select_all(db, t, floor);
    lemma_select_filter(db, db[child as int], link, child + 1);
    let e = expand(db, t, t.rows[0], floor, 1);
    assert(expand(db, t, t.rows[0], floor, 0) =~= Seq::<Datum>::empty());
    assert(t.rows[0] + e =~= t.rows[0].push(
        Datum::Rows(select_rows(db, db[child as int], Some(link), child + 1)),
    ));
}

/// The floor of a selection cuts nothing while every relation of the table
/// points at or past it: selections from two such floors agree. In a
/// well-formed database every one-to-many relation of table `i` points past
/// `i`, so selecting from any table, and every nested selection, expands
/// all of its relations.
pub proof fn lemma_floor_cuts_nothing(
    db: Seq<TableModel>,
    t: TableModel,
    q: Option<Predicate>,
    f1: nat,
    f2: nat,
)
    requires
        forall|k: int|
            0 <= k < t.relations.len() ==> f1 <= #[trigger] t.relations[k].table && f2
                <= t.relations[k].table,
    ensures
        select_rows(db, t, q, f1) == select_rows(db, t, q, f2),
{
    lemma_floor_prefix(db, t, q, f1, f2, t.rows.len());
}

proof fn lemma_floor_prefix(
    db: Seq<TableModel>,
    t: TableModel,
    q: Option<Predicate>,
    f1: nat,
    f2: nat,
    n: nat,
)
    requires
        forall|k: int|
            0 <= k < t.relations.len() ==> f1 <= #[trigger] t.relations[k].table && f2
                <= t.relations[k].table,
        n <= t.rows.len(),
    ensures
        select_prefix(db, t, q, f1, n) == select_prefix(db, t, q, f2, n),
    decreases n,
{
    if n > 0 {
        lemma_floor_prefix(db, t, q, f1, f2, (n - 1) as nat);
        lemma_floor_expand(db, t, t.rows[n - 1], f1, f2, t.relations.len());
    }
}

proof fn lemma_floor_expand(
    db: Seq<TableModel>,
    t: TableModel,
    row: Seq<Datum>,
    f1: nat,
    f2: nat,
    k: nat,
)
    requires
        forall|j: int|
            0 <= j < t.relations.len() ==> f1 <= #[trigger] t.relations[j].table && f2
                <= t.relations[j].table,
        k <= t.relations.len(),
    ensures
        expand(db, t, row, f1, k) == expand(db, t, row, f2, k),
    decreases k,
{
    if k > 0 {
        lemma_floor_expand(db, t, row, f1, f2, (k - 1) as nat);
        assert(f1 <= t.relations[k - 1].table && f2 <= t.relations[k - 1].table);
    }
}

/// Two selections with the same arguments, with no insert between them,
/// give the same rows.
pub proof fn lemma_select_idempotent(
    db: Seq<TableModel>,
    t: TableModel,
    q: Option<Predicate>,
    floor: nat,
    first: Seq<Seq<Datum>>,
    second: Seq<Seq<Datum>>,
)
    requires
        first == select_rows(db, t, q, floor),
        second == select_rows(db, t, q, floor),
    ensures
        first == second,
{
}

} // verus!

//! When triggers run, and what they see: before and after each row that a statement writes, with
//! the row as it was and as it becomes.
use vstd::prelude::*;

use crate::assoc;
use crate::ast::{AssignmentV, ExprV, QueryV, StatementV};
use crate::constraint;
use crate::effects;
use crate::error::ErrorV;
use crate::expr;
use crate::index;
use crate::index::IndexOpV;
use crate::operators;
use crate::row::RowV;
use crate::schema::{SchemaV, TriggerEvent, TriggerTiming, TriggerV, ValueV};
use crate::sql;
use crate::sql::ResultV;
use crate::sql::dml;
use crate::sql::parser;
use crate::state;
use crate::state::StateV;
use crate::store;
use crate::transaction::UndoV;
use crate::triggers;

verus! {

/// Whether one state is another with a row of a table put in or taken out.
pub open spec fn differs_in_row(a: StateV, b: StateV, db: u32, table: Seq<char>, id: u64, row: Option<RowV>) -> bool {
    &&& b.triggers == a.triggers
    &&& b.schemas == a.schemas
    &&& match (state::table_rows(a, db, table), row) {
        (Some(m), Some(r)) => state::table_rows(b, db, table) == Some(m.insert(id, r)),
        (Some(m), None) => state::table_rows(b, db, table) == Some(m.remove(id)),
        (None, _) => true,
    }
}

/// Whether a change of one row leads from one state to another: the triggers before it run, then
/// the row is written, then the triggers after it run, and none of them fails.
pub open spec fn with_triggers(
    depth: nat,
    x: StateV,
    db: u32,
    table: Seq<char>,
    event: TriggerEvent,
    id: u64,
    old_row: Option<RowV>,
    new_row: Option<RowV>,
    tx: Option<u32>,
    y: StateV,
) -> bool {
    let (a, e) = triggers::fired(depth, x, db, table, event, TriggerTiming::Before, old_row, new_row, tx);
    &&& e is None
    &&& exists|b: StateV|
        #[trigger] differs_in_row(a, b, db, table, id, new_row) && triggers::fired(
            depth,
            b,
            db,
            table,
            event,
            TriggerTiming::After,
            old_row,
            new_row,
            tx,
        ) == (y, None::<ErrorV>)
}

proof fn lemma_written(s: StateV, db: u32, table: Seq<char>, id: u64, row: RowV, tx: Option<u32>)
    ensures
        differs_in_row(s, dml::row_written(s, db, table, id, row, tx), db, table, id, Some(row)),
{
    let a = dml::journaled(state::row_stored(s, db, table, id, row), tx, UndoV::Insert { table, rowid: id });
    match state::table_rows(s, db, table) {
        Some(m) => assoc::lemma_get_put(s.dbs.items, (db, table), m.insert(id, row)),
        None => {},
    }
    index::lemma_indexed_fields(a, db, table, row, id, IndexOpV::Insert);
    dml::lemma_synced_fields(index::indexed(a, db, table, row, id, IndexOpV::Insert), db, table, id, row, false);
}

proof fn lemma_rewritten(s: StateV, db: u32, table: Seq<char>, id: u64, old_row: RowV, row: RowV, tx: Option<u32>)
    ensures
        differs_in_row(s, dml::row_rewritten(s, db, table, id, old_row, row, tx), db, table, id, Some(row)),
{
    let a = dml::journaled(state::row_stored(s, db, table, id, row), tx, UndoV::Update { table, rowid: id, old_row });
    match state::table_rows(s, db, table) {
        Some(m) => assoc::lemma_get_put(s.dbs.items, (db, table), m.insert(id, row)),
        None => {},
    }
    let op = IndexOpV::Update { old_row };
    index::lemma_indexed_fields(a, db, table, row, id, op);
    let b = index::indexed(a, db, table, row, id, op);
    dml::lemma_synced_fields(b, db, table, id, old_row, true);
    dml::lemma_synced_fields(dml::fts_synced(b, db, table, id, old_row, true), db, table, id, row, false);
}

proof fn lemma_erased(s: StateV, db: u32, table: Seq<char>, id: u64, row: RowV, tx: Option<u32>)
    ensures
        differs_in_row(s, dml::row_erased(s, db, table, id, row, tx), db, table, id, None),
{
    let a = dml::journaled(state::row_dropped(s, db, table, id), tx, UndoV::Delete { table, rowid: id, row });
    match state::table_rows(s, db, table) {
        Some(m) => assoc::lemma_get_put(s.dbs.items, (db, table), m.remove(id)),
        None => {},
    }
    index::lemma_indexed_fields(a, db, table, row, id, IndexOpV::Delete);
    dml::lemma_synced_fields(index::indexed(a, db, table, row, id, IndexOpV::Delete), db, table, id, row, true);
}

proof fn lemma_one_inserted(depth: nat, x: StateV, db: u32, table: Seq<char>, d: SchemaV, row: RowV, tx: Option<u32>)
    requires
        dml::row_inserted(depth, x, db, table, d, row, tx).1 is None,
    ensures
        is_inserted(depth, x, db, table, d, row, tx, dml::row_inserted(depth, x, db, table, d, row, tx).0),
{
    let ins = TriggerEvent::Insert;
    let id = state::next_rowid(x, db, table);
    let full = dml::with_defaults(d.columns, row, id, d.columns.len() as int);
    let s1 = state::rowid_taken(x, db, table);
    let (y, e) = dml::row_inserted(depth, x, db, table, d, row, tx);
    let (a, f) = triggers::fired(depth, s1, db, table, ins, TriggerTiming::Before, None, Some(full), tx);
    let b = dml::row_written(a, db, table, id, full, tx);
    assert(f is None);
    assert((y, e) == triggers::fired(depth, b, db, table, ins, TriggerTiming::After, None, Some(full), tx));
    lemma_written(a, db, table, id, full, tx);
    assert(differs_in_row(a, b, db, table, id, Some(full)));
}

proof fn lemma_one_changed(
    depth: nat,
    x: StateV,
    db: u32,
    table: Seq<char>,
    d: SchemaV,
    change: (u64, RowV),
    assignments: Seq<AssignmentV>,
    ps: Seq<ValueV>,
    tx: Option<u32>,
)
    requires
        dml::row_updated(depth, x, db, table, d, change.0, change.1, assignments, ps, tx).1 is None,
    ensures
        is_changed(
            depth,
            x,
            db,
            table,
            d,
            change,
            assignments,
            ps,
            tx,
            dml::row_updated(depth, x, db, table, d, change.0, change.1, assignments, ps, tx).0,
        ),
{
    let up = TriggerEvent::Update;
    let (id, old_row) = change;
    let row = dml::assigned(assignments, old_row, ps, assignments.len() as int).0;
    let (y, e) = dml::row_updated(depth, x, db, table, d, id, old_row, assignments, ps, tx);
    let (a, f) = triggers::fired(depth, x, db, table, up, TriggerTiming::Before, Some(old_row), Some(row), tx);
    let b = dml::row_rewritten(a, db, table, id, old_row, row, tx);
    assert(f is None);
    assert((y, e) == triggers::fired(depth, b, db, table, up, TriggerTiming::After, Some(old_row), Some(row), tx));
    lemma_rewritten(a, db, table, id, old_row, row, tx);
    assert(differs_in_row(a, b, db, table, id, Some(row)));
}

proof fn lemma_one_deleted(depth: nat, x: StateV, db: u32, table: Seq<char>, gone: (u64, RowV), tx: Option<u32>)
    requires
        dml::row_deleted(depth, x, db, table, gone.0, gone.1, tx).1 is None,
    ensures
        is_deleted(depth, x, db, table, gone, tx, dml::row_deleted(depth, x, db, table, gone.0, gone.1, tx).0),
{
    let del = TriggerEvent::Delete;
    let (id, row) = gone;
    let (y, e) = dml::row_deleted(depth, x, db, table, id, row, tx);
    let (a, f) = triggers::fired(depth, x, db, table, del, TriggerTiming::Before, Some(row), None, tx);
    let b = dml::row_erased(a, db, table, id, row, tx);
    assert(f is None);
    assert((y, e) == triggers::fired(depth, b, db, table, del, TriggerTiming::After, Some(row), None, tx));
    lemma_erased(a, db, table, id, row, tx);
    assert(differs_in_row(a, b, db, table, id, None));
}

proof fn lemma_first_inserted(
    depth: nat,
    s: StateV,
    db: u32,
    table: Seq<char>,
    d: SchemaV,
    rows: Seq<RowV>,
    tx: Option<u32>,
    n: int,
) -> (xs: Seq<StateV>)
    requires
        0 <= n <= rows.len(),
        dml::rows_inserted(depth, s, db, table, d, rows, tx, n).1 is None,
    ensures
        xs.len() == n + 1,
        xs[0] == s,
        xs[n] == dml::rows_inserted(depth, s, db, table, d, rows, tx, n).0,
        forall|k: int|
            0 <= k < n ==> is_inserted(depth, xs[k], db, table, d, #[trigger] rows[k], tx, xs[k + 1]),
    decreases n,
{
    if n == 0 {
        seq![s]
    } else {
        let ys = lemma_first_inserted(depth, s, db, table, d, rows, tx, n - 1);
        let x = ys[n - 1];
        let y = dml::rows_inserted(depth, s, db, table, d, rows, tx, n).0;
        lemma_one_inserted(depth, x, db, table, d, rows[n - 1], tx);
        let xs = ys.push(y);
        assert forall|k: int| 0 <= k < n implies is_inserted(depth, xs[k], db, table, d, #[trigger] rows[k], tx, xs[k + 1]) by {
            if k < n - 1 {
                assert(is_inserted(depth, ys[k], db, table, d, rows[k], tx, ys[k + 1]));
            }
        }
        xs
    }
}

/// Whether the insertion of a row leads from one state to another: the row gets the next free id
/// and the defaults of the columns that it leaves out, and its triggers run around it.
pub open spec fn is_inserted(
    depth: nat,
    x: StateV,
    db: u32,
    table: Seq<char>,
    d: SchemaV,
    row: RowV,
    tx: Option<u32>,
    y: StateV,
) -> bool {
    let id = state::next_rowid(x, db, table);
    let full = dml::with_defaults(d.columns, row, id, d.columns.len() as int);
    &&& constraint::first_violation(state::rowid_taken(x, db, table), db, d, full, id) is None
    &&& with_triggers(depth, state::rowid_taken(x, db, table), db, table, TriggerEvent::Insert, id, None, Some(full), tx, y)
}

/// An INSERT that succeeds inserts its rows one after the other, each with its triggers, and says
/// how many.
pub proof fn lemma_insert_fires(
    depth: nat,
    s: StateV,
    db: u32,
    table: Seq<char>,
    columns: Seq<Seq<char>>,
    source: Option<QueryV>,
    ps: Seq<ValueV>,
    tx: Option<u32>,
    d: SchemaV,
    rows: Seq<RowV>,
) -> (xs: Seq<StateV>)
    requires
        state::table_schema(s, db, table) == Some(d),
        dml::candidate_rows(s, db, dml::insert_columns(d, columns), source, ps) == Ok::<Seq<RowV>, ErrorV>(rows),
        sql::ran(depth, s, db, StatementV::Insert { table, columns, source }, ps, tx).1 is Ok,
    ensures
        xs.len() == rows.len() + 1,
        xs[0] == s,
        xs.last() == sql::ran(depth, s, db, StatementV::Insert { table, columns, source }, ps, tx).0,
        sql::ran(depth, s, db, StatementV::Insert { table, columns, source }, ps, tx).1 == Ok::<ResultV, ErrorV>(
            ResultV { columns: Seq::empty(), rows: Seq::empty(), affected: Some(rows.len() as u64), tx: None },
        ),
        forall|k: int|
            0 <= k < rows.len() ==> is_inserted(depth, xs[k], db, table, d, #[trigger] rows[k], tx, xs[k + 1]),
{
    lemma_first_inserted(depth, s, db, table, d, rows, tx, rows.len() as int)
}

/// Whether the change of a row leads from one state to another: its triggers run around it.
pub open spec fn is_changed(
    depth: nat,
    x: StateV,
    db: u32,
    table: Seq<char>,
    d: SchemaV,
    change: (u64, RowV),
    assignments: Seq<AssignmentV>,
    ps: Seq<ValueV>,
    tx: Option<u32>,
    y: StateV,
) -> bool {
    let (id, old_row) = change;
    let new_row = dml::assigned(assignments, old_row, ps, assignments.len() as int).0;
    &&& constraint::first_violation(x, db, d, new_row, id) is None
    &&& with_triggers(depth, x, db, table, TriggerEvent::Update, id, Some(old_row), Some(new_row), tx, y)
}

proof fn lemma_first_changed(
    depth: nat,
    s: StateV,
    db: u32,
    table: Seq<char>,
    d: SchemaV,
    rows: Seq<(u64, RowV)>,
    assignments: Seq<AssignmentV>,
    ps: Seq<ValueV>,
    tx: Option<u32>,
    n: int,
) -> (xs: Seq<StateV>)
    requires
        0 <= n <= rows.len(),
        dml::rows_updated(depth, s, db, table, d, rows, assignments, ps, tx, n).1 is None,
    ensures
        xs.len() == n + 1,
        xs[0] == s,
        xs[n] == dml::rows_updated(depth, s, db, table, d, rows, assignments, ps, tx, n).0,
        forall|k: int|
            0 <= k < n ==> is_changed(depth, xs[k], db, table, d, #[trigger] rows[k], assignments, ps, tx, xs[k + 1]),
    decreases n,
{
    if n == 0 {
        seq![s]
    } else {
        let ys = lemma_first_changed(depth, s, db, table, d, rows, assignments, ps, tx, n - 1);
        let x = ys[n - 1];
        let y = dml::rows_updated(depth, s, db, table, d, rows, assignments, ps, tx, n).0;
        lemma_one_changed(depth, x, db, table, d, rows[n - 1], assignments, ps, tx);
        let xs = ys.push(y);
        assert forall|k: int| 0 <= k < n implies is_changed(
            depth,
            xs[k],
            db,
            table,
            d,
            #[trigger] rows[k],
            assignments,
            ps,
            tx,
            xs[k + 1],
        ) by {
            if k < n - 1 {
                assert(is_changed(depth, ys[k], db, table, d, rows[k], assignments, ps, tx, ys[k + 1]));
            }
        }
        xs
    }
}

/// An UPDATE that succeeds changes the rows of which its condition holds one after the other, in
/// the order of their ids, each with its triggers, and says how many.
pub proof fn lemma_update_fires(
    depth: nat,
    s: StateV,
    db: u32,
    table: Seq<char>,
    assignments: Seq<AssignmentV>,
    selection: Option<ExprV>,
    ps: Seq<ValueV>,
    tx: Option<u32>,
    d: SchemaV,
    m: Map<u64, RowV>,
) -> (r: (Seq<StateV>, Seq<(u64, RowV)>))
    requires
        state::table_schema(s, db, table) == Some(d),
        state::table_rows(s, db, table) == Some(m),
        sql::ran(depth, s, db, StatementV::Update { table, assignments, selection }, ps, tx).1 is Ok,
    ensures
        r.0.len() == r.1.len() + 1,
        r.0[0] == s,
        r.0.last() == sql::ran(depth, s, db, StatementV::Update { table, assignments, selection }, ps, tx).0,
        sql::ran(depth, s, db, StatementV::Update { table, assignments, selection }, ps, tx).1 == Ok::<ResultV, ErrorV>(
            ResultV { columns: Seq::empty(), rows: Seq::empty(), affected: Some(r.1.len() as u64), tx: None },
        ),
        forall|i: int, j: int| 0 <= i < j < r.1.len() ==> (#[trigger] r.1[i]).0 < (#[trigger] r.1[j]).0,
        forall|k: int|
            0 <= k < r.1.len() ==> is_changed(depth, r.0[k], db, table, d, #[trigger] r.1[k], assignments, ps, tx, r.0[k + 1]),
        forall|id: u64, row: RowV|
            #[trigger] r.1.contains((id, row)) <==> m.contains_key(id) && m[id] == row && effects::chosen(
                s,
                db,
                row,
                selection,
                ps,
                dml::set_placeholders(assignments, assignments.len() as int),
            ),
{
    let start = dml::set_placeholders(assignments, assignments.len() as int);
    let rows = dml::matching(s, db, m, selection, ps, start);
    lemma_in_line(s, db, m, selection, ps, start, store::row_list(m).len() as int);
    let xs = lemma_first_changed(depth, s, db, table, d, rows, assignments, ps, tx, rows.len() as int);
    assert forall|id: u64, row: RowV|
        #[trigger] rows.contains((id, row)) <==> m.contains_key(id) && m[id] == row && effects::chosen(s, db, row, selection, ps, start) by {
        effects::lemma_matching_rows(s, db, m, selection, ps, start, (id, row));
    }
    (xs, rows)
}

proof fn lemma_in_line(s: StateV, db: u32, m: Map<u64, RowV>, selection: Option<ExprV>, ps: Seq<ValueV>, start: int, n: int)
    requires
        0 <= n <= store::row_list(m).len(),
    ensures
        ({
            let l = store::row_list(m);
            let rows = dml::matching_upto(s, db, l, selection, ps, start, n);
            &&& forall|i: int, j: int| 0 <= i < j < rows.len() ==> (#[trigger] rows[i]).0 < (#[trigger] rows[j]).0
            &&& forall|i: int, j: int| 0 <= i < rows.len() && n <= j < l.len() ==> (#[trigger] rows[i]).0 < (#[trigger] l[j]).0
        }),
    decreases n,
{
    let l = store::row_list(m);
    store::lemma_ids_from(m.dom(), 0);
    if n > 0 {
        lemma_in_line(s, db, m, selection, ps, start, n - 1);
        let p = dml::matching_upto(s, db, l, selection, ps, start, n - 1);
        let rows = dml::matching_upto(s, db, l, selection, ps, start, n);
        assert forall|i: int, j: int| 0 <= i < rows.len() && n <= j < l.len() implies (#[trigger] rows[i]).0 < (#[trigger] l[j]).0 by {
            if i < p.len() {
                assert(p[i].0 < l[j].0);
            } else {
                assert(store::row_ids(m)[n - 1] < store::row_ids(m)[j]);
            }
        }
        assert forall|i: int, j: int| 0 <= i < j < rows.len() implies (#[trigger] rows[i]).0 < (#[trigger] rows[j]).0 by {
            if j < p.len() {
                assert(p[i].0 < p[j].0);
            } else {
                assert(p[i].0 < l[n - 1].0);
            }
        }
    }
}

/// Whether the deletion of a row leads from one state to another: its triggers run around it.
pub open spec fn is_deleted(depth: nat, x: StateV, db: u32, table: Seq<char>, gone: (u64, RowV), tx: Option<u32>, y: StateV) -> bool {
    with_triggers(depth, x, db, table, TriggerEvent::Delete, gone.0, Some(gone.1), None, tx, y)
}

proof fn lemma_first_deleted(
    depth: nat,
    s: StateV,
    db: u32,
    table: Seq<char>,
    rows: Seq<(u64, RowV)>,
    tx: Option<u32>,
    n: int,
) -> (xs: Seq<StateV>)
    requires
        0 <= n <= rows.len(),
        dml::rows_deleted(depth, s, db, table, rows, tx, n).1 is None,
    ensures
        xs.len() == n + 1,
        xs[0] == s,
        xs[n] == dml::rows_deleted(depth, s, db, table, rows, tx, n).0,
        forall|k: int| 0 <= k < n ==> is_deleted(depth, xs[k], db, table, #[trigger] rows[k], tx, xs[k + 1]),
    decreases n,
{
    if n == 0 {
        seq![s]
    } else {
        let ys = lemma_first_deleted(depth, s, db, table, rows, tx, n - 1);
        let x = ys[n - 1];
        let y = dml::rows_deleted(depth, s, db, table, rows, tx, n).0;
        lemma_one_deleted(depth, x, db, table, rows[n - 1], tx);
        let xs = ys.push(y);
        assert forall|k: int| 0 <= k < n implies is_deleted(depth, xs[k], db, table, #[trigger] rows[k], tx, xs[k + 1]) by {
            if k < n - 1 {
                assert(is_deleted(depth, ys[k], db, table, rows[k], tx, ys[k + 1]));
            }
        }
        xs
    }
}

/// A DELETE that succeeds takes the rows out of which its condition holds one after the other, in
/// the order of their ids, each with its triggers, and says how many.
pub proof fn lemma_delete_fires(
    depth: nat,
    s: StateV,
    db: u32,
    table: Seq<char>,
    selection: Option<ExprV>,
    ps: Seq<ValueV>,
    tx: Option<u32>,
    m: Map<u64, RowV>,
) -> (r: (Seq<StateV>, Seq<(u64, RowV)>))
    requires
        state::table_rows(s, db, table) == Some(m),
        sql::ran(depth, s, db, StatementV::Delete { table: Some(table), selection }, ps, tx).1 is Ok,
    ensures
        r.0.len() == r.1.len() + 1,
        r.0[0] == s,
        r.0.last() == sql::ran(depth, s, db, StatementV::Delete { table: Some(table), selection }, ps, tx).0,
        sql::ran(depth, s, db, StatementV::Delete { table: Some(table), selection }, ps, tx).1 == Ok::<ResultV, ErrorV>(
            ResultV { columns: Seq::empty(), rows: Seq::empty(), affected: Some(r.1.len() as u64), tx: None },
        ),
        forall|i: int, j: int| 0 <= i < j < r.1.len() ==> (#[trigger] r.1[i]).0 < (#[trigger] r.1[j]).0,
        forall|k: int| 0 <= k < r.1.len() ==> is_deleted(depth, r.0[k], db, table, #[trigger] r.1[k], tx, r.0[k + 1]),
        forall|id: u64, row: RowV|
            #[trigger] r.1.contains((id, row)) <==> m.contains_key(id) && m[id] == row && effects::chosen(
                s,
                db,
                row,
                selection,
                ps,
                0,
            ),
{
    let rows = dml::matching(s, db, m, selection, ps, 0);
    lemma_in_line(s, db, m, selection, ps, 0, store::row_list(m).len() as int);
    let xs = lemma_first_deleted(depth, s, db, table, rows, tx, rows.len() as int);
    assert forall|id: u64, row: RowV|
        #[trigger] rows.contains((id, row)) <==> m.contains_key(id) && m[id] == row && effects::chosen(s, db, row, selection, ps, 0) by {
        effects::lemma_matching_rows(s, db, m, selection, ps, 0, (id, row));
    }
    (xs, rows)
}

proof fn lemma_prefixed(into: RowV, prefix: Seq<char>, row: RowV, n: int, c: Seq<char>)
    requires
        0 <= n <= row.len(),
        assoc::assoc_distinct(row),
    ensures
        assoc::assoc_get(triggers::prefixed(into, prefix, row, n), prefix + c) == (match assoc::assoc_get(row.take(n), c) {
            Some(v) => Some(v),
            None => assoc::assoc_get(into, prefix + c),
        }),
    decreases n,
{
    if n > 0 {
        lemma_prefixed(into, prefix, row, n - 1, c);
        let p = triggers::prefixed(into, prefix, row, n - 1);
        let (name, v) = row[n - 1];
        assert(row.take(n).drop_last() =~= row.take(n - 1));
        assert((prefix + name).skip(prefix.len() as int) =~= name);
        assert((prefix + c).skip(prefix.len() as int) =~= c);
        if name == c {
            assoc::lemma_get_put(p, prefix + c, v);
            assoc::lemma_get_at(row.take(n), c, n - 1);
        } else {
            assoc::lemma_get_put_other(p, prefix + name, v, prefix + c);
            if exists|i: int| 0 <= i < n - 1 && (#[trigger] row[i]).0 == c {
                let i = choose|i: int| 0 <= i < n - 1 && (#[trigger] row[i]).0 == c;
                assoc::lemma_get_at(row.take(n), c, i);
                assoc::lemma_get_at(row.take(n - 1), c, i);
            } else {
                assoc::lemma_get_absent(row.take(n), c);
                assoc::lemma_get_absent(row.take(n - 1), c);
            }
        }
    } else {
        assoc::lemma_get_absent(row.take(n), c);
    }
}

proof fn lemma_other_prefix(into: RowV, prefix: Seq<char>, row: RowV, n: int, name: Seq<char>)
    requires
        0 <= n <= row.len(),
        forall|i: int| 0 <= i < row.len() ==> prefix + (#[trigger] row[i]).0 != name,
    ensures
        assoc::assoc_get(triggers::prefixed(into, prefix, row, n), name) == assoc::assoc_get(into, name),
    decreases n,
{
    if n > 0 {
        lemma_other_prefix(into, prefix, row, n - 1, name);
        assert(prefix + row[n - 1].0 != name);
        assoc::lemma_get_put_other(
            triggers::prefixed(into, prefix, row, n - 1),
            prefix + row[n - 1].0,
            row[n - 1].1,
            name,
        );
    }
}

/// The condition of a trigger sees each column of the row as it becomes under `NEW.`, and each
/// column of the row as it was under `OLD.`; of a row that there is not, it sees nothing.
pub proof fn lemma_seen_rows(old_row: Option<RowV>, new_row: Option<RowV>, c: Seq<char>)
    requires
        old_row is Some ==> assoc::assoc_distinct(old_row->0),
        new_row is Some ==> assoc::assoc_distinct(new_row->0),
    ensures
        assoc::assoc_get(triggers::condition_row(old_row, new_row), "NEW."@ + c) == (match new_row {
            Some(r) => assoc::assoc_get(r, c),
            None => None,
        }),
        assoc::assoc_get(triggers::condition_row(old_row, new_row), "OLD."@ + c) == (match old_row {
            Some(r) => assoc::assoc_get(r, c),
            None => None,
        }),
{
    reveal_strlit("OLD.");
    reveal_strlit("NEW.");
    let none: RowV = Seq::empty();
    let a = match old_row {
        Some(r) => triggers::prefixed(none, "OLD."@, r, r.len() as int),
        None => none,
    };
    match old_row {
        Some(r) => {
            lemma_prefixed(none, "OLD."@, r, r.len() as int, c);
            assert(r.take(r.len() as int) =~= r);
            assert forall|i: int| 0 <= i < r.len() implies "OLD."@ + (#[trigger] r[i]).0 != "NEW."@ + c by {
                assert(("OLD."@ + r[i].0)[0] != ("NEW."@ + c)[0]);
            }
            lemma_other_prefix(none, "OLD."@, r, r.len() as int, "NEW."@ + c);
        },
        None => {},
    }
    match new_row {
        Some(r) => {
            lemma_prefixed(a, "NEW."@, r, r.len() as int, c);
            assert(r.take(r.len() as int) =~= r);
            assert forall|i: int| 0 <= i < r.len() implies "NEW."@ + (#[trigger] r[i]).0 != "OLD."@ + c by {
                assert(("NEW."@ + r[i].0)[0] != ("OLD."@ + c)[0]);
            }
            lemma_other_prefix(a, "NEW."@, r, r.len() as int, "OLD."@ + c);
        },
        None => {},
    }
}

/// A trigger with a condition runs where the value of the condition over the rows counts as
/// true, and a trigger without one always runs.
pub proof fn lemma_when(s: StateV, db: u32, t: TriggerV, old_row: Option<RowV>, new_row: Option<RowV>)
    ensures
        t.condition is None ==> triggers::fires(s, db, t, old_row, new_row) == Ok::<bool, ErrorV>(true),
        match t.condition {
            Some(c) => match parser::expression_in(c) {
                Ok(e) => operators::asks_no_index(e) ==> triggers::fires(s, db, t, old_row, new_row) == Ok::<bool, ErrorV>(
                    operators::counts(expr::eval_v(e, Some(triggers::condition_row(old_row, new_row)), Seq::empty(), 0).0),
                ),
                Err(x) => triggers::fires(s, db, t, old_row, new_row) == Err::<bool, ErrorV>(x),
            },
            None => true,
        },
{
    match t.condition {
        Some(c) => match parser::expression_in(c) {
            Ok(e) => if operators::asks_no_index(e) {
                operators::lemma_condition(s.fts, db, triggers::condition_row(old_row, new_row), e, Seq::empty(), 0);
            },
            Err(_) => {},
        },
        None => {},
    }
}

/// Whether a name of a column of a row stands behind a prefix as a whole name at a place of a text.
pub open spec fn stands_for(text: Seq<char>, prefix: Seq<char>, row: Option<RowV>, k: int, i: int) -> bool {
    match row {
        Some(r) => 0 <= k < r.len() && triggers::whole_at(text, prefix + r[k].0, i),
        None => false,
    }
}

/// Whether a text refers, from one place on and before another, to no column of the rows.
pub open spec fn refers_to_none(text: Seq<char>, old_row: Option<RowV>, new_row: Option<RowV>, i: int, j: int) -> bool {
    &&& forall|k: int, h: int| i <= h < j ==> !#[trigger] stands_for(text, "OLD."@, old_row, k, h)
    &&& forall|k: int, h: int| i <= h < j ==> !#[trigger] stands_for(text, "NEW."@, new_row, k, h)
}

proof fn lemma_no_reference(s: Seq<char>, refs: Seq<(Seq<char>, Seq<char>)>, i: int, k: int)
    requires
        forall|h: int| 0 <= h < refs.len() ==> !triggers::whole_at(s, (#[trigger] refs[h]).0, i),
    ensures
        triggers::reference_at(s, refs, i, k) is None,
    decreases refs.len() - k,
{
    if 0 <= k < refs.len() {
        assert(!triggers::whole_at(s, refs[k].0, i));
        lemma_no_reference(s, refs, i, k + 1);
    }
}

proof fn lemma_unreferenced(s: Seq<char>, old_row: Option<RowV>, new_row: Option<RowV>, i: int, j: int)
    requires
        0 <= i <= j <= s.len(),
        refers_to_none(s, old_row, new_row, i, j),
    ensures
        triggers::filled_from(s, triggers::references(old_row, new_row), i) == s.subrange(i, j) + triggers::filled_from(
            s,
            triggers::references(old_row, new_row),
            j,
        ),
    decreases j - i,
{
    let refs = triggers::references(old_row, new_row);
    if i < j {
        assert forall|h: int| 0 <= h < refs.len() implies !triggers::whole_at(s, (#[trigger] refs[h]).0, i) by {
            let olds = triggers::row_references("OLD."@, old_row);
            if h < olds.len() {
                assert(refs[h] == olds[h]);
                assert(!stands_for(s, "OLD."@, old_row, h, i));
            } else {
                assert(!stands_for(s, "NEW."@, new_row, h - olds.len(), i));
            }
        }
        lemma_no_reference(s, refs, i, 0);
        lemma_unreferenced(s, old_row, new_row, i + 1, j);
        assert(seq![s[i]] + s.subrange(i + 1, j) =~= s.subrange(i, j));
        let rest = triggers::filled_from(s, refs, j);
        assert(seq![s[i]] + (s.subrange(i + 1, j) + rest) =~= s.subrange(i, j) + rest);
    } else {
        assert(s.subrange(i, j) + triggers::filled_from(s, refs, j) =~= triggers::filled_from(s, refs, j));
    }
}

/// The statements of a trigger that refer to no column of the rows run as they are written.
pub proof fn lemma_body_as_written(body: Seq<char>, old_row: Option<RowV>, new_row: Option<RowV>)
    requires
        refers_to_none(body, old_row, new_row, 0, body.len() as int),
    ensures
        triggers::body_text(body, old_row, new_row) == body,
{
    let n = body.len() as int;
    lemma_unreferenced(body, old_row, new_row, 0, n);
    assert(body.subrange(0, n) + triggers::filled_from(body, triggers::references(old_row, new_row), n) =~= body);
}

proof fn lemma_only_reference(s: Seq<char>, refs: Seq<(Seq<char>, Seq<char>)>, i: int, k: int, h: int)
    requires
        0 <= k <= h < refs.len(),
        triggers::whole_at(s, refs[h].0, i),
        forall|g: int| 0 <= g < refs.len() && g != h ==> !triggers::whole_at(s, (#[trigger] refs[g]).0, i),
    ensures
        triggers::reference_at(s, refs, i, k) == Some(h),
    decreases refs.len() - k,
{
    if k < h {
        assert(!triggers::whole_at(s, refs[k].0, i));
        lemma_only_reference(s, refs, i, k + 1, h);
    }
}

/// Where the statements of a trigger refer in one place to one column of the row as it becomes,
/// they run with the value of that column, as a literal, in that place and as they are written
/// elsewhere.
pub proof fn lemma_body_with_new(body: Seq<char>, old_row: Option<RowV>, row: RowV, k: int, i: int)
    requires
        0 <= k < row.len(),
        0 <= i,
        triggers::whole_at(body, "NEW."@ + row[k].0, i),
        forall|h: int| !#[trigger] stands_for(body, "OLD."@, old_row, h, i),
        forall|h: int| h != k ==> !#[trigger] stands_for(body, "NEW."@, Some(row), h, i),
        refers_to_none(body, old_row, Some(row), 0, i),
        refers_to_none(body, old_row, Some(row), i + 4 + row[k].0.len(), body.len() as int),
    ensures
        triggers::body_text(body, old_row, Some(row)) == body.take(i) + triggers::literal_text(row[k].1) + body.skip(
            i + 4 + row[k].0.len(),
        ),
{
    reveal_strlit("NEW.");
    let refs = triggers::references(old_row, Some(row));
    let olds = triggers::row_references("OLD."@, old_row);
    let h = olds.len() + k;
    let j = i + 4 + row[k].0.len();
    assert(refs[h] == ("NEW."@ + row[k].0, triggers::literal_text(row[k].1)));
    assert forall|g: int| 0 <= g < refs.len() && g != h implies !triggers::whole_at(body, (#[trigger] refs[g]).0, i) by {
        if g < olds.len() {
            assert(refs[g] == olds[g]);
            assert(!stands_for(body, "OLD."@, old_row, g, i));
        } else {
            assert(!stands_for(body, "NEW."@, Some(row), g - olds.len(), i));
        }
    }
    lemma_only_reference(body, refs, i, 0, h);
    let n = body.len() as int;
    lemma_unreferenced(body, old_row, Some(row), 0, i);
    lemma_unreferenced(body, old_row, Some(row), j, n);
    let v = triggers::literal_text(row[k].1);
    assert(triggers::filled_from(body, refs, n) =~= Seq::empty());
    assert(triggers::filled_from(body, refs, j) =~= body.skip(j));
    assert(triggers::filled_from(body, refs, i) == v + body.skip(j));
    assert(body.subrange(0, i) + (v + body.skip(j)) =~= body.take(i) + v + body.skip(j));
}

/// Where the statements of a trigger refer in one place to one column of the row as it was, they
/// run with the value of that column, as a literal, in that place and as they are written
/// elsewhere.
pub proof fn lemma_body_with_old(body: Seq<char>, row: RowV, new_row: Option<RowV>, k: int, i: int)
    requires
        0 <= k < row.len(),
        0 <= i,
        triggers::whole_at(body, "OLD."@ + row[k].0, i),
        forall|h: int| !#[trigger] stands_for(body, "NEW."@, new_row, h, i),
        forall|h: int| h != k ==> !#[trigger] stands_for(body, "OLD."@, Some(row), h, i),
        refers_to_none(body, Some(row), new_row, 0, i),
        refers_to_none(body, Some(row), new_row, i + 4 + row[k].0.len(), body.len() as int),
    ensures
        triggers::body_text(body, Some(row), new_row) == body.take(i) + triggers::literal_text(row[k].1) + body.skip(
            i + 4 + row[k].0.len(),
        ),
{
    reveal_strlit("OLD.");
    let refs = triggers::references(Some(row), new_row);
    let j = i + 4 + row[k].0.len();
    assert(refs[k] == ("OLD."@ + row[k].0, triggers::literal_text(row[k].1)));
    assert forall|g: int| 0 <= g < refs.len() && g != k implies !triggers::whole_at(body, (#[trigger] refs[g]).0, i) by {
        if g < row.len() {
            assert(refs[g].0 == "OLD."@ + row[g].0);
            assert(!stands_for(body, "OLD."@, Some(row), g, i));
        } else {
            assert(!stands_for(body, "NEW."@, new_row, g - row.len(), i));
        }
    }
    lemma_only_reference(body, refs, i, 0, k);
    let n = body.len() as int;
    lemma_unreferenced(body, Some(row), new_row, 0, i);
    lemma_unreferenced(body, Some(row), new_row, j, n);
    let v = triggers::literal_text(row[k].1);
    assert(triggers::filled_from(body, refs, n) =~= Seq::empty());
    assert(triggers::filled_from(body, refs, j) =~= body.skip(j));
    assert(triggers::filled_from(body, refs, i) == v + body.skip(j));
    assert(body.subrange(0, i) + (v + body.skip(j)) =~= body.take(i) + v + body.skip(j));
}

} // verus!

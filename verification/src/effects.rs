//! What writes come to: which rows a table has after an INSERT, an UPDATE or a DELETE.
use vstd::prelude::*;

use crate::assoc;
use crate::ast::{AssignmentV, ExprV, QueryV, StatementV};
use crate::catalog;
use crate::constraint;
use crate::error::ErrorV;
use crate::index;
use crate::index::IndexOpV;
use crate::rollback;
use crate::row::RowV;
use crate::schema::{SchemaV, TriggerEvent, TriggerTiming, ValueV};
use crate::sparing;
use crate::sql;
use crate::sql::dml;
use crate::sql::select;
use crate::state;
use crate::state::StateV;
use crate::store;
use crate::transaction::UndoV;
use crate::triggers;

verus! {

/// The rows of a table with the first `n` new ones, under ids from `first` on, each with the
/// defaults of the columns that it leaves out.
pub open spec fn with_new_rows(m: Map<u64, RowV>, d: SchemaV, rows: Seq<RowV>, first: int, n: int) -> Map<u64, RowV>
    decreases n,
{
    if n <= 0 || n > rows.len() {
        m
    } else {
        let id = (first + n - 1) as u64;
        with_new_rows(m, d, rows, first, n - 1).insert(
            id,
            dml::with_defaults(d.columns, rows[n - 1], id, d.columns.len() as int),
        )
    }
}

/// Whether a condition, where there is one, holds of a row.
pub open spec fn chosen(s: StateV, db: u32, row: RowV, selection: Option<ExprV>, ps: Seq<ValueV>, start: int) -> bool {
    match selection {
        Some(e) => select::holds(s.fts, db, row, e, ps, start).0,
        None => true,
    }
}

proof fn lemma_rows_of(s: StateV, a: StateV, b: StateV, db: u32, table: Seq<char>, w: Map<u64, RowV>, row: RowV, id: u64, op: IndexOpV)
    requires
        state::table_rows(s, db, table) is Some,
        sparing::spared(s, db, table),
        a == (StateV { dbs: catalog::changed(s.dbs, db, table, w), txns: a.txns, ..s }),
        b == index::indexed(a, db, table, row, id, op),
    ensures
        state::table_rows(b, db, table) == Some(w),
        b.triggers == s.triggers,
        b.generators == s.generators,
        sparing::spared(b, db, table),
{
    assoc::lemma_get_put(s.dbs.items, (db, table), w);
    index::lemma_indexed_fields(a, db, table, row, id, op);
    sparing::lemma_same_triggers(s, b, db, table);
}

proof fn lemma_rows_inserted(
    depth: nat,
    s: StateV,
    db: u32,
    table: Seq<char>,
    d: SchemaV,
    rows: Seq<RowV>,
    tx: Option<u32>,
    m: Map<u64, RowV>,
    n: int,
)
    requires
        sparing::spared(s, db, table),
        state::table_rows(s, db, table) == Some(m),
        0 <= n <= rows.len(),
    ensures
        ({
            let first = state::next_rowid(s, db, table);
            let (t, e) = dml::rows_inserted(depth, s, db, table, d, rows, tx, n);
            e is None ==> {
                &&& sparing::spared(t, db, table)
                &&& state::table_rows(t, db, table) == Some(with_new_rows(m, d, rows, first as int, n))
                &&& state::next_rowid(t, db, table) == first + n
            }
        }),
    decreases n,
{
    if n > 0 {
        lemma_rows_inserted(depth, s, db, table, d, rows, tx, m, n - 1);
        let first = state::next_rowid(s, db, table);
        let (p, e) = dml::rows_inserted(depth, s, db, table, d, rows, tx, n - 1);
        let id = state::next_rowid(p, db, table);
        if e is None && id < u64::MAX {
            let w = with_new_rows(m, d, rows, first as int, n - 1);
            let s1 = state::rowid_taken(p, db, table);
            let full = dml::with_defaults(d.columns, rows[n - 1], id, d.columns.len() as int);
            rollback::lemma_rowid_taken(p, db, table, table);
            if constraint::first_violation(s1, db, d, full, id) is None {
                let ins = TriggerEvent::Insert;
                sparing::lemma_same_triggers(p, s1, db, table);
                sparing::lemma_fired_spares(depth, s1, db, table, ins, TriggerTiming::Before, None, Some(full), tx, table);
                let (s2, e2) = triggers::fired(depth, s1, db, table, ins, TriggerTiming::Before, None, Some(full), tx);
                let a = dml::journaled(state::row_stored(s2, db, table, id, full), tx, UndoV::Insert { table, rowid: id });
                let b = index::indexed(a, db, table, full, id, IndexOpV::Insert);
                lemma_rows_of(s2, a, b, db, table, w.insert(id, full), full, id, IndexOpV::Insert);
                dml::lemma_synced_fields(b, db, table, id, full, false);
                let s3 = dml::row_written(s2, db, table, id, full, tx);
                sparing::lemma_same_triggers(b, s3, db, table);
                sparing::lemma_fired_spares(depth, s3, db, table, ins, TriggerTiming::After, None, Some(full), tx, table);
                assert(dml::row_inserted(depth, p, db, table, d, rows[n - 1], tx) == (if e2 is Some {
                    (s2, e2)
                } else {
                    triggers::fired(depth, s3, db, table, ins, TriggerTiming::After, None, Some(full), tx)
                }));
                assert(id == (first + n - 1) as u64);
                assert(with_new_rows(m, d, rows, first as int, n) == w.insert(id, full));
            } else {
                assert(dml::row_inserted(depth, p, db, table, d, rows[n - 1], tx).1 is Some);
            }
        } else if e is None {
            assert(dml::row_inserted(depth, p, db, table, d, rows[n - 1], tx).1 is Some);
        }
    }
}

/// An INSERT that succeeds adds exactly its rows, each under the next free id and with the
/// defaults of the columns that it leaves out, and says how many. Triggers may write to other
/// tables, but not to this one.
pub proof fn lemma_insert_adds(
    depth: nat,
    s: StateV,
    db: u32,
    table: Seq<char>,
    columns: Seq<Seq<char>>,
    source: Option<QueryV>,
    ps: Seq<ValueV>,
    tx: Option<u32>,
    d: SchemaV,
    m: Map<u64, RowV>,
    rows: Seq<RowV>,
)
    requires
        sparing::spared(s, db, table),
        state::table_schema(s, db, table) == Some(d),
        state::table_rows(s, db, table) == Some(m),
        dml::candidate_rows(s, db, dml::insert_columns(d, columns), source, ps) == Ok::<Seq<RowV>, ErrorV>(rows),
    ensures
        ({
            let (t, r) = sql::ran(depth, s, db, StatementV::Insert { table, columns, source }, ps, tx);
            match r {
                Ok(x) => {
                    &&& state::table_rows(t, db, table) == Some(
                        with_new_rows(m, d, rows, state::next_rowid(s, db, table) as int, rows.len() as int),
                    )
                    &&& state::next_rowid(t, db, table) == state::next_rowid(s, db, table) + rows.len()
                    &&& x == sql::affected_result(rows.len() as u64)
                },
                Err(_) => true,
            }
        }),
{
    lemma_rows_inserted(depth, s, db, table, d, rows, tx, m, rows.len() as int);
}

/// The rows of a table with the first `n` of a list changed.
spec fn with_changed_rows(
    m: Map<u64, RowV>,
    assignments: Seq<AssignmentV>,
    ps: Seq<ValueV>,
    rows: Seq<(u64, RowV)>,
    n: int,
) -> Map<u64, RowV>
    decreases n,
{
    if n <= 0 || n > rows.len() {
        m
    } else {
        with_changed_rows(m, assignments, ps, rows, n - 1).insert(
            rows[n - 1].0,
            dml::assigned(assignments, rows[n - 1].1, ps, assignments.len() as int).0,
        )
    }
}

proof fn lemma_rows_updated(
    depth: nat,
    s: StateV,
    db: u32,
    table: Seq<char>,
    d: SchemaV,
    rows: Seq<(u64, RowV)>,
    assignments: Seq<AssignmentV>,
    ps: Seq<ValueV>,
    tx: Option<u32>,
    m: Map<u64, RowV>,
    n: int,
)
    requires
        sparing::spared(s, db, table),
        state::table_rows(s, db, table) == Some(m),
        0 <= n <= rows.len(),
    ensures
        ({
            let (t, e) = dml::rows_updated(depth, s, db, table, d, rows, assignments, ps, tx, n);
            e is None ==> {
                &&& sparing::spared(t, db, table)
                &&& state::table_rows(t, db, table) == Some(with_changed_rows(m, assignments, ps, rows, n))
            }
        }),
    decreases n,
{
    if n > 0 {
        lemma_rows_updated(depth, s, db, table, d, rows, assignments, ps, tx, m, n - 1);
        let (p, e) = dml::rows_updated(depth, s, db, table, d, rows, assignments, ps, tx, n - 1);
        let (id, old_row) = rows[n - 1];
        let new_row = dml::assigned(assignments, old_row, ps, assignments.len() as int).0;
        if e is None && constraint::first_violation(p, db, d, new_row, id) is None {
            let w = with_changed_rows(m, assignments, ps, rows, n - 1);
            let upd = TriggerEvent::Update;
            let op = IndexOpV::Update { old_row };
            sparing::lemma_fired_spares(depth, p, db, table, upd, TriggerTiming::Before, Some(old_row), Some(new_row), tx, table);
            let (s2, e2) = triggers::fired(depth, p, db, table, upd, TriggerTiming::Before, Some(old_row), Some(new_row), tx);
            let a = dml::journaled(state::row_stored(s2, db, table, id, new_row), tx, UndoV::Update { table, rowid: id, old_row });
            let b = index::indexed(a, db, table, new_row, id, op);
            lemma_rows_of(s2, a, b, db, table, w.insert(id, new_row), new_row, id, op);
            dml::lemma_synced_fields(b, db, table, id, old_row, true);
            dml::lemma_synced_fields(dml::fts_synced(b, db, table, id, old_row, true), db, table, id, new_row, false);
            let s3 = dml::row_rewritten(s2, db, table, id, old_row, new_row, tx);
            sparing::lemma_same_triggers(b, s3, db, table);
            sparing::lemma_fired_spares(depth, s3, db, table, upd, TriggerTiming::After, Some(old_row), Some(new_row), tx, table);
            assert(dml::row_updated(depth, p, db, table, d, id, old_row, assignments, ps, tx) == (if e2 is Some {
                (s2, e2)
            } else {
                triggers::fired(depth, s3, db, table, upd, TriggerTiming::After, Some(old_row), Some(new_row), tx)
            }));
        } else if e is None {
            assert(dml::row_updated(depth, p, db, table, d, id, old_row, assignments, ps, tx).1 is Some);
        }
    }
}

/// The rows that a condition chooses are exactly those of which it holds.
proof fn lemma_matching_exact(
    s: StateV,
    db: u32,
    list: Seq<(u64, RowV)>,
    selection: Option<ExprV>,
    ps: Seq<ValueV>,
    start: int,
    n: int,
    x: (u64, RowV),
)
    requires
        0 <= n <= list.len(),
    ensures
        dml::matching_upto(s, db, list, selection, ps, start, n).contains(x) <==> chosen(s, db, x.1, selection, ps, start)
            && exists|j: int| 0 <= j < n && #[trigger] list[j] == x,
    decreases n,
{
    if n > 0 {
        lemma_matching_exact(s, db, list, selection, ps, start, n - 1, x);
        let p = dml::matching_upto(s, db, list, selection, ps, start, n - 1);
        let q = dml::matching_upto(s, db, list, selection, ps, start, n);
        if p.contains(x) {
            let i = choose|i: int| 0 <= i < p.len() && p[i] == x;
            assert(q[i] == x);
            let j = choose|j: int| 0 <= j < n - 1 && #[trigger] list[j] == x;
            assert(0 <= j < n && list[j] == x);
        }
        if list[n - 1] == x && chosen(s, db, x.1, selection, ps, start) {
            assert(q[p.len() as int] == x);
        }
        if q.contains(x) && !p.contains(x) {
            let i = choose|i: int| 0 <= i < q.len() && q[i] == x;
            if i < p.len() {
                assert(p[i] == x);
            }
            assert(list[n - 1] == x);
        }
        if exists|j: int| 0 <= j < n && #[trigger] list[j] == x {
            let j = choose|j: int| 0 <= j < n && #[trigger] list[j] == x;
            if j < n - 1 {
                assert(0 <= j < n - 1 && list[j] == x);
            }
        }
    }
}

pub(crate) proof fn lemma_matching_rows(
    s: StateV,
    db: u32,
    m: Map<u64, RowV>,
    selection: Option<ExprV>,
    ps: Seq<ValueV>,
    start: int,
    x: (u64, RowV),
)
    ensures
        dml::matching(s, db, m, selection, ps, start).contains(x) <==> m.contains_key(x.0) && m[x.0] == x.1 && chosen(
            s,
            db,
            x.1,
            selection,
            ps,
            start,
        ),
{
    let l = store::row_list(m);
    lemma_matching_exact(s, db, l, selection, ps, start, l.len() as int, x);
    if exists|j: int| 0 <= j < l.len() && #[trigger] l[j] == x {
        let j = choose|j: int| 0 <= j < l.len() && #[trigger] l[j] == x;
        store::lemma_listed(m, j);
    }
    if m.contains_key(x.0) && m[x.0] == x.1 {
        let j = store::lemma_place_in_list(m, x.0);
        assert(l[j] == x);
    }
}

proof fn lemma_with_changed_rows(
    m: Map<u64, RowV>,
    assignments: Seq<AssignmentV>,
    ps: Seq<ValueV>,
    rows: Seq<(u64, RowV)>,
    n: int,
    id: u64,
)
    requires
        0 <= n <= rows.len(),
        forall|i: int| 0 <= i < rows.len() ==> m.contains_key((#[trigger] rows[i]).0) && m[rows[i].0] == rows[i].1,
    ensures
        with_changed_rows(m, assignments, ps, rows, n).contains_key(id) == m.contains_key(id),
        m.contains_key(id) ==> with_changed_rows(m, assignments, ps, rows, n)[id] == (if exists|i: int|
            0 <= i < n && (#[trigger] rows[i]).0 == id {
            dml::assigned(assignments, m[id], ps, assignments.len() as int).0
        } else {
            m[id]
        }),
    decreases n,
{
    if n > 0 {
        lemma_with_changed_rows(m, assignments, ps, rows, n - 1, id);
        assert(m.contains_key(rows[n - 1].0));
        if rows[n - 1].0 == id {
            assert(0 <= n - 1 < n && rows[n - 1].0 == id);
        } else if exists|i: int| 0 <= i < n && (#[trigger] rows[i]).0 == id {
            let i = choose|i: int| 0 <= i < n && (#[trigger] rows[i]).0 == id;
            assert(0 <= i < n - 1 && rows[i].0 == id);
        }
    }
}

/// An UPDATE that succeeds changes exactly the rows of which its condition holds, each to what
/// its assignments make of it as it was, and keeps all others. Triggers may write to other tables,
/// but not to this one.
pub proof fn lemma_update_changes(
    depth: nat,
    s: StateV,
    db: u32,
    table: Seq<char>,
    assignments: Seq<AssignmentV>,
    selection: Option<ExprV>,
    ps: Seq<ValueV>,
    tx: Option<u32>,
    m: Map<u64, RowV>,
    id: u64,
)
    requires
        sparing::spared(s, db, table),
        state::table_rows(s, db, table) == Some(m),
    ensures
        ({
            let (t, r) = sql::ran(depth, s, db, StatementV::Update { table, assignments, selection }, ps, tx);
            let start = dml::set_placeholders(assignments, assignments.len() as int);
            r is Ok ==> match state::table_rows(t, db, table) {
                Some(w) => {
                    &&& w.contains_key(id) == m.contains_key(id)
                    &&& m.contains_key(id) ==> w[id] == (if chosen(s, db, m[id], selection, ps, start) {
                        dml::assigned(assignments, m[id], ps, assignments.len() as int).0
                    } else {
                        m[id]
                    })
                },
                None => false,
            }
        }),
{
    match state::table_schema(s, db, table) {
        Some(d) => {
            let start = dml::set_placeholders(assignments, assignments.len() as int);
            let rows = dml::matching(s, db, m, selection, ps, start);
            let n = rows.len() as int;
            lemma_rows_updated(depth, s, db, table, d, rows, assignments, ps, tx, m, n);
            assert forall|i: int| 0 <= i < n implies m.contains_key((#[trigger] rows[i]).0) && m[rows[i].0] == rows[i].1 by {
                lemma_matching_rows(s, db, m, selection, ps, start, rows[i]);
                assert(rows.contains(rows[i]));
            }
            lemma_with_changed_rows(m, assignments, ps, rows, n, id);
            if m.contains_key(id) {
                lemma_matching_rows(s, db, m, selection, ps, start, (id, m[id]));
                if rows.contains((id, m[id])) {
                    let i = choose|i: int| 0 <= i < n && rows[i] == (id, m[id]);
                    assert(rows[i].0 == id);
                }
                if exists|i: int| 0 <= i < n && (#[trigger] rows[i]).0 == id {
                    let i = choose|i: int| 0 <= i < n && (#[trigger] rows[i]).0 == id;
                    assert(rows[i] == (id, m[id]));
                    assert(rows.contains(rows[i]));
                }
            }
        },
        None => {},
    }
}

/// The rows of a table without the first `n` of a list.
spec fn without_rows(m: Map<u64, RowV>, rows: Seq<(u64, RowV)>, n: int) -> Map<u64, RowV>
    decreases n,
{
    if n <= 0 || n > rows.len() {
        m
    } else {
        without_rows(m, rows, n - 1).remove(rows[n - 1].0)
    }
}

proof fn lemma_rows_deleted(
    depth: nat,
    s: StateV,
    db: u32,
    table: Seq<char>,
    rows: Seq<(u64, RowV)>,
    tx: Option<u32>,
    m: Map<u64, RowV>,
    n: int,
)
    requires
        sparing::spared(s, db, table),
        state::table_rows(s, db, table) == Some(m),
        0 <= n <= rows.len(),
    ensures
        ({
            let (t, e) = dml::rows_deleted(depth, s, db, table, rows, tx, n);
            &&& state::triggers_of(s, db, table).len() == 0 ==> e is None && t.triggers == s.triggers
            &&& e is None ==> {
                &&& sparing::spared(t, db, table)
                &&& state::table_rows(t, db, table) == Some(without_rows(m, rows, n))
            }
        }),
    decreases n,
{
    if n > 0 {
        lemma_rows_deleted(depth, s, db, table, rows, tx, m, n - 1);
        let (p, e) = dml::rows_deleted(depth, s, db, table, rows, tx, n - 1);
        if e is None {
            let (id, row) = rows[n - 1];
            let w = without_rows(m, rows, n - 1);
            let del = TriggerEvent::Delete;
            sparing::lemma_fired_spares(depth, p, db, table, del, TriggerTiming::Before, Some(row), None, tx, table);
            let (s2, e2) = triggers::fired(depth, p, db, table, del, TriggerTiming::Before, Some(row), None, tx);
            let a = dml::journaled(state::row_dropped(s2, db, table, id), tx, UndoV::Delete { table, rowid: id, row });
            let b = index::indexed(a, db, table, row, id, IndexOpV::Delete);
            lemma_rows_of(s2, a, b, db, table, w.remove(id), row, id, IndexOpV::Delete);
            dml::lemma_synced_fields(b, db, table, id, row, true);
            let s3 = dml::row_erased(s2, db, table, id, row, tx);
            sparing::lemma_same_triggers(b, s3, db, table);
            sparing::lemma_fired_spares(depth, s3, db, table, del, TriggerTiming::After, Some(row), None, tx, table);
            assert(dml::row_deleted(depth, p, db, table, id, row, tx) == (if e2 is Some {
                (s2, e2)
            } else {
                triggers::fired(depth, s3, db, table, del, TriggerTiming::After, Some(row), None, tx)
            }));
        }
    }
}

proof fn lemma_without_rows(m: Map<u64, RowV>, rows: Seq<(u64, RowV)>, n: int, id: u64)
    requires
        0 <= n <= rows.len(),
    ensures
        without_rows(m, rows, n).contains_key(id) == (m.contains_key(id) && !exists|i: int|
            0 <= i < n && (#[trigger] rows[i]).0 == id),
        without_rows(m, rows, n).contains_key(id) ==> without_rows(m, rows, n)[id] == m[id],
    decreases n,
{
    if n > 0 {
        lemma_without_rows(m, rows, n - 1, id);
        if rows[n - 1].0 == id {
            assert(0 <= n - 1 < n && rows[n - 1].0 == id);
        } else if exists|i: int| 0 <= i < n && (#[trigger] rows[i]).0 == id {
            let i = choose|i: int| 0 <= i < n && (#[trigger] rows[i]).0 == id;
            assert(0 <= i < n - 1 && rows[i].0 == id);
        }
    }
}

/// A DELETE that succeeds takes exactly the rows out of which its condition holds, and keeps all
/// others as they are. Triggers may write to other tables, but not to this one. Where the table
/// has no triggers, a DELETE does succeed.
pub proof fn lemma_delete_removes(
    depth: nat,
    s: StateV,
    db: u32,
    table: Seq<char>,
    selection: Option<ExprV>,
    ps: Seq<ValueV>,
    tx: Option<u32>,
    m: Map<u64, RowV>,
    id: u64,
)
    requires
        sparing::spared(s, db, table),
        state::table_rows(s, db, table) == Some(m),
    ensures
        ({
            let (t, r) = sql::ran(depth, s, db, StatementV::Delete { table: Some(table), selection }, ps, tx);
            &&& state::triggers_of(s, db, table).len() == 0 ==> r is Ok
            &&& r is Ok ==> match state::table_rows(t, db, table) {
                Some(w) => {
                    &&& w.contains_key(id) == (m.contains_key(id) && !chosen(s, db, m[id], selection, ps, 0))
                    &&& w.contains_key(id) ==> w[id] == m[id]
                },
                None => false,
            }
        }),
{
    let rows = dml::matching(s, db, m, selection, ps, 0);
    let n = rows.len() as int;
    lemma_rows_deleted(depth, s, db, table, rows, tx, m, n);
    lemma_without_rows(m, rows, n, id);
    if m.contains_key(id) {
        lemma_matching_rows(s, db, m, selection, ps, 0, (id, m[id]));
        if rows.contains((id, m[id])) {
            let i = choose|i: int| 0 <= i < n && rows[i] == (id, m[id]);
            assert(rows[i].0 == id);
        }
        if exists|i: int| 0 <= i < n && (#[trigger] rows[i]).0 == id {
            let i = choose|i: int| 0 <= i < n && (#[trigger] rows[i]).0 == id;
            lemma_matching_rows(s, db, m, selection, ps, 0, rows[i]);
            assert(rows.contains(rows[i]));
            assert(rows[i] == (id, m[id]));
        }
    }
}

} // verus!

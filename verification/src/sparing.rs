//! What a write to one table leaves alone: the other tables, as far as no trigger writes to them.
use vstd::prelude::*;

use crate::assoc;
use crate::ast::{AssignmentV, ObjectTypeV, StatementV};
use crate::catalog;
use crate::covering;
use crate::fts;
use crate::fts::FtsTableV;
use crate::index;
use crate::index::IndexOpV;
use crate::rollback;
use crate::row::RowV;
use crate::schema::{SchemaV, TriggerEvent, TriggerTiming, TriggerV, ValueV};
use crate::sql;
use crate::sql::ddl;
use crate::sql::dml;
use crate::sql::parser;
use crate::state;
use crate::state::StateV;
use crate::transaction::UndoV;
use crate::triggers;

verus! {

/// Whether a table is in two states the same: its definition, rows, next id and indexes, and all
/// triggers and definitions around it.
pub open spec fn same_table(s: StateV, t: StateV, db: u32, table: Seq<char>) -> bool {
    &&& t.schemas == s.schemas
    &&& t.triggers == s.triggers
    &&& state::table_rows(t, db, table) == state::table_rows(s, db, table)
    &&& state::next_rowid(t, db, table) == state::next_rowid(s, db, table)
    &&& catalog::find(t.fts, db, table) == catalog::find(s.fts, db, table)
    &&& forall|name: Seq<char>| #[trigger] state::index_of(t, db, table, name) == state::index_of(s, db, table, name)
}

/// Whether a statement defines no table or index: at most it writes rows.
pub open spec fn rows_only(stmt: StatementV) -> bool {
    match stmt {
        StatementV::CreateTable { .. } => false,
        StatementV::AlterTable { .. } => false,
        StatementV::CreateIndex { .. } => false,
        StatementV::CreateVirtualTable { .. } => false,
        StatementV::Drop { object, if_exists, names } => object != ObjectTypeV::Table && object != ObjectTypeV::Index,
        _ => true,
    }
}

/// Whether a statement writes to a table.
pub open spec fn writes_to(stmt: StatementV, table: Seq<char>) -> bool {
    match stmt {
        StatementV::Insert { table: t, columns, source } => t == table,
        StatementV::Update { table: t, assignments, selection } => t == table,
        StatementV::Delete { table: t, selection } => t == Some(table),
        _ => false,
    }
}

/// Whether a statement writes rows at most, and those to other tables.
pub open spec fn spares(stmt: StatementV, table: Seq<char>) -> bool {
    rows_only(stmt) && !writes_to(stmt, table)
}

/// Whether the statements of a trigger, whatever the rows, spare a table.
pub open spec fn trigger_spares(t: TriggerV, table: Seq<char>) -> bool {
    forall|old_row: Option<RowV>, new_row: Option<RowV>|
        match parser::statements_in(#[trigger] triggers::body_text(t.body, old_row, new_row)) {
            Ok(stmts) => forall|i: int| 0 <= i < stmts.len() ==> spares(#[trigger] stmts[i], table),
            Err(_) => true,
        }
}

/// Whether all triggers of a database spare a table.
pub open spec fn spared(s: StateV, db: u32, table: Seq<char>) -> bool {
    forall|name: Seq<char>, i: int|
        0 <= i < state::triggers_of(s, db, name).len() ==> trigger_spares(
            #[trigger] state::triggers_of(s, db, name)[i],
            table,
        )
}

/// Which tables are spared depends on the triggers alone.
pub proof fn lemma_same_triggers(s: StateV, t: StateV, db: u32, table: Seq<char>)
    requires
        spared(s, db, table),
        t.triggers == s.triggers,
    ensures
        spared(t, db, table),
{
    assert forall|name: Seq<char>, i: int| 0 <= i < state::triggers_of(t, db, name).len() implies trigger_spares(
        #[trigger] state::triggers_of(t, db, name)[i],
        table,
    ) by {
        assert(state::triggers_of(t, db, name) == state::triggers_of(s, db, name));
    }
}

proof fn lemma_synced_elsewhere(s: StateV, db: u32, other: Seq<char>, id: u64, row: RowV, is_delete: bool, table: Seq<char>)
    requires
        other != table,
    ensures
        same_table(s, dml::fts_synced(s, db, other, id, row, is_delete), db, table),
{
    match catalog::find(s.fts, db, other) {
        Some(t) => {
            let out = dml::fts_synced(s, db, other, id, row, is_delete);
            match dml::fts_content(t, row) {
                Some(c) => {
                    let index = if is_delete {
                        fts::without_document(t.index, id, c)
                    } else {
                        fts::with_document(t.index, id, c)
                    };
                    let v = FtsTableV { index, ..t };
                    assoc::lemma_get_put_other(s.fts.items, (db, other), v, (db, table));
                },
                None => {},
            }
        },
        None => {},
    }
}

proof fn lemma_changed_elsewhere(
    s: StateV,
    a: StateV,
    db: u32,
    other: Seq<char>,
    w: Map<u64, RowV>,
    row: RowV,
    id: u64,
    op: IndexOpV,
    table: Seq<char>,
)
    requires
        other != table,
        a == (StateV { dbs: catalog::changed(s.dbs, db, other, w), txns: a.txns, ..s }) || a == (StateV {
            txns: a.txns,
            ..s
        }),
    ensures
        same_table(s, index::indexed(a, db, other, row, id, op), db, table),
{
    assoc::lemma_get_put_other(s.dbs.items, (db, other), w, (db, table));
    index::lemma_indexed_fields(a, db, other, row, id, op);
    let t = index::indexed(a, db, other, row, id, op);
    assert forall|name: Seq<char>| #[trigger] state::index_of(t, db, table, name) == state::index_of(s, db, table, name) by {
        match state::table_schema(a, db, other) {
            Some(d) => covering::lemma_followed(a, db, other, d.indices, d.indices.len() as int, row, id, op, db, table, name),
            None => {},
        }
    }
}

/// A new row in one table leaves another as it is.
pub proof fn lemma_written_elsewhere(s: StateV, db: u32, other: Seq<char>, id: u64, row: RowV, tx: Option<u32>, table: Seq<char>)
    requires
        other != table,
    ensures
        same_table(s, dml::row_written(s, db, other, id, row, tx), db, table),
{
    let w = match state::table_rows(s, db, other) {
        Some(m) => m.insert(id, row),
        None => Map::empty(),
    };
    let a = dml::journaled(state::row_stored(s, db, other, id, row), tx, UndoV::Insert { table: other, rowid: id });
    lemma_changed_elsewhere(s, a, db, other, w, row, id, IndexOpV::Insert, table);
    lemma_synced_elsewhere(index::indexed(a, db, other, row, id, IndexOpV::Insert), db, other, id, row, false, table);
}

/// A changed row in one table leaves another as it is.
pub proof fn lemma_rewritten_elsewhere(
    s: StateV,
    db: u32,
    other: Seq<char>,
    id: u64,
    old_row: RowV,
    new_row: RowV,
    tx: Option<u32>,
    table: Seq<char>,
)
    requires
        other != table,
    ensures
        same_table(s, dml::row_rewritten(s, db, other, id, old_row, new_row, tx), db, table),
{
    let w = match state::table_rows(s, db, other) {
        Some(m) => m.insert(id, new_row),
        None => Map::empty(),
    };
    let op = IndexOpV::Update { old_row };
    let a = dml::journaled(state::row_stored(s, db, other, id, new_row), tx, UndoV::Update { table: other, rowid: id, old_row });
    let b = index::indexed(a, db, other, new_row, id, op);
    lemma_changed_elsewhere(s, a, db, other, w, new_row, id, op, table);
    lemma_synced_elsewhere(b, db, other, id, old_row, true, table);
    lemma_synced_elsewhere(dml::fts_synced(b, db, other, id, old_row, true), db, other, id, new_row, false, table);
}

/// A row taken out of one table leaves another as it is.
pub proof fn lemma_erased_elsewhere(s: StateV, db: u32, other: Seq<char>, id: u64, row: RowV, tx: Option<u32>, table: Seq<char>)
    requires
        other != table,
    ensures
        same_table(s, dml::row_erased(s, db, other, id, row, tx), db, table),
{
    let w = match state::table_rows(s, db, other) {
        Some(m) => m.remove(id),
        None => Map::empty(),
    };
    let a = dml::journaled(state::row_dropped(s, db, other, id), tx, UndoV::Delete { table: other, rowid: id, row });
    lemma_changed_elsewhere(s, a, db, other, w, row, id, IndexOpV::Delete, table);
    lemma_synced_elsewhere(index::indexed(a, db, other, row, id, IndexOpV::Delete), db, other, id, row, true, table);
}

/// A new row changes no definition.
pub proof fn lemma_written_fields(s: StateV, db: u32, table: Seq<char>, id: u64, row: RowV, tx: Option<u32>)
    ensures
        dml::row_written(s, db, table, id, row, tx).triggers == s.triggers,
        dml::row_written(s, db, table, id, row, tx).schemas == s.schemas,
{
    let a = dml::journaled(state::row_stored(s, db, table, id, row), tx, UndoV::Insert { table, rowid: id });
    index::lemma_indexed_fields(a, db, table, row, id, IndexOpV::Insert);
}

/// A changed row changes no definition.
pub proof fn lemma_rewritten_fields(s: StateV, db: u32, table: Seq<char>, id: u64, old_row: RowV, new_row: RowV, tx: Option<u32>)
    ensures
        dml::row_rewritten(s, db, table, id, old_row, new_row, tx).triggers == s.triggers,
        dml::row_rewritten(s, db, table, id, old_row, new_row, tx).schemas == s.schemas,
{
    let op = UndoV::Update { table, rowid: id, old_row };
    let a = dml::journaled(state::row_stored(s, db, table, id, new_row), tx, op);
    index::lemma_indexed_fields(a, db, table, new_row, id, IndexOpV::Update { old_row });
}

/// A row taken out changes no definition.
pub proof fn lemma_erased_fields(s: StateV, db: u32, table: Seq<char>, id: u64, row: RowV, tx: Option<u32>)
    ensures
        dml::row_erased(s, db, table, id, row, tx).triggers == s.triggers,
        dml::row_erased(s, db, table, id, row, tx).schemas == s.schemas,
{
    let a = dml::journaled(state::row_dropped(s, db, table, id), tx, UndoV::Delete { table, rowid: id, row });
    index::lemma_indexed_fields(a, db, table, row, id, IndexOpV::Delete);
}

proof fn lemma_fired_one_spares(
    depth: nat,
    s: StateV,
    db: u32,
    t: TriggerV,
    old_row: Option<RowV>,
    new_row: Option<RowV>,
    tx: Option<u32>,
    table: Seq<char>,
)
    requires
        spared(s, db, table),
        trigger_spares(t, table),
    ensures
        same_table(s, triggers::fired_one(depth, s, db, t, old_row, new_row, tx).0, db, table),
    decreases depth, 0nat, 0int,
{
    match parser::statements_in(triggers::body_text(t.body, old_row, new_row)) {
        Ok(stmts) => if depth > 0 {
            lemma_ran_upto_spares((depth - 1) as nat, s, db, stmts, tx, stmts.len() as int, table);
        },
        Err(_) => {},
    }
}

proof fn lemma_fired_upto_spares(
    depth: nat,
    s: StateV,
    db: u32,
    ts: Seq<TriggerV>,
    event: TriggerEvent,
    timing: TriggerTiming,
    old_row: Option<RowV>,
    new_row: Option<RowV>,
    tx: Option<u32>,
    n: int,
    table: Seq<char>,
)
    requires
        spared(s, db, table),
        forall|i: int| 0 <= i < ts.len() ==> trigger_spares(#[trigger] ts[i], table),
    ensures
        same_table(s, triggers::fired_upto(depth, s, db, ts, event, timing, old_row, new_row, tx, n).0, db, table),
    decreases depth, 1nat, n,
{
    if n > 0 && n <= ts.len() {
        lemma_fired_upto_spares(depth, s, db, ts, event, timing, old_row, new_row, tx, n - 1, table);
        let p = triggers::fired_upto(depth, s, db, ts, event, timing, old_row, new_row, tx, n - 1).0;
        lemma_same_triggers(s, p, db, table);
        assert(trigger_spares(ts[n - 1], table));
        lemma_fired_one_spares(depth, p, db, ts[n - 1], old_row, new_row, tx, table);
        assert(same_table(
            p,
            triggers::fired_listed(depth, p, db, ts[n - 1], event, timing, old_row, new_row, tx).0,
            db,
            table,
        ));
    }
}

/// Triggers that spare a table leave it as it is.
pub proof fn lemma_fired_spares(
    depth: nat,
    s: StateV,
    db: u32,
    name: Seq<char>,
    event: TriggerEvent,
    timing: TriggerTiming,
    old_row: Option<RowV>,
    new_row: Option<RowV>,
    tx: Option<u32>,
    table: Seq<char>,
)
    requires
        spared(s, db, table),
    ensures
        same_table(s, triggers::fired(depth, s, db, name, event, timing, old_row, new_row, tx).0, db, table),
        spared(triggers::fired(depth, s, db, name, event, timing, old_row, new_row, tx).0, db, table),
    decreases depth, 2nat, 0int,
{
    let ts = state::triggers_of(s, db, name);
    lemma_fired_upto_spares(depth, s, db, ts, event, timing, old_row, new_row, tx, ts.len() as int, table);
    lemma_same_triggers(s, triggers::fired(depth, s, db, name, event, timing, old_row, new_row, tx).0, db, table);
}

proof fn lemma_ran_upto_spares(depth: nat, s: StateV, db: u32, stmts: Seq<StatementV>, tx: Option<u32>, n: int, table: Seq<char>)
    requires
        spared(s, db, table),
        forall|i: int| 0 <= i < stmts.len() ==> spares(#[trigger] stmts[i], table),
    ensures
        same_table(s, triggers::ran_upto(depth, s, db, stmts, tx, n).0, db, table),
    decreases depth, 5nat, n,
{
    if n > 0 && n <= stmts.len() {
        lemma_ran_upto_spares(depth, s, db, stmts, tx, n - 1, table);
        let p = triggers::ran_upto(depth, s, db, stmts, tx, n - 1).0;
        lemma_same_triggers(s, p, db, table);
        assert(spares(stmts[n - 1], table));
        lemma_ran_spares(depth, p, db, stmts[n - 1], Seq::empty(), tx, table);
    }
}

proof fn lemma_rows_inserted_spare(
    depth: nat,
    s: StateV,
    db: u32,
    other: Seq<char>,
    d: SchemaV,
    rows: Seq<RowV>,
    tx: Option<u32>,
    n: int,
    table: Seq<char>,
)
    requires
        spared(s, db, table),
        other != table,
    ensures
        same_table(s, dml::rows_inserted(depth, s, db, other, d, rows, tx, n).0, db, table),
    decreases depth, 3nat, n,
{
    if n > 0 && n <= rows.len() {
        lemma_rows_inserted_spare(depth, s, db, other, d, rows, tx, n - 1, table);
        let (p, e) = dml::rows_inserted(depth, s, db, other, d, rows, tx, n - 1);
        let ins = TriggerEvent::Insert;
        let id = state::next_rowid(p, db, other);
        let s1 = state::rowid_taken(p, db, other);
        let full = dml::with_defaults(d.columns, rows[n - 1], id, d.columns.len() as int);
        if id < u64::MAX {
            rollback::lemma_rowid_taken(p, db, other, table);
        }
        lemma_same_triggers(s, s1, db, table);
        lemma_fired_spares(depth, s1, db, other, ins, TriggerTiming::Before, None, Some(full), tx, table);
        let s2 = triggers::fired(depth, s1, db, other, ins, TriggerTiming::Before, None, Some(full), tx).0;
        lemma_written_elsewhere(s2, db, other, id, full, tx, table);
        let s3 = dml::row_written(s2, db, other, id, full, tx);
        lemma_same_triggers(s, s3, db, table);
        lemma_fired_spares(depth, s3, db, other, ins, TriggerTiming::After, None, Some(full), tx, table);
        assert(same_table(p, dml::row_inserted(depth, p, db, other, d, rows[n - 1], tx).0, db, table));
    }
}

proof fn lemma_rows_updated_spare(
    depth: nat,
    s: StateV,
    db: u32,
    other: Seq<char>,
    d: SchemaV,
    rows: Seq<(u64, RowV)>,
    assignments: Seq<AssignmentV>,
    ps: Seq<ValueV>,
    tx: Option<u32>,
    n: int,
    table: Seq<char>,
)
    requires
        spared(s, db, table),
        other != table,
    ensures
        same_table(s, dml::rows_updated(depth, s, db, other, d, rows, assignments, ps, tx, n).0, db, table),
    decreases depth, 3nat, n,
{
    if n > 0 && n <= rows.len() {
        lemma_rows_updated_spare(depth, s, db, other, d, rows, assignments, ps, tx, n - 1, table);
        let (p, e) = dml::rows_updated(depth, s, db, other, d, rows, assignments, ps, tx, n - 1);
        let upd = TriggerEvent::Update;
        let (id, o) = rows[n - 1];
        let w = dml::assigned(assignments, o, ps, assignments.len() as int).0;
        lemma_same_triggers(s, p, db, table);
        lemma_fired_spares(depth, p, db, other, upd, TriggerTiming::Before, Some(o), Some(w), tx, table);
        let s2 = triggers::fired(depth, p, db, other, upd, TriggerTiming::Before, Some(o), Some(w), tx).0;
        lemma_rewritten_elsewhere(s2, db, other, id, o, w, tx, table);
        let s3 = dml::row_rewritten(s2, db, other, id, o, w, tx);
        lemma_same_triggers(s, s3, db, table);
        lemma_fired_spares(depth, s3, db, other, upd, TriggerTiming::After, Some(o), Some(w), tx, table);
        assert(same_table(p, dml::row_updated(depth, p, db, other, d, id, o, assignments, ps, tx).0, db, table));
    }
}

proof fn lemma_rows_deleted_spare(
    depth: nat,
    s: StateV,
    db: u32,
    other: Seq<char>,
    rows: Seq<(u64, RowV)>,
    tx: Option<u32>,
    n: int,
    table: Seq<char>,
)
    requires
        spared(s, db, table),
        other != table,
    ensures
        same_table(s, dml::rows_deleted(depth, s, db, other, rows, tx, n).0, db, table),
    decreases depth, 3nat, n,
{
    if n > 0 && n <= rows.len() {
        lemma_rows_deleted_spare(depth, s, db, other, rows, tx, n - 1, table);
        let (p, e) = dml::rows_deleted(depth, s, db, other, rows, tx, n - 1);
        let del = TriggerEvent::Delete;
        let (id, row) = rows[n - 1];
        lemma_same_triggers(s, p, db, table);
        lemma_fired_spares(depth, p, db, other, del, TriggerTiming::Before, Some(row), None, tx, table);
        let s2 = triggers::fired(depth, p, db, other, del, TriggerTiming::Before, Some(row), None, tx).0;
        lemma_erased_elsewhere(s2, db, other, id, row, tx, table);
        let s3 = dml::row_erased(s2, db, other, id, row, tx);
        lemma_same_triggers(s, s3, db, table);
        lemma_fired_spares(depth, s3, db, other, del, TriggerTiming::After, Some(row), None, tx, table);
        assert(same_table(p, dml::row_deleted(depth, p, db, other, id, row, tx).0, db, table));
    }
}

/// To drop views leaves tables as they are.
pub proof fn lemma_views_dropped_spare(s: StateV, db: u32, names: Seq<Seq<char>>, if_exists: bool, n: int, table: Seq<char>)
    ensures
        same_table(s, ddl::views_dropped(s, db, names, if_exists, n).0, db, table),
    decreases n,
{
    if n > 0 && n <= names.len() {
        lemma_views_dropped_spare(s, db, names, if_exists, n - 1, table);
        let p = ddl::views_dropped(s, db, names, if_exists, n - 1).0;
        let t = ddl::views_dropped(s, db, names, if_exists, n).0;
        assert(t.indexes == p.indexes);
        assert forall|name: Seq<char>| #[trigger] state::index_of(t, db, table, name) == state::index_of(s, db, table, name) by {
            assert(state::index_of(p, db, table, name) == state::index_of(s, db, table, name));
        }
    }
}

/// A statement on other tables leaves a table as it is: its rows, its next id, its indexes and its
/// definition, as long as no trigger writes to it.
pub proof fn lemma_ran_spares(
    depth: nat,
    s: StateV,
    db: u32,
    stmt: StatementV,
    ps: Seq<ValueV>,
    tx: Option<u32>,
    table: Seq<char>,
)
    requires
        spared(s, db, table),
        spares(stmt, table),
    ensures
        same_table(s, sql::ran(depth, s, db, stmt, ps, tx).0, db, table),
    decreases depth, 4nat, 0int,
{
    match stmt {
        StatementV::Insert { table: t, columns, source } => {
            match state::table_schema(s, db, t) {
                Some(d) => match dml::candidate_rows(s, db, dml::insert_columns(d, columns), source, ps) {
                    Ok(rows) => lemma_rows_inserted_spare(depth, s, db, t, d, rows, tx, rows.len() as int, table),
                    Err(_) => {},
                },
                None => {},
            }
        },
        StatementV::Update { table: t, assignments, selection } => {
            match (state::table_rows(s, db, t), state::table_schema(s, db, t)) {
                (Some(m), Some(d)) => {
                    let start = dml::set_placeholders(assignments, assignments.len() as int);
                    let rows = dml::matching(s, db, m, selection, ps, start);
                    lemma_rows_updated_spare(depth, s, db, t, d, rows, assignments, ps, tx, rows.len() as int, table);
                },
                _ => {},
            }
        },
        StatementV::Delete { table: t, selection } => {
            match t {
                Some(t) => match state::table_rows(s, db, t) {
                    Some(m) => {
                        let rows = dml::matching(s, db, m, selection, ps, 0);
                        lemma_rows_deleted_spare(depth, s, db, t, rows, tx, rows.len() as int, table);
                    },
                    None => {},
                },
                None => {},
            }
        },
        StatementV::Drop { object, if_exists, names } => {
            lemma_views_dropped_spare(s, db, names, if_exists, names.len() as int, table);
        },
        _ => {},
    }
}

} // verus!

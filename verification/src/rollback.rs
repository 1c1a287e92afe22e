//! What a rollback brings back: the rows of every table as they were when the transaction
//! began.
use vstd::prelude::*;

use crate::apart;
use crate::assoc;
use crate::ast::{AlterTableOperationV, AssignmentV, ExprV, ObjectTypeV, StatementV};
use crate::catalog;
use crate::catalog::CatalogV;
use crate::constraint;
use crate::error::ErrorV;
use crate::index;
use crate::index::IndexOpV;
use crate::row::RowV;
use crate::schema::{ColumnV, IndexV, SchemaV, TriggerEvent, TriggerTiming, TriggerV, ValueV};
use crate::sql;
use crate::sql::ResultV;
use crate::sql::ddl;
use crate::sql::ddl::RowChangeV;
use crate::sql::dml;
use crate::sql::parser;
use crate::state;
use crate::state::StateV;
use crate::store;
use crate::transaction;
use crate::transaction::UndoV;
use crate::triggers;
use crate::view;

verus! {

/// The row of a table under an id.
pub open spec fn row_under(dbs: CatalogV<Map<u64, RowV>>, db: u32, table: Seq<char>, id: u64) -> Option<RowV> {
    match catalog::find(dbs, db, table) {
        Some(m) => if m.contains_key(id) {
            Some(m[id])
        } else {
            None
        },
        None => None,
    }
}

pub open spec fn undo_table(op: UndoV) -> Seq<char> {
    match op {
        UndoV::Insert { table, rowid } => table,
        UndoV::Delete { table, rowid, row } => table,
        UndoV::Update { table, rowid, old_row } => table,
    }
}

pub open spec fn undo_rowid(op: UndoV) -> u64 {
    match op {
        UndoV::Insert { table, rowid } => rowid,
        UndoV::Delete { table, rowid, row } => rowid,
        UndoV::Update { table, rowid, old_row } => rowid,
    }
}

/// What a journal entry brings back under its id.
pub open spec fn undo_value(op: UndoV) -> Option<RowV> {
    match op {
        UndoV::Insert { table, rowid } => None,
        UndoV::Delete { table, rowid, row } => Some(row),
        UndoV::Update { table, rowid, old_row } => Some(old_row),
    }
}

/// What the earliest of the first `n` journal entries on a row brings back.
pub open spec fn earliest(ops: Seq<UndoV>, n: int, table: Seq<char>, id: u64) -> Option<Option<RowV>>
    decreases n,
{
    if n <= 0 || n > ops.len() {
        None
    } else {
        match earliest(ops, n - 1, table, id) {
            Some(v) => Some(v),
            None => if undo_table(ops[n - 1]) == table && undo_rowid(ops[n - 1]) == id {
                Some(undo_value(ops[n - 1]))
            } else {
                None
            },
        }
    }
}

pub open spec fn journal_of(s: StateV, tx: u32) -> Seq<UndoV> {
    s.txns.active[tx].journal
}

/// What the journal of a transaction says of a row.
pub open spec fn noted(s: StateV, tx: u32, table: Seq<char>, id: u64) -> Option<Option<RowV>> {
    earliest(journal_of(s, tx), journal_of(s, tx).len() as int, table, id)
}

/// Whether the journal of a transaction knows how to get back to the rows of `dbs`: it says what
/// each row was that is no longer what it was.
pub open spec fn faithful(dbs: CatalogV<Map<u64, RowV>>, db: u32, tx: u32, s: StateV) -> bool {
    &&& s.txns.active.contains_key(tx)
    &&& s.txns.active[tx].db == db
    &&& forall|table: Seq<char>, id: u64|
        match #[trigger] noted(s, tx, table, id) {
            Some(v) => row_under(dbs, db, table, id) == v,
            None => row_under(s.dbs, db, table, id) == row_under(dbs, db, table, id),
        }
    &&& forall|table: Seq<char>| (#[trigger] catalog::find(s.dbs, db, table) is Some) == (catalog::find(dbs, db, table) is Some)
    &&& forall|db2: u32, table: Seq<char>| db2 != db ==> #[trigger] catalog::find(s.dbs, db2, table) == catalog::find(dbs, db2, table)
}

/// Whether every row of a database has an id that its table has already given out. Zero is given
/// out to none.
pub open spec fn ids_behind(s: StateV, db: u32) -> bool {
    &&& forall|table: Seq<char>, id: u64| #[trigger]
        row_under(s.dbs, db, table, id) is Some ==> id < state::next_rowid(s, db, table)
    &&& forall|table: Seq<char>| #[trigger] state::next_rowid(s, db, table) >= 1
}

/// Whether a statement leaves the tables as such alone: it creates, alters and drops none.
pub open spec fn keeps_tables(stmt: StatementV) -> bool {
    match stmt {
        StatementV::CreateTable { .. } => false,
        StatementV::AlterTable { .. } => false,
        StatementV::CreateVirtualTable { .. } => false,
        StatementV::Drop { object, if_exists, names } => object != ObjectTypeV::Table,
        _ => true,
    }
}

pub open spec fn all_keep_tables(stmts: Seq<StatementV>) -> bool {
    forall|i: int| 0 <= i < stmts.len() ==> keeps_tables(#[trigger] stmts[i])
}

/// Whether the statements of a trigger, whatever the rows, leave the tables as such alone.
pub open spec fn plain_trigger(t: TriggerV) -> bool {
    forall|old_row: Option<RowV>, new_row: Option<RowV>|
        match parser::statements_in(#[trigger] triggers::body_text(t.body, old_row, new_row)) {
            Ok(stmts) => all_keep_tables(stmts),
            Err(_) => true,
        }
}

pub open spec fn plain_triggers(s: StateV, db: u32) -> bool {
    forall|table: Seq<char>, i: int|
        0 <= i < state::triggers_of(s, db, table).len() ==> plain_trigger(#[trigger] state::triggers_of(s, db, table)[i])
}

/// What holds throughout a transaction that leaves the tables as such alone.
pub open spec fn revertible(dbs: CatalogV<Map<u64, RowV>>, db: u32, tx: u32, s: StateV) -> bool {
    &&& faithful(dbs, db, tx, s)
    &&& ids_behind(s, db)
    &&& plain_triggers(s, db)
}

pub open spec fn is_prefix(a: Seq<UndoV>, b: Seq<UndoV>) -> bool {
    a.len() <= b.len() && forall|i: int| 0 <= i < a.len() ==> #[trigger] a[i] == b[i]
}

/// How a later state of a transaction goes on from an earlier: its journal only grows, ids are
/// given out upwards, and an id that was given out and is free is not taken again.
pub open spec fn goes_on(db: u32, tx: u32, s: StateV, t: StateV) -> bool {
    &&& t.triggers == s.triggers
    &&& is_prefix(journal_of(s, tx), journal_of(t, tx))
    &&& forall|table: Seq<char>| state::next_rowid(s, db, table) <= #[trigger] state::next_rowid(t, db, table)
    &&& forall|table: Seq<char>, id: u64|
        id < state::next_rowid(s, db, table) && row_under(s.dbs, db, table, id) is None ==> #[trigger] row_under(
            t.dbs,
            db,
            table,
            id,
        ) is None
}

proof fn lemma_goes_on(db: u32, tx: u32, s: StateV, t: StateV, u: StateV)
    requires
        goes_on(db, tx, s, t),
        goes_on(db, tx, t, u),
    ensures
        goes_on(db, tx, s, u),
{
    assert forall|table: Seq<char>| state::next_rowid(s, db, table) <= #[trigger] state::next_rowid(u, db, table) by {
        assert(state::next_rowid(s, db, table) <= state::next_rowid(t, db, table));
    }
    assert forall|table: Seq<char>, id: u64|
        id < state::next_rowid(s, db, table) && row_under(s.dbs, db, table, id) is None implies #[trigger] row_under(
        u.dbs,
        db,
        table,
        id,
    ) is None by {
        assert(row_under(t.dbs, db, table, id) is None);
        assert(state::next_rowid(s, db, table) <= state::next_rowid(t, db, table));
    }
    assert forall|i: int| 0 <= i < journal_of(s, tx).len() implies #[trigger] journal_of(s, tx)[i] == journal_of(
        u,
        tx,
    )[i] by {
        assert(journal_of(t, tx)[i] == journal_of(u, tx)[i]);
    }
}

proof fn lemma_earliest_prefix(a: Seq<UndoV>, b: Seq<UndoV>, m: int, n: int, table: Seq<char>, id: u64)
    requires
        is_prefix(a, b),
        0 <= m <= a.len(),
        m <= n <= b.len(),
        earliest(a, m, table, id) is Some,
    ensures
        earliest(b, n, table, id) == earliest(a, m, table, id),
    decreases n,
{
    if n > m {
        lemma_earliest_prefix(a, b, m, n - 1, table, id);
    } else {
        assert(a[m - 1] == b[m - 1]);
        if earliest(a, m - 1, table, id) is Some {
            lemma_earliest_prefix(a, b, m - 1, m - 1, table, id);
        } else {
            lemma_earliest_none(a, b, m - 1, table, id);
        }
    }
}

proof fn lemma_earliest_none(a: Seq<UndoV>, b: Seq<UndoV>, m: int, table: Seq<char>, id: u64)
    requires
        is_prefix(a, b),
        0 <= m <= a.len(),
        earliest(a, m, table, id) is None,
    ensures
        earliest(b, m, table, id) is None,
    decreases m,
{
    if m > 0 {
        assert(a[m - 1] == b[m - 1]);
        lemma_earliest_none(a, b, m - 1, table, id);
    }
}

/// What a row is after the rows of one table changed.
proof fn lemma_value_changed(
    dbs: CatalogV<Map<u64, RowV>>,
    db: u32,
    table: Seq<char>,
    m: Map<u64, RowV>,
    db2: u32,
    table2: Seq<char>,
)
    ensures
        catalog::find(catalog::changed(dbs, db, table, m), db2, table2) == (if db == db2 && table == table2 {
            Some(m)
        } else {
            catalog::find(dbs, db2, table2)
        }),
{
    assoc::lemma_get_put(dbs.items, (db, table), m);
    if (db, table) != (db2, table2) {
        assoc::lemma_get_put_other(dbs.items, (db, table), m, (db2, table2));
    }
}

/// A change that is in the journal keeps a transaction revertible, where the journal says of the
/// row what it was.
proof fn lemma_noted_change(
    dbs: CatalogV<Map<u64, RowV>>,
    db: u32,
    tx: u32,
    s: StateV,
    t: StateV,
    op: UndoV,
    after: Option<RowV>,
)
    requires
        revertible(dbs, db, tx, s),
        t.generators == s.generators,
        t.triggers == s.triggers,
        t.txns == transaction::recorded(s.txns, tx, op),
        t.dbs == (match catalog::find(s.dbs, db, undo_table(op)) {
            Some(m) => catalog::changed(
                s.dbs,
                db,
                undo_table(op),
                match after {
                    Some(row) => m.insert(undo_rowid(op), row),
                    None => m.remove(undo_rowid(op)),
                },
            ),
            None => s.dbs,
        }),
        undo_rowid(op) < state::next_rowid(s, db, undo_table(op)),
        noted(s, tx, undo_table(op), undo_rowid(op)) is Some || row_under(
            dbs,
            db,
            undo_table(op),
            undo_rowid(op),
        ) == undo_value(op),
    ensures
        revertible(dbs, db, tx, t),
        t.triggers == s.triggers,
        is_prefix(journal_of(s, tx), journal_of(t, tx)),
        forall|table: Seq<char>| #[trigger] state::next_rowid(t, db, table) == state::next_rowid(s, db, table),
        forall|table: Seq<char>, id: u64|
            (table, id) != (undo_table(op), undo_rowid(op)) ==> #[trigger] row_under(t.dbs, db, table, id) == row_under(
                s.dbs,
                db,
                table,
                id,
            ),
{
    let ot = undo_table(op);
    let oi = undo_rowid(op);
    let j = journal_of(s, tx);
    let k = journal_of(t, tx);
    assert(k =~= j.push(op));
    assert forall|table: Seq<char>, id: u64| (table, id) != (ot, oi) implies #[trigger] row_under(t.dbs, db, table, id)
        == row_under(s.dbs, db, table, id) by {
        match catalog::find(s.dbs, db, ot) {
            Some(m) => {
                let m2 = match after {
                    Some(row) => m.insert(oi, row),
                    None => m.remove(oi),
                };
                lemma_value_changed(s.dbs, db, ot, m2, db, table);
            },
            None => {},
        }
    }
    assert forall|table: Seq<char>, id: u64|
        (match #[trigger] noted(t, tx, table, id) {
            Some(v) => row_under(dbs, db, table, id) == v,
            None => row_under(t.dbs, db, table, id) == row_under(dbs, db, table, id),
        }) by {
        let before = noted(s, tx, table, id);
        if before is Some {
            lemma_earliest_prefix(j, k, j.len() as int, k.len() as int, table, id);
        } else {
            lemma_earliest_none(j, k, j.len() as int, table, id);
            assert(k[j.len() as int] == op);
            if (table, id) != (ot, oi) {
                assert(row_under(t.dbs, db, table, id) == row_under(s.dbs, db, table, id));
            }
        }
    }
    assert forall|table: Seq<char>| (#[trigger] catalog::find(t.dbs, db, table) is Some) == (catalog::find(dbs, db, table) is Some) by {
        assert((catalog::find(s.dbs, db, table) is Some) == (catalog::find(dbs, db, table) is Some));
        match catalog::find(s.dbs, db, ot) {
            Some(m) => {
                let m2 = match after {
                    Some(row) => m.insert(oi, row),
                    None => m.remove(oi),
                };
                lemma_value_changed(s.dbs, db, ot, m2, db, table);
            },
            None => {},
        }
    }
    assert forall|db2: u32, table: Seq<char>| db2 != db implies #[trigger] catalog::find(t.dbs, db2, table) == catalog::find(
        dbs,
        db2,
        table,
    ) by {
        assert(catalog::find(s.dbs, db2, table) == catalog::find(dbs, db2, table));
        match catalog::find(s.dbs, db, ot) {
            Some(m) => {
                let m2 = match after {
                    Some(row) => m.insert(oi, row),
                    None => m.remove(oi),
                };
                lemma_value_changed(s.dbs, db, ot, m2, db2, table);
            },
            None => {},
        }
    }
    assert forall|table: Seq<char>, id: u64| #[trigger] row_under(t.dbs, db, table, id) is Some implies id < state::next_rowid(
        t,
        db,
        table,
    ) by {
        if (table, id) != (ot, oi) {
            assert(row_under(s.dbs, db, table, id) is Some);
        }
        assert(state::next_rowid(t, db, table) == state::next_rowid(s, db, table));
    }
    assert forall|table: Seq<char>| #[trigger] state::next_rowid(t, db, table) >= 1 by {
        assert(state::next_rowid(s, db, table) >= 1);
    }
    assert forall|table: Seq<char>, i: int| 0 <= i < state::triggers_of(t, db, table).len() implies plain_trigger(
        #[trigger] state::triggers_of(t, db, table)[i],
    ) by {
        assert(state::triggers_of(t, db, table)[i] == state::triggers_of(s, db, table)[i]);
    }
}

proof fn lemma_row_written_reverts(
    dbs: CatalogV<Map<u64, RowV>>,
    db: u32,
    tx: u32,
    s: StateV,
    table: Seq<char>,
    id: u64,
    row: RowV,
)
    requires
        revertible(dbs, db, tx, s),
        id < state::next_rowid(s, db, table),
        row_under(s.dbs, db, table, id) is None,
    ensures
        ({
            let t = dml::row_written(s, db, table, id, row, Some(tx));
            &&& revertible(dbs, db, tx, t)
            &&& t.triggers == s.triggers
            &&& is_prefix(journal_of(s, tx), journal_of(t, tx))
            &&& forall|tb: Seq<char>| #[trigger] state::next_rowid(t, db, tb) == state::next_rowid(s, db, tb)
            &&& forall|tb: Seq<char>, x: u64|
                (tb, x) != (table, id) ==> #[trigger] row_under(t.dbs, db, tb, x) == row_under(s.dbs, db, tb, x)
        }),
{
    let op = UndoV::Insert { table, rowid: id };
    let a = dml::journaled(state::row_stored(s, db, table, id, row), Some(tx), op);
    let b = index::indexed(a, db, table, row, id, IndexOpV::Insert);
    index::lemma_indexed_fields(a, db, table, row, id, IndexOpV::Insert);
    dml::lemma_synced_fields(b, db, table, id, row, false);
    let t = dml::row_written(s, db, table, id, row, Some(tx));
    assert(noted(s, tx, table, id) is Some || row_under(dbs, db, table, id) is None);
    lemma_noted_change(dbs, db, tx, s, t, op, Some(row));
}

proof fn lemma_row_rewritten_reverts(
    dbs: CatalogV<Map<u64, RowV>>,
    db: u32,
    tx: u32,
    s: StateV,
    table: Seq<char>,
    id: u64,
    old_row: RowV,
    new_row: RowV,
)
    requires
        revertible(dbs, db, tx, s),
        id < state::next_rowid(s, db, table),
        noted(s, tx, table, id) is Some || row_under(dbs, db, table, id) == Some(old_row),
    ensures
        ({
            let t = dml::row_rewritten(s, db, table, id, old_row, new_row, Some(tx));
            &&& revertible(dbs, db, tx, t)
            &&& t.triggers == s.triggers
            &&& is_prefix(journal_of(s, tx), journal_of(t, tx))
            &&& forall|tb: Seq<char>| #[trigger] state::next_rowid(t, db, tb) == state::next_rowid(s, db, tb)
            &&& forall|tb: Seq<char>, x: u64|
                (tb, x) != (table, id) ==> #[trigger] row_under(t.dbs, db, tb, x) == row_under(s.dbs, db, tb, x)
        }),
{
    let op = UndoV::Update { table, rowid: id, old_row };
    let iop = IndexOpV::Update { old_row };
    let a = dml::journaled(state::row_stored(s, db, table, id, new_row), Some(tx), op);
    let b = index::indexed(a, db, table, new_row, id, iop);
    let c = dml::fts_synced(b, db, table, id, old_row, true);
    index::lemma_indexed_fields(a, db, table, new_row, id, iop);
    dml::lemma_synced_fields(b, db, table, id, old_row, true);
    dml::lemma_synced_fields(c, db, table, id, new_row, false);
    let t = dml::row_rewritten(s, db, table, id, old_row, new_row, Some(tx));
    assert(noted(s, tx, table, id) is None ==> row_under(s.dbs, db, table, id) == row_under(dbs, db, table, id));
    lemma_noted_change(dbs, db, tx, s, t, op, Some(new_row));
}

proof fn lemma_row_erased_reverts(
    dbs: CatalogV<Map<u64, RowV>>,
    db: u32,
    tx: u32,
    s: StateV,
    table: Seq<char>,
    id: u64,
    row: RowV,
)
    requires
        revertible(dbs, db, tx, s),
        id < state::next_rowid(s, db, table),
        noted(s, tx, table, id) is Some || row_under(dbs, db, table, id) == Some(row),
    ensures
        ({
            let t = dml::row_erased(s, db, table, id, row, Some(tx));
            &&& revertible(dbs, db, tx, t)
            &&& t.triggers == s.triggers
            &&& is_prefix(journal_of(s, tx), journal_of(t, tx))
            &&& forall|tb: Seq<char>| #[trigger] state::next_rowid(t, db, tb) == state::next_rowid(s, db, tb)
            &&& forall|tb: Seq<char>, x: u64|
                (tb, x) != (table, id) ==> #[trigger] row_under(t.dbs, db, tb, x) == row_under(s.dbs, db, tb, x)
        }),
{
    let op = UndoV::Delete { table, rowid: id, row };
    let a = dml::journaled(state::row_dropped(s, db, table, id), Some(tx), op);
    let b = index::indexed(a, db, table, row, id, IndexOpV::Delete);
    index::lemma_indexed_fields(a, db, table, row, id, IndexOpV::Delete);
    dml::lemma_synced_fields(b, db, table, id, row, true);
    let t = dml::row_erased(s, db, table, id, row, Some(tx));
    lemma_noted_change(dbs, db, tx, s, t, op, None);
}

proof fn lemma_same_rows(dbs: CatalogV<Map<u64, RowV>>, db: u32, tx: u32, s: StateV, t: StateV)
    requires
        revertible(dbs, db, tx, s),
        t.dbs == s.dbs,
        t.txns == s.txns,
        t.triggers == s.triggers,
        forall|table: Seq<char>| state::next_rowid(s, db, table) <= #[trigger] state::next_rowid(t, db, table),
    ensures
        revertible(dbs, db, tx, t),
        goes_on(db, tx, s, t),
{
    assert forall|table: Seq<char>, id: u64|
        (match #[trigger] noted(t, tx, table, id) {
            Some(v) => row_under(dbs, db, table, id) == v,
            None => row_under(t.dbs, db, table, id) == row_under(dbs, db, table, id),
        }) by {
        assert(noted(s, tx, table, id) == noted(t, tx, table, id));
    }
    assert forall|table: Seq<char>, id: u64| #[trigger] row_under(t.dbs, db, table, id) is Some implies id < state::next_rowid(
        t,
        db,
        table,
    ) by {
        assert(row_under(s.dbs, db, table, id) is Some);
        assert(state::next_rowid(s, db, table) <= state::next_rowid(t, db, table));
    }
    assert forall|table: Seq<char>, i: int| 0 <= i < state::triggers_of(t, db, table).len() implies plain_trigger(
        #[trigger] state::triggers_of(t, db, table)[i],
    ) by {
        assert(state::triggers_of(t, db, table)[i] == state::triggers_of(s, db, table)[i]);
    }
}

/// An id that is given out moves the next id of its table, and of no other.
pub proof fn lemma_rowid_taken(s: StateV, db: u32, table: Seq<char>, table2: Seq<char>)
    requires
        state::next_rowid(s, db, table) < u64::MAX,
    ensures
        state::next_rowid(state::rowid_taken(s, db, table), db, table2) == (if table == table2 {
            (state::next_rowid(s, db, table) + 1) as u64
        } else {
            state::next_rowid(s, db, table2)
        }),
{
    let n = state::after_rowid(state::next_rowid(s, db, table));
    assoc::lemma_get_put(s.generators.items, (db, table), n);
    if table != table2 {
        assoc::lemma_get_put_other(s.generators.items, (db, table), n, (db, table2));
    }
}

/// A step that writes one row goes on from an earlier state in which the row was there, or its
/// id not yet given out.
proof fn lemma_write_goes_on(db: u32, tx: u32, s: StateV, a: StateV, b: StateV, table: Seq<char>, id: u64)
    requires
        goes_on(db, tx, s, a),
        row_under(s.dbs, db, table, id) is Some || id >= state::next_rowid(s, db, table),
        b.triggers == a.triggers,
        is_prefix(journal_of(a, tx), journal_of(b, tx)),
        forall|tb: Seq<char>| #[trigger] state::next_rowid(b, db, tb) == state::next_rowid(a, db, tb),
        forall|tb: Seq<char>, x: u64|
            (tb, x) != (table, id) ==> #[trigger] row_under(b.dbs, db, tb, x) == row_under(a.dbs, db, tb, x),
    ensures
        goes_on(db, tx, s, b),
{
    assert forall|tb: Seq<char>| state::next_rowid(s, db, tb) <= #[trigger] state::next_rowid(b, db, tb) by {
        assert(state::next_rowid(s, db, tb) <= state::next_rowid(a, db, tb));
    }
    assert forall|tb: Seq<char>, x: u64|
        x < state::next_rowid(s, db, tb) && row_under(s.dbs, db, tb, x) is None implies #[trigger] row_under(
        b.dbs,
        db,
        tb,
        x,
    ) is None by {
        assert(row_under(a.dbs, db, tb, x) is None);
    }
    assert forall|i: int| 0 <= i < journal_of(s, tx).len() implies #[trigger] journal_of(s, tx)[i] == journal_of(
        b,
        tx,
    )[i] by {
        assert(journal_of(a, tx)[i] == journal_of(b, tx)[i]);
    }
}

/// The rows that a statement is about to change: they are there, and the journal says what they
/// were, or they still are it.
pub open spec fn planned(
    dbs: CatalogV<Map<u64, RowV>>,
    db: u32,
    tx: u32,
    s: StateV,
    table: Seq<char>,
    rows: Seq<(u64, RowV)>,
) -> bool {
    forall|i: int|
        0 <= i < rows.len() ==> {
            &&& row_under(s.dbs, db, table, (#[trigger] rows[i]).0) is Some
            &&& noted(s, tx, table, rows[i].0) is Some || row_under(dbs, db, table, rows[i].0) == Some(rows[i].1)
        }
}

/// What the journal says of a planned row later on.
proof fn lemma_planned(
    dbs: CatalogV<Map<u64, RowV>>,
    db: u32,
    tx: u32,
    s: StateV,
    t: StateV,
    table: Seq<char>,
    rows: Seq<(u64, RowV)>,
    i: int,
)
    requires
        revertible(dbs, db, tx, s),
        planned(dbs, db, tx, s, table, rows),
        goes_on(db, tx, s, t),
        0 <= i < rows.len(),
    ensures
        rows[i].0 < state::next_rowid(t, db, table),
        noted(t, tx, table, rows[i].0) is Some || row_under(dbs, db, table, rows[i].0) == Some(rows[i].1),
{
    let id = rows[i].0;
    assert(row_under(s.dbs, db, table, id) is Some);
    assert(state::next_rowid(s, db, table) <= state::next_rowid(t, db, table));
    if noted(s, tx, table, id) is Some {
        let j = journal_of(s, tx);
        let k = journal_of(t, tx);
        lemma_earliest_prefix(j, k, j.len() as int, k.len() as int, table, id);
    }
}

/// The rows that a condition chooses are rows of the table.
pub proof fn lemma_matching(
    s: StateV,
    db: u32,
    list: Seq<(u64, RowV)>,
    selection: Option<ExprV>,
    ps: Seq<ValueV>,
    start: int,
    n: int,
    i: int,
)
    requires
        0 <= n <= list.len(),
        0 <= i < dml::matching_upto(s, db, list, selection, ps, start, n).len(),
    ensures
        exists|j: int| 0 <= j < n && #[trigger] list[j] == dml::matching_upto(s, db, list, selection, ps, start, n)[i],
    decreases n,
{
    if n > 0 {
        let p = dml::matching_upto(s, db, list, selection, ps, start, n - 1);
        let q = dml::matching_upto(s, db, list, selection, ps, start, n);
        if i < p.len() {
            lemma_matching(s, db, list, selection, ps, start, n - 1, i);
            let j = choose|j: int| 0 <= j < n - 1 && #[trigger] list[j] == p[i];
            assert(list[j] == q[i]);
        } else {
            assert(list[n - 1] == q[i]);
        }
    }
}

proof fn lemma_matching_planned(
    dbs: CatalogV<Map<u64, RowV>>,
    db: u32,
    tx: u32,
    s: StateV,
    table: Seq<char>,
    m: Map<u64, RowV>,
    selection: Option<ExprV>,
    ps: Seq<ValueV>,
    start: int,
)
    requires
        revertible(dbs, db, tx, s),
        state::table_rows(s, db, table) == Some(m),
    ensures
        planned(dbs, db, tx, s, table, dml::matching(s, db, m, selection, ps, start)),
{
    let rows = dml::matching(s, db, m, selection, ps, start);
    let l = store::row_list(m);
    assert forall|i: int| 0 <= i < rows.len() implies {
        &&& row_under(s.dbs, db, table, (#[trigger] rows[i]).0) is Some
        &&& noted(s, tx, table, rows[i].0) is Some || row_under(dbs, db, table, rows[i].0) == Some(rows[i].1)
    } by {
        lemma_matching(s, db, l, selection, ps, start, l.len() as int, i);
        let j = choose|j: int| 0 <= j < l.len() && #[trigger] l[j] == rows[i];
        store::lemma_listed(m, j);
        assert(row_under(s.dbs, db, table, rows[i].0) == Some(rows[i].1));
        assert(noted(s, tx, table, rows[i].0) is None ==> row_under(s.dbs, db, table, rows[i].0) == row_under(
            dbs,
            db,
            table,
            rows[i].0,
        ));
    }
}

proof fn lemma_fired_one_reverts(
    dbs: CatalogV<Map<u64, RowV>>,
    depth: nat,
    s: StateV,
    db: u32,
    t: TriggerV,
    old_row: Option<RowV>,
    new_row: Option<RowV>,
    tx: u32,
)
    requires
        revertible(dbs, db, tx, s),
        plain_trigger(t),
    ensures
        revertible(dbs, db, tx, triggers::fired_one(depth, s, db, t, old_row, new_row, Some(tx)).0),
        goes_on(db, tx, s, triggers::fired_one(depth, s, db, t, old_row, new_row, Some(tx)).0),
    decreases depth, 0nat, 0int,
{
    lemma_same_rows(dbs, db, tx, s, s);
    match triggers::fires(s, db, t, old_row, new_row) {
        Ok(true) => match parser::statements_in(triggers::body_text(t.body, old_row, new_row)) {
            Ok(stmts) => if depth > 0 {
                lemma_ran_upto_reverts(dbs, (depth - 1) as nat, s, db, stmts, tx, stmts.len() as int);
            },
            _ => {},
        },
        _ => {},
    }
}

proof fn lemma_fired_upto_reverts(
    dbs: CatalogV<Map<u64, RowV>>,
    depth: nat,
    s: StateV,
    db: u32,
    ts: Seq<TriggerV>,
    event: TriggerEvent,
    timing: TriggerTiming,
    old_row: Option<RowV>,
    new_row: Option<RowV>,
    tx: u32,
    n: int,
)
    requires
        revertible(dbs, db, tx, s),
        forall|i: int| 0 <= i < ts.len() ==> plain_trigger(#[trigger] ts[i]),
        0 <= n <= ts.len(),
    ensures
        revertible(dbs, db, tx, triggers::fired_upto(depth, s, db, ts, event, timing, old_row, new_row, Some(tx), n).0),
        goes_on(db, tx, s, triggers::fired_upto(depth, s, db, ts, event, timing, old_row, new_row, Some(tx), n).0),
    decreases depth, 2nat, n,
{
    lemma_same_rows(dbs, db, tx, s, s);
    if n > 0 {
        lemma_fired_upto_reverts(dbs, depth, s, db, ts, event, timing, old_row, new_row, tx, n - 1);
        let (p, e) = triggers::fired_upto(depth, s, db, ts, event, timing, old_row, new_row, Some(tx), n - 1);
        assert(plain_trigger(ts[n - 1]));
        lemma_fired_one_reverts(dbs, depth, p, db, ts[n - 1], old_row, new_row, tx);
        lemma_same_rows(dbs, db, tx, p, p);
        let (q, f) = triggers::fired_listed(depth, p, db, ts[n - 1], event, timing, old_row, new_row, Some(tx));
        assert(revertible(dbs, db, tx, q) && goes_on(db, tx, p, q));
        lemma_goes_on(db, tx, s, p, q);
    }
}

proof fn lemma_fired_reverts(
    dbs: CatalogV<Map<u64, RowV>>,
    depth: nat,
    s: StateV,
    db: u32,
    table: Seq<char>,
    event: TriggerEvent,
    timing: TriggerTiming,
    old_row: Option<RowV>,
    new_row: Option<RowV>,
    tx: u32,
)
    requires
        revertible(dbs, db, tx, s),
    ensures
        revertible(dbs, db, tx, triggers::fired(depth, s, db, table, event, timing, old_row, new_row, Some(tx)).0),
        goes_on(db, tx, s, triggers::fired(depth, s, db, table, event, timing, old_row, new_row, Some(tx)).0),
    decreases depth, 3nat, 0int,
{
    let ts = state::triggers_of(s, db, table);
    assert forall|i: int| 0 <= i < ts.len() implies plain_trigger(#[trigger] ts[i]) by {
        assert(plain_trigger(state::triggers_of(s, db, table)[i]));
    }
    lemma_fired_upto_reverts(dbs, depth, s, db, ts, event, timing, old_row, new_row, tx, ts.len() as int);
}

proof fn lemma_ran_upto_reverts(
    dbs: CatalogV<Map<u64, RowV>>,
    depth: nat,
    s: StateV,
    db: u32,
    stmts: Seq<StatementV>,
    tx: u32,
    n: int,
)
    requires
        revertible(dbs, db, tx, s),
        all_keep_tables(stmts),
        0 <= n <= stmts.len(),
    ensures
        revertible(dbs, db, tx, triggers::ran_upto(depth, s, db, stmts, Some(tx), n).0),
        goes_on(db, tx, s, triggers::ran_upto(depth, s, db, stmts, Some(tx), n).0),
    decreases depth, 8nat, n,
{
    lemma_same_rows(dbs, db, tx, s, s);
    if n > 0 {
        lemma_ran_upto_reverts(dbs, depth, s, db, stmts, tx, n - 1);
        let (p, e) = triggers::ran_upto(depth, s, db, stmts, Some(tx), n - 1);
        lemma_ran_reverts(dbs, depth, p, db, stmts[n - 1], Seq::empty(), tx);
        lemma_goes_on(db, tx, s, p, sql::ran(depth, p, db, stmts[n - 1], Seq::empty(), Some(tx)).0);
    }
}

proof fn lemma_row_inserted_reverts(
    dbs: CatalogV<Map<u64, RowV>>,
    depth: nat,
    s: StateV,
    db: u32,
    table: Seq<char>,
    d: SchemaV,
    row: RowV,
    tx: u32,
)
    requires
        revertible(dbs, db, tx, s),
    ensures
        revertible(dbs, db, tx, dml::row_inserted(depth, s, db, table, d, row, Some(tx)).0),
        goes_on(db, tx, s, dml::row_inserted(depth, s, db, table, d, row, Some(tx)).0),
    decreases depth, 4nat, 0int,
{
    lemma_same_rows(dbs, db, tx, s, s);
    let id = state::next_rowid(s, db, table);
    if id < u64::MAX {
        let s1 = state::rowid_taken(s, db, table);
        let full = dml::with_defaults(d.columns, row, id, d.columns.len() as int);
        assert forall|tb: Seq<char>| state::next_rowid(s, db, tb) <= #[trigger] state::next_rowid(s1, db, tb) by {
            lemma_rowid_taken(s, db, table, tb);
        }
        lemma_rowid_taken(s, db, table, table);
        lemma_same_rows(dbs, db, tx, s, s1);
        if constraint::first_violation(s1, db, d, full, id) is None {
            assert(row_under(s1.dbs, db, table, id) is None) by {
                if row_under(s.dbs, db, table, id) is Some {
                    assert(id < state::next_rowid(s, db, table));
                }
            }
            let before = TriggerTiming::Before;
            let ins = TriggerEvent::Insert;
            lemma_fired_reverts(dbs, depth, s1, db, table, ins, before, None, Some(full), tx);
            let (s2, e2) = triggers::fired(depth, s1, db, table, ins, before, None, Some(full), Some(tx));
            lemma_goes_on(db, tx, s, s1, s2);
            if e2 is None {
                assert(row_under(s2.dbs, db, table, id) is None);
                assert(state::next_rowid(s1, db, table) <= state::next_rowid(s2, db, table));
                lemma_row_written_reverts(dbs, db, tx, s2, table, id, full);
                let s3 = dml::row_written(s2, db, table, id, full, Some(tx));
                lemma_write_goes_on(db, tx, s, s2, s3, table, id);
                lemma_fired_reverts(dbs, depth, s3, db, table, ins, TriggerTiming::After, None, Some(full), tx);
                let s4 = triggers::fired(depth, s3, db, table, ins, TriggerTiming::After, None, Some(full), Some(tx)).0;
                lemma_goes_on(db, tx, s, s3, s4);
            }
        }
    }
}

proof fn lemma_rows_inserted_reverts(
    dbs: CatalogV<Map<u64, RowV>>,
    depth: nat,
    s: StateV,
    db: u32,
    table: Seq<char>,
    d: SchemaV,
    rows: Seq<RowV>,
    tx: u32,
    n: int,
)
    requires
        revertible(dbs, db, tx, s),
        0 <= n <= rows.len(),
    ensures
        revertible(dbs, db, tx, dml::rows_inserted(depth, s, db, table, d, rows, Some(tx), n).0),
        goes_on(db, tx, s, dml::rows_inserted(depth, s, db, table, d, rows, Some(tx), n).0),
    decreases depth, 5nat, n,
{
    lemma_same_rows(dbs, db, tx, s, s);
    if n > 0 {
        lemma_rows_inserted_reverts(dbs, depth, s, db, table, d, rows, tx, n - 1);
        let (p, e) = dml::rows_inserted(depth, s, db, table, d, rows, Some(tx), n - 1);
        lemma_row_inserted_reverts(dbs, depth, p, db, table, d, rows[n - 1], tx);
        lemma_goes_on(db, tx, s, p, dml::row_inserted(depth, p, db, table, d, rows[n - 1], Some(tx)).0);
    }
}

proof fn lemma_rows_updated_reverts(
    dbs: CatalogV<Map<u64, RowV>>,
    depth: nat,
    s: StateV,
    db: u32,
    table: Seq<char>,
    d: SchemaV,
    rows: Seq<(u64, RowV)>,
    assignments: Seq<AssignmentV>,
    ps: Seq<ValueV>,
    tx: u32,
    n: int,
)
    requires
        revertible(dbs, db, tx, s),
        planned(dbs, db, tx, s, table, rows),
        0 <= n <= rows.len(),
    ensures
        revertible(dbs, db, tx, dml::rows_updated(depth, s, db, table, d, rows, assignments, ps, Some(tx), n).0),
        goes_on(db, tx, s, dml::rows_updated(depth, s, db, table, d, rows, assignments, ps, Some(tx), n).0),
    decreases depth, 5nat, n,
{
    lemma_same_rows(dbs, db, tx, s, s);
    if n > 0 {
        lemma_rows_updated_reverts(dbs, depth, s, db, table, d, rows, assignments, ps, tx, n - 1);
        let (p, e) = dml::rows_updated(depth, s, db, table, d, rows, assignments, ps, Some(tx), n - 1);
        let (id, old_row) = rows[n - 1];
        let new_row = dml::assigned(assignments, old_row, ps, assignments.len() as int).0;
        let upd = TriggerEvent::Update;
        let before = TriggerTiming::Before;
        if e is None && constraint::first_violation(p, db, d, new_row, id) is None {
            lemma_fired_reverts(dbs, depth, p, db, table, upd, before, Some(old_row), Some(new_row), tx);
            let (s2, e2) = triggers::fired(depth, p, db, table, upd, before, Some(old_row), Some(new_row), Some(tx));
            lemma_goes_on(db, tx, s, p, s2);
            if e2 is None {
                lemma_planned(dbs, db, tx, s, s2, table, rows, n - 1);
                lemma_row_rewritten_reverts(dbs, db, tx, s2, table, id, old_row, new_row);
                let s3 = dml::row_rewritten(s2, db, table, id, old_row, new_row, Some(tx));
                assert(row_under(s.dbs, db, table, rows[n - 1].0) is Some);
                lemma_write_goes_on(db, tx, s, s2, s3, table, id);
                let after = TriggerTiming::After;
                lemma_fired_reverts(dbs, depth, s3, db, table, upd, after, Some(old_row), Some(new_row), tx);
                let s4 = triggers::fired(depth, s3, db, table, upd, after, Some(old_row), Some(new_row), Some(tx)).0;
                lemma_goes_on(db, tx, s, s3, s4);
            }
        }
        let t = dml::row_updated(depth, p, db, table, d, id, old_row, assignments, ps, Some(tx)).0;
        if e is None {
            assert(revertible(dbs, db, tx, t) && goes_on(db, tx, s, t));
        }
    }
}

proof fn lemma_rows_deleted_reverts(
    dbs: CatalogV<Map<u64, RowV>>,
    depth: nat,
    s: StateV,
    db: u32,
    table: Seq<char>,
    rows: Seq<(u64, RowV)>,
    tx: u32,
    n: int,
)
    requires
        revertible(dbs, db, tx, s),
        planned(dbs, db, tx, s, table, rows),
        0 <= n <= rows.len(),
    ensures
        revertible(dbs, db, tx, dml::rows_deleted(depth, s, db, table, rows, Some(tx), n).0),
        goes_on(db, tx, s, dml::rows_deleted(depth, s, db, table, rows, Some(tx), n).0),
    decreases depth, 5nat, n,
{
    lemma_same_rows(dbs, db, tx, s, s);
    if n > 0 {
        lemma_rows_deleted_reverts(dbs, depth, s, db, table, rows, tx, n - 1);
        let (p, e) = dml::rows_deleted(depth, s, db, table, rows, Some(tx), n - 1);
        let (id, row) = rows[n - 1];
        let del = TriggerEvent::Delete;
        let before = TriggerTiming::Before;
        if e is None {
            lemma_fired_reverts(dbs, depth, p, db, table, del, before, Some(row), None, tx);
            let (s2, e2) = triggers::fired(depth, p, db, table, del, before, Some(row), None, Some(tx));
            lemma_goes_on(db, tx, s, p, s2);
            if e2 is None {
                lemma_planned(dbs, db, tx, s, s2, table, rows, n - 1);
                lemma_row_erased_reverts(dbs, db, tx, s2, table, id, row);
                let s3 = dml::row_erased(s2, db, table, id, row, Some(tx));
                assert(row_under(s.dbs, db, table, rows[n - 1].0) is Some);
                lemma_write_goes_on(db, tx, s, s2, s3, table, id);
                let after = TriggerTiming::After;
                lemma_fired_reverts(dbs, depth, s3, db, table, del, after, Some(row), None, tx);
                let s4 = triggers::fired(depth, s3, db, table, del, after, Some(row), None, Some(tx)).0;
                lemma_goes_on(db, tx, s, s3, s4);
            }
            let t = dml::row_deleted(depth, p, db, table, id, row, Some(tx)).0;
            assert(revertible(dbs, db, tx, t) && goes_on(db, tx, s, t));
        }
    }
}

proof fn lemma_indexes_removed_fields(s: StateV, db: u32, names: Seq<Seq<char>>, if_exists: bool, n: int)
    ensures
        ({
            let t = ddl::indexes_removed(s, db, names, if_exists, n).0;
            t == (StateV { schemas: t.schemas, indexes: t.indexes, ..s })
        }),
    decreases n,
{
    if n > 0 && n <= names.len() {
        lemma_indexes_removed_fields(s, db, names, if_exists, n - 1);
    }
}

proof fn lemma_views_dropped_fields(s: StateV, db: u32, names: Seq<Seq<char>>, if_exists: bool, n: int)
    ensures
        ({
            let t = ddl::views_dropped(s, db, names, if_exists, n).0;
            t == (StateV { views: t.views, ..s })
        }),
    decreases n,
{
    if n > 0 && n <= names.len() {
        lemma_views_dropped_fields(s, db, names, if_exists, n - 1);
    }
}

/// A statement of a transaction, and whatever triggers it fires, keep the transaction
/// revertible: after it, too, a rollback gets back to the rows of `dbs`. Statements that
/// create, alter or drop tables are left out: a rollback does not undo them.
pub proof fn lemma_ran_reverts(
    dbs: CatalogV<Map<u64, RowV>>,
    depth: nat,
    s: StateV,
    db: u32,
    stmt: StatementV,
    ps: Seq<ValueV>,
    tx: u32,
)
    requires
        revertible(dbs, db, tx, s),
        keeps_tables(stmt),
    ensures
        revertible(dbs, db, tx, sql::ran(depth, s, db, stmt, ps, Some(tx)).0),
        goes_on(db, tx, s, sql::ran(depth, s, db, stmt, ps, Some(tx)).0),
    decreases depth, 7nat, 0int,
{
    lemma_same_rows(dbs, db, tx, s, s);
    match stmt {
        StatementV::Insert { table, columns, source } => {
            match state::table_schema(s, db, table) {
                Some(d) => match dml::candidate_rows(s, db, dml::insert_columns(d, columns), source, ps) {
                    Ok(rows) => lemma_rows_inserted_reverts(dbs, depth, s, db, table, d, rows, tx, rows.len() as int),
                    Err(_) => {},
                },
                None => {},
            }
            let t = dml::inserted(depth, s, db, table, columns, source, ps, Some(tx)).0;
            assert(revertible(dbs, db, tx, t) && goes_on(db, tx, s, t));
        },
        StatementV::Update { table, assignments, selection } => {
            match (state::table_rows(s, db, table), state::table_schema(s, db, table)) {
                (Some(m), Some(d)) => {
                    let start = dml::set_placeholders(assignments, assignments.len() as int);
                    let rows = dml::matching(s, db, m, selection, ps, start);
                    lemma_matching_planned(dbs, db, tx, s, table, m, selection, ps, start);
                    lemma_rows_updated_reverts(
                        dbs,
                        depth,
                        s,
                        db,
                        table,
                        d,
                        rows,
                        assignments,
                        ps,
                        tx,
                        rows.len() as int,
                    );
                },
                _ => {},
            }
            let t = dml::updated(depth, s, db, table, assignments, selection, ps, Some(tx)).0;
            assert(revertible(dbs, db, tx, t) && goes_on(db, tx, s, t));
        },
        StatementV::Delete { table, selection } => {
            match table {
                Some(tb) => match state::table_rows(s, db, tb) {
                    Some(m) => {
                        let rows = dml::matching(s, db, m, selection, ps, 0);
                        lemma_matching_planned(dbs, db, tx, s, tb, m, selection, ps, 0);
                        lemma_rows_deleted_reverts(dbs, depth, s, db, tb, rows, tx, rows.len() as int);
                    },
                    None => {},
                },
                None => {},
            }
            let t = dml::deleted(depth, s, db, table, selection, ps, Some(tx)).0;
            assert(revertible(dbs, db, tx, t) && goes_on(db, tx, s, t));
        },
        StatementV::CreateIndex { name, table, columns, unique, if_not_exists } => {
            lemma_same_rows(
                dbs,
                db,
                tx,
                s,
                ddl::index_created(s, db, name, table, columns, unique, if_not_exists).0,
            );
        },
        StatementV::CreateView { name, query } => {
            lemma_same_rows(dbs, db, tx, s, view::view_created(s, db, name, query).0);
        },
        StatementV::Drop { object, if_exists, names } => {
            let n = names.len() as int;
            lemma_indexes_removed_fields(s, db, names, if_exists, n);
            lemma_views_dropped_fields(s, db, names, if_exists, n);
            lemma_same_rows(dbs, db, tx, s, ddl::indexes_removed(s, db, names, if_exists, n).0);
            lemma_same_rows(dbs, db, tx, s, ddl::views_dropped(s, db, names, if_exists, n).0);
        },
        _ => {},
    }
}

/// A transaction that has just begun is revertible to the rows as they are.
pub proof fn lemma_begun_reverts(s: StateV, db: u32)
    requires
        ids_behind(s, db),
        plain_triggers(s, db),
    ensures
        revertible(s.dbs, db, s.txns.next_id, StateV { txns: transaction::begun(s.txns, db), ..s }),
{
    let tx = s.txns.next_id;
    let t = StateV { txns: transaction::begun(s.txns, db), ..s };
    assert forall|table: Seq<char>, id: u64|
        (match #[trigger] noted(t, tx, table, id) {
            Some(v) => row_under(s.dbs, db, table, id) == v,
            None => row_under(t.dbs, db, table, id) == row_under(s.dbs, db, table, id),
        }) by {
        assert(journal_of(t, tx).len() == 0);
    }
    assert forall|table: Seq<char>, id: u64| #[trigger] row_under(t.dbs, db, table, id) is Some implies id < state::next_rowid(
        t,
        db,
        table,
    ) by {
        assert(row_under(s.dbs, db, table, id) is Some);
        assert(state::next_rowid(t, db, table) == state::next_rowid(s, db, table));
    }
    assert forall|table: Seq<char>| #[trigger] state::next_rowid(t, db, table) >= 1 by {
        assert(state::next_rowid(s, db, table) >= 1);
    }
    assert forall|table: Seq<char>, i: int| 0 <= i < state::triggers_of(t, db, table).len() implies plain_trigger(
        #[trigger] state::triggers_of(t, db, table)[i],
    ) by {
        assert(state::triggers_of(t, db, table)[i] == state::triggers_of(s, db, table)[i]);
    }
}

/// One undone change sets its row to what the journal says, and no other.
proof fn lemma_undone_value(s: StateV, db: u32, op: UndoV, db2: u32, table: Seq<char>)
    ensures
        (catalog::find(transaction::undone(s, db, op).dbs, db2, table) is Some) == (catalog::find(s.dbs, db2, table) is Some),
        db2 != db ==> catalog::find(transaction::undone(s, db, op).dbs, db2, table) == catalog::find(s.dbs, db2, table),
        forall|id: u64| #[trigger]
            row_under(transaction::undone(s, db, op).dbs, db, table, id) == (if undo_table(op) == table && undo_rowid(op) == id && catalog::find(
                s.dbs,
                db,
                table,
            ) is Some {
                undo_value(op)
            } else {
                row_under(s.dbs, db, table, id)
            }),
{
    let t = transaction::undone(s, db, op);
    let ot = undo_table(op);
    let oi = undo_rowid(op);
    match catalog::find(s.dbs, db, ot) {
        Some(m) => {
            let m2 = match undo_value(op) {
                Some(row) => m.insert(oi, row),
                None => m.remove(oi),
            };
            lemma_value_changed(s.dbs, db, ot, m2, db2, table);
            lemma_value_changed(s.dbs, db, ot, m2, db, table);
            match op {
                UndoV::Insert { table: tb, rowid } => {
                    if m.contains_key(rowid) {
                        let a = state::row_dropped(s, db, tb, rowid);
                        let b = index::indexed(a, db, tb, m[rowid], rowid, IndexOpV::Delete);
                        index::lemma_indexed_fields(a, db, tb, m[rowid], rowid, IndexOpV::Delete);
                        dml::lemma_synced_fields(b, db, tb, rowid, m[rowid], true);
                        assert(t.dbs == catalog::changed(s.dbs, db, ot, m2));
                    }
                },
                UndoV::Delete { table: tb, rowid, row } => {
                    let a = state::row_stored(s, db, tb, rowid, row);
                    let b = index::indexed(a, db, tb, row, rowid, IndexOpV::Insert);
                    index::lemma_indexed_fields(a, db, tb, row, rowid, IndexOpV::Insert);
                    dml::lemma_synced_fields(b, db, tb, rowid, row, false);
                    assert(t.dbs == catalog::changed(s.dbs, db, ot, m2));
                },
                UndoV::Update { table: tb, rowid, old_row } => {
                    let a = state::row_stored(s, db, tb, rowid, old_row);
                    let was = if m.contains_key(rowid) {
                        m[rowid]
                    } else {
                        Seq::empty()
                    };
                    let o = IndexOpV::Update { old_row: was };
                    let b = index::indexed(a, db, tb, old_row, rowid, o);
                    let c = dml::fts_synced(b, db, tb, rowid, was, true);
                    index::lemma_indexed_fields(a, db, tb, old_row, rowid, o);
                    dml::lemma_synced_fields(b, db, tb, rowid, was, true);
                    dml::lemma_synced_fields(c, db, tb, rowid, old_row, false);
                    assert(t.dbs == catalog::changed(s.dbs, db, ot, m2));
                },
            }
        },
        None => {},
    }
}

/// An undone journal sets each row to what its earliest entry says.
proof fn lemma_undone_upto_value(s: StateV, db: u32, ops: Seq<UndoV>, n: int, db2: u32, table: Seq<char>, id: u64)
    requires
        0 <= n <= ops.len(),
    ensures
        ({
            let t = transaction::undone_upto(s, db, ops, n);
            &&& (catalog::find(t.dbs, db2, table) is Some) == (catalog::find(s.dbs, db2, table) is Some)
            &&& db2 != db ==> catalog::find(t.dbs, db2, table) == catalog::find(s.dbs, db2, table)
            &&& catalog::find(s.dbs, db, table) is Some ==> row_under(t.dbs, db, table, id) == (match earliest(ops, n, table, id) {
                Some(v) => v,
                None => row_under(s.dbs, db, table, id),
            })
        }),
    decreases n,
{
    if n > 0 {
        let u = transaction::undone(s, db, ops[n - 1]);
        lemma_undone_value(s, db, ops[n - 1], db2, table);
        lemma_undone_value(s, db, ops[n - 1], db, table);
        lemma_undone_upto_value(u, db, ops, n - 1, db2, table, id);
        assert(row_under(u.dbs, db, table, id) == (if undo_table(ops[n - 1]) == table && undo_rowid(ops[n - 1]) == id
            && catalog::find(s.dbs, db, table) is Some {
            undo_value(ops[n - 1])
        } else {
            row_under(s.dbs, db, table, id)
        }));
    }
}

/// A rollback brings back the rows of every table as they were when the transaction began.
pub proof fn lemma_rollback_restores(
    dbs: CatalogV<Map<u64, RowV>>,
    db: u32,
    tx: u32,
    s: StateV,
    db2: u32,
    table: Seq<char>,
)
    requires
        revertible(dbs, db, tx, s),
    ensures
        catalog::find(transaction::rolled_back(s, tx).dbs, db2, table) == catalog::find(dbs, db2, table),
{
    let e = s.txns.active[tx];
    let a = StateV { txns: transaction::ended(s.txns, tx), ..s };
    let t = transaction::rolled_back(s, tx);
    let n = e.journal.len() as int;
    lemma_undone_upto_value(a, db, e.journal, n, db2, table, 0);
    if db2 == db {
        assert((catalog::find(s.dbs, db, table) is Some) == (catalog::find(dbs, db, table) is Some));
        match (catalog::find(t.dbs, db, table), catalog::find(dbs, db, table)) {
            (Some(m), Some(w)) => {
                assert forall|id: u64| (m.contains_key(id) == w.contains_key(id)) && (m.contains_key(id) ==> m[id]
                    == #[trigger] w[id]) by {
                    lemma_undone_upto_value(a, db, e.journal, n, db, table, id);
                    assert(noted(s, tx, table, id) == earliest(e.journal, n, table, id));
                    assert(row_under(t.dbs, db, table, id) == row_under(dbs, db, table, id));
                }
                assert(m.dom() =~= w.dom()) by {
                    assert forall|id: u64| m.dom().contains(id) == w.dom().contains(id) by {
                        let _ = w[id];
                    }
                }
                assert(m =~= w);
            },
            _ => {},
        }
    } else {
        assert(catalog::find(s.dbs, db2, table) == catalog::find(dbs, db2, table));
    }
}

/// A write outside of a transaction that fails leaves the rows of every table as they were.
pub proof fn lemma_failed_write_changes_nothing(
    s: StateV,
    db: u32,
    stmt: StatementV,
    ps: Seq<ValueV>,
    db2: u32,
    table: Seq<char>,
)
    requires
        ids_behind(s, db),
        plain_triggers(s, db),
        sql::is_write(stmt),
        sql::executed_statement(s, db, stmt, ps, None).1 is Err,
    ensures
        catalog::find(sql::executed_statement(s, db, stmt, ps, None).0.dbs, db2, table) == catalog::find(s.dbs, db2, table),
{
    let tx = s.txns.next_id;
    let b = StateV { txns: transaction::begun(s.txns, db), ..s };
    lemma_begun_reverts(s, db);
    lemma_ran_reverts(s.dbs, u64::MAX as nat, b, db, stmt, ps, tx);
    let t = sql::ran(u64::MAX as nat, b, db, stmt, ps, Some(tx)).0;
    lemma_rollback_restores(s.dbs, db, tx, t, db2, table);
}

/// A commit keeps the rows that were written, and so does the end of a write that succeeds
/// outside of a transaction.
pub proof fn lemma_commit_keeps_rows(s: StateV, db: u32, stmt: StatementV, ps: Seq<ValueV>, tx: Option<u32>)
    ensures
        sql::executed_statement(s, db, StatementV::Commit, ps, tx).0.dbs == s.dbs,
        sql::is_write(stmt) && sql::executed_statement(s, db, stmt, ps, None).1 is Ok ==> sql::executed_statement(
            s,
            db,
            stmt,
            ps,
            None,
        ).0.dbs == sql::ran(
            u64::MAX as nat,
            StateV { txns: transaction::begun(s.txns, db), ..s },
            db,
            stmt,
            ps,
            Some(s.txns.next_id),
        ).0.dbs,
{
}

/// The first `n` statements of a list, run one after the other in a transaction, whether they
/// fail or not.
pub open spec fn all_run(s: StateV, db: u32, stmts: Seq<StatementV>, pss: Seq<Seq<ValueV>>, tx: u32, n: int) -> StateV
    decreases n,
{
    if n <= 0 || n > stmts.len() {
        s
    } else {
        sql::executed_statement(all_run(s, db, stmts, pss, tx, n - 1), db, stmts[n - 1], pss[n - 1], Some(tx)).0
    }
}

/// Whether a statement is one that belongs into a transaction that can be rolled back: it
/// neither starts nor ends one, and leaves the tables as such alone.
pub open spec fn goes_into(stmt: StatementV) -> bool {
    keeps_tables(stmt) && stmt != StatementV::StartTransaction && stmt != StatementV::Commit && stmt
        != StatementV::Rollback
}

proof fn lemma_all_run_reverts(
    dbs: CatalogV<Map<u64, RowV>>,
    s: StateV,
    db: u32,
    stmts: Seq<StatementV>,
    pss: Seq<Seq<ValueV>>,
    tx: u32,
    n: int,
)
    requires
        revertible(dbs, db, tx, s),
        forall|i: int| 0 <= i < stmts.len() ==> goes_into(#[trigger] stmts[i]),
        0 <= n <= stmts.len(),
    ensures
        revertible(dbs, db, tx, all_run(s, db, stmts, pss, tx, n)),
    decreases n,
{
    if n > 0 {
        lemma_all_run_reverts(dbs, s, db, stmts, pss, tx, n - 1);
        let p = all_run(s, db, stmts, pss, tx, n - 1);
        assert(goes_into(stmts[n - 1]));
        lemma_ran_reverts(dbs, u64::MAX as nat, p, db, stmts[n - 1], pss[n - 1], tx);
    }
}

/// To undo changes leaves the transactions as they are.
proof fn lemma_undone_txns(s: StateV, db: u32, ops: Seq<UndoV>, n: int)
    ensures
        transaction::undone_upto(s, db, ops, n).txns == s.txns,
    decreases n,
{
    if n > 0 && n <= ops.len() {
        lemma_undone_one_txns(s, db, ops[n - 1]);
        lemma_undone_txns(transaction::undone(s, db, ops[n - 1]), db, ops, n - 1);
    }
}

proof fn lemma_undone_one_txns(s: StateV, db: u32, op: UndoV)
    ensures
        transaction::undone(s, db, op).txns == s.txns,
{
    let table = undo_table(op);
    let id = undo_rowid(op);
    match state::table_rows(s, db, table) {
        Some(m) => match op {
            UndoV::Insert { table: t, rowid } => {
                index::lemma_indexed_fields(state::row_dropped(s, db, table, id), db, table, m[id], id, IndexOpV::Delete);
            },
            UndoV::Delete { table: t, rowid, row } => {
                index::lemma_indexed_fields(state::row_stored(s, db, table, id, row), db, table, row, id, IndexOpV::Insert);
            },
            UndoV::Update { table: t, rowid, old_row } => {
                let a = state::row_stored(s, db, table, id, old_row);
                index::lemma_indexed_fields(a, db, table, old_row, id, IndexOpV::Update { old_row: m[id] });
                index::lemma_indexed_fields(a, db, table, old_row, id, IndexOpV::Update { old_row: Seq::empty() });
            },
        },
        None => {},
    }
}

/// BEGIN, any statements, ROLLBACK: the rows of every table are what they were, the rollback
/// succeeds, and the transaction is no longer under way. Statements that create, alter or drop tables are left out: a rollback does not
/// undo them.
pub proof fn lemma_transaction_undone(
    s: StateV,
    db: u32,
    stmts: Seq<StatementV>,
    pss: Seq<Seq<ValueV>>,
    db2: u32,
    table: Seq<char>,
)
    requires
        ids_behind(s, db),
        plain_triggers(s, db),
        forall|i: int| 0 <= i < stmts.len() ==> goes_into(#[trigger] stmts[i]),
    ensures
        ({
            let tx = s.txns.next_id;
            let (a, r) = sql::executed_statement(s, db, StatementV::StartTransaction, Seq::empty(), None);
            let b = all_run(a, db, stmts, pss, tx, stmts.len() as int);
            let (c, q) = sql::executed_statement(b, db, StatementV::Rollback, Seq::empty(), Some(tx));
            &&& r == Ok::<ResultV, ErrorV>(sql::began_result(tx))
            &&& q == Ok::<ResultV, ErrorV>(sql::no_result())
            &&& c == transaction::rolled_back(b, tx)
            &&& !c.txns.active.contains_key(tx)
            &&& catalog::find(c.dbs, db2, table) == catalog::find(s.dbs, db2, table)
        }),
{
    let tx = s.txns.next_id;
    let a = StateV { txns: transaction::begun(s.txns, db), ..s };
    let b = all_run(a, db, stmts, pss, tx, stmts.len() as int);
    lemma_begun_reverts(s, db);
    lemma_all_run_reverts(s.dbs, a, db, stmts, pss, tx, stmts.len() as int);
    lemma_rollback_restores(s.dbs, db, tx, b, db2, table);
    let e = b.txns.active[tx];
    lemma_undone_txns(StateV { txns: transaction::ended(b.txns, tx), ..b }, e.db, e.journal, e.journal.len() as int);
}

/// Whether ids are given out to rows soundly, in directories without doubled names.
pub open spec fn sound_ids(s: StateV, db: u32) -> bool {
    &&& ids_behind(s, db)
    &&& assoc::assoc_distinct(s.dbs.items)
    &&& assoc::assoc_distinct(s.generators.items)
    &&& assoc::assoc_distinct(s.schemas.items)
}

/// Whether every table that is defined in a database has a place for its rows and gives out ids.
pub open spec fn stored(s: StateV, db: u32) -> bool {
    forall|name: Seq<char>| #[trigger]
        state::table_schema(s, db, name) is Some ==> catalog::find(s.dbs, db, name) is Some && catalog::find(s.generators, db, name) is Some
}

proof fn lemma_same_ids(s: StateV, t: StateV, db: u32)
    requires
        ids_behind(s, db),
        forall|table: Seq<char>, id: u64| #[trigger]
            row_under(t.dbs, db, table, id) is Some ==> row_under(s.dbs, db, table, id) is Some,
        forall|table: Seq<char>| #[trigger] state::next_rowid(t, db, table) >= state::next_rowid(s, db, table),
    ensures
        ids_behind(t, db),
{
    assert forall|table: Seq<char>, id: u64| #[trigger] row_under(t.dbs, db, table, id) is Some implies id < state::next_rowid(
        t,
        db,
        table,
    ) by {
        assert(row_under(s.dbs, db, table, id) is Some);
        assert(state::next_rowid(t, db, table) >= state::next_rowid(s, db, table));
    }
}

proof fn lemma_table_added_ids(s: StateV, db: u32, d: SchemaV)
    requires
        ids_behind(s, db),
    ensures
        ids_behind(ddl::table_added(s, db, d), db),
{
    let t = ddl::table_added(s, db, d);
    let k = (db, d.name);
    assoc::lemma_get_put(s.dbs.items, k, Map::<u64, RowV>::empty());
    assoc::lemma_get_put(s.generators.items, k, 1);
    assert forall|table: Seq<char>| #[trigger] state::next_rowid(t, db, table) >= 1 && (table != d.name ==> state::next_rowid(
        t,
        db,
        table,
    ) == state::next_rowid(s, db, table)) by {
        if table != d.name {
            assoc::lemma_get_put_other(s.generators.items, k, 1, (db, table));
            assert(state::next_rowid(s, db, table) >= 1);
        }
    }
    assert forall|table: Seq<char>, id: u64| #[trigger] row_under(t.dbs, db, table, id) is Some implies id < state::next_rowid(
        t,
        db,
        table,
    ) by {
        if table != d.name {
            assoc::lemma_get_put_other(s.dbs.items, k, Map::<u64, RowV>::empty(), (db, table));
            assert(row_under(s.dbs, db, table, id) is Some);
        }
        assert(state::next_rowid(t, db, table) >= 1);
    }
}

proof fn lemma_table_removed_ids(s: StateV, db: u32, name: Seq<char>)
    requires
        sound_ids(s, db),
    ensures
        sound_ids(ddl::table_removed(s, db, name), db),
{
    let t = ddl::table_removed(s, db, name);
    let k = (db, name);
    assoc::lemma_remove_distinct(s.schemas.items, k);
    assoc::lemma_remove_distinct(s.dbs.items, k);
    assoc::lemma_remove_distinct(s.generators.items, k);
    assoc::lemma_get_remove(s.dbs.items, k);
    assoc::lemma_get_remove(s.generators.items, k);
    assert forall|table: Seq<char>| #[trigger] state::next_rowid(t, db, table) >= 1 && (table != name ==> state::next_rowid(t, db, table)
        == state::next_rowid(s, db, table)) by {
        if table != name {
            assoc::lemma_get_remove_other(s.generators.items, k, (db, table));
            assert(state::next_rowid(s, db, table) >= 1);
        }
    }
    assert forall|table: Seq<char>, id: u64| #[trigger] row_under(t.dbs, db, table, id) is Some implies id < state::next_rowid(
        t,
        db,
        table,
    ) by {
        if table != name {
            assoc::lemma_get_remove_other(s.dbs.items, k, (db, table));
            assert(row_under(s.dbs, db, table, id) is Some);
        }
        assert(state::next_rowid(t, db, table) >= 1);
    }
}

proof fn lemma_tables_dropped_ids(s: StateV, db: u32, names: Seq<Seq<char>>, if_exists: bool, n: int)
    requires
        sound_ids(s, db),
    ensures
        sound_ids(ddl::tables_dropped(s, db, names, if_exists, n).0, db),
    decreases n,
{
    if n > 0 && n <= names.len() {
        lemma_tables_dropped_ids(s, db, names, if_exists, n - 1);
        let (p, e) = ddl::tables_dropped(s, db, names, if_exists, n - 1);
        lemma_table_removed_ids(p, db, names[n - 1]);
        let q = StateV { schemas: catalog::knowing(p.schemas, db), ..p };
        assert forall|table: Seq<char>| #[trigger] state::next_rowid(q, db, table) >= state::next_rowid(p, db, table) by {}
        lemma_same_ids(p, q, db);
    }
}

proof fn lemma_rebuilt_ids(s: StateV, db: u32, table: Seq<char>, indices: Seq<IndexV>, n: int)
    ensures
        ddl::indexes_rebuilt(s, db, table, indices, n).schemas == s.schemas,
        ddl::indexes_dropped(s, db, table, indices, n).schemas == s.schemas,
        ddl::indexes_rebuilt(s, db, table, indices, n).dbs == s.dbs,
        ddl::indexes_rebuilt(s, db, table, indices, n).generators == s.generators,
        ddl::indexes_dropped(s, db, table, indices, n).dbs == s.dbs,
        ddl::indexes_dropped(s, db, table, indices, n).generators == s.generators,
    decreases n,
{
    if n > 0 && n <= indices.len() {
        lemma_rebuilt_ids(s, db, table, indices, n - 1);
    }
}

proof fn lemma_reshaped_ids(s: StateV, db: u32, table: Seq<char>, d: SchemaV, c: RowChangeV)
    requires
        sound_ids(s, db),
        stored(s, db),
        state::table_schema(s, db, table) is Some,
    ensures
        sound_ids(ddl::reshaped(s, db, table, d, c), db),
        stored(ddl::reshaped(s, db, table, d, c), db),
{
    let t = ddl::reshaped(s, db, table, d, c);
    assoc::lemma_put_distinct(s.schemas.items, (db, table), d);
    let a = ddl::table_changed(s, db, table, c);
    lemma_rebuilt_ids(
        StateV { schemas: catalog::with(a.schemas, db, table, d), ..a },
        db,
        table,
        d.indices,
        d.indices.len() as int,
    );
    match state::table_rows(s, db, table) {
        Some(m) => {
            assoc::lemma_put_distinct(s.dbs.items, (db, table), ddl::rows_changed(m, c));
            assert forall|tb: Seq<char>, id: u64| #[trigger] row_under(t.dbs, db, tb, id) is Some implies row_under(
                s.dbs,
                db,
                tb,
                id,
            ) is Some by {
                lemma_value_changed(s.dbs, db, table, ddl::rows_changed(m, c), db, tb);
            }
        },
        None => {},
    }
    assert forall|tb: Seq<char>| #[trigger] state::next_rowid(t, db, tb) >= state::next_rowid(s, db, tb) by {}
    lemma_same_ids(s, t, db);
    assert forall|name: Seq<char>| #[trigger] state::table_schema(t, db, name) is Some implies catalog::find(t.dbs, db, name) is Some
        && catalog::find(t.generators, db, name) is Some by {
        if name != table {
            assoc::lemma_get_put_other(s.schemas.items, (db, table), d, (db, name));
        }
        assert(state::table_schema(s, db, name) is Some);
        match state::table_rows(s, db, table) {
            Some(m) => lemma_value_changed(s.dbs, db, table, ddl::rows_changed(m, c), db, name),
            None => {},
        }
    }
}

proof fn lemma_moved_find<T>(c: CatalogV<T>, db: u32, from: Seq<char>, to: Seq<char>, name: Seq<char>)
    requires
        assoc::assoc_distinct(c.items),
    ensures
        assoc::assoc_distinct(ddl::moved(c, db, from, to).items),
        catalog::find(ddl::moved(c, db, from, to), db, name) == (match catalog::find(c, db, from) {
            Some(v) => if name == to {
                Some(v)
            } else if name == from {
                None
            } else {
                catalog::find(c, db, name)
            },
            None => catalog::find(c, db, name),
        }),
{
    match catalog::find(c, db, from) {
        Some(v) => {
            let r = assoc::assoc_remove(c.items, (db, from));
            assoc::lemma_remove_distinct(c.items, (db, from));
            assoc::lemma_put_distinct(r, (db, to), v);
            assoc::lemma_get_put(r, (db, to), v);
            assoc::lemma_get_remove(c.items, (db, from));
            if name != to {
                assoc::lemma_get_put_other(r, (db, to), v, (db, name));
                if name != from {
                    assoc::lemma_get_remove_other(c.items, (db, from), (db, name));
                }
            }
        },
        None => {},
    }
}

proof fn lemma_table_renamed_ids(s: StateV, db: u32, table: Seq<char>, d: SchemaV, to: Seq<char>)
    requires
        sound_ids(s, db),
        stored(s, db),
        state::table_schema(s, db, table) == Some(d),
    ensures
        sound_ids(ddl::table_renamed(s, db, table, d, to), db),
        stored(ddl::table_renamed(s, db, table, d, to), db),
{
    let u = ddl::table_renamed(s, db, table, d, to);
    let t = StateV {
        schemas: catalog::with(catalog::without(s.schemas, db, table), db, to, SchemaV { name: to, ..d }),
        dbs: ddl::moved(s.dbs, db, table, to),
        generators: ddl::moved(s.generators, db, table, to),
        ..s
    };
    let n = d.indices.len() as int;
    lemma_rebuilt_ids(t, db, table, d.indices, n);
    lemma_rebuilt_ids(ddl::indexes_dropped(t, db, table, d.indices, n), db, to, d.indices, n);
    let w = assoc::assoc_remove(s.schemas.items, (db, table));
    assoc::lemma_remove_distinct(s.schemas.items, (db, table));
    assoc::lemma_put_distinct(w, (db, to), SchemaV { name: to, ..d });
    assert(state::table_schema(s, db, table) is Some);
    assert forall|name: Seq<char>| #[trigger] state::table_schema(u, db, name) is Some implies catalog::find(u.dbs, db, name) is Some
        && catalog::find(u.generators, db, name) is Some by {
        lemma_moved_find(s.dbs, db, table, to, name);
        lemma_moved_find(s.generators, db, table, to, name);
        if name != to {
            assoc::lemma_get_put_other(w, (db, to), SchemaV { name: to, ..d }, (db, name));
            assoc::lemma_get_remove(s.schemas.items, (db, table));
            if name != table {
                assoc::lemma_get_remove_other(s.schemas.items, (db, table), (db, name));
                assert(state::table_schema(s, db, name) is Some);
            }
        }
    }
    lemma_moved_find(s.dbs, db, table, to, table);
    lemma_moved_find(s.generators, db, table, to, table);
    assert forall|tb: Seq<char>| #[trigger] state::next_rowid(u, db, tb) >= 1 by {
        lemma_moved_find(s.generators, db, table, to, tb);
        assert(state::next_rowid(s, db, tb) >= 1);
        assert(state::next_rowid(s, db, table) >= 1);
    }
    assert forall|tb: Seq<char>, id: u64| #[trigger] row_under(u.dbs, db, tb, id) is Some implies id < state::next_rowid(
        u,
        db,
        tb,
    ) by {
        lemma_moved_find(s.generators, db, table, to, tb);
        lemma_moved_find(s.dbs, db, table, to, tb);
        assert(row_under(s.dbs, db, tb, id) is Some || row_under(s.dbs, db, table, id) is Some);
        assert(row_under(s.dbs, db, tb, id) is Some ==> id < state::next_rowid(s, db, tb));
        assert(row_under(s.dbs, db, table, id) is Some ==> id < state::next_rowid(s, db, table));
    }
}

proof fn lemma_alter_step_ids(p: StateV, db: u32, name: Seq<char>, op: AlterTableOperationV)
    requires
        sound_ids(p, db),
        stored(p, db),
    ensures
        sound_ids(ddl::alter_step(p, db, name, op).0, db),
        stored(ddl::alter_step(p, db, name, op).0, db),
{
    match state::table_schema(p, db, name) {
        Some(d) => match op {
            AlterTableOperationV::AddColumn(c) => {
                let x = ddl::column_of(c);
                let v = match x.default {
                    Some(v) => v,
                    None => ValueV::Null,
                };
                lemma_reshaped_ids(
                    p,
                    db,
                    name,
                    SchemaV { columns: assoc::assoc_put(d.columns, x.name, x), ..d },
                    RowChangeV::Put(x.name, v),
                );
            },
            AlterTableOperationV::DropColumn { column, if_exists } => {
                let rowid_column = if d.rowid_column == Some(column) {
                    None
                } else {
                    d.rowid_column
                };
                lemma_reshaped_ids(
                    p,
                    db,
                    name,
                    SchemaV { columns: assoc::assoc_remove(d.columns, column), rowid_column, ..d },
                    RowChangeV::Take(column),
                );
            },
            AlterTableOperationV::RenameColumn { old_name, new_name } => match assoc::assoc_get(d.columns, old_name) {
                Some(c) => {
                    let rest = assoc::assoc_remove(d.columns, old_name);
                    let place = assoc::assoc_place(d.columns, old_name);
                    let rowid_column = if d.rowid_column == Some(old_name) {
                        Some(new_name)
                    } else {
                        d.rowid_column
                    };
                    lemma_reshaped_ids(
                        p,
                        db,
                        name,
                        SchemaV {
                            columns: assoc::assoc_remove(rest, new_name).insert(
                                place,
                                (new_name, ColumnV { name: new_name, ..c }),
                            ),
                            rowid_column,
                            ..d
                        },
                        RowChangeV::Rename(old_name, new_name),
                    );
                },
                None => {},
            },
            AlterTableOperationV::RenameTable(to) => lemma_table_renamed_ids(p, db, name, d, to),
            AlterTableOperationV::Other(_) => {},
        },
        None => {},
    }
}

proof fn lemma_altered_ids(s: StateV, db: u32, table: Seq<char>, ops: Seq<AlterTableOperationV>, n: int)
    requires
        sound_ids(s, db),
        stored(s, db),
    ensures
        sound_ids(ddl::altered(s, db, table, ops, n).0, db),
        stored(ddl::altered(s, db, table, ops, n).0, db),
    decreases n,
{
    if n > 0 && n <= ops.len() {
        lemma_altered_ids(s, db, table, ops, n - 1);
        let (p, name, e) = ddl::altered(s, db, table, ops, n - 1);
        lemma_alter_step_ids(p, db, name, ops[n - 1]);
    }
}

/// Ids are never given out twice: whatever statement is run outside of a transaction, every row
/// has an id behind which the next are given out.
pub proof fn lemma_ids_stay_behind(s: StateV, db: u32, stmt: StatementV, ps: Seq<ValueV>)
    requires
        apart::single_names(s),
        stored(s, db),
        ids_behind(s, db),
        plain_triggers(s, db),
    ensures
        ids_behind(sql::executed_statement(s, db, stmt, ps, None).0, db),
{
    let tx = s.txns.next_id;
    let b = StateV { txns: transaction::begun(s.txns, db), ..s };
    lemma_begun_reverts(s, db);
    if sql::is_write(stmt) {
        lemma_ran_reverts(s.dbs, u64::MAX as nat, b, db, stmt, ps, tx);
        let t = sql::ran(u64::MAX as nat, b, db, stmt, ps, Some(tx)).0;
        let c = sql::committed(t, tx);
        assert forall|table: Seq<char>| #[trigger] state::next_rowid(c, db, table) >= state::next_rowid(t, db, table) by {}
        lemma_same_ids(t, c, db);
        let r = transaction::rolled_back(t, tx);
        let j = t.txns.active[tx].journal;
        lemma_undone_upto_ids(c, db, j, j.len() as int);
        assert forall|table: Seq<char>| #[trigger] state::next_rowid(r, db, table) >= state::next_rowid(s, db, table) by {
            assert(state::next_rowid(b, db, table) <= state::next_rowid(t, db, table));
        }
        assert forall|table: Seq<char>, id: u64| #[trigger] row_under(r.dbs, db, table, id) is Some implies row_under(
            s.dbs,
            db,
            table,
            id,
        ) is Some by {
            lemma_rollback_restores(s.dbs, db, tx, t, db, table);
        }
        lemma_same_ids(s, r, db);
    } else if keeps_tables(stmt) {
        lemma_kept_tables_ids(s, db, stmt, ps);
    } else {
        match stmt {
            StatementV::CreateTable { name, columns, constraints, if_not_exists } => {
                lemma_table_added_ids(s, db, ddl::schema_of(name, columns, constraints));
            },
            StatementV::CreateVirtualTable { name, if_not_exists, module_name, module_args } => {
                let a = ddl::table_added(s, db, ddl::fts_schema(name, module_args));
                lemma_table_added_ids(s, db, ddl::fts_schema(name, module_args));
                let t = ddl::fts_created(s, db, name, if_not_exists, module_name, module_args).0;
                if t != s {
                    assert forall|table: Seq<char>| #[trigger] state::next_rowid(t, db, table) >= state::next_rowid(a, db, table) by {}
                    lemma_same_ids(a, t, db);
                }
            },
            StatementV::AlterTable { name, if_exists, operations } => {
                lemma_altered_ids(s, db, name, operations, operations.len() as int);
            },
            StatementV::Drop { object, if_exists, names } => {
                lemma_tables_dropped_ids(s, db, names, if_exists, names.len() as int);
            },
            _ => {},
        }
    }
}

proof fn lemma_kept_tables_ids(s: StateV, db: u32, stmt: StatementV, ps: Seq<ValueV>)
    requires
        ids_behind(s, db),
        keeps_tables(stmt),
        !sql::is_write(stmt),
    ensures
        ids_behind(sql::executed_statement(s, db, stmt, ps, None).0, db),
{
    let t = sql::executed_statement(s, db, stmt, ps, None).0;
    match stmt {
        StatementV::Drop { object, if_exists, names } => {
            lemma_indexes_removed_fields(s, db, names, if_exists, names.len() as int);
            lemma_views_dropped_fields(s, db, names, if_exists, names.len() as int);
        },
        _ => {},
    }
    assert(t.dbs == s.dbs && t.generators == s.generators);
    assert forall|table: Seq<char>| #[trigger] state::next_rowid(t, db, table) >= state::next_rowid(s, db, table) by {}
    lemma_same_ids(s, t, db);
}

proof fn lemma_undone_upto_ids(s: StateV, db: u32, ops: Seq<UndoV>, n: int)
    ensures
        transaction::undone_upto(s, db, ops, n).generators == s.generators,
    decreases n,
{
    if n > 0 && n <= ops.len() {
        let u = transaction::undone(s, db, ops[n - 1]);
        lemma_undone_upto_ids(u, db, ops, n - 1);
        match ops[n - 1] {
            UndoV::Insert { table, rowid } => match state::table_rows(s, db, table) {
                Some(m) => if m.contains_key(rowid) {
                    let a = state::row_dropped(s, db, table, rowid);
                    index::lemma_indexed_fields(a, db, table, m[rowid], rowid, IndexOpV::Delete);
                },
                None => {},
            },
            UndoV::Delete { table, rowid, row } => {
                index::lemma_indexed_fields(state::row_stored(s, db, table, rowid, row), db, table, row, rowid, IndexOpV::Insert);
            },
            UndoV::Update { table, rowid, old_row } => match state::table_rows(s, db, table) {
                Some(m) => {
                    let a = state::row_stored(s, db, table, rowid, old_row);
                    index::lemma_indexed_fields(a, db, table, old_row, rowid, IndexOpV::Update { old_row: m[rowid] });
                    index::lemma_indexed_fields(a, db, table, old_row, rowid, IndexOpV::Update { old_row: Seq::empty() });
                },
                None => {},
            },
        }
    }
}

/// An empty engine gives out its ids soundly and has no triggers.
pub proof fn lemma_initial_ids(databases: Seq<(u32, Seq<char>)>, limit: usize, dir: Seq<char>, db: u32)
    ensures
        ids_behind(state::initial(databases, limit, dir), db),
        stored(state::initial(databases, limit, dir), db),
        plain_triggers(state::initial(databases, limit, dir), db),
{
    let s = state::initial(databases, limit, dir);
    assert forall|table: Seq<char>, id: u64| #[trigger] row_under(s.dbs, db, table, id) is Some implies id < state::next_rowid(
        s,
        db,
        table,
    ) by {
        assert(catalog::find(s.dbs, db, table) is None);
    }
    assert forall|table: Seq<char>| #[trigger] state::next_rowid(s, db, table) >= 1 by {
        assert(catalog::find(s.generators, db, table) is None);
    }
    assert forall|name: Seq<char>| #[trigger] state::table_schema(s, db, name) is Some implies false by {
        assert(catalog::find(s.schemas, db, name) is None);
    }
    assert forall|table: Seq<char>, i: int| 0 <= i < state::triggers_of(s, db, table).len() implies plain_trigger(
        #[trigger] state::triggers_of(s, db, table)[i],
    ) by {
        assert(catalog::find(s.triggers, db, table) is None);
    }
}

} // verus!

//! What constraints come to: which rows a table takes in, and what holds of any two of its rows.
use vstd::prelude::*;

use crate::assoc;
use crate::ast::{AssignmentV, ColumnSpecV, StatementV, TableConstraintV};
use crate::catalog;
use crate::catalog::CatalogV;
use crate::constraint;
use crate::covering;
use crate::error::ErrorV;
use crate::index;
use crate::index::IndexOpV;
use crate::row::RowV;
use crate::schema;
use crate::schema::{ColumnV, SchemaV, TriggerEvent, TriggerTiming, TriggerV, UniqueV, ValueV};
use crate::sparing;
use crate::sql;
use crate::sql::ddl;
use crate::sql::dml;
use crate::sql::parser;
use crate::state;
use crate::state::StateV;
use crate::transaction::UndoV;
use crate::triggers;

verus! {

/// Whether a row gives a value to every NOT NULL column.
pub open spec fn no_gaps(d: SchemaV, row: RowV) -> bool {
    forall|k: int| 0 <= k < d.columns.len() && (#[trigger] d.columns[k]).1.not_null ==> !constraint::is_missing(row, d.columns[k].0)
}

/// Whether a column is a key by itself.
pub open spec fn is_key(c: ColumnV) -> bool {
    c.unique || c.primary_key
}

/// Whether no other row has a row's value in a column that is a key. Nulls are not values.
pub open spec fn key_free(m: Map<u64, RowV>, column: Seq<char>, row: RowV, rowid: u64) -> bool {
    match assoc::assoc_get(row, column) {
        Some(v) => v != ValueV::Null ==> !constraint::other_has(m, seq![column], seq![v], rowid),
        None => true,
    }
}

/// Whether no other row has a row's values in the columns of a key. A row with a null in them is
/// like no other, and a primary key has none.
pub open spec fn group_free(m: Map<u64, RowV>, g: UniqueV, row: RowV, rowid: u64) -> bool {
    let values = constraint::values_of(row, g.columns);
    if constraint::some_null(values) {
        !g.is_primary
    } else {
        !constraint::other_has(m, g.columns, values, rowid)
    }
}

/// Whether a row may stand under an id in a table: it leaves no NOT NULL column out, no other row
/// has its keys, what it refers to is there, and it passes all checks.
pub open spec fn fits(s: StateV, db: u32, d: SchemaV, m: Map<u64, RowV>, row: RowV, rowid: u64) -> bool {
    &&& no_gaps(d, row)
    &&& forall|k: int|
        0 <= k < d.columns.len() && is_key((#[trigger] d.columns[k]).1) ==> key_free(m, d.columns[k].0, row, rowid)
    &&& forall|k: int| 0 <= k < d.unique_groups.len() ==> group_free(m, #[trigger] d.unique_groups[k], row, rowid)
    &&& forall|k: int| 0 <= k < d.foreign_keys.len() ==> !constraint::breaks_key(s, db, #[trigger] d.foreign_keys[k], row)
    &&& forall|k: int|
        0 <= k < d.columns.len() ==> match (#[trigger] d.columns[k]).1.check_expr {
            Some(sql) => constraint::passes(row, sql),
            None => true,
        }
    &&& forall|k: int| 0 <= k < d.table_checks.len() ==> constraint::passes(row, #[trigger] d.table_checks[k])
}

proof fn lemma_no_gaps(columns: Seq<(Seq<char>, ColumnV)>, row: RowV, k: int)
    requires
        0 <= k <= columns.len(),
    ensures
        (constraint::null_violation(columns, row, k) is None) == (forall|j: int|
            k <= j < columns.len() && (#[trigger] columns[j]).1.not_null ==> !constraint::is_missing(row, columns[j].0)),
    decreases columns.len() - k,
{
    if k < columns.len() {
        lemma_no_gaps(columns, row, k + 1);
        if constraint::null_violation(columns, row, k) is None {
            assert forall|j: int| k <= j < columns.len() && (#[trigger] columns[j]).1.not_null implies !constraint::is_missing(
                row,
                columns[j].0,
            ) by {
                if j > k {
                    assert(k + 1 <= j);
                }
            }
        }
    }
}

proof fn lemma_columns_free(s: StateV, db: u32, d: SchemaV, m: Map<u64, RowV>, row: RowV, rowid: u64, k: int)
    requires
        covering::covered(s),
        state::table_schema(s, db, d.name) == Some(d),
        state::table_rows(s, db, d.name) == Some(m),
        0 <= k <= d.columns.len(),
    ensures
        (constraint::unique_violation(s, db, d, row, rowid, k) is None) == (forall|j: int|
            k <= j < d.columns.len() && is_key((#[trigger] d.columns[j]).1) ==> key_free(m, d.columns[j].0, row, rowid)),
    decreases d.columns.len() - k,
{
    if k < d.columns.len() {
        lemma_columns_free(s, db, d, m, row, rowid, k + 1);
        let (name, c) = d.columns[k];
        match assoc::assoc_get(row, name) {
            Some(v) => covering::lemma_index_finds_duplicates(s, db, d, seq![name], seq![v], rowid),
            None => {},
        }
        assert(constraint::column_taken(s, db, d, name, row, rowid) == !key_free(m, name, row, rowid));
    }
}

proof fn lemma_groups_free(s: StateV, db: u32, d: SchemaV, m: Map<u64, RowV>, row: RowV, rowid: u64, k: int)
    requires
        covering::covered(s),
        state::table_schema(s, db, d.name) == Some(d),
        state::table_rows(s, db, d.name) == Some(m),
        0 <= k <= d.unique_groups.len(),
    ensures
        (constraint::group_violation(s, db, d, row, rowid, k) is None) == (forall|j: int|
            k <= j < d.unique_groups.len() ==> group_free(m, #[trigger] d.unique_groups[j], row, rowid)),
    decreases d.unique_groups.len() - k,
{
    if k < d.unique_groups.len() {
        lemma_groups_free(s, db, d, m, row, rowid, k + 1);
        let g = d.unique_groups[k];
        covering::lemma_index_finds_duplicates(s, db, d, g.columns, constraint::values_of(row, g.columns), rowid);
        assert(constraint::breaks_group(s, db, d, g, row, rowid) == !group_free(m, g, row, rowid));
    }
}

proof fn lemma_keys_kept(s: StateV, db: u32, d: SchemaV, row: RowV, k: int)
    requires
        0 <= k <= d.foreign_keys.len(),
    ensures
        (constraint::key_violation(s, db, d, row, k) is None) == (forall|j: int|
            k <= j < d.foreign_keys.len() ==> !constraint::breaks_key(s, db, #[trigger] d.foreign_keys[j], row)),
    decreases d.foreign_keys.len() - k,
{
    if k < d.foreign_keys.len() {
        lemma_keys_kept(s, db, d, row, k + 1);
    }
}

proof fn lemma_checks_pass(d: SchemaV, row: RowV, k: int)
    requires
        0 <= k <= d.columns.len(),
    ensures
        (constraint::check_violation(d, row, k) is None) == (forall|j: int|
            k <= j < d.columns.len() ==> match (#[trigger] d.columns[j]).1.check_expr {
                Some(sql) => constraint::passes(row, sql),
                None => true,
            }),
    decreases d.columns.len() - k,
{
    if k < d.columns.len() {
        lemma_checks_pass(d, row, k + 1);
    }
}

proof fn lemma_table_checks_pass(d: SchemaV, row: RowV, k: int)
    requires
        0 <= k <= d.table_checks.len(),
    ensures
        (constraint::table_check_violation(d, row, k) is None) == (forall|j: int|
            k <= j < d.table_checks.len() ==> constraint::passes(row, #[trigger] d.table_checks[j])),
    decreases d.table_checks.len() - k,
{
    if k < d.table_checks.len() {
        lemma_table_checks_pass(d, row, k + 1);
    }
}

/// A row is taken in if and only if it fits: every constraint of the table holds of it, whether
/// it was looked up through an index or not.
pub proof fn lemma_accepted(s: StateV, db: u32, d: SchemaV, m: Map<u64, RowV>, row: RowV, rowid: u64)
    requires
        covering::covered(s),
        state::table_schema(s, db, d.name) == Some(d),
        state::table_rows(s, db, d.name) == Some(m),
    ensures
        (constraint::first_violation(s, db, d, row, rowid) is None) == fits(s, db, d, m, row, rowid),
{
    lemma_no_gaps(d.columns, row, 0);
    lemma_columns_free(s, db, d, m, row, rowid, 0);
    lemma_groups_free(s, db, d, m, row, rowid, 0);
    lemma_keys_kept(s, db, d, row, 0);
    lemma_checks_pass(d, row, 0);
    lemma_table_checks_pass(d, row, 0);
}

/// Whether two rows have the same value in a column that is a key.
pub open spec fn same_key(column: Seq<char>, a: RowV, b: RowV) -> bool {
    match (assoc::assoc_get(a, column), assoc::assoc_get(b, column)) {
        (Some(v), Some(w)) => v != ValueV::Null && schema::same_value(v, w),
        _ => false,
    }
}

/// Whether two rows have the same values in the columns of a key, none of them null.
pub open spec fn same_group(columns: Seq<Seq<char>>, a: RowV, b: RowV) -> bool {
    forall|i: int| 0 <= i < columns.len() ==> same_key(#[trigger] columns[i], a, b)
}

/// Whether two rows are alike in a key of their table.
pub open spec fn clash(d: SchemaV, a: RowV, b: RowV) -> bool {
    ||| exists|k: int| 0 <= k < d.columns.len() && is_key((#[trigger] d.columns[k]).1) && same_key(d.columns[k].0, a, b)
    ||| exists|k: int| 0 <= k < d.unique_groups.len() && same_group((#[trigger] d.unique_groups[k]).columns, a, b)
}

/// Whether no two rows of a table are alike in a key.
pub open spec fn keys_differ(d: SchemaV, m: Map<u64, RowV>) -> bool {
    forall|i: u64, j: u64|
        #![trigger m.contains_key(i), m.contains_key(j)]
        m.contains_key(i) && m.contains_key(j) && i != j ==> !clash(d, m[i], m[j])
}

proof fn lemma_fits_no_clash(s: StateV, db: u32, d: SchemaV, m: Map<u64, RowV>, row: RowV, rowid: u64, other: u64)
    requires
        fits(s, db, d, m, row, rowid),
        m.contains_key(other),
        other != rowid,
    ensures
        !clash(d, row, m[other]),
        !clash(d, m[other], row),
{
    let b = m[other];
    assert forall|k: int| 0 <= k < d.columns.len() && is_key((#[trigger] d.columns[k]).1) implies !same_key(
        d.columns[k].0,
        row,
        b,
    ) && !same_key(d.columns[k].0, b, row) by {
        let column = d.columns[k].0;
        assert(key_free(m, column, row, rowid));
        match (assoc::assoc_get(row, column), assoc::assoc_get(b, column)) {
            (Some(v), Some(w)) => {
                if same_key(column, row, b) || same_key(column, b, row) {
                    let cs = seq![column];
                    assert(constraint::has_values(b, cs, seq![v])) by {
                        assert forall|i: int| 0 <= i < cs.len() && i < seq![v].len() implies match assoc::assoc_get(
                            b,
                            #[trigger] cs[i],
                        ) {
                            Some(x) => schema::same_value(x, seq![v][i]),
                            None => false,
                        } by {
                            assert(cs[i] == column);
                        }
                    }
                    assert(constraint::other_has(m, cs, seq![v], rowid));
                }
            },
            _ => {},
        }
    }
    assert forall|k: int| 0 <= k < d.unique_groups.len() implies !same_group(
        (#[trigger] d.unique_groups[k]).columns,
        row,
        b,
    ) && !same_group(d.unique_groups[k].columns, b, row) by {
        let g = d.unique_groups[k];
        let values = constraint::values_of(row, g.columns);
        assert(group_free(m, g, row, rowid));
        if same_group(g.columns, row, b) || same_group(g.columns, b, row) {
            assert forall|i: int| 0 <= i < g.columns.len() implies same_key(#[trigger] g.columns[i], row, b) && values[i]
                != ValueV::Null by {
                assert(same_key(g.columns[i], row, b) || same_key(g.columns[i], b, row));
            }
            assert(constraint::has_values(b, g.columns, values)) by {
                assert forall|i: int| 0 <= i < g.columns.len() && i < values.len() implies match assoc::assoc_get(
                    b,
                    #[trigger] g.columns[i],
                ) {
                    Some(x) => schema::same_value(x, values[i]),
                    None => false,
                } by {
                    assert(same_key(g.columns[i], row, b));
                }
            }
            assert(constraint::other_has(m, g.columns, values, rowid));
        }
    }
}

/// A row that fits leaves no two rows of the table alike in a key.
pub proof fn lemma_keys_stay_different(s: StateV, db: u32, d: SchemaV, m: Map<u64, RowV>, row: RowV, rowid: u64)
    requires
        keys_differ(d, m),
        fits(s, db, d, m, row, rowid),
    ensures
        keys_differ(d, m.insert(rowid, row)),
{
    let w = m.insert(rowid, row);
    assert forall|i: u64, j: u64|
        #![trigger w.contains_key(i), w.contains_key(j)]
        w.contains_key(i) && w.contains_key(j) && i != j implies !clash(d, w[i], w[j]) by {
        if i == rowid {
            assert(m.contains_key(j));
            lemma_fits_no_clash(s, db, d, m, row, rowid, j);
        } else if j == rowid {
            assert(m.contains_key(i));
            lemma_fits_no_clash(s, db, d, m, row, rowid, i);
        } else {
            assert(m.contains_key(i) && m.contains_key(j));
        }
    }
}

/// Whether a row keeps what its table asks of each row by itself: no NOT NULL column is left out,
/// no part of a primary key is null, and all checks pass.
pub open spec fn keeps_rules(d: SchemaV, row: RowV) -> bool {
    &&& no_gaps(d, row)
    &&& forall|k: int|
        0 <= k < d.unique_groups.len() && (#[trigger] d.unique_groups[k]).is_primary ==> !constraint::some_null(
            constraint::values_of(row, d.unique_groups[k].columns),
        )
    &&& forall|k: int|
        0 <= k < d.columns.len() ==> match (#[trigger] d.columns[k]).1.check_expr {
            Some(sql) => constraint::passes(row, sql),
            None => true,
        }
    &&& forall|k: int| 0 <= k < d.table_checks.len() ==> constraint::passes(row, #[trigger] d.table_checks[k])
}

/// Whether no two rows of a table are alike in a key, and each keeps the table's rules.
pub open spec fn sound(d: SchemaV, m: Map<u64, RowV>) -> bool {
    &&& keys_differ(d, m)
    &&& forall|id: u64| #[trigger] m.contains_key(id) ==> keeps_rules(d, m[id])
}

/// A table stays sound with a row that fits.
pub proof fn lemma_stays_sound(s: StateV, db: u32, d: SchemaV, m: Map<u64, RowV>, row: RowV, rowid: u64)
    requires
        sound(d, m),
        fits(s, db, d, m, row, rowid),
    ensures
        sound(d, m.insert(rowid, row)),
{
    lemma_keys_stay_different(s, db, d, m, row, rowid);
    assert forall|k: int| 0 <= k < d.unique_groups.len() && (#[trigger] d.unique_groups[k]).is_primary implies !constraint::some_null(
        constraint::values_of(row, d.unique_groups[k].columns),
    ) by {
        assert(group_free(m, d.unique_groups[k], row, rowid));
    }
    assert(keeps_rules(d, row));
    let w = m.insert(rowid, row);
    assert forall|id: u64| #[trigger] w.contains_key(id) implies keeps_rules(d, w[id]) by {
        if id != rowid {
            assert(m.contains_key(id));
        }
    }
}

/// Whether the triggers that run before a row comes into a table leave the table's rows alone,
/// whatever the state.
pub open spec fn quiet_before(triggers: CatalogV<Seq<TriggerV>>, db: u32, table: Seq<char>) -> bool {
    forall|depth: nat, s: StateV, event: TriggerEvent, old_row: Option<RowV>, new_row: Option<RowV>, tx: Option<u32>|
        s.triggers == triggers && event != TriggerEvent::Delete ==> state::table_rows(
            (#[trigger] triggers::fired(depth, s, db, table, event, TriggerTiming::Before, old_row, new_row, tx)).0,
            db,
            table,
        ) == state::table_rows(s, db, table)
}

/// Whether the statements of a trigger, whatever the rows, define no table or index.
pub open spec fn trigger_writes_rows(t: TriggerV) -> bool {
    forall|old_row: Option<RowV>, new_row: Option<RowV>|
        match parser::statements_in(#[trigger] triggers::body_text(t.body, old_row, new_row)) {
            Ok(stmts) => forall|i: int| 0 <= i < stmts.len() ==> sparing::rows_only(#[trigger] stmts[i]),
            Err(_) => true,
        }
}

/// Whether no trigger of a database defines a table or an index.
pub open spec fn triggers_write_rows(s: StateV, db: u32) -> bool {
    forall|name: Seq<char>, i: int|
        0 <= i < state::triggers_of(s, db, name).len() ==> trigger_writes_rows(#[trigger] state::triggers_of(s, db, name)[i])
}

/// Triggers that spare a table are quiet.
pub proof fn lemma_spared_quiet(s: StateV, db: u32, table: Seq<char>)
    requires
        sparing::spared(s, db, table),
    ensures
        quiet_before(s.triggers, db, table),
        triggers_write_rows(s, db),
{
    assert forall|depth: nat, t: StateV, event: TriggerEvent, old_row: Option<RowV>, new_row: Option<RowV>, tx: Option<u32>|
        t.triggers == s.triggers && event != TriggerEvent::Delete implies state::table_rows(
        (#[trigger] triggers::fired(depth, t, db, table, event, TriggerTiming::Before, old_row, new_row, tx)).0,
        db,
        table,
    ) == state::table_rows(t, db, table) by {
        sparing::lemma_same_triggers(s, t, db, table);
        sparing::lemma_fired_spares(depth, t, db, table, event, TriggerTiming::Before, old_row, new_row, tx, table);
    }
    assert forall|name: Seq<char>, i: int| 0 <= i < state::triggers_of(s, db, name).len() implies trigger_writes_rows(
        #[trigger] state::triggers_of(s, db, name)[i],
    ) by {
        let t = state::triggers_of(s, db, name)[i];
        assert(sparing::trigger_spares(t, table));
        assert forall|old_row: Option<RowV>, new_row: Option<RowV>|
            match parser::statements_in(#[trigger] triggers::body_text(t.body, old_row, new_row)) {
                Ok(stmts) => forall|j: int| 0 <= j < stmts.len() ==> sparing::rows_only(#[trigger] stmts[j]),
                Err(_) => true,
            } by {
            match parser::statements_in(triggers::body_text(t.body, old_row, new_row)) {
                Ok(stmts) => {
                    assert forall|j: int| 0 <= j < stmts.len() implies sparing::rows_only(#[trigger] stmts[j]) by {
                        assert(sparing::spares(stmts[j], table));
                    }
                },
                Err(_) => {},
            }
        }
    }
}

proof fn lemma_none_fire(
    depth: nat,
    s: StateV,
    db: u32,
    ts: Seq<TriggerV>,
    event: TriggerEvent,
    timing: TriggerTiming,
    old_row: Option<RowV>,
    new_row: Option<RowV>,
    tx: Option<u32>,
    n: int,
)
    requires
        forall|i: int| 0 <= i < ts.len() ==> (#[trigger] ts[i]).event != event || ts[i].timing != timing,
    ensures
        triggers::fired_upto(depth, s, db, ts, event, timing, old_row, new_row, tx, n) == (s, None::<ErrorV>),
    decreases n,
{
    if n > 0 && n <= ts.len() {
        lemma_none_fire(depth, s, db, ts, event, timing, old_row, new_row, tx, n - 1);
        assert(triggers::fired_listed(depth, s, db, ts[n - 1], event, timing, old_row, new_row, tx) == (s, None::<ErrorV>));
    }
}

/// A table with no triggers that run before an INSERT or an UPDATE is quiet.
pub proof fn lemma_none_before_quiet(s: StateV, db: u32, table: Seq<char>)
    requires
        forall|i: int|
            0 <= i < state::triggers_of(s, db, table).len() ==> (#[trigger] state::triggers_of(s, db, table)[i]).timing
                != TriggerTiming::Before || state::triggers_of(s, db, table)[i].event == TriggerEvent::Delete,
    ensures
        quiet_before(s.triggers, db, table),
{
    assert forall|depth: nat, t: StateV, event: TriggerEvent, old_row: Option<RowV>, new_row: Option<RowV>, tx: Option<u32>|
        t.triggers == s.triggers && event != TriggerEvent::Delete implies state::table_rows(
        (#[trigger] triggers::fired(depth, t, db, table, event, TriggerTiming::Before, old_row, new_row, tx)).0,
        db,
        table,
    ) == state::table_rows(t, db, table) by {
        let ts = state::triggers_of(t, db, table);
        assert(ts == state::triggers_of(s, db, table));
        lemma_none_fire(depth, t, db, ts, event, TriggerTiming::Before, old_row, new_row, tx, ts.len() as int);
    }
}

/// Whether a table stands as defined, every index finds all rows, the rows are sound, and no
/// trigger writes to the table while a row is on its way in.
pub open spec fn in_order(s: StateV, db: u32, table: Seq<char>, d: SchemaV) -> bool {
    &&& covering::covered(s)
    &&& d.name == table
    &&& state::table_schema(s, db, table) == Some(d)
    &&& quiet_before(s.triggers, db, table)
    &&& triggers_write_rows(s, db)
    &&& match state::table_rows(s, db, table) {
        Some(m) => sound(d, m),
        None => false,
    }
}

proof fn lemma_still_in_order(s: StateV, t: StateV, db: u32, table: Seq<char>, d: SchemaV)
    requires
        in_order(s, db, table, d),
        covering::covered(t),
        t.schemas == s.schemas,
        t.triggers == s.triggers,
        match state::table_rows(t, db, table) {
            Some(m) => sound(d, m),
            None => false,
        },
    ensures
        in_order(t, db, table, d),
{
    assert forall|name: Seq<char>, i: int| 0 <= i < state::triggers_of(t, db, name).len() implies trigger_writes_rows(
        #[trigger] state::triggers_of(t, db, name)[i],
    ) by {
        assert(state::triggers_of(t, db, name) == state::triggers_of(s, db, name));
    }
}

proof fn lemma_stored_rows(s: StateV, a: StateV, b: StateV, db: u32, table: Seq<char>, w: Map<u64, RowV>, row: RowV, id: u64, op: IndexOpV)
    requires
        a == (StateV { dbs: catalog::changed(s.dbs, db, table, w), txns: a.txns, ..s }),
        b == index::indexed(a, db, table, row, id, op),
    ensures
        state::table_rows(b, db, table) == Some(w),
        b.schemas == s.schemas,
        b.triggers == s.triggers,
{
    assoc::lemma_get_put(s.dbs.items, (db, table), w);
    index::lemma_indexed_fields(a, db, table, row, id, op);
}

proof fn lemma_written_in_order(s: StateV, db: u32, name: Seq<char>, id: u64, row: RowV, tx: Option<u32>, table: Seq<char>, d: SchemaV)
    requires
        in_order(s, db, table, d),
        name == table ==> sound(d, (state::table_rows(s, db, table)->0).insert(id, row)),
    ensures
        in_order(dml::row_written(s, db, name, id, row, tx), db, table, d),
{
    let t = dml::row_written(s, db, name, id, row, tx);
    covering::lemma_row_written_covered(s, db, name, id, row, tx);
    if name == table {
        let w = (state::table_rows(s, db, table)->0).insert(id, row);
        let a = dml::journaled(state::row_stored(s, db, table, id, row), tx, UndoV::Insert { table, rowid: id });
        let b = index::indexed(a, db, table, row, id, IndexOpV::Insert);
        lemma_stored_rows(s, a, b, db, table, w, row, id, IndexOpV::Insert);
        dml::lemma_synced_fields(b, db, table, id, row, false);
    } else {
        sparing::lemma_written_elsewhere(s, db, name, id, row, tx, table);
    }
    lemma_still_in_order(s, t, db, table, d);
}

proof fn lemma_rewritten_in_order(
    s: StateV,
    db: u32,
    name: Seq<char>,
    id: u64,
    old_row: RowV,
    new_row: RowV,
    tx: Option<u32>,
    table: Seq<char>,
    d: SchemaV,
)
    requires
        in_order(s, db, table, d),
        name == table ==> sound(d, (state::table_rows(s, db, table)->0).insert(id, new_row)),
    ensures
        in_order(dml::row_rewritten(s, db, name, id, old_row, new_row, tx), db, table, d),
{
    let t = dml::row_rewritten(s, db, name, id, old_row, new_row, tx);
    covering::lemma_row_rewritten_covered(s, db, name, id, old_row, new_row, tx);
    if name == table {
        let w = (state::table_rows(s, db, table)->0).insert(id, new_row);
        let op = IndexOpV::Update { old_row };
        let a = dml::journaled(state::row_stored(s, db, table, id, new_row), tx, UndoV::Update { table, rowid: id, old_row });
        let b = index::indexed(a, db, table, new_row, id, op);
        lemma_stored_rows(s, a, b, db, table, w, new_row, id, op);
        dml::lemma_synced_fields(b, db, table, id, old_row, true);
        dml::lemma_synced_fields(dml::fts_synced(b, db, table, id, old_row, true), db, table, id, new_row, false);
    } else {
        sparing::lemma_rewritten_elsewhere(s, db, name, id, old_row, new_row, tx, table);
    }
    lemma_still_in_order(s, t, db, table, d);
}

proof fn lemma_erased_in_order(s: StateV, db: u32, name: Seq<char>, id: u64, row: RowV, tx: Option<u32>, table: Seq<char>, d: SchemaV)
    requires
        in_order(s, db, table, d),
    ensures
        in_order(dml::row_erased(s, db, name, id, row, tx), db, table, d),
{
    let t = dml::row_erased(s, db, name, id, row, tx);
    covering::lemma_row_erased_covered(s, db, name, id, row, tx);
    if name == table {
        let m = state::table_rows(s, db, table)->0;
        let w = m.remove(id);
        assert forall|i: u64, j: u64|
            #![trigger w.contains_key(i), w.contains_key(j)]
            w.contains_key(i) && w.contains_key(j) && i != j implies !clash(d, w[i], w[j]) by {
            assert(m.contains_key(i) && m.contains_key(j));
        }
        assert forall|x: u64| #[trigger] w.contains_key(x) implies keeps_rules(d, w[x]) by {
            assert(m.contains_key(x));
        }
        let a = dml::journaled(state::row_dropped(s, db, table, id), tx, UndoV::Delete { table, rowid: id, row });
        let b = index::indexed(a, db, table, row, id, IndexOpV::Delete);
        lemma_stored_rows(s, a, b, db, table, w, row, id, IndexOpV::Delete);
        dml::lemma_synced_fields(b, db, table, id, row, true);
    } else {
        sparing::lemma_erased_elsewhere(s, db, name, id, row, tx, table);
    }
    lemma_still_in_order(s, t, db, table, d);
}

proof fn lemma_fired_one_in_order(
    depth: nat,
    s: StateV,
    db: u32,
    t: TriggerV,
    old_row: Option<RowV>,
    new_row: Option<RowV>,
    tx: Option<u32>,
    table: Seq<char>,
    d: SchemaV,
)
    requires
        in_order(s, db, table, d),
        trigger_writes_rows(t),
    ensures
        in_order(triggers::fired_one(depth, s, db, t, old_row, new_row, tx).0, db, table, d),
        triggers::fired_one(depth, s, db, t, old_row, new_row, tx).0.triggers == s.triggers,
    decreases depth, 0nat, 0int,
{
    match parser::statements_in(triggers::body_text(t.body, old_row, new_row)) {
        Ok(stmts) => if depth > 0 {
            lemma_ran_upto_in_order((depth - 1) as nat, s, db, stmts, tx, stmts.len() as int, table, d);
        },
        Err(_) => {},
    }
}

proof fn lemma_fired_upto_in_order(
    depth: nat,
    s: StateV,
    db: u32,
    ts: Seq<TriggerV>,
    event: TriggerEvent,
    timing: TriggerTiming,
    old_row: Option<RowV>,
    new_row: Option<RowV>,
    tx: Option<u32>,
    n: int,
    table: Seq<char>,
    d: SchemaV,
)
    requires
        in_order(s, db, table, d),
        forall|i: int| 0 <= i < ts.len() ==> trigger_writes_rows(#[trigger] ts[i]),
    ensures
        in_order(triggers::fired_upto(depth, s, db, ts, event, timing, old_row, new_row, tx, n).0, db, table, d),
        triggers::fired_upto(depth, s, db, ts, event, timing, old_row, new_row, tx, n).0.triggers == s.triggers,
    decreases depth, 1nat, n,
{
    if n > 0 && n <= ts.len() {
        lemma_fired_upto_in_order(depth, s, db, ts, event, timing, old_row, new_row, tx, n - 1, table, d);
        let p = triggers::fired_upto(depth, s, db, ts, event, timing, old_row, new_row, tx, n - 1).0;
        assert(trigger_writes_rows(ts[n - 1]));
        lemma_fired_one_in_order(depth, p, db, ts[n - 1], old_row, new_row, tx, table, d);
        let q = triggers::fired_listed(depth, p, db, ts[n - 1], event, timing, old_row, new_row, tx).0;
        assert(in_order(q, db, table, d) && q.triggers == p.triggers);
    }
}

proof fn lemma_fired_in_order(
    depth: nat,
    s: StateV,
    db: u32,
    name: Seq<char>,
    event: TriggerEvent,
    timing: TriggerTiming,
    old_row: Option<RowV>,
    new_row: Option<RowV>,
    tx: Option<u32>,
    table: Seq<char>,
    d: SchemaV,
)
    requires
        in_order(s, db, table, d),
    ensures
        in_order(triggers::fired(depth, s, db, name, event, timing, old_row, new_row, tx).0, db, table, d),
        triggers::fired(depth, s, db, name, event, timing, old_row, new_row, tx).0.triggers == s.triggers,
    decreases depth, 2nat, 0int,
{
    let ts = state::triggers_of(s, db, name);
    lemma_fired_upto_in_order(depth, s, db, ts, event, timing, old_row, new_row, tx, ts.len() as int, table, d);
}

proof fn lemma_ran_upto_in_order(
    depth: nat,
    s: StateV,
    db: u32,
    stmts: Seq<StatementV>,
    tx: Option<u32>,
    n: int,
    table: Seq<char>,
    d: SchemaV,
)
    requires
        in_order(s, db, table, d),
        forall|i: int| 0 <= i < stmts.len() ==> sparing::rows_only(#[trigger] stmts[i]),
    ensures
        in_order(triggers::ran_upto(depth, s, db, stmts, tx, n).0, db, table, d),
        triggers::ran_upto(depth, s, db, stmts, tx, n).0.triggers == s.triggers,
    decreases depth, 6nat, n,
{
    if n > 0 && n <= stmts.len() {
        lemma_ran_upto_in_order(depth, s, db, stmts, tx, n - 1, table, d);
        let p = triggers::ran_upto(depth, s, db, stmts, tx, n - 1).0;
        assert(sparing::rows_only(stmts[n - 1]));
        lemma_constraints_enforced(depth, p, db, stmts[n - 1], Seq::empty(), tx, table, d);
    }
}

proof fn lemma_row_inserted_in_order(
    depth: nat,
    s: StateV,
    db: u32,
    name: Seq<char>,
    e: SchemaV,
    row: RowV,
    tx: Option<u32>,
    table: Seq<char>,
    d: SchemaV,
)
    requires
        in_order(s, db, table, d),
        name == table ==> e == d,
    ensures
        in_order(dml::row_inserted(depth, s, db, name, e, row, tx).0, db, table, d),
        dml::row_inserted(depth, s, db, name, e, row, tx).0.triggers == s.triggers,
    decreases depth, 3nat, 0int,
{
    let id = state::next_rowid(s, db, name);
    let s1 = state::rowid_taken(s, db, name);
    let full = dml::with_defaults(e.columns, row, id, e.columns.len() as int);
    let m = state::table_rows(s, db, table)->0;
    covering::lemma_same_tables(s, s1);
    lemma_still_in_order(s, s1, db, table, d);
    if id < u64::MAX && constraint::first_violation(s1, db, e, full, id) is None {
        let ins = TriggerEvent::Insert;
        lemma_fired_in_order(depth, s1, db, name, ins, TriggerTiming::Before, None, Some(full), tx, table, d);
        let s2 = triggers::fired(depth, s1, db, name, ins, TriggerTiming::Before, None, Some(full), tx).0;
        if name == table {
            lemma_accepted(s1, db, d, m, full, id);
            lemma_stays_sound(s1, db, d, m, full, id);
            assert(state::table_rows(s2, db, table) == Some(m));
        }
        lemma_written_in_order(s2, db, name, id, full, tx, table, d);
        let s3 = dml::row_written(s2, db, name, id, full, tx);
        sparing::lemma_written_fields(s2, db, name, id, full, tx);
        lemma_fired_in_order(depth, s3, db, name, ins, TriggerTiming::After, None, Some(full), tx, table, d);
    }
}

proof fn lemma_rows_inserted_in_order(
    depth: nat,
    s: StateV,
    db: u32,
    name: Seq<char>,
    e: SchemaV,
    rows: Seq<RowV>,
    tx: Option<u32>,
    n: int,
    table: Seq<char>,
    d: SchemaV,
)
    requires
        in_order(s, db, table, d),
        name == table ==> e == d,
    ensures
        in_order(dml::rows_inserted(depth, s, db, name, e, rows, tx, n).0, db, table, d),
        dml::rows_inserted(depth, s, db, name, e, rows, tx, n).0.triggers == s.triggers,
    decreases depth, 4nat, n,
{
    if n > 0 && n <= rows.len() {
        lemma_rows_inserted_in_order(depth, s, db, name, e, rows, tx, n - 1, table, d);
        let p = dml::rows_inserted(depth, s, db, name, e, rows, tx, n - 1).0;
        lemma_row_inserted_in_order(depth, p, db, name, e, rows[n - 1], tx, table, d);
    }
}

proof fn lemma_row_updated_in_order(
    depth: nat,
    s: StateV,
    db: u32,
    name: Seq<char>,
    e: SchemaV,
    id: u64,
    old_row: RowV,
    assignments: Seq<AssignmentV>,
    ps: Seq<ValueV>,
    tx: Option<u32>,
    table: Seq<char>,
    d: SchemaV,
)
    requires
        in_order(s, db, table, d),
        name == table ==> e == d,
    ensures
        in_order(dml::row_updated(depth, s, db, name, e, id, old_row, assignments, ps, tx).0, db, table, d),
        dml::row_updated(depth, s, db, name, e, id, old_row, assignments, ps, tx).0.triggers == s.triggers,
    decreases depth, 3nat, 0int,
{
    let new_row = dml::assigned(assignments, old_row, ps, assignments.len() as int).0;
    let m = state::table_rows(s, db, table)->0;
    if constraint::first_violation(s, db, e, new_row, id) is None {
        let upd = TriggerEvent::Update;
        lemma_fired_in_order(depth, s, db, name, upd, TriggerTiming::Before, Some(old_row), Some(new_row), tx, table, d);
        let s2 = triggers::fired(depth, s, db, name, upd, TriggerTiming::Before, Some(old_row), Some(new_row), tx).0;
        if name == table {
            lemma_accepted(s, db, d, m, new_row, id);
            lemma_stays_sound(s, db, d, m, new_row, id);
            assert(state::table_rows(s2, db, table) == Some(m));
        }
        lemma_rewritten_in_order(s2, db, name, id, old_row, new_row, tx, table, d);
        let s3 = dml::row_rewritten(s2, db, name, id, old_row, new_row, tx);
        sparing::lemma_rewritten_fields(s2, db, name, id, old_row, new_row, tx);
        lemma_fired_in_order(depth, s3, db, name, upd, TriggerTiming::After, Some(old_row), Some(new_row), tx, table, d);
    }
}

proof fn lemma_rows_updated_in_order(
    depth: nat,
    s: StateV,
    db: u32,
    name: Seq<char>,
    e: SchemaV,
    rows: Seq<(u64, RowV)>,
    assignments: Seq<AssignmentV>,
    ps: Seq<ValueV>,
    tx: Option<u32>,
    n: int,
    table: Seq<char>,
    d: SchemaV,
)
    requires
        in_order(s, db, table, d),
        name == table ==> e == d,
    ensures
        in_order(dml::rows_updated(depth, s, db, name, e, rows, assignments, ps, tx, n).0, db, table, d),
        dml::rows_updated(depth, s, db, name, e, rows, assignments, ps, tx, n).0.triggers == s.triggers,
    decreases depth, 4nat, n,
{
    if n > 0 && n <= rows.len() {
        lemma_rows_updated_in_order(depth, s, db, name, e, rows, assignments, ps, tx, n - 1, table, d);
        let p = dml::rows_updated(depth, s, db, name, e, rows, assignments, ps, tx, n - 1).0;
        lemma_row_updated_in_order(depth, p, db, name, e, rows[n - 1].0, rows[n - 1].1, assignments, ps, tx, table, d);
    }
}

proof fn lemma_row_deleted_in_order(
    depth: nat,
    s: StateV,
    db: u32,
    name: Seq<char>,
    id: u64,
    row: RowV,
    tx: Option<u32>,
    table: Seq<char>,
    d: SchemaV,
)
    requires
        in_order(s, db, table, d),
    ensures
        in_order(dml::row_deleted(depth, s, db, name, id, row, tx).0, db, table, d),
        dml::row_deleted(depth, s, db, name, id, row, tx).0.triggers == s.triggers,
    decreases depth, 3nat, 0int,
{
    let del = TriggerEvent::Delete;
    lemma_fired_in_order(depth, s, db, name, del, TriggerTiming::Before, Some(row), None, tx, table, d);
    let s2 = triggers::fired(depth, s, db, name, del, TriggerTiming::Before, Some(row), None, tx).0;
    lemma_erased_in_order(s2, db, name, id, row, tx, table, d);
    let s3 = dml::row_erased(s2, db, name, id, row, tx);
    sparing::lemma_erased_fields(s2, db, name, id, row, tx);
    lemma_fired_in_order(depth, s3, db, name, del, TriggerTiming::After, Some(row), None, tx, table, d);
}

proof fn lemma_rows_deleted_in_order(
    depth: nat,
    s: StateV,
    db: u32,
    name: Seq<char>,
    rows: Seq<(u64, RowV)>,
    tx: Option<u32>,
    n: int,
    table: Seq<char>,
    d: SchemaV,
)
    requires
        in_order(s, db, table, d),
    ensures
        in_order(dml::rows_deleted(depth, s, db, name, rows, tx, n).0, db, table, d),
        dml::rows_deleted(depth, s, db, name, rows, tx, n).0.triggers == s.triggers,
    decreases depth, 4nat, n,
{
    if n > 0 && n <= rows.len() {
        lemma_rows_deleted_in_order(depth, s, db, name, rows, tx, n - 1, table, d);
        let p = dml::rows_deleted(depth, s, db, name, rows, tx, n - 1).0;
        lemma_row_deleted_in_order(depth, p, db, name, rows[n - 1].0, rows[n - 1].1, tx, table, d);
    }
}

/// A table that is created starts in order.
pub proof fn lemma_created_in_order(
    depth: nat,
    s: StateV,
    db: u32,
    name: Seq<char>,
    columns: Seq<ColumnSpecV>,
    constraints: Seq<TableConstraintV>,
    if_not_exists: bool,
    ps: Seq<ValueV>,
    tx: Option<u32>,
)
    requires
        covering::covered(s),
        quiet_before(s.triggers, db, name),
        triggers_write_rows(s, db),
        state::table_schema(s, db, name) is None,
    ensures
        in_order(
            sql::ran(depth, s, db, StatementV::CreateTable { name, columns, constraints, if_not_exists }, ps, tx).0,
            db,
            name,
            ddl::schema_of(name, columns, constraints),
        ),
{
    let d = ddl::schema_of(name, columns, constraints);
    let stmt = StatementV::CreateTable { name, columns, constraints, if_not_exists };
    let t = sql::ran(depth, s, db, stmt, ps, tx).0;
    covering::lemma_ran_covered(depth, s, db, stmt, ps, tx);
    assoc::lemma_get_put(s.schemas.items, (db, name), d);
    assoc::lemma_get_put(s.dbs.items, (db, name), Map::<u64, RowV>::empty());
    assert forall|n: Seq<char>, i: int| 0 <= i < state::triggers_of(t, db, n).len() implies trigger_writes_rows(
        #[trigger] state::triggers_of(t, db, n)[i],
    ) by {
        assert(state::triggers_of(t, db, n) == state::triggers_of(s, db, n));
    }
}

/// Constraints are enforced: whatever a statement does that defines no table or index, and
/// whatever its triggers do, also where it fails halfway, afterwards no two rows of a table are
/// alike in a UNIQUE or PRIMARY KEY, and each row keeps NOT NULL and CHECK. The one thing left out
/// is a trigger that writes to the table while a row is on its way in: it could put a row with the
/// same key there.
pub proof fn lemma_constraints_enforced(
    depth: nat,
    s: StateV,
    db: u32,
    stmt: StatementV,
    ps: Seq<ValueV>,
    tx: Option<u32>,
    table: Seq<char>,
    d: SchemaV,
)
    requires
        in_order(s, db, table, d),
        sparing::rows_only(stmt),
    ensures
        in_order(sql::ran(depth, s, db, stmt, ps, tx).0, db, table, d),
        sql::ran(depth, s, db, stmt, ps, tx).0.triggers == s.triggers,
    decreases depth, 5nat, 0int,
{
    match stmt {
        StatementV::Insert { table: t, columns, source } => {
            match state::table_schema(s, db, t) {
                Some(e) => match dml::candidate_rows(s, db, dml::insert_columns(e, columns), source, ps) {
                    Ok(rows) => lemma_rows_inserted_in_order(depth, s, db, t, e, rows, tx, rows.len() as int, table, d),
                    Err(_) => {},
                },
                None => {},
            }
        },
        StatementV::Update { table: t, assignments, selection } => {
            match (state::table_rows(s, db, t), state::table_schema(s, db, t)) {
                (Some(m), Some(e)) => {
                    let start = dml::set_placeholders(assignments, assignments.len() as int);
                    let rows = dml::matching(s, db, m, selection, ps, start);
                    let n = rows.len() as int;
                    lemma_rows_updated_in_order(depth, s, db, t, e, rows, assignments, ps, tx, n, table, d);
                },
                _ => {},
            }
        },
        StatementV::Delete { table: t, selection } => {
            match t {
                Some(t) => match state::table_rows(s, db, t) {
                    Some(m) => {
                        let rows = dml::matching(s, db, m, selection, ps, 0);
                        lemma_rows_deleted_in_order(depth, s, db, t, rows, tx, rows.len() as int, table, d);
                    },
                    None => {},
                },
                None => {},
            }
        },
        _ => {
            let t = sql::ran(depth, s, db, stmt, ps, tx).0;
            match stmt {
                StatementV::Drop { object, if_exists, names } => sparing::lemma_views_dropped_spare(
                    s,
                    db,
                    names,
                    if_exists,
                    names.len() as int,
                    table,
                ),
                _ => {},
            }
            covering::lemma_ran_covered(depth, s, db, stmt, ps, tx);
            lemma_still_in_order(s, t, db, table, d);
        },
    }
}

} // verus!

//! What triggers do as a whole: which of them run on a change of a row, in what order, and that
//! each of their statements runs on what the one before it left.
use vstd::prelude::*;

use crate::assoc;
use crate::ast::{ExprV, QueryV, SetExprV, StatementV};
use crate::effects;
use crate::error::ErrorV;
use crate::index;
use crate::index::IndexOpV;
use crate::rollback;
use crate::row::RowV;
use crate::schema::{SchemaV, TriggerEvent, TriggerTiming, TriggerV};
use crate::sparing;
use crate::sql;
use crate::sql::dml;
use crate::sql::parser;
use crate::state;
use crate::state::StateV;
use crate::transaction::UndoV;
use crate::triggers;

verus! {

/// Whether a statement that succeeds makes one state of another.
pub open spec fn made_by(depth: nat, a: StateV, db: u32, stmt: StatementV, tx: Option<u32>, b: StateV) -> bool {
    let (t, r) = sql::ran(depth, a, db, stmt, Seq::empty(), tx);
    r is Ok && t == b
}

/// Whether a list of statements leads from the first to the last of a list of states: each
/// statement succeeds and makes the next state of the one before it.
pub open spec fn led_by(depth: nat, xs: Seq<StateV>, db: u32, stmts: Seq<StatementV>, tx: Option<u32>) -> bool {
    &&& xs.len() == stmts.len() + 1
    &&& forall|k: int| 0 <= k < stmts.len() ==> made_by(depth, xs[k], db, #[trigger] stmts[k], tx, xs[k + 1])
}

/// Whether some run of all statements, one after the other, leads from one state to another.
pub open spec fn leads(depth: nat, a: StateV, db: u32, stmts: Seq<StatementV>, tx: Option<u32>, b: StateV) -> bool {
    exists|xs: Seq<StateV>| #[trigger] led_by(depth, xs, db, stmts, tx) && xs[0] == a && xs.last() == b
}

/// Whether a trigger is for an event and a time and its condition holds of the rows.
pub open spec fn is_meant(
    s: StateV,
    db: u32,
    t: TriggerV,
    event: TriggerEvent,
    timing: TriggerTiming,
    old_row: Option<RowV>,
    new_row: Option<RowV>,
) -> bool {
    t.event == event && t.timing == timing && triggers::fires(s, db, t, old_row, new_row) == Ok::<bool, ErrorV>(true)
}

/// Whether a trigger leads from one state to another: by all of its statements, in which the
/// references to the rows are their values, where the change is one that it is for, and by doing
/// nothing where it is not.
pub open spec fn takes_part(
    depth: nat,
    a: StateV,
    db: u32,
    t: TriggerV,
    event: TriggerEvent,
    timing: TriggerTiming,
    old_row: Option<RowV>,
    new_row: Option<RowV>,
    tx: Option<u32>,
    b: StateV,
) -> bool {
    if is_meant(a, db, t, event, timing, old_row, new_row) {
        match parser::statements_in(triggers::body_text(t.body, old_row, new_row)) {
            Ok(stmts) => depth > 0 && leads((depth - 1) as nat, a, db, stmts, tx, b),
            Err(_) => false,
        }
    } else {
        b == a
    }
}

proof fn lemma_all_statements(depth: nat, s: StateV, db: u32, stmts: Seq<StatementV>, tx: Option<u32>, n: int) -> (xs: Seq<StateV>)
    requires
        0 <= n <= stmts.len(),
        triggers::ran_upto(depth, s, db, stmts, tx, n).1 is None,
    ensures
        led_by(depth, xs, db, stmts.take(n), tx),
        xs[0] == s,
        xs.last() == triggers::ran_upto(depth, s, db, stmts, tx, n).0,
    decreases n,
{
    if n == 0 {
        seq![s]
    } else {
        let ys = lemma_all_statements(depth, s, db, stmts, tx, n - 1);
        let xs = ys.push(triggers::ran_upto(depth, s, db, stmts, tx, n).0);
        assert forall|k: int| 0 <= k < n implies made_by(depth, xs[k], db, #[trigger] stmts.take(n)[k], tx, xs[k + 1]) by {
            if k < n - 1 {
                assert(made_by(depth, ys[k], db, stmts.take(n - 1)[k], tx, ys[k + 1]));
            }
        }
        xs
    }
}

proof fn lemma_ran_so_far(depth: nat, s: StateV, db: u32, stmts: Seq<StatementV>, tx: Option<u32>, xs: Seq<StateV>, n: int)
    requires
        0 <= n <= stmts.len(),
        led_by(depth, xs, db, stmts.take(n), tx),
        xs[0] == s,
    ensures
        triggers::ran_upto(depth, s, db, stmts, tx, n) == (xs[n], None::<ErrorV>),
    decreases n,
{
    if n > 0 {
        let ys = xs.take(n);
        assert forall|k: int| 0 <= k < n - 1 implies made_by(depth, ys[k], db, #[trigger] stmts.take(n - 1)[k], tx, ys[k + 1]) by {
            assert(made_by(depth, xs[k], db, stmts.take(n)[k], tx, xs[k + 1]));
        }
        lemma_ran_so_far(depth, s, db, stmts, tx, ys, n - 1);
        assert(made_by(depth, xs[n - 1], db, stmts.take(n)[n - 1], tx, xs[n - 1 + 1]));
    }
}

proof fn lemma_ran_no_further(depth: nat, s: StateV, db: u32, stmts: Seq<StatementV>, tx: Option<u32>, n: int, m: int)
    requires
        0 <= n <= m <= stmts.len(),
        triggers::ran_upto(depth, s, db, stmts, tx, n).1 is Some,
    ensures
        triggers::ran_upto(depth, s, db, stmts, tx, m) == triggers::ran_upto(depth, s, db, stmts, tx, n),
    decreases m,
{
    if n < m {
        lemma_ran_no_further(depth, s, db, stmts, tx, n, m - 1);
    }
}

proof fn lemma_one_trigger(
    depth: nat,
    s: StateV,
    db: u32,
    t: TriggerV,
    event: TriggerEvent,
    timing: TriggerTiming,
    old_row: Option<RowV>,
    new_row: Option<RowV>,
    tx: Option<u32>,
)
    ensures
        ({
            let (b, e) = triggers::fired_listed(depth, s, db, t, event, timing, old_row, new_row, tx);
            e is None ==> takes_part(depth, s, db, t, event, timing, old_row, new_row, tx, b)
        }),
{
    let (b, e) = triggers::fired_listed(depth, s, db, t, event, timing, old_row, new_row, tx);
    if e is None && is_meant(s, db, t, event, timing, old_row, new_row) {
        match parser::statements_in(triggers::body_text(t.body, old_row, new_row)) {
            Ok(stmts) => {
                let n = stmts.len() as int;
                let xs = lemma_all_statements((depth - 1) as nat, s, db, stmts, tx, n);
                assert(stmts.take(n) =~= stmts);
                assert(led_by((depth - 1) as nat, xs, db, stmts, tx));
            },
            Err(_) => {},
        }
    }
}

/// A statement of a trigger that fails, after all before it have run, ends the trigger with its
/// error, and a trigger none of whose statements fails runs all of them.
pub proof fn lemma_trigger_stops(
    depth: nat,
    s: StateV,
    db: u32,
    t: TriggerV,
    old_row: Option<RowV>,
    new_row: Option<RowV>,
    tx: Option<u32>,
    stmts: Seq<StatementV>,
    xs: Seq<StateV>,
    n: int,
)
    requires
        depth > 0,
        triggers::fires(s, db, t, old_row, new_row) == Ok::<bool, ErrorV>(true),
        parser::statements_in(triggers::body_text(t.body, old_row, new_row)) == Ok::<Seq<StatementV>, ErrorV>(stmts),
        0 <= n <= stmts.len(),
        led_by((depth - 1) as nat, xs, db, stmts.take(n), tx),
        xs[0] == s,
    ensures
        n == stmts.len() ==> triggers::fired_one(depth, s, db, t, old_row, new_row, tx) == (xs.last(), None::<ErrorV>),
        n < stmts.len() ==> match sql::ran((depth - 1) as nat, xs.last(), db, stmts[n], Seq::empty(), tx) {
            (b, Err(x)) => triggers::fired_one(depth, s, db, t, old_row, new_row, tx) == (b, Some(x)),
            (_, Ok(_)) => true,
        },
{
    lemma_ran_so_far((depth - 1) as nat, s, db, stmts, tx, xs, n);
    if n < stmts.len() && sql::ran((depth - 1) as nat, xs[n], db, stmts[n], Seq::empty(), tx).1 is Err {
        lemma_ran_no_further((depth - 1) as nat, s, db, stmts, tx, n + 1, stmts.len() as int);
    }
}

proof fn lemma_first_triggers(
    depth: nat,
    s: StateV,
    db: u32,
    ts: Seq<TriggerV>,
    event: TriggerEvent,
    timing: TriggerTiming,
    old_row: Option<RowV>,
    new_row: Option<RowV>,
    tx: Option<u32>,
    n: int,
) -> (xs: Seq<StateV>)
    requires
        0 <= n <= ts.len(),
        triggers::fired_upto(depth, s, db, ts, event, timing, old_row, new_row, tx, n).1 is None,
    ensures
        xs.len() == n + 1,
        xs[0] == s,
        xs[n] == triggers::fired_upto(depth, s, db, ts, event, timing, old_row, new_row, tx, n).0,
        forall|k: int|
            0 <= k < n ==> takes_part(
                depth,
                xs[k],
                db,
                #[trigger] ts[k],
                event,
                timing,
                old_row,
                new_row,
                tx,
                xs[k + 1],
            ),
    decreases n,
{
    if n == 0 {
        seq![s]
    } else {
        let ys = lemma_first_triggers(depth, s, db, ts, event, timing, old_row, new_row, tx, n - 1);
        lemma_one_trigger(depth, ys[n - 1], db, ts[n - 1], event, timing, old_row, new_row, tx);
        let xs = ys.push(triggers::fired_upto(depth, s, db, ts, event, timing, old_row, new_row, tx, n).0);
        assert forall|k: int| 0 <= k < n implies takes_part(
            depth,
            xs[k],
            db,
            #[trigger] ts[k],
            event,
            timing,
            old_row,
            new_row,
            tx,
            xs[k + 1],
        ) by {
            if k < n - 1 {
                assert(takes_part(depth, ys[k], db, ts[k], event, timing, old_row, new_row, tx, ys[k + 1]));
            }
        }
        xs
    }
}

/// On a change of a row all triggers of its table take part, in the order in which they were
/// made, each on what the one before it left: those for this event and time whose condition holds
/// run every one of their statements in turn, and the others do nothing.
pub proof fn lemma_all_take_part(
    depth: nat,
    s: StateV,
    db: u32,
    table: Seq<char>,
    event: TriggerEvent,
    timing: TriggerTiming,
    old_row: Option<RowV>,
    new_row: Option<RowV>,
    tx: Option<u32>,
) -> (xs: Seq<StateV>)
    requires
        triggers::fired(depth, s, db, table, event, timing, old_row, new_row, tx).1 is None,
    ensures
        xs.len() == state::triggers_of(s, db, table).len() + 1,
        xs[0] == s,
        xs.last() == triggers::fired(depth, s, db, table, event, timing, old_row, new_row, tx).0,
        forall|k: int|
            0 <= k < state::triggers_of(s, db, table).len() ==> takes_part(
                depth,
                xs[k],
                db,
                #[trigger] state::triggers_of(s, db, table)[k],
                event,
                timing,
                old_row,
                new_row,
                tx,
                xs[k + 1],
            ),
{
    let ts = state::triggers_of(s, db, table);
    lemma_first_triggers(depth, s, db, ts, event, timing, old_row, new_row, tx, ts.len() as int)
}

proof fn lemma_row_put(s: StateV, db: u32, table: Seq<char>, id: u64, row: RowV, tx: Option<u32>, m: Map<u64, RowV>)
    requires
        state::table_rows(s, db, table) == Some(m),
    ensures
        ({
            let t = dml::row_written(s, db, table, id, row, tx);
            &&& state::table_rows(t, db, table) == Some(m.insert(id, row))
            &&& t.triggers == s.triggers
            &&& t.generators == s.generators
            &&& t.schemas == s.schemas
        }),
{
    let a = dml::journaled(state::row_stored(s, db, table, id, row), tx, UndoV::Insert { table, rowid: id });
    assoc::lemma_get_put(s.dbs.items, (db, table), m.insert(id, row));
    index::lemma_indexed_fields(a, db, table, row, id, IndexOpV::Insert);
    dml::lemma_synced_fields(index::indexed(a, db, table, row, id, IndexOpV::Insert), db, table, id, row, false);
}

proof fn lemma_rows_alone(
    depth: nat,
    s: StateV,
    db: u32,
    table: Seq<char>,
    d: SchemaV,
    rows: Seq<RowV>,
    tx: Option<u32>,
    m: Map<u64, RowV>,
    n: int,
    other: Seq<char>,
)
    requires
        state::triggers_of(s, db, table).len() == 0,
        state::table_rows(s, db, table) == Some(m),
        0 <= n <= rows.len(),
        other != table,
    ensures
        ({
            let first = state::next_rowid(s, db, table);
            let (t, e) = dml::rows_inserted(depth, s, db, table, d, rows, tx, n);
            e is None ==> {
                &&& state::table_rows(t, db, table) == Some(effects::with_new_rows(m, d, rows, first as int, n))
                &&& state::next_rowid(t, db, table) == first + n
                &&& state::triggers_of(t, db, table).len() == 0
                &&& sparing::same_table(s, t, db, other)
            }
        }),
    decreases n,
{
    if n > 0 {
        lemma_rows_alone(depth, s, db, table, d, rows, tx, m, n - 1, other);
        let first = state::next_rowid(s, db, table);
        let (p, e) = dml::rows_inserted(depth, s, db, table, d, rows, tx, n - 1);
        let id = state::next_rowid(p, db, table);
        if e is None && dml::row_inserted(depth, p, db, table, d, rows[n - 1], tx).1 is None {
            let w = effects::with_new_rows(m, d, rows, first as int, n - 1);
            let s1 = state::rowid_taken(p, db, table);
            let full = dml::with_defaults(d.columns, rows[n - 1], id, d.columns.len() as int);
            rollback::lemma_rowid_taken(p, db, table, table);
            rollback::lemma_rowid_taken(p, db, table, other);
            lemma_row_put(s1, db, table, id, full, tx, w);
            sparing::lemma_written_elsewhere(s1, db, table, id, full, tx, other);
            let s3 = dml::row_written(s1, db, table, id, full, tx);
            assert(dml::row_inserted(depth, p, db, table, d, rows[n - 1], tx).0 == s3);
            assert(effects::with_new_rows(m, d, rows, first as int, n) == w.insert(id, full));
            assert forall|name: Seq<char>| #[trigger] state::index_of(s3, db, other, name) == state::index_of(s, db, other, name) by {
                assert(state::index_of(s1, db, other, name) == state::index_of(p, db, other, name));
                assert(state::index_of(p, db, other, name) == state::index_of(s, db, other, name));
            }
        }
    }
}

/// The row of values that an INSERT into the columns of a table gives.
pub open spec fn row_of_values(d: SchemaV, columns: Seq<Seq<char>>, exprs: Seq<ExprV>) -> RowV {
    let names = dml::insert_columns(d, columns);
    dml::values_row(names, exprs, Seq::empty(), 0, names.len() as int).0
}

/// The rows of a table with a row of values more, under the next free id and with the defaults of
/// the columns that it leaves out.
pub open spec fn left_by_insert(
    s: StateV,
    db: u32,
    table: Seq<char>,
    d: SchemaV,
    m: Map<u64, RowV>,
    columns: Seq<Seq<char>>,
    exprs: Seq<ExprV>,
) -> Map<u64, RowV> {
    let id = state::next_rowid(s, db, table);
    m.insert(id, dml::with_defaults(d.columns, row_of_values(d, columns, exprs), id, d.columns.len() as int))
}

proof fn lemma_one_row_alone(
    depth: nat,
    s: StateV,
    db: u32,
    table: Seq<char>,
    columns: Seq<Seq<char>>,
    q: QueryV,
    exprs: Seq<ExprV>,
    d: SchemaV,
    m: Map<u64, RowV>,
    tx: Option<u32>,
    other: Seq<char>,
)
    requires
        state::triggers_of(s, db, table).len() == 0,
        state::table_schema(s, db, table) == Some(d),
        state::table_rows(s, db, table) == Some(m),
        q.body == SetExprV::Values(seq![exprs]),
        other != table,
    ensures
        ({
            let (t, r) = sql::ran(depth, s, db, StatementV::Insert { table, columns, source: Some(q) }, Seq::empty(), tx);
            r is Ok ==> {
                &&& state::table_rows(t, db, table) == Some(left_by_insert(s, db, table, d, m, columns, exprs))
                &&& sparing::same_table(s, t, db, other)
            }
        }),
{
    let names = dml::insert_columns(d, columns);
    let row = row_of_values(d, columns, exprs);
    assert(dml::candidate_rows(s, db, names, Some(q), Seq::empty())->Ok_0 =~= seq![row]);
    lemma_rows_alone(depth, s, db, table, d, seq![row], tx, m, 1, other);
    let first = state::next_rowid(s, db, table) as int;
    assert(effects::with_new_rows(m, d, seq![row], first, 0) == m);
    assert(effects::with_new_rows(m, d, seq![row], first, 1) == left_by_insert(s, db, table, d, m, columns, exprs));
}

/// A trigger whose body is two INSERTs, each of one row into a table without triggers, leaves the
/// row of each of them in its table, beside the rows that the table had.
pub proof fn lemma_two_inserts(
    depth: nat,
    s: StateV,
    db: u32,
    table: Seq<char>,
    t: TriggerV,
    old_row: Option<RowV>,
    new_row: Option<RowV>,
    tx: Option<u32>,
    tables: (Seq<char>, Seq<char>),
    columns: (Seq<Seq<char>>, Seq<Seq<char>>),
    queries: (QueryV, QueryV),
    exprs: (Seq<ExprV>, Seq<ExprV>),
    ds: (SchemaV, SchemaV),
    ms: (Map<u64, RowV>, Map<u64, RowV>),
)
    requires
        state::triggers_of(s, db, table) == seq![t],
        triggers::fires(s, db, t, old_row, new_row) == Ok::<bool, ErrorV>(true),
        parser::statements_in(triggers::body_text(t.body, old_row, new_row)) == Ok::<Seq<StatementV>, ErrorV>(
            seq![
                StatementV::Insert { table: tables.0, columns: columns.0, source: Some(queries.0) },
                StatementV::Insert { table: tables.1, columns: columns.1, source: Some(queries.1) },
            ],
        ),
        tables.0 != tables.1,
        state::triggers_of(s, db, tables.0).len() == 0,
        state::triggers_of(s, db, tables.1).len() == 0,
        state::table_schema(s, db, tables.0) == Some(ds.0),
        state::table_schema(s, db, tables.1) == Some(ds.1),
        state::table_rows(s, db, tables.0) == Some(ms.0),
        state::table_rows(s, db, tables.1) == Some(ms.1),
        queries.0.body == SetExprV::Values(seq![exprs.0]),
        queries.1.body == SetExprV::Values(seq![exprs.1]),
    ensures
        ({
            let (b, e) = triggers::fired(depth, s, db, table, t.event, t.timing, old_row, new_row, tx);
            e is None ==> {
                &&& state::table_rows(b, db, tables.0) == Some(left_by_insert(s, db, tables.0, ds.0, ms.0, columns.0, exprs.0))
                &&& state::table_rows(b, db, tables.1) == Some(left_by_insert(s, db, tables.1, ds.1, ms.1, columns.1, exprs.1))
            }
        }),
{
    let (b, e) = triggers::fired(depth, s, db, table, t.event, t.timing, old_row, new_row, tx);
    if e is None {
        let ss = lemma_all_take_part(depth, s, db, table, t.event, t.timing, old_row, new_row, tx);
        assert(state::triggers_of(s, db, table)[0] == t);
        assert(takes_part(depth, ss[0], db, t, t.event, t.timing, old_row, new_row, tx, ss[1]));
        let first = StatementV::Insert { table: tables.0, columns: columns.0, source: Some(queries.0) };
        let second = StatementV::Insert { table: tables.1, columns: columns.1, source: Some(queries.1) };
        let stmts = seq![first, second];
        let dd = (depth - 1) as nat;
        let xs = choose|xs: Seq<StateV>| #[trigger] led_by(dd, xs, db, stmts, tx) && xs[0] == s && xs.last() == b;
        assert(made_by(dd, xs[0], db, stmts[0], tx, xs[1]));
        assert(made_by(dd, xs[1], db, stmts[1], tx, xs[2]));
        lemma_one_row_alone(dd, s, db, tables.0, columns.0, queries.0, exprs.0, ds.0, ms.0, tx, tables.1);
        let s1 = xs[1];
        lemma_one_row_alone(dd, s1, db, tables.1, columns.1, queries.1, exprs.1, ds.1, ms.1, tx, tables.0);
    }
}

} // verus!

//! INSERT, UPDATE and DELETE.
use vstd::prelude::*;

use crate::assoc;
use crate::ast;
use crate::ast::{Assignment, AssignmentV, Expr, ExprV, Query, QueryV, SetExpr, SetExprV, Statement, StatementV};
use crate::catalog;
use crate::constraint;
use crate::error::{ErrorV, SkvsError};
use crate::expr;
use crate::expr::EvalCtx;
use crate::fts;
use crate::fts::FtsTableV;
use crate::index;
use crate::index::{IndexOp, IndexOpV};
use crate::row;
use crate::row::RowV;
use crate::schema::{ColumnV, DataType, Row, RowId, SchemaV, TableSchema, TriggerEvent, TriggerTiming, Value, ValueV};
use crate::sql;
use crate::sql::{QueryResult, ResultV};
use crate::sql::ddl;
use crate::sql::select;
use crate::state;
use crate::state::{KvsState, StateV};
use crate::store;
use crate::store::RowStore;
use crate::text;
use crate::transaction;
use crate::transaction::{UndoOp, UndoV};
use crate::triggers;

verus! {

/// The state with an entry in the journal of a transaction, where there is one.
pub open spec fn journaled(s: StateV, tx: Option<u32>, op: UndoV) -> StateV {
    match tx {
        Some(id) => StateV { txns: transaction::recorded(s.txns, id, op), ..s },
        None => s,
    }
}

fn journal(state: &mut KvsState, tx_id: Option<u32>, op: UndoOp)
    ensures
        final(state)@ == journaled(old(state)@, tx_id, op@),
{
    match tx_id {
        Some(id) => state.txns.record(id, op),
        None => {},
    }
}

/// The text of a row that a table's full-text index holds.
pub open spec fn fts_content(t: FtsTableV, row: RowV) -> Option<Seq<char>> {
    match assoc::assoc_get(row, t.content_column) {
        Some(ValueV::Text(c)) => Some(c),
        _ => None,
    }
}

/// The state with a row's text in, or out of, the full-text index of its table.
pub open spec fn fts_synced(s: StateV, db: u32, table: Seq<char>, id: u64, row: RowV, is_delete: bool) -> StateV {
    match catalog::find(s.fts, db, table) {
        Some(t) => match fts_content(t, row) {
            Some(c) => {
                let index = if is_delete {
                    fts::without_document(t.index, id, c)
                } else {
                    fts::with_document(t.index, id, c)
                };
                StateV { fts: catalog::changed(s.fts, db, table, FtsTableV { index, ..t }), ..s }
            },
            None => s,
        },
        None => s,
    }
}

/// Keeps the full-text index of a table, where it has one, in step with a row: `row` is what the
/// row holds, or held before it was deleted.
pub fn sync_fts_index(state: &mut KvsState, db_id: u32, table: &str, rowid: RowId, row: Option<&Row>, is_delete: bool)
    ensures
        final(state)@ == (match row {
            Some(r) => fts_synced(old(state)@, db_id, table@, rowid, row::cells(*r), is_delete),
            None => old(state)@,
        }),
{
    let row = match row {
        Some(row) => row,
        None => {
            return;
        },
    };
    match state.fts_tables.get_mut(db_id, table) {
        Some(t) => {
            let content: Option<String> = match row::row_get(row, t.content_column.as_str()) {
                Some(v) => match v {
                    Value::Text(c) => Some(c.clone()),
                    _ => None,
                },
                None => None,
            };
            let ghost before = (*t)@;
            match content {
                Some(c) => {
                    if is_delete {
                        t.delete(rowid, c.as_str());
                    } else {
                        t.insert(rowid, c.as_str());
                    }
                },
                None => {},
            }
        },
        None => {},
    }
    proof {
        match catalog::find(old(state)@.fts, db_id, table@) {
            Some(t) => {
                if fts_content(t, row::cells(*row)) is None {
                    assoc::lemma_put_same(old(state)@.fts.items, (db_id, table@), t);
                }
            },
            None => {},
        }
    }
}

/// The state in which the full-text index of a table has a row's new text in place of its old.
pub open spec fn fts_moved(s: StateV, db: u32, table: Seq<char>, id: u64, old_row: RowV, new_row: RowV) -> StateV {
    fts_synced(fts_synced(s, db, table, id, old_row, true), db, table, id, new_row, false)
}

/// Moves a row's entry in the full-text index of its table from its old text to its new.
pub fn sync_fts_index_change(
    state: &mut KvsState,
    db_id: u32,
    table: &str,
    rowid: RowId,
    old_row: Option<&Row>,
    new_row: Option<&Row>,
)
    ensures
        final(state)@ == ({
            let s = match old_row {
                Some(r) => fts_synced(old(state)@, db_id, table@, rowid, row::cells(*r), true),
                None => old(state)@,
            };
            match new_row {
                Some(r) => fts_synced(s, db_id, table@, rowid, row::cells(*r), false),
                None => s,
            }
        }),
{
    if old_row.is_some() {
        sync_fts_index(state, db_id, table, rowid, old_row, true);
    }
    if new_row.is_some() {
        sync_fts_index(state, db_id, table, rowid, new_row, false);
    }
}

/// The columns that an INSERT fills: those it names, else all of the table.
pub open spec fn insert_columns(d: SchemaV, columns: Seq<Seq<char>>) -> Seq<Seq<char>> {
    if columns.len() == 0 {
        select::column_names(d)
    } else {
        columns
    }
}

/// The row of a VALUES list after the first `n` columns, and the next parameter. The list starts
/// at parameter `start`.
pub open spec fn values_row(names: Seq<Seq<char>>, exprs: Seq<ExprV>, ps: Seq<ValueV>, start: int, n: int) -> (RowV, int)
    decreases n,
{
    if n <= 0 || n > names.len() {
        (Seq::empty(), start)
    } else {
        let (row, i) = values_row(names, exprs, ps, start, n - 1);
        if n - 1 < exprs.len() {
            let (v, j) = expr::eval_v(exprs[n - 1], None, ps, i);
            (assoc::assoc_put(row, names[n - 1], v), j)
        } else {
            (row, i)
        }
    }
}

/// The parameter at which the `k`-th of several VALUES lists starts: behind those of all lists
/// before it.
pub open spec fn values_start(lists: Seq<Seq<ExprV>>, k: int) -> int
    decreases k,
{
    if k <= 0 || k > lists.len() {
        0
    } else {
        expr::count_sum(
            values_start(lists, k - 1),
            expr::list_placeholders(lists[k - 1], lists[k - 1].len() as int),
        )
    }
}

/// The row that the first `n` cells of a query's row fill.
pub open spec fn filled_row(names: Seq<Seq<char>>, source: RowV, n: int) -> RowV
    decreases n,
{
    if n <= 0 || n > names.len() || n > source.len() {
        Seq::empty()
    } else {
        assoc::assoc_put(filled_row(names, source, n - 1), names[n - 1], source[n - 1].1)
    }
}

pub open spec fn lesser(a: nat, b: nat) -> int {
    if a <= b {
        a as int
    } else {
        b as int
    }
}

/// The rows that an INSERT brings; one that brings none inserts a row of defaults.
pub open spec fn candidate_rows(s: StateV, db: u32, names: Seq<Seq<char>>, source: Option<QueryV>, ps: Seq<ValueV>) -> Result<
    Seq<RowV>,
    ErrorV,
> {
    let rows: Result<Seq<RowV>, ErrorV> = match source {
        Some(q) => match q.body {
            SetExprV::Values(vs) => Ok(
                Seq::new(vs.len(), |i: int| values_row(names, vs[i], ps, values_start(vs, i), names.len() as int).0),
            ),
            SetExprV::Select(_) => match select::query_result(s, db, q, ps) {
                Ok(r) => Ok(
                    Seq::new(
                        r.rows.len(),
                        |i: int| filled_row(names, r.rows[i], lesser(names.len(), r.rows[i].len())),
                    ),
                ),
                Err(e) => Err(e),
            },
            SetExprV::Other => Err(ErrorV::Unsupported("Unsupported INSERT source"@)),
        },
        None => Ok(Seq::empty()),
    };
    match rows {
        Ok(v) => if v.len() == 0 {
            Ok(seq![Seq::empty()])
        } else {
            Ok(v)
        },
        Err(e) => Err(e),
    }
}

/// What a column holds that an INSERT leaves out: the row's id for an integer primary key, else
/// its default, else null.
pub open spec fn default_value(c: ColumnV, rowid: u64) -> ValueV {
    if c.primary_key && c.data_type == DataType::Integer {
        ValueV::Integer(rowid as i64)
    } else {
        match c.default {
            Some(v) => v,
            None => ValueV::Null,
        }
    }
}

/// A row with the defaults of the first `n` columns that it leaves out.
pub open spec fn with_defaults(columns: Seq<(Seq<char>, ColumnV)>, row: RowV, rowid: u64, n: int) -> RowV
    decreases n,
{
    if n <= 0 || n > columns.len() {
        row
    } else {
        let p = with_defaults(columns, row, rowid, n - 1);
        let (name, c) = columns[n - 1];
        if assoc::assoc_get(p, name) is None {
            assoc::assoc_put(p, name, default_value(c, rowid))
        } else {
            p
        }
    }
}

fn names_to_fill(schema: &TableSchema, columns: &Vec<String>) -> (r: Vec<String>)
    ensures
        r.deep_view() == insert_columns(schema@, columns.deep_view()),
{
    if columns.len() == 0 {
        select::names_of_columns(schema)
    } else {
        text::copy_texts(columns)
    }
}

fn read_values_row(names: &Vec<String>, exprs: &Vec<Expr>, params: &[Value], start: usize) -> (r: Row)
    ensures
        row::cells(r) == values_row(
            names.deep_view(),
            exprs.deep_view(),
            params.deep_view(),
            start as int,
            names@.len() as int,
        ).0,
{
    let ghost nv: Seq<Seq<char>> = names.deep_view();
    let ghost ev = exprs.deep_view();
    let ctx = EvalCtx::no_row();
    let mut row = row::row_new();
    let mut idx: usize = start;
    let mut i: usize = 0;
    while i < names.len()
        invariant
            i <= names@.len(),
            nv == names.deep_view(),
            ev == exprs.deep_view(),
            ctx.row_view() == None::<RowV>,
            (row::cells(row), idx as int) == values_row(nv, ev, params.deep_view(), start as int, i as int),
        decreases names@.len() - i,
    {
        assert(nv[i as int] == names@[i as int]@);
        if i < exprs.len() {
            assert(ev[i as int] == exprs@[i as int]@);
            let v = expr::eval(&exprs[i], &ctx, params, &mut idx);
            row::row_put(&mut row, names[i].clone(), v);
        }
        i = i + 1;
    }
    row
}

fn fill_row(names: &Vec<String>, source: &Row) -> (r: Row)
    ensures
        row::cells(r) == filled_row(names.deep_view(), row::cells(*source), lesser(names@.len(), row::cells(*source).len())),
{
    let ghost nv: Seq<Seq<char>> = names.deep_view();
    let len: usize = row::row_len(source);
    let n: usize = if names.len() <= len {
        names.len()
    } else {
        len
    };
    let mut row = row::row_new();
    let mut i: usize = 0;
    while i < n
        invariant
            i <= n,
            n <= names@.len(),
            n <= row::cells(*source).len(),
            nv == names.deep_view(),
            row::cells(row) == filled_row(nv, row::cells(*source), i as int),
        decreases n - i,
    {
        assert(nv[i as int] == names@[i as int]@);
        match row::row_at(source, i) {
            Some((_, v)) => row::row_put(&mut row, names[i].clone(), v.clone()),
            None => {},
        }
        i = i + 1;
    }
    row
}

fn rows_of_values(names: &Vec<String>, values: &Vec<Vec<Expr>>, params: &[Value]) -> (r: Vec<Row>)
    ensures
        select::rows_view(r@) == Seq::new(
            values@.len(),
            |i: int|
                values_row(
                    names.deep_view(),
                    values.deep_view()[i],
                    params.deep_view(),
                    values_start(values.deep_view(), i),
                    names@.len() as int,
                ).0,
        ),
{
    let ghost nv: Seq<Seq<char>> = names.deep_view();
    let ghost vv: Seq<Seq<ExprV>> = values.deep_view();
    let ghost pv = params.deep_view();
    let mut out: Vec<Row> = Vec::new();
    let mut start: usize = 0;
    let mut i: usize = 0;
    while i < values.len()
        invariant
            i <= values@.len(),
            nv == names.deep_view(),
            vv == values.deep_view(),
            pv == params.deep_view(),
            start == values_start(vv, i as int),
            out@.len() == i,
            forall|j: int|
                0 <= j < i ==> row::cells(#[trigger] out@[j]) == values_row(
                    nv,
                    vv[j],
                    pv,
                    values_start(vv, j),
                    names@.len() as int,
                ).0,
        decreases values@.len() - i,
    {
        assert(vv[i as int] == values@[i as int].deep_view());
        assert(ast::exprs_view(values@[i as int]@) =~= vv[i as int]);
        out.push(read_values_row(names, &values[i], params, start));
        start = expr::saturating(start, expr::count_list(&values[i]));
        i = i + 1;
    }
    assert(select::rows_view(out@) =~= Seq::new(
        values@.len(),
        |i: int| values_row(nv, vv[i], pv, values_start(vv, i), names@.len() as int).0,
    ));
    out
}

fn rows_of_query(names: &Vec<String>, rows: &Vec<Row>) -> (r: Vec<Row>)
    ensures
        select::rows_view(r@) == Seq::new(
            rows@.len(),
            |i: int|
                filled_row(
                    names.deep_view(),
                    select::rows_view(rows@)[i],
                    lesser(names@.len(), select::rows_view(rows@)[i].len()),
                ),
        ),
{
    let ghost nv: Seq<Seq<char>> = names.deep_view();
    let ghost rv = select::rows_view(rows@);
    let mut out: Vec<Row> = Vec::new();
    let mut i: usize = 0;
    while i < rows.len()
        invariant
            i <= rows@.len(),
            nv == names.deep_view(),
            rv == select::rows_view(rows@),
            out@.len() == i,
            forall|j: int|
                0 <= j < i ==> row::cells(#[trigger] out@[j]) == filled_row(nv, rv[j], lesser(names@.len(), rv[j].len())),
        decreases rows@.len() - i,
    {
        assert(rv[i as int] == row::cells(rows@[i as int]));
        out.push(fill_row(names, &rows[i]));
        i = i + 1;
    }
    assert(select::rows_view(out@) =~= Seq::new(
        rows@.len(),
        |i: int| filled_row(nv, rv[i], lesser(names@.len(), rv[i].len())),
    ));
    out
}

fn read_candidate_rows(
    state: &KvsState,
    db_id: u32,
    names: &Vec<String>,
    source: &Option<Query>,
    params: &[Value],
    tx_id: Option<u32>,
) -> (r: Result<Vec<Row>, SkvsError>)
    ensures
        select::rows_outcome(r) == candidate_rows(
            state@,
            db_id,
            names.deep_view(),
            source.deep_view(),
            params.deep_view(),
        ),
{
    let mut rows: Vec<Row> = Vec::new();
    assert(select::rows_view(rows@) =~= Seq::empty());
    match source {
        Some(q) => match &q.body {
            SetExpr::Values(values) => {
                rows = rows_of_values(names, values, params);
            },
            SetExpr::Select(_) => match select::execute_select(state, db_id, q, params, tx_id) {
                Ok(inner) => {
                    rows = rows_of_query(names, &inner.rows);
                },
                Err(e) => {
                    return Err(e);
                },
            },
            SetExpr::Other => {
                return Err(SkvsError::Unsupported("Unsupported INSERT source".to_owned()));
            },
        },
        None => {},
    }
    if rows.len() == 0 {
        assert(select::rows_view(rows@) =~= Seq::empty());
        rows.push(row::row_new());
        assert(select::rows_view(rows@) =~= seq![Seq::empty()]);
    }
    Ok(rows)
}

fn fill_defaults(schema: &TableSchema, row: &mut Row, rowid: RowId)
    ensures
        row::cells(*final(row)) == with_defaults(schema@.columns, row::cells(*old(row)), rowid, schema@.columns.len() as int),
{
    let ghost start = row::cells(*row);
    let ghost cs = schema@.columns;
    let n: usize = row::columns_len(&schema.columns);
    let mut i: usize = 0;
    while i < n
        invariant
            i <= n,
            n == cs.len(),
            cs == row::column_list(schema.columns),
            row::cells(*row) == with_defaults(cs, start, rowid, i as int),
        decreases n - i,
    {
        match row::columns_at(&schema.columns, i) {
            Some((name, c)) => {
                let absent: bool = match row::row_get(row, name.as_str()) {
                    Some(_) => false,
                    None => true,
                };
                if absent {
                    let v = if c.primary_key && matches!(c.data_type, DataType::Integer) {
                        Value::Integer(rowid as i64)
                    } else {
                        match &c.default {
                            Some(v) => v.clone(),
                            None => Value::Null,
                        }
                    };
                    row::row_put(row, name.clone(), v);
                }
            },
            None => {},
        }
        i = i + 1;
    }
}

/// How many placeholders the first `n` assignments hold.
pub open spec fn set_placeholders(assignments: Seq<AssignmentV>, n: int) -> int
    decreases n,
{
    if n <= 0 || n > assignments.len() {
        0
    } else {
        expr::count_sum(set_placeholders(assignments, n - 1), expr::placeholders(assignments[n - 1].value))
    }
}

fn count_set_placeholders(assignments: &Vec<Assignment>) -> (r: usize)
    ensures
        r == set_placeholders(assignments.deep_view(), assignments@.len() as int),
{
    let ghost av = assignments.deep_view();
    let mut total: usize = 0;
    let mut i: usize = 0;
    while i < assignments.len()
        invariant
            i <= assignments@.len(),
            av == assignments.deep_view(),
            total == set_placeholders(av, i as int),
        decreases assignments@.len() - i,
    {
        assert(av[i as int] == assignments@[i as int]@);
        let n: usize = expr::count_placeholders(&assignments[i].value);
        total = if n > usize::MAX - total {
            usize::MAX
        } else {
            total + n
        };
        i = i + 1;
    }
    total
}

/// The first `n` rows of a list of which a condition holds; its parameters start at `start`.
pub open spec fn matching_upto(
    s: StateV,
    db: u32,
    list: Seq<(u64, RowV)>,
    selection: Option<ExprV>,
    ps: Seq<ValueV>,
    start: int,
    n: int,
) -> Seq<(u64, RowV)>
    decreases n,
{
    if n <= 0 || n > list.len() {
        Seq::empty()
    } else {
        let p = matching_upto(s, db, list, selection, ps, start, n - 1);
        let keep = match selection {
            Some(e) => select::holds(s.fts, db, list[n - 1].1, e, ps, start).0,
            None => true,
        };
        if keep {
            p.push(list[n - 1])
        } else {
            p
        }
    }
}

/// The rows of a table, with their ids, of which a condition holds.
pub open spec fn matching(
    s: StateV,
    db: u32,
    m: Map<u64, RowV>,
    selection: Option<ExprV>,
    ps: Seq<ValueV>,
    start: int,
) -> Seq<(u64, RowV)> {
    matching_upto(s, db, store::row_list(m), selection, ps, start, store::row_list(m).len() as int)
}

fn read_matching(state: &KvsState, db_id: u32, store: &RowStore, selection: &Option<Expr>, params: &[Value], start: usize) -> (r:
    Vec<(RowId, Row)>)
    ensures
        store::row_pairs(r@) == matching(
            state@,
            db_id,
            store@,
            selection.deep_view(),
            params.deep_view(),
            start as int,
        ),
{
    let entries = store.entries();
    let ghost l = store::row_list(store@);
    let ghost sv = selection.deep_view();
    let ghost pv = params.deep_view();
    let mut out: Vec<(u64, Row)> = Vec::new();
    let mut i: usize = 0;
    assert(store::row_pairs(out@) =~= Seq::empty());
    assert(store::row_pairs(entries@).len() == entries@.len());
    while i < entries.len()
        invariant
            i <= entries@.len(),
            l == store::row_pairs(entries@),
            entries@.len() == l.len(),
            sv == selection.deep_view(),
            pv == params.deep_view(),
            store::row_pairs(out@) == matching_upto(state@, db_id, l, sv, pv, start as int, i as int),
        decreases entries@.len() - i,
    {
        assert(l[i as int] == (entries@[i as int].0, row::cells(entries@[i as int].1)));
        let keep: bool = match selection {
            Some(e) => {
                let mut idx: usize = start;
                select::evaluate_where_ctx(state, db_id, &entries[i].1, e, params, &mut idx)
            },
            None => true,
        };
        if keep {
            let ghost before = store::row_pairs(out@);
            out.push((entries[i].0, row::row_copy(&entries[i].1)));
            assert(store::row_pairs(out@) =~= before.push(l[i as int]));
        }
        i = i + 1;
    }
    out
}

/// A row after the first `n` assignments, and the next parameter. Every assignment sees the row
/// as it was.
pub open spec fn assigned(assignments: Seq<AssignmentV>, old_row: RowV, ps: Seq<ValueV>, n: int) -> (RowV, int)
    decreases n,
{
    if n <= 0 || n > assignments.len() {
        (old_row, 0)
    } else {
        let (row, i) = assigned(assignments, old_row, ps, n - 1);
        let (v, j) = expr::eval_v(assignments[n - 1].value, Some(old_row), ps, i);
        (assoc::assoc_put(row, assignments[n - 1].column, v), j)
    }
}

fn assign(assignments: &Vec<Assignment>, old_row: &Row, params: &[Value]) -> (r: Row)
    ensures
        row::cells(r) == assigned(
            assignments.deep_view(),
            row::cells(*old_row),
            params.deep_view(),
            assignments@.len() as int,
        ).0,
{
    let ghost av = assignments.deep_view();
    let ctx = EvalCtx::with_row(old_row);
    let mut row = row::row_copy(old_row);
    let mut idx: usize = 0;
    let mut i: usize = 0;
    while i < assignments.len()
        invariant
            i <= assignments@.len(),
            av == assignments.deep_view(),
            ctx.row_view() == Some(row::cells(*old_row)),
            (row::cells(row), idx as int) == assigned(av, row::cells(*old_row), params.deep_view(), i as int),
        decreases assignments@.len() - i,
    {
        assert(av[i as int] == assignments@[i as int]@);
        let v = expr::eval(&assignments[i].value, &ctx, params, &mut idx);
        row::row_put(&mut row, assignments[i].column.clone(), v);
        i = i + 1;
    }
    row
}

/// What the insertion of one row does. The constraints are those of the table as the statement
/// found it.
pub open spec fn row_inserted(depth: nat, s: StateV, db: u32, table: Seq<char>, d: SchemaV, row: RowV, tx: Option<u32>) -> (
    StateV,
    Option<ErrorV>,
)
    decreases depth, 4nat, 0int,
{
    let id = state::next_rowid(s, db, table);
    let s1 = state::rowid_taken(s, db, table);
    let full = with_defaults(d.columns, row, id, d.columns.len() as int);
    if id == u64::MAX {
        (s, Some(no_ids_left(table)))
    } else {
        match constraint::first_violation(s1, db, d, full, id) {
            Some(e) => (s1, Some(e)),
            None => {
                let (s2, e2) = triggers::fired(
                    depth,
                    s1,
                    db,
                    table,
                    TriggerEvent::Insert,
                    TriggerTiming::Before,
                    None,
                    Some(full),
                    tx,
                );
                if e2 is Some {
                    (s2, e2)
                } else {
                    triggers::fired(
                        depth,
                        row_written(s2, db, table, id, full, tx),
                        db,
                        table,
                        TriggerEvent::Insert,
                        TriggerTiming::After,
                        None,
                        Some(full),
                        tx,
                    )
                }
            },
        }
    }
}

pub open spec fn no_ids_left(table: Seq<char>) -> ErrorV {
    ErrorV::Storage("No row ids left for table "@ + table)
}

/// The state with a new row, its journal entry, and the indexes that follow it.
pub open spec fn row_written(s: StateV, db: u32, table: Seq<char>, id: u64, row: RowV, tx: Option<u32>) -> StateV {
    let a = journaled(state::row_stored(s, db, table, id, row), tx, UndoV::Insert { table, rowid: id });
    fts_synced(index::indexed(a, db, table, row, id, IndexOpV::Insert), db, table, id, row, false)
}

/// What the insertion of the first `n` rows does.
pub open spec fn rows_inserted(
    depth: nat,
    s: StateV,
    db: u32,
    table: Seq<char>,
    d: SchemaV,
    rows: Seq<RowV>,
    tx: Option<u32>,
    n: int,
) -> (StateV, Option<ErrorV>)
    decreases depth, 5nat, n,
{
    if n <= 0 || n > rows.len() {
        (s, None)
    } else {
        let (p, e) = rows_inserted(depth, s, db, table, d, rows, tx, n - 1);
        if e is Some {
            (p, e)
        } else {
            row_inserted(depth, p, db, table, d, rows[n - 1], tx)
        }
    }
}

/// What a statement that changes `n` rows, or fails, gives.
pub open spec fn counted(x: (StateV, Option<ErrorV>), n: nat) -> (StateV, Result<ResultV, ErrorV>) {
    match x.1 {
        Some(e) => (x.0, Err(e)),
        None => (x.0, Ok(sql::affected_result(n as u64))),
    }
}

/// What INSERT does.
pub open spec fn inserted(
    depth: nat,
    s: StateV,
    db: u32,
    table: Seq<char>,
    columns: Seq<Seq<char>>,
    source: Option<QueryV>,
    ps: Seq<ValueV>,
    tx: Option<u32>,
) -> (StateV, Result<ResultV, ErrorV>)
    decreases depth, 6nat, 0int,
{
    match state::table_schema(s, db, table) {
        None => (s, Err(select::table_missing(table))),
        Some(d) => if state::table_rows(s, db, table) is None {
            (s, Err(ErrorV::Schema("Store for "@ + table + " not found"@)))
        } else {
            match candidate_rows(s, db, insert_columns(d, columns), source, ps) {
                Err(e) => (s, Err(e)),
                Ok(rows) => counted(rows_inserted(depth, s, db, table, d, rows, tx, rows.len() as int), rows.len()),
            }
        },
    }
}

/// The state with a changed row, its journal entry, and the indexes that follow it.
pub open spec fn row_rewritten(
    s: StateV,
    db: u32,
    table: Seq<char>,
    id: u64,
    old_row: RowV,
    new_row: RowV,
    tx: Option<u32>,
) -> StateV {
    let a = journaled(state::row_stored(s, db, table, id, new_row), tx, UndoV::Update { table, rowid: id, old_row });
    fts_moved(index::indexed(a, db, table, new_row, id, IndexOpV::Update { old_row }), db, table, id, old_row, new_row)
}

/// What the change of one row does.
pub open spec fn row_updated(
    depth: nat,
    s: StateV,
    db: u32,
    table: Seq<char>,
    d: SchemaV,
    id: u64,
    old_row: RowV,
    assignments: Seq<AssignmentV>,
    ps: Seq<ValueV>,
    tx: Option<u32>,
) -> (StateV, Option<ErrorV>)
    decreases depth, 4nat, 0int,
{
    let new_row = assigned(assignments, old_row, ps, assignments.len() as int).0;
    match constraint::first_violation(s, db, d, new_row, id) {
        Some(e) => (s, Some(e)),
        None => {
            let (s2, e2) = triggers::fired(
                depth,
                s,
                db,
                table,
                TriggerEvent::Update,
                TriggerTiming::Before,
                Some(old_row),
                Some(new_row),
                tx,
            );
            if e2 is Some {
                (s2, e2)
            } else {
                triggers::fired(
                    depth,
                    row_rewritten(s2, db, table, id, old_row, new_row, tx),
                    db,
                    table,
                    TriggerEvent::Update,
                    TriggerTiming::After,
                    Some(old_row),
                    Some(new_row),
                    tx,
                )
            }
        },
    }
}

/// What the change of the first `n` rows does.
pub open spec fn rows_updated(
    depth: nat,
    s: StateV,
    db: u32,
    table: Seq<char>,
    d: SchemaV,
    rows: Seq<(u64, RowV)>,
    assignments: Seq<AssignmentV>,
    ps: Seq<ValueV>,
    tx: Option<u32>,
    n: int,
) -> (StateV, Option<ErrorV>)
    decreases depth, 5nat, n,
{
    if n <= 0 || n > rows.len() {
        (s, None)
    } else {
        let (p, e) = rows_updated(depth, s, db, table, d, rows, assignments, ps, tx, n - 1);
        if e is Some {
            (p, e)
        } else {
            row_updated(depth, p, db, table, d, rows[n - 1].0, rows[n - 1].1, assignments, ps, tx)
        }
    }
}

/// What UPDATE does. The parameters of its condition come behind those of its assignments.
pub open spec fn updated(
    depth: nat,
    s: StateV,
    db: u32,
    table: Seq<char>,
    assignments: Seq<AssignmentV>,
    selection: Option<ExprV>,
    ps: Seq<ValueV>,
    tx: Option<u32>,
) -> (StateV, Result<ResultV, ErrorV>)
    decreases depth, 6nat, 0int,
{
    match state::table_rows(s, db, table) {
        None => (s, Err(select::table_missing(table))),
        Some(m) => match state::table_schema(s, db, table) {
            None => (s, Err(ErrorV::Schema("Schema for "@ + table + " not found"@))),
            Some(d) => {
                let start = set_placeholders(assignments, assignments.len() as int);
                let rows = matching(s, db, m, selection, ps, start);
                counted(
                    rows_updated(depth, s, db, table, d, rows, assignments, ps, tx, rows.len() as int),
                    rows.len(),
                )
            },
        },
    }
}

/// The state without a row, with its journal entry, and the indexes that follow it.
pub open spec fn row_erased(s: StateV, db: u32, table: Seq<char>, id: u64, row: RowV, tx: Option<u32>) -> StateV {
    let a = journaled(state::row_dropped(s, db, table, id), tx, UndoV::Delete { table, rowid: id, row });
    fts_synced(index::indexed(a, db, table, row, id, IndexOpV::Delete), db, table, id, row, true)
}

/// What the deletion of one row does.
pub open spec fn row_deleted(depth: nat, s: StateV, db: u32, table: Seq<char>, id: u64, row: RowV, tx: Option<u32>) -> (
    StateV,
    Option<ErrorV>,
)
    decreases depth, 4nat, 0int,
{
    let (s2, e2) = triggers::fired(
        depth,
        s,
        db,
        table,
        TriggerEvent::Delete,
        TriggerTiming::Before,
        Some(row),
        None,
        tx,
    );
    if e2 is Some {
        (s2, e2)
    } else {
        triggers::fired(
            depth,
            row_erased(s2, db, table, id, row, tx),
            db,
            table,
            TriggerEvent::Delete,
            TriggerTiming::After,
            Some(row),
            None,
            tx,
        )
    }
}

/// What the deletion of the first `n` rows does.
pub open spec fn rows_deleted(
    depth: nat,
    s: StateV,
    db: u32,
    table: Seq<char>,
    rows: Seq<(u64, RowV)>,
    tx: Option<u32>,
    n: int,
) -> (StateV, Option<ErrorV>)
    decreases depth, 5nat, n,
{
    if n <= 0 || n > rows.len() {
        (s, None)
    } else {
        let (p, e) = rows_deleted(depth, s, db, table, rows, tx, n - 1);
        if e is Some {
            (p, e)
        } else {
            row_deleted(depth, p, db, table, rows[n - 1].0, rows[n - 1].1, tx)
        }
    }
}

/// What DELETE does.
pub open spec fn deleted(
    depth: nat,
    s: StateV,
    db: u32,
    table: Option<Seq<char>>,
    selection: Option<ExprV>,
    ps: Seq<ValueV>,
    tx: Option<u32>,
) -> (StateV, Result<ResultV, ErrorV>)
    decreases depth, 6nat, 0int,
{
    match table {
        None => (s, Err(ErrorV::Unsupported("DELETE without a target table"@))),
        Some(t) => match state::table_rows(s, db, t) {
            None => (s, Err(select::table_missing(t))),
            Some(m) => {
                let rows = matching(s, db, m, selection, ps, 0);
                counted(rows_deleted(depth, s, db, t, rows, tx, rows.len() as int), rows.len())
            },
        },
    }
}

fn insert_one(state: &mut KvsState, db_id: u32, table: &str, schema: &TableSchema, row: Row, tx_id: Option<u32>, depth: u64) -> (r:
    Result<(), SkvsError>)
    ensures
        (final(state)@, constraint::failure(r)) == row_inserted(
            depth as nat,
            old(state)@,
            db_id,
            table@,
            schema@,
            row::cells(row),
            tx_id,
        ),
    decreases depth, 4nat,
{
    if !state.has_rowids(db_id, table) {
        return Err(SkvsError::Storage(text::text2("No row ids left for table ", table)));
    }
    let rowid: u64 = state.get_next_rowid(db_id, table);
    let mut row = row;
    fill_defaults(schema, &mut row, rowid);
    match constraint::validate_constraints(state, db_id, schema, &row, rowid, None) {
        Ok(_) => {},
        Err(e) => {
            return Err(e);
        },
    }
    match triggers::fire_within(state, db_id, table, TriggerEvent::Insert, TriggerTiming::Before, None, Some(&row), tx_id, depth) {
        Ok(_) => {},
        Err(e) => {
            return Err(e);
        },
    }
    state.store_row(db_id, table, rowid, row::row_copy(&row));
    journal(state, tx_id, UndoOp::Insert { table: table.to_owned(), rowid });
    let _ = index::update_indexes(state, db_id, table, &row, rowid, &IndexOp::Insert);
    sync_fts_index(state, db_id, table, rowid, Some(&row), false);
    triggers::fire_within(state, db_id, table, TriggerEvent::Insert, TriggerTiming::After, None, Some(&row), tx_id, depth)
}

proof fn lemma_insert_fails(
    depth: nat,
    s: StateV,
    db: u32,
    table: Seq<char>,
    d: SchemaV,
    rows: Seq<RowV>,
    tx: Option<u32>,
    m: int,
    n: int,
)
    requires
        0 <= m <= n <= rows.len(),
        rows_inserted(depth, s, db, table, d, rows, tx, m).1 is Some,
    ensures
        rows_inserted(depth, s, db, table, d, rows, tx, n) == rows_inserted(depth, s, db, table, d, rows, tx, m),
    decreases n,
{
    if m < n {
        lemma_insert_fails(depth, s, db, table, d, rows, tx, m, n - 1);
    }
}

fn insert_all(
    state: &mut KvsState,
    db_id: u32,
    table: &str,
    schema: &TableSchema,
    rows: &Vec<Row>,
    tx_id: Option<u32>,
    depth: u64,
) -> (r: Result<(), SkvsError>)
    ensures
        (final(state)@, constraint::failure(r)) == rows_inserted(
            depth as nat,
            old(state)@,
            db_id,
            table@,
            schema@,
            select::rows_view(rows@),
            tx_id,
            rows@.len() as int,
        ),
    decreases depth, 5nat,
{
    let ghost start = state@;
    let ghost rv = select::rows_view(rows@);
    let mut i: usize = 0;
    while i < rows.len()
        invariant
            i <= rows@.len(),
            rv == select::rows_view(rows@),
            start == old(state)@,
            (state@, None::<ErrorV>) == rows_inserted(
                depth as nat,
                start,
                db_id,
                table@,
                schema@,
                rv,
                tx_id,
                i as int,
            ),
        decreases rows@.len() - i,
    {
        assert(rv[i as int] == row::cells(rows@[i as int]));
        match insert_one(state, db_id, table, schema, row::row_copy(&rows[i]), tx_id, depth) {
            Ok(_) => {},
            Err(e) => {
                proof {
                    lemma_insert_fails(depth as nat, start, db_id, table@, schema@, rv, tx_id, i + 1, rv.len() as int);
                }
                return Err(e);
            },
        }
        i = i + 1;
    }
    Ok(())
}

/// Runs INSERT; triggers may run at most `depth` deep in each other.
pub fn insert_within(state: &mut KvsState, db_id: u32, stmt: &Statement, params: &[Value], tx_id: Option<u32>, depth: u64) -> (r:
    Result<QueryResult, SkvsError>)
    ensures
        ddl::step(final(state)@, r) == (match stmt@ {
            StatementV::Insert { table, columns, source } => inserted(
                depth as nat,
                old(state)@,
                db_id,
                table,
                columns,
                source,
                params.deep_view(),
                tx_id,
            ),
            _ => (old(state)@, Err(ErrorV::Unsupported("Not an INSERT statement"@))),
        }),
    decreases depth, 6nat,
{
    match stmt {
        Statement::Insert { table, columns, source } => {
            let schema: TableSchema = match state.get_schema(db_id, table.as_str()) {
                Some(d) => d.clone(),
                None => {
                    return Err(select::no_table(table.as_str()));
                },
            };
            if state.get_table_store(db_id, table.as_str()).is_none() {
                return Err(SkvsError::Schema(text::text3("Store for ", table.as_str(), " not found")));
            }
            let names = names_to_fill(&schema, columns);
            let rows = match read_candidate_rows(state, db_id, &names, source, params, tx_id) {
                Ok(rows) => rows,
                Err(e) => {
                    return Err(e);
                },
            };
            match insert_all(state, db_id, table.as_str(), &schema, &rows, tx_id, depth) {
                Ok(_) => Ok(QueryResult::affected(rows.len() as u64)),
                Err(e) => Err(e),
            }
        },
        _ => Err(SkvsError::Unsupported("Not an INSERT statement".to_owned())),
    }
}

fn update_one(
    state: &mut KvsState,
    db_id: u32,
    table: &str,
    schema: &TableSchema,
    rowid: RowId,
    old_row: &Row,
    assignments: &Vec<Assignment>,
    params: &[Value],
    tx_id: Option<u32>,
    depth: u64,
) -> (r: Result<(), SkvsError>)
    ensures
        (final(state)@, constraint::failure(r)) == row_updated(
            depth as nat,
            old(state)@,
            db_id,
            table@,
            schema@,
            rowid,
            row::cells(*old_row),
            assignments.deep_view(),
            params.deep_view(),
            tx_id,
        ),
    decreases depth, 4nat,
{
    let new_row = assign(assignments, old_row, params);
    match constraint::validate_constraints(state, db_id, schema, &new_row, rowid, Some(old_row)) {
        Ok(_) => {},
        Err(e) => {
            return Err(e);
        },
    }
    match triggers::fire_within(
        state,
        db_id,
        table,
        TriggerEvent::Update,
        TriggerTiming::Before,
        Some(old_row),
        Some(&new_row),
        tx_id,
        depth,
    ) {
        Ok(_) => {},
        Err(e) => {
            return Err(e);
        },
    }
    state.store_row(db_id, table, rowid, row::row_copy(&new_row));
    journal(state, tx_id, UndoOp::Update { table: table.to_owned(), rowid, old_row: row::row_copy(old_row) });
    let op = IndexOp::Update { old_row: row::row_copy(old_row) };
    let _ = index::update_indexes(state, db_id, table, &new_row, rowid, &op);
    sync_fts_index_change(state, db_id, table, rowid, Some(old_row), Some(&new_row));
    triggers::fire_within(
        state,
        db_id,
        table,
        TriggerEvent::Update,
        TriggerTiming::After,
        Some(old_row),
        Some(&new_row),
        tx_id,
        depth,
    )
}

proof fn lemma_update_fails(
    depth: nat,
    s: StateV,
    db: u32,
    table: Seq<char>,
    d: SchemaV,
    rows: Seq<(u64, RowV)>,
    assignments: Seq<AssignmentV>,
    ps: Seq<ValueV>,
    tx: Option<u32>,
    m: int,
    n: int,
)
    requires
        0 <= m <= n <= rows.len(),
        rows_updated(depth, s, db, table, d, rows, assignments, ps, tx, m).1 is Some,
    ensures
        rows_updated(depth, s, db, table, d, rows, assignments, ps, tx, n) == rows_updated(
            depth,
            s,
            db,
            table,
            d,
            rows,
            assignments,
            ps,
            tx,
            m,
        ),
    decreases n,
{
    if m < n {
        lemma_update_fails(depth, s, db, table, d, rows, assignments, ps, tx, m, n - 1);
    }
}

fn update_all(
    state: &mut KvsState,
    db_id: u32,
    table: &str,
    schema: &TableSchema,
    rows: &Vec<(RowId, Row)>,
    assignments: &Vec<Assignment>,
    params: &[Value],
    tx_id: Option<u32>,
    depth: u64,
) -> (r: Result<(), SkvsError>)
    ensures
        (final(state)@, constraint::failure(r)) == rows_updated(
            depth as nat,
            old(state)@,
            db_id,
            table@,
            schema@,
            store::row_pairs(rows@),
            assignments.deep_view(),
            params.deep_view(),
            tx_id,
            rows@.len() as int,
        ),
    decreases depth, 5nat,
{
    let ghost start = state@;
    let ghost rv = store::row_pairs(rows@);
    let ghost av = assignments.deep_view();
    let ghost pv = params.deep_view();
    let mut i: usize = 0;
    while i < rows.len()
        invariant
            i <= rows@.len(),
            rv == store::row_pairs(rows@),
            av == assignments.deep_view(),
            pv == params.deep_view(),
            start == old(state)@,
            (state@, None::<ErrorV>) == rows_updated(
                depth as nat,
                start,
                db_id,
                table@,
                schema@,
                rv,
                av,
                pv,
                tx_id,
                i as int,
            ),
        decreases rows@.len() - i,
    {
        assert(rv[i as int] == (rows@[i as int].0, row::cells(rows@[i as int].1)));
        match update_one(state, db_id, table, schema, rows[i].0, &rows[i].1, assignments, params, tx_id, depth) {
            Ok(_) => {},
            Err(e) => {
                proof {
                    lemma_update_fails(
                        depth as nat,
                        start,
                        db_id,
                        table@,
                        schema@,
                        rv,
                        av,
                        pv,
                        tx_id,
                        i + 1,
                        rv.len() as int,
                    );
                }
                return Err(e);
            },
        }
        i = i + 1;
    }
    Ok(())
}

/// Runs UPDATE; triggers may run at most `depth` deep in each other.
pub fn update_within(state: &mut KvsState, db_id: u32, stmt: &Statement, params: &[Value], tx_id: Option<u32>, depth: u64) -> (r:
    Result<QueryResult, SkvsError>)
    ensures
        ddl::step(final(state)@, r) == (match stmt@ {
            StatementV::Update { table, assignments, selection } => updated(
                depth as nat,
                old(state)@,
                db_id,
                table,
                assignments,
                selection,
                params.deep_view(),
                tx_id,
            ),
            _ => (old(state)@, Err(ErrorV::Unsupported("Not an UPDATE statement"@))),
        }),
    decreases depth, 6nat,
{
    match stmt {
        Statement::Update { table, assignments, selection } => {
            let start: usize = count_set_placeholders(assignments);
            let rows = match state.get_table_store(db_id, table.as_str()) {
                Some(store) => read_matching(state, db_id, store, selection, params, start),
                None => {
                    return Err(select::no_table(table.as_str()));
                },
            };
            let schema: TableSchema = match state.get_schema(db_id, table.as_str()) {
                Some(d) => d.clone(),
                None => {
                    return Err(SkvsError::Schema(text::text3("Schema for ", table.as_str(), " not found")));
                },
            };
            match update_all(state, db_id, table.as_str(), &schema, &rows, assignments, params, tx_id, depth) {
                Ok(_) => Ok(QueryResult::affected(rows.len() as u64)),
                Err(e) => Err(e),
            }
        },
        _ => Err(SkvsError::Unsupported("Not an UPDATE statement".to_owned())),
    }
}

fn delete_one(state: &mut KvsState, db_id: u32, table: &str, rowid: RowId, row: &Row, tx_id: Option<u32>, depth: u64) -> (r:
    Result<(), SkvsError>)
    ensures
        (final(state)@, constraint::failure(r)) == row_deleted(
            depth as nat,
            old(state)@,
            db_id,
            table@,
            rowid,
            row::cells(*row),
            tx_id,
        ),
    decreases depth, 4nat,
{
    match triggers::fire_within(state, db_id, table, TriggerEvent::Delete, TriggerTiming::Before, Some(row), None, tx_id, depth) {
        Ok(_) => {},
        Err(e) => {
            return Err(e);
        },
    }
    let _ = state.drop_row(db_id, table, rowid);
    journal(state, tx_id, UndoOp::Delete { table: table.to_owned(), rowid, row: row::row_copy(row) });
    let _ = index::update_indexes(state, db_id, table, row, rowid, &IndexOp::Delete);
    sync_fts_index(state, db_id, table, rowid, Some(row), true);
    triggers::fire_within(state, db_id, table, TriggerEvent::Delete, TriggerTiming::After, Some(row), None, tx_id, depth)
}

proof fn lemma_delete_fails(
    depth: nat,
    s: StateV,
    db: u32,
    table: Seq<char>,
    rows: Seq<(u64, RowV)>,
    tx: Option<u32>,
    m: int,
    n: int,
)
    requires
        0 <= m <= n <= rows.len(),
        rows_deleted(depth, s, db, table, rows, tx, m).1 is Some,
    ensures
        rows_deleted(depth, s, db, table, rows, tx, n) == rows_deleted(depth, s, db, table, rows, tx, m),
    decreases n,
{
    if m < n {
        lemma_delete_fails(depth, s, db, table, rows, tx, m, n - 1);
    }
}

fn delete_all(state: &mut KvsState, db_id: u32, table: &str, rows: &Vec<(RowId, Row)>, tx_id: Option<u32>, depth: u64) -> (r:
    Result<(), SkvsError>)
    ensures
        (final(state)@, constraint::failure(r)) == rows_deleted(
            depth as nat,
            old(state)@,
            db_id,
            table@,
            store::row_pairs(rows@),
            tx_id,
            rows@.len() as int,
        ),
    decreases depth, 5nat,
{
    let ghost start = state@;
    let ghost rv = store::row_pairs(rows@);
    let mut i: usize = 0;
    while i < rows.len()
        invariant
            i <= rows@.len(),
            rv == store::row_pairs(rows@),
            start == old(state)@,
            (state@, None::<ErrorV>) == rows_deleted(depth as nat, start, db_id, table@, rv, tx_id, i as int),
        decreases rows@.len() - i,
    {
        assert(rv[i as int] == (rows@[i as int].0, row::cells(rows@[i as int].1)));
        match delete_one(state, db_id, table, rows[i].0, &rows[i].1, tx_id, depth) {
            Ok(_) => {},
            Err(e) => {
                proof {
                    lemma_delete_fails(depth as nat, start, db_id, table@, rv, tx_id, i + 1, rv.len() as int);
                }
                return Err(e);
            },
        }
        i = i + 1;
    }
    Ok(())
}

/// Runs DELETE; triggers may run at most `depth` deep in each other.
pub fn delete_within(state: &mut KvsState, db_id: u32, stmt: &Statement, params: &[Value], tx_id: Option<u32>, depth: u64) -> (r:
    Result<QueryResult, SkvsError>)
    ensures
        ddl::step(final(state)@, r) == (match stmt@ {
            StatementV::Delete { table, selection } => deleted(
                depth as nat,
                old(state)@,
                db_id,
                table,
                selection,
                params.deep_view(),
                tx_id,
            ),
            _ => (old(state)@, Err(ErrorV::Unsupported("Not a DELETE statement"@))),
        }),
    decreases depth, 6nat,
{
    match stmt {
        Statement::Delete { table, selection } => {
            let table: &String = match table {
                Some(t) => t,
                None => {
                    return Err(SkvsError::Unsupported("DELETE without a target table".to_owned()));
                },
            };
            let rows = match state.get_table_store(db_id, table.as_str()) {
                Some(store) => read_matching(state, db_id, store, selection, params, 0),
                None => {
                    return Err(select::no_table(table.as_str()));
                },
            };
            match delete_all(state, db_id, table.as_str(), &rows, tx_id, depth) {
                Ok(_) => Ok(QueryResult::affected(rows.len() as u64)),
                Err(e) => Err(e),
            }
        },
        _ => Err(SkvsError::Unsupported("Not a DELETE statement".to_owned())),
    }
}

/// Runs INSERT.
pub fn execute_insert(state: &mut KvsState, db_id: u32, stmt: &Statement, params: &[Value], tx_id: Option<u32>) -> (r: Result<
    QueryResult,
    SkvsError,
>)
    ensures
        ddl::step(final(state)@, r) == (match stmt@ {
            StatementV::Insert { table, columns, source } => inserted(
                u64::MAX as nat,
                old(state)@,
                db_id,
                table,
                columns,
                source,
                params.deep_view(),
                tx_id,
            ),
            _ => (old(state)@, Err(ErrorV::Unsupported("Not an INSERT statement"@))),
        }),
{
    insert_within(state, db_id, stmt, params, tx_id, u64::MAX)
}

/// Runs UPDATE.
pub fn execute_update(state: &mut KvsState, db_id: u32, stmt: &Statement, params: &[Value], tx_id: Option<u32>) -> (r: Result<
    QueryResult,
    SkvsError,
>)
    ensures
        ddl::step(final(state)@, r) == (match stmt@ {
            StatementV::Update { table, assignments, selection } => updated(
                u64::MAX as nat,
                old(state)@,
                db_id,
                table,
                assignments,
                selection,
                params.deep_view(),
                tx_id,
            ),
            _ => (old(state)@, Err(ErrorV::Unsupported("Not an UPDATE statement"@))),
        }),
{
    update_within(state, db_id, stmt, params, tx_id, u64::MAX)
}

/// Runs DELETE.
pub fn execute_delete(state: &mut KvsState, db_id: u32, stmt: &Statement, params: &[Value], tx_id: Option<u32>) -> (r: Result<
    QueryResult,
    SkvsError,
>)
    ensures
        ddl::step(final(state)@, r) == (match stmt@ {
            StatementV::Delete { table, selection } => deleted(
                u64::MAX as nat,
                old(state)@,
                db_id,
                table,
                selection,
                params.deep_view(),
                tx_id,
            ),
            _ => (old(state)@, Err(ErrorV::Unsupported("Not a DELETE statement"@))),
        }),
{
    delete_within(state, db_id, stmt, params, tx_id, u64::MAX)
}

/// A full-text index that follows a change of a row is all that changes.
pub proof fn lemma_synced_fields(s: StateV, db: u32, table: Seq<char>, id: u64, row: RowV, is_delete: bool)
    ensures
        ({
            let t = fts_synced(s, db, table, id, row, is_delete);
            t == (StateV { fts: t.fts, ..s })
        }),
{
}

} // verus!

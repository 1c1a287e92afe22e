//! Queries: where rows come from, which are kept, and how they are shown.
use vstd::prelude::*;
use vstd::string::*;

use crate::assoc;
use crate::ast;
use crate::ast::{BinaryOp, Expr, ExprV, FunctionArg, FunctionArgV, Join, JoinConstraint, JoinConstraintV, JoinOperator, JoinOperatorV, JoinV, Literal, LiteralV, OrderByExpr, OrderByExprV, Query, QueryV, Select, SelectItem, SelectItemV, SelectV, SetExpr, SetExprV, Statement, StatementV, TableRefV, TableWithJoins, TableWithJoinsV, UnaryOp};
use crate::catalog;
use crate::catalog::CatalogV;
use crate::double;
use crate::double::{INFINITE, NOT_A_NUMBER, Real};
use crate::error;
use crate::error::{ErrorV, SkvsError};
use crate::expr;
use crate::expr::EvalCtx;
use crate::fts;
use crate::fts::FtsTableV;
use crate::index;
use crate::row;
use crate::row::RowV;
use crate::schema;
use crate::schema::{IndexV, Row, RowId, SchemaV, TableSchema, Value, ValueV};
use crate::sql;
use crate::sql::{QueryResult, ResultV};
use crate::sql::parser;
use crate::state;
use crate::state::{KvsState, StateV};
use crate::store;
use crate::store::RowStore;
use crate::text;

verus! {

/// The views of a list of rows.
pub open spec fn rows_view(s: Seq<Row>) -> Seq<RowV> {
    Seq::new(s.len(), |i: int| row::cells(s[i]))
}

/// The name and the words of an `fts_match(table, 'words')` call.
pub open spec fn fts_call(e: ExprV) -> Option<(Option<Seq<char>>, Option<Seq<char>>)> {
    match e {
        ExprV::Function { name, distinct, args } => if text::lowercase(name) == "fts_match"@ && args.len() == 2 {
            Some((fts_table_arg(args[0]), fts_words_arg(args[1])))
        } else {
            None
        },
        _ => None,
    }
}

pub open spec fn fts_table_arg(a: FunctionArgV) -> Option<Seq<char>> {
    match a {
        FunctionArgV::Unnamed(ExprV::Identifier(s)) => Some(s),
        FunctionArgV::Unnamed(ExprV::Value(LiteralV::SingleQuoted(s))) => Some(s),
        _ => None,
    }
}

pub open spec fn fts_words_arg(a: FunctionArgV) -> Option<Seq<char>> {
    match a {
        FunctionArgV::Unnamed(ExprV::Value(LiteralV::SingleQuoted(s))) => Some(s),
        _ => None,
    }
}

/// Whether a row is among the documents that a full-text search finds.
pub open spec fn fts_holds(
    fts: CatalogV<FtsTableV>,
    db: u32,
    row: RowV,
    table: Option<Seq<char>>,
    words: Option<Seq<char>>,
) -> bool {
    match (table, words) {
        (Some(t), Some(w)) => match catalog::find(fts, db, t) {
            Some(x) => match assoc::assoc_get(row, "_rowid_"@) {
                Some(ValueV::Integer(id)) => fts::search_result(x.index, w).contains(id as u64),
                _ => false,
            },
            None => false,
        },
        _ => false,
    }
}

/// Whether a condition holds of a row, and the index of the parameter that comes next.
pub open spec fn holds(
    fts: CatalogV<FtsTableV>,
    db: u32,
    row: RowV,
    e: ExprV,
    ps: Seq<ValueV>,
    i: int,
) -> (bool, int)
    decreases e,
{
    match e {
        ExprV::BinaryOp { left, op: BinaryOp::And, right } => {
            let (l, j) = holds(fts, db, row, *left, ps, i);
            let (r, k) = holds(fts, db, row, *right, ps, j);
            (l && r, k)
        },
        ExprV::BinaryOp { left, op: BinaryOp::Or, right } => {
            let (l, j) = holds(fts, db, row, *left, ps, i);
            let (r, k) = holds(fts, db, row, *right, ps, j);
            (l || r, k)
        },
        ExprV::UnaryOp { op: UnaryOp::Not, expr } => {
            let (v, j) = holds(fts, db, row, *expr, ps, i);
            (!v, j)
        },
        ExprV::Nested(x) => holds(fts, db, row, *x, ps, i),
        _ => match fts_call(e) {
            Some((t, w)) => (fts_holds(fts, db, row, t, w), expr::count_sum(i, expr::placeholders(e))),
            None => {
                let (v, j) = expr::eval_v(e, Some(row), ps, i);
                (expr::is_true(v), j)
            },
        },
    }
}

fn read_fts_table(a: &FunctionArg) -> (r: Option<String>)
    ensures
        r.deep_view() == fts_table_arg(a@),
{
    match a {
        FunctionArg::Unnamed(Expr::Identifier(s)) => Some(s.clone()),
        FunctionArg::Unnamed(Expr::Value(l)) => match l {
            Literal::SingleQuoted(s) => Some(s.clone()),
            _ => None,
        },
        _ => None,
    }
}

fn read_fts_words(a: &FunctionArg) -> (r: Option<String>)
    ensures
        r.deep_view() == fts_words_arg(a@),
{
    match a {
        FunctionArg::Unnamed(Expr::Value(l)) => match l {
            Literal::SingleQuoted(s) => Some(s.clone()),
            _ => None,
        },
        _ => None,
    }
}

fn fts_matches(state: &KvsState, db_id: u32, row: &Row, table: &Option<String>, words: &Option<String>) -> (r: bool)
    ensures
        r == fts_holds(state@.fts, db_id, row::cells(*row), table.deep_view(), words.deep_view()),
{
    match (table, words) {
        (Some(t), Some(w)) => match state.get_fts_table(db_id, t.as_str()) {
            Some(x) => match row::row_get(row, "_rowid_") {
                Some(Value::Integer(id)) => {
                    let found = x.search(w.as_str());
                    fts::contains_id(&found, #[verifier::truncate] (*id as u64))
                },
                _ => false,
            },
            None => false,
        },
        _ => false,
    }
}

/// Whether a condition holds of a row.
pub fn evaluate_where_ctx(
    state: &KvsState,
    db_id: u32,
    row: &Row,
    expr_node: &Expr,
    params: &[Value],
    param_idx: &mut usize,
) -> (r: bool)
    ensures
        (r, *final(param_idx) as int) == holds(
            state@.fts,
            db_id,
            row::cells(*row),
            expr_node@,
            params.deep_view(),
            *old(param_idx) as int,
        ),
    decreases expr_node,
{
    match expr_node {
        Expr::BinaryOp { left, op: BinaryOp::And, right } => {
            let l: bool = evaluate_where_ctx(state, db_id, row, left, params, param_idx);
            let r: bool = evaluate_where_ctx(state, db_id, row, right, params, param_idx);
            l && r
        },
        Expr::BinaryOp { left, op: BinaryOp::Or, right } => {
            let l: bool = evaluate_where_ctx(state, db_id, row, left, params, param_idx);
            let r: bool = evaluate_where_ctx(state, db_id, row, right, params, param_idx);
            l || r
        },
        Expr::UnaryOp { op: UnaryOp::Not, expr } => !evaluate_where_ctx(
            state,
            db_id,
            row,
            expr,
            params,
            param_idx,
        ),
        Expr::Nested(x) => evaluate_where_ctx(state, db_id, row, x, params, param_idx),
        _ => {
            match expr_node {
                Expr::Function { name, distinct, args } => {
                    let lower = text::to_lower(name.as_str());
                    assert(ast::args_view(args@).len() == args@.len());
                    if text::text_eq(lower.as_str(), "fts_match") && args.len() == 2 {
                        let ghost av = ast::args_view(args@);
                        assert(av[0] == ast::arg_view(args@[0]) && av[1] == ast::arg_view(args@[1]));
                        let t = read_fts_table(&args[0]);
                        let w = read_fts_words(&args[1]);
                        *param_idx = expr::saturating(*param_idx, expr::count_placeholders(expr_node));
                        return fts_matches(state, db_id, row, &t, &w);
                    }
                },
                _ => {},
            }
            let ctx = EvalCtx::with_row(row);
            let v = expr::eval(expr_node, &ctx, params, param_idx);
            expr::truthy(&v)
        },
    }
}

/// Whether an expression is a constant or a parameter.
pub open spec fn is_constant(e: ExprV) -> bool
    decreases e,
{
    match e {
        ExprV::Value(_) => true,
        ExprV::Nested(x) => is_constant(*x),
        ExprV::UnaryOp { op, expr } => is_constant(*expr),
        _ => false,
    }
}

fn constant(e: &Expr) -> (r: bool)
    ensures
        r == is_constant(e@),
    decreases e,
{
    match e {
        Expr::Value(_) => true,
        Expr::Nested(x) => constant(x),
        Expr::UnaryOp { op, expr } => constant(expr),
        _ => false,
    }
}

/// The column and the value of a condition that is exactly `column = constant`, in either order.
pub open spec fn equality(e: ExprV, ps: Seq<ValueV>) -> Option<(Seq<char>, ValueV)> {
    match e {
        ExprV::BinaryOp { left, op: BinaryOp::Eq, right } => match (*left, *right) {
            (ExprV::Identifier(c), r) => if is_constant(r) {
                Some((c, expr::eval_v(r, None, ps, 0).0))
            } else {
                None
            },
            (l, ExprV::Identifier(c)) => if is_constant(l) {
                Some((c, expr::eval_v(l, None, ps, 0).0))
            } else {
                None
            },
            _ => None,
        },
        _ => None,
    }
}

fn simple_equality(e: &Expr, params: &[Value]) -> (r: Option<(String, Value)>)
    ensures
        match r {
            Some(x) => equality(e@, params.deep_view()) == Some((x.0@, x.1@)),
            None => equality(e@, params.deep_view()) is None,
        },
{
    match e {
        Expr::BinaryOp { left, op: BinaryOp::Eq, right } => {
            let ctx = EvalCtx::no_row();
            let mut idx: usize = 0;
            let ghost lv = ast::expr_view(**left);
            let ghost rv = ast::expr_view(**right);
            assert(lv is Identifier <==> **left is Identifier);
            assert(rv is Identifier <==> **right is Identifier);
            match &**left {
                Expr::Identifier(c) => {
                    if constant(right) {
                        let v = expr::eval(right, &ctx, params, &mut idx);
                        Some((c.clone(), v))
                    } else {
                        None
                    }
                },
                _ => match &**right {
                    Expr::Identifier(c) => {
                        if constant(left) {
                            let v = expr::eval(left, &ctx, params, &mut idx);
                            Some((c.clone(), v))
                        } else {
                            None
                        }
                    },
                    _ => None,
                },
            }
        },
        _ => None,
    }
}

/// The first index of a list that is on exactly one column.
pub open spec fn index_on(indices: Seq<IndexV>, column: Seq<char>, k: int) -> Option<Seq<char>>
    decreases indices.len() - k,
{
    if k < 0 || k >= indices.len() {
        None
    } else if indices[k].columns.len() == 1 && indices[k].columns[0] == column {
        Some(indices[k].name)
    } else {
        index_on(indices, column, k + 1)
    }
}

pub fn find_index_on(schema: &TableSchema, column: &str) -> (r: Option<String>)
    ensures
        r.deep_view() == index_on(schema@.indices, column@, 0),
{
    let ghost iv = schema@.indices;
    let mut k: usize = 0;
    while k < schema.indices.len()
        invariant
            k <= schema.indices@.len(),
            iv == schema.indices.deep_view(),
            index_on(iv, column@, k as int) == index_on(iv, column@, 0),
        decreases schema.indices@.len() - k,
    {
        let idx = &schema.indices[k];
        assert(iv[k as int] == schema.indices@[k as int]@);
        if idx.columns.len() == 1 {
            assert(iv[k as int].columns[0] == idx.columns@[0]@);
            if text::text_eq(idx.columns[0].as_str(), column) {
                return Some(idx.name.clone());
            }
        }
        k = k + 1;
    }
    None
}

/// The ids that an index offers for a condition: those of a value that the condition asks for.
pub open spec fn offered_ids(s: StateV, db: u32, table: Seq<char>, selection: Option<ExprV>, ps: Seq<ValueV>) -> Option<
    Seq<u64>,
> {
    match selection {
        Some(e) => match equality(e, ps) {
            Some((c, v)) => match state::table_schema(s, db, table) {
                Some(d) => match index_on(d.indices, c, 0) {
                    Some(name) => if v == ValueV::Null {
                        None
                    } else {
                        Some(index::index_ids(state::index_of(s, db, table, name), v))
                    },
                    None => None,
                },
                None => None,
            },
            None => None,
        },
        None => None,
    }
}

fn read_offered_ids(state: &KvsState, db_id: u32, table: &str, selection: &Option<Expr>, params: &[Value]) -> (r: Option<
    Vec<RowId>,
>)
    ensures
        match r {
            Some(v) => offered_ids(state@, db_id, table@, selection.deep_view(), params.deep_view()) == Some(v@),
            None => offered_ids(state@, db_id, table@, selection.deep_view(), params.deep_view()) is None,
        },
{
    match selection {
        Some(e) => match simple_equality(e, params) {
            Some((c, v)) => match state.get_schema(db_id, table) {
                Some(d) => match find_index_on(d, c.as_str()) {
                    Some(name) => {
                        if v.is_null() {
                            None
                        } else {
                            Some(index::lookup_index(state, db_id, table, name.as_str(), &v))
                        }
                    },
                    None => None,
                },
                None => None,
            },
            None => None,
        },
        None => None,
    }
}

/// A row with its id in a column of its own.
pub open spec fn with_rowid(id: u64, row: RowV) -> RowV {
    assoc::assoc_put(row, "_rowid_"@, ValueV::Integer(id as i64))
}

/// The rows of a table in the order of their ids, each with its id.
pub open spec fn scanned(m: Map<u64, RowV>) -> Seq<RowV> {
    Seq::new(store::row_list(m).len(), |i: int| with_rowid(store::row_list(m)[i].0, store::row_list(m)[i].1))
}

/// The rows that a condition has to be asked of: those that an index offers, or all.
pub open spec fn candidates(m: Map<u64, RowV>, offered: Option<Seq<u64>>) -> Map<u64, RowV> {
    match offered {
        Some(ids) => m.restrict(ids.to_set()),
        None => m,
    }
}

fn tag_rows(entries: &Vec<(RowId, Row)>) -> (r: Vec<Row>)
    ensures
        rows_view(r@) == Seq::new(
            entries@.len(),
            |i: int| with_rowid(entries@[i].0, row::cells(entries@[i].1)),
        ),
{
    let mut out: Vec<Row> = Vec::new();
    let mut i: usize = 0;
    while i < entries.len()
        invariant
            i <= entries@.len(),
            out@.len() == i,
            forall|j: int| 0 <= j < i ==> row::cells(#[trigger] out@[j]) == with_rowid(entries@[j].0, row::cells(entries@[j].1)),
        decreases entries@.len() - i,
    {
        let mut row = row::row_copy(&entries[i].1);
        row::row_put(&mut row, "_rowid_".to_owned(), Value::Integer(#[verifier::truncate] (entries[i].0 as i64)));
        out.push(row);
        i = i + 1;
    }
    assert(rows_view(out@) =~= Seq::new(
        entries@.len(),
        |i: int| with_rowid(entries@[i].0, row::cells(entries@[i].1)),
    ));
    out
}

/// The rows of a table that a condition has to be asked of.
pub open spec fn source_rows(s: StateV, db: u32, table: Seq<char>, selection: Option<ExprV>, ps: Seq<ValueV>) -> Result<
    Seq<RowV>,
    ErrorV,
> {
    match state::table_rows(s, db, table) {
        Some(m) => Ok(scanned(candidates(m, offered_ids(s, db, table, selection, ps)))),
        None => Err(table_missing(table)),
    }
}

pub open spec fn table_missing(table: Seq<char>) -> ErrorV {
    ErrorV::Schema("Table "@ + table + " not found"@)
}

pub fn no_table(table: &str) -> (r: SkvsError)
    ensures
        r@ == table_missing(table@),
{
    SkvsError::Schema(text::text3("Table ", table, " not found"))
}

fn rows_for_simple_where(
    state: &KvsState,
    db_id: u32,
    table: &str,
    selection: &Option<Expr>,
    params: &[Value],
) -> (r: Result<Vec<Row>, SkvsError>)
    ensures
        rows_outcome(r) == source_rows(state@, db_id, table@, selection.deep_view(), params.deep_view()),
{
    let store = match state.get_table_store(db_id, table) {
        Some(store) => store,
        None => {
            return Err(no_table(table));
        },
    };
    match read_offered_ids(state, db_id, table, selection, params) {
        Some(ids) => {
            let entries = store.entries_among(&ids);
            let rows = tag_rows(&entries);
            proof {
                let m = store@.restrict(ids@.to_set());
                assert(rows_view(rows@) =~= scanned(m)) by {
                    assert(store::row_pairs(entries@) == store::row_list(m));
                    assert forall|k: int| 0 <= k < entries@.len() implies store::row_list(m)[k] == (
                        #[trigger] entries@[k].0,
                        row::cells(entries@[k].1),
                    ) by {
                        assert(store::row_pairs(entries@)[k] == (entries@[k].0, row::cells(entries@[k].1)));
                    }
                    assert(store::row_pairs(entries@).len() == entries@.len());
                }
            }
            Ok(rows)
        },
        None => {
            let entries = store.entries();
            let rows = tag_rows(&entries);
            proof {
                let m = store@;
                assert(rows_view(rows@) =~= scanned(m)) by {
                    assert(store::row_pairs(entries@) == store::row_list(m));
                    assert forall|k: int| 0 <= k < entries@.len() implies store::row_list(m)[k] == (
                        #[trigger] entries@[k].0,
                        row::cells(entries@[k].1),
                    ) by {
                        assert(store::row_pairs(entries@)[k] == (entries@[k].0, row::cells(entries@[k].1)));
                    }
                    assert(store::row_pairs(entries@).len() == entries@.len());
                }
            }
            Ok(rows)
        },
    }
}

/// What an operation that gives rows gives.
pub open spec fn rows_outcome(r: Result<Vec<Row>, SkvsError>) -> Result<Seq<RowV>, ErrorV> {
    match r {
        Ok(v) => Ok(rows_view(v@)),
        Err(e) => Err(e@),
    }
}

/// The first `n` rows of which a condition holds.
pub open spec fn kept_rows(
    fts: CatalogV<FtsTableV>,
    db: u32,
    rows: Seq<RowV>,
    selection: Option<ExprV>,
    ps: Seq<ValueV>,
    n: int,
) -> Seq<RowV>
    decreases n,
{
    if n <= 0 || n > rows.len() {
        Seq::empty()
    } else {
        let p = kept_rows(fts, db, rows, selection, ps, n - 1);
        let keep = match selection {
            Some(e) => holds(fts, db, rows[n - 1], e, ps, 0).0,
            None => true,
        };
        if keep {
            p.push(rows[n - 1])
        } else {
            p
        }
    }
}

/// The rows of which a condition holds.
pub open spec fn selected(
    fts: CatalogV<FtsTableV>,
    db: u32,
    rows: Seq<RowV>,
    selection: Option<ExprV>,
    ps: Seq<ValueV>,
) -> Seq<RowV> {
    kept_rows(fts, db, rows, selection, ps, rows.len() as int)
}

fn filter_rows(state: &KvsState, db_id: u32, rows: Vec<Row>, selection: &Option<Expr>, params: &[Value]) -> (r: Vec<Row>)
    ensures
        rows_view(r@) == selected(
            state@.fts,
            db_id,
            rows_view(rows@),
            selection.deep_view(),
            params.deep_view(),
        ),
{
    let ghost rv = rows_view(rows@);
    let ghost sv = selection.deep_view();
    let ghost pv = params.deep_view();
    let mut out: Vec<Row> = Vec::new();
    let mut i: usize = 0;
    assert(rows_view(out@) =~= Seq::empty());
    while i < rows.len()
        invariant
            i <= rows@.len(),
            rv == rows_view(rows@),
            sv == selection.deep_view(),
            pv == params.deep_view(),
            rows_view(out@) == kept_rows(state@.fts, db_id, rv, sv, pv, i as int),
        decreases rows@.len() - i,
    {
        assert(rv[i as int] == row::cells(rows@[i as int]));
        let keep: bool = match selection {
            Some(e) => {
                let mut idx: usize = 0;
                evaluate_where_ctx(state, db_id, &rows[i], e, params, &mut idx)
            },
            None => true,
        };
        if keep {
            let ghost before = rows_view(out@);
            out.push(row::row_copy(&rows[i]));
            assert(rows_view(out@) =~= before.push(rv[i as int]));
        }
        i = i + 1;
    }
    out
}

/// The value by which rows are told apart: all that is not a number counts as one.
pub open spec fn identity(v: ValueV) -> ValueV {
    match v {
        ValueV::Real(b) => if double::is_nan(b) {
            ValueV::Real(NOT_A_NUMBER)
        } else {
            v
        },
        _ => v,
    }
}

fn identical(a: &Value, b: &Value) -> (r: bool)
    ensures
        r == (identity(a@) == identity(b@)),
{
    match (a, b) {
        (Value::Null, Value::Null) => true,
        (Value::Integer(i), Value::Integer(j)) => *i == *j,
        (Value::Real(x), Value::Real(y)) => if x.size() > INFINITE || y.size() > INFINITE {
            x.size() > INFINITE && y.size() > INFINITE
        } else {
            x.bits == y.bits
        },
        (Value::Text(s), Value::Text(t)) => *s == *t,
        (Value::Blob(s), Value::Blob(t)) => text::bytes_eq(s, t),
        _ => false,
    }
}

/// What the keys of a grouping give for a row.
pub open spec fn group_key(exprs: Seq<ExprV>, row: RowV) -> Seq<ValueV> {
    Seq::new(exprs.len(), |i: int| identity(expr::eval_v(exprs[i], Some(row), Seq::empty(), 0).0))
}

/// The groups of the first `n` rows, in the order in which their keys first came.
pub open spec fn groups_upto(exprs: Seq<ExprV>, rows: Seq<RowV>, n: int) -> Seq<(Seq<ValueV>, Seq<RowV>)>
    decreases n,
{
    if n <= 0 || n > rows.len() {
        Seq::empty()
    } else {
        let p = groups_upto(exprs, rows, n - 1);
        let k = group_key(exprs, rows[n - 1]);
        let g = match assoc::assoc_get(p, k) {
            Some(g) => g,
            None => Seq::empty(),
        };
        assoc::assoc_put(p, k, g.push(rows[n - 1]))
    }
}

/// The numbers that a column holds in the first `n` rows, as doubles.
pub open spec fn column_numbers(rows: Seq<RowV>, col: Seq<char>, n: int) -> Seq<u64>
    decreases n,
{
    if n <= 0 || n > rows.len() {
        Seq::empty()
    } else {
        match expr::as_real(expr::column_value(Some(rows[n - 1]), col)) {
            Some(b) => column_numbers(rows, col, n - 1).push(b),
            None => column_numbers(rows, col, n - 1),
        }
    }
}

/// The bits of negative zero, with which a sum starts.
pub const NEGATIVE_ZERO: u64 = 0x8000_0000_0000_0000;

/// The sum of doubles, from left to right.
pub open spec fn real_total(s: Seq<u64>) -> u64
    decreases s.len(),
{
    if s.len() == 0 {
        NEGATIVE_ZERO
    } else {
        double::sum_real(real_total(s.drop_last()), s.last())
    }
}

/// The values that a column holds in the first `n` rows.
pub open spec fn column_values(rows: Seq<RowV>, col: Seq<char>, n: int) -> Seq<ValueV>
    decreases n,
{
    if n <= 0 || n > rows.len() {
        Seq::empty()
    } else {
        match assoc::assoc_get(rows[n - 1], col) {
            Some(v) => column_values(rows, col, n - 1).push(v),
            None => column_values(rows, col, n - 1),
        }
    }
}

/// How many of the first `n` values are not null; where only different ones count, how many
/// differ from all before.
pub open spec fn present_count(vals: Seq<ValueV>, distinct: bool, n: int) -> int
    decreases n,
{
    if n <= 0 || n > vals.len() {
        0
    } else if vals[n - 1] == ValueV::Null || (distinct && seen_before(vals, n - 1)) {
        present_count(vals, distinct, n - 1)
    } else {
        present_count(vals, distinct, n - 1) + 1
    }
}

/// Whether the value at `k` came before.
pub open spec fn seen_before(vals: Seq<ValueV>, k: int) -> bool {
    exists|j: int| 0 <= j < k && identity(#[trigger] vals[j]) == identity(vals[k])
}

/// The largest of the first `n` values: of equal ones the last.
pub open spec fn largest(vals: Seq<ValueV>, n: int) -> ValueV
    decreases n,
{
    if n <= 0 || n > vals.len() {
        ValueV::Null
    } else if n == 1 || schema::value_order(vals[n - 1], largest(vals, n - 1)) >= 0 {
        vals[n - 1]
    } else {
        largest(vals, n - 1)
    }
}

/// The smallest of the first `n` values: of equal ones the first.
pub open spec fn smallest(vals: Seq<ValueV>, n: int) -> ValueV
    decreases n,
{
    if n <= 0 || n > vals.len() {
        ValueV::Null
    } else if n == 1 || schema::value_order(vals[n - 1], smallest(vals, n - 1)) < 0 {
        vals[n - 1]
    } else {
        smallest(vals, n - 1)
    }
}

/// The column that the first argument of an aggregate names.
pub open spec fn aggregate_column(args: Seq<FunctionArgV>) -> Option<Seq<char>> {
    if args.len() == 0 {
        None
    } else {
        match args[0] {
            FunctionArgV::Unnamed(ExprV::Identifier(s)) => Some(s),
            FunctionArgV::Unnamed(ExprV::CompoundIdentifier(parts)) => if parts.len() == 0 {
                None
            } else {
                Some(parts.last())
            },
            _ => None,
        }
    }
}

/// The sum of a column: an integer where it is a whole number.
pub open spec fn sum_value(rows: Seq<RowV>, col: Seq<char>) -> ValueV {
    let t = real_total(column_numbers(rows, col, rows.len() as int));
    if double::is_whole(t) {
        ValueV::Integer(double::saturated(t) as i64)
    } else {
        ValueV::Real(t)
    }
}

/// The mean of a column, null where it holds no number.
pub open spec fn mean_value(rows: Seq<RowV>, col: Seq<char>) -> ValueV {
    let ns = column_numbers(rows, col, rows.len() as int);
    if ns.len() == 0 {
        ValueV::Null
    } else {
        ValueV::Real(double::quotient_real(real_total(ns), double::int_real(ns.len() as int)))
    }
}

/// What an aggregate gives for the rows of a group: `count`, `sum`, `avg`, `max` or `min`.
pub open spec fn aggregate_call(name: Seq<char>, distinct: bool, args: Seq<FunctionArgV>, rows: Seq<RowV>) -> ValueV {
    let col = aggregate_column(args);
    if name == "count"@ {
        match col {
            Some(c) => {
                let vals = column_values(rows, c, rows.len() as int);
                ValueV::Integer(present_count(vals, distinct, vals.len() as int) as i64)
            },
            None => ValueV::Integer(rows.len() as i64),
        }
    } else {
        match col {
            None => ValueV::Null,
            Some(c) => {
                let vals = column_values(rows, c, rows.len() as int);
                if name == "sum"@ {
                    sum_value(rows, c)
                } else if name == "avg"@ {
                    mean_value(rows, c)
                } else if name == "max"@ {
                    largest(vals, vals.len() as int)
                } else {
                    smallest(vals, vals.len() as int)
                }
            },
        }
    }
}

/// Whether a function, its name in small letters, takes the rows of a group together.
pub open spec fn is_aggregate_name(name: Seq<char>) -> bool {
    name == "count"@ || name == "sum"@ || name == "avg"@ || name == "max"@ || name == "min"@
}

/// Whether an expression is an aggregate.
pub open spec fn is_aggregate(e: ExprV) -> bool {
    match e {
        ExprV::Function { name, distinct, args } => is_aggregate_name(text::lowercase(name)),
        _ => false,
    }
}

/// The first row, where there is one.
pub open spec fn first_row(rows: Seq<RowV>) -> Option<RowV> {
    if rows.len() == 0 {
        None
    } else {
        Some(rows[0])
    }
}

/// Whether an expression takes an aggregate: it is one, or an operator or a function has one for
/// an operand.
pub open spec fn takes_aggregate(e: ExprV) -> bool
    decreases e,
{
    match e {
        ExprV::Nested(x) => takes_aggregate(*x),
        ExprV::UnaryOp { op, expr } => takes_aggregate(*expr),
        ExprV::BinaryOp { left, op, right } => takes_aggregate(*left) || takes_aggregate(*right),
        ExprV::Function { name, distinct, args } => is_aggregate(e) || args_take_aggregate(args, args.len() as int),
        _ => false,
    }
}

/// Whether one of the first `n` arguments of a call takes an aggregate.
pub open spec fn args_take_aggregate(args: Seq<FunctionArgV>, n: int) -> bool
    decreases args, n,
{
    if n <= 0 || n > args.len() {
        false
    } else {
        args_take_aggregate(args, n - 1) || match args[n - 1] {
            FunctionArgV::Unnamed(x) => takes_aggregate(x),
            FunctionArgV::Named(x) => takes_aggregate(x),
            _ => false,
        }
    }
}

/// What an expression gives for the rows of a group: an aggregate takes them together, operators
/// and functions take what their operands give, and anything else is evaluated on the first row.
/// The expression reads the parameters from `i` on.
pub open spec fn aggregate_value(e: ExprV, rows: Seq<RowV>, ps: Seq<ValueV>, i: int) -> ValueV
    decreases e,
{
    match e {
        ExprV::Nested(x) => aggregate_value(*x, rows, ps, i),
        ExprV::UnaryOp { op, expr } => expr::unary_value(op, aggregate_value(*expr, rows, ps, i)),
        ExprV::BinaryOp { left, op, right } => {
            let l = aggregate_value(*left, rows, ps, i);
            let r = aggregate_value(*right, rows, ps, expr::count_sum(i, expr::placeholders(*left)));
            match op {
                BinaryOp::And => expr::bool_value(expr::is_true(l) && expr::is_true(r)),
                BinaryOp::Or => expr::bool_value(expr::is_true(l) || expr::is_true(r)),
                _ => expr::binary_value(op, l, r),
            }
        },
        ExprV::Function { name, distinct, args } => if is_aggregate(e) {
            aggregate_call(text::lowercase(name), distinct, args, rows)
        } else {
            expr::function_value(text::lowercase(name), aggregate_args(args, rows, ps, i, args.len() as int))
        },
        _ => expr::eval_v(e, first_row(rows), ps, i).0,
    }
}

/// What the first `n` arguments of a call give for the rows of a group.
pub open spec fn aggregate_args(args: Seq<FunctionArgV>, rows: Seq<RowV>, ps: Seq<ValueV>, i: int, n: int) -> Seq<ValueV>
    decreases args, n,
{
    if n <= 0 || n > args.len() {
        Seq::empty()
    } else {
        let k = expr::count_sum(i, expr::arg_placeholders(args, n - 1));
        aggregate_args(args, rows, ps, i, n - 1).push(
            match args[n - 1] {
                FunctionArgV::Unnamed(x) => aggregate_value(x, rows, ps, k),
                FunctionArgV::Named(x) => aggregate_value(x, rows, ps, k),
                _ => ValueV::Null,
            },
        )
    }
}

fn numbers_in(rows: &Vec<Row>, col: &str) -> (r: Vec<Real>)
    ensures
        real_bits(r@) == column_numbers(rows_view(rows@), col@, rows@.len() as int),
{
    let ghost rv = rows_view(rows@);
    let mut out: Vec<Real> = Vec::new();
    let mut i: usize = 0;
    assert(real_bits(out@) =~= Seq::empty());
    while i < rows.len()
        invariant
            i <= rows@.len(),
            rv == rows_view(rows@),
            real_bits(out@) == column_numbers(rv, col@, i as int),
        decreases rows@.len() - i,
    {
        assert(rv[i as int] == row::cells(rows@[i as int]));
        match row::row_get(&rows[i], col) {
            Some(v) => match expr::to_real(v) {
                Some(x) => {
                    let ghost before = real_bits(out@);
                    out.push(x);
                    assert(real_bits(out@) =~= before.push(x.bits));
                },
                None => {},
            },
            None => {},
        }
        i = i + 1;
    }
    out
}

pub open spec fn real_bits(s: Seq<Real>) -> Seq<u64> {
    Seq::new(s.len(), |i: int| s[i].bits)
}

fn total(v: &Vec<Real>) -> (r: Real)
    ensures
        r.bits == real_total(real_bits(v@)),
{
    let ghost bv = real_bits(v@);
    let mut t = Real { bits: NEGATIVE_ZERO };
    let mut i: usize = 0;
    assert(bv.take(0) =~= Seq::empty());
    while i < v.len()
        invariant
            i <= v@.len(),
            bv == real_bits(v@),
            t.bits == real_total(bv.take(i as int)),
        decreases v@.len() - i,
    {
        assert(bv.take(i + 1).drop_last() =~= bv.take(i as int));
        assert(bv.take(i + 1).last() == v@[i as int].bits);
        t = t.plus(v[i]);
        i = i + 1;
    }
    assert(bv.take(i as int) =~= bv);
    t
}

fn values_in(rows: &Vec<Row>, col: &str) -> (r: Vec<Value>)
    ensures
        r.deep_view() == column_values(rows_view(rows@), col@, rows@.len() as int),
{
    let ghost rv = rows_view(rows@);
    let mut out: Vec<Value> = Vec::new();
    let mut i: usize = 0;
    assert(out.deep_view() =~= Seq::empty());
    while i < rows.len()
        invariant
            i <= rows@.len(),
            rv == rows_view(rows@),
            out.deep_view() == column_values(rv, col@, i as int),
        decreases rows@.len() - i,
    {
        assert(rv[i as int] == row::cells(rows@[i as int]));
        match row::row_get(&rows[i], col) {
            Some(v) => {
                let ghost before = out.deep_view();
                let ghost vv = v@;
                out.push(v.clone());
                assert(out.deep_view() =~= before.push(vv));
            },
            None => {},
        }
        i = i + 1;
    }
    out
}

fn came_before(vals: &Vec<Value>, k: usize) -> (r: bool)
    requires
        k < vals@.len(),
    ensures
        r == seen_before(vals.deep_view(), k as int),
{
    let ghost vv = vals.deep_view();
    let mut j: usize = 0;
    while j < k
        invariant
            j <= k < vals@.len(),
            vv == vals.deep_view(),
            forall|x: int| 0 <= x < j ==> identity(#[trigger] vv[x]) != identity(vv[k as int]),
        decreases k - j,
    {
        assert(vv[j as int] == vals@[j as int]@);
        if identical(&vals[j], &vals[k]) {
            return true;
        }
        j = j + 1;
    }
    false
}

fn count_present(vals: &Vec<Value>, distinct: bool) -> (r: usize)
    ensures
        r == present_count(vals.deep_view(), distinct, vals@.len() as int),
{
    let ghost vv = vals.deep_view();
    let mut n: usize = 0;
    let mut i: usize = 0;
    while i < vals.len()
        invariant
            i <= vals@.len(),
            n <= i,
            vv == vals.deep_view(),
            n == present_count(vv, distinct, i as int),
        decreases vals@.len() - i,
    {
        assert(vv[i as int] == vals@[i as int]@);
        if !vals[i].is_null() && !(distinct && came_before(vals, i)) {
            n = n + 1;
        }
        i = i + 1;
    }
    n
}

fn find_largest(vals: &Vec<Value>) -> (r: Value)
    ensures
        r@ == largest(vals.deep_view(), vals@.len() as int),
{
    let ghost vv = vals.deep_view();
    let mut best = Value::Null;
    let mut i: usize = 0;
    while i < vals.len()
        invariant
            i <= vals@.len(),
            vv == vals.deep_view(),
            best@ == largest(vv, i as int),
        decreases vals@.len() - i,
    {
        assert(vv[i as int] == vals@[i as int]@);
        if i == 0 || vals[i].order(&best) >= 0 {
            best = vals[i].clone();
        }
        i = i + 1;
    }
    best
}

fn find_smallest(vals: &Vec<Value>) -> (r: Value)
    ensures
        r@ == smallest(vals.deep_view(), vals@.len() as int),
{
    let ghost vv = vals.deep_view();
    let mut best = Value::Null;
    let mut i: usize = 0;
    while i < vals.len()
        invariant
            i <= vals@.len(),
            vv == vals.deep_view(),
            best@ == smallest(vv, i as int),
        decreases vals@.len() - i,
    {
        assert(vv[i as int] == vals@[i as int]@);
        if i == 0 || vals[i].order(&best) < 0 {
            best = vals[i].clone();
        }
        i = i + 1;
    }
    best
}

fn read_aggregate_column(args: &Vec<FunctionArg>) -> (r: Option<String>)
    ensures
        r.deep_view() == aggregate_column(ast::args_view(args@)),
{
    let ghost av = ast::args_view(args@);
    if args.len() == 0 {
        return None;
    }
    assert(av[0] == ast::arg_view(args@[0]));
    match &args[0] {
        FunctionArg::Unnamed(e) => {
            assert(av[0] == FunctionArgV::Unnamed(ast::expr_view(*e)));
            match e {
                Expr::Identifier(s) => Some(s.clone()),
                Expr::CompoundIdentifier(parts) => {
                    if parts.len() == 0 {
                        None
                    } else {
                        assert(parts.deep_view().last() == parts@[parts@.len() - 1]@);
                        Some(parts[parts.len() - 1].clone())
                    }
                },
                _ => None,
            }
        },
        _ => None,
    }
}

fn names_aggregate(name: &str) -> (r: bool)
    ensures
        r == is_aggregate_name(name@),
{
    text::text_eq(name, "count") || text::text_eq(name, "sum") || text::text_eq(name, "avg") || text::text_eq(name, "max")
        || text::text_eq(name, "min")
}

fn reads_as_aggregate(e: &Expr) -> (r: bool)
    ensures
        r == is_aggregate(e@),
{
    match e {
        Expr::Function { name, distinct, args } => names_aggregate(text::to_lower(name.as_str()).as_str()),
        _ => false,
    }
}

fn reads_aggregate(e: &Expr) -> (r: bool)
    ensures
        r == takes_aggregate(e@),
    decreases e,
{
    match e {
        Expr::Nested(x) => reads_aggregate(x),
        Expr::UnaryOp { op, expr } => reads_aggregate(expr),
        Expr::BinaryOp { left, op, right } => {
            let l: bool = reads_aggregate(left);
            let r: bool = reads_aggregate(right);
            l || r
        },
        Expr::Function { name, distinct, args } => {
            if reads_as_aggregate(e) {
                return true;
            }
            let ghost av = ast::args_view(args@);
            let mut found: bool = false;
            let mut k: usize = 0;
            while k < args.len()
                invariant
                    k <= args@.len(),
                    av == ast::args_view(args@),
                    found == args_take_aggregate(av, k as int),
                    forall|i: int| 0 <= i < args@.len() ==> decreases_to!(e => #[trigger] args@[i]),
                decreases args@.len() - k,
            {
                assert(av[k as int] == ast::arg_view(args@[k as int]));
                assert(decreases_to!(e => args@[k as int]));
                let one: bool = match &args[k] {
                    FunctionArg::Unnamed(x) => reads_aggregate(x),
                    FunctionArg::Named(x) => reads_aggregate(x),
                    _ => false,
                };
                found = found || one;
                k = k + 1;
            }
            found
        },
        _ => false,
    }
}

fn call_aggregate(fname: &str, distinct: bool, args: &Vec<FunctionArg>, rows: &Vec<Row>) -> (r: Value)
    requires
        is_aggregate_name(fname@),
    ensures
        r@ == aggregate_call(fname@, distinct, ast::args_view(args@), rows_view(rows@)),
{
    let col = read_aggregate_column(args);
    if text::text_eq(fname, "count") {
        match col {
            Some(c) => {
                let vals = values_in(rows, c.as_str());
                Value::Integer(count_present(&vals, distinct) as i64)
            },
            None => Value::Integer(rows.len() as i64),
        }
    } else {
        match col {
            None => Value::Null,
            Some(c) => {
                if text::text_eq(fname, "sum") {
                    let ns = numbers_in(rows, c.as_str());
                    let t = total(&ns);
                    if t.whole() {
                        Value::Integer(t.saturate())
                    } else {
                        Value::Real(t)
                    }
                } else if text::text_eq(fname, "avg") {
                    let ns = numbers_in(rows, c.as_str());
                    assert(real_bits(ns@).len() == ns@.len());
                    if ns.len() == 0 {
                        Value::Null
                    } else {
                        let t = total(&ns);
                        Value::Real(t.divided(double::real_of_count(ns.len())))
                    }
                } else if text::text_eq(fname, "max") {
                    let vals = values_in(rows, c.as_str());
                    find_largest(&vals)
                } else {
                    let vals = values_in(rows, c.as_str());
                    find_smallest(&vals)
                }
            },
        }
    }
}

fn evaluate_aggregate(e: &Expr, rows: &Vec<Row>, params: &[Value], i: usize) -> (r: Value)
    ensures
        r@ == aggregate_value(e@, rows_view(rows@), params.deep_view(), i as int),
    decreases e,
{
    let ghost rv = rows_view(rows@);
    let ghost pv = params.deep_view();
    match e {
        Expr::Nested(x) => evaluate_aggregate(x, rows, params, i),
        Expr::UnaryOp { op, expr } => {
            let v = evaluate_aggregate(expr, rows, params, i);
            expr::apply_unary(*op, v)
        },
        Expr::BinaryOp { left, op, right } => {
            let l = evaluate_aggregate(left, rows, params, i);
            let j: usize = expr::saturating(i, expr::count_placeholders(left));
            let r = evaluate_aggregate(right, rows, params, j);
            match op {
                BinaryOp::And => expr::bool_val(expr::truthy(&l) && expr::truthy(&r)),
                BinaryOp::Or => expr::bool_val(expr::truthy(&l) || expr::truthy(&r)),
                _ => expr::apply_binary(*op, &l, &r),
            }
        },
        Expr::Function { name, distinct, args } => {
            let lower = text::to_lower(name.as_str());
            if names_aggregate(lower.as_str()) {
                return call_aggregate(lower.as_str(), *distinct, args, rows);
            }
            let ghost av = ast::args_view(args@);
            let mut vals: Vec<Value> = Vec::new();
            let mut seen: usize = 0;
            let mut k: usize = 0;
            assert(vals.deep_view() =~= Seq::empty());
            while k < args.len()
                invariant
                    k <= args@.len(),
                    av == ast::args_view(args@),
                    rv == rows_view(rows@),
                    pv == params.deep_view(),
                    seen == expr::arg_placeholders(av, k as int),
                    vals.deep_view() == aggregate_args(av, rv, pv, i as int, k as int),
                    forall|i: int| 0 <= i < args@.len() ==> decreases_to!(e => #[trigger] args@[i]),
                decreases args@.len() - k,
            {
                assert(av[k as int] == ast::arg_view(args@[k as int]));
                assert(decreases_to!(e => args@[k as int]));
                let ghost before = vals.deep_view();
                let j: usize = expr::saturating(i, seen);
                let mut c: usize = 0;
                let v = match &args[k] {
                    FunctionArg::Unnamed(x) => {
                        c = expr::count_placeholders(x);
                        evaluate_aggregate(x, rows, params, j)
                    },
                    FunctionArg::Named(x) => {
                        c = expr::count_placeholders(x);
                        evaluate_aggregate(x, rows, params, j)
                    },
                    _ => Value::Null,
                };
                let ghost vv = v@;
                vals.push(v);
                assert(vals.deep_view() =~= before.push(vv));
                seen = expr::saturating(seen, c);
                k = k + 1;
            }
            expr::call_function(lower.as_str(), &vals)
        },
        _ => {
            let mut idx: usize = i;
            if rows.len() == 0 {
                let ctx = EvalCtx::no_row();
                expr::eval(e, &ctx, params, &mut idx)
            } else {
                assert(rv[0] == row::cells(rows@[0]));
                let ctx = EvalCtx::with_row(&rows[0]);
                expr::eval(e, &ctx, params, &mut idx)
            }
        },
    }
}

/// Whether a query names groups.
pub open spec fn has_groups(group_by: Option<Seq<ExprV>>) -> bool {
    match group_by {
        Some(exprs) => exprs.len() > 0,
        None => false,
    }
}

/// Whether an item of a projection takes an aggregate.
pub open spec fn aggregates(item: SelectItemV) -> bool {
    match item {
        SelectItemV::Unnamed { expr, text } => takes_aggregate(expr),
        SelectItemV::Aliased { expr, alias } => takes_aggregate(expr),
        _ => false,
    }
}

/// Whether a query gives one row for each group. One with an aggregate that names no groups is
/// one group.
pub open spec fn is_grouped(select: SelectV) -> bool {
    has_groups(select.group_by) || (select.from.len() > 0 && exists|i: int|
        0 <= i < select.projection.len() && #[trigger] aggregates(select.projection[i]))
}

/// The row of a group after the first `n` items of the projection. The items read the parameters
/// one after the other.
pub open spec fn group_row(items: Seq<SelectItemV>, rows: Seq<RowV>, ps: Seq<ValueV>, n: int) -> RowV
    decreases n,
{
    if n <= 0 || n > items.len() {
        Seq::empty()
    } else {
        let p = group_row(items, rows, ps, n - 1);
        let k = item_placeholders(items, n - 1);
        match items[n - 1] {
            SelectItemV::Unnamed { expr, text } => assoc::assoc_put(
                p,
                item_name(expr, text),
                aggregate_value(expr, rows, ps, k),
            ),
            SelectItemV::Aliased { expr, alias } => assoc::assoc_put(p, alias, aggregate_value(expr, rows, ps, k)),
            _ => p,
        }
    }
}

/// The rows of a grouped query: one for each group.
pub open spec fn grouped_rows(rows: Seq<RowV>, select: SelectV, ps: Seq<ValueV>) -> Seq<RowV> {
    let items = select.projection;
    if !is_grouped(select) {
        rows
    } else if has_groups(select.group_by) {
        let gs = groups_upto(select.group_by->0, rows, rows.len() as int);
        Seq::new(gs.len(), |i: int| group_row(items, gs[i].1, ps, items.len() as int))
    } else {
        seq![group_row(items, rows, ps, items.len() as int)]
    }
}

fn row_key(exprs: &Vec<Expr>, row: &Row) -> (r: Vec<Value>)
    ensures
        r@.len() == exprs@.len(),
        identities(r@) == group_key(exprs.deep_view(), row::cells(*row)),
{
    let ghost ev = exprs.deep_view();
    let empty: Vec<Value> = Vec::new();
    assert(empty.deep_view() =~= Seq::empty());
    let ctx = EvalCtx::with_row(row);
    let mut out: Vec<Value> = Vec::new();
    let mut i: usize = 0;
    while i < exprs.len()
        invariant
            i <= exprs@.len(),
            ev == exprs.deep_view(),
            empty.deep_view() == Seq::<ValueV>::empty(),
            ctx.row_view() == Some(row::cells(*row)),
            out@.len() == i,
            forall|j: int|
                0 <= j < i ==> (#[trigger] out@[j])@ == expr::eval_v(ev[j], Some(row::cells(*row)), Seq::empty(), 0).0,
        decreases exprs@.len() - i,
    {
        assert(ev[i as int] == exprs@[i as int]@);
        let mut idx: usize = 0;
        let v = expr::eval(&exprs[i], &ctx, empty.as_slice(), &mut idx);
        out.push(v);
        i = i + 1;
    }
    assert(identities(out@) =~= group_key(ev, row::cells(*row)));
    out
}

/// What values are told apart by.
pub open spec fn identities(s: Seq<Value>) -> Seq<ValueV> {
    Seq::new(s.len(), |i: int| identity(s[i]@))
}

fn same_key(a: &Vec<Value>, b: &Vec<Value>) -> (r: bool)
    ensures
        r == (identities(a@) == identities(b@)),
{
    if a.len() != b.len() {
        assert(identities(a@).len() != identities(b@).len());
        return false;
    }
    let mut i: usize = 0;
    while i < a.len()
        invariant
            i <= a@.len(),
            a@.len() == b@.len(),
            forall|j: int| 0 <= j < i ==> identity((#[trigger] a@[j])@) == identity(b@[j]@),
        decreases a@.len() - i,
    {
        if !identical(&a[i], &b[i]) {
            assert(identities(a@)[i as int] != identities(b@)[i as int]);
            return false;
        }
        i = i + 1;
    }
    assert(identities(a@) =~= identities(b@));
    true
}

/// A group: its key and its rows.
struct Group {
    key: Vec<Value>,
    rows: Vec<Row>,
}

spec fn group_views(s: Seq<Group>) -> Seq<(Seq<ValueV>, Seq<RowV>)> {
    Seq::new(s.len(), |i: int| (identities(s[i].key@), rows_view(s[i].rows@)))
}

fn find_group(groups: &Vec<Group>, key: &Vec<Value>) -> (r: Option<usize>)
    ensures
        match r {
            Some(i) => {
                &&& i < groups@.len()
                &&& group_views(groups@)[i as int].0 == identities(key@)
                &&& assoc::assoc_get(group_views(groups@), identities(key@)) == Some(rows_view(groups@[i as int].rows@))
                &&& assoc::assoc_put_at(group_views(groups@), identities(key@), i as int)
            },
            None => {
                &&& assoc::assoc_get(group_views(groups@), identities(key@)) is None
                &&& forall|j: int| 0 <= j < groups@.len() ==> (#[trigger] group_views(groups@)[j]).0 != identities(key@)
            },
        },
{
    let ghost v = group_views(groups@);
    let mut i: usize = 0;
    while i < groups.len()
        invariant
            i <= groups@.len(),
            v == group_views(groups@),
            forall|j: int| 0 <= j < i ==> (#[trigger] v[j]).0 != identities(key@),
        decreases groups@.len() - i,
    {
        if same_key(&groups[i].key, key) {
            proof {
                assert(v[i as int].0 == identities(key@));
                assoc::lemma_get_at(v, identities(key@), i as int);
            }
            return Some(i);
        }
        assert(v[i as int].0 != identities(key@));
        i = i + 1;
    }
    proof {
        assoc::lemma_get_absent(v, identities(key@));
    }
    None
}

fn copy_rows(rows: &Vec<Row>) -> (r: Vec<Row>)
    ensures
        rows_view(r@) == rows_view(rows@),
{
    let mut out: Vec<Row> = Vec::new();
    let mut i: usize = 0;
    while i < rows.len()
        invariant
            i <= rows@.len(),
            out@.len() == i,
            forall|j: int| 0 <= j < i ==> row::cells(#[trigger] out@[j]) == row::cells(rows@[j]),
        decreases rows@.len() - i,
    {
        out.push(row::row_copy(&rows[i]));
        i = i + 1;
    }
    assert(rows_view(out@) =~= rows_view(rows@));
    out
}

fn group_rows(exprs: &Vec<Expr>, rows: &Vec<Row>) -> (r: Vec<Group>)
    ensures
        group_views(r@) == groups_upto(exprs.deep_view(), rows_view(rows@), rows@.len() as int),
{
    let ghost ev = exprs.deep_view();
    let ghost rv = rows_view(rows@);
    let mut groups: Vec<Group> = Vec::new();
    let mut i: usize = 0;
    assert(group_views(groups@) =~= Seq::empty());
    while i < rows.len()
        invariant
            i <= rows@.len(),
            ev == exprs.deep_view(),
            rv == rows_view(rows@),
            group_views(groups@) == groups_upto(ev, rv, i as int),
        decreases rows@.len() - i,
    {
        assert(rv[i as int] == row::cells(rows@[i as int]));
        let key = row_key(exprs, &rows[i]);
        let ghost kv = identities(key@);
        let ghost before = group_views(groups@);
        match find_group(&groups, &key) {
            Some(k) => {
                let mut g = copy_rows(&groups[k].rows);
                let ghost gv = rows_view(g@);
                g.push(row::row_copy(&rows[i]));
                assert(rows_view(g@) =~= gv.push(rv[i as int]));
                let ghost nv = rows_view(g@);
                groups.set(k, Group { key, rows: g });
                assert(group_views(groups@) =~= before.update(k as int, (kv, nv)));
            },
            None => {
                let mut g: Vec<Row> = Vec::new();
                g.push(row::row_copy(&rows[i]));
                assert(rows_view(g@) =~= Seq::empty().push(rv[i as int]));
                let ghost nv = rows_view(g@);
                groups.push(Group { key, rows: g });
                proof {
                    assert(group_views(groups@) =~= before.push((kv, nv)));
                    assoc::lemma_put_absent(before, kv, nv);
                }
            },
        }
        i = i + 1;
    }
    groups
}

fn show_group(items: &Vec<SelectItem>, rows: &Vec<Row>, params: &[Value]) -> (r: Row)
    ensures
        row::cells(r) == group_row(items.deep_view(), rows_view(rows@), params.deep_view(), items@.len() as int),
{
    let ghost iv = items.deep_view();
    let ghost rv = rows_view(rows@);
    let ghost pv = params.deep_view();
    let mut row = row::row_new();
    let mut idx: usize = 0;
    let mut i: usize = 0;
    while i < items.len()
        invariant
            i <= items@.len(),
            iv == items.deep_view(),
            rv == rows_view(rows@),
            pv == params.deep_view(),
            row::cells(row) == group_row(iv, rv, pv, i as int),
            idx == item_placeholders(iv, i as int),
        decreases items@.len() - i,
    {
        assert(iv[i as int] == items@[i as int]@);
        match &items[i] {
            SelectItem::Unnamed { expr, text } => {
                let v = evaluate_aggregate(expr, rows, params, idx);
                idx = expr::saturating(idx, expr::count_placeholders(expr));
                let name = read_item_name(expr, text);
                row::row_put(&mut row, name, v);
            },
            SelectItem::Aliased { expr, alias } => {
                let v = evaluate_aggregate(expr, rows, params, idx);
                idx = expr::saturating(idx, expr::count_placeholders(expr));
                row::row_put(&mut row, alias.clone(), v);
            },
            _ => {},
        }
        i = i + 1;
    }
    row
}

fn has_aggregate(items: &Vec<SelectItem>) -> (r: bool)
    ensures
        r == exists|i: int| 0 <= i < items@.len() && #[trigger] aggregates(items.deep_view()[i]),
{
    let ghost iv = items.deep_view();
    let mut i: usize = 0;
    while i < items.len()
        invariant
            i <= items@.len(),
            iv == items.deep_view(),
            forall|j: int| 0 <= j < i ==> !#[trigger] aggregates(iv[j]),
        decreases items@.len() - i,
    {
        assert(iv[i as int] == items@[i as int]@);
        let found: bool = match &items[i] {
            SelectItem::Unnamed { expr, text } => reads_aggregate(expr),
            SelectItem::Aliased { expr, alias } => reads_aggregate(expr),
            _ => false,
        };
        assert(found == aggregates(iv[i as int]));
        if found {
            return true;
        }
        i = i + 1;
    }
    false
}

fn reads_as_grouped(select: &Select) -> (r: bool)
    ensures
        r == is_grouped(select@),
{
    let named: bool = match &select.group_by {
        Some(exprs) => exprs.len() > 0,
        None => false,
    };
    assert(named == has_groups(select@.group_by));
    assert(select@.from.len() == select.from@.len());
    assert(select@.projection == select.projection.deep_view() && select@.projection.len() == select.projection@.len());
    named || (select.from.len() > 0 && has_aggregate(&select.projection))
}

fn apply_group_by(rows: Vec<Row>, select: &Select, params: &[Value]) -> (r: Vec<Row>)
    ensures
        rows_view(r@) == grouped_rows(rows_view(rows@), select@, params.deep_view()),
{
    if !reads_as_grouped(select) {
        return rows;
    }
    let ghost iv = select.projection.deep_view();
    let ghost pv = params.deep_view();
    let mut out: Vec<Row> = Vec::new();
    match &select.group_by {
        Some(exprs) => {
            if exprs.len() > 0 {
                let groups = group_rows(exprs, &rows);
                let ghost gv = group_views(groups@);
                let mut i: usize = 0;
                while i < groups.len()
                    invariant
                        i <= groups@.len(),
                        gv == group_views(groups@),
                        iv == select.projection.deep_view(),
                        pv == params.deep_view(),
                        out@.len() == i,
                        forall|j: int|
                            0 <= j < i ==> row::cells(#[trigger] out@[j]) == group_row(iv, gv[j].1, pv, iv.len() as int),
                    decreases groups@.len() - i,
                {
                    assert(gv[i as int].1 == rows_view(groups@[i as int].rows@));
                    out.push(show_group(&select.projection, &groups[i].rows, params));
                    i = i + 1;
                }
                assert(rows_view(out@) =~= grouped_rows(rows_view(rows@), select@, pv));
                return out;
            }
        },
        None => {},
    }
    out.push(show_group(&select.projection, &rows, params));
    assert(rows_view(out@) =~= grouped_rows(rows_view(rows@), select@, pv));
    out
}

/// What a key of an ordering gives for a row.
pub open spec fn sort_key(e: ExprV, row: RowV) -> ValueV {
    expr::eval_v(e, Some(row), Seq::empty(), 0).0
}

/// The order of two rows by one key, turned round where it is descending.
pub open spec fn row_order(e: ExprV, asc: bool, a: RowV, b: RowV) -> int {
    let o = schema::value_order(sort_key(e, a), sort_key(e, b));
    if asc {
        o
    } else {
        -o
    }
}

/// Where a row goes in a sorted list: behind the last that does not come after it.
pub open spec fn sorted_place(e: ExprV, asc: bool, rows: Seq<RowV>, row: RowV, n: int) -> int
    decreases n,
{
    if n <= 0 || n > rows.len() || row_order(e, asc, rows[n - 1], row) <= 0 {
        n
    } else {
        sorted_place(e, asc, rows, row, n - 1)
    }
}

/// The first `n` rows sorted by one key; rows that stand level keep their order.
pub open spec fn sorted_upto(e: ExprV, asc: bool, rows: Seq<RowV>, n: int) -> Seq<RowV>
    decreases n,
{
    if n <= 0 || n > rows.len() {
        Seq::empty()
    } else {
        let p = sorted_upto(e, asc, rows, n - 1);
        p.insert(sorted_place(e, asc, p, rows[n - 1], p.len() as int), rows[n - 1])
    }
}

pub open spec fn is_ascending(k: OrderByExprV) -> bool {
    match k.asc {
        Some(b) => b,
        None => true,
    }
}

/// The rows sorted by the keys from `n` on, the last key first.
pub open spec fn ordered_rows(rows: Seq<RowV>, keys: Seq<OrderByExprV>, n: int) -> Seq<RowV>
    decreases keys.len() - n,
{
    if n < 0 || n >= keys.len() {
        rows
    } else {
        let p = ordered_rows(rows, keys, n + 1);
        sorted_upto(keys[n].expr, is_ascending(keys[n]), p, p.len() as int)
    }
}

fn key_of_row(e: &Expr, row: &Row) -> (r: Value)
    ensures
        r@ == sort_key(e@, row::cells(*row)),
{
    let empty: Vec<Value> = Vec::new();
    assert(empty.deep_view() =~= Seq::empty());
    let ctx = EvalCtx::with_row(row);
    let mut idx: usize = 0;
    expr::eval(e, &ctx, empty.as_slice(), &mut idx)
}

#[verifier::spinoff_prover]
#[verifier::rlimit(60)]
fn sort_rows(rows: Vec<Row>, e: &Expr, asc: bool) -> (r: Vec<Row>)
    ensures
        rows_view(r@) == sorted_upto(e@, asc, rows_view(rows@), rows@.len() as int),
{
    let ghost rv = rows_view(rows@);
    let mut out: Vec<Row> = Vec::new();
    let mut keys: Vec<Value> = Vec::new();
    let mut i: usize = 0;
    assert(rows_view(out@) =~= Seq::empty());
    while i < rows.len()
        invariant
            i <= rows@.len(),
            rv == rows_view(rows@),
            out@.len() == i,
            keys@.len() == i,
            forall|j: int| 0 <= j < i ==> (#[trigger] keys@[j])@ == sort_key(e@, rows_view(out@)[j]),
            rows_view(out@) == sorted_upto(e@, asc, rv, i as int),
        decreases rows@.len() - i,
    {
        let ghost before = rows_view(out@);
        let ghost row = rv[i as int];
        assert(row == row::cells(rows@[i as int]));
        let k = key_of_row(e, &rows[i]);
        let mut p: usize = i;
        while p > 0 && comes_after(&keys[p - 1], &k, asc)
            invariant
                p <= i,
                i == out@.len(),
                keys@.len() == i,
                before == rows_view(out@),
                k@ == sort_key(e@, row),
                forall|j: int| 0 <= j < i ==> (#[trigger] keys@[j])@ == sort_key(e@, before[j]),
                sorted_place(e@, asc, before, row, p as int) == sorted_place(e@, asc, before, row, i as int),
            decreases p,
        {
            p = p - 1;
        }
        let ghost old_keys = keys@;
        out.insert(p, row::row_copy(&rows[i]));
        keys.insert(p, k);
        proof {
            assert(rows_view(out@) =~= before.insert(p as int, row));
            assert forall|j: int| 0 <= j < i + 1 implies (#[trigger] keys@[j])@ == sort_key(
                e@,
                rows_view(out@)[j],
            ) by {
                if j < p {
                    assert(keys@[j] == old_keys[j]);
                } else if j > p {
                    assert(keys@[j] == old_keys[j - 1]);
                }
            }
        }
        i = i + 1;
    }
    out
}

fn comes_after(a: &Value, b: &Value, asc: bool) -> (r: bool)
    ensures
        r == (if asc {
            schema::value_order(a@, b@) > 0
        } else {
            -schema::value_order(a@, b@) > 0
        }),
{
    let o: i8 = a.order(b);
    if asc {
        o > 0
    } else {
        o < 0
    }
}

#[verifier::spinoff_prover]
#[verifier::rlimit(60)]
fn apply_order_by(rows: Vec<Row>, order_by: &Vec<OrderByExpr>) -> (r: Vec<Row>)
    ensures
        rows_view(r@) == ordered_rows(rows_view(rows@), order_by.deep_view(), 0),
{
    let ghost kv = order_by.deep_view();
    let ghost start = rows_view(rows@);
    let mut cur = rows;
    let mut n: usize = order_by.len();
    while n > 0
        invariant
            n <= order_by@.len(),
            kv == order_by.deep_view(),
            rows_view(cur@) == ordered_rows(start, kv, n as int),
        decreases n,
    {
        n = n - 1;
        let k = &order_by[n];
        assert(kv[n as int] == order_by@[n as int]@);
        let asc: bool = match k.asc {
            Some(b) => b,
            None => true,
        };
        cur = sort_rows(cur, &k.expr, asc);
    }
    cur
}

/// The number that a limit gives.
pub open spec fn count_of(e: ExprV) -> Option<int> {
    match e {
        ExprV::Value(LiteralV::Number(s)) => text::index_of_text(s),
        _ => None,
    }
}

fn expr_to_usize(e: &Expr) -> (r: Option<usize>)
    ensures
        match r {
            Some(n) => count_of(e@) == Some(n as int),
            None => count_of(e@) is None,
        },
{
    match e {
        Expr::Value(l) => match l {
            Literal::Number(s) => text::parse_index(s.as_str()),
            _ => None,
        },
        _ => None,
    }
}

/// The rows behind an offset, as many as a limit allows; without a limit, all.
pub open spec fn limited_rows(rows: Seq<RowV>, limit: Option<ExprV>, offset: Option<ExprV>) -> Seq<RowV> {
    match limit {
        None => rows,
        Some(l) => {
            let n = rows.len() as int;
            let count = match count_of(l) {
                Some(c) => c,
                None => n,
            };
            let skip = match offset {
                Some(o) => match count_of(o) {
                    Some(k) => k,
                    None => 0,
                },
                None => 0,
            };
            let from = if skip < n {
                skip
            } else {
                n
            };
            let to = if count < n - from {
                from + count
            } else {
                n
            };
            rows.subrange(from, to)
        },
    }
}

fn apply_limit(rows: Vec<Row>, limit: &Option<Expr>, offset: &Option<Expr>) -> (r: Vec<Row>)
    ensures
        rows_view(r@) == limited_rows(rows_view(rows@), limit.deep_view(), offset.deep_view()),
{
    let l = match limit {
        None => {
            return rows;
        },
        Some(l) => l,
    };
    let n: usize = rows.len();
    let count: usize = match expr_to_usize(l) {
        Some(c) => c,
        None => n,
    };
    let skip: usize = match offset {
        Some(o) => match expr_to_usize(o) {
            Some(k) => k,
            None => 0,
        },
        None => 0,
    };
    let from: usize = if skip < n {
        skip
    } else {
        n
    };
    let to: usize = if count < n - from {
        from + count
    } else {
        n
    };
    let ghost rv = rows_view(rows@);
    let mut out: Vec<Row> = Vec::new();
    let mut i: usize = from;
    while i < to
        invariant
            from <= i <= to <= rows@.len(),
            rv == rows_view(rows@),
            out@.len() == i - from,
            forall|j: int| 0 <= j < i - from ==> row::cells(#[trigger] out@[j]) == rv[from + j],
        decreases to - i,
    {
        out.push(row::row_copy(&rows[i]));
        i = i + 1;
    }
    assert(rows_view(out@) =~= rv.subrange(from as int, to as int));
    out
}

/// The name of an item of a projection that has no alias.
pub open spec fn item_name(e: ExprV, text: Seq<char>) -> Seq<char> {
    match e {
        ExprV::Identifier(c) => c,
        ExprV::CompoundIdentifier(parts) => if parts.len() == 0 {
            text
        } else {
            parts.last()
        },
        _ => text,
    }
}

fn read_item_name(e: &Expr, text: &String) -> (r: String)
    ensures
        r@ == item_name(e@, text@),
{
    match e {
        Expr::Identifier(c) => c.clone(),
        Expr::CompoundIdentifier(parts) => {
            if parts.len() == 0 {
                text.clone()
            } else {
                assert(parts.deep_view().last() == parts@[parts@.len() - 1]@);
                parts[parts.len() - 1].clone()
            }
        },
        _ => text.clone(),
    }
}

/// A row with the first `n` cells of another put into it.
pub open spec fn cells_added(into: RowV, row: RowV, n: int) -> RowV
    decreases n,
{
    if n <= 0 || n > row.len() {
        into
    } else {
        assoc::assoc_put(cells_added(into, row, n - 1), row[n - 1].0, row[n - 1].1)
    }
}

pub fn add_cells(into: &mut Row, row: &Row)
    ensures
        row::cells(*final(into)) == cells_added(row::cells(*old(into)), row::cells(*row), row::cells(*row).len() as int),
{
    let ghost start = row::cells(*into);
    let n: usize = row::row_len(row);
    let mut i: usize = 0;
    while i < n
        invariant
            i <= n,
            n == row::cells(*row).len(),
            row::cells(*into) == cells_added(start, row::cells(*row), i as int),
        decreases n - i,
    {
        match row::row_at(row, i) {
            Some((k, v)) => row::row_put(into, k.clone(), v.clone()),
            None => {},
        }
        i = i + 1;
    }
}

/// How many placeholders the first `n` items of a projection hold.
pub open spec fn item_placeholders(items: Seq<SelectItemV>, n: int) -> int
    decreases n,
{
    if n <= 0 || n > items.len() {
        0
    } else {
        expr::count_sum(
            item_placeholders(items, n - 1),
            match items[n - 1] {
                SelectItemV::Unnamed { expr, text } => expr::placeholders(expr),
                SelectItemV::Aliased { expr, alias } => expr::placeholders(expr),
                _ => 0,
            },
        )
    }
}

fn count_items(items: &Vec<SelectItem>) -> (r: usize)
    ensures
        r == item_placeholders(items.deep_view(), items@.len() as int),
{
    let ghost iv = items.deep_view();
    let mut n: usize = 0;
    let mut i: usize = 0;
    while i < items.len()
        invariant
            i <= items@.len(),
            iv == items.deep_view(),
            n == item_placeholders(iv, i as int),
        decreases items@.len() - i,
    {
        assert(iv[i as int] == items@[i as int]@);
        let c: usize = match &items[i] {
            SelectItem::Unnamed { expr, text } => expr::count_placeholders(expr),
            SelectItem::Aliased { expr, alias } => expr::count_placeholders(expr),
            _ => 0,
        };
        n = expr::saturating(n, c);
        i = i + 1;
    }
    n
}

/// The parameters that are left behind the first `k`.
pub open spec fn params_from(ps: Seq<ValueV>, k: int) -> Seq<ValueV> {
    if k <= 0 {
        ps
    } else if k >= ps.len() {
        Seq::empty()
    } else {
        ps.skip(k)
    }
}

fn skip_params(params: &[Value], k: usize) -> (r: &[Value])
    ensures
        r.deep_view() == params_from(params.deep_view(), k as int),
{
    let n: usize = if k <= params.len() {
        k
    } else {
        params.len()
    };
    let out = vstd::slice::slice_subrange(params, n, params.len());
    assert(out.deep_view() =~= params_from(params.deep_view(), k as int));
    out
}

/// A row after the first `n` items of a projection. The items read the parameters one after the
/// other.
pub open spec fn projected(items: Seq<SelectItemV>, row: RowV, ps: Seq<ValueV>, n: int) -> RowV
    decreases n,
{
    if n <= 0 || n > items.len() {
        Seq::empty()
    } else {
        let p = projected(items, row, ps, n - 1);
        match items[n - 1] {
            SelectItemV::Wildcard => cells_added(p, row, row.len() as int),
            SelectItemV::QualifiedWildcard => cells_added(p, row, row.len() as int),
            SelectItemV::Unnamed { expr, text } => assoc::assoc_put(
                p,
                item_name(expr, text),
                expr::eval_v(expr, Some(row), ps, item_placeholders(items, n - 1)).0,
            ),
            SelectItemV::Aliased { expr, alias } => assoc::assoc_put(
                p,
                alias,
                expr::eval_v(expr, Some(row), ps, item_placeholders(items, n - 1)).0,
            ),
        }
    }
}

/// Whether a projection takes the rows as they are.
pub open spec fn takes_all(items: Seq<SelectItemV>) -> bool {
    forall|i: int| 0 <= i < items.len() ==> #[trigger] items[i] == SelectItemV::Wildcard
}

/// The rows as a projection shows them.
pub open spec fn projected_rows(rows: Seq<RowV>, items: Seq<SelectItemV>, ps: Seq<ValueV>) -> Seq<RowV> {
    if takes_all(items) {
        rows
    } else {
        Seq::new(rows.len(), |i: int| projected(items, rows[i], ps, items.len() as int))
    }
}

fn only_wildcards(items: &Vec<SelectItem>) -> (r: bool)
    ensures
        r == takes_all(items.deep_view()),
{
    let ghost iv = items.deep_view();
    let mut i: usize = 0;
    while i < items.len()
        invariant
            i <= items@.len(),
            iv == items.deep_view(),
            forall|j: int| 0 <= j < i ==> #[trigger] iv[j] == SelectItemV::Wildcard,
        decreases items@.len() - i,
    {
        assert(iv[i as int] == items@[i as int]@);
        match &items[i] {
            SelectItem::Wildcard => {},
            _ => {
                assert(iv[i as int] != SelectItemV::Wildcard);
                return false;
            },
        }
        i = i + 1;
    }
    true
}

fn project_row(items: &Vec<SelectItem>, row: &Row, params: &[Value]) -> (r: Row)
    ensures
        row::cells(r) == projected(items.deep_view(), row::cells(*row), params.deep_view(), items@.len() as int),
{
    let ghost iv = items.deep_view();
    let ctx = EvalCtx::with_row(row);
    let mut out = row::row_new();
    let mut idx: usize = 0;
    let mut i: usize = 0;
    while i < items.len()
        invariant
            i <= items@.len(),
            iv == items.deep_view(),
            ctx.row_view() == Some(row::cells(*row)),
            row::cells(out) == projected(iv, row::cells(*row), params.deep_view(), i as int),
            idx == item_placeholders(iv, i as int),
        decreases items@.len() - i,
    {
        assert(iv[i as int] == items@[i as int]@);
        match &items[i] {
            SelectItem::Wildcard => add_cells(&mut out, row),
            SelectItem::QualifiedWildcard => add_cells(&mut out, row),
            SelectItem::Unnamed { expr, text } => {
                let name = read_item_name(expr, text);
                let v = expr::eval(expr, &ctx, params, &mut idx);
                row::row_put(&mut out, name, v);
            },
            SelectItem::Aliased { expr, alias } => {
                let v = expr::eval(expr, &ctx, params, &mut idx);
                row::row_put(&mut out, alias.clone(), v);
            },
        }
        i = i + 1;
    }
    out
}

fn apply_projection(rows: Vec<Row>, projection: &Vec<SelectItem>, params: &[Value]) -> (r: Vec<Row>)
    ensures
        rows_view(r@) == projected_rows(rows_view(rows@), projection.deep_view(), params.deep_view()),
{
    if only_wildcards(projection) {
        return rows;
    }
    let ghost rv = rows_view(rows@);
    let mut out: Vec<Row> = Vec::new();
    let mut i: usize = 0;
    while i < rows.len()
        invariant
            i <= rows@.len(),
            rv == rows_view(rows@),
            out@.len() == i,
            forall|j: int|
                0 <= j < i ==> row::cells(#[trigger] out@[j]) == projected(
                    projection.deep_view(),
                    rv[j],
                    params.deep_view(),
                    projection@.len() as int,
                ),
        decreases rows@.len() - i,
    {
        out.push(project_row(projection, &rows[i], params));
        i = i + 1;
    }
    assert(rows_view(out@) =~= projected_rows(rv, projection.deep_view(), params.deep_view()));
    out
}

/// What a row is told apart by: its names and values, in order.
pub open spec fn row_identity(row: RowV) -> Seq<(Seq<char>, ValueV)> {
    Seq::new(row.len(), |i: int| (row[i].0, identity(row[i].1)))
}

/// Whether a row differs from each row of a list.
pub open spec fn is_new(rows: Seq<RowV>, row: RowV) -> bool {
    forall|i: int| 0 <= i < rows.len() ==> row_identity(#[trigger] rows[i]) != row_identity(row)
}

/// The first `n` rows without those that came before.
pub open spec fn distinct_upto(rows: Seq<RowV>, n: int) -> Seq<RowV>
    decreases n,
{
    if n <= 0 || n > rows.len() {
        Seq::empty()
    } else {
        let p = distinct_upto(rows, n - 1);
        if is_new(p, rows[n - 1]) {
            p.push(rows[n - 1])
        } else {
            p
        }
    }
}

fn same_row(a: &Row, b: &Row) -> (r: bool)
    ensures
        r == (row_identity(row::cells(*a)) == row_identity(row::cells(*b))),
{
    let n: usize = row::row_len(a);
    let ghost av = row_identity(row::cells(*a));
    let ghost bv = row_identity(row::cells(*b));
    if n != row::row_len(b) {
        assert(av.len() != bv.len());
        return false;
    }
    let mut i: usize = 0;
    while i < n
        invariant
            i <= n,
            av == row_identity(row::cells(*a)),
            bv == row_identity(row::cells(*b)),
            n == av.len(),
            n == bv.len(),
            forall|j: int| 0 <= j < i ==> #[trigger] av[j] == bv[j],
        decreases n - i,
    {
        match (row::row_at(a, i), row::row_at(b, i)) {
            (Some((k, v)), Some((l, w))) => {
                assert(av[i as int] == (k@, identity(v@)));
                assert(bv[i as int] == (l@, identity(w@)));
                if !(*k == *l && identical(v, w)) {
                    assert(av[i as int] != bv[i as int]);
                    return false;
                }
            },
            _ => {},
        }
        i = i + 1;
    }
    assert(av =~= bv);
    true
}

fn distinct_rows(rows: Vec<Row>) -> (r: Vec<Row>)
    ensures
        rows_view(r@) == distinct_upto(rows_view(rows@), rows@.len() as int),
{
    let ghost rv = rows_view(rows@);
    let mut out: Vec<Row> = Vec::new();
    let mut i: usize = 0;
    assert(rows_view(out@) =~= Seq::empty());
    while i < rows.len()
        invariant
            i <= rows@.len(),
            rv == rows_view(rows@),
            rows_view(out@) == distinct_upto(rv, i as int),
        decreases rows@.len() - i,
    {
        let ghost before = rows_view(out@);
        assert(rv[i as int] == row::cells(rows@[i as int]));
        let mut fresh: bool = true;
        let mut j: usize = 0;
        while j < out.len() && fresh
            invariant
                j <= out@.len(),
                before == rows_view(out@),
                rv[i as int] == row::cells(rows@[i as int]),
                i < rows@.len(),
                fresh ==> forall|x: int| 0 <= x < j ==> row_identity(#[trigger] before[x]) != row_identity(rv[i as int]),
                !fresh ==> !is_new(before, rv[i as int]),
            decreases out@.len() - j,
        {
            assert(before[j as int] == row::cells(out@[j as int]));
            if same_row(&out[j], &rows[i]) {
                fresh = false;
            }
            j = j + 1;
        }
        if fresh {
            out.push(row::row_copy(&rows[i]));
            assert(rows_view(out@) =~= before.push(rv[i as int]));
        }
        i = i + 1;
    }
    out
}

/// The rows without the column that holds their ids.
pub open spec fn stripped(rows: Seq<RowV>) -> Seq<RowV> {
    Seq::new(rows.len(), |i: int| assoc::assoc_remove(rows[i], "_rowid_"@))
}

fn strip_rowids(rows: Vec<Row>) -> (r: Vec<Row>)
    ensures
        rows_view(r@) == stripped(rows_view(rows@)),
{
    let ghost rv = rows_view(rows@);
    let mut out: Vec<Row> = Vec::new();
    let mut i: usize = 0;
    while i < rows.len()
        invariant
            i <= rows@.len(),
            rv == rows_view(rows@),
            out@.len() == i,
            forall|j: int| 0 <= j < i ==> row::cells(#[trigger] out@[j]) == assoc::assoc_remove(rv[j], "_rowid_"@),
        decreases rows@.len() - i,
    {
        let mut row = row::row_copy(&rows[i]);
        row::row_remove(&mut row, "_rowid_");
        out.push(row);
        i = i + 1;
    }
    assert(rows_view(out@) =~= stripped(rv));
    out
}

/// A column's name behind its table's.
pub open spec fn qualified(table: Seq<char>, col: Seq<char>) -> Seq<char> {
    table + "."@ + col
}

pub fn qualified_name(table_or_alias: &str, col: &str) -> (r: String)
    ensures
        r@ == qualified(table_or_alias@, col@),
{
    text::text3(table_or_alias, ".", col)
}

/// The name by which a query calls a table: its alias, where it has one.
pub open spec fn called(t: TableRefV) -> Seq<char> {
    match t.alias {
        Some(a) => a,
        None => t.table,
    }
}

pub fn table_ref_name(table: &str, alias: &Option<String>) -> (r: String)
    ensures
        r@ == called(TableRefV { table: table@, alias: alias.deep_view() }),
{
    match alias {
        Some(a) => a.clone(),
        None => table.to_owned(),
    }
}

/// A row with the first `n` cells of another merged into it: each under its qualified name, and
/// under its own name where no table before has claimed that.
pub open spec fn merged(into: RowV, name: Seq<char>, row: RowV, n: int) -> RowV
    decreases n,
{
    if n <= 0 || n > row.len() {
        into
    } else {
        let p = assoc::assoc_put(merged(into, name, row, n - 1), qualified(name, row[n - 1].0), row[n - 1].1);
        if assoc::assoc_get(p, row[n - 1].0) is None {
            assoc::assoc_put(p, row[n - 1].0, row[n - 1].1)
        } else {
            p
        }
    }
}

fn put_if_absent(row: &mut Row, k: String, v: Value)
    ensures
        row::cells(*final(row)) == (if assoc::assoc_get(row::cells(*old(row)), k@) is None {
            assoc::assoc_put(row::cells(*old(row)), k@, v@)
        } else {
            row::cells(*old(row))
        }),
{
    let absent: bool = match row::row_get(row, k.as_str()) {
        Some(_) => false,
        None => true,
    };
    if absent {
        row::row_put(row, k, v);
    }
}

fn insert_row_qualified(combined: &mut Row, table_or_alias: &str, row: &Row)
    ensures
        row::cells(*final(combined)) == merged(row::cells(*old(combined)), table_or_alias@, row::cells(*row), row::cells(*row).len() as int),
{
    let ghost start = row::cells(*combined);
    let n: usize = row::row_len(row);
    let mut i: usize = 0;
    while i < n
        invariant
            i <= n,
            n == row::cells(*row).len(),
            row::cells(*combined) == merged(start, table_or_alias@, row::cells(*row), i as int),
        decreases n - i,
    {
        match row::row_at(row, i) {
            Some((k, v)) => {
                row::row_put(combined, qualified_name(table_or_alias, k.as_str()), v.clone());
                put_if_absent(combined, k.clone(), v.clone());
            },
            None => {},
        }
        i = i + 1;
    }
}

/// A row of nulls under the given names.
pub open spec fn nulls(names: Seq<Seq<char>>) -> RowV {
    Seq::new(names.len(), |i: int| (names[i], ValueV::Null))
}

/// The names of a row's cells.
pub open spec fn cell_names(row: RowV) -> Seq<Seq<char>> {
    Seq::new(row.len(), |i: int| row[i].0)
}

/// The names of a table's columns.
pub open spec fn column_names(s: SchemaV) -> Seq<Seq<char>> {
    Seq::new(s.columns.len(), |i: int| s.columns[i].0)
}

fn names_of(row: &Row) -> (r: Vec<String>)
    ensures
        r.deep_view() == cell_names(row::cells(*row)),
{
    let n: usize = row::row_len(row);
    let mut out: Vec<String> = Vec::new();
    let mut i: usize = 0;
    while i < n
        invariant
            i <= n,
            n == row::cells(*row).len(),
            out@.len() == i,
            forall|j: int| 0 <= j < i ==> (#[trigger] out@[j])@ == row::cells(*row)[j].0,
        decreases n - i,
    {
        match row::row_at(row, i) {
            Some((k, _)) => out.push(k.clone()),
            None => {},
        }
        i = i + 1;
    }
    assert(out.deep_view() =~= cell_names(row::cells(*row)));
    out
}

pub(crate) fn names_of_columns(s: &TableSchema) -> (r: Vec<String>)
    ensures
        r.deep_view() == column_names(s@),
{
    let n: usize = row::columns_len(&s.columns);
    let mut out: Vec<String> = Vec::new();
    let mut i: usize = 0;
    while i < n
        invariant
            i <= n,
            n == s@.columns.len(),
            s@.columns == row::column_list(s.columns),
            out@.len() == i,
            forall|j: int| 0 <= j < i ==> (#[trigger] out@[j])@ == s@.columns[j].0,
        decreases n - i,
    {
        match row::columns_at(&s.columns, i) {
            Some((k, _)) => out.push(k.clone()),
            None => {},
        }
        i = i + 1;
    }
    assert(out.deep_view() =~= column_names(s@));
    out
}

/// The columns that a row without a partner is padded with: those of the table's schema, else
/// those of its first row.
pub open spec fn padding(schema: Option<SchemaV>, rows: Seq<RowV>) -> Seq<Seq<char>> {
    match schema {
        Some(s) => column_names(s),
        None => if rows.len() > 0 {
            cell_names(rows[0])
        } else {
            Seq::empty()
        },
    }
}

fn padding_columns(schema: Option<&TableSchema>, rows: &Vec<Row>) -> (r: Vec<String>)
    ensures
        r.deep_view() == padding(
            match schema {
                Some(s) => Some(s@),
                None => None,
            },
            rows_view(rows@),
        ),
{
    match schema {
        Some(s) => names_of_columns(s),
        None => {
            if rows.len() > 0 {
                assert(rows_view(rows@)[0] == row::cells(rows@[0]));
                names_of(&rows[0])
            } else {
                let out: Vec<String> = Vec::new();
                assert(out.deep_view() =~= Seq::empty());
                out
            }
        },
    }
}

fn null_padded(row1: &Row, table_or_alias: &str, names: &Vec<String>) -> (r: Row)
    ensures
        row::cells(r) == merged(row::cells(*row1), table_or_alias@, nulls(names.deep_view()), names@.len() as int),
{
    let ghost nv: Seq<Seq<char>> = names.deep_view();
    let mut out = row::row_copy(row1);
    let mut i: usize = 0;
    while i < names.len()
        invariant
            i <= names@.len(),
            nv == names.deep_view(),
            nv.len() == names@.len(),
            row::cells(out) == merged(row::cells(*row1), table_or_alias@, nulls(nv), i as int),
        decreases names@.len() - i,
    {
        assert(nv[i as int] == names@[i as int]@);
        assert(nulls(nv)[i as int] == (nv[i as int], ValueV::Null));
        row::row_put(&mut out, qualified_name(table_or_alias, names[i].as_str()), Value::Null);
        put_if_absent(&mut out, names[i].clone(), Value::Null);
        i = i + 1;
    }
    out
}

/// What a join asks of its pairs of rows, and where.
pub struct JoinContextV {
    pub fts: CatalogV<FtsTableV>,
    pub db: u32,
    pub constraint: JoinConstraintV,
    pub params: Seq<ValueV>,
    pub name: Seq<char>,
}

/// A row of the join so far with a row of the joined table.
pub open spec fn pair(j: JoinContextV, row1: RowV, row2: RowV) -> RowV {
    merged(row1, j.name, row2, row2.len() as int)
}

/// Whether two rows both have a column, with equal values.
pub open spec fn agree(row1: RowV, row2: RowV, column: Seq<char>) -> bool {
    match (assoc::assoc_get(row1, column), assoc::assoc_get(row2, column)) {
        (Some(v), Some(w)) => expr::is_true(expr::binary_value(BinaryOp::Eq, v, w)),
        _ => false,
    }
}

/// Whether a pair of rows belongs together.
pub open spec fn joins(j: JoinContextV, row1: RowV, row2: RowV) -> bool {
    match j.constraint {
        JoinConstraintV::On(e) => holds(j.fts, j.db, pair(j, row1, row2), e, j.params, 0).0,
        JoinConstraintV::Using(cols) => forall|i: int| 0 <= i < cols.len() ==> agree(row1, row2, #[trigger] cols[i]),
        _ => true,
    }
}

/// The pairs of one row with the first `n` rows of the joined table that belong together.
pub open spec fn pairs_right(j: JoinContextV, row1: RowV, rows2: Seq<RowV>, n: int) -> Seq<RowV>
    decreases n,
{
    if n <= 0 || n > rows2.len() {
        Seq::empty()
    } else {
        let p = pairs_right(j, row1, rows2, n - 1);
        if joins(j, row1, rows2[n - 1]) {
            p.push(pair(j, row1, rows2[n - 1]))
        } else {
            p
        }
    }
}

/// The pairs of the first `n` rows of the join so far with one row of the joined table that
/// belong together.
pub open spec fn pairs_left(j: JoinContextV, rows1: Seq<RowV>, row2: RowV, n: int) -> Seq<RowV>
    decreases n,
{
    if n <= 0 || n > rows1.len() {
        Seq::empty()
    } else {
        let p = pairs_left(j, rows1, row2, n - 1);
        if joins(j, rows1[n - 1], row2) {
            p.push(pair(j, rows1[n - 1], row2))
        } else {
            p
        }
    }
}

/// The inner join of the first `n` rows.
pub open spec fn inner_join(j: JoinContextV, rows1: Seq<RowV>, rows2: Seq<RowV>, n: int) -> Seq<RowV>
    decreases n,
{
    if n <= 0 || n > rows1.len() {
        Seq::empty()
    } else {
        inner_join(j, rows1, rows2, n - 1) + pairs_right(j, rows1[n - 1], rows2, rows2.len() as int)
    }
}

/// A row of the join so far that has no partner: nulls stand for the joined table, under the bare
/// names too where no earlier table has them.
pub open spec fn padded(j: JoinContextV, row1: RowV, names: Seq<Seq<char>>) -> RowV {
    merged(row1, j.name, nulls(names), names.len() as int)
}

/// The left outer join of the first `n` rows.
pub open spec fn left_join(
    j: JoinContextV,
    rows1: Seq<RowV>,
    rows2: Seq<RowV>,
    names: Seq<Seq<char>>,
    n: int,
) -> Seq<RowV>
    decreases n,
{
    if n <= 0 || n > rows1.len() {
        Seq::empty()
    } else {
        let p = left_join(j, rows1, rows2, names, n - 1);
        let m = pairs_right(j, rows1[n - 1], rows2, rows2.len() as int);
        if m.len() == 0 {
            p.push(padded(j, rows1[n - 1], names))
        } else {
            p + m
        }
    }
}

/// The columns of the join so far, as its first row shows them.
pub open spec fn left_names(rows1: Seq<RowV>) -> Seq<Seq<char>> {
    if rows1.len() > 0 {
        cell_names(rows1[0])
    } else {
        Seq::empty()
    }
}

/// A row of the joined table that has no partner.
pub open spec fn padded_right(j: JoinContextV, rows1: Seq<RowV>, row2: RowV) -> RowV {
    let names = left_names(rows1);
    pair(j, cells_added(Seq::empty(), nulls(names), names.len() as int), row2)
}

/// The right outer join of the first `n` rows of the joined table.
pub open spec fn right_join(j: JoinContextV, rows1: Seq<RowV>, rows2: Seq<RowV>, n: int) -> Seq<RowV>
    decreases n,
{
    if n <= 0 || n > rows2.len() {
        Seq::empty()
    } else {
        let p = right_join(j, rows1, rows2, n - 1);
        let m = pairs_left(j, rows1, rows2[n - 1], rows1.len() as int);
        if m.len() == 0 {
            p.push(padded_right(j, rows1, rows2[n - 1]))
        } else {
            p + m
        }
    }
}

/// The first `n` rows of the joined table that have no partner, padded.
pub open spec fn lone_right(j: JoinContextV, rows1: Seq<RowV>, rows2: Seq<RowV>, n: int) -> Seq<RowV>
    decreases n,
{
    if n <= 0 || n > rows2.len() {
        Seq::empty()
    } else {
        let p = lone_right(j, rows1, rows2, n - 1);
        if pairs_left(j, rows1, rows2[n - 1], rows1.len() as int).len() == 0 {
            p.push(padded_right(j, rows1, rows2[n - 1]))
        } else {
            p
        }
    }
}

/// The rows of a table.
pub open spec fn plain_rows(m: Map<u64, RowV>) -> Seq<RowV> {
    Seq::new(store::row_list(m).len(), |i: int| store::row_list(m)[i].1)
}

/// One join.
pub open spec fn join_step(s: StateV, db: u32, rows1: Seq<RowV>, join: JoinV, ps: Seq<ValueV>) -> Result<
    Seq<RowV>,
    ErrorV,
> {
    let table = join.relation.table;
    match state::table_rows(s, db, table) {
        None => Err(table_missing(table)),
        Some(m) => {
            let rows2 = plain_rows(m);
            let names = padding(state::table_schema(s, db, table), rows2);
            let n1 = rows1.len() as int;
            let n2 = rows2.len() as int;
            match join.operator {
                JoinOperatorV::Inner(c) => Ok(inner_join(join_context(s, db, join, c, ps), rows1, rows2, n1)),
                JoinOperatorV::LeftOuter(c) => Ok(left_join(join_context(s, db, join, c, ps), rows1, rows2, names, n1)),
                JoinOperatorV::RightOuter(c) => Ok(right_join(join_context(s, db, join, c, ps), rows1, rows2, n2)),
                JoinOperatorV::FullOuter(c) => {
                    let j = join_context(s, db, join, c, ps);
                    Ok(left_join(j, rows1, rows2, names, n1) + lone_right(j, rows1, rows2, n2))
                },
                JoinOperatorV::CrossJoin => Ok(
                    inner_join(join_context(s, db, join, JoinConstraintV::Missing, ps), rows1, rows2, n1),
                ),
                JoinOperatorV::Other(d) => Err(ErrorV::Unsupported("JOIN type not supported: "@ + d)),
            }
        },
    }
}

pub open spec fn join_context(s: StateV, db: u32, join: JoinV, c: JoinConstraintV, ps: Seq<ValueV>) -> JoinContextV {
    JoinContextV { fts: s.fts, db, constraint: c, params: ps, name: called(join.relation) }
}

/// How many placeholders the condition of a join holds.
pub open spec fn condition_placeholders(op: JoinOperatorV) -> int {
    let c = match op {
        JoinOperatorV::Inner(c) => c,
        JoinOperatorV::LeftOuter(c) => c,
        JoinOperatorV::RightOuter(c) => c,
        JoinOperatorV::FullOuter(c) => c,
        _ => JoinConstraintV::Missing,
    };
    match c {
        JoinConstraintV::On(e) => expr::placeholders(e),
        _ => 0,
    }
}

fn count_condition(op: &JoinOperator) -> (r: usize)
    ensures
        r == condition_placeholders(op@),
{
    let c = match op {
        JoinOperator::Inner(c) => c,
        JoinOperator::LeftOuter(c) => c,
        JoinOperator::RightOuter(c) => c,
        JoinOperator::FullOuter(c) => c,
        _ => {
            return 0;
        },
    };
    match c {
        JoinConstraint::On(e) => expr::count_placeholders(e),
        _ => 0,
    }
}

/// How many placeholders the conditions of the first `n` joins hold.
pub open spec fn join_placeholders(js: Seq<JoinV>, n: int) -> int
    decreases n,
{
    if n <= 0 || n > js.len() {
        0
    } else {
        expr::count_sum(join_placeholders(js, n - 1), condition_placeholders(js[n - 1].operator))
    }
}

fn count_joins(js: &Vec<Join>) -> (r: usize)
    ensures
        r == join_placeholders(js.deep_view(), js@.len() as int),
{
    let ghost jv = js.deep_view();
    let mut n: usize = 0;
    let mut i: usize = 0;
    while i < js.len()
        invariant
            i <= js@.len(),
            jv == js.deep_view(),
            n == join_placeholders(jv, i as int),
        decreases js@.len() - i,
    {
        assert(jv[i as int] == js@[i as int]@);
        let c: usize = count_condition(&js[i].operator);
        n = expr::saturating(n, c);
        i = i + 1;
    }
    n
}

/// How many placeholders the first `n` items of a FROM list hold.
pub open spec fn from_placeholders(from: Seq<TableWithJoinsV>, n: int) -> int
    decreases n,
{
    if n <= 0 || n > from.len() {
        0
    } else {
        expr::count_sum(from_placeholders(from, n - 1), join_placeholders(from[n - 1].joins, from[n - 1].joins.len() as int))
    }
}

fn count_from(from: &Vec<TableWithJoins>) -> (r: usize)
    ensures
        r == from_placeholders(from.deep_view(), from@.len() as int),
{
    let ghost fv = from.deep_view();
    let mut n: usize = 0;
    let mut i: usize = 0;
    while i < from.len()
        invariant
            i <= from@.len(),
            fv == from.deep_view(),
            n == from_placeholders(fv, i as int),
        decreases from@.len() - i,
    {
        assert(fv[i as int] == from@[i as int]@);
        let c: usize = count_joins(&from[i].joins);
        n = expr::saturating(n, c);
        i = i + 1;
    }
    n
}

/// The rows after the first `n` joins. Their conditions read the parameters one after the other.
pub open spec fn joined_upto(s: StateV, db: u32, rows: Seq<RowV>, js: Seq<JoinV>, ps: Seq<ValueV>, n: int) -> Result<
    Seq<RowV>,
    ErrorV,
>
    decreases n,
{
    if n <= 0 || n > js.len() {
        Ok(rows)
    } else {
        match joined_upto(s, db, rows, js, ps, n - 1) {
            Ok(r) => join_step(s, db, r, js[n - 1], params_from(ps, join_placeholders(js, n - 1))),
            Err(e) => Err(e),
        }
    }
}

/// The rows of the first table of a join, each name qualified.
pub open spec fn first_rows(m: Map<u64, RowV>, t: TableRefV) -> Seq<RowV> {
    let rows = plain_rows(m);
    Seq::new(rows.len(), |i: int| merged(Seq::empty(), called(t), rows[i], rows[i].len() as int))
}

/// The rows of a join: those of the first table, each name qualified, joined with one table
/// after the other.
pub open spec fn joined_rows(s: StateV, db: u32, from: Seq<TableWithJoinsV>, ps: Seq<ValueV>) -> Result<
    Seq<RowV>,
    ErrorV,
> {
    if from.len() == 0 {
        Ok(Seq::empty())
    } else {
        let t = from[0].relation;
        match state::table_rows(s, db, t.table) {
            None => Err(table_missing(t.table)),
            Some(m) => joined_upto(s, db, first_rows(m, t), from[0].joins, ps, from[0].joins.len() as int),
        }
    }
}

proof fn lemma_disagree(j: JoinContextV, row1: RowV, row2: RowV, cols: Seq<Seq<char>>, i: int)
    requires
        j.constraint == JoinConstraintV::Using(cols),
        0 <= i < cols.len(),
        !agree(row1, row2, cols[i]),
    ensures
        !joins(j, row1, row2),
{
    if joins(j, row1, row2) {
        assert(j.constraint->Using_0 == cols);
        assert(forall|k: int| 0 <= k < cols.len() ==> agree(row1, row2, #[trigger] cols[k]));
        assert(agree(row1, row2, (j.constraint->Using_0)[i]));
    }
}

fn join_condition_matches(
    state: &KvsState,
    db_id: u32,
    row1: &Row,
    row2: &Row,
    combined: &Row,
    constraint: &JoinConstraint,
    params: &[Value],
) -> (r: bool)
    ensures
        forall|j: JoinContextV|
            (j.fts == state@.fts && j.db == db_id && j.constraint == constraint@ && j.params == params.deep_view()
                && row::cells(*combined) == pair(j, row::cells(*row1), row::cells(*row2))) ==> r == #[trigger] joins(
                j,
                row::cells(*row1),
                row::cells(*row2),
            ),
{
    match constraint {
        JoinConstraint::On(e) => {
            let mut idx: usize = 0;
            evaluate_where_ctx(state, db_id, combined, e, params, &mut idx)
        },
        JoinConstraint::Using(cols) => {
            let ghost cv: Seq<Seq<char>> = cols.deep_view();
            let mut i: usize = 0;
            while i < cols.len()
                invariant
                    i <= cols@.len(),
                    cv == cols.deep_view(),
                    constraint@ == JoinConstraintV::Using(cv),
                    forall|k: int| 0 <= k < i ==> agree(row::cells(*row1), row::cells(*row2), #[trigger] cv[k]),
                decreases cols@.len() - i,
            {
                assert(cv[i as int] == cols@[i as int]@);
                let same: bool = match (row::row_get(row1, cols[i].as_str()), row::row_get(row2, cols[i].as_str())) {
                    (Some(v), Some(w)) => expr::truthy(&expr::apply_binary(BinaryOp::Eq, v, w)),
                    _ => false,
                };
                assert(same == agree(row::cells(*row1), row::cells(*row2), cv[i as int]));
                if !same {
                    assert forall|j: JoinContextV| j.constraint == constraint@ implies !#[trigger] joins(
                        j,
                        row::cells(*row1),
                        row::cells(*row2),
                    ) by {
                        lemma_disagree(j, row::cells(*row1), row::cells(*row2), cv, i as int);
                    }
                    return false;
                }
                i = i + 1;
            }
            true
        },
        _ => true,
    }
}

/// A join: what it asks of its pairs of rows, and where.
struct JoinContext<'a> {
    state: &'a KvsState,
    db_id: u32,
    constraint: &'a JoinConstraint,
    params: &'a [Value],
    name: &'a str,
}

impl<'a> View for JoinContext<'a> {
    type V = JoinContextV;

    closed spec fn view(&self) -> JoinContextV {
        JoinContextV {
            fts: self.state@.fts,
            db: self.db_id,
            constraint: self.constraint@,
            params: self.params.deep_view(),
            name: self.name@,
        }
    }
}

impl<'a> JoinContext<'a> {
    fn combine(&self, row1: &Row, row2: &Row) -> (r: Row)
        ensures
            row::cells(r) == pair(self@, row::cells(*row1), row::cells(*row2)),
    {
        let mut combined = row::row_copy(row1);
        insert_row_qualified(&mut combined, self.name, row2);
        combined
    }

    fn accepts(&self, row1: &Row, row2: &Row, combined: &Row) -> (r: bool)
        requires
            row::cells(*combined) == pair(self@, row::cells(*row1), row::cells(*row2)),
        ensures
            r == joins(self@, row::cells(*row1), row::cells(*row2)),
    {
        join_condition_matches(self.state, self.db_id, row1, row2, combined, self.constraint, self.params)
    }

    /// Appends the pairs of one row with the rows of the joined table.
    fn push_pairs_right(&self, row1: &Row, rows2: &Vec<Row>, out: &mut Vec<Row>)
        ensures
            rows_view(final(out)@) == rows_view(old(out)@) + pairs_right(
                self@,
                row::cells(*row1),
                rows_view(rows2@),
                rows2@.len() as int,
            ),
    {
        let ghost start = rows_view(out@);
        let ghost rv = rows_view(rows2@);
        let mut i: usize = 0;
        assert(rows_view(out@) =~= start + Seq::empty());
        while i < rows2.len()
            invariant
                i <= rows2@.len(),
                rv == rows_view(rows2@),
                rows_view(out@) == start + pairs_right(self@, row::cells(*row1), rv, i as int),
            decreases rows2@.len() - i,
        {
            assert(rv[i as int] == row::cells(rows2@[i as int]));
            let ghost before = rows_view(out@);
            let c = self.combine(row1, &rows2[i]);
            let ghost cv = row::cells(c);
            if self.accepts(row1, &rows2[i], &c) {
                out.push(c);
                assert(rows_view(out@) =~= before.push(cv));
                assert(rows_view(out@) =~= start + pairs_right(self@, row::cells(*row1), rv, i + 1));
            }
            i = i + 1;
        }
    }

    /// Appends the pairs of the rows of the join so far with one row of the joined table.
    fn push_pairs_left(&self, rows1: &Vec<Row>, row2: &Row, out: &mut Vec<Row>)
        ensures
            rows_view(final(out)@) == rows_view(old(out)@) + pairs_left(
                self@,
                rows_view(rows1@),
                row::cells(*row2),
                rows1@.len() as int,
            ),
    {
        let ghost start = rows_view(out@);
        let ghost rv = rows_view(rows1@);
        let mut i: usize = 0;
        assert(rows_view(out@) =~= start + Seq::empty());
        while i < rows1.len()
            invariant
                i <= rows1@.len(),
                rv == rows_view(rows1@),
                rows_view(out@) == start + pairs_left(self@, rv, row::cells(*row2), i as int),
            decreases rows1@.len() - i,
        {
            assert(rv[i as int] == row::cells(rows1@[i as int]));
            let ghost before = rows_view(out@);
            let c = self.combine(&rows1[i], row2);
            let ghost cv = row::cells(c);
            if self.accepts(&rows1[i], row2, &c) {
                out.push(c);
                assert(rows_view(out@) =~= before.push(cv));
                assert(rows_view(out@) =~= start + pairs_left(self@, rv, row::cells(*row2), i + 1));
            }
            i = i + 1;
        }
    }

    fn inner(&self, rows1: &Vec<Row>, rows2: &Vec<Row>) -> (r: Vec<Row>)
        ensures
            rows_view(r@) == inner_join(self@, rows_view(rows1@), rows_view(rows2@), rows1@.len() as int),
    {
        let ghost rv1 = rows_view(rows1@);
        let ghost rv2 = rows_view(rows2@);
        let mut out: Vec<Row> = Vec::new();
        let mut i: usize = 0;
        assert(rows_view(out@) =~= Seq::empty());
        while i < rows1.len()
            invariant
                i <= rows1@.len(),
                rv1 == rows_view(rows1@),
                rv2 == rows_view(rows2@),
                rows_view(out@) == inner_join(self@, rv1, rv2, i as int),
            decreases rows1@.len() - i,
        {
            assert(rv1[i as int] == row::cells(rows1@[i as int]));
            self.push_pairs_right(&rows1[i], rows2, &mut out);
            i = i + 1;
        }
        out
    }

    fn left_outer(&self, rows1: &Vec<Row>, rows2: &Vec<Row>, names: &Vec<String>) -> (r: Vec<Row>)
        ensures
            rows_view(r@) == left_join(
                self@,
                rows_view(rows1@),
                rows_view(rows2@),
                names.deep_view(),
                rows1@.len() as int,
            ),
    {
        let ghost rv1 = rows_view(rows1@);
        let ghost rv2 = rows_view(rows2@);
        let ghost nv: Seq<Seq<char>> = names.deep_view();
        let mut out: Vec<Row> = Vec::new();
        let mut i: usize = 0;
        assert(rows_view(out@) =~= Seq::empty());
        while i < rows1.len()
            invariant
                i <= rows1@.len(),
                rv1 == rows_view(rows1@),
                rv2 == rows_view(rows2@),
                nv == names.deep_view(),
                rows_view(out@) == left_join(self@, rv1, rv2, nv, i as int),
            decreases rows1@.len() - i,
        {
            assert(rv1[i as int] == row::cells(rows1@[i as int]));
            let ghost before = rows_view(out@);
            let ghost m = pairs_right(self@, rv1[i as int], rv2, rv2.len() as int);
            let n: usize = out.len();
            self.push_pairs_right(&rows1[i], rows2, &mut out);
            assert(rows_view(out@).len() == before.len() + m.len());
            if out.len() == n {
                assert(rows_view(out@) =~= before);
                let c = null_padded(&rows1[i], self.name, names);
                let ghost cv = row::cells(c);
                out.push(c);
                assert(rows_view(out@) =~= before.push(cv));
            }
            i = i + 1;
        }
        out
    }

    fn lone(&self, names: &Vec<String>, row2: &Row, rows1: &Vec<Row>) -> (r: Row)
        requires
            names.deep_view() == left_names(rows_view(rows1@)),
        ensures
            row::cells(r) == padded_right(self@, rows_view(rows1@), row::cells(*row2)),
    {
        let ghost nv: Seq<Seq<char>> = names.deep_view();
        let mut c = row::row_new();
        let mut i: usize = 0;
        while i < names.len()
            invariant
                i <= names@.len(),
                nv == names.deep_view(),
                nv.len() == names@.len(),
                row::cells(c) == cells_added(Seq::empty(), nulls(nv), i as int),
            decreases names@.len() - i,
        {
            assert(nv[i as int] == names@[i as int]@);
            assert(nulls(nv)[i as int] == (nv[i as int], ValueV::Null));
            row::row_put(&mut c, names[i].clone(), Value::Null);
            i = i + 1;
        }
        insert_row_qualified(&mut c, self.name, row2);
        c
    }

    fn right_outer(&self, rows1: &Vec<Row>, rows2: &Vec<Row>) -> (r: Vec<Row>)
        ensures
            rows_view(r@) == right_join(self@, rows_view(rows1@), rows_view(rows2@), rows2@.len() as int),
    {
        let ghost rv1 = rows_view(rows1@);
        let ghost rv2 = rows_view(rows2@);
        let names = left_columns(rows1);
        let mut out: Vec<Row> = Vec::new();
        let mut i: usize = 0;
        assert(rows_view(out@) =~= Seq::empty());
        while i < rows2.len()
            invariant
                i <= rows2@.len(),
                rv1 == rows_view(rows1@),
                rv2 == rows_view(rows2@),
                names.deep_view() == left_names(rv1),
                rows_view(out@) == right_join(self@, rv1, rv2, i as int),
            decreases rows2@.len() - i,
        {
            assert(rv2[i as int] == row::cells(rows2@[i as int]));
            let ghost before = rows_view(out@);
            let ghost m = pairs_left(self@, rv1, rv2[i as int], rv1.len() as int);
            let n: usize = out.len();
            self.push_pairs_left(rows1, &rows2[i], &mut out);
            assert(rows_view(out@).len() == before.len() + m.len());
            if out.len() == n {
                assert(rows_view(out@) =~= before);
                let c = self.lone(&names, &rows2[i], rows1);
                let ghost cv = row::cells(c);
                out.push(c);
                assert(rows_view(out@) =~= before.push(cv));
            }
            i = i + 1;
        }
        out
    }

    fn has_partner(&self, rows1: &Vec<Row>, row2: &Row) -> (r: bool)
        ensures
            r == (pairs_left(self@, rows_view(rows1@), row::cells(*row2), rows1@.len() as int).len() > 0),
    {
        let ghost rv = rows_view(rows1@);
        let mut i: usize = 0;
        let mut found: bool = false;
        while i < rows1.len()
            invariant
                i <= rows1@.len(),
                rv == rows_view(rows1@),
                found == (pairs_left(self@, rv, row::cells(*row2), i as int).len() > 0),
            decreases rows1@.len() - i,
        {
            assert(rv[i as int] == row::cells(rows1@[i as int]));
            if !found {
                let c = self.combine(&rows1[i], row2);
                found = self.accepts(&rows1[i], row2, &c);
            }
            i = i + 1;
        }
        found
    }

    fn full_outer(&self, rows1: &Vec<Row>, rows2: &Vec<Row>, names: &Vec<String>) -> (r: Vec<Row>)
        ensures
            rows_view(r@) == left_join(
                self@,
                rows_view(rows1@),
                rows_view(rows2@),
                names.deep_view(),
                rows1@.len() as int,
            ) + lone_right(self@, rows_view(rows1@), rows_view(rows2@), rows2@.len() as int),
    {
        let ghost rv1 = rows_view(rows1@);
        let ghost rv2 = rows_view(rows2@);
        let left = left_columns(rows1);
        let mut out = self.left_outer(rows1, rows2, names);
        let ghost start = rows_view(out@);
        let mut i: usize = 0;
        assert(start =~= start + Seq::empty());
        while i < rows2.len()
            invariant
                i <= rows2@.len(),
                rv1 == rows_view(rows1@),
                rv2 == rows_view(rows2@),
                left.deep_view() == left_names(rv1),
                rows_view(out@) == start + lone_right(self@, rv1, rv2, i as int),
            decreases rows2@.len() - i,
        {
            assert(rv2[i as int] == row::cells(rows2@[i as int]));
            if !self.has_partner(rows1, &rows2[i]) {
                let ghost before = rows_view(out@);
                let c = self.lone(&left, &rows2[i], rows1);
                let ghost cv = row::cells(c);
                out.push(c);
                assert(rows_view(out@) =~= before.push(cv));
                assert(rows_view(out@) =~= start + lone_right(self@, rv1, rv2, i + 1));
            }
            i = i + 1;
        }
        out
    }
}

fn left_columns(rows1: &Vec<Row>) -> (r: Vec<String>)
    ensures
        r.deep_view() == left_names(rows_view(rows1@)),
{
    if rows1.len() > 0 {
        assert(rows_view(rows1@)[0] == row::cells(rows1@[0]));
        names_of(&rows1[0])
    } else {
        let out: Vec<String> = Vec::new();
        assert(out.deep_view() =~= Seq::empty());
        out
    }
}

fn read_plain_rows(store: &RowStore) -> (r: Vec<Row>)
    ensures
        rows_view(r@) == plain_rows(store@),
{
    let entries = store.entries();
    let ghost l = store::row_list(store@);
    let mut out: Vec<Row> = Vec::new();
    let mut i: usize = 0;
    assert(store::row_pairs(entries@).len() == entries@.len());
    while i < entries.len()
        invariant
            i <= entries@.len(),
            l == store::row_list(store@),
            store::row_pairs(entries@) == l,
            entries@.len() == l.len(),
            out@.len() == i,
            forall|j: int| 0 <= j < i ==> row::cells(#[trigger] out@[j]) == l[j].1,
        decreases entries@.len() - i,
    {
        assert(store::row_pairs(entries@)[i as int] == (entries@[i as int].0, row::cells(entries@[i as int].1)));
        out.push(row::row_copy(&entries[i].1));
        i = i + 1;
    }
    assert(rows_view(out@) =~= plain_rows(store@));
    out
}

fn execute_join(state: &KvsState, db_id: u32, rows1: Vec<Row>, join: &Join, params: &[Value]) -> (r: Result<
    Vec<Row>,
    SkvsError,
>)
    ensures
        rows_outcome(r) == join_step(state@, db_id, rows_view(rows1@), join@, params.deep_view()),
{
    let table = join.relation.table.as_str();
    let store = match state.get_table_store(db_id, table) {
        Some(store) => store,
        None => {
            return Err(no_table(table));
        },
    };
    let rows2 = read_plain_rows(store);
    let names = padding_columns(state.get_schema(db_id, table), &rows2);
    let name = table_ref_name(table, &join.relation.alias);
    let none = JoinConstraint::Missing;
    match &join.operator {
        JoinOperator::Inner(c) => {
            let j = JoinContext { state, db_id, constraint: c, params, name: name.as_str() };
            Ok(j.inner(&rows1, &rows2))
        },
        JoinOperator::LeftOuter(c) => {
            let j = JoinContext { state, db_id, constraint: c, params, name: name.as_str() };
            Ok(j.left_outer(&rows1, &rows2, &names))
        },
        JoinOperator::RightOuter(c) => {
            let j = JoinContext { state, db_id, constraint: c, params, name: name.as_str() };
            Ok(j.right_outer(&rows1, &rows2))
        },
        JoinOperator::FullOuter(c) => {
            let j = JoinContext { state, db_id, constraint: c, params, name: name.as_str() };
            Ok(j.full_outer(&rows1, &rows2, &names))
        },
        JoinOperator::CrossJoin => {
            let j = JoinContext { state, db_id, constraint: &none, params, name: name.as_str() };
            Ok(j.inner(&rows1, &rows2))
        },
        JoinOperator::Other(d) => Err(SkvsError::Unsupported(text::text2("JOIN type not supported: ", d.as_str()))),
    }
}

/// The rows of a FROM list with joins.
pub fn execute_joins(state: &KvsState, db_id: u32, from: &Vec<TableWithJoins>, params: &[Value]) -> (r: Result<
    Vec<Row>,
    SkvsError,
>)
    ensures
        rows_outcome(r) == joined_rows(state@, db_id, from.deep_view(), params.deep_view()),
{
    if from.len() == 0 {
        let out: Vec<Row> = Vec::new();
        assert(rows_view(out@) =~= Seq::empty());
        return Ok(out);
    }
    let ghost fv = from.deep_view();
    assert(fv[0] == from@[0]@);
    let first = &from[0];
    let table = first.relation.table.as_str();
    let name = table_ref_name(table, &first.relation.alias);
    let store = match state.get_table_store(db_id, table) {
        Some(store) => store,
        None => {
            return Err(no_table(table));
        },
    };
    let rows = read_plain_rows(store);
    let ghost rv = rows_view(rows@);
    let mut cur: Vec<Row> = Vec::new();
    let mut i: usize = 0;
    while i < rows.len()
        invariant
            i <= rows@.len(),
            rv == rows_view(rows@),
            cur@.len() == i,
            forall|j: int|
                0 <= j < i ==> row::cells(#[trigger] cur@[j]) == merged(Seq::empty(), name@, rv[j], rv[j].len() as int),
        decreases rows@.len() - i,
    {
        assert(rv[i as int] == row::cells(rows@[i as int]));
        let mut row = row::row_new();
        insert_row_qualified(&mut row, name.as_str(), &rows[i]);
        cur.push(row);
        i = i + 1;
    }
    let ghost start = first_rows(state::table_rows(state@, db_id, table@)->0, first.relation@);
    assert(rows_view(cur@) =~= start);
    let ghost jv = first.joins.deep_view();
    let ghost sv = state@;
    let ghost pv = params.deep_view();
    assert(joined_rows(sv, db_id, fv, pv) == joined_upto(sv, db_id, start, jv, pv, jv.len() as int));
    let mut start_at: usize = 0;
    let mut k: usize = 0;
    while k < first.joins.len()
        invariant
            k <= first.joins@.len(),
            start_at == join_placeholders(jv, k as int),
            jv == first.joins.deep_view(),
            jv.len() == first.joins@.len(),
            sv == state@,
            pv == params.deep_view(),
            joined_rows(sv, db_id, fv, pv) == joined_upto(sv, db_id, start, jv, pv, jv.len() as int),
            fv == from.deep_view(),
            joined_upto(sv, db_id, start, jv, pv, k as int) == Ok::<Seq<RowV>, ErrorV>(rows_view(cur@)),
        decreases first.joins@.len() - k,
    {
        assert(jv[k as int] == first.joins@[k as int]@);
        let c: usize = count_condition(&first.joins[k].operator);
        match execute_join(state, db_id, cur, &first.joins[k], skip_params(params, start_at)) {
            Ok(next) => {
                cur = next;
            },
            Err(e) => {
                proof {
                    lemma_join_fails(sv, db_id, start, jv, pv, k + 1, jv.len() as int);
                }
                return Err(e);
            },
        }
        start_at = expr::saturating(start_at, c);
        k = k + 1;
    }
    Ok(cur)
}

proof fn lemma_join_fails(s: StateV, db: u32, rows: Seq<RowV>, js: Seq<JoinV>, ps: Seq<ValueV>, m: int, n: int)
    requires
        0 <= m <= n <= js.len(),
        joined_upto(s, db, rows, js, ps, m) is Err,
    ensures
        joined_upto(s, db, rows, js, ps, n) == joined_upto(s, db, rows, js, ps, m),
    decreases n,
{
    if m < n {
        lemma_join_fails(s, db, rows, js, ps, m, n - 1);
    }
}

/// Whether a query reads one table or view, and which.
pub open spec fn single_source(from: Seq<TableWithJoinsV>) -> Option<Seq<char>> {
    if from.len() == 1 && from[0].joins.len() == 0 {
        Some(from[0].relation.table)
    } else {
        None
    }
}

/// The parameters of a query behind those of its projection.
pub open spec fn behind_items(select: SelectV, ps: Seq<ValueV>) -> Seq<ValueV> {
    params_from(ps, item_placeholders(select.projection, select.projection.len() as int))
}

/// The parameters of a query's condition: behind those of its projection and of its joins.
pub open spec fn behind_from(select: SelectV, ps: Seq<ValueV>) -> Seq<ValueV> {
    params_from(behind_items(select, ps), from_placeholders(select.from, select.from.len() as int))
}

/// The rows of a query in order: those that its condition keeps, grouped, sorted, limited,
/// projected, without their internal ids and told apart.
pub open spec fn shaped(s: StateV, db: u32, q: QueryV, select: SelectV, rows: Seq<RowV>, ps: Seq<ValueV>) -> Seq<RowV> {
    let kept = selected(s.fts, db, rows, select.selection, behind_from(select, ps));
    let grouped = grouped_rows(kept, select, ps);
    let ordered = ordered_rows(grouped, q.order_by, 0);
    let limited = limited_rows(ordered, q.limit, q.offset);
    let shown = stripped(
        if is_grouped(select) {
            limited
        } else {
            projected_rows(limited, select.projection, ps)
        },
    );
    if select.distinct {
        distinct_upto(shown, shown.len() as int)
    } else {
        shown
    }
}

/// Whether a projection shows all columns of its rows.
pub open spec fn shows_all(items: Seq<SelectItemV>) -> bool {
    items.len() == 0 || exists|i: int|
        0 <= i < items.len() && (#[trigger] items[i] is Wildcard || items[i] is QualifiedWildcard)
}

/// The name of a column of a projection.
pub open spec fn shown_name(item: SelectItemV) -> Seq<char> {
    match item {
        SelectItemV::Unnamed { expr, text } => item_name(expr, text),
        SelectItemV::Aliased { expr, alias } => alias,
        _ => "*"@,
    }
}

/// The columns of a result: those of a projection without a wildcard as they are written; else
/// those of the first row, or of the table where no row matches.
pub open spec fn result_columns(items: Seq<SelectItemV>, rows: Seq<RowV>, schema: Option<SchemaV>) -> Seq<Seq<char>> {
    if shows_all(items) {
        if rows.len() > 0 {
            cell_names(rows[0])
        } else {
            match schema {
                Some(t) => column_names(t),
                None => seq!["*"@],
            }
        }
    } else {
        Seq::new(items.len(), |i: int| shown_name(items[i]))
    }
}

/// The rows that a query starts from: those of a table, of a view's query, or of a join. A view
/// that reads itself has none; `depth` is the number of views that may still be read.
pub open spec fn from_rows(depth: nat, s: StateV, db: u32, select: SelectV, ps: Seq<ValueV>) -> Result<Seq<RowV>, ErrorV>
    decreases depth, 0nat,
{
    match single_source(select.from) {
        Some(table) => match catalog::find(s.views, db, table) {
            Some(sql) => match parser::statements_in(sql) {
                Err(e) => Err(e),
                Ok(stmts) => if stmts.len() == 0 {
                    Err(not_a_select())
                } else {
                    match stmts[0] {
                        StatementV::Query(q) => if depth == 0 {
                            Err(circular_view())
                        } else {
                            match select_result((depth - 1) as nat, s, db, q, ps) {
                                Ok(r) => Ok(r.rows),
                                Err(e) => Err(e),
                            }
                        },
                        _ => Err(not_a_select()),
                    }
                },
            },
            None => source_rows(s, db, table, select.selection, behind_from(select, ps)),
        },
        None => joined_rows(s, db, select.from, behind_items(select, ps)),
    }
}

pub open spec fn not_a_select() -> ErrorV {
    ErrorV::View("View definition must be a SELECT"@)
}

pub open spec fn circular_view() -> ErrorV {
    ErrorV::View("View definition is circular"@)
}

/// The schema that names a query's columns where no row does.
pub open spec fn wildcard_schema(s: StateV, db: u32, select: SelectV) -> Option<SchemaV> {
    match single_source(select.from) {
        Some(table) => if catalog::find(s.views, db, table) is Some {
            None
        } else {
            state::table_schema(s, db, table)
        },
        None => None,
    }
}

/// What a query gives when at most `depth` views may be read within each other.
pub open spec fn select_result(depth: nat, s: StateV, db: u32, q: QueryV, ps: Seq<ValueV>) -> Result<ResultV, ErrorV>
    decreases depth, 1nat,
{
    match q.body {
        SetExprV::Select(select) => match from_rows(depth, s, db, select, ps) {
            Err(e) => Err(e),
            Ok(rows) => {
                let out = shaped(s, db, q, select, rows, ps);
                Ok(sql::rows_result(out, result_columns(select.projection, out, wildcard_schema(s, db, select))))
            },
        },
        _ => Err(ErrorV::Unsupported("Only simple SELECT statements are supported"@)),
    }
}

/// What a query gives. Views that do not read themselves are nested at most as deep as there
/// are views.
pub open spec fn query_result(s: StateV, db: u32, q: QueryV, ps: Seq<ValueV>) -> Result<ResultV, ErrorV> {
    select_result(s.views.items.len(), s, db, q, ps)
}

fn shape_rows(state: &KvsState, db_id: u32, query: &Query, select: &Select, rows: Vec<Row>, params: &[Value]) -> (r: Vec<
    Row,
>)
    ensures
        rows_view(r@) == shaped(state@, db_id, query@, select@, rows_view(rows@), params.deep_view()),
{
    let behind = skip_params(skip_params(params, count_items(&select.projection)), count_from(&select.from));
    let kept = filter_rows(state, db_id, rows, &select.selection, behind);
    let grouped: bool = reads_as_grouped(select);
    let mut cur = apply_group_by(kept, select, params);
    cur = apply_order_by(cur, &query.order_by);
    cur = apply_limit(cur, &query.limit, &query.offset);
    if !grouped {
        cur = apply_projection(cur, &select.projection, params);
    }
    cur = strip_rowids(cur);
    if select.distinct {
        cur = distinct_rows(cur);
    }
    cur
}

fn is_pure_or_mixed_wildcard(items: &Vec<SelectItem>) -> (r: bool)
    ensures
        r == shows_all(items.deep_view()),
{
    let ghost iv = items.deep_view();
    if items.len() == 0 {
        return true;
    }
    let mut i: usize = 0;
    while i < items.len()
        invariant
            i <= items@.len(),
            iv == items.deep_view(),
            forall|j: int| 0 <= j < i ==> !(#[trigger] iv[j] is Wildcard || iv[j] is QualifiedWildcard),
        decreases items@.len() - i,
    {
        assert(iv[i as int] == items@[i as int]@);
        match &items[i] {
            SelectItem::Wildcard => {
                return true;
            },
            SelectItem::QualifiedWildcard => {
                return true;
            },
            _ => {},
        }
        i = i + 1;
    }
    false
}

fn get_projection_columns(items: &Vec<SelectItem>) -> (r: Vec<String>)
    ensures
        r.deep_view() == Seq::new(items@.len(), |i: int| shown_name(items.deep_view()[i])),
{
    let ghost iv = items.deep_view();
    let mut out: Vec<String> = Vec::new();
    let mut i: usize = 0;
    while i < items.len()
        invariant
            i <= items@.len(),
            iv == items.deep_view(),
            out@.len() == i,
            forall|j: int| 0 <= j < i ==> (#[trigger] out@[j])@ == shown_name(iv[j]),
        decreases items@.len() - i,
    {
        assert(iv[i as int] == items@[i as int]@);
        let name = match &items[i] {
            SelectItem::Unnamed { expr, text } => read_item_name(expr, text),
            SelectItem::Aliased { expr, alias } => alias.clone(),
            _ => "*".to_owned(),
        };
        out.push(name);
        i = i + 1;
    }
    assert(out.deep_view() =~= Seq::new(items@.len(), |i: int| shown_name(iv[i])));
    out
}

fn column_list_of(items: &Vec<SelectItem>, rows: &Vec<Row>, schema: Option<&TableSchema>) -> (r: Vec<String>)
    ensures
        r.deep_view() == result_columns(
            items.deep_view(),
            rows_view(rows@),
            match schema {
                Some(t) => Some(t@),
                None => None,
            },
        ),
{
    if is_pure_or_mixed_wildcard(items) {
        if rows.len() > 0 {
            assert(rows_view(rows@)[0] == row::cells(rows@[0]));
            names_of(&rows[0])
        } else {
            match schema {
                Some(t) => names_of_columns(t),
                None => {
                    let mut out: Vec<String> = Vec::new();
                    out.push("*".to_owned());
                    assert(out.deep_view() =~= seq!["*"@]);
                    out
                },
            }
        }
    } else {
        get_projection_columns(items)
    }
}

fn read_single_source(from: &Vec<TableWithJoins>) -> (r: Option<&String>)
    ensures
        match r {
            Some(t) => single_source(from.deep_view()) == Some(t@),
            None => single_source(from.deep_view()) is None,
        },
{
    if from.len() == 1 {
        assert(from.deep_view()[0] == from@[0]@);
        if from[0].joins.len() == 0 {
            return Some(&from[0].relation.table);
        }
    }
    None
}

fn view_rows(state: &KvsState, db_id: u32, sql: &str, params: &[Value], depth: usize) -> (r: Result<Vec<Row>, SkvsError>)
    ensures
        rows_outcome(r) == (match parser::statements_in(sql@) {
            Err(e) => Err(e),
            Ok(stmts) => if stmts.len() == 0 {
                Err(not_a_select())
            } else {
                match stmts[0] {
                    StatementV::Query(q) => if depth == 0 {
                        Err(circular_view())
                    } else {
                        match select_result((depth - 1) as nat, state@, db_id, q, params.deep_view()) {
                            Ok(r) => Ok(r.rows),
                            Err(e) => Err(e),
                        }
                    },
                    _ => Err(not_a_select()),
                }
            },
        }),
    decreases depth, 0nat,
{
    match parser::parse_statements(sql) {
        Err(e) => Err(e),
        Ok(stmts) => {
            let ghost sv = stmts.deep_view();
            if stmts.len() == 0 {
                return Err(SkvsError::View("View definition must be a SELECT".to_owned()));
            }
            assert(sv[0] == stmts@[0]@);
            match &stmts[0] {
                Statement::Query(q) => {
                    if depth == 0 {
                        return Err(SkvsError::View("View definition is circular".to_owned()));
                    }
                    match select_within(state, db_id, q, params, depth - 1) {
                        Ok(r) => Ok(r.rows),
                        Err(e) => Err(e),
                    }
                },
                _ => Err(SkvsError::View("View definition must be a SELECT".to_owned())),
            }
        },
    }
}

fn select_within(state: &KvsState, db_id: u32, query: &Query, params: &[Value], depth: usize) -> (r: Result<
    QueryResult,
    SkvsError,
>)
    ensures
        error::outcome(r) == select_result(depth as nat, state@, db_id, query@, params.deep_view()),
    decreases depth, 1nat,
{
    let select = match &query.body {
        SetExpr::Select(select) => select,
        _ => {
            return Err(SkvsError::Unsupported("Only simple SELECT statements are supported".to_owned()));
        },
    };
    let mut schema: Option<&TableSchema> = None;
    let after_items = skip_params(params, count_items(&select.projection));
    let after_from = skip_params(after_items, count_from(&select.from));
    let rows = match read_single_source(&select.from) {
        Some(table) => match state.get_view_definition(db_id, table.as_str()) {
            Some(sql) => view_rows(state, db_id, sql.as_str(), params, depth),
            None => {
                schema = state.get_schema(db_id, table.as_str());
                rows_for_simple_where(state, db_id, table.as_str(), &select.selection, after_from)
            },
        },
        None => execute_joins(state, db_id, &select.from, after_items),
    };
    assert(rows_outcome(rows) == from_rows(depth as nat, state@, db_id, select@, params.deep_view()));
    match rows {
        Err(e) => Err(e),
        Ok(rows) => {
            let out = shape_rows(state, db_id, query, select, rows, params);
            let columns = column_list_of(&select.projection, &out, schema);
            Ok(QueryResult::rows(out, columns))
        },
    }
}

/// Runs a query.
pub fn execute_select(state: &KvsState, db_id: u32, query: &Query, params: &[Value], tx_id: Option<u32>) -> (r: Result<
    QueryResult,
    SkvsError,
>)
    ensures
        error::outcome(r) == query_result(state@, db_id, query@, params.deep_view()),
{
    select_within(state, db_id, query, params, state.views.len())
}

} // verus!

//! What stands in the rows that INSERT and UPDATE write, column by column.
use vstd::prelude::*;

use crate::assoc;
use crate::ast::{AssignmentV, ExprV, QueryV, Select, SetExprV, StatementV};
use crate::effects;
use crate::error::ErrorV;
use crate::expr;
use crate::parameters;
use crate::row::RowV;
use crate::schema::{ColumnV, DataType, SchemaV, ValueV};
use crate::sparing;
use crate::sql;
use crate::sql::ResultV;
use crate::sql::dml;
use crate::sql::select;
use crate::state;
use crate::state::StateV;

verus! {

/// Whether no name stands twice in a list.
pub open spec fn each_differs(names: Seq<Seq<char>>) -> bool {
    forall|i: int, j: int| 0 <= i < j < names.len() ==> #[trigger] names[i] != #[trigger] names[j]
}

proof fn lemma_value_cells(names: Seq<Seq<char>>, exprs: Seq<ExprV>, ps: Seq<ValueV>, start: int, n: int, k: int)
    requires
        0 <= n <= names.len(),
        0 <= k < n,
        k < exprs.len(),
        each_differs(names),
    ensures
        assoc::assoc_get(dml::values_row(names, exprs, ps, start, n).0, names[k]) == Some(
            expr::eval_v(exprs[k], None, ps, dml::values_row(names, exprs, ps, start, k).1).0,
        ),
    decreases n,
{
    let (row, i) = dml::values_row(names, exprs, ps, start, n - 1);
    if k == n - 1 {
        assoc::lemma_get_put(row, names[k], expr::eval_v(exprs[k], None, ps, i).0);
    } else {
        lemma_value_cells(names, exprs, ps, start, n - 1, k);
        if n - 1 < exprs.len() {
            assert(names[n - 1] != names[k]);
            assoc::lemma_get_put_other(row, names[n - 1], expr::eval_v(exprs[n - 1], None, ps, i).0, names[k]);
        }
    }
}

proof fn lemma_no_value(names: Seq<Seq<char>>, exprs: Seq<ExprV>, ps: Seq<ValueV>, start: int, n: int, c: Seq<char>)
    requires
        0 <= n <= names.len(),
        forall|k: int| 0 <= k < names.len() && k < exprs.len() ==> #[trigger] names[k] != c,
    ensures
        assoc::assoc_get(dml::values_row(names, exprs, ps, start, n).0, c) is None,
    decreases n,
{
    if n > 0 {
        let (row, i) = dml::values_row(names, exprs, ps, start, n - 1);
        lemma_no_value(names, exprs, ps, start, n - 1, c);
        if n - 1 < exprs.len() {
            assert(names[n - 1] != c);
            assoc::lemma_get_put_other(row, names[n - 1], expr::eval_v(exprs[n - 1], None, ps, i).0, c);
        }
    }
}

proof fn lemma_default_cells(columns: Seq<(Seq<char>, ColumnV)>, row: RowV, id: u64, n: int, c: Seq<char>)
    requires
        0 <= n <= columns.len(),
    ensures
        ({
            let out = dml::with_defaults(columns, row, id, n);
            match assoc::assoc_get(row, c) {
                Some(v) => assoc::assoc_get(out, c) == Some(v),
                None => match assoc::assoc_get(columns.take(n), c) {
                    Some(col) => assoc::assoc_get(out, c) == Some(dml::default_value(col, id)),
                    None => assoc::assoc_get(out, c) is None,
                },
            }
        }),
    decreases n,
{
    if n == 0 {
        assoc::lemma_get_absent(columns.take(n), c);
    } else {
        lemma_default_cells(columns, row, id, n - 1, c);
        let p = dml::with_defaults(columns, row, id, n - 1);
        let (name, col) = columns[n - 1];
        let v = dml::default_value(col, id);
        let all = columns.take(n);
        let earlier = columns.take(n - 1);
        if exists|i: int| 0 <= i < n - 1 && (#[trigger] columns[i]).0 == c {
            let i = lemma_first_named(columns, c, n - 1);
            assert(all[i] == columns[i] && earlier[i] == columns[i]);
            assert forall|j: int| 0 <= j < i implies (#[trigger] all[j]).0 != c by {
                assert(columns[j].0 != c);
            }
            assert forall|j: int| 0 <= j < i implies (#[trigger] earlier[j]).0 != c by {
                assert(columns[j].0 != c);
            }
            assoc::lemma_get_at(all, c, i);
            assoc::lemma_get_at(earlier, c, i);
        } else {
            assert forall|j: int| 0 <= j < n - 1 implies (#[trigger] earlier[j]).0 != c by {
                assert(columns[j].0 != c);
            }
            assoc::lemma_get_absent(earlier, c);
            if name == c {
                assert forall|j: int| 0 <= j < n - 1 implies (#[trigger] all[j]).0 != c by {
                    assert(columns[j].0 != c);
                }
                assert(all[n - 1] == columns[n - 1]);
                assoc::lemma_get_at(all, c, n - 1);
            } else {
                assert forall|j: int| 0 <= j < n implies (#[trigger] all[j]).0 != c by {
                    assert(columns[j].0 != c);
                }
                assoc::lemma_get_absent(all, c);
            }
        }
        if assoc::assoc_get(p, name) is None {
            if name == c {
                assoc::lemma_get_put(p, name, v);
            } else {
                assoc::lemma_get_put_other(p, name, v, c);
            }
        }
    }
}

proof fn lemma_first_named(columns: Seq<(Seq<char>, ColumnV)>, c: Seq<char>, n: int) -> (i: int)
    requires
        0 <= n <= columns.len(),
        exists|i: int| 0 <= i < n && (#[trigger] columns[i]).0 == c,
    ensures
        0 <= i < n,
        columns[i].0 == c,
        forall|j: int| 0 <= j < i ==> (#[trigger] columns[j]).0 != c,
    decreases n,
{
    if exists|i: int| 0 <= i < n - 1 && (#[trigger] columns[i]).0 == c {
        lemma_first_named(columns, c, n - 1)
    } else {
        let i = choose|i: int| 0 <= i < n && (#[trigger] columns[i]).0 == c;
        assert forall|j: int| 0 <= j < i implies (#[trigger] columns[j]).0 != c by {}
        i
    }
}

/// What a column that an INSERT leaves out gets: the id of the row where it is an integer key,
/// else its default, and null where it has none.
pub open spec fn left_out(col: ColumnV, id: u64) -> ValueV {
    if col.primary_key && col.data_type == DataType::Integer {
        ValueV::Integer(id as i64)
    } else if col.default is Some {
        col.default->0
    } else {
        ValueV::Null
    }
}

/// A new row keeps what it was given, gets in each other column of its table what that column has
/// where it is left out, and has nothing else.
pub proof fn lemma_defaults(columns: Seq<(Seq<char>, ColumnV)>, row: RowV, id: u64, c: Seq<char>)
    ensures
        ({
            let out = dml::with_defaults(columns, row, id, columns.len() as int);
            match (assoc::assoc_get(row, c), assoc::assoc_get(columns, c)) {
                (Some(v), _) => assoc::assoc_get(out, c) == Some(v),
                (None, Some(col)) => assoc::assoc_get(out, c) == Some(left_out(col, id)),
                (None, None) => assoc::assoc_get(out, c) is None,
            }
        }),
{
    lemma_default_cells(columns, row, id, columns.len() as int, c);
    assert(columns.take(columns.len() as int) =~= columns);
}

proof fn lemma_new_rows(m: Map<u64, RowV>, d: SchemaV, rows: Seq<RowV>, first: int, n: int, id: u64)
    requires
        0 <= first,
        0 <= n <= rows.len(),
        first + n <= u64::MAX,
    ensures
        ({
            let w = effects::with_new_rows(m, d, rows, first, n);
            if first <= id < first + n {
                w.contains_key(id) && w[id] == dml::with_defaults(d.columns, rows[id - first], id, d.columns.len() as int)
            } else {
                w.contains_key(id) == m.contains_key(id) && (m.contains_key(id) ==> w[id] == m[id])
            }
        }),
    decreases n,
{
    if n > 0 {
        lemma_new_rows(m, d, rows, first, n - 1, id);
    }
}

/// The rows of a table after an INSERT of lists of values that succeeds: each list is a row under
/// the next id, with its values in the columns that are named, each at its place, and what they
/// have where they are left out in the others. All other rows are as they were.
pub proof fn lemma_inserted_cells(
    depth: nat,
    s: StateV,
    db: u32,
    table: Seq<char>,
    columns: Seq<Seq<char>>,
    q: QueryV,
    vs: Seq<Seq<ExprV>>,
    ps: Seq<ValueV>,
    tx: Option<u32>,
    d: SchemaV,
    m: Map<u64, RowV>,
    i: int,
    c: Seq<char>,
    id: u64,
)
    requires
        sparing::spared(s, db, table),
        state::table_schema(s, db, table) == Some(d),
        state::table_rows(s, db, table) == Some(m),
        q.body == SetExprV::Values(vs),
        0 <= i < vs.len(),
        each_differs(columns),
        columns.len() > 0,
    ensures
        ({
            let (t, r) = sql::ran(depth, s, db, StatementV::Insert { table, columns, source: Some(q) }, ps, tx);
            let first = state::next_rowid(s, db, table);
            r is Ok ==> match state::table_rows(t, db, table) {
                Some(w) => {
                    let new = w[(first + i) as u64];
                    &&& first + vs.len() <= u64::MAX
                    &&& w.contains_key((first + i) as u64)
                    &&& forall|k: int|
                        0 <= k < columns.len() && k < vs[i].len() ==> assoc::assoc_get(new, #[trigger] columns[k]) == Some(
                            expr::eval_v(vs[i][k], None, ps, value_start(columns, vs, ps, i, k)).0,
                        )
                    &&& (forall|k: int| 0 <= k < columns.len() && k < vs[i].len() ==> #[trigger] columns[k] != c)
                        ==> assoc::assoc_get(new, c) == (match assoc::assoc_get(d.columns, c) {
                        Some(col) => Some(left_out(col, (first + i) as u64)),
                        None => None,
                    })
                    &&& !(first <= id < first + vs.len()) ==> w.contains_key(id) == m.contains_key(id) && (m.contains_key(id)
                        ==> w[id] == m[id])
                },
                None => false,
            }
        }),
{
    let rows = Seq::new(vs.len(), |i: int| dml::values_row(columns, vs[i], ps, dml::values_start(vs, i), columns.len() as int).0);
    assert(dml::candidate_rows(s, db, columns, Some(q), ps) == Ok::<Seq<RowV>, ErrorV>(rows));
    effects::lemma_insert_adds(depth, s, db, table, columns, Some(q), ps, tx, d, m, rows);
    let (t, r) = sql::ran(depth, s, db, StatementV::Insert { table, columns, source: Some(q) }, ps, tx);
    let first = state::next_rowid(s, db, table);
    if r is Ok {
        let x = (first + i) as u64;
        lemma_new_rows(m, d, rows, first as int, rows.len() as int, x);
        lemma_new_rows(m, d, rows, first as int, rows.len() as int, id);
        let w = effects::with_new_rows(m, d, rows, first as int, rows.len() as int);
        let n = columns.len() as int;
        let start = dml::values_start(vs, i);
        assert forall|k: int| 0 <= k < columns.len() && k < vs[i].len() implies assoc::assoc_get(w[x], #[trigger] columns[k]) == Some(
            expr::eval_v(vs[i][k], None, ps, value_start(columns, vs, ps, i, k)).0,
        ) by {
            lemma_value_cells(columns, vs[i], ps, start, n, k);
            lemma_defaults(d.columns, rows[i], x, columns[k]);
        }
        if forall|k: int| 0 <= k < columns.len() && k < vs[i].len() ==> #[trigger] columns[k] != c {
            lemma_no_value(columns, vs[i], ps, start, n, c);
            lemma_defaults(d.columns, rows[i], x, c);
        }
    }
}

/// At which parameter a value of a list begins to read: behind the lists before its own, and behind
/// the values before it.
pub open spec fn value_start(columns: Seq<Seq<char>>, vs: Seq<Seq<ExprV>>, ps: Seq<ValueV>, i: int, k: int) -> int {
    dml::values_row(columns, vs[i], ps, dml::values_start(vs, i), k).1
}

/// A value of a list of an INSERT reads the parameters behind those of all values before it.
pub proof fn lemma_value_start(columns: Seq<Seq<char>>, vs: Seq<Seq<ExprV>>, ps: Seq<ValueV>, i: int, k: int)
    requires
        0 <= i < vs.len(),
        vs[i].len() <= columns.len(),
        0 <= k <= vs[i].len(),
    ensures
        value_start(columns, vs, ps, 0, 0) == 0,
        k < vs[i].len() ==> value_start(columns, vs, ps, i, k + 1) == expr::count_sum(
            value_start(columns, vs, ps, i, k),
            expr::placeholders(vs[i][k]),
        ),
        i + 1 < vs.len() ==> value_start(columns, vs, ps, i + 1, 0) == value_start(columns, vs, ps, i, vs[i].len() as int),
{
    parameters::lemma_values_read_in_turn(columns, vs, ps, i, k);
    if k < vs[i].len() {
        expr::lemma_list_placeholders(vs[i], k);
        expr::lemma_eval_counts(vs[i][k], None, ps, value_start(columns, vs, ps, i, k));
    }
}

/// Without names of columns an INSERT names all columns of the table, in their order.
pub proof fn lemma_all_columns(d: SchemaV)
    ensures
        dml::insert_columns(d, Seq::empty()).len() == d.columns.len(),
        forall|k: int| 0 <= k < d.columns.len() ==> #[trigger] dml::insert_columns(d, Seq::empty())[k] == d.columns[k].0,
{
}

proof fn lemma_filled_cells(names: Seq<Seq<char>>, source: RowV, n: int, k: int)
    requires
        0 <= k < n,
        n <= names.len(),
        n <= source.len(),
        each_differs(names),
    ensures
        assoc::assoc_get(dml::filled_row(names, source, n), names[k]) == Some(source[k].1),
    decreases n,
{
    let p = dml::filled_row(names, source, n - 1);
    if k == n - 1 {
        assoc::lemma_get_put(p, names[k], source[k].1);
    } else {
        lemma_filled_cells(names, source, n - 1, k);
        assert(names[n - 1] != names[k]);
        assoc::lemma_get_put_other(p, names[n - 1], source[n - 1].1, names[k]);
    }
}

/// INSERT of a query gives one row for each row of its answer, with the cells of that row, by
/// their places, in the columns that are named.
pub proof fn lemma_inserted_query(
    s: StateV,
    db: u32,
    names: Seq<Seq<char>>,
    q: QueryV,
    ps: Seq<ValueV>,
    answer: ResultV,
    i: int,
    k: int,
)
    requires
        q.body is Select,
        select::query_result(s, db, q, ps) == Ok::<ResultV, ErrorV>(answer),
        0 <= i < answer.rows.len(),
        0 <= k < names.len(),
        k < answer.rows[i].len(),
        each_differs(names),
    ensures
        match dml::candidate_rows(s, db, names, Some(q), ps) {
            Ok(rows) => {
                &&& rows.len() == answer.rows.len()
                &&& assoc::assoc_get(rows[i], names[k]) == Some(answer.rows[i][k].1)
            },
            Err(_) => false,
        },
{
    lemma_filled_cells(names, answer.rows[i], dml::lesser(names.len(), answer.rows[i].len()), k);
}

/// Whether no column is assigned to twice.
pub open spec fn sets_differ(assignments: Seq<AssignmentV>) -> bool {
    forall|i: int, j: int| 0 <= i < j < assignments.len() ==> (#[trigger] assignments[i]).column != (#[trigger] assignments[j]).column
}

proof fn lemma_set_cells(assignments: Seq<AssignmentV>, row: RowV, ps: Seq<ValueV>, n: int, k: int)
    requires
        0 <= k < n <= assignments.len(),
        sets_differ(assignments),
    ensures
        assoc::assoc_get(dml::assigned(assignments, row, ps, n).0, assignments[k].column) == Some(
            expr::eval_v(assignments[k].value, Some(row), ps, dml::set_placeholders(assignments, k)).0,
        ),
    decreases n,
{
    let (p, i) = dml::assigned(assignments, row, ps, n - 1);
    parameters::lemma_set_reads_its_own(assignments, row, ps, n - 1);
    let v = expr::eval_v(assignments[n - 1].value, Some(row), ps, i).0;
    if k == n - 1 {
        assoc::lemma_get_put(p, assignments[k].column, v);
    } else {
        lemma_set_cells(assignments, row, ps, n - 1, k);
        assert(assignments[n - 1].column != assignments[k].column);
        assoc::lemma_get_put_other(p, assignments[n - 1].column, v, assignments[k].column);
    }
}

proof fn lemma_unset_cells(assignments: Seq<AssignmentV>, row: RowV, ps: Seq<ValueV>, n: int, c: Seq<char>)
    requires
        0 <= n <= assignments.len(),
        forall|k: int| 0 <= k < assignments.len() ==> (#[trigger] assignments[k]).column != c,
    ensures
        assoc::assoc_get(dml::assigned(assignments, row, ps, n).0, c) == assoc::assoc_get(row, c),
    decreases n,
{
    if n > 0 {
        let (p, i) = dml::assigned(assignments, row, ps, n - 1);
        lemma_unset_cells(assignments, row, ps, n - 1, c);
        let v = expr::eval_v(assignments[n - 1].value, Some(row), ps, i).0;
        assert(assignments[n - 1].column != c);
        assoc::lemma_get_put_other(p, assignments[n - 1].column, v, c);
    }
}

/// An UPDATE gives each column that it assigns to the value of its expression over the row as it
/// was, and leaves the others.
pub proof fn lemma_assigned_cells(assignments: Seq<AssignmentV>, row: RowV, ps: Seq<ValueV>, c: Seq<char>)
    requires
        sets_differ(assignments),
    ensures
        ({
            let new = dml::assigned(assignments, row, ps, assignments.len() as int).0;
            &&& forall|k: int|
                0 <= k < assignments.len() ==> assoc::assoc_get(new, (#[trigger] assignments[k]).column) == Some(
                    expr::eval_v(assignments[k].value, Some(row), ps, dml::set_placeholders(assignments, k)).0,
                )
            &&& (forall|k: int| 0 <= k < assignments.len() ==> (#[trigger] assignments[k]).column != c) ==> assoc::assoc_get(new, c)
                == assoc::assoc_get(row, c)
        }),
{
    let n = assignments.len() as int;
    assert forall|k: int| 0 <= k < assignments.len() implies assoc::assoc_get(
        dml::assigned(assignments, row, ps, n).0,
        (#[trigger] assignments[k]).column,
    ) == Some(expr::eval_v(assignments[k].value, Some(row), ps, dml::set_placeholders(assignments, k)).0) by {
        lemma_set_cells(assignments, row, ps, n, k);
    }
    if forall|k: int| 0 <= k < assignments.len() ==> (#[trigger] assignments[k]).column != c {
        lemma_unset_cells(assignments, row, ps, n, c);
    }
}

/// An INSERT without values puts in one row, in which each column has what it has where it is left
/// out.
pub proof fn lemma_inserted_defaults(
    depth: nat,
    s: StateV,
    db: u32,
    table: Seq<char>,
    columns: Seq<Seq<char>>,
    ps: Seq<ValueV>,
    tx: Option<u32>,
    d: SchemaV,
    m: Map<u64, RowV>,
    c: Seq<char>,
)
    requires
        sparing::spared(s, db, table),
        state::table_schema(s, db, table) == Some(d),
        state::table_rows(s, db, table) == Some(m),
    ensures
        ({
            let (t, r) = sql::ran(depth, s, db, StatementV::Insert { table, columns, source: None }, ps, tx);
            let first = state::next_rowid(s, db, table);
            r is Ok ==> match state::table_rows(t, db, table) {
                Some(w) => {
                    &&& w.contains_key(first)
                    &&& assoc::assoc_get(w[first], c) == (match assoc::assoc_get(d.columns, c) {
                        Some(col) => Some(left_out(col, first)),
                        None => None,
                    })
                    &&& w.remove(first) == m.remove(first)
                },
                None => false,
            }
        }),
{
    let none: RowV = Seq::empty();
    let rows = seq![none];
    let names = dml::insert_columns(d, columns);
    assert(dml::candidate_rows(s, db, names, None, ps) == Ok::<Seq<RowV>, ErrorV>(rows));
    effects::lemma_insert_adds(depth, s, db, table, columns, None, ps, tx, d, m, rows);
    let first = state::next_rowid(s, db, table);
    if sql::ran(depth, s, db, StatementV::Insert { table, columns, source: None }, ps, tx).1 is Ok {
        lemma_new_rows(m, d, rows, first as int, 1, first);
        lemma_defaults(d.columns, none, first, c);
        assoc::lemma_get_absent(none, c);
        let w = effects::with_new_rows(m, d, rows, first as int, 1);
        assert(effects::with_new_rows(m, d, rows, first as int, 0) == m);
        assert(w.remove(first) =~= m.remove(first));
    }
}

} // verus!

//! What the aggregate functions say of the rows of a group: how many there are, and the largest
//! and smallest value of a column.
use vstd::prelude::*;

use crate::answers;
use crate::assoc;
use crate::ast::{BinaryOp, ExprV, FunctionArgV};
use crate::expr;
use crate::operators;
use crate::row::RowV;
use crate::schema;
use crate::schema::ValueV;
use crate::sql::select;
use crate::text;

verus! {

/// A call of a function on a column.
pub open spec fn on_column(name: Seq<char>, distinct: bool, c: Seq<char>) -> ExprV {
    ExprV::Function { name, distinct, args: seq![FunctionArgV::Unnamed(ExprV::Identifier(c))] }
}

/// Whether a row has a value in a column that is not null.
pub open spec fn has_value(row: RowV, c: Seq<char>) -> bool {
    match assoc::assoc_get(row, c) {
        Some(v) => v != ValueV::Null,
        None => false,
    }
}

/// Whether a value stands in a column of one of some rows.
pub open spec fn stands_in(rows: Seq<RowV>, c: Seq<char>, v: ValueV) -> bool {
    exists|i: int| 0 <= i < rows.len() && assoc::assoc_get(#[trigger] rows[i], c) == Some(v)
}

/// COUNT of no column counts the rows.
pub proof fn lemma_count_rows(name: Seq<char>, distinct: bool, args: Seq<FunctionArgV>, rows: Seq<RowV>, ps: Seq<ValueV>, i: int)
    requires
        text::lowercase(name) == "count"@,
        args.len() == 0 || args[0] == FunctionArgV::Wildcard,
        rows.len() <= i64::MAX,
    ensures
        select::aggregate_value(ExprV::Function { name, distinct, args }, rows, ps, i) == ValueV::Integer(rows.len() as i64),
{
}

proof fn lemma_present_before(vals: Seq<ValueV>, x: ValueV, distinct: bool, n: int)
    requires
        0 <= n <= vals.len(),
    ensures
        select::present_count(vals.push(x), distinct, n) == select::present_count(vals, distinct, n),
    decreases n,
{
    if n > 0 {
        lemma_present_before(vals, x, distinct, n - 1);
        let w = vals.push(x);
        if select::seen_before(vals, n - 1) {
            let j = choose|j: int| 0 <= j < n - 1 && select::identity(#[trigger] vals[j]) == select::identity(vals[n - 1]);
            assert(w[j] == vals[j]);
            assert(select::seen_before(w, n - 1));
        }
        if select::seen_before(w, n - 1) {
            let j = choose|j: int| 0 <= j < n - 1 && select::identity(#[trigger] w[j]) == select::identity(w[n - 1]);
            assert(w[j] == vals[j]);
            assert(select::seen_before(vals, n - 1));
        }
    }
}

proof fn lemma_values_counted(rows: Seq<RowV>, c: Seq<char>, n: int)
    requires
        0 <= n <= rows.len(),
    ensures
        ({
            let vals = select::column_values(rows, c, n);
            select::present_count(vals, false, vals.len() as int) == rows.take(n).filter(|r: RowV| has_value(r, c)).len()
        }),
    decreases n,
{
    reveal(Seq::filter);
    if n > 0 {
        lemma_values_counted(rows, c, n - 1);
        assert(rows.take(n).drop_last() =~= rows.take(n - 1));
        assert(rows.take(n).last() == rows[n - 1]);
        let vals = select::column_values(rows, c, n - 1);
        match assoc::assoc_get(rows[n - 1], c) {
            Some(v) => {
                lemma_present_before(vals, v, false, vals.len() as int);
                assert(vals.push(v)[vals.len() as int] == v);
            },
            None => {},
        }
    }
}

/// COUNT of a column counts the rows that have a value in it that is not null.
pub proof fn lemma_count_values(name: Seq<char>, c: Seq<char>, rows: Seq<RowV>, ps: Seq<ValueV>, i: int)
    requires
        text::lowercase(name) == "count"@,
    ensures
        select::aggregate_value(on_column(name, false, c), rows, ps, i) == ValueV::Integer(
            rows.filter(|r: RowV| has_value(r, c)).len() as i64,
        ),
{
    let n = rows.len() as int;
    lemma_values_counted(rows, c, n);
    assert(rows.take(n) =~= rows);
}

proof fn lemma_column_holds(rows: Seq<RowV>, c: Seq<char>, n: int, v: ValueV)
    requires
        0 <= n <= rows.len(),
    ensures
        select::column_values(rows, c, n).contains(v) == stands_in(rows.take(n), c, v),
    decreases n,
{
    let all = rows.take(n);
    if n > 0 {
        lemma_column_holds(rows, c, n - 1, v);
        let earlier = rows.take(n - 1);
        let p = select::column_values(rows, c, n - 1);
        let q = select::column_values(rows, c, n);
        if stands_in(rows.take(n - 1), c, v) {
            let i = choose|i: int| 0 <= i < earlier.len() && assoc::assoc_get(#[trigger] earlier[i], c) == Some(v);
            assert(all[i] == earlier[i]);
            let k = choose|k: int| 0 <= k < p.len() && p[k] == v;
            assert(q[k] == v);
        }
        assert(all[n - 1] == rows[n - 1]);
        if assoc::assoc_get(rows[n - 1], c) == Some(v) {
            assert(q[p.len() as int] == v);
        }
        if stands_in(all, c, v) && !stands_in(rows.take(n - 1), c, v) {
            let i = choose|i: int| 0 <= i < n && assoc::assoc_get(#[trigger] all[i], c) == Some(v);
            if i < n - 1 {
                assert(earlier[i] == all[i]);
            }
        }
        if q.contains(v) && !p.contains(v) {
            let k = choose|k: int| 0 <= k < q.len() && q[k] == v;
            if k < p.len() {
                assert(p[k] == v);
            }
        }
    }
}

/// Whether a list holds a value that cannot be told apart from another.
pub open spec fn holds_like(ds: Seq<ValueV>, v: ValueV) -> bool {
    exists|j: int| 0 <= j < ds.len() && answers::same_cell(#[trigger] ds[j], v)
}

proof fn lemma_tellable(vals: Seq<ValueV>, n: int) -> (ds: Seq<ValueV>)
    requires
        0 <= n <= vals.len(),
    ensures
        ds.len() == select::present_count(vals, true, n),
        forall|i: int, j: int| 0 <= i < j < ds.len() ==> !answers::same_cell(#[trigger] ds[i], #[trigger] ds[j]),
        forall|j: int| 0 <= j < ds.len() ==> #[trigger] ds[j] != ValueV::Null && vals.take(n).contains(ds[j]),
        forall|i: int| 0 <= i < n && vals[i] != ValueV::Null ==> holds_like(ds, #[trigger] vals[i]),
    decreases n,
{
    if n == 0 {
        Seq::empty()
    } else {
        let p = lemma_tellable(vals, n - 1);
        let v = vals[n - 1];
        let earlier = vals.take(n - 1);
        assert forall|j: int| 0 <= j < p.len() implies #[trigger] p[j] != ValueV::Null && vals.take(n).contains(p[j]) by {
            assert(earlier.contains(p[j]));
            let k = choose|k: int| 0 <= k < earlier.len() && earlier[k] == p[j];
            assert(vals.take(n)[k] == p[j]);
        }
        if v == ValueV::Null {
            p
        } else if select::seen_before(vals, n - 1) {
            let j = choose|j: int| 0 <= j < n - 1 && select::identity(#[trigger] vals[j]) == select::identity(v);
            answers::lemma_same_cell(vals[j], v);
            assert(vals[j] != ValueV::Null);
            assert(holds_like(p, vals[j]));
            let k = choose|k: int| 0 <= k < p.len() && answers::same_cell(#[trigger] p[k], vals[j]);
            assert(answers::same_cell(p[k], v));
            p
        } else {
            let ds = p.push(v);
            assert(vals.take(n)[n - 1] == v);
            assert forall|i: int, j: int| 0 <= i < j < ds.len() implies !answers::same_cell(#[trigger] ds[i], #[trigger] ds[j]) by {
                if j == p.len() {
                    assert(earlier.contains(p[i]));
                    let k = choose|k: int| 0 <= k < earlier.len() && earlier[k] == p[i];
                    answers::lemma_same_cell(vals[k], v);
                    assert(vals[k] == p[i]);
                }
            }
            assert forall|i: int| 0 <= i < n && vals[i] != ValueV::Null implies holds_like(ds, #[trigger] vals[i]) by {
                if i < n - 1 {
                    let k = choose|k: int| 0 <= k < p.len() && answers::same_cell(#[trigger] p[k], vals[i]);
                    assert(ds[k] == p[k]);
                } else {
                    assert(answers::same_cell(ds[p.len() as int], v));
                }
            }
            ds
        }
    }
}

/// COUNT DISTINCT of a column counts the values that stand in it and are not null, those that
/// cannot be told apart once.
pub proof fn lemma_count_distinct(name: Seq<char>, c: Seq<char>, rows: Seq<RowV>, ps: Seq<ValueV>, i: int) -> (ds: Seq<ValueV>)
    requires
        text::lowercase(name) == "count"@,
    ensures
        select::aggregate_value(on_column(name, true, c), rows, ps, i) == ValueV::Integer(ds.len() as i64),
        forall|i: int, j: int| 0 <= i < j < ds.len() ==> !answers::same_cell(#[trigger] ds[i], #[trigger] ds[j]),
        forall|j: int| 0 <= j < ds.len() ==> #[trigger] ds[j] != ValueV::Null && stands_in(rows, c, ds[j]),
        forall|v: ValueV| v != ValueV::Null && #[trigger] stands_in(rows, c, v) ==> holds_like(ds, v),
{
    let n = rows.len() as int;
    let vals = select::column_values(rows, c, n);
    let ds = lemma_tellable(vals, vals.len() as int);
    assert(vals.take(vals.len() as int) =~= vals);
    assert(rows.take(n) =~= rows);
    assert forall|j: int| 0 <= j < ds.len() implies #[trigger] ds[j] != ValueV::Null && stands_in(rows, c, ds[j]) by {
        lemma_column_holds(rows, c, n, ds[j]);
    }
    assert forall|v: ValueV| v != ValueV::Null && #[trigger] stands_in(rows, c, v) implies holds_like(ds, v) by {
        lemma_column_holds(rows, c, n, v);
        let k = choose|k: int| 0 <= k < vals.len() && vals[k] == v;
        assert(holds_like(ds, vals[k]));
    }
    ds
}

proof fn lemma_largest(vals: Seq<ValueV>, n: int, k: int)
    requires
        0 <= k < n <= vals.len(),
    ensures
        vals.contains(select::largest(vals, n)),
        schema::value_order(vals[k], select::largest(vals, n)) <= 0,
    decreases n,
{
    let top = select::largest(vals, n);
    schema::lemma_order_reflexive(vals[n - 1]);
    assert(vals.contains(vals[n - 1]));
    if n > 1 {
        let before = select::largest(vals, n - 1);
        if k < n - 1 {
            lemma_largest(vals, n - 1, k);
        } else {
            lemma_largest(vals, n - 1, 0);
        }
        schema::lemma_order_reverse(vals[n - 1], before);
        schema::lemma_order_reflexive(before);
        if k < n - 1 {
            schema::lemma_order_transitive(vals[k], before, top);
        }
    }
}

proof fn lemma_smallest(vals: Seq<ValueV>, n: int, k: int)
    requires
        0 <= k < n <= vals.len(),
    ensures
        vals.contains(select::smallest(vals, n)),
        schema::value_order(select::smallest(vals, n), vals[k]) <= 0,
    decreases n,
{
    let least = select::smallest(vals, n);
    schema::lemma_order_reflexive(vals[n - 1]);
    assert(vals.contains(vals[n - 1]));
    if n > 1 {
        let before = select::smallest(vals, n - 1);
        if k < n - 1 {
            lemma_smallest(vals, n - 1, k);
        } else {
            lemma_smallest(vals, n - 1, 0);
        }
        schema::lemma_order_reverse(vals[n - 1], before);
        schema::lemma_order_reflexive(before);
        if k < n - 1 {
            schema::lemma_order_transitive(least, before, vals[k]);
        }
    }
}

/// MAX of a column is a value that stands in it and than which none there is larger, MIN one than
/// which none there is smaller, and both are null where none stands in it.
pub proof fn lemma_extremes(name: Seq<char>, distinct: bool, c: Seq<char>, rows: Seq<RowV>, ps: Seq<ValueV>, i: int, v: ValueV)
    requires
        text::lowercase(name) == "max"@ || text::lowercase(name) == "min"@,
    ensures
        ({
            let x = select::aggregate_value(on_column(name, distinct, c), rows, ps, i);
            if stands_in(rows, c, v) {
                &&& stands_in(rows, c, x)
                &&& text::lowercase(name) == "max"@ ==> !operators::smaller(x, v)
                &&& text::lowercase(name) == "min"@ ==> !operators::smaller(v, x)
            } else {
                x == ValueV::Null || stands_in(rows, c, x)
            }
        }),
{
    reveal_strlit("sum");
    reveal_strlit("count");
    reveal_strlit("avg");
    reveal_strlit("max");
    reveal_strlit("min");
    assert("max"@.len() != "count"@.len() && "min"@.len() != "count"@.len());
    assert("max"@[0] != "sum"@[0] && "min"@[0] != "sum"@[0]);
    assert("max"@[0] != "avg"@[0] && "min"@[0] != "avg"@[0]);
    assert("max"@[1] != "min"@[1]);
    let n = rows.len() as int;
    let vals = select::column_values(rows, c, n);
    let x = select::aggregate_value(on_column(name, distinct, c), rows, ps, i);
    let m = vals.len() as int;
    assert(rows.take(n) =~= rows);
    lemma_column_holds(rows, c, n, x);
    lemma_column_holds(rows, c, n, v);
    if stands_in(rows, c, v) {
        let k = choose|k: int| 0 <= k < vals.len() && vals[k] == v;
        lemma_largest(vals, m, k);
        lemma_smallest(vals, m, k);
        operators::lemma_smaller(x, v);
        operators::lemma_smaller(v, x);
        schema::lemma_order_reverse(x, v);
    } else if m > 0 {
        lemma_largest(vals, m, 0);
        lemma_smallest(vals, m, 0);
    }
}

/// What is no aggregate and takes none has in a group the value that it has in its first row.
pub proof fn lemma_first_of_group(c: Seq<char>, rows: Seq<RowV>, ps: Seq<ValueV>, i: int)
    ensures
        select::aggregate_value(ExprV::Identifier(c), rows, ps, i) == (if rows.len() == 0 {
            expr::eval_v(ExprV::Identifier(c), None, ps, i).0
        } else {
            expr::eval_v(ExprV::Identifier(c), Some(rows[0]), ps, i).0
        }),
{
}

/// An operator on aggregates has the value that it has on theirs.
pub proof fn lemma_operator_on_aggregates(op: BinaryOp, l: ExprV, r: ExprV, rows: Seq<RowV>, ps: Seq<ValueV>, i: int)
    requires
        op != BinaryOp::And,
        op != BinaryOp::Or,
        expr::placeholders(l) == 0,
        0 <= i <= usize::MAX,
    ensures
        select::aggregate_value(
            ExprV::BinaryOp { left: Box::new(l), op, right: Box::new(r) },
            rows,
            ps,
            i,
        ) == expr::binary_value(op, select::aggregate_value(l, rows, ps, i), select::aggregate_value(r, rows, ps, i)),
{
}

} // verus!

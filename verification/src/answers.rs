//! How the answers of queries hang together: what LIMIT, OFFSET, ORDER BY, DISTINCT, WHERE and the
//! select list make of the answer of the query without them.
use vstd::prelude::*;

use crate::assoc;
use crate::ast::{ExprV, LiteralV, OrderByExprV, QueryV, Select, SelectItemV, SelectV, SetExprV, TableRefV, TableWithJoinsV};
use crate::catalog;
use crate::catalog::CatalogV;
use crate::covering;
use crate::error::ErrorV;
use crate::expr;
use crate::fts::FtsTableV;
use crate::operators;
use crate::relational;
use crate::row::RowV;
use crate::schema;
use crate::schema::ValueV;
use crate::sql::select;
use crate::state;
use crate::state::StateV;
use crate::store;
use crate::text;

verus! {

/// A number as it is written in a query.
pub open spec fn number(n: nat) -> ExprV {
    ExprV::Value(LiteralV::Number(text::nat_text(n)))
}

/// The smaller of two numbers.
pub open spec fn at_most(a: int, b: int) -> int {
    if a < b {
        a
    } else {
        b
    }
}

proof fn lemma_number_read(n: nat)
    requires
        n <= usize::MAX,
    ensures
        select::count_of(number(n)) == Some(n as int),
{
    text::lemma_nat_text(n);
    assert(text::is_digit(text::nat_text(n)[0]));
}

/// The rows of a query before they are sorted: those that its condition keeps, or its groups.
pub open spec fn unsorted(s: StateV, db: u32, select: SelectV, rows: Seq<RowV>, ps: Seq<ValueV>) -> Seq<RowV> {
    select::grouped_rows(
        select::selected(s.fts, db, rows, select.selection, select::behind_from(select, ps)),
        select,
        ps,
    )
}

/// How a query shows a row.
pub open spec fn as_shown(select: SelectV, ps: Seq<ValueV>, row: RowV) -> RowV {
    assoc::assoc_remove(
        if select::is_grouped(select) || select::takes_all(select.projection) {
            row
        } else {
            select::projected(select.projection, row, ps, select.projection.len() as int)
        },
        "_rowid_"@,
    )
}

pub(crate) proof fn lemma_shaped(s: StateV, db: u32, q: QueryV, select: SelectV, rows: Seq<RowV>, ps: Seq<ValueV>)
    requires
        !select.distinct,
    ensures
        ({
            let l = select::limited_rows(
                select::ordered_rows(unsorted(s, db, select, rows, ps), q.order_by, 0),
                q.limit,
                q.offset,
            );
            select::shaped(s, db, q, select, rows, ps) == Seq::new(l.len(), |i: int| as_shown(select, ps, l[i]))
        }),
{
    let l = select::limited_rows(
        select::ordered_rows(unsorted(s, db, select, rows, ps), q.order_by, 0),
        q.limit,
        q.offset,
    );
    let out = select::shaped(s, db, q, select, rows, ps);
    assert(out =~= Seq::new(l.len(), |i: int| as_shown(select, ps, l[i])));
}

/// A query with other options.
pub open spec fn with_options(q: QueryV, order_by: Seq<OrderByExprV>, limit: Option<ExprV>, offset: Option<ExprV>) -> QueryV {
    QueryV { body: q.body, order_by, limit, offset }
}

/// The query without DISTINCT.
pub open spec fn not_distinct(q: QueryV) -> QueryV {
    match q.body {
        SetExprV::Select(select) => QueryV { body: SetExprV::Select(SelectV { distinct: false, ..select }), ..q },
        _ => q,
    }
}

/// Whether a query tells its rows apart.
pub open spec fn is_distinct(q: QueryV) -> bool {
    match q.body {
        SetExprV::Select(select) => select.distinct,
        _ => false,
    }
}

/// LIMIT takes a beginning of the answer and OFFSET leaves some of it out: with `LIMIT c` a query
/// answers with the first `c` rows of its answer without it, or with all where there are fewer;
/// with `OFFSET k` too it leaves out the first `k` rows and answers with the next `c`. `OFFSET 0`
/// is as no OFFSET, and a query fails with a limit where it fails without.
pub proof fn lemma_limit(s: StateV, db: u32, q: QueryV, ps: Seq<ValueV>, c: nat, k: nat)
    requires
        !is_distinct(q),
        c <= usize::MAX,
        k <= usize::MAX,
    ensures
        match (
            select::query_result(s, db, with_options(q, q.order_by, None, None), ps),
            select::query_result(s, db, with_options(q, q.order_by, Some(number(c)), None), ps),
            select::query_result(s, db, with_options(q, q.order_by, Some(number(c)), Some(number(k))), ps),
            select::query_result(s, db, with_options(q, q.order_by, Some(number(c)), Some(number(0))), ps),
        ) {
            (Ok(all), Ok(first), Ok(part), Ok(zero)) => {
                let n = all.rows.len() as int;
                &&& first.rows == all.rows.take(at_most(c as int, n))
                &&& part.rows == all.rows.subrange(at_most(k as int, n), at_most((k + c) as int, n))
                &&& zero.rows == first.rows
            },
            (Err(a), Err(b), Err(d), Err(e)) => a == b && b == d && d == e,
            _ => false,
        },
{
    lemma_number_read(c);
    lemma_number_read(k);
    lemma_number_read(0);
    match q.body {
        SetExprV::Select(select) => {
            match select::from_rows(s.views.items.len(), s, db, select, ps) {
                Ok(rows) => {
                    let qa = with_options(q, q.order_by, None, None);
                    let ql = with_options(q, q.order_by, Some(number(c)), None);
                    let qk = with_options(q, q.order_by, Some(number(c)), Some(number(k)));
                    let qz = with_options(q, q.order_by, Some(number(c)), Some(number(0)));
                    lemma_shaped(s, db, qa, select, rows, ps);
                    lemma_shaped(s, db, ql, select, rows, ps);
                    lemma_shaped(s, db, qk, select, rows, ps);
                    lemma_shaped(s, db, qz, select, rows, ps);
                    let all = select::shaped(s, db, qa, select, rows, ps);
                    let n = all.len() as int;
                    assert(select::shaped(s, db, ql, select, rows, ps) =~= all.take(at_most(c as int, n)));
                    assert(select::shaped(s, db, qz, select, rows, ps) =~= all.take(at_most(c as int, n)));
                    assert(select::shaped(s, db, qk, select, rows, ps) =~= all.subrange(
                        at_most(k as int, n),
                        at_most((k + c) as int, n),
                    ));
                },
                Err(_) => {},
            }
        },
        _ => {},
    }
}

/// Whether two values are told apart by nothing: they are the same, or both are doubles that are
/// not numbers.
pub open spec fn same_cell(a: ValueV, b: ValueV) -> bool {
    a == b || match (a, b) {
        (ValueV::Real(x), ValueV::Real(y)) => !operators::is_number(x) && !operators::is_number(y),
        _ => false,
    }
}

/// Whether two rows have the same names in the same order, with the same values.
pub open spec fn same_row(a: RowV, b: RowV) -> bool {
    a.len() == b.len() && forall|i: int|
        0 <= i < a.len() ==> (#[trigger] a[i]).0 == b[i].0 && same_cell(a[i].1, b[i].1)
}

pub(crate) proof fn lemma_same_cell(a: ValueV, b: ValueV)
    ensures
        same_cell(a, b) == (select::identity(a) == select::identity(b)),
{
    match a {
        ValueV::Real(x) => operators::lemma_number(x),
        _ => {},
    }
    match b {
        ValueV::Real(y) => operators::lemma_number(y),
        _ => {},
    }
}

proof fn lemma_same_row(a: RowV, b: RowV)
    ensures
        same_row(a, b) == (select::row_identity(a) == select::row_identity(b)),
{
    let x = select::row_identity(a);
    let y = select::row_identity(b);
    if same_row(a, b) {
        assert forall|i: int| 0 <= i < a.len() implies x[i] == y[i] by {
            assert(a[i].0 == b[i].0);
            lemma_same_cell(a[i].1, b[i].1);
        }
        assert(x =~= y);
    }
    if x == y {
        assert(a.len() == x.len() && b.len() == y.len());
        assert forall|i: int| 0 <= i < a.len() implies (#[trigger] a[i]).0 == b[i].0 && same_cell(a[i].1, b[i].1) by {
            assert(x[i] == y[i]);
            lemma_same_cell(a[i].1, b[i].1);
        }
    }
}

/// Whether no row before the place is the same.
pub open spec fn comes_new(rows: Seq<RowV>, k: int) -> bool {
    forall|m: int| 0 <= m < k ==> !same_row(#[trigger] rows[m], rows[k])
}

/// Whether the places are those at which each different row comes for the first time, in order.
pub open spec fn are_firsts(rows: Seq<RowV>, from: Seq<int>) -> bool {
    &&& forall|i: int, j: int| 0 <= i < j < from.len() ==> (#[trigger] from[i]) < (#[trigger] from[j])
    &&& forall|i: int| 0 <= i < from.len() ==> 0 <= #[trigger] from[i] < rows.len()
    &&& forall|k: int| 0 <= k < rows.len() ==> #[trigger] from.contains(k) == comes_new(rows, k)
}

spec fn has_twin(rows: Seq<RowV>, from: Seq<int>, k: int) -> bool {
    exists|i: int| 0 <= i < from.len() && same_row(rows[#[trigger] from[i]], rows[k])
}

proof fn lemma_firsts(rows: Seq<RowV>, n: int) -> (from: Seq<int>)
    requires
        0 <= n <= rows.len(),
    ensures
        select::distinct_upto(rows, n) == Seq::new(from.len(), |i: int| rows[from[i]]),
        are_firsts(rows.take(n), from),
        forall|k: int| 0 <= k < n ==> #[trigger] has_twin(rows, from, k),
    decreases n,
{
    if n == 0 {
        let from = Seq::<int>::empty();
        assert(select::distinct_upto(rows, 0) =~= Seq::new(0, |i: int| rows[from[i]]));
        from
    } else {
        let g = lemma_firsts(rows, n - 1);
        let p = select::distinct_upto(rows, n - 1);
        let row = rows[n - 1];
        let t = rows.take(n - 1);
        let u = rows.take(n);
        let new = select::is_new(p, row);
        assert(new == comes_new(u, n - 1)) by {
            if new {
                assert forall|m: int| 0 <= m < n - 1 implies !same_row(#[trigger] u[m], u[n - 1]) by {
                    if same_row(u[m], row) {
                        assert(has_twin(rows, g, m));
                        let i = choose|i: int| 0 <= i < g.len() && same_row(rows[#[trigger] g[i]], rows[m]);
                        lemma_same_row(rows[g[i]], rows[m]);
                        lemma_same_row(rows[m], row);
                        assert(p[i] == rows[g[i]]);
                        assert(select::row_identity(p[i]) == select::row_identity(row));
                    }
                }
            } else {
                let i = choose|i: int| 0 <= i < p.len() && select::row_identity(#[trigger] p[i]) == select::row_identity(row);
                assert(p[i] == rows[g[i]]);
                lemma_same_row(rows[g[i]], row);
                assert(0 <= g[i] < n - 1);
                assert(same_row(u[g[i]], u[n - 1]));
            }
        }
        let from = if new {
            g.push(n - 1)
        } else {
            g
        };
        assert(select::distinct_upto(rows, n) =~= Seq::new(from.len(), |i: int| rows[from[i]]));
        assert forall|k: int| 0 <= k < n implies #[trigger] has_twin(rows, from, k) by {
            if k < n - 1 {
                assert(has_twin(rows, g, k));
                let i = choose|i: int| 0 <= i < g.len() && same_row(rows[#[trigger] g[i]], rows[k]);
                assert(from[i] == g[i]);
            } else if new {
                lemma_same_row(row, row);
                assert(from[g.len() as int] == n - 1);
            } else {
                let i = choose|i: int| 0 <= i < p.len() && select::row_identity(#[trigger] p[i]) == select::row_identity(row);
                lemma_same_row(rows[g[i]], row);
                assert(from[i] == g[i]);
            }
        }
        assert forall|k: int| 0 <= k < n implies #[trigger] from.contains(k) == comes_new(u, k) by {
            if k < n - 1 {
                assert(g.contains(k) == comes_new(t, k));
                assert(comes_new(t, k) == comes_new(u, k)) by {
                    assert(forall|m: int| 0 <= m <= k ==> t[m] == u[m]);
                    if comes_new(t, k) {
                        assert forall|m: int| 0 <= m < k implies !same_row(#[trigger] u[m], u[k]) by {
                            assert(!same_row(t[m], t[k]));
                        }
                    }
                    if comes_new(u, k) {
                        assert forall|m: int| 0 <= m < k implies !same_row(#[trigger] t[m], t[k]) by {
                            assert(!same_row(u[m], u[k]));
                        }
                    }
                }
                if g.contains(k) {
                    let i = choose|i: int| 0 <= i < g.len() && g[i] == k;
                    assert(from[i] == k);
                }
                if from.contains(k) {
                    let i = choose|i: int| 0 <= i < from.len() && from[i] == k;
                    assert(g[i] == k);
                }
            } else {
                if new {
                    assert(from[g.len() as int] == k);
                } else if from.contains(k) {
                    let i = choose|i: int| 0 <= i < g.len() && g[i] == k;
                    assert(g[i] < n - 1);
                }
            }
        }
        from
    }
}

/// DISTINCT answers with each different row of the answer without it once, where it comes for the
/// first time, and with no other. What it returns are those places.
pub proof fn lemma_distinct_answer(s: StateV, db: u32, q: QueryV, ps: Seq<ValueV>) -> (from: Seq<int>)
    requires
        is_distinct(q),
    ensures
        match (select::query_result(s, db, not_distinct(q), ps), select::query_result(s, db, q, ps)) {
            (Ok(all), Ok(d)) => {
                &&& are_firsts(all.rows, from)
                &&& d.rows.len() == from.len()
                &&& forall|i: int| 0 <= i < from.len() ==> d.rows[i] == all.rows[#[trigger] from[i]]
            },
            (Err(a), Err(b)) => a == b,
            _ => false,
        },
{
    match q.body {
        SetExprV::Select(select) => {
            let plain = SelectV { distinct: false, ..select };
            let depth = s.views.items.len();
            assert(select::from_rows(depth, s, db, plain, ps) == select::from_rows(depth, s, db, select, ps));
            match select::from_rows(depth, s, db, select, ps) {
                Ok(rows) => {
                    let all = select::shaped(s, db, not_distinct(q), plain, rows, ps);
                    let d = select::shaped(s, db, q, select, rows, ps);
                    assert(select::is_grouped(plain) == select::is_grouped(select));
                    assert(select::behind_from(plain, ps) == select::behind_from(select, ps));
                    let kept = select::selected(s.fts, db, rows, select.selection, select::behind_from(select, ps));
                    assert(select::grouped_rows(kept, plain, ps) == select::grouped_rows(kept, select, ps));
                    assert(d == select::distinct_upto(all, all.len() as int));
                    let from = lemma_firsts(all, all.len() as int);
                    assert(all.take(all.len() as int) =~= all);
                    from
                },
                Err(_) => Seq::empty(),
            }
        },
        _ => Seq::empty(),
    }
}

/// Whether one row comes before another by the keys from `n` on: by the first key that tells the
/// two apart, the smaller value first, or the larger where the key is descending.
pub open spec fn sorts_first(keys: Seq<OrderByExprV>, n: int, a: RowV, b: RowV) -> bool
    decreases keys.len() - n,
{
    if n < 0 || n >= keys.len() {
        false
    } else {
        let x = expr::eval_v(keys[n].expr, Some(a), Seq::empty(), 0).0;
        let y = expr::eval_v(keys[n].expr, Some(b), Seq::empty(), 0).0;
        let down = keys[n].asc == Some(false);
        if operators::smaller(x, y) {
            !down
        } else if operators::smaller(y, x) {
            down
        } else {
            sorts_first(keys, n + 1, a, b)
        }
    }
}

proof fn lemma_sorts_first(keys: Seq<OrderByExprV>, n: int, a: RowV, b: RowV)
    ensures
        (relational::keys_order(keys, n, a, b) < 0) == sorts_first(keys, n, a, b),
        (relational::keys_order(keys, n, a, b) > 0) == sorts_first(keys, n, b, a),
    decreases keys.len() - n,
{
    if 0 <= n < keys.len() {
        let x = expr::eval_v(keys[n].expr, Some(a), Seq::empty(), 0).0;
        let y = expr::eval_v(keys[n].expr, Some(b), Seq::empty(), 0).0;
        operators::lemma_smaller(x, y);
        schema::lemma_order_reverse(x, y);
        lemma_sorts_first(keys, n + 1, a, b);
    }
}

/// Whether places are all different and all there.
pub open spec fn each_once(from: Seq<int>, n: int) -> bool {
    &&& from.len() == n
    &&& from.no_duplicates()
    &&& forall|i: int| 0 <= i < from.len() ==> 0 <= #[trigger] from[i] < n
}

/// ORDER BY answers with each row of the answer without it once. A row that comes before another by
/// the keys stands before it, and rows that no key tells apart stand as they did. The keys are those
/// of the rows before the select list; what it returns is from where each row was taken.
pub proof fn lemma_order_by(s: StateV, db: u32, q: QueryV, ps: Seq<ValueV>, keys: Seq<OrderByExprV>) -> (from: Seq<int>)
    requires
        !is_distinct(q),
    ensures
        match (
            select::query_result(s, db, with_options(q, Seq::empty(), None, None), ps),
            select::query_result(s, db, with_options(q, keys, None, None), ps),
        ) {
            (Ok(all), Ok(sorted)) => {
                let select = q.body->Select_0;
                let base = unsorted(s, db, select, select::from_rows(s.views.items.len(), s, db, select, ps)->Ok_0, ps);
                &&& q.body is Select
                &&& base.len() == all.rows.len()
                &&& sorted.rows.len() == all.rows.len()
                &&& each_once(from, all.rows.len() as int)
                &&& forall|i: int| 0 <= i < from.len() ==> sorted.rows[i] == all.rows[#[trigger] from[i]]
                &&& forall|i: int, j: int|
                    0 <= i < j < from.len() ==> !sorts_first(keys, 0, base[#[trigger] from[j]], base[#[trigger] from[i]]) && (
                    !sorts_first(keys, 0, base[from[i]], base[from[j]]) ==> from[i] < from[j])
            },
            (Err(a), Err(b)) => a == b,
            _ => false,
        },
{
    match q.body {
        SetExprV::Select(select) => match select::from_rows(s.views.items.len(), s, db, select, ps) {
            Ok(rows) => {
                let qa = with_options(q, Seq::empty(), None, None);
                let qs = with_options(q, keys, None, None);
                lemma_shaped(s, db, qa, select, rows, ps);
                lemma_shaped(s, db, qs, select, rows, ps);
                let base = unsorted(s, db, select, rows, ps);
                let from = relational::lemma_ordered_stably(base, keys, 0);
                let out = select::ordered_rows(base, keys, 0);
                assert(select::ordered_rows(base, Seq::empty(), 0) == base);
                let all = select::shaped(s, db, qa, select, rows, ps);
                let sorted = select::shaped(s, db, qs, select, rows, ps);
                assert forall|i: int| 0 <= i < from.len() implies sorted[i] == all[#[trigger] from[i]] by {
                    assert(out[i] == base[from[i]]);
                }
                assert forall|i: int, j: int| 0 <= i < j < from.len() implies !sorts_first(
                    keys,
                    0,
                    base[#[trigger] from[j]],
                    base[#[trigger] from[i]],
                ) && (!sorts_first(keys, 0, base[from[i]], base[from[j]]) ==> from[i] < from[j]) by {
                    assert(relational::goes_before(base, keys, 0, from[i], from[j]));
                    reveal(relational::goes_before);
                    lemma_sorts_first(keys, 0, base[from[i]], base[from[j]]);
                }
                from
            },
            Err(_) => Seq::empty(),
        },
        _ => Seq::empty(),
    }
}

/// Whether the places are those of the rows that a condition is true of, in order.
pub open spec fn are_kept(rows: Seq<RowV>, e: ExprV, ps: Seq<ValueV>, from: Seq<int>) -> bool {
    &&& forall|i: int, j: int| 0 <= i < j < from.len() ==> (#[trigger] from[i]) < (#[trigger] from[j])
    &&& forall|i: int| 0 <= i < from.len() ==> 0 <= #[trigger] from[i] < rows.len()
    &&& forall|k: int|
        0 <= k < rows.len() ==> #[trigger] from.contains(k) == operators::counts(expr::eval_v(e, Some(rows[k]), ps, 0).0)
}

proof fn lemma_kept_places(fts: CatalogV<FtsTableV>, db: u32, rows: Seq<RowV>, e: ExprV, ps: Seq<ValueV>, n: int) -> (from: Seq<int>)
    requires
        operators::asks_no_index(e),
        0 <= n <= rows.len(),
    ensures
        are_kept(rows.take(n), e, ps, from),
        select::kept_rows(fts, db, rows, Some(e), ps, n) == Seq::new(from.len(), |i: int| rows[from[i]]),
    decreases n,
{
    let p = select::kept_rows(fts, db, rows, Some(e), ps, n);
    if n == 0 {
        let from = Seq::<int>::empty();
        assert(p =~= Seq::new(from.len(), |i: int| rows[from[i]]));
        from
    } else {
        let g = lemma_kept_places(fts, db, rows, e, ps, n - 1);
        let row = rows[n - 1];
        operators::lemma_condition(fts, db, row, e, ps, 0);
        let yes = operators::counts(expr::eval_v(e, Some(row), ps, 0).0);
        let from = if yes {
            g.push(n - 1)
        } else {
            g
        };
        assert(p =~= Seq::new(from.len(), |i: int| rows[from[i]]));
        let u = rows.take(n);
        let t = rows.take(n - 1);
        assert forall|k: int| 0 <= k < u.len() implies #[trigger] from.contains(k) == operators::counts(
            expr::eval_v(e, Some(u[k]), ps, 0).0,
        ) by {
            if k < n - 1 {
                assert(t[k] == u[k]);
                assert(g.contains(k) == operators::counts(expr::eval_v(e, Some(t[k]), ps, 0).0));
                if g.contains(k) {
                    let i = choose|i: int| 0 <= i < g.len() && g[i] == k;
                    assert(from[i] == k);
                }
                if from.contains(k) {
                    let i = choose|i: int| 0 <= i < from.len() && from[i] == k;
                    assert(g[i] == k);
                }
            } else {
                if yes {
                    assert(from[g.len() as int] == k);
                } else if from.contains(k) {
                    let i = choose|i: int| 0 <= i < g.len() && g[i] == k;
                    assert(g[i] < n - 1);
                }
            }
        }
        from
    }
}

/// WHERE keeps exactly the rows that its condition is true of, in their order, and without WHERE
/// all are kept. What it returns are the places of those that are kept.
pub proof fn lemma_where(fts: CatalogV<FtsTableV>, db: u32, rows: Seq<RowV>, e: ExprV, ps: Seq<ValueV>) -> (from: Seq<int>)
    requires
        operators::asks_no_index(e),
    ensures
        are_kept(rows, e, ps, from),
        select::selected(fts, db, rows, Some(e), ps) == Seq::new(from.len(), |i: int| rows[from[i]]),
        select::selected(fts, db, rows, None, ps) == rows,
{
    let from = lemma_kept_places(fts, db, rows, e, ps, rows.len() as int);
    assert(rows.take(rows.len() as int) =~= rows);
    lemma_all_kept(fts, db, rows, ps, rows.len() as int);
    from
}

pub(crate) proof fn lemma_all_kept(fts: CatalogV<FtsTableV>, db: u32, rows: Seq<RowV>, ps: Seq<ValueV>, n: int)
    requires
        0 <= n <= rows.len(),
    ensures
        select::kept_rows(fts, db, rows, None, ps, n) == rows.take(n),
    decreases n,
{
    if n > 0 {
        lemma_all_kept(fts, db, rows, ps, n - 1);
    }
    assert(select::kept_rows(fts, db, rows, None, ps, n) =~= rows.take(n));
}

/// `SELECT * FROM table` with or without a condition.
pub open spec fn whole_rows(table: Seq<char>, alias: Option<Seq<char>>, selection: Option<ExprV>) -> QueryV {
    QueryV {
        body: SetExprV::Select(
            SelectV {
                distinct: false,
                projection: seq![SelectItemV::Wildcard],
                from: seq![TableWithJoinsV { relation: TableRefV { table, alias }, joins: Seq::empty() }],
                selection,
                group_by: None,
            },
        ),
        order_by: Seq::empty(),
        limit: None,
        offset: None,
    }
}

pub(crate) proof fn lemma_whole_shape(s: StateV, db: u32, table: Seq<char>, alias: Option<Seq<char>>, selection: Option<ExprV>, rows: Seq<RowV>, ps: Seq<ValueV>)
    ensures
        ({
            let q = whole_rows(table, alias, selection);
            let kept = select::selected(s.fts, db, rows, selection, ps);
            select::shaped(s, db, q, q.body->Select_0, rows, ps) == select::stripped(kept)
        }),
        ({
            let select = whole_rows(table, alias, selection).body->Select_0;
            select::behind_from(select, ps) == ps
        }),
{
    let q = whole_rows(table, alias, selection);
    let select = q.body->Select_0;
    let items = select.projection;
    let kept = select::selected(s.fts, db, rows, selection, ps);
    reveal_with_fuel(select::item_placeholders, 2);
    reveal_with_fuel(select::from_placeholders, 2);
    assert(select::item_placeholders(items, 1) == 0);
    assert(select::join_placeholders(select.from[0].joins, 0) == 0);
    assert(select::from_placeholders(select.from, 1) == 0);
    assert(select::behind_from(select, ps) == ps);
    assert(!select::aggregates(items[0]));
    assert(!select::is_grouped(select));
    assert(select::takes_all(items));
    lemma_shaped(s, db, q, select, rows, ps);
    assert(select::ordered_rows(kept, Seq::empty(), 0) == kept);
    assert(select::shaped(s, db, q, select, rows, ps) =~= select::stripped(kept));
}

proof fn lemma_id_comes_off(id: u64, row: RowV)
    requires
        forall|i: int| 0 <= i < row.len() ==> (#[trigger] row[i]).0 != "_rowid_"@,
    ensures
        assoc::assoc_remove(select::with_rowid(id, row), "_rowid_"@) == row,
{
    let v = ValueV::Integer(id as i64);
    assoc::lemma_put_absent(row, "_rowid_"@, v);
    let w = row.push(("_rowid_"@, v));
    assert forall|j: int| 0 <= j < row.len() implies (#[trigger] w[j]).0 != "_rowid_"@ by {
        assert(w[j] == row[j]);
    }
    assoc::lemma_get_at(w, "_rowid_"@, row.len() as int);
    assert(w.remove(row.len() as int) =~= row);
}

/// `SELECT * FROM t WHERE e` answers with exactly the rows of the table that the condition is true
/// of, each once and as it is stored, in the order of their ids, whatever indexes there are; without
/// WHERE it answers with all. What it returns are the ids of the rows.
pub proof fn lemma_table_answer(
    s: StateV,
    db: u32,
    table: Seq<char>,
    alias: Option<Seq<char>>,
    selection: Option<ExprV>,
    ps: Seq<ValueV>,
    m: Map<u64, RowV>,
) -> (ids: Seq<u64>)
    requires
        covering::covered(s),
        catalog::find(s.views, db, table) is None,
        state::table_rows(s, db, table) == Some(m),
        !covering::asks_rowid(selection, ps),
        selection matches Some(e) ==> operators::asks_no_index(e),
        forall|id: u64, i: int| m.contains_key(id) && 0 <= i < m[id].len() ==> (#[trigger] m[id][i]).0 != "_rowid_"@,
    ensures
        select::query_result(s, db, whole_rows(table, alias, selection), ps) is Ok,
        ({
            let r = select::query_result(s, db, whole_rows(table, alias, selection), ps)->Ok_0;
            &&& r.rows.len() == ids.len()
            &&& forall|i: int, j: int| 0 <= i < j < ids.len() ==> (#[trigger] ids[i]) < (#[trigger] ids[j])
            &&& forall|i: int| 0 <= i < ids.len() ==> r.rows[i] == m[#[trigger] ids[i]]
            &&& forall|id: u64| #[trigger]
                ids.contains(id) == (m.contains_key(id) && match selection {
                    Some(e) => operators::counts(expr::eval_v(e, Some(select::with_rowid(id, m[id])), ps, 0).0),
                    None => true,
                })
        }),
{
    let q = whole_rows(table, alias, selection);
    let select = q.body->Select_0;
    covering::lemma_index_changes_nothing(s, db, table, selection, ps);
    let all = select::scanned(m);
    let list = store::row_list(m);
    store::lemma_ids_from(m.dom(), 0);
    let source = select::source_rows(s, db, table, selection, ps)->Ok_0;
    lemma_whole_shape(s, db, table, alias, selection, source, ps);
    assert(select::single_source(select.from) == Some(table));
    assert(select::from_rows(s.views.items.len(), s, db, select, ps) == Ok::<Seq<RowV>, ErrorV>(source));
    let kept = select::selected(s.fts, db, all, selection, ps);
    assert(select::selected(s.fts, db, source, selection, ps) == kept);
    let from = match selection {
        Some(e) => lemma_where(s.fts, db, all, e, ps),
        None => {
            lemma_all_kept(s.fts, db, all, ps, all.len() as int);
            assert(all.take(all.len() as int) =~= all);
            Seq::new(all.len(), |i: int| i)
        },
    };
    assert(kept =~= Seq::new(from.len(), |i: int| all[from[i]]));
    let ids = Seq::new(from.len(), |i: int| list[from[i]].0);
    let r = select::query_result(s, db, q, ps)->Ok_0;
    assert(r.rows == select::stripped(kept));
    assert forall|i: int| 0 <= i < ids.len() implies r.rows[i] == m[#[trigger] ids[i]] by {
        let k = from[i];
        store::lemma_listed(m, k);
        assert(all[k] == select::with_rowid(list[k].0, list[k].1));
        let row = m[ids[i]];
        assert forall|x: int| 0 <= x < row.len() implies (#[trigger] row[x]).0 != "_rowid_"@ by {
            assert(m[ids[i]][x].0 != "_rowid_"@);
        }
        lemma_id_comes_off(ids[i], row);
    }
    assert forall|i: int, j: int| 0 <= i < j < ids.len() implies (#[trigger] ids[i]) < (#[trigger] ids[j]) by {
        assert(from[i] < from[j]);
        assert(store::row_ids(m)[from[i]] < store::row_ids(m)[from[j]]);
    }
    assert forall|id: u64| #[trigger] ids.contains(id) == (m.contains_key(id) && match selection {
        Some(e) => operators::counts(expr::eval_v(e, Some(select::with_rowid(id, m[id])), ps, 0).0),
        None => true,
    }) by {
        if ids.contains(id) {
            let i = choose|i: int| 0 <= i < ids.len() && ids[i] == id;
            let k = from[i];
            store::lemma_listed(m, k);
            assert(from.contains(k));
            assert(all[k] == select::with_rowid(id, m[id]));
        }
        if m.contains_key(id) {
            let k = store::lemma_place_in_list(m, id);
            assert(all[k] == select::with_rowid(id, m[id]));
            if from.contains(k) {
                let i = choose|i: int| 0 <= i < from.len() && from[i] == k;
                assert(ids[i] == id);
            }
            match selection {
                Some(e) => {
                    assert(from.contains(k) == operators::counts(expr::eval_v(e, Some(all[k]), ps, 0).0));
                },
                None => {
                    assert(from[k] == k);
                },
            }
        }
    }
    ids
}

} // verus!

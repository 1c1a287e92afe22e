//! What GROUP BY and the aggregate functions answer: which rows fall into one group, and what a
//! group says of its rows.
use vstd::prelude::*;

use crate::answers;
use crate::assoc;
use crate::ast::{ExprV, QueryV, SelectItemV, SelectV, SetExprV};
use crate::error::ErrorV;
use crate::expr;
use crate::row::RowV;
use crate::schema::ValueV;
use crate::sql::select;
use crate::state::StateV;

verus! {

/// The rows at some places of a list.
pub open spec fn members(rows: Seq<RowV>, places: Seq<int>) -> Seq<RowV> {
    Seq::new(places.len(), |k: int| rows[places[k]])
}

/// Whether an expression gives the same value for two rows.
pub open spec fn agrees(e: ExprV, a: RowV, b: RowV) -> bool {
    answers::same_cell(expr::eval_v(e, Some(a), Seq::empty(), 0).0, expr::eval_v(e, Some(b), Seq::empty(), 0).0)
}

/// Whether each of some expressions gives the same value for two rows.
pub open spec fn agree(exprs: Seq<ExprV>, a: RowV, b: RowV) -> bool {
    forall|k: int| 0 <= k < exprs.len() ==> agrees(#[trigger] exprs[k], a, b)
}

/// Whether groups, each a list of places, take rows apart: `no` says the one group in which each
/// row stands, a group holds the rows that it is said of, in their order, and no group is empty.
/// Groups come in the order of their first rows.
pub open spec fn take_apart(rows: Seq<RowV>, gs: Seq<Seq<int>>, no: Seq<int>) -> bool {
    &&& no.len() == rows.len()
    &&& forall|i: int| 0 <= i < rows.len() ==> 0 <= #[trigger] no[i] < gs.len() && gs[no[i]].contains(i)
    &&& forall|g: int, k: int|
        0 <= g < gs.len() && 0 <= k < gs[g].len() ==> 0 <= #[trigger] gs[g][k] < rows.len() && no[gs[g][k]] == g
    &&& forall|g: int, h: int, k: int|
        0 <= g < gs.len() && 0 <= h < k < gs[g].len() ==> #[trigger] gs[g][h] < #[trigger] gs[g][k]
    &&& forall|g: int| 0 <= g < gs.len() ==> (#[trigger] gs[g]).len() > 0
    &&& forall|g: int, h: int| 0 <= g < h < gs.len() ==> (#[trigger] gs[g])[0] < (#[trigger] gs[h])[0]
}

spec fn built(
    exprs: Seq<ExprV>,
    rows: Seq<RowV>,
    n: int,
    p: Seq<(Seq<ValueV>, Seq<RowV>)>,
    gs: Seq<Seq<int>>,
    no: Seq<int>,
) -> bool {
    &&& take_apart(rows.take(n), gs, no)
    &&& p.len() == gs.len()
    &&& assoc::assoc_distinct(p)
    &&& forall|g: int| 0 <= g < gs.len() ==> (#[trigger] p[g]).1 == members(rows, gs[g])
    &&& forall|i: int| 0 <= i < n ==> p[#[trigger] no[i]].0 == select::group_key(exprs, rows[i])
}

proof fn lemma_built(exprs: Seq<ExprV>, rows: Seq<RowV>, n: int) -> (r: (Seq<Seq<int>>, Seq<int>))
    requires
        0 <= n <= rows.len(),
    ensures
        built(exprs, rows, n, select::groups_upto(exprs, rows, n), r.0, r.1),
    decreases n,
{
    if n == 0 {
        (Seq::empty(), Seq::empty())
    } else {
        let (gs, no) = lemma_built(exprs, rows, n - 1);
        let p = select::groups_upto(exprs, rows, n - 1);
        let q = select::groups_upto(exprs, rows, n);
        let key = select::group_key(exprs, rows[n - 1]);
        if exists|g: int| 0 <= g < p.len() && (#[trigger] p[g]).0 == key {
            let g = choose|g: int| 0 <= g < p.len() && (#[trigger] p[g]).0 == key;
            assoc::lemma_get_at(p, key, g);
            assert(q == p.update(g, (key, p[g].1.push(rows[n - 1]))));
            let gs1 = gs.update(g, gs[g].push(n - 1));
            let no1 = no.push(g);
            lemma_joins(exprs, rows, n, p, gs, no, g);
            (gs1, no1)
        } else {
            assoc::lemma_put_absent(p, key, seq![rows[n - 1]]);
            assert(Seq::empty().push(rows[n - 1]) =~= seq![rows[n - 1]]);
            assert(q == p.push((key, seq![rows[n - 1]])));
            lemma_opens(exprs, rows, n, p, gs, no);
            (gs.push(seq![n - 1]), no.push(gs.len() as int))
        }
    }
}

proof fn lemma_joins(
    exprs: Seq<ExprV>,
    rows: Seq<RowV>,
    n: int,
    p: Seq<(Seq<ValueV>, Seq<RowV>)>,
    gs: Seq<Seq<int>>,
    no: Seq<int>,
    g: int,
)
    requires
        0 < n <= rows.len(),
        built(exprs, rows, n - 1, p, gs, no),
        0 <= g < p.len(),
        p[g].0 == select::group_key(exprs, rows[n - 1]),
    ensures
        built(
            exprs,
            rows,
            n,
            p.update(g, (p[g].0, p[g].1.push(rows[n - 1]))),
            gs.update(g, gs[g].push(n - 1)),
            no.push(g),
        ),
{
    let q = p.update(g, (p[g].0, p[g].1.push(rows[n - 1])));
    let gs1 = gs.update(g, gs[g].push(n - 1));
    let no1 = no.push(g);
    let all = rows.take(n);
    assert(gs[g].len() > 0);
    assert forall|i: int| 0 <= i < all.len() implies 0 <= #[trigger] no1[i] < gs1.len() && gs1[no1[i]].contains(i) by {
        if i < n - 1 {
            assert(0 <= no[i] < gs.len() && gs[no[i]].contains(i));
            let k = choose|k: int| 0 <= k < gs[no[i]].len() && gs[no[i]][k] == i;
            assert(gs1[no[i]][k] == i);
        } else {
            assert(gs1[g][gs[g].len() as int] == n - 1);
        }
    }
    assert forall|x: int, k: int| 0 <= x < gs1.len() && 0 <= k < gs1[x].len() implies 0 <= #[trigger] gs1[x][k] < all.len()
        && no1[gs1[x][k]] == x by {
        if x != g || k < gs[g].len() {
            assert(gs1[x][k] == gs[x][k]);
        }
    }
    assert forall|x: int, h: int, k: int| 0 <= x < gs1.len() && 0 <= h < k < gs1[x].len() implies #[trigger] gs1[x][h]
        < #[trigger] gs1[x][k] by {
        assert(gs1[x][h] == gs[x][h]);
        if x != g || k < gs[g].len() {
            assert(gs1[x][k] == gs[x][k]);
        }
    }
    assert forall|x: int| 0 <= x < gs1.len() implies (#[trigger] gs1[x]).len() > 0 by {
        assert(gs[x].len() > 0);
    }
    assert forall|x: int, y: int| 0 <= x < y < gs1.len() implies (#[trigger] gs1[x])[0] < (#[trigger] gs1[y])[0] by {
        assert(gs[x].len() > 0 && gs[y].len() > 0);
        assert(gs[x][0] < gs[y][0]);
    }
    assert forall|x: int| 0 <= x < gs1.len() implies (#[trigger] q[x]).1 == members(rows, gs1[x]) by {
        assert(p[x].1 == members(rows, gs[x]));
        if x == g {
            assert(members(rows, gs1[g]) =~= members(rows, gs[g]).push(rows[n - 1]));
        }
    }
    assert forall|i: int| 0 <= i < n implies q[#[trigger] no1[i]].0 == select::group_key(exprs, rows[i]) by {
        if i < n - 1 {
            assert(0 <= no[i] < gs.len());
            assert(p[no[i]].0 == select::group_key(exprs, rows[i]));
        }
    }
}

proof fn lemma_opens(
    exprs: Seq<ExprV>,
    rows: Seq<RowV>,
    n: int,
    p: Seq<(Seq<ValueV>, Seq<RowV>)>,
    gs: Seq<Seq<int>>,
    no: Seq<int>,
)
    requires
        0 < n <= rows.len(),
        built(exprs, rows, n - 1, p, gs, no),
        forall|g: int| 0 <= g < p.len() ==> (#[trigger] p[g]).0 != select::group_key(exprs, rows[n - 1]),
    ensures
        built(
            exprs,
            rows,
            n,
            p.push((select::group_key(exprs, rows[n - 1]), seq![rows[n - 1]])),
            gs.push(seq![n - 1]),
            no.push(gs.len() as int),
        ),
{
    let q = p.push((select::group_key(exprs, rows[n - 1]), seq![rows[n - 1]]));
    let gs1 = gs.push(seq![n - 1]);
    let no1 = no.push(gs.len() as int);
    let all = rows.take(n);
    let g = gs.len() as int;
    assert forall|i: int| 0 <= i < all.len() implies 0 <= #[trigger] no1[i] < gs1.len() && gs1[no1[i]].contains(i) by {
        if i < n - 1 {
            assert(0 <= no[i] < gs.len() && gs[no[i]].contains(i));
        } else {
            assert(gs1[g][0] == n - 1);
        }
    }
    assert forall|x: int, k: int| 0 <= x < gs1.len() && 0 <= k < gs1[x].len() implies 0 <= #[trigger] gs1[x][k] < all.len()
        && no1[gs1[x][k]] == x by {
        if x < g {
            assert(gs1[x][k] == gs[x][k]);
        }
    }
    assert forall|x: int, h: int, k: int| 0 <= x < gs1.len() && 0 <= h < k < gs1[x].len() implies #[trigger] gs1[x][h]
        < #[trigger] gs1[x][k] by {
        assert(gs1[x][h] == gs[x][h]);
        assert(gs1[x][k] == gs[x][k]);
    }
    assert forall|x: int| 0 <= x < gs1.len() implies (#[trigger] gs1[x]).len() > 0 by {
        if x < g {
            assert(gs[x].len() > 0);
        }
    }
    assert forall|x: int, y: int| 0 <= x < y < gs1.len() implies (#[trigger] gs1[x])[0] < (#[trigger] gs1[y])[0] by {
        assert(gs[x].len() > 0);
        assert(0 <= gs[x][0] < rows.take(n - 1).len());
        if y < g {
            assert(gs[y].len() > 0);
            assert(gs[x][0] < gs[y][0]);
        }
    }
    assert forall|x: int| 0 <= x < gs1.len() implies (#[trigger] q[x]).1 == members(rows, gs1[x]) by {
        if x < g {
            assert(p[x].1 == members(rows, gs[x]));
        } else {
            assert(members(rows, gs1[g]) =~= seq![rows[n - 1]]);
        }
    }
    assert forall|i: int| 0 <= i < n implies q[#[trigger] no1[i]].0 == select::group_key(exprs, rows[i]) by {
        if i < n - 1 {
            assert(0 <= no[i] < gs.len());
            assert(p[no[i]].0 == select::group_key(exprs, rows[i]));
        }
    }
}

proof fn lemma_same_key(exprs: Seq<ExprV>, a: RowV, b: RowV)
    ensures
        (select::group_key(exprs, a) == select::group_key(exprs, b)) == agree(exprs, a, b),
{
    let x = select::group_key(exprs, a);
    let y = select::group_key(exprs, b);
    assert forall|k: int| 0 <= k < exprs.len() implies agrees(#[trigger] exprs[k], a, b) == (x[k] == y[k]) by {
        answers::lemma_same_cell(
            expr::eval_v(exprs[k], Some(a), Seq::empty(), 0).0,
            expr::eval_v(exprs[k], Some(b), Seq::empty(), 0).0,
        );
    }
    if agree(exprs, a, b) {
        assert(x =~= y);
    } else {
        let k = choose|k: int| 0 <= k < exprs.len() && !agrees(#[trigger] exprs[k], a, b);
        assert(x[k] != y[k]);
    }
}

/// GROUP BY takes the rows apart: each row stands in exactly one group, two rows stand in one
/// group if and only if each expression gives the same value for both, and there is one row in
/// the answer for each group, made of the rows of the group in their order.
pub proof fn lemma_groups(rows: Seq<RowV>, select: SelectV, exprs: Seq<ExprV>, ps: Seq<ValueV>) -> (r: (Seq<Seq<int>>, Seq<int>))
    requires
        select.group_by == Some(exprs),
        exprs.len() > 0,
    ensures
        take_apart(rows, r.0, r.1),
        forall|i: int, j: int|
            0 <= i < rows.len() && 0 <= j < rows.len() ==> (#[trigger] r.1[i] == #[trigger] r.1[j]) == agree(
                exprs,
                rows[i],
                rows[j],
            ),
        select::grouped_rows(rows, select, ps).len() == r.0.len(),
        forall|g: int|
            0 <= g < r.0.len() ==> #[trigger] select::grouped_rows(rows, select, ps)[g] == select::group_row(
                select.projection,
                members(rows, r.0[g]),
                ps,
                select.projection.len() as int,
            ),
{
    let n = rows.len() as int;
    let (gs, no) = lemma_built(exprs, rows, n);
    let p = select::groups_upto(exprs, rows, n);
    assert(rows.take(n) =~= rows);
    assert forall|i: int, j: int| 0 <= i < rows.len() && 0 <= j < rows.len() implies (#[trigger] no[i] == #[trigger] no[j]) == agree(
        exprs,
        rows[i],
        rows[j],
    ) by {
        lemma_same_key(exprs, rows[i], rows[j]);
        assert(p[no[i]].0 == select::group_key(exprs, rows[i]));
        assert(p[no[j]].0 == select::group_key(exprs, rows[j]));
        assert(0 <= no[i] < gs.len() && 0 <= no[j] < gs.len());
        if no[i] < no[j] {
            assert(p[no[i]].0 != p[no[j]].0);
        } else if no[j] < no[i] {
            assert(p[no[j]].0 != p[no[i]].0);
        }
    }
    assert forall|g: int| 0 <= g < gs.len() implies #[trigger] select::grouped_rows(rows, select, ps)[g] == select::group_row(
        select.projection,
        members(rows, gs[g]),
        ps,
        select.projection.len() as int,
    ) by {
        assert(p[g].1 == members(rows, gs[g]));
    }
    (gs, no)
}

/// Where a query takes an aggregate and has no GROUP BY, all rows are one group, also where there
/// are none.
pub proof fn lemma_one_group(rows: Seq<RowV>, select: SelectV, ps: Seq<ValueV>, k: int)
    requires
        select.group_by is None,
        select.from.len() > 0,
        0 <= k < select.projection.len(),
        select::aggregates(select.projection[k]),
    ensures
        select::grouped_rows(rows, select, ps) == seq![
            select::group_row(select.projection, rows, ps, select.projection.len() as int),
        ],
{
    assert(select::aggregates(select.projection[k]));
}

/// The expression of an item of a select list.
pub open spec fn item_expr(item: SelectItemV) -> Option<ExprV> {
    match item {
        SelectItemV::Unnamed { expr, text } => Some(expr),
        SelectItemV::Aliased { expr, alias } => Some(expr),
        _ => None,
    }
}

proof fn lemma_item_kept(items: Seq<SelectItemV>, rows: Seq<RowV>, ps: Seq<ValueV>, k: int, n: int)
    requires
        0 <= k < n <= items.len(),
        item_expr(items[k]) is Some,
        forall|j: int| k < j < items.len() && item_expr(items[j]) is Some ==> select::shown_name(#[trigger] items[j]) != select::shown_name(
            items[k],
        ),
    ensures
        assoc::assoc_get(select::group_row(items, rows, ps, n), select::shown_name(items[k])) == Some(
            select::aggregate_value(item_expr(items[k])->0, rows, ps, select::item_placeholders(items, k)),
        ),
    decreases n,
{
    let name = select::shown_name(items[k]);
    let p = select::group_row(items, rows, ps, n - 1);
    let at = select::item_placeholders(items, n - 1);
    if n - 1 == k {
        assoc::lemma_get_put(p, name, select::aggregate_value(item_expr(items[k])->0, rows, ps, at));
    } else {
        lemma_item_kept(items, rows, ps, k, n - 1);
        if item_expr(items[n - 1]) is Some {
            let e = item_expr(items[n - 1])->0;
            assoc::lemma_get_put_other(p, select::shown_name(items[n - 1]), select::aggregate_value(e, rows, ps, at), name);
        }
    }
}

/// In the row of a group stands under the name of each item what its expression is over the rows
/// of the group.
pub proof fn lemma_group_cells(items: Seq<SelectItemV>, rows: Seq<RowV>, ps: Seq<ValueV>, k: int)
    requires
        0 <= k < items.len(),
        item_expr(items[k]) is Some,
        forall|j: int| k < j < items.len() && item_expr(items[j]) is Some ==> select::shown_name(#[trigger] items[j]) != select::shown_name(
            items[k],
        ),
    ensures
        assoc::assoc_get(select::group_row(items, rows, ps, items.len() as int), select::shown_name(items[k])) == Some(
            select::aggregate_value(item_expr(items[k])->0, rows, ps, select::item_placeholders(items, k)),
        ),
{
    lemma_item_kept(items, rows, ps, k, items.len() as int);
}

/// The answer of a query with GROUP BY has one row for each group of the rows that its condition
/// keeps, and in it under the name of each item what its expression is over the rows of the group.
pub proof fn lemma_grouped_answer(
    s: StateV,
    db: u32,
    q: QueryV,
    select: SelectV,
    exprs: Seq<ExprV>,
    ps: Seq<ValueV>,
    base: Seq<RowV>,
) -> (r: (Seq<Seq<int>>, Seq<int>))
    requires
        q.body == SetExprV::Select(select),
        q.order_by.len() == 0,
        q.limit is None,
        q.offset is None,
        !select.distinct,
        select.group_by == Some(exprs),
        exprs.len() > 0,
        select::from_rows(s.views.items.len(), s, db, select, ps) == Ok::<Seq<RowV>, ErrorV>(base),
    ensures
        ({
            let rows = select::selected(s.fts, db, base, select.selection, select::behind_from(select, ps));
            let items = select.projection;
            &&& take_apart(rows, r.0, r.1)
            &&& forall|i: int, j: int|
                0 <= i < rows.len() && 0 <= j < rows.len() ==> (#[trigger] r.1[i] == #[trigger] r.1[j]) == agree(
                    exprs,
                    rows[i],
                    rows[j],
                )
            &&& match select::query_result(s, db, q, ps) {
                Ok(a) => {
                    &&& a.rows.len() == r.0.len()
                    &&& forall|g: int, k: int|
                        0 <= g < r.0.len() && 0 <= k < items.len() && is_alone(items, k) ==> assoc::assoc_get(
                            #[trigger] a.rows[g],
                            select::shown_name(#[trigger] items[k]),
                        ) == Some(
                            select::aggregate_value(
                                item_expr(items[k])->0,
                                members(rows, r.0[g]),
                                ps,
                                select::item_placeholders(items, k),
                            ),
                        )
                },
                Err(_) => false,
            }
        }),
{
    let rows = select::selected(s.fts, db, base, select.selection, select::behind_from(select, ps));
    let items = select.projection;
    let (gs, no) = lemma_groups(rows, select, exprs, ps);
    answers::lemma_shaped(s, db, q, select, base, ps);
    let all = select::grouped_rows(rows, select, ps);
    assert(answers::unsorted(s, db, select, base, ps) == all);
    assert(select::limited_rows(select::ordered_rows(all, q.order_by, 0), q.limit, q.offset) =~= all);
    let out = select::query_result(s, db, q, ps)->Ok_0.rows;
    assert forall|g: int, k: int| 0 <= g < gs.len() && 0 <= k < items.len() && is_alone(items, k) implies assoc::assoc_get(
        #[trigger] out[g],
        select::shown_name(#[trigger] items[k]),
    ) == Some(
        select::aggregate_value(item_expr(items[k])->0, members(rows, gs[g]), ps, select::item_placeholders(items, k)),
    ) by {
        assert(all[g] == select::group_row(items, members(rows, gs[g]), ps, items.len() as int));
        lemma_group_cells(items, members(rows, gs[g]), ps, k);
        assert(out[g] == answers::as_shown(select, ps, all[g]));
        assoc::lemma_get_remove_other(all[g], "_rowid_"@, select::shown_name(items[k]));
    }
    (gs, no)
}

/// Whether no item behind an item of a select list has its name, and the name is not that of a
/// row's id.
pub open spec fn is_alone(items: Seq<SelectItemV>, k: int) -> bool {
    &&& item_expr(items[k]) is Some
    &&& select::shown_name(items[k]) != "_rowid_"@
    &&& forall|j: int| k < j < items.len() && item_expr(items[j]) is Some ==> select::shown_name(#[trigger] items[j]) != select::shown_name(
        items[k],
    )
}

} // verus!

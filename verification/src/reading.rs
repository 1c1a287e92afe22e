//! What a query reads and shows: the rows of joins and views, and the cells of its select list.
use vstd::prelude::*;

use crate::answers;
use crate::assoc;
use crate::ast::{ExprV, FunctionArgV, JoinV, LiteralV, ObjectTypeV, QueryV, SelectItemV, SelectV, SetExprV, StatementV, TableRefV, TableWithJoinsV};
use crate::catalog;
use crate::catalog::CatalogV;
use crate::chains;
use crate::error::ErrorV;
use crate::expr;
use crate::fts;
use crate::fts::FtsTableV;
use crate::grouping;
use crate::operators;
use crate::row::RowV;
use crate::schema::ValueV;
use crate::searching;
use crate::sql;
use crate::sql::ddl;
use crate::sql::dml;
use crate::sql::parser;
use crate::sql::select;
use crate::state::StateV;
use crate::text;

verus! {

/// The query for all columns of joined tables.
pub open spec fn whole_join(t: TableRefV, js: Seq<JoinV>, selection: Option<ExprV>) -> QueryV {
    QueryV {
        body: SetExprV::Select(
            SelectV {
                distinct: false,
                projection: seq![SelectItemV::Wildcard],
                from: seq![TableWithJoinsV { relation: t, joins: js }],
                selection,
                group_by: None,
            },
        ),
        order_by: Seq::empty(),
        limit: None,
        offset: None,
    }
}

proof fn lemma_join_shape(s: StateV, db: u32, t: TableRefV, js: Seq<JoinV>, selection: Option<ExprV>, rows: Seq<RowV>, ps: Seq<ValueV>)
    requires
        chains::asked(js, js.len() as int) <= usize::MAX,
    ensures
        ({
            let q = whole_join(t, js, selection);
            let select = q.body->Select_0;
            let behind = chains::later(ps, chains::asked(js, js.len() as int));
            let kept = select::selected(s.fts, db, rows, selection, behind);
            &&& select::behind_items(select, ps) == ps
            &&& select::shaped(s, db, q, select, rows, ps) == Seq::new(
                kept.len(),
                |i: int| assoc::assoc_remove(kept[i], "_rowid_"@),
            )
        }),
{
    let q = whole_join(t, js, selection);
    let select = q.body->Select_0;
    let items = select.projection;
    let n = js.len() as int;
    reveal_with_fuel(select::item_placeholders, 2);
    reveal_with_fuel(select::from_placeholders, 2);
    assert(select::item_placeholders(items, 1) == 0);
    chains::lemma_asked(js, n);
    assert(select::from_placeholders(select.from, 1) == chains::asked(js, n));
    let behind = chains::later(ps, chains::asked(js, n));
    assert(select::behind_from(select, ps) =~= behind);
    assert(!select::aggregates(items[0]));
    assert(!select::is_grouped(select));
    assert(select::takes_all(items));
    answers::lemma_shaped(s, db, q, select, rows, ps);
    let kept = select::selected(s.fts, db, rows, selection, behind);
    assert(answers::unsorted(s, db, select, rows, ps) == kept);
    assert(select::shaped(s, db, q, select, rows, ps) =~= Seq::new(kept.len(), |i: int| assoc::assoc_remove(kept[i], "_rowid_"@)));
}

/// A query for all columns of joined tables answers with the rows that its joins give, in their
/// order, those of which its condition holds. It fails where the joins do.
pub proof fn lemma_join_answer(s: StateV, db: u32, t: TableRefV, js: Seq<JoinV>, selection: Option<ExprV>, ps: Seq<ValueV>) -> (from:
    Seq<int>)
    requires
        js.len() > 0,
        chains::asked(js, js.len() as int) <= usize::MAX,
        selection is Some ==> operators::asks_no_index(selection->0),
    ensures
        match (
            chains::after_joins(s, db, t, js, ps, js.len() as int),
            select::query_result(s, db, whole_join(t, js, selection), ps),
        ) {
            (Err(e), Err(f)) => e == f,
            (Ok(rows), Ok(a)) => {
                let behind = chains::later(ps, chains::asked(js, js.len() as int));
                &&& a.rows.len() == from.len()
                &&& forall|i: int, j: int| 0 <= i < j < from.len() ==> (#[trigger] from[i]) < (#[trigger] from[j])
                &&& forall|i: int|
                    0 <= i < from.len() ==> 0 <= #[trigger] from[i] < rows.len() && a.rows[i] == assoc::assoc_remove(
                        rows[from[i]],
                        "_rowid_"@,
                    )
                &&& forall|k: int|
                    0 <= k < rows.len() ==> #[trigger] from.contains(k) == (match selection {
                        Some(e) => operators::counts(expr::eval_v(e, Some(rows[k]), behind, 0).0),
                        None => true,
                    })
            },
            _ => false,
        },
{
    let q = whole_join(t, js, selection);
    let select = q.body->Select_0;
    let n = js.len() as int;
    assert(js.take(n) =~= js);
    assert(select::single_source(select.from) is None);
    let behind = chains::later(ps, chains::asked(js, n));
    lemma_join_shape(s, db, t, js, selection, Seq::empty(), ps);
    match chains::after_joins(s, db, t, js, ps, n) {
        Err(_) => Seq::empty(),
        Ok(rows) => {
            lemma_join_shape(s, db, t, js, selection, rows, ps);
            match selection {
                Some(e) => answers::lemma_where(s.fts, db, rows, e, behind),
                None => {
                    answers::lemma_all_kept(s.fts, db, rows, behind, rows.len() as int);
                    assert(rows.take(rows.len() as int) =~= rows);
                    let from = Seq::new(rows.len(), |i: int| i);
                    assert forall|k: int| 0 <= k < rows.len() implies #[trigger] from.contains(k) by {
                        assert(from[k] == k);
                    }
                    from
                },
            }
        },
    }
}

/// Whether a query reads no view.
pub open spec fn reads_no_view(s: StateV, db: u32, q: QueryV) -> bool {
    match q.body {
        SetExprV::Select(select) => !(select.from.len() == 1 && select.from[0].joins.len() == 0 && catalog::find(
            s.views,
            db,
            select.from[0].relation.table,
        ) is Some),
        _ => true,
    }
}

/// A query for all columns of a view answers with the rows that the query of the view answers
/// with, and fails where it does.
pub proof fn lemma_view_answer(
    s: StateV,
    db: u32,
    view: Seq<char>,
    alias: Option<Seq<char>>,
    text: Seq<char>,
    q: QueryV,
    ps: Seq<ValueV>,
    i: int,
    c: Seq<char>,
)
    requires
        catalog::find(s.views, db, view) == Some(text),
        parser::statements_in(text) == Ok::<Seq<StatementV>, ErrorV>(seq![StatementV::Query(q)]),
        reads_no_view(s, db, q),
        c != "_rowid_"@,
    ensures
        match (select::query_result(s, db, q, ps), select::query_result(s, db, answers::whole_rows(view, alias, None), ps)) {
            (Err(e), Err(f)) => e == f,
            (Ok(r), Ok(a)) => {
                &&& a.rows.len() == r.rows.len()
                &&& 0 <= i < r.rows.len() ==> assoc::assoc_get(a.rows[i], c) == assoc::assoc_get(r.rows[i], c)
            },
            _ => false,
        },
{
    let whole = answers::whole_rows(view, alias, None);
    let select = whole.body->Select_0;
    let depth = s.views.items.len();
    assert(depth > 0) by {
        if depth == 0 {
            assoc::lemma_get_absent(s.views.items, (db, view));
        }
    }
    assert(select::single_source(select.from) == Some(view));
    assert(seq![StatementV::Query(q)][0] == StatementV::Query(q));
    let below = (depth - 1) as nat;
    assert(select::select_result(below, s, db, q, ps) == select::select_result(depth, s, db, q, ps)) by {
        match q.body {
            SetExprV::Select(inner) => {
                assert(select::from_rows(below, s, db, inner, ps) == select::from_rows(depth, s, db, inner, ps));
            },
            _ => {},
        }
    }
    match select::query_result(s, db, q, ps) {
        Ok(r) => {
            let rows = r.rows;
            answers::lemma_whole_shape(s, db, view, alias, None, rows, ps);
            answers::lemma_all_kept(s.fts, db, rows, ps, rows.len() as int);
            assert(rows.take(rows.len() as int) =~= rows);
            if 0 <= i < rows.len() {
                assoc::lemma_get_remove_other(rows[i], "_rowid_"@, c);
            }
        },
        Err(_) => {},
    }
}

/// CREATE VIEW puts the text of its query under its name and leaves all else.
pub proof fn lemma_create_view(
    depth: nat,
    s: StateV,
    db: u32,
    name: Seq<char>,
    query: Seq<char>,
    q: QueryV,
    ps: Seq<ValueV>,
    tx: Option<u32>,
    other: Seq<char>,
)
    requires
        parser::statements_in(query) == Ok::<Seq<StatementV>, ErrorV>(seq![StatementV::Query(q)]),
        other != name,
    ensures
        ({
            let (t, r) = sql::ran(depth, s, db, StatementV::CreateView { name, query }, ps, tx);
            &&& r is Ok
            &&& catalog::find(t.views, db, name) == Some(query)
            &&& catalog::find(t.views, db, other) == catalog::find(s.views, db, other)
            &&& t == (StateV { views: t.views, ..s })
        }),
{
    assoc::lemma_get_put(s.views.items, (db, name), query);
    assoc::lemma_get_put_other(s.views.items, (db, name), query, (db, other));
    assert(seq![StatementV::Query(q)][0] == StatementV::Query(q));
}

proof fn lemma_item_cell(items: Seq<SelectItemV>, row: RowV, ps: Seq<ValueV>, k: int, n: int)
    requires
        0 <= k < n <= items.len(),
        grouping::is_alone(items, k),
        forall|j: int| 0 <= j < items.len() ==> grouping::item_expr(#[trigger] items[j]) is Some,
    ensures
        assoc::assoc_get(select::projected(items, row, ps, n), select::shown_name(items[k])) == Some(
            expr::eval_v(grouping::item_expr(items[k])->0, Some(row), ps, select::item_placeholders(items, k)).0,
        ),
    decreases n,
{
    let name = select::shown_name(items[k]);
    let p = select::projected(items, row, ps, n - 1);
    let e = grouping::item_expr(items[n - 1])->0;
    let v = expr::eval_v(e, Some(row), ps, select::item_placeholders(items, n - 1)).0;
    assert(grouping::item_expr(items[n - 1]) is Some);
    if n - 1 == k {
        assoc::lemma_get_put(p, name, v);
    } else {
        lemma_item_cell(items, row, ps, k, n - 1);
        assert(select::shown_name(items[n - 1]) != name);
        assoc::lemma_get_put_other(p, select::shown_name(items[n - 1]), v, name);
    }
}

/// A query that neither groups nor sorts its rows answers with one row for each row that its
/// condition keeps, in their order, and in it stands under the name of each item the value of its
/// expression over that row.
pub proof fn lemma_shown_cells(s: StateV, db: u32, q: QueryV, select: SelectV, ps: Seq<ValueV>, base: Seq<RowV>, i: int, k: int)
    requires
        q.body == SetExprV::Select(select),
        q.order_by.len() == 0,
        q.limit is None,
        q.offset is None,
        !select.distinct,
        !select::is_grouped(select),
        select.projection.len() > 0,
        forall|j: int| 0 <= j < select.projection.len() ==> grouping::item_expr(#[trigger] select.projection[j]) is Some,
        select::from_rows(s.views.items.len(), s, db, select, ps) == Ok::<Seq<RowV>, ErrorV>(base),
    ensures
        ({
            let rows = select::selected(s.fts, db, base, select.selection, select::behind_from(select, ps));
            let items = select.projection;
            match select::query_result(s, db, q, ps) {
                Ok(a) => {
                    &&& a.rows.len() == rows.len()
                    &&& 0 <= i < rows.len() && 0 <= k < items.len() && grouping::is_alone(items, k) ==> assoc::assoc_get(
                        a.rows[i],
                        select::shown_name(items[k]),
                    ) == Some(
                        expr::eval_v(
                            grouping::item_expr(items[k])->0,
                            Some(rows[i]),
                            ps,
                            select::item_placeholders(items, k),
                        ).0,
                    )
                },
                Err(_) => false,
            }
        }),
{
    let rows = select::selected(s.fts, db, base, select.selection, select::behind_from(select, ps));
    let items = select.projection;
    answers::lemma_shaped(s, db, q, select, base, ps);
    assert(answers::unsorted(s, db, select, base, ps) == rows);
    assert(select::limited_rows(select::ordered_rows(rows, q.order_by, 0), q.limit, q.offset) =~= rows);
    assert(!select::takes_all(items)) by {
        assert(grouping::item_expr(items[0]) is Some);
        assert(items[0] != SelectItemV::Wildcard);
    }
    if 0 <= i < rows.len() && 0 <= k < items.len() && grouping::is_alone(items, k) {
        let n = items.len() as int;
        lemma_item_cell(items, rows[i], ps, k, n);
        assoc::lemma_get_remove_other(select::projected(items, rows[i], ps, n), "_rowid_"@, select::shown_name(items[k]));
        assert(select::query_result(s, db, q, ps)->Ok_0.rows[i] == answers::as_shown(select, ps, rows[i]));
    }
}

/// Each item of a select list reads the parameters behind those of the items before it.
pub proof fn lemma_item_parameters(items: Seq<SelectItemV>, k: int)
    requires
        0 <= k < items.len(),
    ensures
        select::item_placeholders(items, 0) == 0,
        select::item_placeholders(items, k + 1) == expr::count_sum(
            select::item_placeholders(items, k),
            match grouping::item_expr(items[k]) {
                Some(e) => expr::placeholders(e),
                None => 0,
            },
        ),
{
}

/// An answer names its columns: those of the items of the select list, in their order.
pub proof fn lemma_shown_names(s: StateV, db: u32, q: QueryV, select: SelectV, ps: Seq<ValueV>)
    requires
        q.body == SetExprV::Select(select),
        select.projection.len() > 0,
        forall|j: int| 0 <= j < select.projection.len() ==> grouping::item_expr(#[trigger] select.projection[j]) is Some,
    ensures
        match select::query_result(s, db, q, ps) {
            Ok(a) => {
                &&& a.columns.len() == select.projection.len()
                &&& forall|k: int|
                    0 <= k < select.projection.len() ==> #[trigger] a.columns[k] == (match select.projection[k] {
                        SelectItemV::Aliased { expr, alias } => alias,
                        SelectItemV::Unnamed { expr: ExprV::Identifier(c), text } => c,
                        SelectItemV::Unnamed { expr: ExprV::CompoundIdentifier(parts), text } => if parts.len() > 0 {
                            parts.last()
                        } else {
                            text
                        },
                        SelectItemV::Unnamed { expr, text } => text,
                        _ => Seq::empty(),
                    })
            },
            Err(_) => true,
        },
{
    let items = select.projection;
    assert(!select::shows_all(items)) by {
        assert forall|i: int| 0 <= i < items.len() implies !(#[trigger] items[i] is Wildcard || items[i] is QualifiedWildcard) by {
            assert(grouping::item_expr(items[i]) is Some);
        }
    }
    assert forall|k: int| 0 <= k < items.len() implies grouping::item_expr(items[k]) is Some by {}
}

/// A full-text condition holds of exactly the rows whose text has every word of the query that is
/// indexed; a query without such a word finds none.
pub proof fn lemma_full_text_condition(
    fts: CatalogV<FtsTableV>,
    db: u32,
    name: Seq<char>,
    distinct: bool,
    table: Seq<char>,
    words: Seq<char>,
    x: FtsTableV,
    m: Map<u64, RowV>,
    id: u64,
    ps: Seq<ValueV>,
    i: int,
)
    requires
        text::lowercase(name) == "fts_match"@,
        catalog::find(fts, db, table) == Some(x),
        searching::in_step(x, m),
        m.contains_key(id),
        id <= i64::MAX,
    ensures
        ({
            let quoted = FunctionArgV::Unnamed(ExprV::Value(LiteralV::SingleQuoted(words)));
            let by_name = seq![FunctionArgV::Unnamed(ExprV::Identifier(table)), quoted];
            let by_text = seq![FunctionArgV::Unnamed(ExprV::Value(LiteralV::SingleQuoted(table))), quoted];
            let row = select::with_rowid(id, m[id]);
            let found = fts::tokens(words).len() > 0 && forall|k: int|
                0 <= k < fts::tokens(words).len() ==> searching::has_token(
                    dml::fts_content(x, m[id]),
                    #[trigger] fts::tokens(words)[k],
                );
            &&& select::holds(fts, db, row, ExprV::Function { name, distinct, args: by_name }, ps, i).0 == found
            &&& select::holds(fts, db, row, ExprV::Function { name, distinct, args: by_text }, ps, i).0 == found
        }),
{
    searching::lemma_search_exact(x, m, words, id);
    assoc::lemma_get_put(m[id], "_rowid_"@, ValueV::Integer(id as i64));
}

/// DROP VIEW takes a view away and leaves all else.
pub proof fn lemma_drop_view(
    depth: nat,
    s: StateV,
    db: u32,
    name: Seq<char>,
    if_exists: bool,
    ps: Seq<ValueV>,
    tx: Option<u32>,
    other: Seq<char>,
)
    requires
        s.views.known.contains(db),
        assoc::assoc_distinct(s.views.items),
        other != name,
    ensures
        ({
            let stmt = StatementV::Drop { object: ObjectTypeV::View, if_exists, names: seq![name] };
            let (t, r) = sql::ran(depth, s, db, stmt, ps, tx);
            &&& r is Ok
            &&& catalog::find(t.views, db, name) is None
            &&& catalog::find(t.views, db, other) == catalog::find(s.views, db, other)
            &&& t == (StateV { views: t.views, ..s })
        }),
{
    let names = seq![name];
    assert(ddl::views_dropped(s, db, names, if_exists, 0) == (s, None::<ErrorV>));
    assert(names[0] == name);
    assoc::lemma_get_remove(s.views.items, (db, name));
    assoc::lemma_get_remove_other(s.views.items, (db, name), (db, other));
}

} // verus!

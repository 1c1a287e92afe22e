//! What queries come to: which rows a join has, and what sorting, telling apart and choosing do
//! to rows.
use vstd::prelude::*;

use crate::assoc;
use crate::ast::{ExprV, JoinConstraintV, JoinOperatorV, JoinV, OrderByExprV, TableRefV, TableWithJoinsV};
use crate::row::RowV;
use crate::schema;
use crate::schema::ValueV;
use crate::sql::select;
use crate::sql::select::JoinContextV;
use crate::state;
use crate::state::StateV;

verus! {

/// Whether a row of the join so far has a partner among the rows of the joined table.
pub open spec fn has_partner(j: JoinContextV, row1: RowV, rows2: Seq<RowV>) -> bool {
    exists|k: int| 0 <= k < rows2.len() && select::joins(j, row1, #[trigger] rows2[k])
}

/// Whether a row of the joined table has a partner among the rows of the join so far.
pub open spec fn is_partner(j: JoinContextV, rows1: Seq<RowV>, row2: RowV) -> bool {
    exists|i: int| 0 <= i < rows1.len() && select::joins(j, #[trigger] rows1[i], row2)
}

/// Whether a row is made of two rows that belong together.
pub open spec fn is_pair(j: JoinContextV, rows1: Seq<RowV>, rows2: Seq<RowV>, row: RowV) -> bool {
    exists|i: int, k: int|
        0 <= i < rows1.len() && 0 <= k < rows2.len() && row == select::pair(j, #[trigger] rows1[i], #[trigger] rows2[k]) && select::joins(j, rows1[i], rows2[k])
}

/// Whether a row is one of the join so far without a partner, padded.
pub open spec fn is_lone_left(j: JoinContextV, rows1: Seq<RowV>, rows2: Seq<RowV>, names: Seq<Seq<char>>, row: RowV) -> bool {
    exists|i: int| 0 <= i < rows1.len() && row == select::padded(j, #[trigger] rows1[i], names) && !has_partner(j, rows1[i], rows2)
}

/// Whether a row is one of the joined table without a partner, padded.
pub open spec fn is_lone_right(j: JoinContextV, rows1: Seq<RowV>, rows2: Seq<RowV>, row: RowV) -> bool {
    exists|k: int|
        0 <= k < rows2.len() && row == select::padded_right(j, rows1, #[trigger] rows2[k]) && !is_partner(j, rows1, rows2[k])
}

proof fn lemma_pairs_right(j: JoinContextV, row1: RowV, rows2: Seq<RowV>, n: int, row: RowV)
    requires
        0 <= n <= rows2.len(),
    ensures
        select::pairs_right(j, row1, rows2, n).contains(row) <==> exists|k: int|
            0 <= k < n && row == select::pair(j, row1, #[trigger] rows2[k]) && select::joins(j, row1, rows2[k]),
        select::pairs_right(j, row1, rows2, n).len() > 0 <==> exists|k: int|
            0 <= k < n && select::joins(j, row1, #[trigger] rows2[k]),
    decreases n,
{
    if n > 0 {
        lemma_pairs_right(j, row1, rows2, n - 1, row);
        let p = select::pairs_right(j, row1, rows2, n - 1);
        let q = select::pairs_right(j, row1, rows2, n);
        let x = select::pair(j, row1, rows2[n - 1]);
        if select::joins(j, row1, rows2[n - 1]) {
            assert(q == p.push(x));
            lemma_push_contains(p, x, row);
        }
        if exists|k: int| 0 <= k < n - 1 && select::joins(j, row1, #[trigger] rows2[k]) {
            let k = choose|k: int| 0 <= k < n - 1 && select::joins(j, row1, #[trigger] rows2[k]);
            assert(0 <= k < n && select::joins(j, row1, rows2[k]));
        }
    }
}

proof fn lemma_push_contains(p: Seq<RowV>, x: RowV, row: RowV)
    ensures
        p.push(x).contains(row) <==> p.contains(row) || row == x,
{
    let q = p.push(x);
    if p.contains(row) {
        let i = choose|i: int| 0 <= i < p.len() && p[i] == row;
        assert(q[i] == row);
    }
    if row == x {
        assert(q[p.len() as int] == row);
    }
}

proof fn lemma_add_contains(p: Seq<RowV>, q: Seq<RowV>, row: RowV)
    ensures
        (p + q).contains(row) <==> p.contains(row) || q.contains(row),
{
    let r = p + q;
    if p.contains(row) {
        let i = choose|i: int| 0 <= i < p.len() && p[i] == row;
        assert(r[i] == row);
    }
    if q.contains(row) {
        let i = choose|i: int| 0 <= i < q.len() && q[i] == row;
        assert(r[p.len() + i] == row);
    }
}

proof fn lemma_pairs_left(j: JoinContextV, rows1: Seq<RowV>, row2: RowV, n: int, row: RowV)
    requires
        0 <= n <= rows1.len(),
    ensures
        select::pairs_left(j, rows1, row2, n).contains(row) <==> exists|i: int|
            0 <= i < n && row == select::pair(j, #[trigger] rows1[i], row2) && select::joins(j, rows1[i], row2),
        select::pairs_left(j, rows1, row2, n).len() > 0 <==> exists|i: int|
            0 <= i < n && select::joins(j, #[trigger] rows1[i], row2),
    decreases n,
{
    if n > 0 {
        lemma_pairs_left(j, rows1, row2, n - 1, row);
        let p = select::pairs_left(j, rows1, row2, n - 1);
        let x = select::pair(j, rows1[n - 1], row2);
        if select::joins(j, rows1[n - 1], row2) {
            lemma_push_contains(p, x, row);
        }
        if exists|i: int| 0 <= i < n - 1 && select::joins(j, #[trigger] rows1[i], row2) {
            let i = choose|i: int| 0 <= i < n - 1 && select::joins(j, #[trigger] rows1[i], row2);
            assert(0 <= i < n && select::joins(j, rows1[i], row2));
        }
    }
}

proof fn lemma_inner_upto(j: JoinContextV, rows1: Seq<RowV>, rows2: Seq<RowV>, n: int, row: RowV)
    requires
        0 <= n <= rows1.len(),
    ensures
        select::inner_join(j, rows1, rows2, n).contains(row) <==> is_pair(j, rows1.take(n), rows2, row),
    decreases n,
{
    let t = rows1.take(n);
    if n > 0 {
        lemma_inner_upto(j, rows1, rows2, n - 1, row);
        let u = rows1.take(n - 1);
        let p = select::inner_join(j, rows1, rows2, n - 1);
        let q = select::pairs_right(j, rows1[n - 1], rows2, rows2.len() as int);
        lemma_pairs_right(j, rows1[n - 1], rows2, rows2.len() as int, row);
        lemma_add_contains(p, q, row);
        if is_pair(j, u, rows2, row) {
            let (i, k) = choose|i: int, k: int|
                0 <= i < u.len() && 0 <= k < rows2.len() && row == select::pair(j, #[trigger] u[i], #[trigger] rows2[k]) && select::joins(j, u[i], rows2[k]);
            assert(t[i] == u[i]);
            assert(row == select::pair(j, t[i], rows2[k]));
        }
        if q.contains(row) {
            let k = choose|k: int| 0 <= k < rows2.len() && row == select::pair(j, rows1[n - 1], #[trigger] rows2[k]) && select::joins(j, rows1[n - 1], rows2[k]);
            assert(t[n - 1] == rows1[n - 1]);
            assert(row == select::pair(j, t[n - 1], rows2[k]));
        }
        if is_pair(j, t, rows2, row) {
            let (i, k) = choose|i: int, k: int|
                0 <= i < t.len() && 0 <= k < rows2.len() && row == select::pair(j, #[trigger] t[i], #[trigger] rows2[k]) && select::joins(j, t[i], rows2[k]);
            if i < n - 1 {
                assert(u[i] == t[i]);
                assert(is_pair(j, u, rows2, row));
            } else {
                assert(row == select::pair(j, rows1[n - 1], rows2[k]));
            }
        }
    }
}

/// An inner join has exactly the pairs of rows that belong together.
pub proof fn lemma_inner_join(j: JoinContextV, rows1: Seq<RowV>, rows2: Seq<RowV>, row: RowV)
    ensures
        select::inner_join(j, rows1, rows2, rows1.len() as int).contains(row) <==> is_pair(j, rows1, rows2, row),
{
    lemma_inner_upto(j, rows1, rows2, rows1.len() as int, row);
    assert(rows1.take(rows1.len() as int) =~= rows1);
}

proof fn lemma_cross_upto(j: JoinContextV, rows1: Seq<RowV>, rows2: Seq<RowV>, n: int)
    requires
        j.constraint is Missing,
        0 <= n <= rows1.len(),
    ensures
        select::inner_join(j, rows1, rows2, n).len() == n * rows2.len(),
    decreases n,
{
    if n > 0 {
        lemma_cross_upto(j, rows1, rows2, n - 1);
        lemma_all_pairs(j, rows1[n - 1], rows2, rows2.len() as int);
        assert(n * rows2.len() == (n - 1) * rows2.len() + rows2.len()) by (nonlinear_arith);
    } else {
        assert(n * rows2.len() == 0) by (nonlinear_arith)
            requires
                n == 0,
        ;
    }
}

proof fn lemma_all_pairs(j: JoinContextV, row1: RowV, rows2: Seq<RowV>, n: int)
    requires
        j.constraint is Missing,
        0 <= n <= rows2.len(),
    ensures
        select::pairs_right(j, row1, rows2, n).len() == n,
    decreases n,
{
    if n > 0 {
        lemma_all_pairs(j, row1, rows2, n - 1);
    }
}

/// A cross join has every pair of rows.
pub proof fn lemma_cross_join(j: JoinContextV, rows1: Seq<RowV>, rows2: Seq<RowV>)
    requires
        j.constraint is Missing,
    ensures
        select::inner_join(j, rows1, rows2, rows1.len() as int).len() == rows1.len() * rows2.len(),
        forall|i: int, k: int|
            0 <= i < rows1.len() && 0 <= k < rows2.len() ==> select::inner_join(j, rows1, rows2, rows1.len() as int).contains(
                select::pair(j, #[trigger] rows1[i], #[trigger] rows2[k]),
            ),
{
    lemma_cross_upto(j, rows1, rows2, rows1.len() as int);
    assert forall|i: int, k: int| 0 <= i < rows1.len() && 0 <= k < rows2.len() implies select::inner_join(
        j,
        rows1,
        rows2,
        rows1.len() as int,
    ).contains(select::pair(j, #[trigger] rows1[i], #[trigger] rows2[k])) by {
        lemma_inner_join(j, rows1, rows2, select::pair(j, rows1[i], rows2[k]));
        assert(is_pair(j, rows1, rows2, select::pair(j, rows1[i], rows2[k])));
    }
}

/// The first `n` rows of the join so far that have no partner, padded.
pub open spec fn lone_left(j: JoinContextV, rows1: Seq<RowV>, rows2: Seq<RowV>, names: Seq<Seq<char>>, n: int) -> Seq<RowV>
    decreases n,
{
    if n <= 0 || n > rows1.len() {
        Seq::empty()
    } else {
        let p = lone_left(j, rows1, rows2, names, n - 1);
        if has_partner(j, rows1[n - 1], rows2) {
            p
        } else {
            p.push(select::padded(j, rows1[n - 1], names))
        }
    }
}

/// How many of the first `n` rows of the join so far have no partner.
pub open spec fn lone_count(j: JoinContextV, rows1: Seq<RowV>, rows2: Seq<RowV>, n: int) -> int
    decreases n,
{
    if n <= 0 || n > rows1.len() {
        0
    } else if has_partner(j, rows1[n - 1], rows2) {
        lone_count(j, rows1, rows2, n - 1)
    } else {
        lone_count(j, rows1, rows2, n - 1) + 1
    }
}

proof fn lemma_left_parts(j: JoinContextV, rows1: Seq<RowV>, rows2: Seq<RowV>, names: Seq<Seq<char>>, n: int)
    requires
        0 <= n <= rows1.len(),
    ensures
        select::left_join(j, rows1, rows2, names, n).to_multiset() == select::inner_join(j, rows1, rows2, n).to_multiset().add(
            lone_left(j, rows1, rows2, names, n).to_multiset(),
        ),
        select::left_join(j, rows1, rows2, names, n).len() == select::inner_join(j, rows1, rows2, n).len() + lone_count(
            j,
            rows1,
            rows2,
            n,
        ),
        lone_left(j, rows1, rows2, names, n).len() == lone_count(j, rows1, rows2, n),
    decreases n,
{
    broadcast use vstd::multiset::group_multiset_axioms;
    broadcast use vstd::seq_lib::group_to_multiset_ensures;

    let l = select::left_join(j, rows1, rows2, names, n);
    let i = select::inner_join(j, rows1, rows2, n);
    let o = lone_left(j, rows1, rows2, names, n);
    if n > 0 {
        lemma_left_parts(j, rows1, rows2, names, n - 1);
        let r = rows1[n - 1];
        let pl = select::left_join(j, rows1, rows2, names, n - 1);
        let pi = select::inner_join(j, rows1, rows2, n - 1);
        let po = lone_left(j, rows1, rows2, names, n - 1);
        let q = select::pairs_right(j, r, rows2, rows2.len() as int);
        lemma_pairs_right(j, r, rows2, rows2.len() as int, Seq::empty());
        assert((q.len() > 0) == has_partner(j, r, rows2));
        vstd::seq_lib::lemma_multiset_commutative(pl, q);
        vstd::seq_lib::lemma_multiset_commutative(pi, q);
        if q.len() == 0 {
            assert(pi + q =~= pi);
            assert(l.to_multiset() =~= i.to_multiset().add(o.to_multiset()));
        } else {
            assert(l.to_multiset() =~= i.to_multiset().add(o.to_multiset()));
        }
    } else {
        assert(l =~= Seq::empty() && i =~= Seq::empty() && o =~= Seq::empty());
        assert(l.to_multiset() =~= i.to_multiset().add(o.to_multiset()));
    }
}

/// A left outer join has the rows of the inner join, and one more for each row that has no
/// partner, each as often as it comes.
pub proof fn lemma_left_is_inner_and_lone(j: JoinContextV, rows1: Seq<RowV>, rows2: Seq<RowV>, names: Seq<Seq<char>>)
    ensures
        ({
            let n = rows1.len() as int;
            let l = select::left_join(j, rows1, rows2, names, n);
            let i = select::inner_join(j, rows1, rows2, n);
            let o = lone_left(j, rows1, rows2, names, n);
            &&& l.to_multiset() == i.to_multiset().add(o.to_multiset())
            &&& l.len() == i.len() + lone_count(j, rows1, rows2, n)
            &&& o.len() == lone_count(j, rows1, rows2, n)
        }),
{
    lemma_left_parts(j, rows1, rows2, names, rows1.len() as int);
}

/// A FROM list of two tables, joined in the given way.
pub open spec fn two_tables(a: TableRefV, b: TableRefV, operator: JoinOperatorV) -> Seq<TableWithJoinsV> {
    seq![TableWithJoinsV { relation: a, joins: seq![JoinV { relation: b, operator }] }]
}

/// The rows of the one table that have no partner in the other, padded.
pub open spec fn left_alone(s: StateV, db: u32, a: TableRefV, b: TableRefV, c: JoinConstraintV, ps: Seq<ValueV>) -> Seq<RowV> {
    match (state::table_rows(s, db, a.table), state::table_rows(s, db, b.table)) {
        (Some(m1), Some(m2)) => {
            let rows1 = select::first_rows(m1, a);
            let rows2 = select::plain_rows(m2);
            let join = JoinV { relation: b, operator: JoinOperatorV::LeftOuter(c) };
            lone_left(
                select::join_context(s, db, join, c, ps),
                rows1,
                rows2,
                select::padding(state::table_schema(s, db, b.table), rows2),
                rows1.len() as int,
            )
        },
        _ => Seq::empty(),
    }
}

/// `a LEFT JOIN b` fails where `a JOIN b` fails, and else has its rows and one more for each row
/// of `a` without a partner in `b`, each as often as it comes.
pub proof fn lemma_left_and_inner(s: StateV, db: u32, a: TableRefV, b: TableRefV, c: JoinConstraintV, ps: Seq<ValueV>)
    ensures
        match (
            select::joined_rows(s, db, two_tables(a, b, JoinOperatorV::LeftOuter(c)), ps),
            select::joined_rows(s, db, two_tables(a, b, JoinOperatorV::Inner(c)), ps),
        ) {
            (Ok(l), Ok(i)) => {
                let lone = left_alone(s, db, a, b, c, ps);
                &&& l.to_multiset() == i.to_multiset().add(lone.to_multiset())
                &&& l.len() == i.len() + lone.len()
            },
            (Err(e), Err(f)) => e == f,
            _ => false,
        },
{
    let op1 = JoinOperatorV::LeftOuter(c);
    let op2 = JoinOperatorV::Inner(c);
    let j1 = JoinV { relation: b, operator: op1 };
    let j2 = JoinV { relation: b, operator: op2 };
    let js1 = two_tables(a, b, op1)[0].joins;
    let js2 = two_tables(a, b, op2)[0].joins;
    match state::table_rows(s, db, a.table) {
        Some(m1) => {
            let rows1 = select::first_rows(m1, a);
            reveal_with_fuel(select::joined_upto, 2);
            assert(select::join_placeholders(js1, 0) == 0 && select::join_placeholders(js2, 0) == 0);
            assert(select::params_from(ps, 0) == ps);
            assert(select::joined_upto(s, db, rows1, js1, ps, 1) == select::join_step(s, db, rows1, j1, ps));
            assert(select::joined_upto(s, db, rows1, js2, ps, 1) == select::join_step(s, db, rows1, j2, ps));
            match state::table_rows(s, db, b.table) {
                Some(m2) => {
                    let rows2 = select::plain_rows(m2);
                    let j = select::join_context(s, db, j1, c, ps);
                    assert(j == select::join_context(s, db, j2, c, ps));
                    let names = select::padding(state::table_schema(s, db, b.table), rows2);
                    lemma_left_is_inner_and_lone(j, rows1, rows2, names);
                },
                None => {},
            }
        },
        None => {},
    }
}

proof fn lemma_padded_upto(row1: RowV, name: Seq<char>, names: Seq<Seq<char>>, n: int, k: int)
    requires
        0 <= k < n <= names.len(),
    ensures
        assoc::assoc_get(select::merged(row1, name, select::nulls(names), n), select::qualified(name, names[k])) == Some(
            ValueV::Null,
        ),
    decreases n,
{
    let cells = select::nulls(names);
    let m = select::merged(row1, name, cells, n - 1);
    let q = select::qualified(name, names[n - 1]);
    let key = select::qualified(name, names[k]);
    let p = assoc::assoc_put(m, q, ValueV::Null);
    assert(cells[n - 1] == (names[n - 1], ValueV::Null));
    assoc::lemma_get_put(m, q, ValueV::Null);
    if k < n - 1 {
        lemma_padded_upto(row1, name, names, n - 1, k);
        if key != q {
            assoc::lemma_get_put_other(m, q, ValueV::Null, key);
        }
    }
    if assoc::assoc_get(p, names[n - 1]) is None {
        assoc::lemma_get_put_other(p, names[n - 1], ValueV::Null, key);
    }
}

proof fn lemma_kept_upto(row1: RowV, name: Seq<char>, names: Seq<Seq<char>>, n: int, key: Seq<char>)
    requires
        0 <= n <= names.len(),
        assoc::assoc_get(row1, key) is Some,
        forall|k: int| 0 <= k < names.len() ==> select::qualified(name, #[trigger] names[k]) != key,
    ensures
        assoc::assoc_get(select::merged(row1, name, select::nulls(names), n), key) == assoc::assoc_get(row1, key),
    decreases n,
{
    if n > 0 {
        lemma_kept_upto(row1, name, names, n - 1, key);
        let cells = select::nulls(names);
        let m = select::merged(row1, name, cells, n - 1);
        let q = select::qualified(name, names[n - 1]);
        let p = assoc::assoc_put(m, q, ValueV::Null);
        assert(cells[n - 1] == (names[n - 1], ValueV::Null));
        assoc::lemma_get_put_other(m, q, ValueV::Null, key);
        if assoc::assoc_get(p, names[n - 1]) is None {
            assoc::lemma_get_put_other(p, names[n - 1], ValueV::Null, key);
        }
    }
}

/// A row without a partner has a null for each column of the joined table, and keeps what it has
/// under every name that is not a qualified one of that table.
pub proof fn lemma_padded(j: JoinContextV, row1: RowV, names: Seq<Seq<char>>)
    ensures
        forall|k: int|
            0 <= k < names.len() ==> assoc::assoc_get(
                select::padded(j, row1, names),
                select::qualified(j.name, #[trigger] names[k]),
            ) == Some(ValueV::Null),
        forall|key: Seq<char>|
            assoc::assoc_get(row1, key) is Some && (forall|k: int|
                0 <= k < names.len() ==> select::qualified(j.name, #[trigger] names[k]) != key) ==> #[trigger] assoc::assoc_get(
                select::padded(j, row1, names),
                key,
            ) == assoc::assoc_get(row1, key),
{
    assert forall|k: int| 0 <= k < names.len() implies assoc::assoc_get(
        select::padded(j, row1, names),
        select::qualified(j.name, #[trigger] names[k]),
    ) == Some(ValueV::Null) by {
        lemma_padded_upto(row1, j.name, names, names.len() as int, k);
    }
    assert forall|key: Seq<char>|
        assoc::assoc_get(row1, key) is Some && (forall|k: int|
            0 <= k < names.len() ==> select::qualified(j.name, #[trigger] names[k]) != key) implies #[trigger] assoc::assoc_get(
        select::padded(j, row1, names),
        key,
    ) == assoc::assoc_get(row1, key) by {
        lemma_kept_upto(row1, j.name, names, names.len() as int, key);
    }
}

proof fn lemma_left_upto(
    j: JoinContextV,
    rows1: Seq<RowV>,
    rows2: Seq<RowV>,
    names: Seq<Seq<char>>,
    n: int,
    row: RowV,
)
    requires
        0 <= n <= rows1.len(),
    ensures
        select::left_join(j, rows1, rows2, names, n).contains(row) <==> is_pair(j, rows1.take(n), rows2, row) || is_lone_left(
            j,
            rows1.take(n),
            rows2,
            names,
            row,
        ),
        select::left_join(j, rows1, rows2, names, n).len() >= n,
    decreases n,
{
    let t = rows1.take(n);
    if n > 0 {
        lemma_left_upto(j, rows1, rows2, names, n - 1, row);
        let u = rows1.take(n - 1);
        let r = rows1[n - 1];
        let p = select::left_join(j, rows1, rows2, names, n - 1);
        let q = select::pairs_right(j, r, rows2, rows2.len() as int);
        lemma_pairs_right(j, r, rows2, rows2.len() as int, row);
        lemma_add_contains(p, q, row);
        lemma_push_contains(p, select::padded(j, r, names), row);
        assert(t[n - 1] == r);
        assert((q.len() > 0) == has_partner(j, r, rows2));
        if is_pair(j, u, rows2, row) {
            let (i, k) = choose|i: int, k: int|
                0 <= i < u.len() && 0 <= k < rows2.len() && row == select::pair(j, #[trigger] u[i], #[trigger] rows2[k]) && select::joins(j, u[i], rows2[k]);
            assert(t[i] == u[i]);
            assert(row == select::pair(j, t[i], rows2[k]));
        }
        if is_lone_left(j, u, rows2, names, row) {
            let i = choose|i: int|
                0 <= i < u.len() && row == select::padded(j, #[trigger] u[i], names) && !has_partner(j, u[i], rows2);
            assert(t[i] == u[i]);
        }
        if q.contains(row) {
            let k = choose|k: int| 0 <= k < rows2.len() && row == select::pair(j, r, #[trigger] rows2[k]) && select::joins(j, r, rows2[k]);
            assert(row == select::pair(j, t[n - 1], rows2[k]));
        }
        if is_pair(j, t, rows2, row) {
            let (i, k) = choose|i: int, k: int|
                0 <= i < t.len() && 0 <= k < rows2.len() && row == select::pair(j, #[trigger] t[i], #[trigger] rows2[k]) && select::joins(j, t[i], rows2[k]);
            if i < n - 1 {
                assert(u[i] == t[i]);
                assert(is_pair(j, u, rows2, row));
            } else {
                assert(row == select::pair(j, r, rows2[k]));
            }
        }
        if is_lone_left(j, t, rows2, names, row) {
            let i = choose|i: int|
                0 <= i < t.len() && row == select::padded(j, #[trigger] t[i], names) && !has_partner(j, t[i], rows2);
            if i < n - 1 {
                assert(u[i] == t[i]);
                assert(is_lone_left(j, u, rows2, names, row));
            }
        }
    }
}

/// A left join has the pairs of rows that belong together, and every row on the left without a
/// partner, padded. So no row on the left is lost.
pub proof fn lemma_left_join(j: JoinContextV, rows1: Seq<RowV>, rows2: Seq<RowV>, names: Seq<Seq<char>>, row: RowV)
    ensures
        select::left_join(j, rows1, rows2, names, rows1.len() as int).contains(row) <==> is_pair(j, rows1, rows2, row)
            || is_lone_left(j, rows1, rows2, names, row),
        select::left_join(j, rows1, rows2, names, rows1.len() as int).len() >= rows1.len(),
{
    lemma_left_upto(j, rows1, rows2, names, rows1.len() as int, row);
    assert(rows1.take(rows1.len() as int) =~= rows1);
}

proof fn lemma_right_upto(j: JoinContextV, rows1: Seq<RowV>, rows2: Seq<RowV>, n: int, row: RowV)
    requires
        0 <= n <= rows2.len(),
    ensures
        select::right_join(j, rows1, rows2, n).contains(row) <==> is_pair(j, rows1, rows2.take(n), row) || is_lone_right(
            j,
            rows1,
            rows2.take(n),
            row,
        ),
        select::right_join(j, rows1, rows2, n).len() >= n,
        select::lone_right(j, rows1, rows2, n).contains(row) <==> is_lone_right(j, rows1, rows2.take(n), row),
    decreases n,
{
    let t = rows2.take(n);
    if n > 0 {
        lemma_right_upto(j, rows1, rows2, n - 1, row);
        let u = rows2.take(n - 1);
        let r = rows2[n - 1];
        let p = select::right_join(j, rows1, rows2, n - 1);
        let q = select::pairs_left(j, rows1, r, rows1.len() as int);
        lemma_pairs_left(j, rows1, r, rows1.len() as int, row);
        lemma_add_contains(p, q, row);
        lemma_push_contains(p, select::padded_right(j, rows1, r), row);
        lemma_push_contains(select::lone_right(j, rows1, rows2, n - 1), select::padded_right(j, rows1, r), row);
        assert(t[n - 1] == r);
        assert((q.len() > 0) == is_partner(j, rows1, r));
        if is_pair(j, rows1, u, row) {
            let (i, k) = choose|i: int, k: int|
                0 <= i < rows1.len() && 0 <= k < u.len() && row == select::pair(j, #[trigger] rows1[i], #[trigger] u[k]) && select::joins(j, rows1[i], u[k]);
            assert(t[k] == u[k]);
            assert(row == select::pair(j, rows1[i], t[k]));
        }
        if is_lone_right(j, rows1, u, row) {
            let k = choose|k: int|
                0 <= k < u.len() && row == select::padded_right(j, rows1, #[trigger] u[k]) && !is_partner(j, rows1, u[k]);
            assert(t[k] == u[k]);
        }
        if q.contains(row) {
            let i = choose|i: int| 0 <= i < rows1.len() && row == select::pair(j, #[trigger] rows1[i], r) && select::joins(j, rows1[i], r);
            assert(row == select::pair(j, rows1[i], t[n - 1]));
        }
        if is_pair(j, rows1, t, row) {
            let (i, k) = choose|i: int, k: int|
                0 <= i < rows1.len() && 0 <= k < t.len() && row == select::pair(j, #[trigger] rows1[i], #[trigger] t[k]) && select::joins(j, rows1[i], t[k]);
            if k < n - 1 {
                assert(u[k] == t[k]);
                assert(is_pair(j, rows1, u, row));
            } else {
                assert(row == select::pair(j, rows1[i], r));
            }
        }
        if is_lone_right(j, rows1, t, row) {
            let k = choose|k: int|
                0 <= k < t.len() && row == select::padded_right(j, rows1, #[trigger] t[k]) && !is_partner(j, rows1, t[k]);
            if k < n - 1 {
                assert(u[k] == t[k]);
                assert(is_lone_right(j, rows1, u, row));
            }
        }
    }
}

/// A right join has the pairs of rows that belong together, and every row on the right without a
/// partner, padded. So no row on the right is lost.
pub proof fn lemma_right_join(j: JoinContextV, rows1: Seq<RowV>, rows2: Seq<RowV>, row: RowV)
    ensures
        select::right_join(j, rows1, rows2, rows2.len() as int).contains(row) <==> is_pair(j, rows1, rows2, row) || is_lone_right(
            j,
            rows1,
            rows2,
            row,
        ),
        select::right_join(j, rows1, rows2, rows2.len() as int).len() >= rows2.len(),
{
    lemma_right_upto(j, rows1, rows2, rows2.len() as int, row);
    assert(rows2.take(rows2.len() as int) =~= rows2);
}

/// A full join has the pairs of rows that belong together, and every row of either side without
/// a partner, padded.
pub proof fn lemma_full_join(j: JoinContextV, rows1: Seq<RowV>, rows2: Seq<RowV>, names: Seq<Seq<char>>, row: RowV)
    ensures
        (select::left_join(j, rows1, rows2, names, rows1.len() as int) + select::lone_right(j, rows1, rows2, rows2.len() as int)).contains(
            row,
        ) <==> is_pair(j, rows1, rows2, row) || is_lone_left(j, rows1, rows2, names, row) || is_lone_right(
            j,
            rows1,
            rows2,
            row,
        ),
{
    lemma_left_join(j, rows1, rows2, names, row);
    lemma_right_upto(j, rows1, rows2, rows2.len() as int, row);
    assert(rows2.take(rows2.len() as int) =~= rows2);
    lemma_add_contains(
        select::left_join(j, rows1, rows2, names, rows1.len() as int),
        select::lone_right(j, rows1, rows2, rows2.len() as int),
        row,
    );
}

/// Whether rows stand in the order of a key.
pub open spec fn is_sorted(e: ExprV, asc: bool, rows: Seq<RowV>) -> bool {
    forall|a: int, b: int| 0 <= a <= b < rows.len() ==> select::row_order(e, asc, #[trigger] rows[a], #[trigger] rows[b]) <= 0
}

proof fn lemma_row_order(e: ExprV, asc: bool, a: RowV, b: RowV, c: RowV)
    ensures
        select::row_order(e, asc, a, a) == 0,
        select::row_order(e, asc, a, b) == -select::row_order(e, asc, b, a),
        select::row_order(e, asc, a, b) <= 0 && select::row_order(e, asc, b, c) <= 0 ==> select::row_order(e, asc, a, c) <= 0,
{
    let x = select::sort_key(e, a);
    let y = select::sort_key(e, b);
    let z = select::sort_key(e, c);
    schema::lemma_order_reflexive(x);
    schema::lemma_order_reverse(x, y);
    schema::lemma_order_reverse(y, z);
    schema::lemma_order_reverse(x, z);
    if asc {
        if schema::value_order(x, y) <= 0 && schema::value_order(y, z) <= 0 {
            schema::lemma_order_transitive(x, y, z);
        }
    } else {
        if schema::value_order(y, x) <= 0 && schema::value_order(z, y) <= 0 {
            schema::lemma_order_transitive(z, y, x);
        }
    }
}

proof fn lemma_sorted_place(e: ExprV, asc: bool, rows: Seq<RowV>, row: RowV, n: int)
    requires
        0 <= n <= rows.len(),
    ensures
        0 <= select::sorted_place(e, asc, rows, row, n) <= n,
        forall|k: int| select::sorted_place(e, asc, rows, row, n) <= k < n ==> select::row_order(e, asc, #[trigger] rows[k], row) > 0,
        select::sorted_place(e, asc, rows, row, n) > 0 ==> select::row_order(
            e,
            asc,
            rows[select::sorted_place(e, asc, rows, row, n) - 1],
            row,
        ) <= 0,
    decreases n,
{
    if n > 0 && select::row_order(e, asc, rows[n - 1], row) > 0 {
        lemma_sorted_place(e, asc, rows, row, n - 1);
    }
}

proof fn lemma_insert_between(le: spec_fn(RowV, RowV) -> bool, p: Seq<RowV>, at: int, row: RowV)
    requires
        0 <= at <= p.len(),
        le(row, row),
        forall|a: int, b: int| 0 <= a <= b < p.len() ==> le(#[trigger] p[a], #[trigger] p[b]),
        forall|k: int| 0 <= k < at ==> le(#[trigger] p[k], row),
        forall|k: int| at <= k < p.len() ==> le(row, #[trigger] p[k]),
    ensures
        forall|a: int, b: int|
            0 <= a <= b < p.insert(at, row).len() ==> le(#[trigger] p.insert(at, row)[a], #[trigger] p.insert(at, row)[b]),
{
    let q = p.insert(at, row);
    assert forall|a: int, b: int| 0 <= a <= b < q.len() implies le(#[trigger] q[a], #[trigger] q[b]) by {
        let x = if a < at {
            a
        } else {
            a - 1
        };
        let y = if b < at {
            b
        } else {
            b - 1
        };
        assert(a != at ==> q[a] == p[x]);
        assert(b != at ==> q[b] == p[y]);
    }
}

proof fn lemma_insert_sorted(e: ExprV, asc: bool, p: Seq<RowV>, row: RowV)
    requires
        is_sorted(e, asc, p),
    ensures
        is_sorted(e, asc, p.insert(select::sorted_place(e, asc, p, row, p.len() as int), row)),
{
    let at = select::sorted_place(e, asc, p, row, p.len() as int);
    let le = |a: RowV, b: RowV| select::row_order(e, asc, a, b) <= 0;
    lemma_sorted_place(e, asc, p, row, p.len() as int);
    lemma_row_order(e, asc, row, row, row);
    assert forall|a: int, b: int| 0 <= a <= b < p.len() implies le(#[trigger] p[a], #[trigger] p[b]) by {
        assert(select::row_order(e, asc, p[a], p[b]) <= 0);
    }
    assert forall|k: int| 0 <= k < at implies le(#[trigger] p[k], row) by {
        assert(select::row_order(e, asc, p[k], p[at - 1]) <= 0);
        lemma_row_order(e, asc, p[k], p[at - 1], row);
    }
    assert forall|k: int| at <= k < p.len() implies le(row, #[trigger] p[k]) by {
        assert(select::row_order(e, asc, p[k], row) > 0);
        lemma_row_order(e, asc, p[k], row, row);
    }
    lemma_insert_between(le, p, at, row);
    let q = p.insert(at, row);
    assert forall|a: int, b: int| 0 <= a <= b < q.len() implies select::row_order(
        e,
        asc,
        #[trigger] q[a],
        #[trigger] q[b],
    ) <= 0 by {
        assert(le(q[a], q[b]));
    }
}

/// To sort by a key puts the rows in its order, and neither loses nor adds one.
pub proof fn lemma_sorted(e: ExprV, asc: bool, rows: Seq<RowV>, n: int)
    requires
        0 <= n <= rows.len(),
    ensures
        is_sorted(e, asc, select::sorted_upto(e, asc, rows, n)),
        select::sorted_upto(e, asc, rows, n).to_multiset() == rows.take(n).to_multiset(),
    decreases n,
{
    if n == 0 {
        assert(rows.take(0) =~= select::sorted_upto(e, asc, rows, 0));
    } else {
        lemma_sorted(e, asc, rows, n - 1);
        let p = select::sorted_upto(e, asc, rows, n - 1);
        let row = rows[n - 1];
        let at = select::sorted_place(e, asc, p, row, p.len() as int);
        lemma_sorted_place(e, asc, p, row, p.len() as int);
        lemma_insert_sorted(e, asc, p, row);
        lemma_insert_multiset(p, at, row);
        let t = rows.take(n - 1);
        assert(rows.take(n) =~= t.insert(n - 1, row));
        lemma_insert_multiset(t, n - 1, row);
    }
}

proof fn lemma_insert_multiset(p: Seq<RowV>, at: int, row: RowV)
    requires
        0 <= at <= p.len(),
    ensures
        p.insert(at, row).to_multiset() == p.to_multiset().insert(row),
{
    let a = p.take(at);
    let b = p.skip(at);
    assert(p =~= a + b);
    assert(p.insert(at, row) =~= a.push(row) + b);
    vstd::seq_lib::lemma_multiset_commutative(a, b);
    vstd::seq_lib::lemma_multiset_commutative(a.push(row), b);
    a.to_multiset_ensures();
    assert(p.insert(at, row).to_multiset() =~= p.to_multiset().insert(row));
}

/// An ORDER BY neither loses nor adds a row, and its first key orders the result.
pub proof fn lemma_ordered(rows: Seq<RowV>, keys: Seq<OrderByExprV>, n: int)
    requires
        0 <= n <= keys.len(),
    ensures
        select::ordered_rows(rows, keys, n).to_multiset() == rows.to_multiset(),
        n < keys.len() ==> is_sorted(keys[n].expr, select::is_ascending(keys[n]), select::ordered_rows(rows, keys, n)),
    decreases keys.len() - n,
{
    if n < keys.len() {
        lemma_ordered(rows, keys, n + 1);
        let p = select::ordered_rows(rows, keys, n + 1);
        lemma_sorted(keys[n].expr, select::is_ascending(keys[n]), p, p.len() as int);
        assert(p.take(p.len() as int) =~= p);
    }
}

/// How two rows stand to each other by the keys from `n` on: by the first that tells them apart.
pub open spec fn keys_order(keys: Seq<OrderByExprV>, n: int, a: RowV, b: RowV) -> int
    decreases keys.len() - n,
{
    if n < 0 || n >= keys.len() {
        0
    } else {
        let o = select::row_order(keys[n].expr, select::is_ascending(keys[n]), a, b);
        if o == 0 {
            keys_order(keys, n + 1, a, b)
        } else {
            o
        }
    }
}

/// Whether rows are other rows, each taken once from the given place.
pub open spec fn is_arranged(out: Seq<RowV>, rows: Seq<RowV>, from: Seq<int>) -> bool {
    &&& out.len() == rows.len()
    &&& from.len() == rows.len()
    &&& from.no_duplicates()
    &&& forall|i: int| 0 <= i < from.len() ==> 0 <= #[trigger] from[i] < rows.len() && out[i] == rows[from[i]]
}

/// Whether the row at `x` goes before the one at `y` by the keys from `n` on: it comes before it,
/// or stands level with it and came first.
#[verifier::opaque]
pub open spec fn goes_before(rows: Seq<RowV>, keys: Seq<OrderByExprV>, n: int, x: int, y: int) -> bool {
    let o = keys_order(keys, n, rows[x], rows[y]);
    o < 0 || (o == 0 && x < y)
}

/// Whether each row goes before those that stand behind it.
pub open spec fn is_in_order(rows: Seq<RowV>, from: Seq<int>, keys: Seq<OrderByExprV>, n: int) -> bool {
    forall|a: int, b: int| 0 <= a < b < from.len() ==> goes_before(rows, keys, n, #[trigger] from[a], #[trigger] from[b])
}

/// The same by one key.
#[verifier::opaque]
spec fn sorts_before(e: ExprV, asc: bool, rows: Seq<RowV>, x: int, y: int) -> bool {
    let o = select::row_order(e, asc, rows[x], rows[y]);
    o < 0 || (o == 0 && x < y)
}

/// From where the first `n` rows sorted by one key come.
spec fn sorted_from(e: ExprV, asc: bool, rows: Seq<RowV>, n: int) -> Seq<int>
    decreases n,
{
    if n <= 0 || n > rows.len() {
        Seq::empty()
    } else {
        let p = select::sorted_upto(e, asc, rows, n - 1);
        sorted_from(e, asc, rows, n - 1).insert(select::sorted_place(e, asc, p, rows[n - 1], p.len() as int), n - 1)
    }
}

/// Whether the places are different, all below `n`, and each goes before those behind it.
spec fn is_line(before: spec_fn(int, int) -> bool, f: Seq<int>, n: int) -> bool {
    &&& f.len() == n
    &&& f.no_duplicates()
    &&& forall|i: int| 0 <= i < f.len() ==> 0 <= #[trigger] f[i] < n
    &&& forall|a: int, b: int| 0 <= a < b < f.len() ==> before(#[trigger] f[a], #[trigger] f[b])
}

proof fn lemma_line_insert(before: spec_fn(int, int) -> bool, g: Seq<int>, at: int, n: int)
    requires
        is_line(before, g, n),
        0 <= at <= n,
        forall|k: int| 0 <= k < at ==> before(#[trigger] g[k], n),
        forall|k: int| at <= k < n ==> before(n, #[trigger] g[k]),
    ensures
        is_line(before, g.insert(at, n), n + 1),
{
    let f = g.insert(at, n);
    assert forall|i: int| 0 <= i < f.len() implies 0 <= #[trigger] f[i] < n + 1 by {
        if i < at {
            assert(f[i] == g[i]);
        } else if i > at {
            assert(f[i] == g[i - 1]);
        }
    }
    assert forall|a: int, b: int| 0 <= a < b < f.len() implies before(#[trigger] f[a], #[trigger] f[b]) && f[a] != f[b] by {
        let x = if a < at {
            a
        } else {
            a - 1
        };
        let y = if b < at {
            b
        } else {
            b - 1
        };
        if a != at {
            assert(f[a] == g[x]);
        }
        if b != at {
            assert(f[b] == g[y]);
        }
    }
    assert(f.no_duplicates()) by {
        assert forall|a: int, b: int| 0 <= a < f.len() && 0 <= b < f.len() && a != b implies f[a] != f[b] by {
            if a < b {
                assert(before(f[a], f[b]) && f[a] != f[b]);
            } else {
                assert(before(f[b], f[a]) && f[b] != f[a]);
            }
        }
    }
}

proof fn lemma_sorted_from(e: ExprV, asc: bool, rows: Seq<RowV>, n: int)
    requires
        0 <= n <= rows.len(),
    ensures
        select::sorted_upto(e, asc, rows, n).len() == n,
        is_line(|x: int, y: int| sorts_before(e, asc, rows, x, y), sorted_from(e, asc, rows, n), n),
        forall|i: int|
            0 <= i < n ==> select::sorted_upto(e, asc, rows, n)[i] == rows[#[trigger] sorted_from(e, asc, rows, n)[i]],
    decreases n,
{
    if n > 0 {
        lemma_sorted_from(e, asc, rows, n - 1);
        lemma_sorted(e, asc, rows, n - 1);
        let before = |x: int, y: int| sorts_before(e, asc, rows, x, y);
        let p = select::sorted_upto(e, asc, rows, n - 1);
        let g = sorted_from(e, asc, rows, n - 1);
        let row = rows[n - 1];
        let at = select::sorted_place(e, asc, p, row, p.len() as int);
        lemma_sorted_place(e, asc, p, row, p.len() as int);
        assert forall|k: int| 0 <= k < at implies before(#[trigger] g[k], n - 1) by {
            assert(select::row_order(e, asc, p[k], p[at - 1]) <= 0);
            lemma_row_order(e, asc, p[k], p[at - 1], row);
            assert(p[k] == rows[g[k]]);
            reveal(sorts_before);
        }
        assert forall|k: int| at <= k < n - 1 implies before(n - 1, #[trigger] g[k]) by {
            assert(select::row_order(e, asc, p[k], row) > 0);
            lemma_row_order(e, asc, p[k], row, row);
            assert(p[k] == rows[g[k]]);
            reveal(sorts_before);
        }
        lemma_line_insert(before, g, at, n - 1);
        let f = g.insert(at, n - 1);
        let q = p.insert(at, row);
        assert forall|i: int| 0 <= i < n implies q[i] == rows[#[trigger] f[i]] by {
            if i < at {
                assert(f[i] == g[i] && q[i] == p[i]);
            } else if i > at {
                assert(f[i] == g[i - 1] && q[i] == p[i - 1]);
            }
        }
    }
}

/// An ORDER BY takes each row once, orders by its first key, rows that are level there by the
/// next and so on, and leaves rows that are level by all keys in the order in which they came.
/// What it returns is from where each row was taken.
pub proof fn lemma_ordered_stably(rows: Seq<RowV>, keys: Seq<OrderByExprV>, n: int) -> (from: Seq<int>)
    requires
        0 <= n <= keys.len(),
    ensures
        is_arranged(select::ordered_rows(rows, keys, n), rows, from),
        is_in_order(rows, from, keys, n),
    decreases keys.len() - n,
{
    if n >= keys.len() {
        let from = Seq::new(rows.len(), |i: int| i);
        assert forall|a: int, b: int| 0 <= a < b < from.len() implies goes_before(
            rows,
            keys,
            n,
            #[trigger] from[a],
            #[trigger] from[b],
        ) by {
            reveal(goes_before);
        }
        from
    } else {
        let before = lemma_ordered_stably(rows, keys, n + 1);
        let p = select::ordered_rows(rows, keys, n + 1);
        let asc = select::is_ascending(keys[n]);
        let e = keys[n].expr;
        let m = p.len() as int;
        lemma_sorted_from(e, asc, p, m);
        let g = sorted_from(e, asc, p, m);
        let out = select::ordered_rows(rows, keys, n);
        let from = Seq::new(g.len(), |i: int| before[g[i]]);
        assert forall|i: int| 0 <= i < from.len() implies 0 <= #[trigger] from[i] < rows.len() && out[i] == rows[from[i]] by {
            assert(0 <= g[i] < m);
            assert(out[i] == p[g[i]]);
            assert(0 <= before[g[i]] < rows.len() && p[g[i]] == rows[before[g[i]]]);
        }
        assert forall|a: int, b: int| 0 <= a < from.len() && 0 <= b < from.len() && a != b implies from[a] != from[b] by {
            assert(g[a] != g[b]);
            assert(0 <= g[a] < m && 0 <= g[b] < m);
        }
        assert forall|a: int, b: int| 0 <= a < b < from.len() implies goes_before(
            rows,
            keys,
            n,
            #[trigger] from[a],
            #[trigger] from[b],
        ) by {
            assert(sorts_before(e, asc, p, g[a], g[b]));
            assert(0 <= g[a] < m && 0 <= g[b] < m);
            lemma_key_goes_first(rows, keys, n, p, before, g[a], g[b]);
        }
        from
    }
}

proof fn lemma_key_goes_first(
    rows: Seq<RowV>,
    keys: Seq<OrderByExprV>,
    n: int,
    p: Seq<RowV>,
    before: Seq<int>,
    x: int,
    y: int,
)
    requires
        0 <= n < keys.len(),
        is_arranged(p, rows, before),
        is_in_order(rows, before, keys, n + 1),
        0 <= x < p.len(),
        0 <= y < p.len(),
        sorts_before(keys[n].expr, select::is_ascending(keys[n]), p, x, y),
    ensures
        goes_before(rows, keys, n, before[x], before[y]),
{
    reveal(sorts_before);
    assert(p[x] == rows[before[x]] && p[y] == rows[before[y]]);
    if x < y {
        assert(goes_before(rows, keys, n + 1, before[x], before[y]));
    }
    reveal(goes_before);
}

proof fn lemma_distinct_upto(rows: Seq<RowV>, n: int)
    requires
        0 <= n <= rows.len(),
    ensures
        forall|a: int, b: int|
            0 <= a < b < select::distinct_upto(rows, n).len() ==> select::row_identity(#[trigger] select::distinct_upto(rows, n)[a]) != select::row_identity(
                #[trigger] select::distinct_upto(rows, n)[b],
            ),
        forall|k: int| 0 <= k < n ==> !select::is_new(select::distinct_upto(rows, n), #[trigger] rows[k]),
        forall|a: int| 0 <= a < select::distinct_upto(rows, n).len() ==> rows.contains(#[trigger] select::distinct_upto(rows, n)[a]),
    decreases n,
{
    if n > 0 {
        lemma_distinct_upto(rows, n - 1);
        let p = select::distinct_upto(rows, n - 1);
        let q = select::distinct_upto(rows, n);
        let row = rows[n - 1];
        if select::is_new(p, row) {
            assert(q == p.push(row));
            assert(q[p.len() as int] == row);
        }
        assert forall|k: int| 0 <= k < n implies !select::is_new(q, #[trigger] rows[k]) by {
            if k < n - 1 || !select::is_new(p, row) {
                assert(!select::is_new(p, rows[k]));
                let a = choose|a: int| 0 <= a < p.len() && select::row_identity(#[trigger] p[a]) == select::row_identity(rows[k]);
                assert(q[a] == p[a]);
            } else {
                assert(select::row_identity(q[p.len() as int]) == select::row_identity(rows[k]));
            }
        }
        assert forall|a: int| 0 <= a < q.len() implies rows.contains(#[trigger] q[a]) by {
            if a < p.len() {
                assert(q[a] == p[a]);
                assert(rows.contains(p[a]));
            } else {
                assert(rows[n - 1] == q[a]);
            }
        }
    }
}

/// A DISTINCT keeps no two rows that are the same, leaves none out that differs from all it
/// keeps, and adds none.
pub proof fn lemma_distinct(rows: Seq<RowV>)
    ensures
        ({
            let d = select::distinct_upto(rows, rows.len() as int);
            &&& forall|a: int, b: int|
                0 <= a < b < d.len() ==> select::row_identity(#[trigger] d[a]) != select::row_identity(#[trigger] d[b])
            &&& forall|k: int| 0 <= k < rows.len() ==> !select::is_new(d, #[trigger] rows[k])
            &&& forall|a: int| 0 <= a < d.len() ==> rows.contains(#[trigger] d[a])
        }),
{
    lemma_distinct_upto(rows, rows.len() as int);
}

} // verus!

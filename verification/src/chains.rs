//! What each join of a chain makes of the rows before it, whatever its place in the chain: which
//! pairs of rows belong together, which rows stay without a partner, and what is in a row.
use vstd::prelude::*;

use crate::assoc;
use crate::ast::{JoinConstraintV, JoinOperatorV, JoinV, TableRefV, TableWithJoinsV};
use crate::error::ErrorV;
use crate::expr;
use crate::operators;
use crate::row::RowV;
use crate::schema::ValueV;
use crate::sql::select;
use crate::sql::select::JoinContextV;
use crate::state;
use crate::state::StateV;
use crate::store;

verus! {

/// The condition of a join.
pub open spec fn condition(op: JoinOperatorV) -> JoinConstraintV {
    match op {
        JoinOperatorV::Inner(c) => c,
        JoinOperatorV::LeftOuter(c) => c,
        JoinOperatorV::RightOuter(c) => c,
        JoinOperatorV::FullOuter(c) => c,
        _ => JoinConstraintV::Missing,
    }
}

/// Whether a join keeps rows of the left side without a partner.
pub open spec fn keeps_left(op: JoinOperatorV) -> bool {
    op is LeftOuter || op is FullOuter
}

/// Whether a join keeps rows of the right side without a partner.
pub open spec fn keeps_right(op: JoinOperatorV) -> bool {
    op is RightOuter || op is FullOuter
}

/// How many parameters the conditions of the first `k` joins read.
pub open spec fn asked(js: Seq<JoinV>, k: int) -> int
    decreases k,
{
    if k <= 0 || k > js.len() {
        0
    } else {
        asked(js, k - 1) + (match condition(js[k - 1].operator) {
            JoinConstraintV::On(e) => expr::placeholders(e),
            _ => 0,
        })
    }
}

/// The parameters behind the first `k`.
pub open spec fn later(ps: Seq<ValueV>, k: int) -> Seq<ValueV> {
    Seq::new(
        (if k < ps.len() {
            ps.len() - k
        } else {
            0
        }) as nat,
        |i: int| ps[k + i],
    )
}

/// Whether two rows belong together: the condition is true of the row that both make, or both have
/// the columns of USING with equal values. Without a condition all do.
pub open spec fn belong(c: JoinConstraintV, both: RowV, row1: RowV, row2: RowV, ps: Seq<ValueV>) -> bool {
    match c {
        JoinConstraintV::On(e) => operators::counts(expr::eval_v(e, Some(both), ps, 0).0),
        JoinConstraintV::Using(cols) => forall|i: int|
            0 <= i < cols.len() ==> {
                &&& assoc::assoc_get(row1, #[trigger] cols[i]) is Some
                &&& assoc::assoc_get(row2, cols[i]) is Some
                &&& operators::alike(assoc::assoc_get(row1, cols[i])->0, assoc::assoc_get(row2, cols[i])->0)
            },
        _ => true,
    }
}

/// Whether a condition asks no full-text index.
pub open spec fn is_plain_condition(c: JoinConstraintV) -> bool {
    c matches JoinConstraintV::On(e) ==> operators::asks_no_index(e)
}

proof fn lemma_belong(j: JoinContextV, row1: RowV, row2: RowV)
    requires
        is_plain_condition(j.constraint),
    ensures
        select::joins(j, row1, row2) == belong(j.constraint, select::pair(j, row1, row2), row1, row2, j.params),
{
    match j.constraint {
        JoinConstraintV::On(e) => operators::lemma_condition(j.fts, j.db, select::pair(j, row1, row2), e, j.params, 0),
        JoinConstraintV::Using(cols) => {
            let both = select::pair(j, row1, row2);
            assert forall|i: int| 0 <= i < cols.len() implies select::agree(row1, row2, #[trigger] cols[i]) == ({
                &&& assoc::assoc_get(row1, cols[i]) is Some
                &&& assoc::assoc_get(row2, cols[i]) is Some
                &&& operators::alike(assoc::assoc_get(row1, cols[i])->0, assoc::assoc_get(row2, cols[i])->0)
            }) by {
                match (assoc::assoc_get(row1, cols[i]), assoc::assoc_get(row2, cols[i])) {
                    (Some(v), Some(w)) => operators::lemma_compared(v, w),
                    _ => {},
                }
            }
            if select::joins(j, row1, row2) {
                assert forall|i: int| 0 <= i < cols.len() implies {
                    &&& assoc::assoc_get(row1, #[trigger] cols[i]) is Some
                    &&& assoc::assoc_get(row2, cols[i]) is Some
                    &&& operators::alike(assoc::assoc_get(row1, cols[i])->0, assoc::assoc_get(row2, cols[i])->0)
                } by {
                    assert(select::agree(row1, row2, cols[i]));
                }
                assert(belong(j.constraint, both, row1, row2, j.params));
            }
            if belong(j.constraint, both, row1, row2, j.params) {
                assert forall|i: int| 0 <= i < cols.len() implies select::agree(row1, row2, #[trigger] cols[i]) by {
                    assert(assoc::assoc_get(row1, cols[i]) is Some);
                }
                assert(select::joins(j, row1, row2));
            }
        },
        _ => {},
    }
}

/// The row that comes from given places of both sides: a pair, or a row without a partner.
pub open spec fn row_of(j: JoinContextV, rows1: Seq<RowV>, rows2: Seq<RowV>, names: Seq<Seq<char>>, o: (Option<int>, Option<int>)) -> RowV {
    match o {
        (Some(a), Some(b)) => select::pair(j, rows1[a], rows2[b]),
        (Some(a), None) => select::padded(j, rows1[a], names),
        (None, Some(b)) => select::padded_right(j, rows1, rows2[b]),
        (None, None) => Seq::empty(),
    }
}

/// Whether the rows at two places belong together.
pub open spec fn meet(j: JoinContextV, rows1: Seq<RowV>, rows2: Seq<RowV>, a: int, b: int) -> bool {
    belong(j.constraint, select::pair(j, rows1[a], rows2[b]), rows1[a], rows2[b], j.params)
}

/// Whether the row at a place of the left side has a partner.
pub open spec fn has_right(j: JoinContextV, rows1: Seq<RowV>, rows2: Seq<RowV>, a: int) -> bool {
    exists|b: int| 0 <= b < rows2.len() && #[trigger] meet(j, rows1, rows2, a, b)
}

/// Whether the row at a place of the right side has a partner.
pub open spec fn has_left(j: JoinContextV, rows1: Seq<RowV>, rows2: Seq<RowV>, b: int) -> bool {
    exists|a: int| 0 <= a < rows1.len() && #[trigger] meet(j, rows1, rows2, a, b)
}

/// Whether rows from given places are a join: each place once, with every pair that belongs
/// together and no other; on a side that is kept, with every row that has no partner, and on one
/// that is not kept with none of them.
pub open spec fn is_join(
    left: bool,
    right: bool,
    j: JoinContextV,
    rows1: Seq<RowV>,
    rows2: Seq<RowV>,
    names: Seq<Seq<char>>,
    out: Seq<RowV>,
    from: Seq<(Option<int>, Option<int>)>,
) -> bool {
    &&& out.len() == from.len()
    &&& from.no_duplicates()
    &&& forall|x: int| 0 <= x < from.len() ==> out[x] == row_of(j, rows1, rows2, names, #[trigger] from[x])
    &&& forall|a: int, b: int| #[trigger]
        from.contains((Some(a), Some(b))) == (0 <= a < rows1.len() && 0 <= b < rows2.len() && meet(j, rows1, rows2, a, b))
    &&& forall|a: int| #[trigger]
        from.contains((Some(a), None::<int>)) == (left && 0 <= a < rows1.len() && !has_right(j, rows1, rows2, a))
    &&& forall|b: int| #[trigger]
        from.contains((None::<int>, Some(b))) == (right && 0 <= b < rows2.len() && !has_left(j, rows1, rows2, b))
    &&& !from.contains((None::<int>, None::<int>))
}

/// The places at which the first `n` of some rows meet a given one, as the join lists them.
spec fn met(f: spec_fn(int) -> bool, n: int) -> Seq<int>
    decreases n,
{
    if n <= 0 {
        Seq::empty()
    } else if f(n - 1) {
        met(f, n - 1).push(n - 1)
    } else {
        met(f, n - 1)
    }
}

proof fn lemma_met(f: spec_fn(int) -> bool, n: int)
    requires
        0 <= n,
    ensures
        met(f, n).no_duplicates(),
        forall|x: int| 0 <= x < met(f, n).len() ==> 0 <= #[trigger] met(f, n)[x] < n,
        forall|b: int| #[trigger] met(f, n).contains(b) == (0 <= b < n && f(b)),
    decreases n,
{
    if n > 0 {
        lemma_met(f, n - 1);
        let p = met(f, n - 1);
        if f(n - 1) {
            let q = p.push(n - 1);
            assert forall|b: int| #[trigger] q.contains(b) == (0 <= b < n && f(b)) by {
                if p.contains(b) {
                    let x = choose|x: int| 0 <= x < p.len() && p[x] == b;
                    assert(q[x] == b);
                }
                assert(q[p.len() as int] == n - 1);
                if q.contains(b) && b != n - 1 {
                    let x = choose|x: int| 0 <= x < q.len() && q[x] == b;
                    assert(p[x] == b);
                }
            }
        }
    }
}

proof fn lemma_right_met(j: JoinContextV, row1: RowV, rows2: Seq<RowV>, n: int)
    requires
        0 <= n <= rows2.len(),
    ensures
        ({
            let g = met(|b: int| select::joins(j, row1, rows2[b]), n);
            select::pairs_right(j, row1, rows2, n) == Seq::new(g.len(), |x: int| select::pair(j, row1, rows2[g[x]]))
        }),
    decreases n,
{
    let f = |b: int| select::joins(j, row1, rows2[b]);
    let g = met(f, n);
    if n > 0 {
        lemma_right_met(j, row1, rows2, n - 1);
        assert(f(n - 1) == select::joins(j, row1, rows2[n - 1]));
    }
    assert(select::pairs_right(j, row1, rows2, n) =~= Seq::new(g.len(), |x: int| select::pair(j, row1, rows2[g[x]])));
}

proof fn lemma_left_met(j: JoinContextV, rows1: Seq<RowV>, row2: RowV, n: int)
    requires
        0 <= n <= rows1.len(),
    ensures
        ({
            let g = met(|a: int| select::joins(j, rows1[a], row2), n);
            select::pairs_left(j, rows1, row2, n) == Seq::new(g.len(), |x: int| select::pair(j, rows1[g[x]], row2))
        }),
    decreases n,
{
    let f = |a: int| select::joins(j, rows1[a], row2);
    let g = met(f, n);
    if n > 0 {
        lemma_left_met(j, rows1, row2, n - 1);
        assert(f(n - 1) == select::joins(j, rows1[n - 1], row2));
    }
    assert(select::pairs_left(j, rows1, row2, n) =~= Seq::new(g.len(), |x: int| select::pair(j, rows1[g[x]], row2)));
}

/// Whether rows from given places are the part of a join that comes from the first `n` rows of the
/// left side.
spec fn is_left_part(
    left: bool,
    j: JoinContextV,
    rows1: Seq<RowV>,
    rows2: Seq<RowV>,
    names: Seq<Seq<char>>,
    out: Seq<RowV>,
    from: Seq<(Option<int>, Option<int>)>,
    n: int,
) -> bool {
    &&& out.len() == from.len()
    &&& from.no_duplicates()
    &&& forall|x: int| 0 <= x < from.len() ==> out[x] == row_of(j, rows1, rows2, names, #[trigger] from[x])
    &&& forall|a: int, b: int| #[trigger]
        from.contains((Some(a), Some(b))) == (0 <= a < n && 0 <= b < rows2.len() && meet(j, rows1, rows2, a, b))
    &&& forall|a: int| #[trigger]
        from.contains((Some(a), None::<int>)) == (left && 0 <= a < n && !has_right(j, rows1, rows2, a))
    &&& forall|o: Option<int>| !#[trigger] from.contains((None::<int>, o))
}

/// Whether rows from given places are the part of a join that comes from the first `n` rows of the
/// right side: those without a partner, and pairs where they are asked for.
spec fn is_right_part(
    pairs: bool,
    j: JoinContextV,
    rows1: Seq<RowV>,
    rows2: Seq<RowV>,
    names: Seq<Seq<char>>,
    out: Seq<RowV>,
    from: Seq<(Option<int>, Option<int>)>,
    n: int,
) -> bool {
    &&& out.len() == from.len()
    &&& from.no_duplicates()
    &&& forall|x: int| 0 <= x < from.len() ==> out[x] == row_of(j, rows1, rows2, names, #[trigger] from[x])
    &&& forall|a: int, b: int| #[trigger]
        from.contains((Some(a), Some(b))) == (pairs && 0 <= a < rows1.len() && 0 <= b < n && meet(j, rows1, rows2, a, b))
    &&& forall|b: int| #[trigger] from.contains((None::<int>, Some(b))) == (0 <= b < n && !has_left(j, rows1, rows2, b))
    &&& forall|o: Option<int>| !#[trigger] from.contains((o, None::<int>))
}

proof fn lemma_joined_lists(f: Seq<(Option<int>, Option<int>)>, g: Seq<(Option<int>, Option<int>)>)
    requires
        f.no_duplicates(),
        g.no_duplicates(),
        forall|x: int| 0 <= x < g.len() ==> !f.contains(#[trigger] g[x]),
    ensures
        (f + g).no_duplicates(),
        forall|o: (Option<int>, Option<int>)| #[trigger] (f + g).contains(o) == (f.contains(o) || g.contains(o)),
{
    let h = f + g;
    assert forall|x: int, y: int| 0 <= x < h.len() && 0 <= y < h.len() && x != y implies h[x] != h[y] by {
        if x < f.len() && y >= f.len() {
            assert(!f.contains(g[y - f.len()]));
            assert(f.contains(f[x]));
        } else if y < f.len() && x >= f.len() {
            assert(!f.contains(g[x - f.len()]));
            assert(f.contains(f[y]));
        }
    }
    assert forall|o: (Option<int>, Option<int>)| #[trigger] h.contains(o) == (f.contains(o) || g.contains(o)) by {
        if f.contains(o) {
            let x = choose|x: int| 0 <= x < f.len() && f[x] == o;
            assert(h[x] == o);
        }
        if g.contains(o) {
            let x = choose|x: int| 0 <= x < g.len() && g[x] == o;
            assert(h[f.len() + x] == o);
        }
        if h.contains(o) {
            let x = choose|x: int| 0 <= x < h.len() && h[x] == o;
            if x < f.len() {
                assert(f[x] == o);
            } else {
                assert(g[x - f.len()] == o);
            }
        }
    }
}

/// The places of the pairs that one row of the left side makes.
proof fn lemma_own_pairs(j: JoinContextV, rows1: Seq<RowV>, rows2: Seq<RowV>, a: int) -> (g: Seq<(Option<int>, Option<int>)>)
    requires
        is_plain_condition(j.constraint),
        0 <= a < rows1.len(),
    ensures
        ({
            let m = select::pairs_right(j, rows1[a], rows2, rows2.len() as int);
            &&& m.len() == g.len()
            &&& forall|x: int| 0 <= x < g.len() ==> m[x] == row_of(j, rows1, rows2, Seq::empty(), #[trigger] g[x])
        }),
        g.no_duplicates(),
        (g.len() > 0) == has_right(j, rows1, rows2, a),
        forall|x: int| 0 <= x < g.len() ==> (#[trigger] g[x]).0 == Some(a) && g[x].1 is Some,
        forall|b: int| #[trigger] g.contains((Some(a), Some(b))) == (0 <= b < rows2.len() && meet(j, rows1, rows2, a, b)),
{
    let f = |b: int| select::joins(j, rows1[a], rows2[b]);
    let n = rows2.len() as int;
    let k = met(f, n);
    lemma_met(f, n);
    lemma_right_met(j, rows1[a], rows2, n);
    let g = Seq::new(k.len(), |x: int| (Some(a), Some(k[x])));
    assert forall|b: int| 0 <= b < n implies f(b) == #[trigger] meet(j, rows1, rows2, a, b) by {
        lemma_belong(j, rows1[a], rows2[b]);
    }
    assert forall|b: int| #[trigger] g.contains((Some(a), Some(b))) == (0 <= b < n && meet(j, rows1, rows2, a, b)) by {
        if k.contains(b) {
            let x = choose|x: int| 0 <= x < k.len() && k[x] == b;
            assert(g[x] == (Some(a), Some(b)));
        }
        if g.contains((Some(a), Some(b))) {
            let x = choose|x: int| 0 <= x < g.len() && g[x] == (Some(a), Some(b));
            assert(k[x] == b);
            assert(k.contains(b));
        }
    }
    if g.len() > 0 {
        assert(k.contains(k[0]));
        assert(meet(j, rows1, rows2, a, k[0]));
    }
    if has_right(j, rows1, rows2, a) {
        let b = choose|b: int| 0 <= b < n && #[trigger] meet(j, rows1, rows2, a, b);
        assert(k.contains(b));
    }
    g
}

/// The places of the pairs that one row of the right side makes.
proof fn lemma_own_pairs_right(j: JoinContextV, rows1: Seq<RowV>, rows2: Seq<RowV>, b: int) -> (g: Seq<(Option<int>, Option<int>)>)
    requires
        is_plain_condition(j.constraint),
        0 <= b < rows2.len(),
    ensures
        ({
            let m = select::pairs_left(j, rows1, rows2[b], rows1.len() as int);
            &&& m.len() == g.len()
            &&& forall|x: int| 0 <= x < g.len() ==> m[x] == row_of(j, rows1, rows2, Seq::empty(), #[trigger] g[x])
        }),
        g.no_duplicates(),
        (g.len() > 0) == has_left(j, rows1, rows2, b),
        forall|x: int| 0 <= x < g.len() ==> (#[trigger] g[x]).1 == Some(b) && g[x].0 is Some,
        forall|a: int| #[trigger] g.contains((Some(a), Some(b))) == (0 <= a < rows1.len() && meet(j, rows1, rows2, a, b)),
{
    let f = |a: int| select::joins(j, rows1[a], rows2[b]);
    let n = rows1.len() as int;
    let k = met(f, n);
    lemma_met(f, n);
    lemma_left_met(j, rows1, rows2[b], n);
    let g = Seq::new(k.len(), |x: int| (Some(k[x]), Some(b)));
    assert forall|a: int| 0 <= a < n implies f(a) == #[trigger] meet(j, rows1, rows2, a, b) by {
        lemma_belong(j, rows1[a], rows2[b]);
    }
    assert forall|a: int| #[trigger] g.contains((Some(a), Some(b))) == (0 <= a < n && meet(j, rows1, rows2, a, b)) by {
        if k.contains(a) {
            let x = choose|x: int| 0 <= x < k.len() && k[x] == a;
            assert(g[x] == (Some(a), Some(b)));
        }
        if g.contains((Some(a), Some(b))) {
            let x = choose|x: int| 0 <= x < g.len() && g[x] == (Some(a), Some(b));
            assert(k[x] == a);
            assert(k.contains(a));
        }
    }
    if g.len() > 0 {
        assert(k.contains(k[0]));
        assert(meet(j, rows1, rows2, k[0], b));
    }
    if has_left(j, rows1, rows2, b) {
        let a = choose|a: int| 0 <= a < n && #[trigger] meet(j, rows1, rows2, a, b);
        assert(k.contains(a));
    }
    g
}

#[verifier::rlimit(40)]
proof fn lemma_left_part(left: bool, j: JoinContextV, rows1: Seq<RowV>, rows2: Seq<RowV>, names: Seq<Seq<char>>, n: int) -> (from: Seq<
    (Option<int>, Option<int>),
>)
    requires
        is_plain_condition(j.constraint),
        0 <= n <= rows1.len(),
    ensures
        is_left_part(
            left,
            j,
            rows1,
            rows2,
            names,
            if left {
                select::left_join(j, rows1, rows2, names, n)
            } else {
                select::inner_join(j, rows1, rows2, n)
            },
            from,
            n,
        ),
    decreases n,
{
    if n == 0 {
        Seq::empty()
    } else {
        let f = lemma_left_part(left, j, rows1, rows2, names, n - 1);
        let own = lemma_own_pairs(j, rows1, rows2, n - 1);
        let g = if left && own.len() == 0 {
            seq![(Some(n - 1), None::<int>)]
        } else {
            own
        };
        assert forall|x: int| 0 <= x < g.len() implies !f.contains(#[trigger] g[x]) by {
            assert(g[x].0 == Some(n - 1));
            match g[x].1 {
                Some(b) => assert(f.contains((Some(n - 1), Some(b))) == false),
                None => assert(f.contains((Some(n - 1), None::<int>)) == false),
            }
        }
        lemma_joined_lists(f, g);
        let from = f + g;
        let out = if left {
            select::left_join(j, rows1, rows2, names, n)
        } else {
            select::inner_join(j, rows1, rows2, n)
        };
        let p = if left {
            select::left_join(j, rows1, rows2, names, n - 1)
        } else {
            select::inner_join(j, rows1, rows2, n - 1)
        };
        assert forall|x: int| 0 <= x < from.len() implies out[x] == row_of(j, rows1, rows2, names, #[trigger] from[x]) by {
            if x < f.len() {
                assert(from[x] == f[x]);
                assert(out[x] == p[x]);
            } else {
                assert(from[x] == g[x - f.len()]);
            }
        }
        assert forall|a: int, b: int| #[trigger] from.contains((Some(a), Some(b))) == (0 <= a < n && 0 <= b < rows2.len() && meet(
            j,
            rows1,
            rows2,
            a,
            b,
        )) by {
            let o = (Some(a), Some(b));
            assert(f.contains(o) == (0 <= a < n - 1 && 0 <= b < rows2.len() && meet(j, rows1, rows2, a, b)));
            if a == n - 1 {
                assert(own.contains(o) == (0 <= b < rows2.len() && meet(j, rows1, rows2, a, b)));
                if own.len() == 0 {
                    assert(!own.contains(o));
                }
            }
            if g.contains(o) {
                let x = choose|x: int| 0 <= x < g.len() && g[x] == o;
                assert(g[x].0 == Some(n - 1));
                assert(own.contains(o));
            }
        }
        assert forall|a: int| #[trigger] from.contains((Some(a), None::<int>)) == (left && 0 <= a < n && !has_right(
            j,
            rows1,
            rows2,
            a,
        )) by {
            let o = (Some(a), None::<int>);
            assert(f.contains(o) == (left && 0 <= a < n - 1 && !has_right(j, rows1, rows2, a)));
            if g.contains(o) {
                let x = choose|x: int| 0 <= x < g.len() && g[x] == o;
                assert(g[x].0 == Some(n - 1));
            }
            if left && a == n - 1 && own.len() == 0 {
                assert(g[0] == o);
            }
        }
        assert forall|o: Option<int>| !#[trigger] from.contains((None::<int>, o)) by {
            if g.contains((None::<int>, o)) {
                let x = choose|x: int| 0 <= x < g.len() && g[x] == (None::<int>, o);
                assert(g[x].0 == Some(n - 1));
            }
        }
        from
    }
}

#[verifier::rlimit(40)]
proof fn lemma_right_part(pairs: bool, j: JoinContextV, rows1: Seq<RowV>, rows2: Seq<RowV>, names: Seq<Seq<char>>, n: int) -> (from: Seq<
    (Option<int>, Option<int>),
>)
    requires
        is_plain_condition(j.constraint),
        0 <= n <= rows2.len(),
    ensures
        is_right_part(
            pairs,
            j,
            rows1,
            rows2,
            names,
            if pairs {
                select::right_join(j, rows1, rows2, n)
            } else {
                select::lone_right(j, rows1, rows2, n)
            },
            from,
            n,
        ),
    decreases n,
{
    if n == 0 {
        Seq::empty()
    } else {
        let f = lemma_right_part(pairs, j, rows1, rows2, names, n - 1);
        let own = lemma_own_pairs_right(j, rows1, rows2, n - 1);
        let g = if own.len() == 0 {
            seq![(None::<int>, Some(n - 1))]
        } else if pairs {
            own
        } else {
            Seq::empty()
        };
        assert forall|x: int| 0 <= x < g.len() implies !f.contains(#[trigger] g[x]) by {
            assert(g[x].1 == Some(n - 1));
            match g[x].0 {
                Some(a) => assert(f.contains((Some(a), Some(n - 1))) == false),
                None => assert(f.contains((None::<int>, Some(n - 1))) == false),
            }
        }
        lemma_joined_lists(f, g);
        let from = f + g;
        let out = if pairs {
            select::right_join(j, rows1, rows2, n)
        } else {
            select::lone_right(j, rows1, rows2, n)
        };
        let p = if pairs {
            select::right_join(j, rows1, rows2, n - 1)
        } else {
            select::lone_right(j, rows1, rows2, n - 1)
        };
        assert forall|x: int| 0 <= x < from.len() implies out[x] == row_of(j, rows1, rows2, names, #[trigger] from[x]) by {
            if x < f.len() {
                assert(from[x] == f[x]);
                assert(out[x] == p[x]);
            } else {
                assert(from[x] == g[x - f.len()]);
            }
        }
        assert forall|a: int, b: int| #[trigger] from.contains((Some(a), Some(b))) == (pairs && 0 <= a < rows1.len() && 0 <= b
            < n && meet(j, rows1, rows2, a, b)) by {
            let o = (Some(a), Some(b));
            assert(f.contains(o) == (pairs && 0 <= a < rows1.len() && 0 <= b < n - 1 && meet(j, rows1, rows2, a, b)));
            if b == n - 1 {
                assert(own.contains(o) == (0 <= a < rows1.len() && meet(j, rows1, rows2, a, b)));
                if own.len() == 0 {
                    assert(!own.contains(o));
                }
            }
            if g.contains(o) {
                let x = choose|x: int| 0 <= x < g.len() && g[x] == o;
                assert(g[x].1 == Some(n - 1));
                assert(own.contains(o));
            }
        }
        assert forall|b: int| #[trigger] from.contains((None::<int>, Some(b))) == (0 <= b < n && !has_left(
            j,
            rows1,
            rows2,
            b,
        )) by {
            let o = (None::<int>, Some(b));
            assert(f.contains(o) == (0 <= b < n - 1 && !has_left(j, rows1, rows2, b)));
            if g.contains(o) {
                let x = choose|x: int| 0 <= x < g.len() && g[x] == o;
                assert(g[x].1 == Some(n - 1));
            }
            if b == n - 1 && own.len() == 0 {
                assert(g[0] == o);
            }
        }
        assert forall|o: Option<int>| !#[trigger] from.contains((o, None::<int>)) by {
            if g.contains((o, None::<int>)) {
                let x = choose|x: int| 0 <= x < g.len() && g[x] == (o, None::<int>);
                assert(g[x].1 == Some(n - 1));
            }
        }
        from
    }
}

#[verifier::rlimit(40)]
proof fn lemma_full_parts(j: JoinContextV, rows1: Seq<RowV>, rows2: Seq<RowV>, names: Seq<Seq<char>>) -> (from: Seq<
    (Option<int>, Option<int>),
>)
    requires
        is_plain_condition(j.constraint),
    ensures
        is_join(
            true,
            true,
            j,
            rows1,
            rows2,
            names,
            select::left_join(j, rows1, rows2, names, rows1.len() as int) + select::lone_right(j, rows1, rows2, rows2.len() as int),
            from,
        ),
{
    let f = lemma_left_part(true, j, rows1, rows2, names, rows1.len() as int);
    let g = lemma_right_part(false, j, rows1, rows2, names, rows2.len() as int);
    let l = select::left_join(j, rows1, rows2, names, rows1.len() as int);
    let r = select::lone_right(j, rows1, rows2, rows2.len() as int);
    assert forall|x: int| 0 <= x < g.len() implies !f.contains(#[trigger] g[x]) by {
        assert(g.contains(g[x]));
        let o = g[x];
        match o {
            (None, w) => assert(!f.contains((None::<int>, w))),
            (Some(a), Some(b)) => assert(!g.contains((Some(a), Some(b)))),
            (Some(a), None) => assert(!g.contains((Some(a), None::<int>))),
        }
    }
    lemma_joined_lists(f, g);
    let from = f + g;
    let out = l + r;
    assert forall|x: int| 0 <= x < from.len() implies out[x] == row_of(j, rows1, rows2, names, #[trigger] from[x]) by {
        if x < f.len() {
            assert(from[x] == f[x]);
        } else {
            assert(from[x] == g[x - f.len()]);
        }
    }
    assert forall|a: int| #[trigger] from.contains((Some(a), None::<int>)) == (0 <= a < rows1.len() && !has_right(
        j,
        rows1,
        rows2,
        a,
    )) by {
        assert(!g.contains((Some(a), None::<int>)));
        assert(f.contains((Some(a), None::<int>)) == (0 <= a < rows1.len() && !has_right(j, rows1, rows2, a)));
    }
    assert forall|b: int| #[trigger] from.contains((None::<int>, Some(b))) == (0 <= b < rows2.len() && !has_left(
        j,
        rows1,
        rows2,
        b,
    )) by {
        assert(!f.contains((None::<int>, Some(b))));
        assert(g.contains((None::<int>, Some(b))) == (0 <= b < rows2.len() && !has_left(j, rows1, rows2, b)));
    }
    assert forall|a: int, b: int| #[trigger] from.contains((Some(a), Some(b))) == (0 <= a < rows1.len() && 0 <= b < rows2.len()
        && meet(j, rows1, rows2, a, b)) by {
        assert(!g.contains((Some(a), Some(b))));
        assert(f.contains((Some(a), Some(b))) == (0 <= a < rows1.len() && 0 <= b < rows2.len() && meet(j, rows1, rows2, a, b)));
    }
    assert(!f.contains((None::<int>, None::<int>)));
    assert(!g.contains((None::<int>, None::<int>)));
    from
}

/// What the first `k` joins of a FROM list give.
pub open spec fn after_joins(s: StateV, db: u32, t: TableRefV, js: Seq<JoinV>, ps: Seq<ValueV>, k: int) -> Result<Seq<RowV>, ErrorV> {
    select::joined_rows(s, db, seq![TableWithJoinsV { relation: t, joins: js.take(k) }], ps)
}

/// What the condition of the join at `k` is asked with.
pub open spec fn join_at(s: StateV, db: u32, js: Seq<JoinV>, ps: Seq<ValueV>, k: int) -> JoinContextV {
    JoinContextV {
        fts: s.fts,
        db,
        constraint: condition(js[k].operator),
        params: later(ps, asked(js, k)),
        name: match js[k].relation.alias {
            Some(a) => a,
            None => js[k].relation.table,
        },
    }
}

pub(crate) proof fn lemma_asked(js: Seq<JoinV>, k: int)
    requires
        0 <= k <= js.len(),
    ensures
        asked(js, k) >= 0,
        asked(js, k) <= usize::MAX ==> select::join_placeholders(js, k) == asked(js, k),
    decreases k,
{
    if k > 0 {
        lemma_asked(js, k - 1);
        match condition(js[k - 1].operator) {
            JoinConstraintV::On(e) => expr::lemma_eval_counts(e, None, Seq::empty(), 0),
            _ => {},
        }
    }
}

proof fn lemma_taken_placeholders(js: Seq<JoinV>, m: int, k: int)
    requires
        0 <= k <= m <= js.len(),
    ensures
        select::join_placeholders(js.take(m), k) == select::join_placeholders(js, k),
    decreases k,
{
    if k > 0 {
        lemma_taken_placeholders(js, m, k - 1);
        assert(js.take(m)[k - 1] == js[k - 1]);
    }
}

proof fn lemma_taken_joins(s: StateV, db: u32, rows: Seq<RowV>, js: Seq<JoinV>, ps: Seq<ValueV>, m: int, k: int)
    requires
        0 <= k <= m <= js.len(),
    ensures
        select::joined_upto(s, db, rows, js.take(m), ps, k) == select::joined_upto(s, db, rows, js, ps, k),
    decreases k,
{
    if k > 0 {
        lemma_taken_joins(s, db, rows, js, ps, m, k - 1);
        lemma_taken_placeholders(js, m, k - 1);
        assert(js.take(m)[k - 1] == js[k - 1]);
    }
}

/// The rows of the table that the join at `k` joins.
pub open spec fn joined_table(m: Map<u64, RowV>) -> Seq<RowV> {
    select::plain_rows(m)
}

/// The columns that stand for the table of the join at `k` in a row without a partner.
pub open spec fn missing_columns(s: StateV, db: u32, js: Seq<JoinV>, k: int, rows2: Seq<RowV>) -> Seq<Seq<char>> {
    select::padding(state::table_schema(s, db, js[k].relation.table), rows2)
}

/// Each join of a chain, the first as any later one, joins the rows that the joins before it give
/// with the rows of its table in the way that the query writes: INNER has the pairs that belong
/// together; LEFT also every row before it that has no partner; RIGHT every row of its table that
/// has none; FULL both; CROSS has all pairs. Each comes once. A chain fails from the first join that
/// fails: one with a missing table, or of a kind that is not supported. What it returns is from
/// where the rows come.
pub proof fn lemma_each_join(s: StateV, db: u32, t: TableRefV, js: Seq<JoinV>, ps: Seq<ValueV>, k: int) -> (from: Seq<
    (Option<int>, Option<int>),
>)
    requires
        0 <= k < js.len(),
        asked(js, k) <= usize::MAX,
        is_plain_condition(condition(js[k].operator)),
    ensures
        match after_joins(s, db, t, js, ps, k) {
            Err(e) => after_joins(s, db, t, js, ps, k + 1) == Err::<Seq<RowV>, ErrorV>(e),
            Ok(rows1) => match state::table_rows(s, db, js[k].relation.table) {
                None => after_joins(s, db, t, js, ps, k + 1) is Err,
                Some(m) => if js[k].operator is Other {
                    after_joins(s, db, t, js, ps, k + 1) is Err
                } else {
                    &&& after_joins(s, db, t, js, ps, k + 1) is Ok
                    &&& is_join(
                        keeps_left(js[k].operator),
                        keeps_right(js[k].operator),
                        join_at(s, db, js, ps, k),
                        rows1,
                        joined_table(m),
                        missing_columns(s, db, js, k, joined_table(m)),
                        after_joins(s, db, t, js, ps, k + 1)->Ok_0,
                        from,
                    )
                },
            },
        },
{
    match state::table_rows(s, db, t.table) {
        None => Seq::empty(),
        Some(m1) => {
            let start = select::first_rows(m1, t);
            lemma_taken_joins(s, db, start, js, ps, k, k);
            lemma_taken_joins(s, db, start, js, ps, k + 1, k + 1);
            lemma_taken_joins(s, db, start, js, ps, k + 1, k);
            lemma_asked(js, k);
            assert(js.take(k).len() == k && js.take(k + 1).len() == k + 1);
            let own = select::params_from(ps, select::join_placeholders(js, k));
            assert(own =~= later(ps, asked(js, k)));
            match select::joined_upto(s, db, start, js, ps, k) {
                Err(_) => Seq::empty(),
                Ok(rows1) => match state::table_rows(s, db, js[k].relation.table) {
                    None => Seq::empty(),
                    Some(m) => {
                        let rows2 = select::plain_rows(m);
                        let names = missing_columns(s, db, js, k, rows2);
                        let j = join_at(s, db, js, ps, k);
                        assert(j == select::join_context(s, db, js[k], condition(js[k].operator), own));
                        match js[k].operator {
                            JoinOperatorV::Inner(_) => lemma_left_part(false, j, rows1, rows2, names, rows1.len() as int),
                            JoinOperatorV::CrossJoin => lemma_left_part(false, j, rows1, rows2, names, rows1.len() as int),
                            JoinOperatorV::LeftOuter(_) => lemma_left_part(true, j, rows1, rows2, names, rows1.len() as int),
                            JoinOperatorV::RightOuter(_) => lemma_right_part(true, j, rows1, rows2, names, rows2.len() as int),
                            JoinOperatorV::FullOuter(_) => lemma_full_parts(j, rows1, rows2, names),
                            JoinOperatorV::Other(_) => Seq::empty(),
                        }
                    },
                },
            }
        },
    }
}

/// No row before a LEFT or FULL join gets lost in it, and none of its table in a RIGHT or FULL join:
/// each is in at least one pair, or stands alone with nulls for the other side.
pub proof fn lemma_no_row_lost(s: StateV, db: u32, t: TableRefV, js: Seq<JoinV>, ps: Seq<ValueV>, k: int)
    requires
        0 <= k < js.len(),
        asked(js, k) <= usize::MAX,
        is_plain_condition(condition(js[k].operator)),
        after_joins(s, db, t, js, ps, k) is Ok,
        after_joins(s, db, t, js, ps, k + 1) is Ok,
        state::table_rows(s, db, js[k].relation.table) is Some,
    ensures
        ({
            let rows1 = after_joins(s, db, t, js, ps, k)->Ok_0;
            let rows2 = joined_table(state::table_rows(s, db, js[k].relation.table)->0);
            let out = after_joins(s, db, t, js, ps, k + 1)->Ok_0;
            let j = join_at(s, db, js, ps, k);
            let names = missing_columns(s, db, js, k, rows2);
            &&& keeps_left(js[k].operator) ==> forall|a: int|
                0 <= a < rows1.len() ==> out.contains(select::padded(j, #[trigger] rows1[a], names)) || exists|b: int|
                    0 <= b < rows2.len() && out.contains(select::pair(j, rows1[a], #[trigger] rows2[b]))
            &&& keeps_right(js[k].operator) ==> forall|b: int|
                0 <= b < rows2.len() ==> out.contains(select::padded_right(j, rows1, #[trigger] rows2[b])) || exists|a: int|
                    0 <= a < rows1.len() && out.contains(select::pair(j, #[trigger] rows1[a], rows2[b]))
        }),
{
    let from = lemma_each_join(s, db, t, js, ps, k);
    let rows1 = after_joins(s, db, t, js, ps, k)->Ok_0;
    let m = state::table_rows(s, db, js[k].relation.table)->0;
    let rows2 = joined_table(m);
    let out = after_joins(s, db, t, js, ps, k + 1)->Ok_0;
    let j = join_at(s, db, js, ps, k);
    let names = missing_columns(s, db, js, k, rows2);
    if keeps_left(js[k].operator) {
        assert forall|a: int| 0 <= a < rows1.len() implies out.contains(select::padded(j, #[trigger] rows1[a], names)) || exists|b: int|
            0 <= b < rows2.len() && out.contains(select::pair(j, rows1[a], #[trigger] rows2[b])) by {
            if has_right(j, rows1, rows2, a) {
                let b = choose|b: int| 0 <= b < rows2.len() && #[trigger] meet(j, rows1, rows2, a, b);
                assert(from.contains((Some(a), Some(b))));
                let x = choose|x: int| 0 <= x < from.len() && from[x] == (Some(a), Some(b));
                assert(out[x] == row_of(j, rows1, rows2, names, from[x]));
                assert(out.contains(select::pair(j, rows1[a], rows2[b])));
            } else {
                assert(from.contains((Some(a), None::<int>)));
                let x = choose|x: int| 0 <= x < from.len() && from[x] == (Some(a), None::<int>);
                assert(out[x] == row_of(j, rows1, rows2, names, from[x]));
            }
        }
    }
    if keeps_right(js[k].operator) {
        assert forall|b: int| 0 <= b < rows2.len() implies out.contains(select::padded_right(j, rows1, #[trigger] rows2[b])) || exists|a: int|
            0 <= a < rows1.len() && out.contains(select::pair(j, #[trigger] rows1[a], rows2[b])) by {
            if has_left(j, rows1, rows2, b) {
                let a = choose|a: int| 0 <= a < rows1.len() && #[trigger] meet(j, rows1, rows2, a, b);
                assert(from.contains((Some(a), Some(b))));
                let x = choose|x: int| 0 <= x < from.len() && from[x] == (Some(a), Some(b));
                assert(out[x] == row_of(j, rows1, rows2, names, from[x]));
                assert(out.contains(select::pair(j, rows1[a], rows2[b])));
            } else {
                assert(from.contains((None::<int>, Some(b))));
                let x = choose|x: int| 0 <= x < from.len() && from[x] == (None::<int>, Some(b));
                assert(out[x] == row_of(j, rows1, rows2, names, from[x]));
            }
        }
    }
}

proof fn lemma_merged_own(into: RowV, name: Seq<char>, row: RowV, n: int, k: int)
    requires
        0 <= k < n <= row.len(),
        forall|x: int, y: int| 0 <= x < y < row.len() ==> (#[trigger] row[x]).0 != (#[trigger] row[y]).0,
    ensures
        assoc::assoc_get(select::merged(into, name, row, n), name + "."@ + row[k].0) == Some(row[k].1),
    decreases n,
{
    let m = select::merged(into, name, row, n - 1);
    let q = select::qualified(name, row[n - 1].0);
    let key = name + "."@ + row[k].0;
    let p = assoc::assoc_put(m, q, row[n - 1].1);
    assoc::lemma_get_put(m, q, row[n - 1].1);
    if k < n - 1 {
        lemma_merged_own(into, name, row, n - 1, k);
        if key == q {
            let h = name + "."@;
            assert(key.skip(h.len() as int) =~= row[k].0);
            assert(q.skip(h.len() as int) =~= row[n - 1].0);
            assert(false);
        }
        assoc::lemma_get_put_other(m, q, row[n - 1].1, key);
    }
    if assoc::assoc_get(p, row[n - 1].0) is None {
        assoc::lemma_get_put_other(p, row[n - 1].0, row[n - 1].1, key);
    }
}

proof fn lemma_merged_before(into: RowV, name: Seq<char>, row: RowV, n: int, key: Seq<char>)
    requires
        0 <= n <= row.len(),
        assoc::assoc_get(into, key) is Some,
        forall|k: int| 0 <= k < row.len() ==> name + "."@ + (#[trigger] row[k]).0 != key,
    ensures
        assoc::assoc_get(select::merged(into, name, row, n), key) == assoc::assoc_get(into, key),
    decreases n,
{
    if n > 0 {
        lemma_merged_before(into, name, row, n - 1, key);
        let m = select::merged(into, name, row, n - 1);
        let q = select::qualified(name, row[n - 1].0);
        let p = assoc::assoc_put(m, q, row[n - 1].1);
        assoc::lemma_get_put_other(m, q, row[n - 1].1, key);
        if assoc::assoc_get(p, row[n - 1].0) is None {
            assoc::lemma_get_put_other(p, row[n - 1].0, row[n - 1].1, key);
        }
    }
}

proof fn lemma_merged_bare(into: RowV, name: Seq<char>, row: RowV, n: int, k: int)
    requires
        0 <= n <= row.len(),
        0 <= k < row.len(),
        assoc::assoc_get(into, row[k].0) is None,
        forall|x: int, y: int| 0 <= x < y < row.len() ==> (#[trigger] row[x]).0 != (#[trigger] row[y]).0,
        forall|x: int| 0 <= x < row.len() ==> name + "."@ + (#[trigger] row[x]).0 != row[k].0,
    ensures
        assoc::assoc_get(select::merged(into, name, row, n), row[k].0) == (if k < n {
            Some(row[k].1)
        } else {
            None
        }),
    decreases n,
{
    if n > 0 {
        lemma_merged_bare(into, name, row, n - 1, k);
        let m = select::merged(into, name, row, n - 1);
        let q = select::qualified(name, row[n - 1].0);
        let p = assoc::assoc_put(m, q, row[n - 1].1);
        let key = row[k].0;
        assoc::lemma_get_put_other(m, q, row[n - 1].1, key);
        if assoc::assoc_get(p, row[n - 1].0) is None {
            if k == n - 1 {
                assoc::lemma_get_put(p, key, row[n - 1].1);
            } else {
                assoc::lemma_get_put_other(p, row[n - 1].0, row[n - 1].1, key);
            }
        }
    }
}

/// What a pair holds: each value of the joined row under its table and column; what the left row
/// holds, under the names that it has there; and each value of the joined row under the bare name
/// of its column where the left row has none of that name.
pub proof fn lemma_pair_cells(j: JoinContextV, row1: RowV, row2: RowV)
    requires
        forall|x: int, y: int| 0 <= x < y < row2.len() ==> (#[trigger] row2[x]).0 != (#[trigger] row2[y]).0,
    ensures
        forall|k: int|
            0 <= k < row2.len() ==> assoc::assoc_get(select::pair(j, row1, row2), j.name + "."@ + (#[trigger] row2[k]).0)
                == Some(row2[k].1),
        forall|key: Seq<char>|
            assoc::assoc_get(row1, key) is Some && (forall|k: int|
                0 <= k < row2.len() ==> j.name + "."@ + (#[trigger] row2[k]).0 != key) ==> #[trigger] assoc::assoc_get(
                select::pair(j, row1, row2),
                key,
            ) == assoc::assoc_get(row1, key),
        forall|k: int|
            0 <= k < row2.len() && assoc::assoc_get(row1, row2[k].0) is None && (forall|x: int|
                0 <= x < row2.len() ==> j.name + "."@ + (#[trigger] row2[x]).0 != row2[k].0) ==> assoc::assoc_get(
                select::pair(j, row1, row2),
                (#[trigger] row2[k]).0,
            ) == Some(row2[k].1),
{
    let n = row2.len() as int;
    assert forall|k: int| 0 <= k < n implies assoc::assoc_get(
        select::pair(j, row1, row2),
        j.name + "."@ + (#[trigger] row2[k]).0,
    ) == Some(row2[k].1) by {
        lemma_merged_own(row1, j.name, row2, n, k);
    }
    assert forall|key: Seq<char>|
        assoc::assoc_get(row1, key) is Some && (forall|k: int|
            0 <= k < row2.len() ==> j.name + "."@ + (#[trigger] row2[k]).0 != key) implies #[trigger] assoc::assoc_get(
        select::pair(j, row1, row2),
        key,
    ) == assoc::assoc_get(row1, key) by {
        lemma_merged_before(row1, j.name, row2, n, key);
    }
    assert forall|k: int|
        0 <= k < row2.len() && assoc::assoc_get(row1, row2[k].0) is None && (forall|x: int|
            0 <= x < row2.len() ==> j.name + "."@ + (#[trigger] row2[x]).0 != row2[k].0) implies assoc::assoc_get(
        select::pair(j, row1, row2),
        (#[trigger] row2[k]).0,
    ) == Some(row2[k].1) by {
        lemma_merged_bare(row1, j.name, row2, n, k);
    }
}

proof fn lemma_nulls_added(names: Seq<Seq<char>>, n: int, k: int)
    requires
        0 <= k < n <= names.len(),
    ensures
        assoc::assoc_get(select::cells_added(Seq::empty(), select::nulls(names), n), names[k]) == Some(ValueV::Null),
    decreases n,
{
    let p = select::cells_added(Seq::empty(), select::nulls(names), n - 1);
    assert(select::nulls(names)[n - 1] == (names[n - 1], ValueV::Null));
    assoc::lemma_get_put(p, names[n - 1], ValueV::Null);
    if k < n - 1 {
        lemma_nulls_added(names, n - 1, k);
        if names[k] != names[n - 1] {
            assoc::lemma_get_put_other(p, names[n - 1], ValueV::Null, names[k]);
        }
    }
}

/// What a row of the joined table without a partner holds: its own values under its table and
/// columns, and null under every name that the rows of the left side have.
pub proof fn lemma_alone_right(j: JoinContextV, rows1: Seq<RowV>, row2: RowV)
    requires
        rows1.len() > 0,
        forall|x: int, y: int| 0 <= x < y < row2.len() ==> (#[trigger] row2[x]).0 != (#[trigger] row2[y]).0,
    ensures
        forall|k: int|
            0 <= k < row2.len() ==> assoc::assoc_get(
                select::padded_right(j, rows1, row2),
                j.name + "."@ + (#[trigger] row2[k]).0,
            ) == Some(row2[k].1),
        forall|i: int|
            0 <= i < rows1[0].len() && (forall|k: int|
                0 <= k < row2.len() ==> j.name + "."@ + (#[trigger] row2[k]).0 != rows1[0][i].0) ==> assoc::assoc_get(
                select::padded_right(j, rows1, row2),
                (#[trigger] rows1[0][i]).0,
            ) == Some(ValueV::Null),
{
    let names = select::left_names(rows1);
    let base = select::cells_added(Seq::empty(), select::nulls(names), names.len() as int);
    lemma_pair_cells(j, base, row2);
    assert forall|i: int|
        0 <= i < rows1[0].len() && (forall|k: int|
            0 <= k < row2.len() ==> j.name + "."@ + (#[trigger] row2[k]).0 != rows1[0][i].0) implies assoc::assoc_get(
        select::padded_right(j, rows1, row2),
        (#[trigger] rows1[0][i]).0,
    ) == Some(ValueV::Null) by {
        assert(names[i] == rows1[0][i].0);
        lemma_nulls_added(names, names.len() as int, i);
        lemma_merged_before(base, j.name, row2, row2.len() as int, names[i]);
    }
}

/// The rows before the first join are those of the first table, each once, every value under its
/// table and column and under its column; a missing table is an error.
pub proof fn lemma_before_joins(s: StateV, db: u32, t: TableRefV, js: Seq<JoinV>, ps: Seq<ValueV>)
    ensures
        match state::table_rows(s, db, t.table) {
            None => after_joins(s, db, t, js, ps, 0) is Err,
            Some(m) => {
                let name = match t.alias {
                    Some(a) => a,
                    None => t.table,
                };
                let rows = after_joins(s, db, t, js, ps, 0)->Ok_0;
                &&& after_joins(s, db, t, js, ps, 0) is Ok
                &&& rows.len() == store::row_list(m).len()
                &&& forall|i: int, k: int|
                    0 <= i < rows.len() && 0 <= k < store::row_list(m)[i].1.len() && (forall|x: int, y: int|
                        0 <= x < y < store::row_list(m)[i].1.len() ==> (#[trigger] store::row_list(m)[i].1[x]).0
                            != (#[trigger] store::row_list(m)[i].1[y]).0) ==> assoc::assoc_get(
                        rows[i],
                        name + "."@ + (#[trigger] store::row_list(m)[i].1[k]).0,
                    ) == Some(store::row_list(m)[i].1[k].1)
            },
        },
{
    match state::table_rows(s, db, t.table) {
        None => {},
        Some(m) => {
            let name = select::called(t);
            let list = store::row_list(m);
            let rows = select::first_rows(m, t);
            assert(js.take(0).len() == 0);
            assert(after_joins(s, db, t, js, ps, 0) == Ok::<Seq<RowV>, ErrorV>(rows));
            assert forall|i: int, k: int|
                0 <= i < rows.len() && 0 <= k < list[i].1.len() && (forall|x: int, y: int|
                    0 <= x < y < list[i].1.len() ==> (#[trigger] list[i].1[x]).0 != (#[trigger] list[i].1[y]).0) implies assoc::assoc_get(
                rows[i],
                name + "."@ + (#[trigger] list[i].1[k]).0,
            ) == Some(list[i].1[k].1) by {
                lemma_merged_own(Seq::empty(), name, list[i].1, list[i].1.len() as int, k);
            }
        },
    }
}

} // verus!

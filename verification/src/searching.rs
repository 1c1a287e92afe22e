//! What a full-text search finds: exactly the rows whose text has all words of the query.
use vstd::prelude::*;

use crate::assoc;
use crate::ast::{AssignmentV, ExprV, StatementV};
use crate::catalog;
use crate::constraint;
use crate::exact;
use crate::fts;
use crate::fts::FtsTableV;
use crate::index;
use crate::index::IndexOpV;
use crate::rollback;
use crate::row::RowV;
use crate::schema::{SchemaV, TriggerEvent, TriggerTiming, ValueV};
use crate::snapshot;
use crate::sparing;
use crate::sql;
use crate::sql::dml;
use crate::state;
use crate::state::StateV;
use crate::store;
use crate::transaction;
use crate::transaction::UndoV;
use crate::triggers;
use crate::wal;

verus! {

/// Whether a text has a word that is indexed.
pub open spec fn has_token(content: Option<Seq<char>>, w: Seq<char>) -> bool {
    match content {
        Some(c) => fts::tokens(c).contains(w),
        None => false,
    }
}

/// Whether a full-text index has exactly the words of the rows of its table.
pub open spec fn in_step(t: FtsTableV, m: Map<u64, RowV>) -> bool {
    &&& assoc::assoc_distinct(t.index.inverted)
    &&& forall|w: Seq<char>, id: u64| #[trigger]
        fts::docs_of(t.index.inverted, w).contains(id) <==> m.contains_key(id) && has_token(dml::fts_content(t, m[id]), w)
}

proof fn lemma_ids_with(ids: Seq<u64>, id: u64, x: u64)
    ensures
        fts::ids_with(ids, id).contains(x) <==> ids.contains(x) || x == id,
{
    let q = ids.push(id);
    if ids.contains(x) {
        let i = choose|i: int| 0 <= i < ids.len() && ids[i] == x;
        assert(q[i] == x);
    }
    assert(q[ids.len() as int] == id);
}

proof fn lemma_ids_without(ids: Seq<u64>, id: u64, x: u64)
    ensures
        fts::ids_without(ids, id).contains(x) <==> ids.contains(x) && x != id,
    decreases ids.len(),
{
    if ids.len() > 0 {
        let d = ids.drop_last();
        lemma_ids_without(d, id, x);
        assert(ids.contains(x) <==> d.contains(x) || ids.last() == x) by {
            if d.contains(x) {
                let i = choose|i: int| 0 <= i < d.len() && d[i] == x;
                assert(ids[i] == x);
            }
            if ids.contains(x) {
                let i = choose|i: int| 0 <= i < ids.len() && ids[i] == x;
                if i < d.len() {
                    assert(d[i] == x);
                }
            }
        }
        if ids.last() != id {
            let p = fts::ids_without(d, id);
            let q = p.push(ids.last());
            assert(q[p.len() as int] == ids.last());
            if p.contains(x) {
                let i = choose|i: int| 0 <= i < p.len() && p[i] == x;
                assert(q[i] == x);
            }
        }
    }
}

proof fn lemma_ids_common(a: Seq<u64>, b: Seq<u64>, x: u64)
    ensures
        fts::ids_common(a, b).contains(x) <==> a.contains(x) && b.contains(x),
    decreases a.len(),
{
    if a.len() > 0 {
        let d = a.drop_last();
        lemma_ids_common(d, b, x);
        assert(a.contains(x) <==> d.contains(x) || a.last() == x) by {
            if d.contains(x) {
                let i = choose|i: int| 0 <= i < d.len() && d[i] == x;
                assert(a[i] == x);
            }
            if a.contains(x) {
                let i = choose|i: int| 0 <= i < a.len() && a[i] == x;
                if i < d.len() {
                    assert(d[i] == x);
                }
            }
        }
        if b.contains(a.last()) {
            let p = fts::ids_common(d, b);
            let q = p.push(a.last());
            assert(q[p.len() as int] == a.last());
            if p.contains(x) {
                let i = choose|i: int| 0 <= i < p.len() && p[i] == x;
                assert(q[i] == x);
            }
        }
    }
}

/// Whether a word is among the first `n` of a list.
spec fn among_first(ts: Seq<Seq<char>>, n: int, w: Seq<char>) -> bool {
    exists|k: int| 0 <= k < n && #[trigger] ts[k] == w
}

proof fn lemma_among_next(ts: Seq<Seq<char>>, n: int, w: Seq<char>)
    requires
        0 < n <= ts.len(),
    ensures
        among_first(ts, n, w) <==> among_first(ts, n - 1, w) || ts[n - 1] == w,
{
    if among_first(ts, n - 1, w) {
        let k = choose|k: int| 0 <= k < n - 1 && #[trigger] ts[k] == w;
        assert(0 <= k < n && ts[k] == w);
    }
}

proof fn lemma_posted(m: Seq<(Seq<char>, Seq<u64>)>, ts: Seq<Seq<char>>, n: int, id: u64, w: Seq<char>, x: u64)
    requires
        assoc::assoc_distinct(m),
        0 <= n <= ts.len(),
    ensures
        assoc::assoc_distinct(fts::posted(m, ts, n, id)),
        fts::docs_of(fts::posted(m, ts, n, id), w).contains(x) <==> fts::docs_of(m, w).contains(x) || (x == id && among_first(ts, n, w)),
    decreases n,
{
    if n > 0 {
        lemma_posted(m, ts, n - 1, id, w, x);
        lemma_among_next(ts, n, w);
        let p = fts::posted(m, ts, n - 1, id);
        let d = fts::ids_with(fts::docs_of(p, ts[n - 1]), id);
        assoc::lemma_put_distinct(p, ts[n - 1], d);
        if w == ts[n - 1] {
            assoc::lemma_get_put(p, w, d);
            lemma_ids_with(fts::docs_of(p, w), id, x);
        } else {
            assoc::lemma_get_put_other(p, ts[n - 1], d, w);
        }
    }
}

proof fn lemma_unposted(m: Seq<(Seq<char>, Seq<u64>)>, ts: Seq<Seq<char>>, n: int, id: u64, w: Seq<char>, x: u64)
    requires
        assoc::assoc_distinct(m),
        0 <= n <= ts.len(),
    ensures
        assoc::assoc_distinct(fts::unposted(m, ts, n, id)),
        fts::docs_of(fts::unposted(m, ts, n, id), w).contains(x) <==> fts::docs_of(m, w).contains(x) && !(x == id && among_first(ts, n, w)),
    decreases n,
{
    if n > 0 {
        lemma_unposted(m, ts, n - 1, id, w, x);
        lemma_among_next(ts, n, w);
        let p = fts::unposted(m, ts, n - 1, id);
        let t = ts[n - 1];
        match assoc::assoc_get(p, t) {
            None => {
                if w == t {
                    assert(fts::docs_of(p, w).len() == 0);
                }
            },
            Some(d) => {
                let e = fts::ids_without(d, id);
                lemma_ids_without(d, id, x);
                if e.len() == 0 {
                    assoc::lemma_remove_distinct(p, t);
                    if w == t {
                        assoc::lemma_get_remove(p, t);
                        assert(!e.contains(x));
                    } else {
                        assoc::lemma_get_remove_other(p, t, w);
                    }
                } else {
                    assoc::lemma_put_distinct(p, t, e);
                    if w == t {
                        assoc::lemma_get_put(p, t, e);
                    } else {
                        assoc::lemma_get_put_other(p, t, e, w);
                    }
                }
            },
        }
    }
}

/// The full-text table with a row's text in it, where it has one.
pub open spec fn with_row(t: FtsTableV, id: u64, row: RowV) -> FtsTableV {
    match dml::fts_content(t, row) {
        Some(c) => FtsTableV { index: fts::with_document(t.index, id, c), ..t },
        None => t,
    }
}

/// The full-text table without a row's text, where it has one.
pub open spec fn without_row(t: FtsTableV, id: u64, row: RowV) -> FtsTableV {
    match dml::fts_content(t, row) {
        Some(c) => FtsTableV { index: fts::without_document(t.index, id, c), ..t },
        None => t,
    }
}

/// A new row's words come into the index.
pub proof fn lemma_with_row_in_step(t: FtsTableV, m: Map<u64, RowV>, id: u64, row: RowV)
    requires
        in_step(t, m),
        !m.contains_key(id),
    ensures
        in_step(with_row(t, id, row), m.insert(id, row)),
{
    let u = with_row(t, id, row);
    let v = m.insert(id, row);
    match dml::fts_content(t, row) {
        Some(c) => {
            let ts = fts::tokens(c);
            let n = ts.len() as int;
            lemma_posted(t.index.inverted, ts, n, id, Seq::empty(), 0);
            assert forall|w: Seq<char>, x: u64| #[trigger] fts::docs_of(u.index.inverted, w).contains(x) <==> v.contains_key(x)
                && has_token(dml::fts_content(u, v[x]), w) by {
                lemma_posted(t.index.inverted, ts, n, id, w, x);
                assert(fts::docs_of(t.index.inverted, w).contains(x) <==> m.contains_key(x) && has_token(
                    dml::fts_content(t, m[x]),
                    w,
                ));
                assert(among_first(ts, n, w) <==> ts.contains(w)) by {
                    if ts.contains(w) {
                        let k = choose|k: int| 0 <= k < ts.len() && ts[k] == w;
                        assert(0 <= k < n && ts[k] == w);
                    }
                }
            }
        },
        None => {
            assert forall|w: Seq<char>, x: u64| #[trigger] fts::docs_of(u.index.inverted, w).contains(x) <==> v.contains_key(x)
                && has_token(dml::fts_content(u, v[x]), w) by {
                assert(fts::docs_of(t.index.inverted, w).contains(x) <==> m.contains_key(x) && has_token(
                    dml::fts_content(t, m[x]),
                    w,
                ));
            }
        },
    }
}

/// The words of a row that leaves go out of the index.
pub proof fn lemma_without_row_in_step(t: FtsTableV, m: Map<u64, RowV>, id: u64)
    requires
        in_step(t, m),
        m.contains_key(id),
    ensures
        in_step(without_row(t, id, m[id]), m.remove(id)),
{
    let u = without_row(t, id, m[id]);
    let v = m.remove(id);
    match dml::fts_content(t, m[id]) {
        Some(c) => {
            let ts = fts::tokens(c);
            let n = ts.len() as int;
            lemma_unposted(t.index.inverted, ts, n, id, Seq::empty(), 0);
            assert forall|w: Seq<char>, x: u64| #[trigger] fts::docs_of(u.index.inverted, w).contains(x) <==> v.contains_key(x)
                && has_token(dml::fts_content(u, v[x]), w) by {
                lemma_unposted(t.index.inverted, ts, n, id, w, x);
                assert(fts::docs_of(t.index.inverted, w).contains(x) <==> m.contains_key(x) && has_token(
                    dml::fts_content(t, m[x]),
                    w,
                ));
                assert(among_first(ts, n, w) <==> ts.contains(w)) by {
                    if ts.contains(w) {
                        let k = choose|k: int| 0 <= k < ts.len() && ts[k] == w;
                        assert(0 <= k < n && ts[k] == w);
                    }
                }
            }
        },
        None => {
            assert forall|w: Seq<char>, x: u64| #[trigger] fts::docs_of(u.index.inverted, w).contains(x) <==> v.contains_key(x)
                && has_token(dml::fts_content(u, v[x]), w) by {
                assert(fts::docs_of(t.index.inverted, w).contains(x) <==> m.contains_key(x) && has_token(
                    dml::fts_content(t, m[x]),
                    w,
                ));
            }
        },
    }
}

/// A document is found by the first `n` tokens of a query if and only if each of them has it.
pub proof fn lemma_docs_with_all(m: Seq<(Seq<char>, Seq<u64>)>, ts: Seq<Seq<char>>, n: int, x: u64)
    requires
        0 < n <= ts.len(),
    ensures
        fts::docs_with_all(m, ts, n).contains(x) <==> forall|k: int| 0 <= k < n ==> fts::docs_of(m, #[trigger] ts[k]).contains(x),
    decreases n,
{
    if n > 1 {
        lemma_docs_with_all(m, ts, n - 1, x);
        lemma_ids_common(fts::docs_with_all(m, ts, n - 1), fts::docs_of(m, ts[n - 1]), x);
    }
}

/// A search finds exactly the rows whose text has every word of the query that is indexed. A
/// query without such a word finds none.
pub proof fn lemma_search_exact(t: FtsTableV, m: Map<u64, RowV>, query: Seq<char>, id: u64)
    requires
        in_step(t, m),
    ensures
        fts::search_result(t.index, query).contains(id) <==> fts::tokens(query).len() > 0 && m.contains_key(id) && forall|k: int|
            0 <= k < fts::tokens(query).len() ==> has_token(dml::fts_content(t, m[id]), #[trigger] fts::tokens(query)[k]),
{
    let ts = fts::tokens(query);
    if ts.len() > 0 {
        lemma_docs_with_all(t.index.inverted, ts, ts.len() as int, id);
        assert forall|k: int| 0 <= k < ts.len() implies (fts::docs_of(t.index.inverted, #[trigger] ts[k]).contains(id) <==> (
        m.contains_key(id) && has_token(dml::fts_content(t, m[id]), ts[k]))) by {}
        assert(fts::docs_of(t.index.inverted, ts[0]).contains(id) ==> m.contains_key(id));
    }
}

/// The rows of a list, the first `n` of them.
spec fn first_rows(rows: Seq<(u64, RowV)>, n: int) -> Map<u64, RowV> {
    wal::rows_put(Map::empty(), rows, n)
}

proof fn lemma_first_rows(m: Map<u64, RowV>, n: int)
    requires
        0 < n <= store::row_list(m).len(),
    ensures
        !first_rows(store::row_list(m), n - 1).contains_key(store::row_list(m)[n - 1].0),
{
    let l = store::row_list(m);
    store::lemma_ids_from(m.dom(), 0);
    lemma_put_ids(l, n - 1, l[n - 1].0);
    if first_rows(l, n - 1).contains_key(l[n - 1].0) {
        let i = choose|i: int| 0 <= i < n - 1 && (#[trigger] l[i]).0 == l[n - 1].0;
        assert(store::row_ids(m)[i] < store::row_ids(m)[n - 1]);
    }
}

proof fn lemma_put_ids(rows: Seq<(u64, RowV)>, n: int, id: u64)
    requires
        0 <= n <= rows.len(),
    ensures
        first_rows(rows, n).contains_key(id) ==> exists|i: int| 0 <= i < n && (#[trigger] rows[i]).0 == id,
    decreases n,
{
    if n > 0 {
        lemma_put_ids(rows, n - 1, id);
        if rows[n - 1].0 == id {
            assert(0 <= n - 1 < n && rows[n - 1].0 == id);
        } else if first_rows(rows, n).contains_key(id) {
            let i = choose|i: int| 0 <= i < n - 1 && (#[trigger] rows[i]).0 == id;
            assert(0 <= i < n && rows[i].0 == id);
        }
    }
}

proof fn lemma_built_upto(m: Map<u64, RowV>, name: Seq<char>, column: Seq<char>, n: int)
    requires
        0 <= n <= store::row_list(m).len(),
    ensures
        in_step(
            FtsTableV { name, index: wal::fts_built(store::row_list(m), column, n), content_column: column },
            first_rows(store::row_list(m), n),
        ),
    decreases n,
{
    let l = store::row_list(m);
    let t = FtsTableV { name, index: wal::fts_built(l, column, n), content_column: column };
    if n == 0 {
        assert forall|w: Seq<char>, id: u64| #[trigger] fts::docs_of(t.index.inverted, w).contains(id) <==> first_rows(
            l,
            0,
        ).contains_key(id) && has_token(dml::fts_content(t, first_rows(l, 0)[id]), w) by {
            assert(fts::docs_of(t.index.inverted, w).len() == 0);
        }
    } else {
        lemma_built_upto(m, name, column, n - 1);
        lemma_first_rows(m, n);
        let p = FtsTableV { name, index: wal::fts_built(l, column, n - 1), content_column: column };
        lemma_with_row_in_step(p, first_rows(l, n - 1), l[n - 1].0, l[n - 1].1);
        assert(t == with_row(p, l[n - 1].0, l[n - 1].1));
    }
}

/// The full-text index that is made anew after a restart has exactly the words of the rows.
pub proof fn lemma_built_in_step(m: Map<u64, RowV>, name: Seq<char>, column: Seq<char>)
    ensures
        in_step(
            FtsTableV {
                name,
                index: wal::fts_built(store::row_list(m), column, store::row_list(m).len() as int),
                content_column: column,
            },
            m,
        ),
{
    lemma_built_upto(m, name, column, store::row_list(m).len() as int);
    snapshot::lemma_rows_back(m);
}

/// Whether the full-text index of a table, where it has one, is in step with its rows.
pub open spec fn table_in_step(s: StateV, db: u32, table: Seq<char>) -> bool {
    match (catalog::find(s.fts, db, table), state::table_rows(s, db, table)) {
        (Some(t), Some(m)) => in_step(t, m),
        _ => true,
    }
}

proof fn lemma_stored_step(s: StateV, db: u32, table: Seq<char>, w: Map<u64, RowV>, tx: Option<u32>, op: UndoV, row: RowV, id: u64, iop: IndexOpV)
    requires
        state::table_rows(s, db, table) is Some,
    ensures
        ({
            let a = dml::journaled(StateV { dbs: catalog::changed(s.dbs, db, table, w), ..s }, tx, op);
            let b = index::indexed(a, db, table, row, id, iop);
            &&& state::table_rows(b, db, table) == Some(w)
            &&& b.fts == s.fts
        }),
{
    let a = dml::journaled(StateV { dbs: catalog::changed(s.dbs, db, table, w), ..s }, tx, op);
    assoc::lemma_get_put(s.dbs.items, (db, table), w);
    index::lemma_indexed_fields(a, db, table, row, id, iop);
}

proof fn lemma_synced_table(s: StateV, db: u32, table: Seq<char>, id: u64, row: RowV, is_delete: bool)
    ensures
        ({
            let u = dml::fts_synced(s, db, table, id, row, is_delete);
            &&& u == (StateV { fts: u.fts, ..s })
            &&& catalog::find(u.fts, db, table) == (match catalog::find(s.fts, db, table) {
                Some(t) => Some(
                    if is_delete {
                        without_row(t, id, row)
                    } else {
                        with_row(t, id, row)
                    },
                ),
                None => None,
            })
        }),
{
    match catalog::find(s.fts, db, table) {
        Some(t) => match dml::fts_content(t, row) {
            Some(c) => {
                let index = if is_delete {
                    fts::without_document(t.index, id, c)
                } else {
                    fts::with_document(t.index, id, c)
                };
                assoc::lemma_get_put(s.fts.items, (db, table), FtsTableV { index, ..t });
            },
            None => {},
        },
        None => {},
    }
}

/// The full-text index of a table follows a row that is written under a new id.
pub proof fn lemma_row_written_in_step(s: StateV, db: u32, table: Seq<char>, id: u64, row: RowV, tx: Option<u32>)
    requires
        table_in_step(s, db, table),
        match state::table_rows(s, db, table) {
            Some(m) => !m.contains_key(id),
            None => true,
        },
    ensures
        table_in_step(dml::row_written(s, db, table, id, row, tx), db, table),
{
    match state::table_rows(s, db, table) {
        Some(m) => {
            let op = UndoV::Insert { table, rowid: id };
            let w = m.insert(id, row);
            lemma_stored_step(s, db, table, w, tx, op, row, id, IndexOpV::Insert);
            let a = dml::journaled(state::row_stored(s, db, table, id, row), tx, op);
            let b = index::indexed(a, db, table, row, id, IndexOpV::Insert);
            lemma_synced_table(b, db, table, id, row, false);
            match catalog::find(s.fts, db, table) {
                Some(t) => lemma_with_row_in_step(t, m, id, row),
                None => {},
            }
        },
        None => {
            let op = UndoV::Insert { table, rowid: id };
            let a = dml::journaled(s, tx, op);
            index::lemma_indexed_fields(a, db, table, row, id, IndexOpV::Insert);
            lemma_synced_table(index::indexed(a, db, table, row, id, IndexOpV::Insert), db, table, id, row, false);
        },
    }
}

/// The full-text index of a table follows a row that is changed: its old words leave, its new
/// words come in.
pub proof fn lemma_row_rewritten_in_step(
    s: StateV,
    db: u32,
    table: Seq<char>,
    id: u64,
    old_row: RowV,
    new_row: RowV,
    tx: Option<u32>,
)
    requires
        table_in_step(s, db, table),
        match state::table_rows(s, db, table) {
            Some(m) => m.contains_key(id) && m[id] == old_row,
            None => false,
        },
    ensures
        table_in_step(dml::row_rewritten(s, db, table, id, old_row, new_row, tx), db, table),
{
    let m = state::table_rows(s, db, table)->0;
    let op = UndoV::Update { table, rowid: id, old_row };
    let iop = IndexOpV::Update { old_row };
    let w = m.insert(id, new_row);
    lemma_stored_step(s, db, table, w, tx, op, new_row, id, iop);
    let a = dml::journaled(state::row_stored(s, db, table, id, new_row), tx, op);
    let b = index::indexed(a, db, table, new_row, id, iop);
    let c = dml::fts_synced(b, db, table, id, old_row, true);
    lemma_synced_table(b, db, table, id, old_row, true);
    lemma_synced_table(c, db, table, id, new_row, false);
    match catalog::find(s.fts, db, table) {
        Some(t) => {
            lemma_without_row_in_step(t, m, id);
            lemma_with_row_in_step(without_row(t, id, old_row), m.remove(id), id, new_row);
            assert(m.remove(id).insert(id, new_row) =~= w);
        },
        None => {},
    }
}

/// The full-text index of a table follows a row that leaves.
pub proof fn lemma_row_erased_in_step(s: StateV, db: u32, table: Seq<char>, id: u64, row: RowV, tx: Option<u32>)
    requires
        table_in_step(s, db, table),
        match state::table_rows(s, db, table) {
            Some(m) => m.contains_key(id) && m[id] == row,
            None => false,
        },
    ensures
        table_in_step(dml::row_erased(s, db, table, id, row, tx), db, table),
{
    let m = state::table_rows(s, db, table)->0;
    let op = UndoV::Delete { table, rowid: id, row };
    lemma_stored_step(s, db, table, m.remove(id), tx, op, row, id, IndexOpV::Delete);
    let a = dml::journaled(state::row_dropped(s, db, table, id), tx, op);
    let b = index::indexed(a, db, table, row, id, IndexOpV::Delete);
    lemma_synced_table(b, db, table, id, row, true);
    match catalog::find(s.fts, db, table) {
        Some(t) => lemma_without_row_in_step(t, m, id),
        None => {},
    }
}

/// The full-text index of a table follows a change that is undone.
pub proof fn lemma_undone_in_step(s: StateV, db: u32, op: UndoV, table: Seq<char>)
    requires
        table_in_step(s, db, table),
        rollback::undo_table(op) == table,
        match (op, state::table_rows(s, db, table)) {
            (UndoV::Delete { table: t, rowid, row }, Some(m)) => !m.contains_key(rowid),
            (UndoV::Update { table: t, rowid, old_row }, Some(m)) => m.contains_key(rowid),
            _ => true,
        },
    ensures
        table_in_step(transaction::undone(s, db, op), db, table),
{
    match state::table_rows(s, db, table) {
        Some(m) => match op {
            UndoV::Insert { table: t, rowid } => if m.contains_key(rowid) {
                lemma_row_erased_in_step(s, db, table, rowid, m[rowid], None);
                assert(transaction::undone(s, db, op) == dml::row_erased(s, db, table, rowid, m[rowid], None));
            },
            UndoV::Delete { table: t, rowid, row } => {
                lemma_row_written_in_step(s, db, table, rowid, row, None);
                assert(transaction::undone(s, db, op) == dml::row_written(s, db, table, rowid, row, None));
            },
            UndoV::Update { table: t, rowid, old_row } => {
                lemma_row_rewritten_in_step(s, db, table, rowid, m[rowid], old_row, None);
                assert(transaction::undone(s, db, op) == dml::row_rewritten(s, db, table, rowid, m[rowid], old_row, None));
            },
        },
        None => {},
    }
}

/// Whether a table that no trigger writes to has its full-text index in step, its other indexes
/// exact, and gives out new ids.
pub open spec fn searchable(s: StateV, db: u32, table: Seq<char>) -> bool {
    &&& sparing::spared(s, db, table)
    &&& table_in_step(s, db, table)
    &&& exact::table_exact(s, db, table)
    &&& match state::table_rows(s, db, table) {
        Some(m) => forall|id: u64| #[trigger] m.contains_key(id) ==> id < state::next_rowid(s, db, table),
        None => true,
    }
}

/// Whether rows of a list, from the `n`-th on, stand in a table as they are.
spec fn pending(m: Map<u64, RowV>, rows: Seq<(u64, RowV)>, n: int) -> bool {
    forall|i: int| n <= i < rows.len() ==> m.contains_key((#[trigger] rows[i]).0) && m[rows[i].0] == rows[i].1
}

spec fn ids_differ(rows: Seq<(u64, RowV)>) -> bool {
    forall|i: int, j: int| 0 <= i < j < rows.len() ==> (#[trigger] rows[i]).0 != (#[trigger] rows[j]).0
}

/// Triggers that spare a table leave it searchable.
proof fn lemma_fired_searchable(
    depth: nat,
    s: StateV,
    db: u32,
    table: Seq<char>,
    event: TriggerEvent,
    timing: TriggerTiming,
    old_row: Option<RowV>,
    new_row: Option<RowV>,
    tx: Option<u32>,
)
    requires
        searchable(s, db, table),
    ensures
        ({
            let t = triggers::fired(depth, s, db, table, event, timing, old_row, new_row, tx).0;
            searchable(t, db, table) && sparing::same_table(s, t, db, table)
        }),
{
    sparing::lemma_fired_spares(depth, s, db, table, event, timing, old_row, new_row, tx, table);
    let t = triggers::fired(depth, s, db, table, event, timing, old_row, new_row, tx).0;
    exact::lemma_same_indexes(s, t, db, table);
}

proof fn lemma_row_inserted_searchable(
    depth: nat,
    s: StateV,
    db: u32,
    table: Seq<char>,
    d: SchemaV,
    row: RowV,
    tx: Option<u32>,
)
    requires
        searchable(s, db, table),
    ensures
        searchable(dml::row_inserted(depth, s, db, table, d, row, tx).0, db, table),
{
    let id = state::next_rowid(s, db, table);
    let s1 = state::rowid_taken(s, db, table);
    let full = dml::with_defaults(d.columns, row, id, d.columns.len() as int);
    if id < u64::MAX {
        rollback::lemma_rowid_taken(s, db, table, table);
        sparing::lemma_same_triggers(s, s1, db, table);
        exact::lemma_same_indexes(s, s1, db, table);
        if constraint::first_violation(s1, db, d, full, id) is None {
            let ins = TriggerEvent::Insert;
            let op = UndoV::Insert { table, rowid: id };
            lemma_fired_searchable(depth, s1, db, table, ins, TriggerTiming::Before, None, Some(full), tx);
            let (s2, e2) = triggers::fired(depth, s1, db, table, ins, TriggerTiming::Before, None, Some(full), tx);
            lemma_row_written_in_step(s2, db, table, id, full, tx);
            exact::lemma_row_written_exact(s2, db, table, id, full, tx);
            let s3 = dml::row_written(s2, db, table, id, full, tx);
            let a = dml::journaled(state::row_stored(s2, db, table, id, full), tx, op);
            let b = index::indexed(a, db, table, full, id, IndexOpV::Insert);
            index::lemma_indexed_fields(a, db, table, full, id, IndexOpV::Insert);
            lemma_synced_table(b, db, table, id, full, false);
            match state::table_rows(s, db, table) {
                Some(m) => lemma_stored_step(s2, db, table, m.insert(id, full), tx, op, full, id, IndexOpV::Insert),
                None => {},
            }
            sparing::lemma_same_triggers(s2, s3, db, table);
            assert(searchable(s3, db, table));
            lemma_fired_searchable(depth, s3, db, table, ins, TriggerTiming::After, None, Some(full), tx);
        }
    }
}

proof fn lemma_rows_inserted_searchable(
    depth: nat,
    s: StateV,
    db: u32,
    table: Seq<char>,
    d: SchemaV,
    rows: Seq<RowV>,
    tx: Option<u32>,
    n: int,
)
    requires
        searchable(s, db, table),
    ensures
        searchable(dml::rows_inserted(depth, s, db, table, d, rows, tx, n).0, db, table),
    decreases n,
{
    if n > 0 && n <= rows.len() {
        lemma_rows_inserted_searchable(depth, s, db, table, d, rows, tx, n - 1);
        let (p, e) = dml::rows_inserted(depth, s, db, table, d, rows, tx, n - 1);
        lemma_row_inserted_searchable(depth, p, db, table, d, rows[n - 1], tx);
    }
}

proof fn lemma_rows_updated_searchable(
    depth: nat,
    s: StateV,
    db: u32,
    table: Seq<char>,
    d: SchemaV,
    rows: Seq<(u64, RowV)>,
    assignments: Seq<AssignmentV>,
    ps: Seq<ValueV>,
    tx: Option<u32>,
    n: int,
)
    requires
        searchable(s, db, table),
        state::table_rows(s, db, table) is Some,
        pending(state::table_rows(s, db, table)->0, rows, 0),
        ids_differ(rows),
        0 <= n <= rows.len(),
    ensures
        ({
            let (t, e) = dml::rows_updated(depth, s, db, table, d, rows, assignments, ps, tx, n);
            &&& searchable(t, db, table)
            &&& state::table_rows(t, db, table) is Some
            &&& e is None ==> pending(state::table_rows(t, db, table)->0, rows, n)
        }),
    decreases n,
{
    if n > 0 {
        lemma_rows_updated_searchable(depth, s, db, table, d, rows, assignments, ps, tx, n - 1);
        let (p, e) = dml::rows_updated(depth, s, db, table, d, rows, assignments, ps, tx, n - 1);
        let (id, old_row) = rows[n - 1];
        let new_row = dml::assigned(assignments, old_row, ps, assignments.len() as int).0;
        if e is None && constraint::first_violation(p, db, d, new_row, id) is None {
            let m = state::table_rows(p, db, table)->0;
            let upd = TriggerEvent::Update;
            let op = UndoV::Update { table, rowid: id, old_row };
            let iop = IndexOpV::Update { old_row };
            assert(m.contains_key(rows[n - 1].0) && m[rows[n - 1].0] == rows[n - 1].1);
            lemma_fired_searchable(depth, p, db, table, upd, TriggerTiming::Before, Some(old_row), Some(new_row), tx);
            let (s2, e2) = triggers::fired(depth, p, db, table, upd, TriggerTiming::Before, Some(old_row), Some(new_row), tx);
            lemma_row_rewritten_in_step(s2, db, table, id, old_row, new_row, tx);
            exact::lemma_row_rewritten_exact(s2, db, table, id, old_row, new_row, tx);
            let s3 = dml::row_rewritten(s2, db, table, id, old_row, new_row, tx);
            let a = dml::journaled(state::row_stored(s2, db, table, id, new_row), tx, op);
            let b = index::indexed(a, db, table, new_row, id, iop);
            let w = m.insert(id, new_row);
            index::lemma_indexed_fields(a, db, table, new_row, id, iop);
            lemma_stored_step(s2, db, table, w, tx, op, new_row, id, iop);
            lemma_synced_table(b, db, table, id, old_row, true);
            lemma_synced_table(dml::fts_synced(b, db, table, id, old_row, true), db, table, id, new_row, false);
            assert forall|i: int| n <= i < rows.len() implies w.contains_key((#[trigger] rows[i]).0) && w[rows[i].0]
                == rows[i].1 by {
                assert(rows[n - 1].0 != rows[i].0);
                assert(m.contains_key(rows[i].0));
            }
            sparing::lemma_same_triggers(s2, s3, db, table);
            assert(state::table_rows(s3, db, table) == Some(w));
            assert forall|x: u64| #[trigger] w.contains_key(x) implies x < state::next_rowid(s3, db, table) by {
                assert(m.contains_key(x));
            }
            assert(searchable(s3, db, table));
            assert(pending(w, rows, n));
            lemma_fired_searchable(depth, s3, db, table, upd, TriggerTiming::After, Some(old_row), Some(new_row), tx);
            let r = if e2 is Some {
                (s2, e2)
            } else {
                triggers::fired(depth, s3, db, table, upd, TriggerTiming::After, Some(old_row), Some(new_row), tx)
            };
            assert(dml::row_updated(depth, p, db, table, d, id, old_row, assignments, ps, tx) == r);
            assert(dml::rows_updated(depth, s, db, table, d, rows, assignments, ps, tx, n) == r);
        } else if e is None {
            let r = dml::row_updated(depth, p, db, table, d, id, old_row, assignments, ps, tx);
            assert(r.0 == p && r.1 is Some);
        }
    }
}

proof fn lemma_rows_deleted_searchable(
    depth: nat,
    s: StateV,
    db: u32,
    table: Seq<char>,
    rows: Seq<(u64, RowV)>,
    tx: Option<u32>,
    n: int,
)
    requires
        searchable(s, db, table),
        state::table_rows(s, db, table) is Some,
        pending(state::table_rows(s, db, table)->0, rows, 0),
        ids_differ(rows),
        0 <= n <= rows.len(),
    ensures
        ({
            let (t, e) = dml::rows_deleted(depth, s, db, table, rows, tx, n);
            &&& searchable(t, db, table)
            &&& state::table_rows(t, db, table) is Some
            &&& e is None ==> pending(state::table_rows(t, db, table)->0, rows, n)
        }),
    decreases n,
{
    if n > 0 {
        lemma_rows_deleted_searchable(depth, s, db, table, rows, tx, n - 1);
        let (p, e) = dml::rows_deleted(depth, s, db, table, rows, tx, n - 1);
        let (id, row) = rows[n - 1];
        if e is None {
            let m = state::table_rows(p, db, table)->0;
            let del = TriggerEvent::Delete;
            let op = UndoV::Delete { table, rowid: id, row };
            assert(m.contains_key(rows[n - 1].0) && m[rows[n - 1].0] == rows[n - 1].1);
            lemma_fired_searchable(depth, p, db, table, del, TriggerTiming::Before, Some(row), None, tx);
            let (s2, e2) = triggers::fired(depth, p, db, table, del, TriggerTiming::Before, Some(row), None, tx);
            lemma_row_erased_in_step(s2, db, table, id, row, tx);
            exact::lemma_row_erased_exact(s2, db, table, id, row, tx);
            let s3 = dml::row_erased(s2, db, table, id, row, tx);
            let a = dml::journaled(state::row_dropped(s2, db, table, id), tx, op);
            let b = index::indexed(a, db, table, row, id, IndexOpV::Delete);
            let w = m.remove(id);
            index::lemma_indexed_fields(a, db, table, row, id, IndexOpV::Delete);
            lemma_stored_step(s2, db, table, w, tx, op, row, id, IndexOpV::Delete);
            lemma_synced_table(b, db, table, id, row, true);
            assert forall|i: int| n <= i < rows.len() implies w.contains_key((#[trigger] rows[i]).0) && w[rows[i].0]
                == rows[i].1 by {
                assert(rows[n - 1].0 != rows[i].0);
                assert(m.contains_key(rows[i].0));
            }
            sparing::lemma_same_triggers(s2, s3, db, table);
            assert(state::table_rows(s3, db, table) == Some(w));
            assert forall|x: u64| #[trigger] w.contains_key(x) implies x < state::next_rowid(s3, db, table) by {
                assert(m.contains_key(x));
            }
            assert(searchable(s3, db, table));
            lemma_fired_searchable(depth, s3, db, table, del, TriggerTiming::After, Some(row), None, tx);
            let r = if e2 is Some {
                (s2, e2)
            } else {
                triggers::fired(depth, s3, db, table, del, TriggerTiming::After, Some(row), None, tx)
            };
            assert(dml::row_deleted(depth, p, db, table, id, row, tx) == r);
        }
    }
}

proof fn lemma_matching_upto_differ(
    s: StateV,
    db: u32,
    m: Map<u64, RowV>,
    selection: Option<ExprV>,
    ps: Seq<ValueV>,
    start: int,
    n: int,
)
    requires
        0 <= n <= store::row_list(m).len(),
    ensures
        ids_differ(dml::matching_upto(s, db, store::row_list(m), selection, ps, start, n)),
        pending(m, dml::matching_upto(s, db, store::row_list(m), selection, ps, start, n), 0),
    decreases n,
{
    let l = store::row_list(m);
    let q = dml::matching_upto(s, db, l, selection, ps, start, n);
    if n > 0 {
        lemma_matching_upto_differ(s, db, m, selection, ps, start, n - 1);
        store::lemma_ids_from(m.dom(), 0);
        store::lemma_listed(m, n - 1);
        let p = dml::matching_upto(s, db, l, selection, ps, start, n - 1);
        if q != p {
            assert(q == p.push(l[n - 1]));
            assert forall|i: int, j: int| 0 <= i < j < q.len() implies (#[trigger] q[i]).0 != (#[trigger] q[j]).0 by {
                if j == p.len() {
                    assert(q[i] == p[i]);
                    rollback::lemma_matching(s, db, l, selection, ps, start, n - 1, i);
                    let k = choose|k: int| 0 <= k < n - 1 && #[trigger] l[k] == p[i];
                    assert(store::row_ids(m)[k] < store::row_ids(m)[n - 1]);
                } else {
                    assert(q[i] == p[i] && q[j] == p[j]);
                }
            }
            assert forall|i: int| 0 <= i < q.len() implies m.contains_key((#[trigger] q[i]).0) && m[q[i].0] == q[i].1 by {
                if i < p.len() {
                    assert(q[i] == p[i]);
                }
            }
        }
    }
}

/// Indexes stay in step: whatever a statement does that defines no table or index, also where it
/// fails halfway, the full-text index has exactly the words of the rows afterwards, and every other
/// index exactly their values. Triggers may
/// write to other tables: one that changes this one while it is written to is not waited for.
pub proof fn lemma_index_stays_in_step(
    depth: nat,
    s: StateV,
    db: u32,
    table: Seq<char>,
    stmt: StatementV,
    ps: Seq<ValueV>,
    tx: Option<u32>,
)
    requires
        searchable(s, db, table),
        sparing::rows_only(stmt),
    ensures
        searchable(sql::ran(depth, s, db, stmt, ps, tx).0, db, table),
{
    if sparing::writes_to(stmt, table) {
        match stmt {
            StatementV::Insert { table: t, columns, source } => {
                match state::table_schema(s, db, table) {
                    Some(d) => match dml::candidate_rows(s, db, dml::insert_columns(d, columns), source, ps) {
                        Ok(rows) => lemma_rows_inserted_searchable(depth, s, db, table, d, rows, tx, rows.len() as int),
                        Err(_) => {},
                    },
                    None => {},
                }
            },
            StatementV::Update { table: t, assignments, selection } => {
                match (state::table_rows(s, db, table), state::table_schema(s, db, table)) {
                    (Some(m), Some(d)) => {
                        let start = dml::set_placeholders(assignments, assignments.len() as int);
                        let rows = dml::matching(s, db, m, selection, ps, start);
                        lemma_matching_upto_differ(s, db, m, selection, ps, start, store::row_list(m).len() as int);
                        lemma_rows_updated_searchable(depth, s, db, table, d, rows, assignments, ps, tx, rows.len() as int);
                    },
                    _ => {},
                }
            },
            StatementV::Delete { table: t, selection } => {
                match state::table_rows(s, db, table) {
                    Some(m) => {
                        let rows = dml::matching(s, db, m, selection, ps, 0);
                        lemma_matching_upto_differ(s, db, m, selection, ps, 0, store::row_list(m).len() as int);
                        lemma_rows_deleted_searchable(depth, s, db, table, rows, tx, rows.len() as int);
                    },
                    None => {},
                }
            },
            _ => {},
        }
    } else {
        sparing::lemma_ran_spares(depth, s, db, stmt, ps, tx, table);
        sparing::lemma_same_triggers(s, sql::ran(depth, s, db, stmt, ps, tx).0, db, table);
        exact::lemma_same_indexes(s, sql::ran(depth, s, db, stmt, ps, tx).0, db, table);
    }
}

} // verus!

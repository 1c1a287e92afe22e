//! What a secondary index holds: exactly the ids of the rows that have a value, each once.
use vstd::prelude::*;

use crate::assoc;
use crate::catalog;
use crate::covering;
use crate::documents;
use crate::fts;
use crate::index;
use crate::index::{IndexMapV, IndexOpV};
use crate::rollback;
use crate::row::RowV;
use crate::schema;
use crate::schema::{IndexV, SchemaV, ValueV};
use crate::sql::ddl;
use crate::sql::dml;
use crate::state;
use crate::state::StateV;
use crate::store;
use crate::transaction;
use crate::transaction::UndoV;

verus! {

/// Whether a row of a table stands level with a value in the first column of an index.
pub open spec fn has_level(m: Map<u64, RowV>, columns: Seq<Seq<char>>, v: ValueV, id: u64) -> bool {
    m.contains_key(id) && match index::indexed_value(columns, m[id]) {
        Some(w) => schema::value_order(v, w) == 0,
        None => false,
    }
}

/// Whether an index holds exactly what the rows of a table give.
pub open spec fn exact(m: Map<u64, RowV>, columns: Seq<Seq<char>>, ix: IndexMapV) -> bool {
    &&& index::tidy_index(ix)
    &&& forall|v: ValueV, id: u64| #[trigger] index::index_ids(ix, v).contains(id) == has_level(m, columns, v, id)
}

proof fn lemma_with_ids(s: IndexMapV, v: ValueV, id: u64, w: ValueV, x: u64)
    ensures
        index::index_ids(index::index_with(s, v, id), w).contains(x) == (index::index_ids(s, w).contains(x) || (x == id
            && schema::value_order(w, v) == 0)),
    decreases s.len(),
{
    covering::lemma_index_with(s, v, id, w, x);
    let t = index::index_with(s, v, id);
    if s.len() == 0 || schema::value_order(v, s[0].0) < 0 {
        assert(t.drop_first() =~= s);
        assert(t[0] == (v, seq![id]));
    } else if schema::value_order(v, s[0].0) == 0 {
        assert(t.drop_first() =~= s.drop_first());
        schema::lemma_order_reverse(v, s[0].0);
        covering::lemma_level(s[0].0, v, w);
        schema::lemma_order_reverse(w, s[0].0);
        schema::lemma_order_reverse(w, v);
        let ids = s[0].1;
        if fts::ids_with(ids, id).contains(x) && !ids.contains(id) {
            let k = choose|k: int| 0 <= k < ids.push(id).len() && ids.push(id)[k] == x;
            if k < ids.len() {
                assert(ids[k] == x);
            }
        }
    } else {
        lemma_with_ids(s.drop_first(), v, id, w, x);
        assert(t.drop_first() =~= index::index_with(s.drop_first(), v, id));
        if schema::value_order(w, v) == 0 {
            covering::lemma_level(w, v, s[0].0);
        }
    }
}

proof fn lemma_tail_tidy(s: IndexMapV)
    requires
        index::tidy_index(s),
        s.len() > 0,
    ensures
        index::tidy_index(s.drop_first()),
        s.len() > 1 ==> schema::value_order(s[0].0, s.drop_first()[0].0) < 0,
{
    let d = s.drop_first();
    assert forall|i: int, j: int| 0 <= i < j < d.len() implies schema::value_order((#[trigger] d[i]).0, (#[trigger] d[j]).0) < 0 by {
        assert(d[i] == s[i + 1] && d[j] == s[j + 1]);
    }
    assert forall|i: int| 0 <= i < d.len() implies (#[trigger] d[i]).1.len() > 0 && d[i].1.no_duplicates() by {
        assert(d[i] == s[i + 1]);
    }
    if s.len() > 1 {
        assert(d[0] == s[1]);
    }
}

proof fn lemma_without_ids(s: IndexMapV, v: ValueV, id: u64, w: ValueV, x: u64)
    requires
        index::tidy_index(s),
    ensures
        index::index_ids(index::index_without(s, v, id), w).contains(x) == (index::index_ids(s, w).contains(x) && !(x == id
            && schema::value_order(w, v) == 0)),
    decreases s.len(),
{
    let t = index::index_without(s, v, id);
    if s.len() == 0 {
    } else if schema::value_order(v, s[0].0) < 0 {
        if schema::value_order(w, v) == 0 {
            covering::lemma_level(w, v, s[0].0);
        }
    } else if schema::value_order(v, s[0].0) == 0 {
        let d = s.drop_first();
        let ids = s[0].1;
        let e = fts::ids_without(ids, id);
        lemma_tail_tidy(s);
        schema::lemma_order_reverse(v, s[0].0);
        covering::lemma_level(s[0].0, v, w);
        schema::lemma_order_reverse(w, s[0].0);
        schema::lemma_order_reverse(w, v);
        documents::lemma_without_gone(ids, id);
        fts::lemma_ids_without_tidy(ids, id);
        if ids.contains(x) && x != id {
            covering::lemma_ids_without_keeps(ids, id, x);
        }
        if e.len() == 0 {
            assert(!e.contains(x));
            if d.len() > 0 {
                if schema::value_order(w, s[0].0) == 0 {
                    covering::lemma_level(w, s[0].0, d[0].0);
                }
                if schema::value_order(w, s[0].0) < 0 {
                    covering::lemma_below(w, s[0].0, d[0].0);
                }
            }
        } else {
            assert(t.drop_first() =~= d);
            if e.contains(x) {
                assert(ids.contains(x));
            }
        }
    } else {
        lemma_tail_tidy(s);
        lemma_without_ids(s.drop_first(), v, id, w, x);
        assert(t.drop_first() =~= index::index_without(s.drop_first(), v, id));
        if schema::value_order(w, v) == 0 {
            covering::lemma_level(w, v, s[0].0);
        }
    }
}

/// An index that follows a change of a row still holds exactly what the rows give: the row is new
/// where it comes, and is what it was taken for where it changes or leaves.
pub proof fn lemma_follows_exactly(
    m: Map<u64, RowV>,
    columns: Seq<Seq<char>>,
    ix: IndexMapV,
    row: RowV,
    id: u64,
    op: IndexOpV,
)
    requires
        exact(m, columns, ix),
        match op {
            IndexOpV::Insert => !m.contains_key(id),
            IndexOpV::Delete => m.contains_key(id) && m[id] == row,
            IndexOpV::Update { old_row } => m.contains_key(id) && m[id] == old_row,
        },
    ensures
        exact(covering::rows_after(m, row, id, op), columns, covering::index_after(ix, columns, row, id, op)),
{
    let n = covering::rows_after(m, row, id, op);
    let gone = match op {
        IndexOpV::Update { old_row } => index::indexed_value(columns, old_row),
        IndexOpV::Delete => index::indexed_value(columns, row),
        IndexOpV::Insert => None,
    };
    let come = match op {
        IndexOpV::Delete => None,
        _ => index::indexed_value(columns, row),
    };
    let a = match gone {
        Some(v) => index::index_without(ix, v, id),
        None => ix,
    };
    let b = match come {
        Some(v) => index::index_with(a, v, id),
        None => a,
    };
    assert(b == covering::index_after(ix, columns, row, id, op));
    match gone {
        Some(v) => index::lemma_index_without_tidy(ix, v, id),
        None => {},
    }
    match come {
        Some(v) => index::lemma_index_with_tidy(a, v, id),
        None => {},
    }
    assert forall|w: ValueV, x: u64| #[trigger] index::index_ids(b, w).contains(x) == has_level(n, columns, w, x) by {
        assert(index::index_ids(ix, w).contains(x) == has_level(m, columns, w, x));
        match gone {
            Some(v) => lemma_without_ids(ix, v, id, w, x),
            None => {},
        }
        match come {
            Some(v) => lemma_with_ids(a, v, id, w, x),
            None => {},
        }
        if x != id {
            assert(n.contains_key(x) == m.contains_key(x));
        }
    }
}

proof fn lemma_built_exactly(rows: Seq<(u64, RowV)>, columns: Seq<Seq<char>>, n: int, v: ValueV, id: u64)
    requires
        0 <= n <= rows.len(),
    ensures
        index::tidy_index(index::built_index(rows, columns, n)),
        index::index_ids(index::built_index(rows, columns, n), v).contains(id) == (exists|i: int|
            0 <= i < n && (#[trigger] rows[i]).0 == id && match index::indexed_value(columns, rows[i].1) {
                Some(w) => schema::value_order(v, w) == 0,
                None => false,
            }),
    decreases n,
{
    if n > 0 {
        let p = index::built_index(rows, columns, n - 1);
        lemma_built_exactly(rows, columns, n - 1, v, id);
        match index::indexed_value(columns, rows[n - 1].1) {
            Some(w) => {
                index::lemma_index_with_tidy(p, w, rows[n - 1].0);
                lemma_with_ids(p, w, rows[n - 1].0, v, id);
                if rows[n - 1].0 == id && schema::value_order(v, w) == 0 {
                    assert(0 <= n - 1 < n && rows[n - 1].0 == id);
                }
            },
            None => {},
        }
    }
}

/// An index that is built from a table holds exactly what its rows give.
pub proof fn lemma_built_is_exact(m: Map<u64, RowV>, columns: Seq<Seq<char>>)
    ensures
        exact(m, columns, index::built_index(store::row_list(m), columns, store::row_list(m).len() as int)),
{
    let l = store::row_list(m);
    let n = l.len() as int;
    let ix = index::built_index(l, columns, n);
    lemma_built_exactly(l, columns, n, ValueV::Null, 0);
    assert forall|v: ValueV, id: u64| #[trigger] index::index_ids(ix, v).contains(id) == has_level(m, columns, v, id) by {
        lemma_built_exactly(l, columns, n, v, id);
        if index::index_ids(ix, v).contains(id) {
            let i = choose|i: int|
                0 <= i < n && (#[trigger] l[i]).0 == id && match index::indexed_value(columns, l[i].1) {
                    Some(w) => schema::value_order(v, w) == 0,
                    None => false,
                };
            store::lemma_listed(m, i);
        }
        if m.contains_key(id) {
            let i = store::lemma_place_in_list(m, id);
            assert(l[i].0 == id && l[i].1 == m[id]);
        }
    }
}

/// Whether every index of a table holds exactly what its rows give.
pub open spec fn table_exact(s: StateV, db: u32, table: Seq<char>) -> bool {
    match (state::table_schema(s, db, table), state::table_rows(s, db, table)) {
        (Some(d), Some(m)) => covering::names_differ(d.indices) && forall|k: int|
            0 <= k < d.indices.len() ==> exact(
                m,
                (#[trigger] d.indices[k]).columns,
                state::index_of(s, db, table, d.indices[k].name),
            ),
        _ => true,
    }
}

/// A lookup in an index of such a table gives exactly the ids of the rows that have the value.
pub proof fn lemma_lookup_exact(s: StateV, db: u32, table: Seq<char>, d: SchemaV, m: Map<u64, RowV>, k: int, v: ValueV, id: u64)
    requires
        table_exact(s, db, table),
        state::table_schema(s, db, table) == Some(d),
        state::table_rows(s, db, table) == Some(m),
        0 <= k < d.indices.len(),
    ensures
        index::index_ids(state::index_of(s, db, table, d.indices[k].name), v).contains(id) == has_level(
            m,
            d.indices[k].columns,
            v,
            id,
        ),
{
    assert(exact(m, d.indices[k].columns, state::index_of(s, db, table, d.indices[k].name)));
}

/// The indexes of a table follow a change of a row exactly.
pub proof fn lemma_change_exact(s: StateV, a: StateV, db: u32, table: Seq<char>, row: RowV, id: u64, op: IndexOpV)
    requires
        table_exact(s, db, table),
        a.schemas == s.schemas,
        a.indexes == s.indexes,
        a.dbs == (match state::table_rows(s, db, table) {
            Some(m) => catalog::changed(s.dbs, db, table, covering::rows_after(m, row, id, op)),
            None => s.dbs,
        }),
        match state::table_rows(s, db, table) {
            Some(m) => match op {
                IndexOpV::Insert => !m.contains_key(id),
                IndexOpV::Delete => m.contains_key(id) && m[id] == row,
                IndexOpV::Update { old_row } => m.contains_key(id) && m[id] == old_row,
            },
            None => true,
        },
    ensures
        table_exact(index::indexed(a, db, table, row, id, op), db, table),
{
    let t = index::indexed(a, db, table, row, id, op);
    index::lemma_indexed_fields(a, db, table, row, id, op);
    match (state::table_schema(s, db, table), state::table_rows(s, db, table)) {
        (Some(d), Some(m)) => {
            let w = covering::rows_after(m, row, id, op);
            assoc::lemma_get_put(s.dbs.items, (db, table), w);
            assert forall|k: int| 0 <= k < d.indices.len() implies exact(
                w,
                (#[trigger] d.indices[k]).columns,
                state::index_of(t, db, table, d.indices[k].name),
            ) by {
                covering::lemma_followed_at(a, db, table, d.indices, d.indices.len() as int, row, id, op, k);
                lemma_follows_exactly(
                    m,
                    d.indices[k].columns,
                    state::index_of(s, db, table, d.indices[k].name),
                    row,
                    id,
                    op,
                );
            }
        },
        _ => {},
    }
}

/// Full-text indexes are no part of it.
proof fn lemma_synced_exact(s: StateV, db: u32, table: Seq<char>, id: u64, row: RowV, is_delete: bool)
    requires
        table_exact(s, db, table),
    ensures
        table_exact(dml::fts_synced(s, db, table, id, row, is_delete), db, table),
{
    let t = dml::fts_synced(s, db, table, id, row, is_delete);
    dml::lemma_synced_fields(s, db, table, id, row, is_delete);
    lemma_same_indexes(s, t, db, table);
}

/// What the indexes of a table hold depends on its definition, its rows and its indexes alone.
pub proof fn lemma_same_indexes(s: StateV, t: StateV, db: u32, table: Seq<char>)
    requires
        table_exact(s, db, table),
        covering::alike(s, t, db, table),
    ensures
        table_exact(t, db, table),
{
    match (state::table_schema(s, db, table), state::table_rows(s, db, table)) {
        (Some(d), Some(m)) => {
            assert forall|k: int| 0 <= k < d.indices.len() implies exact(
                m,
                (#[trigger] d.indices[k]).columns,
                state::index_of(t, db, table, d.indices[k].name),
            ) by {
                assert(state::index_of(t, db, table, d.indices[k].name) == state::index_of(s, db, table, d.indices[k].name));
            }
        },
        _ => {},
    }
}

/// The indexes of a table follow a row that is written under a new id.
pub proof fn lemma_row_written_exact(s: StateV, db: u32, table: Seq<char>, id: u64, row: RowV, tx: Option<u32>)
    requires
        table_exact(s, db, table),
        match state::table_rows(s, db, table) {
            Some(m) => !m.contains_key(id),
            None => true,
        },
    ensures
        table_exact(dml::row_written(s, db, table, id, row, tx), db, table),
{
    let a = dml::journaled(state::row_stored(s, db, table, id, row), tx, UndoV::Insert { table, rowid: id });
    lemma_change_exact(s, a, db, table, row, id, IndexOpV::Insert);
    lemma_synced_exact(index::indexed(a, db, table, row, id, IndexOpV::Insert), db, table, id, row, false);
}

/// The indexes of a table follow a row that is changed.
pub proof fn lemma_row_rewritten_exact(
    s: StateV,
    db: u32,
    table: Seq<char>,
    id: u64,
    old_row: RowV,
    new_row: RowV,
    tx: Option<u32>,
)
    requires
        table_exact(s, db, table),
        match state::table_rows(s, db, table) {
            Some(m) => m.contains_key(id) && m[id] == old_row,
            None => false,
        },
    ensures
        table_exact(dml::row_rewritten(s, db, table, id, old_row, new_row, tx), db, table),
{
    let op = IndexOpV::Update { old_row };
    let a = dml::journaled(state::row_stored(s, db, table, id, new_row), tx, UndoV::Update { table, rowid: id, old_row });
    let b = index::indexed(a, db, table, new_row, id, op);
    lemma_change_exact(s, a, db, table, new_row, id, op);
    lemma_synced_exact(b, db, table, id, old_row, true);
    lemma_synced_exact(dml::fts_synced(b, db, table, id, old_row, true), db, table, id, new_row, false);
}

/// The indexes of a table follow a row that leaves.
pub proof fn lemma_row_erased_exact(s: StateV, db: u32, table: Seq<char>, id: u64, row: RowV, tx: Option<u32>)
    requires
        table_exact(s, db, table),
        match state::table_rows(s, db, table) {
            Some(m) => m.contains_key(id) && m[id] == row,
            None => false,
        },
    ensures
        table_exact(dml::row_erased(s, db, table, id, row, tx), db, table),
{
    let a = dml::journaled(state::row_dropped(s, db, table, id), tx, UndoV::Delete { table, rowid: id, row });
    lemma_change_exact(s, a, db, table, row, id, IndexOpV::Delete);
    lemma_synced_exact(index::indexed(a, db, table, row, id, IndexOpV::Delete), db, table, id, row, true);
}

/// The indexes of a table follow a change that is undone.
pub proof fn lemma_undone_exact(s: StateV, db: u32, op: UndoV, table: Seq<char>)
    requires
        table_exact(s, db, table),
        rollback::undo_table(op) == table,
        match (op, state::table_rows(s, db, table)) {
            (UndoV::Delete { table: t, rowid, row }, Some(m)) => !m.contains_key(rowid),
            (UndoV::Update { table: t, rowid, old_row }, Some(m)) => m.contains_key(rowid),
            _ => true,
        },
    ensures
        table_exact(transaction::undone(s, db, op), db, table),
{
    match state::table_rows(s, db, table) {
        Some(m) => match op {
            UndoV::Insert { table: t, rowid } => if m.contains_key(rowid) {
                lemma_row_erased_exact(s, db, table, rowid, m[rowid], None);
                assert(transaction::undone(s, db, op) == dml::row_erased(s, db, table, rowid, m[rowid], None));
            },
            UndoV::Delete { table: t, rowid, row } => {
                lemma_row_written_exact(s, db, table, rowid, row, None);
                assert(transaction::undone(s, db, op) == dml::row_written(s, db, table, rowid, row, None));
            },
            UndoV::Update { table: t, rowid, old_row } => {
                lemma_row_rewritten_exact(s, db, table, rowid, m[rowid], old_row, None);
                assert(transaction::undone(s, db, op) == dml::row_rewritten(s, db, table, rowid, m[rowid], old_row, None));
            },
        },
        None => {},
    }
}

proof fn lemma_rebuilt_at_exactly(s: StateV, db: u32, table: Seq<char>, indices: Seq<IndexV>, n: int, k: int, m: Map<u64, RowV>)
    requires
        covering::names_differ(indices),
        0 <= k < n <= indices.len(),
        state::table_rows(s, db, table) == Some(m),
    ensures
        exact(m, indices[k].columns, state::index_of(ddl::indexes_rebuilt(s, db, table, indices, n), db, table, indices[k].name)),
    decreases n,
{
    let p = ddl::indexes_rebuilt(s, db, table, indices, n - 1);
    let name = indices[k].name;
    covering::lemma_rebuilt(s, db, table, indices, n - 1, db, table, name);
    lemma_built_is_exact(m, indices[n - 1].columns);
    covering::lemma_index_set(
        p,
        db,
        table,
        indices[n - 1].name,
        index::built_index(store::row_list(m), indices[n - 1].columns, store::row_list(m).len() as int),
        db,
        table,
        name,
    );
    if k < n - 1 {
        lemma_rebuilt_at_exactly(s, db, table, indices, n - 1, k, m);
        assert(indices[k].name != indices[n - 1].name);
    }
}

/// Indexes that are made anew hold exactly what the rows give.
pub proof fn lemma_rebuilt_exact(a: StateV, db: u32, table: Seq<char>, d: SchemaV)
    requires
        state::table_schema(a, db, table) == Some(d),
        covering::names_differ(d.indices),
    ensures
        table_exact(ddl::indexes_rebuilt(a, db, table, d.indices, d.indices.len() as int), db, table),
{
    let n = d.indices.len() as int;
    covering::lemma_rebuilt(a, db, table, d.indices, n, db, table, Seq::empty());
    match state::table_rows(a, db, table) {
        Some(m) => {
            let t = ddl::indexes_rebuilt(a, db, table, d.indices, n);
            assert forall|k: int| 0 <= k < n implies exact(
                m,
                (#[trigger] d.indices[k]).columns,
                state::index_of(t, db, table, d.indices[k].name),
            ) by {
                lemma_rebuilt_at_exactly(a, db, table, d.indices, n, k, m);
            }
        },
        None => {},
    }
}

} // verus!

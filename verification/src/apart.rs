//! What keeps things apart: a statement on one database leaves the others, and all raw values,
//! as they are.
use vstd::prelude::*;

use crate::assoc;
use crate::ast::{AlterTableOperationV, AssignmentV, QueryV, StatementV};
use crate::catalog;
use crate::catalog::CatalogV;
use crate::fts;
use crate::fts::FtsTableV;
use crate::index;
use crate::index::{IndexMapV, IndexOpV};
use crate::row::RowV;
use crate::schema::{ColumnV, IndexV, SchemaV, TriggerEvent, TriggerTiming, TriggerV, ValueV};
use crate::sql;
use crate::sql::ddl;
use crate::sql::ddl::RowChangeV;
use crate::sql::dml;
use crate::sql::parser;
use crate::state;
use crate::state::StateV;
use crate::store;
use crate::transaction;
use crate::transaction::UndoV;
use crate::triggers;

verus! {

/// Whether a directory changed in one database only, and is still without names that stand in it
/// twice.
pub open spec fn kept<T>(db: u32, a: CatalogV<T>, b: CatalogV<T>) -> bool {
    &&& assoc::assoc_distinct(a.items) ==> assoc::assoc_distinct(b.items)
    &&& forall|d: u32, name: Seq<char>| d != db ==> #[trigger] catalog::find(b, d, name) == catalog::find(a, d, name)
}

/// Whether a state came from another by changes of one database only, none of them on raw values.
pub open spec fn untouched(db: u32, s: StateV, t: StateV) -> bool {
    &&& kept(db, s.dbs, t.dbs)
    &&& kept(db, s.schemas, t.schemas)
    &&& kept(db, s.generators, t.generators)
    &&& kept(db, s.indexes, t.indexes)
    &&& kept(db, s.triggers, t.triggers)
    &&& kept(db, s.views, t.views)
    &&& kept(db, s.fts, t.fts)
    &&& t.raw == s.raw
    &&& t.names == s.names
    &&& t.limit == s.limit
    &&& t.overflow_dir == s.overflow_dir
}

/// Whether every transaction that was under way still is, in its database.
pub open spec fn under_way(s: StateV, t: StateV) -> bool {
    forall|id: u32| #[trigger]
        s.txns.active.contains_key(id) ==> t.txns.active.contains_key(id) && t.txns.active[id].db == s.txns.active[id].db
}

/// Whether a state came from another by changes of one database only, none of them on raw values,
/// without the end of a transaction.
pub open spec fn apart(db: u32, s: StateV, t: StateV) -> bool {
    untouched(db, s, t) && under_way(s, t)
}

/// Whether no name stands twice in a directory of the state.
pub open spec fn single_names(s: StateV) -> bool {
    &&& assoc::assoc_distinct(s.dbs.items)
    &&& assoc::assoc_distinct(s.schemas.items)
    &&& assoc::assoc_distinct(s.generators.items)
    &&& assoc::assoc_distinct(s.raw.items)
    &&& assoc::assoc_distinct(s.indexes.items)
    &&& assoc::assoc_distinct(s.triggers.items)
    &&& assoc::assoc_distinct(s.views.items)
    &&& assoc::assoc_distinct(s.fts.items)
}

proof fn lemma_apart_same(db: u32, s: StateV, t: StateV)
    requires
        t == (StateV { txns: t.txns, ..s }),
    ensures
        untouched(db, s, t),
        under_way(s, t) ==> apart(db, s, t),
{
}

proof fn lemma_kept_on<T>(db: u32, a: CatalogV<T>, b: CatalogV<T>, c: CatalogV<T>)
    requires
        kept(db, a, b),
        kept(db, b, c),
    ensures
        kept(db, a, c),
{
    assert forall|d: u32, name: Seq<char>| d != db implies #[trigger] catalog::find(c, d, name) == catalog::find(a, d, name) by {
        assert(catalog::find(b, d, name) == catalog::find(a, d, name));
    }
}

proof fn lemma_untouched_on(db: u32, s: StateV, t: StateV, u: StateV)
    requires
        untouched(db, s, t),
        untouched(db, t, u),
    ensures
        untouched(db, s, u),
{
    lemma_kept_on(db, s.dbs, t.dbs, u.dbs);
    lemma_kept_on(db, s.schemas, t.schemas, u.schemas);
    lemma_kept_on(db, s.generators, t.generators, u.generators);
    lemma_kept_on(db, s.indexes, t.indexes, u.indexes);
    lemma_kept_on(db, s.triggers, t.triggers, u.triggers);
    lemma_kept_on(db, s.views, t.views, u.views);
    lemma_kept_on(db, s.fts, t.fts, u.fts);
}

proof fn lemma_apart_on(db: u32, s: StateV, t: StateV, u: StateV)
    requires
        apart(db, s, t),
        apart(db, t, u),
    ensures
        apart(db, s, u),
{
    lemma_untouched_on(db, s, t, u);
}

proof fn lemma_with_kept<T>(db: u32, c: CatalogV<T>, name: Seq<char>, v: T)
    ensures
        kept(db, c, catalog::with(c, db, name, v)),
        kept(db, c, catalog::changed(c, db, name, v)),
{
    if assoc::assoc_distinct(c.items) {
        assoc::lemma_put_distinct(c.items, (db, name), v);
    }
    assert forall|d: u32, n: Seq<char>| d != db implies #[trigger] catalog::find(catalog::with(c, db, name, v), d, n) == catalog::find(c, d, n) by {
        assoc::lemma_get_put_other(c.items, (db, name), v, (d, n));
    }
    assert forall|d: u32, n: Seq<char>| d != db implies #[trigger] catalog::find(catalog::changed(c, db, name, v), d, n) == catalog::find(c, d, n) by {
        assoc::lemma_get_put_other(c.items, (db, name), v, (d, n));
    }
}

proof fn lemma_without_kept<T>(db: u32, c: CatalogV<T>, name: Seq<char>)
    ensures
        kept(db, c, catalog::without(c, db, name)),
        kept(db, c, catalog::knowing(c, db)),
{
    if assoc::assoc_distinct(c.items) {
        assoc::lemma_remove_distinct(c.items, (db, name));
    }
    assert forall|d: u32, n: Seq<char>| d != db implies #[trigger] catalog::find(catalog::without(c, db, name), d, n) == catalog::find(c, d, n) by {
        assoc::lemma_get_remove_other(c.items, (db, name), (d, n));
    }
}

proof fn lemma_moved_kept<T>(db: u32, c: CatalogV<T>, from: Seq<char>, to: Seq<char>)
    ensures
        kept(db, c, ddl::moved(c, db, from, to)),
{
    match catalog::find(c, db, from) {
        Some(v) => {
            let w = catalog::without(c, db, from);
            lemma_without_kept(db, c, from);
            lemma_with_kept(db, w, to, v);
            lemma_kept_on(db, c, w, catalog::with(w, db, to, v));
        },
        None => {},
    }
}

proof fn lemma_index_set_apart(s: StateV, db: u32, table: Seq<char>, index: Seq<char>, m: IndexMapV)
    ensures
        apart(db, s, state::index_set(s, db, table, index, m)),
        apart(db, s, state::index_dropped(s, db, table, index)),
{
    lemma_with_kept(db, s.indexes, state::index_key(table, index), m);
    lemma_without_kept(db, s.indexes, state::index_key(table, index));
}

proof fn lemma_added_apart(s: StateV, db: u32, table: Seq<char>, idx: IndexV, row: RowV, id: u64)
    ensures
        apart(db, s, index::added_to_index(s, db, table, idx, row, id)),
        apart(db, s, index::removed_from_index(s, db, table, idx, row, id)),
{
    lemma_apart_same(db, s, s);
    match index::indexed_value(idx.columns, row) {
        Some(v) => {
            let m = state::index_of(s, db, table, idx.name);
            lemma_index_set_apart(s, db, table, idx.name, index::index_with(m, v, id));
            lemma_index_set_apart(s, db, table, idx.name, index::index_without(m, v, id));
        },
        None => {},
    }
}

proof fn lemma_followed_apart(
    s: StateV,
    db: u32,
    table: Seq<char>,
    indices: Seq<IndexV>,
    n: int,
    row: RowV,
    id: u64,
    op: IndexOpV,
)
    ensures
        apart(db, s, index::indexes_followed(s, db, table, indices, n, row, id, op)),
    decreases n,
{
    lemma_apart_same(db, s, s);
    if n > 0 && n <= indices.len() {
        lemma_followed_apart(s, db, table, indices, n - 1, row, id, op);
        let p = index::indexes_followed(s, db, table, indices, n - 1, row, id, op);
        let idx = indices[n - 1];
        lemma_added_apart(p, db, table, idx, row, id);
        match op {
            IndexOpV::Insert => lemma_apart_on(db, s, p, index::added_to_index(p, db, table, idx, row, id)),
            IndexOpV::Delete => lemma_apart_on(db, s, p, index::removed_from_index(p, db, table, idx, row, id)),
            IndexOpV::Update { old_row } => {
                let q = index::removed_from_index(p, db, table, idx, old_row, id);
                lemma_added_apart(p, db, table, idx, old_row, id);
                lemma_added_apart(q, db, table, idx, row, id);
                lemma_apart_on(db, s, p, q);
                lemma_apart_on(db, s, q, index::added_to_index(q, db, table, idx, row, id));
            },
        }
    }
}

proof fn lemma_indexed_apart(s: StateV, db: u32, table: Seq<char>, row: RowV, id: u64, op: IndexOpV)
    ensures
        apart(db, s, index::indexed(s, db, table, row, id, op)),
{
    lemma_apart_same(db, s, s);
    match state::table_schema(s, db, table) {
        Some(d) => lemma_followed_apart(s, db, table, d.indices, d.indices.len() as int, row, id, op),
        None => {},
    }
}

proof fn lemma_synced_apart(s: StateV, db: u32, table: Seq<char>, id: u64, row: RowV, is_delete: bool)
    ensures
        apart(db, s, dml::fts_synced(s, db, table, id, row, is_delete)),
{
    lemma_apart_same(db, s, s);
    match catalog::find(s.fts, db, table) {
        Some(t) => match dml::fts_content(t, row) {
            Some(c) => {
                let index = if is_delete {
                    fts::without_document(t.index, id, c)
                } else {
                    fts::with_document(t.index, id, c)
                };
                lemma_with_kept(db, s.fts, table, FtsTableV { index, ..t });
            },
            None => {},
        },
        None => {},
    }
}

proof fn lemma_stored_apart(s: StateV, db: u32, table: Seq<char>, id: u64, row: RowV)
    ensures
        apart(db, s, state::row_stored(s, db, table, id, row)),
        apart(db, s, state::row_dropped(s, db, table, id)),
{
    lemma_apart_same(db, s, s);
    match state::table_rows(s, db, table) {
        Some(m) => {
            lemma_with_kept(db, s.dbs, table, m.insert(id, row));
            lemma_with_kept(db, s.dbs, table, m.remove(id));
        },
        None => {},
    }
}

/// A change of one row, with what follows it, stays in its database.
proof fn lemma_row_change_apart(
    s: StateV,
    a: StateV,
    b: StateV,
    db: u32,
    table: Seq<char>,
    id: u64,
    row: RowV,
    op: IndexOpV,
)
    requires
        apart(db, s, a),
        b == (StateV { txns: b.txns, ..a }),
        under_way(a, b),
    ensures
        apart(db, s, index::indexed(b, db, table, row, id, op)),
{
    lemma_apart_same(db, a, b);
    lemma_apart_on(db, s, a, b);
    lemma_indexed_apart(b, db, table, row, id, op);
    lemma_apart_on(db, s, b, index::indexed(b, db, table, row, id, op));
}

proof fn lemma_row_written_apart(s: StateV, db: u32, table: Seq<char>, id: u64, row: RowV, tx: Option<u32>)
    ensures
        apart(db, s, dml::row_written(s, db, table, id, row, tx)),
{
    let a = state::row_stored(s, db, table, id, row);
    let b = dml::journaled(a, tx, UndoV::Insert { table, rowid: id });
    let c = index::indexed(b, db, table, row, id, IndexOpV::Insert);
    lemma_stored_apart(s, db, table, id, row);
    lemma_row_change_apart(s, a, b, db, table, id, row, IndexOpV::Insert);
    lemma_synced_apart(c, db, table, id, row, false);
    lemma_apart_on(db, s, c, dml::fts_synced(c, db, table, id, row, false));
}

proof fn lemma_fts_moved_apart(s: StateV, c: StateV, db: u32, table: Seq<char>, id: u64, old_row: RowV, new_row: RowV)
    requires
        apart(db, s, c),
    ensures
        apart(db, s, dml::fts_moved(c, db, table, id, old_row, new_row)),
{
    let e = dml::fts_synced(c, db, table, id, old_row, true);
    lemma_synced_apart(c, db, table, id, old_row, true);
    lemma_synced_apart(e, db, table, id, new_row, false);
    lemma_apart_on(db, s, c, e);
    lemma_apart_on(db, s, e, dml::fts_synced(e, db, table, id, new_row, false));
}

proof fn lemma_row_rewritten_apart(
    s: StateV,
    db: u32,
    table: Seq<char>,
    id: u64,
    old_row: RowV,
    new_row: RowV,
    tx: Option<u32>,
)
    ensures
        apart(db, s, dml::row_rewritten(s, db, table, id, old_row, new_row, tx)),
{
    let a = state::row_stored(s, db, table, id, new_row);
    let b = dml::journaled(a, tx, UndoV::Update { table, rowid: id, old_row });
    let op = IndexOpV::Update { old_row };
    lemma_stored_apart(s, db, table, id, new_row);
    lemma_row_change_apart(s, a, b, db, table, id, new_row, op);
    lemma_fts_moved_apart(s, index::indexed(b, db, table, new_row, id, op), db, table, id, old_row, new_row);
}

proof fn lemma_row_erased_apart(s: StateV, db: u32, table: Seq<char>, id: u64, row: RowV, tx: Option<u32>)
    ensures
        apart(db, s, dml::row_erased(s, db, table, id, row, tx)),
{
    let a = state::row_dropped(s, db, table, id);
    let b = dml::journaled(a, tx, UndoV::Delete { table, rowid: id, row });
    let c = index::indexed(b, db, table, row, id, IndexOpV::Delete);
    lemma_stored_apart(s, db, table, id, row);
    lemma_row_change_apart(s, a, b, db, table, id, row, IndexOpV::Delete);
    lemma_synced_apart(c, db, table, id, row, true);
    lemma_apart_on(db, s, c, dml::fts_synced(c, db, table, id, row, true));
}

proof fn lemma_undone_apart(s: StateV, db: u32, op: UndoV)
    ensures
        apart(db, s, transaction::undone(s, db, op)),
{
    lemma_apart_same(db, s, s);
    match op {
        UndoV::Insert { table, rowid } => match state::table_rows(s, db, table) {
            Some(m) => if m.contains_key(rowid) {
                let row = m[rowid];
                let a = state::row_dropped(s, db, table, rowid);
                let c = index::indexed(a, db, table, row, rowid, IndexOpV::Delete);
                lemma_stored_apart(s, db, table, rowid, row);
                lemma_row_change_apart(s, a, a, db, table, rowid, row, IndexOpV::Delete);
                lemma_synced_apart(c, db, table, rowid, row, true);
                lemma_apart_on(db, s, c, dml::fts_synced(c, db, table, rowid, row, true));
            },
            None => {},
        },
        UndoV::Delete { table, rowid, row } => {
            let a = state::row_stored(s, db, table, rowid, row);
            let c = index::indexed(a, db, table, row, rowid, IndexOpV::Insert);
            lemma_stored_apart(s, db, table, rowid, row);
            lemma_row_change_apart(s, a, a, db, table, rowid, row, IndexOpV::Insert);
            lemma_synced_apart(c, db, table, rowid, row, false);
            lemma_apart_on(db, s, c, dml::fts_synced(c, db, table, rowid, row, false));
        },
        UndoV::Update { table, rowid, old_row } => match state::table_rows(s, db, table) {
            Some(m) => {
                let a = state::row_stored(s, db, table, rowid, old_row);
                lemma_stored_apart(s, db, table, rowid, old_row);
                if m.contains_key(rowid) {
                    let op = IndexOpV::Update { old_row: m[rowid] };
                    lemma_row_change_apart(s, a, a, db, table, rowid, old_row, op);
                    lemma_fts_moved_apart(
                        s,
                        index::indexed(a, db, table, old_row, rowid, op),
                        db,
                        table,
                        rowid,
                        m[rowid],
                        old_row,
                    );
                } else {
                    let op = IndexOpV::Update { old_row: Seq::empty() };
                    lemma_row_change_apart(s, a, a, db, table, rowid, old_row, op);
                }
            },
            None => {},
        },
    }
}

proof fn lemma_undone_upto_apart(s: StateV, db: u32, ops: Seq<UndoV>, n: int)
    ensures
        apart(db, s, transaction::undone_upto(s, db, ops, n)),
    decreases n,
{
    lemma_apart_same(db, s, s);
    if n > 0 && n <= ops.len() {
        let u = transaction::undone(s, db, ops[n - 1]);
        lemma_undone_apart(s, db, ops[n - 1]);
        lemma_undone_upto_apart(u, db, ops, n - 1);
        lemma_apart_on(db, s, u, transaction::undone_upto(u, db, ops, n - 1));
    }
}

proof fn lemma_rebuilt_apart(s: StateV, db: u32, table: Seq<char>, idx: IndexV)
    ensures
        apart(db, s, index::index_rebuilt(s, db, table, idx)),
{
    lemma_apart_same(db, s, s);
    match state::table_rows(s, db, table) {
        Some(m) => lemma_index_set_apart(
            s,
            db,
            table,
            idx.name,
            index::built_index(store::row_list(m), idx.columns, store::row_list(m).len() as int),
        ),
        None => {},
    }
}

proof fn lemma_indexes_rebuilt_apart(s: StateV, db: u32, table: Seq<char>, indices: Seq<IndexV>, n: int)
    ensures
        apart(db, s, ddl::indexes_rebuilt(s, db, table, indices, n)),
        apart(db, s, ddl::indexes_dropped(s, db, table, indices, n)),
    decreases n,
{
    lemma_apart_same(db, s, s);
    if n > 0 && n <= indices.len() {
        lemma_indexes_rebuilt_apart(s, db, table, indices, n - 1);
        let p = ddl::indexes_rebuilt(s, db, table, indices, n - 1);
        lemma_rebuilt_apart(p, db, table, indices[n - 1]);
        lemma_apart_on(db, s, p, index::index_rebuilt(p, db, table, indices[n - 1]));
        let q = ddl::indexes_dropped(s, db, table, indices, n - 1);
        lemma_index_set_apart(q, db, table, indices[n - 1].name, Seq::empty());
        lemma_apart_on(db, s, q, state::index_dropped(q, db, table, indices[n - 1].name));
    }
}

proof fn lemma_table_added_apart(s: StateV, db: u32, d: SchemaV)
    ensures
        apart(db, s, ddl::table_added(s, db, d)),
{
    lemma_with_kept(db, s.schemas, d.name, d);
    lemma_with_kept(db, s.dbs, d.name, Map::empty());
    lemma_with_kept(db, s.generators, d.name, 1);
}

proof fn lemma_table_removed_apart(s: StateV, db: u32, table: Seq<char>)
    ensures
        apart(db, s, ddl::table_removed(s, db, table)),
        apart(db, s, StateV { schemas: catalog::knowing(s.schemas, db), ..s }),
{
    let k = catalog::knowing(s.schemas, db);
    lemma_without_kept(db, s.schemas, table);
    lemma_without_kept(db, k, table);
    lemma_kept_on(db, s.schemas, k, catalog::without(k, db, table));
    lemma_without_kept(db, s.dbs, table);
    lemma_without_kept(db, s.generators, table);
    lemma_without_kept(db, s.triggers, table);
    lemma_without_kept(db, s.fts, table);
    lemma_without_kept(db, s.views, table);
}

proof fn lemma_tables_dropped_apart(s: StateV, db: u32, names: Seq<Seq<char>>, if_exists: bool, n: int)
    ensures
        apart(db, s, ddl::tables_dropped(s, db, names, if_exists, n).0),
    decreases n,
{
    lemma_apart_same(db, s, s);
    if n > 0 && n <= names.len() {
        lemma_tables_dropped_apart(s, db, names, if_exists, n - 1);
        let (p, e) = ddl::tables_dropped(s, db, names, if_exists, n - 1);
        lemma_table_removed_apart(p, db, names[n - 1]);
        lemma_apart_on(db, s, p, ddl::table_removed(p, db, names[n - 1]));
        lemma_apart_on(db, s, p, StateV { schemas: catalog::knowing(p.schemas, db), ..p });
    }
}

proof fn lemma_views_dropped_apart(s: StateV, db: u32, names: Seq<Seq<char>>, if_exists: bool, n: int)
    ensures
        apart(db, s, ddl::views_dropped(s, db, names, if_exists, n).0),
    decreases n,
{
    lemma_apart_same(db, s, s);
    if n > 0 && n <= names.len() {
        lemma_views_dropped_apart(s, db, names, if_exists, n - 1);
        let (p, e) = ddl::views_dropped(s, db, names, if_exists, n - 1);
        lemma_apart_same(db, p, p);
        lemma_without_kept(db, p.views, names[n - 1]);
        let q = state::view_removed(p, db, names[n - 1]).0;
        assert(apart(db, p, q));
        lemma_apart_on(db, s, p, q);
    }
}

proof fn lemma_indexes_removed_apart(s: StateV, db: u32, names: Seq<Seq<char>>, if_exists: bool, n: int)
    ensures
        apart(db, s, ddl::indexes_removed(s, db, names, if_exists, n).0),
    decreases n,
{
    lemma_apart_same(db, s, s);
    if n > 0 && n <= names.len() {
        lemma_indexes_removed_apart(s, db, names, if_exists, n - 1);
        let (p, e) = ddl::indexes_removed(s, db, names, if_exists, n - 1);
        match ddl::index_holder(p.schemas.items, db, names[n - 1], 0) {
            Some((table, d)) => {
                let x = SchemaV { indices: ddl::other_indexes(d.indices, names[n - 1], d.indices.len() as int), ..d };
                let q = StateV { schemas: catalog::with(p.schemas, db, table, x), ..p };
                lemma_with_kept(db, p.schemas, table, x);
                lemma_apart_on(db, s, p, q);
                lemma_index_set_apart(q, db, table, names[n - 1], Seq::empty());
                lemma_apart_on(db, s, q, state::index_dropped(q, db, table, names[n - 1]));
            },
            None => {},
        }
    }
}

proof fn lemma_reshaped_apart(s: StateV, db: u32, table: Seq<char>, d: SchemaV, c: RowChangeV)
    ensures
        apart(db, s, ddl::reshaped(s, db, table, d, c)),
{
    let t = ddl::table_changed(s, db, table, c);
    lemma_apart_same(db, s, s);
    match state::table_rows(s, db, table) {
        Some(m) => lemma_with_kept(db, s.dbs, table, ddl::rows_changed(m, c)),
        None => {},
    }
    let u = StateV { schemas: catalog::with(t.schemas, db, table, d), ..t };
    lemma_with_kept(db, t.schemas, table, d);
    lemma_apart_on(db, s, t, u);
    let n = d.indices.len() as int;
    lemma_indexes_rebuilt_apart(u, db, table, d.indices, n);
    lemma_apart_on(db, s, u, ddl::indexes_rebuilt(u, db, table, d.indices, n));
}

proof fn lemma_table_renamed_apart(s: StateV, db: u32, table: Seq<char>, d: SchemaV, to: Seq<char>)
    ensures
        apart(db, s, ddl::table_renamed(s, db, table, d, to)),
{
    let w = catalog::without(s.schemas, db, table);
    let x = SchemaV { name: to, ..d };
    let t = StateV {
        schemas: catalog::with(w, db, to, x),
        dbs: ddl::moved(s.dbs, db, table, to),
        generators: ddl::moved(s.generators, db, table, to),
        ..s
    };
    lemma_without_kept(db, s.schemas, table);
    lemma_with_kept(db, w, to, x);
    lemma_kept_on(db, s.schemas, w, catalog::with(w, db, to, x));
    lemma_moved_kept(db, s.dbs, table, to);
    lemma_moved_kept(db, s.generators, table, to);
    let n = d.indices.len() as int;
    let u = ddl::indexes_dropped(t, db, table, d.indices, n);
    lemma_indexes_rebuilt_apart(t, db, table, d.indices, n);
    lemma_apart_on(db, s, t, u);
    lemma_indexes_rebuilt_apart(u, db, to, d.indices, n);
    lemma_apart_on(db, s, u, ddl::indexes_rebuilt(u, db, to, d.indices, n));
}

proof fn lemma_alter_step_apart(p: StateV, db: u32, name: Seq<char>, op: AlterTableOperationV)
    ensures
        apart(db, p, ddl::alter_step(p, db, name, op).0),
{
    lemma_apart_same(db, p, p);
    match state::table_schema(p, db, name) {
        Some(d) => match op {
            AlterTableOperationV::AddColumn(c) => {
                let x = ddl::column_of(c);
                let v = match x.default {
                    Some(v) => v,
                    None => ValueV::Null,
                };
                lemma_reshaped_apart(
                    p,
                    db,
                    name,
                    SchemaV { columns: assoc::assoc_put(d.columns, x.name, x), ..d },
                    RowChangeV::Put(x.name, v),
                );
            },
            AlterTableOperationV::DropColumn { column, if_exists } => {
                let rowid_column = if d.rowid_column == Some(column) {
                    None
                } else {
                    d.rowid_column
                };
                lemma_reshaped_apart(
                    p,
                    db,
                    name,
                    SchemaV { columns: assoc::assoc_remove(d.columns, column), rowid_column, ..d },
                    RowChangeV::Take(column),
                );
            },
            AlterTableOperationV::RenameColumn { old_name, new_name } => match assoc::assoc_get(d.columns, old_name) {
                Some(c) => {
                    let rest = assoc::assoc_remove(d.columns, old_name);
                    let place = assoc::assoc_place(d.columns, old_name);
                    let rowid_column = if d.rowid_column == Some(old_name) {
                        Some(new_name)
                    } else {
                        d.rowid_column
                    };
                    lemma_reshaped_apart(
                        p,
                        db,
                        name,
                        SchemaV {
                            columns: assoc::assoc_remove(rest, new_name).insert(
                                place,
                                (new_name, ColumnV { name: new_name, ..c }),
                            ),
                            rowid_column,
                            ..d
                        },
                        RowChangeV::Rename(old_name, new_name),
                    );
                },
                None => {},
            },
            AlterTableOperationV::RenameTable(to) => lemma_table_renamed_apart(p, db, name, d, to),
            AlterTableOperationV::Other(_) => {},
        },
        None => {},
    }
}

proof fn lemma_altered_apart(s: StateV, db: u32, table: Seq<char>, ops: Seq<AlterTableOperationV>, n: int)
    ensures
        apart(db, s, ddl::altered(s, db, table, ops, n).0),
    decreases n,
{
    lemma_apart_same(db, s, s);
    if n > 0 && n <= ops.len() {
        lemma_altered_apart(s, db, table, ops, n - 1);
        let (p, name, e) = ddl::altered(s, db, table, ops, n - 1);
        lemma_alter_step_apart(p, db, name, ops[n - 1]);
        lemma_apart_on(db, s, p, ddl::alter_step(p, db, name, ops[n - 1]).0);
    }
}

proof fn lemma_index_created_apart(
    s: StateV,
    db: u32,
    name: Option<Seq<char>>,
    table: Seq<char>,
    columns: Seq<Seq<char>>,
    unique: bool,
    if_not_exists: bool,
)
    ensures
        apart(db, s, ddl::index_created(s, db, name, table, columns, unique, if_not_exists).0),
{
    lemma_apart_same(db, s, s);
    match state::table_schema(s, db, table) {
        Some(d) => {
            let index = ddl::index_name_of(name, table, columns);
            let idx = IndexV { name: index, columns, unique, partial_where: None, is_expression: false };
            let x = SchemaV { indices: d.indices.push(idx), ..d };
            let t = StateV { schemas: catalog::with(s.schemas, db, table, x), ..s };
            lemma_with_kept(db, s.schemas, table, x);
            lemma_rebuilt_apart(t, db, table, idx);
            lemma_apart_on(db, s, t, index::index_rebuilt(t, db, table, idx));
        },
        None => {},
    }
}

proof fn lemma_fts_created_apart(
    s: StateV,
    db: u32,
    name: Seq<char>,
    if_not_exists: bool,
    module: Seq<char>,
    args: Seq<Seq<char>>,
)
    ensures
        apart(db, s, ddl::fts_created(s, db, name, if_not_exists, module, args).0),
{
    lemma_apart_same(db, s, s);
    let t = ddl::table_added(s, db, ddl::fts_schema(name, args));
    let f = FtsTableV { name, index: fts::empty_index(), content_column: ddl::content_column(args) };
    lemma_table_added_apart(s, db, ddl::fts_schema(name, args));
    lemma_with_kept(db, t.fts, name, f);
    lemma_apart_on(db, s, t, StateV { fts: catalog::with(t.fts, db, name, f), ..t });
}

proof fn lemma_fired_one_apart(
    depth: nat,
    s: StateV,
    db: u32,
    t: TriggerV,
    old_row: Option<RowV>,
    new_row: Option<RowV>,
    tx: Option<u32>,
)
    ensures
        apart(db, s, triggers::fired_one(depth, s, db, t, old_row, new_row, tx).0),
    decreases depth, 0nat, 0int,
{
    lemma_apart_same(db, s, s);
    match triggers::fires(s, db, t, old_row, new_row) {
        Ok(true) => match parser::statements_in(triggers::body_text(t.body, old_row, new_row)) {
            Ok(stmts) => if depth > 0 {
                lemma_ran_upto_apart((depth - 1) as nat, s, db, stmts, tx, stmts.len() as int);
            },
            _ => {},
        },
        _ => {},
    }
}

proof fn lemma_fired_upto_apart(
    depth: nat,
    s: StateV,
    db: u32,
    ts: Seq<TriggerV>,
    event: TriggerEvent,
    timing: TriggerTiming,
    old_row: Option<RowV>,
    new_row: Option<RowV>,
    tx: Option<u32>,
    n: int,
)
    requires
        0 <= n <= ts.len(),
    ensures
        apart(db, s, triggers::fired_upto(depth, s, db, ts, event, timing, old_row, new_row, tx, n).0),
    decreases depth, 2nat, n,
{
    lemma_apart_same(db, s, s);
    if n > 0 {
        lemma_fired_upto_apart(depth, s, db, ts, event, timing, old_row, new_row, tx, n - 1);
        let (p, e) = triggers::fired_upto(depth, s, db, ts, event, timing, old_row, new_row, tx, n - 1);
        lemma_fired_one_apart(depth, p, db, ts[n - 1], old_row, new_row, tx);
        lemma_apart_same(db, p, p);
        let (q, f) = triggers::fired_listed(depth, p, db, ts[n - 1], event, timing, old_row, new_row, tx);
        assert(apart(db, p, q));
        lemma_apart_on(db, s, p, q);
    }
}

proof fn lemma_fired_apart(
    depth: nat,
    s: StateV,
    db: u32,
    table: Seq<char>,
    event: TriggerEvent,
    timing: TriggerTiming,
    old_row: Option<RowV>,
    new_row: Option<RowV>,
    tx: Option<u32>,
)
    ensures
        apart(db, s, triggers::fired(depth, s, db, table, event, timing, old_row, new_row, tx).0),
    decreases depth, 3nat, 0int,
{
    let ts = state::triggers_of(s, db, table);
    lemma_fired_upto_apart(depth, s, db, ts, event, timing, old_row, new_row, tx, ts.len() as int);
}

proof fn lemma_ran_upto_apart(depth: nat, s: StateV, db: u32, stmts: Seq<StatementV>, tx: Option<u32>, n: int)
    requires
        0 <= n <= stmts.len(),
    ensures
        apart(db, s, triggers::ran_upto(depth, s, db, stmts, tx, n).0),
    decreases depth, 8nat, n,
{
    lemma_apart_same(db, s, s);
    if n > 0 {
        lemma_ran_upto_apart(depth, s, db, stmts, tx, n - 1);
        let (p, e) = triggers::ran_upto(depth, s, db, stmts, tx, n - 1);
        lemma_ran_apart(depth, p, db, stmts[n - 1], Seq::empty(), tx);
        lemma_apart_on(db, s, p, sql::ran(depth, p, db, stmts[n - 1], Seq::empty(), tx).0);
    }
}

proof fn lemma_row_inserted_apart(
    depth: nat,
    s: StateV,
    db: u32,
    table: Seq<char>,
    d: SchemaV,
    row: RowV,
    tx: Option<u32>,
)
    ensures
        apart(db, s, dml::row_inserted(depth, s, db, table, d, row, tx).0),
    decreases depth, 4nat, 0int,
{
    lemma_apart_same(db, s, s);
    let id = state::next_rowid(s, db, table);
    let s1 = state::rowid_taken(s, db, table);
    let full = dml::with_defaults(d.columns, row, id, d.columns.len() as int);
    let ins = TriggerEvent::Insert;
    lemma_with_kept(db, s.generators, table, state::after_rowid(id));
    lemma_fired_apart(depth, s1, db, table, ins, TriggerTiming::Before, None, Some(full), tx);
    let (s2, e2) = triggers::fired(depth, s1, db, table, ins, TriggerTiming::Before, None, Some(full), tx);
    lemma_apart_on(db, s, s1, s2);
    lemma_row_written_apart(s2, db, table, id, full, tx);
    let s3 = dml::row_written(s2, db, table, id, full, tx);
    lemma_apart_on(db, s, s2, s3);
    lemma_fired_apart(depth, s3, db, table, ins, TriggerTiming::After, None, Some(full), tx);
    lemma_apart_on(db, s, s3, triggers::fired(depth, s3, db, table, ins, TriggerTiming::After, None, Some(full), tx).0);
}

proof fn lemma_rows_inserted_apart(
    depth: nat,
    s: StateV,
    db: u32,
    table: Seq<char>,
    d: SchemaV,
    rows: Seq<RowV>,
    tx: Option<u32>,
    n: int,
)
    requires
        0 <= n <= rows.len(),
    ensures
        apart(db, s, dml::rows_inserted(depth, s, db, table, d, rows, tx, n).0),
    decreases depth, 5nat, n,
{
    lemma_apart_same(db, s, s);
    if n > 0 {
        lemma_rows_inserted_apart(depth, s, db, table, d, rows, tx, n - 1);
        let (p, e) = dml::rows_inserted(depth, s, db, table, d, rows, tx, n - 1);
        lemma_row_inserted_apart(depth, p, db, table, d, rows[n - 1], tx);
        lemma_apart_on(db, s, p, dml::row_inserted(depth, p, db, table, d, rows[n - 1], tx).0);
    }
}

proof fn lemma_row_updated_apart(
    depth: nat,
    s: StateV,
    db: u32,
    table: Seq<char>,
    d: SchemaV,
    id: u64,
    old_row: RowV,
    assignments: Seq<AssignmentV>,
    ps: Seq<ValueV>,
    tx: Option<u32>,
)
    ensures
        apart(db, s, dml::row_updated(depth, s, db, table, d, id, old_row, assignments, ps, tx).0),
    decreases depth, 4nat, 0int,
{
    lemma_apart_same(db, s, s);
    let new_row = dml::assigned(assignments, old_row, ps, assignments.len() as int).0;
    let upd = TriggerEvent::Update;
    let before = TriggerTiming::Before;
    let after = TriggerTiming::After;
    lemma_fired_apart(depth, s, db, table, upd, before, Some(old_row), Some(new_row), tx);
    let (s2, e2) = triggers::fired(depth, s, db, table, upd, before, Some(old_row), Some(new_row), tx);
    lemma_row_rewritten_apart(s2, db, table, id, old_row, new_row, tx);
    let s3 = dml::row_rewritten(s2, db, table, id, old_row, new_row, tx);
    lemma_apart_on(db, s, s2, s3);
    lemma_fired_apart(depth, s3, db, table, upd, after, Some(old_row), Some(new_row), tx);
    lemma_apart_on(db, s, s3, triggers::fired(depth, s3, db, table, upd, after, Some(old_row), Some(new_row), tx).0);
}

proof fn lemma_rows_updated_apart(
    depth: nat,
    s: StateV,
    db: u32,
    table: Seq<char>,
    d: SchemaV,
    rows: Seq<(u64, RowV)>,
    assignments: Seq<AssignmentV>,
    ps: Seq<ValueV>,
    tx: Option<u32>,
    n: int,
)
    requires
        0 <= n <= rows.len(),
    ensures
        apart(db, s, dml::rows_updated(depth, s, db, table, d, rows, assignments, ps, tx, n).0),
    decreases depth, 5nat, n,
{
    lemma_apart_same(db, s, s);
    if n > 0 {
        lemma_rows_updated_apart(depth, s, db, table, d, rows, assignments, ps, tx, n - 1);
        let (p, e) = dml::rows_updated(depth, s, db, table, d, rows, assignments, ps, tx, n - 1);
        let (id, old_row) = rows[n - 1];
        lemma_row_updated_apart(depth, p, db, table, d, id, old_row, assignments, ps, tx);
        lemma_apart_on(db, s, p, dml::row_updated(depth, p, db, table, d, id, old_row, assignments, ps, tx).0);
    }
}

proof fn lemma_row_deleted_apart(
    depth: nat,
    s: StateV,
    db: u32,
    table: Seq<char>,
    id: u64,
    row: RowV,
    tx: Option<u32>,
)
    ensures
        apart(db, s, dml::row_deleted(depth, s, db, table, id, row, tx).0),
    decreases depth, 4nat, 0int,
{
    let del = TriggerEvent::Delete;
    lemma_fired_apart(depth, s, db, table, del, TriggerTiming::Before, Some(row), None, tx);
    let (s2, e2) = triggers::fired(depth, s, db, table, del, TriggerTiming::Before, Some(row), None, tx);
    lemma_row_erased_apart(s2, db, table, id, row, tx);
    let s3 = dml::row_erased(s2, db, table, id, row, tx);
    lemma_apart_on(db, s, s2, s3);
    lemma_fired_apart(depth, s3, db, table, del, TriggerTiming::After, Some(row), None, tx);
    lemma_apart_on(db, s, s3, triggers::fired(depth, s3, db, table, del, TriggerTiming::After, Some(row), None, tx).0);
}

proof fn lemma_rows_deleted_apart(
    depth: nat,
    s: StateV,
    db: u32,
    table: Seq<char>,
    rows: Seq<(u64, RowV)>,
    tx: Option<u32>,
    n: int,
)
    requires
        0 <= n <= rows.len(),
    ensures
        apart(db, s, dml::rows_deleted(depth, s, db, table, rows, tx, n).0),
    decreases depth, 5nat, n,
{
    lemma_apart_same(db, s, s);
    if n > 0 {
        lemma_rows_deleted_apart(depth, s, db, table, rows, tx, n - 1);
        let (p, e) = dml::rows_deleted(depth, s, db, table, rows, tx, n - 1);
        let (id, row) = rows[n - 1];
        lemma_row_deleted_apart(depth, p, db, table, id, row, tx);
        lemma_apart_on(db, s, p, dml::row_deleted(depth, p, db, table, id, row, tx).0);
    }
}

/// A statement, and whatever triggers it fires, stay in their database.
pub proof fn lemma_ran_apart(depth: nat, s: StateV, db: u32, stmt: StatementV, ps: Seq<ValueV>, tx: Option<u32>)
    ensures
        apart(db, s, sql::ran(depth, s, db, stmt, ps, tx).0),
    decreases depth, 7nat, 0int,
{
    lemma_apart_same(db, s, s);
    match stmt {
        StatementV::Insert { table, columns, source } => {
            match state::table_schema(s, db, table) {
                Some(d) => match dml::candidate_rows(s, db, dml::insert_columns(d, columns), source, ps) {
                    Ok(rows) => lemma_rows_inserted_apart(depth, s, db, table, d, rows, tx, rows.len() as int),
                    Err(_) => {},
                },
                None => {},
            }
            assert(apart(db, s, dml::inserted(depth, s, db, table, columns, source, ps, tx).0));
        },
        StatementV::Update { table, assignments, selection } => {
            match (state::table_rows(s, db, table), state::table_schema(s, db, table)) {
                (Some(m), Some(d)) => {
                    let start = dml::set_placeholders(assignments, assignments.len() as int);
                    let rows = dml::matching(s, db, m, selection, ps, start);
                    lemma_rows_updated_apart(depth, s, db, table, d, rows, assignments, ps, tx, rows.len() as int);
                },
                _ => {},
            }
            assert(apart(db, s, dml::updated(depth, s, db, table, assignments, selection, ps, tx).0));
        },
        StatementV::Delete { table, selection } => {
            match table {
                Some(t) => match state::table_rows(s, db, t) {
                    Some(m) => {
                        let rows = dml::matching(s, db, m, selection, ps, 0);
                        lemma_rows_deleted_apart(depth, s, db, t, rows, tx, rows.len() as int);
                    },
                    None => {},
                },
                None => {},
            }
            assert(apart(db, s, dml::deleted(depth, s, db, table, selection, ps, tx).0));
        },
        StatementV::CreateTable { name, columns, constraints, if_not_exists } => {
            lemma_table_added_apart(s, db, ddl::schema_of(name, columns, constraints));
        },
        StatementV::AlterTable { name, if_exists, operations } => {
            lemma_altered_apart(s, db, name, operations, operations.len() as int);
        },
        StatementV::CreateIndex { name, table, columns, unique, if_not_exists } => {
            lemma_index_created_apart(s, db, name, table, columns, unique, if_not_exists);
        },
        StatementV::CreateView { name, query } => {
            lemma_with_kept(db, s.views, name, query);
        },
        StatementV::CreateVirtualTable { name, if_not_exists, module_name, module_args } => {
            lemma_fts_created_apart(s, db, name, if_not_exists, module_name, module_args);
        },
        StatementV::Drop { object, if_exists, names } => {
            lemma_tables_dropped_apart(s, db, names, if_exists, names.len() as int);
            lemma_indexes_removed_apart(s, db, names, if_exists, names.len() as int);
            lemma_views_dropped_apart(s, db, names, if_exists, names.len() as int);
        },
        _ => {},
    }
}

/// A rollback stays in the database of its transaction.
pub proof fn lemma_rolled_back_untouched(s: StateV, id: u32)
    ensures
        untouched(s.txns.active[id].db, s, transaction::rolled_back(s, id)),
{
    let e = s.txns.active[id];
    let t = sql::committed(s, id);
    lemma_apart_same(e.db, s, t);
    lemma_undone_upto_apart(t, e.db, e.journal, e.journal.len() as int);
    lemma_untouched_on(e.db, s, t, transaction::rolled_back(s, id));
}

/// Whether a transaction, where it is under way, is one of a database.
pub open spec fn belongs(s: StateV, tx: Option<u32>, db: u32) -> bool {
    match tx {
        Some(id) => s.txns.active.contains_key(id) ==> s.txns.active[id].db == db,
        None => true,
    }
}

proof fn lemma_executed_statement_untouched(s: StateV, db: u32, stmt: StatementV, ps: Seq<ValueV>, tx: Option<u32>)
    requires
        belongs(s, tx, db),
    ensures
        untouched(db, s, sql::executed_statement(s, db, stmt, ps, tx).0),
{
    let b = StateV { txns: transaction::begun(s.txns, db), ..s };
    lemma_apart_same(db, s, s);
    lemma_apart_same(db, s, b);
    lemma_ran_apart(u64::MAX as nat, s, db, stmt, ps, tx);
    match tx {
        Some(id) => {
            lemma_apart_same(db, s, sql::committed(s, id));
            if s.txns.active.contains_key(id) {
                lemma_rolled_back_untouched(s, id);
            }
        },
        None => {
            let id = s.txns.next_id;
            lemma_ran_apart(u64::MAX as nat, b, db, stmt, ps, Some(id));
            let t = sql::ran(u64::MAX as nat, b, db, stmt, ps, Some(id)).0;
            assert(b.txns.active.contains_key(id));
            lemma_untouched_on(db, s, b, t);
            lemma_apart_same(db, t, sql::committed(t, id));
            lemma_untouched_on(db, s, t, sql::committed(t, id));
            lemma_rolled_back_untouched(t, id);
            lemma_untouched_on(db, s, t, transaction::rolled_back(t, id));
        },
    }
}

/// Databases are independent: whatever is run on one leaves the tables, definitions, indexes,
/// triggers, views and full-text indexes of every other as they are. And SQL leaves the raw
/// values of all databases as they are. A transaction is used with the database that it was
/// begun on.
pub proof fn lemma_executed_untouched(s: StateV, db: u32, sql: Seq<char>, ps: Seq<ValueV>, tx: Option<u32>)
    requires
        belongs(s, tx, db),
    ensures
        untouched(db, s, sql::executed(s, db, sql, ps, tx).0),
{
    lemma_apart_same(db, s, s);
    if sql::is_trigger_text(sql) {
        match ddl::trigger_of(sql) {
            Some(t) => lemma_with_kept(db, s.triggers, t.table, state::triggers_of(s, db, t.table).push(t)),
            None => {},
        }
    } else {
        match parser::statements_in(sql) {
            Ok(stmts) => if stmts.len() == 1 {
                lemma_executed_statement_untouched(s, db, stmts[0], ps, tx);
            },
            Err(_) => {},
        }
    }
}

/// No name ever stands twice in a directory: none does at the start.
pub proof fn lemma_initial_single(databases: Seq<(u32, Seq<char>)>, limit: usize, dir: Seq<char>)
    ensures
        single_names(state::initial(databases, limit, dir)),
{
}

/// No name ever stands twice in a directory: whatever is run on a database keeps it so.
pub proof fn lemma_executed_single(s: StateV, db: u32, sql: Seq<char>, ps: Seq<ValueV>, tx: Option<u32>)
    requires
        single_names(s),
        belongs(s, tx, db),
    ensures
        single_names(sql::executed(s, db, sql, ps, tx).0),
{
    lemma_executed_untouched(s, db, sql, ps, tx);
}

/// The raw values of a table can be written without a change of anything else, and no name comes
/// to stand twice.
pub proof fn lemma_raw_apart(s: StateV, db: u32, table: Seq<char>, m: Map<Seq<u8>, Seq<u8>>)
    ensures
        state::raw_set(s, db, table, m) == (StateV { raw: state::raw_set(s, db, table, m).raw, ..s }),
        kept(db, s.raw, state::raw_set(s, db, table, m).raw),
        forall|t: Seq<char>| t != table ==> #[trigger] state::raw_values(state::raw_set(s, db, table, m), db, t) == state::raw_values(s, db, t),
        state::raw_values(state::raw_set(s, db, table, m), db, table) == m,
        single_names(s) ==> single_names(state::raw_set(s, db, table, m)),
{
    lemma_with_kept(db, s.raw, table, m);
    assoc::lemma_get_put(s.raw.items, (db, table), m);
    assert forall|t: Seq<char>| t != table implies #[trigger] state::raw_values(state::raw_set(s, db, table, m), db, t) == state::raw_values(
        s,
        db,
        t,
    ) by {
        assoc::lemma_get_put_other(s.raw.items, (db, table), m, (db, t));
    }
}

/// A raw value that is removed is gone, and no other is.
pub proof fn lemma_raw_removed(s: StateV, db: u32, table: Seq<char>, key: Seq<u8>)
    ensures
        state::raw_values(state::raw_removed(s, db, table, key), db, table) == state::raw_values(s, db, table).remove(key),
        state::raw_removed(s, db, table, key) == (StateV { raw: state::raw_removed(s, db, table, key).raw, ..s }),
        kept(db, s.raw, state::raw_removed(s, db, table, key).raw),
{
    match catalog::find(s.raw, db, table) {
        Some(m) => {
            assoc::lemma_get_put(s.raw.items, (db, table), m.remove(key));
            lemma_with_kept(db, s.raw, table, m.remove(key));
        },
        None => {
            assert(state::raw_values(s, db, table).remove(key) =~= state::raw_values(s, db, table));
        },
    }
}

/// A query changes nothing.
pub proof fn lemma_query_changes_nothing(s: StateV, db: u32, q: QueryV, ps: Seq<ValueV>, tx: Option<u32>)
    ensures
        sql::executed_statement(s, db, StatementV::Query(q), ps, tx).0 == s,
{
}

} // verus!

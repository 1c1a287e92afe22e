//! What a snapshot brings back: a database as it was.
use vstd::prelude::*;

use crate::apart;
use crate::assoc;
use crate::catalog;
use crate::catalog::CatalogV;
use crate::covering;
use crate::exact;
use crate::fts::FtsTableV;
use crate::rollback;
use crate::row::RowV;
use crate::schema::IndexV;
use crate::searching;
use crate::sql::ddl;
use crate::state;
use crate::state::StateV;
use crate::store;
use crate::wal;
use crate::wal::{RawDumpV, TableDumpV, TriggersDumpV, ViewDumpV};

verus! {

/// The last of the first `k` entries under a name of a database.
pub open spec fn among<T>(items: Seq<((u32, Seq<char>), T)>, db: u32, name: Seq<char>, k: int) -> Option<T>
    decreases k,
{
    if k <= 0 || k > items.len() {
        None
    } else if items[k - 1].0 == (db, name) {
        Some(items[k - 1].1)
    } else {
        among(items, db, name, k - 1)
    }
}

proof fn lemma_among_absent<T>(items: Seq<((u32, Seq<char>), T)>, db: u32, name: Seq<char>, k: int)
    requires
        0 <= k <= items.len(),
        forall|i: int| 0 <= i < k ==> (#[trigger] items[i]).0 != (db, name),
    ensures
        among(items, db, name, k) is None,
    decreases k,
{
    if k > 0 {
        assert(items[k - 1].0 != (db, name));
        lemma_among_absent(items, db, name, k - 1);
    }
}

proof fn lemma_among_new<T>(items: Seq<((u32, Seq<char>), T)>, db: u32, k: int)
    requires
        assoc::assoc_distinct(items),
        0 < k <= items.len(),
        items[k - 1].0.0 == db,
    ensures
        among(items, db, items[k - 1].0.1, k - 1) is None,
{
    assert forall|i: int| 0 <= i < k - 1 implies (#[trigger] items[i]).0 != (db, items[k - 1].0.1) by {
        assert(items[i].0 != items[k - 1].0);
    }
    lemma_among_absent(items, db, items[k - 1].0.1, k - 1);
}

proof fn lemma_among_at<T>(items: Seq<((u32, Seq<char>), T)>, db: u32, name: Seq<char>, k: int, i: int)
    requires
        assoc::assoc_distinct(items),
        0 <= i < k <= items.len(),
        items[i].0 == (db, name),
    ensures
        among(items, db, name, k) == Some(items[i].1),
    decreases k,
{
    if k - 1 != i {
        assert(items[i].0 != items[k - 1].0);
        lemma_among_at(items, db, name, k - 1, i);
    }
}

/// Where no name stands twice, the last under a name is the one that is found.
proof fn lemma_among_all<T>(c: CatalogV<T>, db: u32, name: Seq<char>)
    requires
        assoc::assoc_distinct(c.items),
    ensures
        among(c.items, db, name, c.items.len() as int) == catalog::find(c, db, name),
{
    let items = c.items;
    let n = items.len() as int;
    if exists|i: int| 0 <= i < n && (#[trigger] items[i]).0 == (db, name) {
        let i = choose|i: int| 0 <= i < n && (#[trigger] items[i]).0 == (db, name);
        lemma_among_at(items, db, name, n, i);
        assoc::lemma_get_distinct(items, i);
    } else {
        lemma_among_absent(items, db, name, n);
        assoc::lemma_get_absent(items, (db, name));
    }
}

proof fn lemma_rows_put(m: Map<u64, RowV>, n: int)
    requires
        0 <= n <= store::row_list(m).len(),
    ensures
        forall|id: u64| #[trigger]
            wal::rows_put(Map::empty(), store::row_list(m), n).contains_key(id) ==> m.contains_key(id) && wal::rows_put(
                Map::empty(),
                store::row_list(m),
                n,
            )[id] == m[id],
        forall|i: int|
            0 <= i < n ==> wal::rows_put(Map::empty(), store::row_list(m), n).contains_key((#[trigger] store::row_list(m)[i]).0),
    decreases n,
{
    if n > 0 {
        lemma_rows_put(m, n - 1);
        store::lemma_listed(m, n - 1);
        let l = store::row_list(m);
        let p = wal::rows_put(Map::empty(), l, n - 1);
        let q = wal::rows_put(Map::empty(), l, n);
        assert(q == p.insert(l[n - 1].0, l[n - 1].1));
        assert forall|id: u64| #[trigger] q.contains_key(id) implies m.contains_key(id) && q[id] == m[id] by {
            assert(p.contains_key(id) || id == l[n - 1].0);
        }
        assert forall|i: int| 0 <= i < n implies q.contains_key((#[trigger] l[i]).0) by {
            assert(i < n - 1 ==> p.contains_key(l[i].0));
        }
    }
}

/// The rows of a table, put one by one into an empty one, are the table again.
pub proof fn lemma_rows_back(m: Map<u64, RowV>)
    ensures
        wal::rows_put(Map::empty(), store::row_list(m), store::row_list(m).len() as int) == m,
{
    let l = store::row_list(m);
    let n = l.len() as int;
    let r = wal::rows_put(Map::empty(), l, n);
    lemma_rows_put(m, n);
    assert forall|id: u64| m.contains_key(id) implies #[trigger] r.contains_key(id) by {
        let i = store::lemma_place_in_list(m, id);
        assert(r.contains_key(l[i].0));
    }
    assert(r.dom() =~= m.dom());
    assert(r =~= m);
}

proof fn lemma_highest(rows: Seq<(u64, RowV)>, n: int, i: int)
    requires
        0 <= i < n <= rows.len(),
    ensures
        rows[i].0 <= wal::highest_id(rows, n),
    decreases n,
{
    if i < n - 1 {
        lemma_highest(rows, n - 1, i);
    }
}

proof fn lemma_highest_listed(rows: Seq<(u64, RowV)>, n: int)
    requires
        0 <= n <= rows.len(),
    ensures
        wal::highest_id(rows, n) == 0 || exists|i: int| 0 <= i < n && (#[trigger] rows[i]).0 == wal::highest_id(rows, n),
    decreases n,
{
    if n > 0 {
        lemma_highest_listed(rows, n - 1);
        if rows[n - 1].0 > wal::highest_id(rows, n - 1) {
            assert(rows[n - 1].0 == wal::highest_id(rows, n));
        }
    }
}

proof fn lemma_rebuilt_fields(s: StateV, db: u32, table: Seq<char>, indices: Seq<IndexV>, n: int)
    ensures
        ({
            let t = ddl::indexes_rebuilt(s, db, table, indices, n);
            t == (StateV { indexes: t.indexes, ..s })
        }),
    decreases n,
{
    if n > 0 && n <= indices.len() {
        lemma_rebuilt_fields(s, db, table, indices, n - 1);
    }
}

/// What the restoring of one table does to the rows, definitions and ids of all.
proof fn lemma_table_restored(s: StateV, db: u32, t: TableDumpV, name: Seq<char>)
    ensures
        ({
            let u = wal::table_restored(s, db, t);
            &&& u == (StateV { dbs: u.dbs, schemas: u.schemas, generators: u.generators, indexes: u.indexes, ..s })
            &&& name != t.name ==> {
                &&& state::table_rows(u, db, name) == state::table_rows(s, db, name)
                &&& state::table_schema(u, db, name) == state::table_schema(s, db, name)
                &&& state::next_rowid(u, db, name) == state::next_rowid(s, db, name)
            }
            &&& state::table_rows(s, db, t.name) is None ==> state::table_rows(u, db, t.name) == Some(
                wal::rows_put(Map::empty(), t.rows, t.rows.len() as int),
            )
            &&& state::table_schema(u, db, t.name) == (match t.schema {
                Some(d) => Some(d),
                None => state::table_schema(s, db, t.name),
            })
            &&& state::next_rowid(u, db, t.name) >= state::after_rowid(wal::highest_id(t.rows, t.rows.len() as int))
        }),
{
    let m = match state::table_rows(s, db, t.name) {
        Some(m) => m,
        None => Map::empty(),
    };
    let w = wal::rows_put(m, t.rows, t.rows.len() as int);
    let c = wal::contents_restored(s, db, t);
    let min = state::after_rowid(wal::highest_id(t.rows, t.rows.len() as int));
    let a = state::rowid_at_least(c, db, t.name, min);
    let k = (db, t.name);
    assoc::lemma_get_put(s.dbs.items, k, w);
    let g = if state::next_rowid(c, db, t.name) < min {
        min
    } else {
        state::next_rowid(c, db, t.name)
    };
    assoc::lemma_get_put(c.generators.items, k, g);
    match t.schema {
        Some(d) => assoc::lemma_get_put(s.schemas.items, k, d),
        None => {},
    }
    if name != t.name {
        assoc::lemma_get_put_other(s.dbs.items, k, w, (db, name));
        assoc::lemma_get_put_other(c.generators.items, k, g, (db, name));
        match t.schema {
            Some(d) => assoc::lemma_get_put_other(s.schemas.items, k, d, (db, name)),
            None => {},
        }
    }
    match state::table_schema(a, db, t.name) {
        Some(d) => lemma_rebuilt_fields(a, db, t.name, d.indices, d.indices.len() as int),
        None => {},
    }
}

proof fn lemma_tables_prefix(t: StateV, db: u32, ts: Seq<TableDumpV>, x: TableDumpV, n: int)
    requires
        0 <= n <= ts.len(),
    ensures
        wal::tables_restored(t, db, ts.push(x), n) == wal::tables_restored(t, db, ts, n),
    decreases n,
{
    if n > 0 {
        lemma_tables_prefix(t, db, ts, x, n - 1);
    }
}

proof fn lemma_raw_prefix(t: StateV, db: u32, ts: Seq<RawDumpV>, x: RawDumpV, n: int)
    requires
        0 <= n <= ts.len(),
    ensures
        wal::raw_restored(t, db, ts.push(x), n) == wal::raw_restored(t, db, ts, n),
    decreases n,
{
    if n > 0 {
        lemma_raw_prefix(t, db, ts, x, n - 1);
    }
}

proof fn lemma_views_prefix(t: StateV, db: u32, ts: Seq<ViewDumpV>, x: ViewDumpV, n: int)
    requires
        0 <= n <= ts.len(),
    ensures
        wal::views_restored(t, db, ts.push(x), n) == wal::views_restored(t, db, ts, n),
    decreases n,
{
    if n > 0 {
        lemma_views_prefix(t, db, ts, x, n - 1);
    }
}

proof fn lemma_triggers_prefix(t: StateV, db: u32, ts: Seq<TriggersDumpV>, x: TriggersDumpV, n: int)
    requires
        0 <= n <= ts.len(),
    ensures
        wal::triggers_restored(t, db, ts.push(x), n) == wal::triggers_restored(t, db, ts, n),
    decreases n,
{
    if n > 0 {
        lemma_triggers_prefix(t, db, ts, x, n - 1);
    }
}

/// Whether an engine holds nothing of a database.
pub open spec fn is_empty(t: StateV, db: u32) -> bool {
    &&& forall|name: Seq<char>| #[trigger] catalog::find(t.dbs, db, name) is None
    &&& forall|name: Seq<char>| #[trigger] catalog::find(t.schemas, db, name) is None
    &&& forall|name: Seq<char>| #[trigger] catalog::find(t.raw, db, name) is None
    &&& forall|name: Seq<char>| #[trigger] catalog::find(t.views, db, name) is None
    &&& forall|name: Seq<char>| #[trigger] catalog::find(t.triggers, db, name) is None
}

/// Whether a directory has a database, or nothing of it.
pub open spec fn listed<T>(c: CatalogV<T>, db: u32) -> bool {
    c.known.contains(db) || forall|name: Seq<char>| #[trigger] catalog::find(c, db, name) is None
}

/// What the restoring of the first tables of a snapshot gives.
proof fn lemma_tables_back(s: StateV, t: StateV, db: u32, k: int, name: Seq<char>)
    requires
        assoc::assoc_distinct(s.dbs.items),
        is_empty(t, db),
        0 <= k <= s.dbs.items.len(),
    ensures
        ({
            let ts = wal::tables_dumped(s, db, k);
            let u = wal::tables_restored(t, db, ts, ts.len() as int);
            &&& u == (StateV { dbs: u.dbs, schemas: u.schemas, generators: u.generators, indexes: u.indexes, ..t })
            &&& state::table_rows(u, db, name) == among(s.dbs.items, db, name, k)
            &&& state::table_schema(u, db, name) == (if among(s.dbs.items, db, name, k) is Some {
                state::table_schema(s, db, name)
            } else {
                None
            })
            &&& match among(s.dbs.items, db, name, k) {
                Some(m) => state::next_rowid(u, db, name) >= state::after_rowid(wal::highest_id(store::row_list(m), store::row_list(m).len() as int)),
                None => true,
            }
        }),
    decreases k,
{
    let items = s.dbs.items;
    if k == 0 {
        assert(catalog::find(t.dbs, db, name) is None);
        assert(catalog::find(t.schemas, db, name) is None);
    } else {
        lemma_tables_back(s, t, db, k - 1, name);
        let ts = wal::tables_dumped(s, db, k - 1);
        let p = wal::tables_restored(t, db, ts, ts.len() as int);
        let (key, m) = items[k - 1];
        if key.0 == db {
            let x = TableDumpV { name: key.1, schema: state::table_schema(s, db, key.1), rows: store::row_list(m) };
            assert(wal::tables_dumped(s, db, k) == ts.push(x));
            lemma_tables_prefix(t, db, ts, x, ts.len() as int);
            assert(ts.push(x)[ts.len() as int] == x);
            assert(wal::tables_restored(t, db, ts.push(x), ts.len() as int + 1) == wal::table_restored(p, db, x));
            lemma_table_restored(p, db, x, name);
            lemma_among_new(items, db, k);
            lemma_tables_back(s, t, db, k - 1, key.1);
            lemma_rows_back(m);
        }
    }
}

proof fn lemma_raw_back(s: StateV, t: StateV, db: u32, k: int, name: Seq<char>)
    requires
        assoc::assoc_distinct(s.raw.items),
        forall|n: Seq<char>| #[trigger] catalog::find(t.raw, db, n) is None,
        0 <= k <= s.raw.items.len(),
    ensures
        ({
            let ts = wal::raw_dumped(s.raw.items, db, k);
            let u = wal::raw_restored(t, db, ts, ts.len() as int);
            &&& u == (StateV { raw: u.raw, ..t })
            &&& catalog::find(u.raw, db, name) == among(s.raw.items, db, name, k)
        }),
    decreases k,
{
    let items = s.raw.items;
    if k == 0 {
        assert(catalog::find(t.raw, db, name) is None);
    } else {
        lemma_raw_back(s, t, db, k - 1, name);
        let ts = wal::raw_dumped(items, db, k - 1);
        let p = wal::raw_restored(t, db, ts, ts.len() as int);
        let (key, m) = items[k - 1];
        if key.0 == db {
            let x = RawDumpV { name: key.1, values: m };
            assert(wal::raw_dumped(items, db, k) == ts.push(x));
            lemma_raw_prefix(t, db, ts, x, ts.len() as int);
            assert(ts.push(x)[ts.len() as int] == x);
            lemma_among_new(items, db, k);
            lemma_raw_back(s, t, db, k - 1, key.1);
            let e = state::raw_values(p, db, key.1);
            assert(e == Map::<Seq<u8>, Seq<u8>>::empty());
            assert(e.union_prefer_right(m) =~= m);
            assoc::lemma_get_put(p.raw.items, (db, key.1), m);
            if name != key.1 {
                assoc::lemma_get_put_other(p.raw.items, (db, key.1), m, (db, name));
            }
        }
    }
}

proof fn lemma_views_back(s: StateV, t: StateV, db: u32, k: int, name: Seq<char>)
    requires
        catalog::find(t.views, db, name) is None,
        0 <= k <= s.views.items.len(),
    ensures
        ({
            let ts = wal::views_dumped(s.views.items, db, k);
            let u = wal::views_restored(t, db, ts, ts.len() as int);
            &&& u == (StateV { views: u.views, ..t })
            &&& catalog::find(u.views, db, name) == among(s.views.items, db, name, k)
        }),
    decreases k,
{
    let items = s.views.items;
    if k > 0 {
        lemma_views_back(s, t, db, k - 1, name);
        let ts = wal::views_dumped(items, db, k - 1);
        let p = wal::views_restored(t, db, ts, ts.len() as int);
        let (key, q) = items[k - 1];
        if key.0 == db {
            let x = ViewDumpV { name: key.1, query: q };
            assert(wal::views_dumped(items, db, k) == ts.push(x));
            lemma_views_prefix(t, db, ts, x, ts.len() as int);
            assert(ts.push(x)[ts.len() as int] == x);
            assoc::lemma_get_put(p.views.items, (db, key.1), q);
            if name != key.1 {
                assoc::lemma_get_put_other(p.views.items, (db, key.1), q, (db, name));
            }
        }
    }
}

proof fn lemma_triggers_back(s: StateV, t: StateV, db: u32, k: int, name: Seq<char>)
    requires
        catalog::find(t.triggers, db, name) is None,
        0 <= k <= s.triggers.items.len(),
    ensures
        ({
            let ts = wal::triggers_dumped(s.triggers.items, db, k);
            let u = wal::triggers_restored(t, db, ts, ts.len() as int);
            &&& u == (StateV { triggers: u.triggers, ..t })
            &&& catalog::find(u.triggers, db, name) == among(s.triggers.items, db, name, k)
        }),
    decreases k,
{
    let items = s.triggers.items;
    if k > 0 {
        lemma_triggers_back(s, t, db, k - 1, name);
        let ts = wal::triggers_dumped(items, db, k - 1);
        let p = wal::triggers_restored(t, db, ts, ts.len() as int);
        let (key, l) = items[k - 1];
        if key.0 == db {
            let x = TriggersDumpV { table: key.1, list: l };
            assert(wal::triggers_dumped(items, db, k) == ts.push(x));
            lemma_triggers_prefix(t, db, ts, x, ts.len() as int);
            assert(ts.push(x)[ts.len() as int] == x);
            assoc::lemma_get_put(p.triggers.items, (db, key.1), l);
            if name != key.1 {
                assoc::lemma_get_put_other(p.triggers.items, (db, key.1), l, (db, name));
            }
        }
    }
}

proof fn lemma_fts_restored_fields(s: StateV, db: u32, ts: Seq<TableDumpV>, n: int)
    ensures
        ({
            let t = wal::fts_restored(s, db, ts, n);
            t == (StateV { fts: t.fts, ..s })
        }),
    decreases n,
{
    if n > 0 && n <= ts.len() {
        lemma_fts_restored_fields(s, db, ts, n - 1);
    }
}

/// A restart loses nothing: what a snapshot of a database holds, restored into an engine that
/// holds nothing of it, gives every table with its rows and its definition, every raw value,
/// every view and every trigger back. And new rows get ids behind those of the restored rows.
pub proof fn lemma_snapshot_round_trip(s: StateV, t: StateV, db: u32, name: Seq<char>)
    requires
        apart::single_names(s),
        listed(s.raw, db),
        listed(s.views, db),
        listed(s.triggers, db),
        rollback::ids_behind(s, db),
        is_empty(t, db),
    ensures
        ({
            let u = wal::restored(t, db, wal::dumped(s, db));
            &&& state::table_rows(u, db, name) == state::table_rows(s, db, name)
            &&& state::table_rows(s, db, name) is Some ==> state::table_schema(u, db, name) == state::table_schema(s, db, name)
            &&& state::raw_values(u, db, name) == state::raw_values(s, db, name)
            &&& catalog::find(u.views, db, name) == catalog::find(s.views, db, name)
            &&& state::triggers_of(u, db, name) == state::triggers_of(s, db, name)
            &&& forall|id: u64| #[trigger] rollback::row_under(u.dbs, db, name, id) is Some ==> id < state::next_rowid(u, db, name)
        }),
{
    let d = wal::dumped(s, db);
    let a = wal::tables_restored(t, db, d.tables, d.tables.len() as int);
    let b = match d.raw {
        Some(ts) => wal::raw_restored(a, db, ts, ts.len() as int),
        None => a,
    };
    let c = match d.views {
        Some(ts) => wal::views_restored(b, db, ts, ts.len() as int),
        None => b,
    };
    let e = match d.triggers {
        Some(ts) => wal::triggers_restored(c, db, ts, ts.len() as int),
        None => c,
    };
    let u = wal::restored(t, db, d);
    let n = s.dbs.items.len() as int;
    lemma_tables_back(s, t, db, n, name);
    lemma_among_all(s.dbs, db, name);
    assert forall|x: Seq<char>| #[trigger] catalog::find(a.raw, db, x) is None by {
        assert(catalog::find(t.raw, db, x) is None);
    }
    lemma_raw_back(s, a, db, s.raw.items.len() as int, name);
    lemma_among_all(s.raw, db, name);
    assert(catalog::find(t.views, db, name) is None);
    lemma_views_back(s, b, db, s.views.items.len() as int, name);
    lemma_among_all(s.views, db, name);
    assert(catalog::find(t.triggers, db, name) is None);
    lemma_triggers_back(s, c, db, s.triggers.items.len() as int, name);
    lemma_among_all(s.triggers, db, name);
    lemma_fts_restored_fields(e, db, d.tables, d.tables.len() as int);
    if !s.raw.known.contains(db) {
        assert(catalog::find(s.raw, db, name) is None);
        assert(catalog::find(a.raw, db, name) is None);
    }
    if !s.views.known.contains(db) {
        assert(catalog::find(s.views, db, name) is None);
    }
    if !s.triggers.known.contains(db) {
        assert(catalog::find(s.triggers, db, name) is None);
    }
    match state::table_rows(s, db, name) {
        Some(m) => {
            let l = store::row_list(m);
            let h = wal::highest_id(l, l.len() as int);
            lemma_highest_listed(l, l.len() as int);
            if h != 0 {
                let i = choose|i: int| 0 <= i < l.len() && (#[trigger] l[i]).0 == h;
                store::lemma_listed(m, i);
                assert(rollback::row_under(s.dbs, db, name, h) is Some);
                assert(h < state::next_rowid(s, db, name));
            }
            assert(h < u64::MAX);
            assert forall|id: u64| #[trigger] rollback::row_under(u.dbs, db, name, id) is Some implies id < state::next_rowid(
                u,
                db,
                name,
            ) by {
                let i = store::lemma_place_in_list(m, id);
                lemma_highest(l, l.len() as int, i);
            }
        },
        None => {},
    }
}

proof fn lemma_table_restored_covered(p: StateV, db: u32, x: TableDumpV)
    requires
        covering::covered(p),
        match x.schema {
            Some(d) => covering::names_differ(d.indices),
            None => true,
        },
    ensures
        covering::covered(wal::table_restored(p, db, x)),
{
    let m = match state::table_rows(p, db, x.name) {
        Some(m) => m,
        None => Map::empty(),
    };
    let w = wal::rows_put(m, x.rows, x.rows.len() as int);
    let k = (db, x.name);
    let a = state::rowid_at_least(
        wal::contents_restored(p, db, x),
        db,
        x.name,
        state::after_rowid(wal::highest_id(x.rows, x.rows.len() as int)),
    );
    assert(covering::table_covered(p, db, x.name));
    match x.schema {
        Some(d) => {
            assoc::lemma_put_distinct(p.schemas.items, k, d);
            assoc::lemma_get_put(p.schemas.items, k, d);
        },
        None => {},
    }
    assert forall|db2: u32, table2: Seq<char>| (db2, table2) != (db, x.name) implies #[trigger] covering::alike(
        p,
        a,
        db2,
        table2,
    ) by {
        assoc::lemma_get_put_other(p.dbs.items, k, w, (db2, table2));
        match x.schema {
            Some(d) => assoc::lemma_get_put_other(p.schemas.items, k, d, (db2, table2)),
            None => {},
        }
    }
    match state::table_schema(a, db, x.name) {
        Some(d) => covering::lemma_rebuilt_covered(p, a, db, x.name, d),
        None => covering::lemma_elsewhere(p, a, db, x.name),
    }
}

proof fn lemma_tables_restored_covered(s: StateV, t: StateV, db: u32, k: int)
    requires
        covering::covered(s),
        covering::covered(t),
        0 <= k <= s.dbs.items.len(),
    ensures
        covering::covered(wal::tables_restored(t, db, wal::tables_dumped(s, db, k), wal::tables_dumped(s, db, k).len() as int)),
    decreases k,
{
    if k == 0 {
        covering::lemma_same_tables(t, StateV { schemas: catalog::knowing(t.schemas, db), ..t });
    } else {
        lemma_tables_restored_covered(s, t, db, k - 1);
        let ts = wal::tables_dumped(s, db, k - 1);
        let p = wal::tables_restored(t, db, ts, ts.len() as int);
        let (key, m) = s.dbs.items[k - 1];
        if key.0 == db {
            let x = TableDumpV { name: key.1, schema: state::table_schema(s, db, key.1), rows: store::row_list(m) };
            assert(wal::tables_dumped(s, db, k) == ts.push(x));
            lemma_tables_prefix(t, db, ts, x, ts.len() as int);
            assert(ts.push(x)[ts.len() as int] == x);
            assert(covering::table_covered(s, db, key.1));
            lemma_table_restored_covered(p, db, x);
        }
    }
}

proof fn lemma_parts_fields(s: StateV, db: u32, ws: Seq<RawDumpV>, vs: Seq<ViewDumpV>, ts: Seq<TriggersDumpV>, n: int)
    ensures
        wal::raw_restored(s, db, ws, n) == (StateV { raw: wal::raw_restored(s, db, ws, n).raw, ..s }),
        wal::views_restored(s, db, vs, n) == (StateV { views: wal::views_restored(s, db, vs, n).views, ..s }),
        wal::triggers_restored(s, db, ts, n) == (StateV { triggers: wal::triggers_restored(s, db, ts, n).triggers, ..s }),
    decreases n,
{
    if n > 0 {
        lemma_parts_fields(s, db, ws, vs, ts, n - 1);
    }
}

/// A snapshot holds no index, and after a restart every index finds all rows of its table.
pub proof fn lemma_restored_covered(s: StateV, t: StateV, db: u32)
    requires
        covering::covered(s),
        covering::covered(t),
    ensures
        covering::covered(wal::restored(t, db, wal::dumped(s, db))),
{
    let d = wal::dumped(s, db);
    lemma_tables_restored_covered(s, t, db, s.dbs.items.len() as int);
    let a = wal::tables_restored(t, db, d.tables, d.tables.len() as int);
    let b = match d.raw {
        Some(ts) => wal::raw_restored(a, db, ts, ts.len() as int),
        None => a,
    };
    let c = match d.views {
        Some(ts) => wal::views_restored(b, db, ts, ts.len() as int),
        None => b,
    };
    let e = match d.triggers {
        Some(ts) => wal::triggers_restored(c, db, ts, ts.len() as int),
        None => c,
    };
    match d.raw {
        Some(ts) => lemma_parts_fields(a, db, ts, Seq::empty(), Seq::empty(), ts.len() as int),
        None => {},
    }
    match d.views {
        Some(ts) => lemma_parts_fields(b, db, Seq::empty(), ts, Seq::empty(), ts.len() as int),
        None => {},
    }
    match d.triggers {
        Some(ts) => lemma_parts_fields(c, db, Seq::empty(), Seq::empty(), ts, ts.len() as int),
        None => {},
    }
    lemma_fts_restored_fields(e, db, d.tables, d.tables.len() as int);
    covering::lemma_same_tables(a, wal::restored(t, db, d));
}

proof fn lemma_table_restored_exact(p: StateV, db: u32, x: TableDumpV, name: Seq<char>)
    requires
        covering::covered(wal::table_restored(p, db, x)),
        exact::table_exact(p, db, name),
    ensures
        exact::table_exact(wal::table_restored(p, db, x), db, name),
{
    let a = state::rowid_at_least(
        wal::contents_restored(p, db, x),
        db,
        x.name,
        state::after_rowid(wal::highest_id(x.rows, x.rows.len() as int)),
    );
    let t = wal::table_restored(p, db, x);
    match state::table_schema(a, db, x.name) {
        Some(d) => {
            let n = d.indices.len() as int;
            covering::lemma_rebuilt(a, db, x.name, d.indices, n, db, x.name, Seq::empty());
            assert(covering::table_covered(t, db, x.name));
            assert(state::table_schema(t, db, x.name) == Some(d));
            exact::lemma_rebuilt_exact(a, db, x.name, d);
        },
        None => {},
    }
    if name != x.name {
        let k = (db, x.name);
        let m = match state::table_rows(p, db, x.name) {
            Some(m) => m,
            None => Map::empty(),
        };
        assoc::lemma_get_put_other(p.dbs.items, k, wal::rows_put(m, x.rows, x.rows.len() as int), (db, name));
        match x.schema {
            Some(d) => assoc::lemma_get_put_other(p.schemas.items, k, d, (db, name)),
            None => {},
        }
        assert forall|i: Seq<char>| #[trigger] state::index_of(t, db, name, i) == state::index_of(p, db, name, i) by {
            match state::table_schema(a, db, x.name) {
                Some(d) => covering::lemma_rebuilt(a, db, x.name, d.indices, d.indices.len() as int, db, name, i),
                None => {},
            }
        }
        exact::lemma_same_indexes(p, t, db, name);
    }
}

proof fn lemma_tables_restored_exact(s: StateV, t: StateV, db: u32, k: int, name: Seq<char>)
    requires
        covering::covered(s),
        covering::covered(t),
        exact::table_exact(t, db, name),
        0 <= k <= s.dbs.items.len(),
    ensures
        exact::table_exact(
            wal::tables_restored(t, db, wal::tables_dumped(s, db, k), wal::tables_dumped(s, db, k).len() as int),
            db,
            name,
        ),
    decreases k,
{
    if k == 0 {
        exact::lemma_same_indexes(t, StateV { schemas: catalog::knowing(t.schemas, db), ..t }, db, name);
    } else {
        lemma_tables_restored_exact(s, t, db, k - 1, name);
        lemma_tables_restored_covered(s, t, db, k);
        let ts = wal::tables_dumped(s, db, k - 1);
        let p = wal::tables_restored(t, db, ts, ts.len() as int);
        let (key, m) = s.dbs.items[k - 1];
        if key.0 == db {
            let x = TableDumpV { name: key.1, schema: state::table_schema(s, db, key.1), rows: store::row_list(m) };
            assert(wal::tables_dumped(s, db, k) == ts.push(x));
            lemma_tables_prefix(t, db, ts, x, ts.len() as int);
            assert(ts.push(x)[ts.len() as int] == x);
            assert(wal::tables_restored(t, db, ts.push(x), ts.len() as int + 1) == wal::table_restored(p, db, x));
            lemma_table_restored_exact(p, db, x, name);
        }
    }
}

/// After a restart every secondary index holds exactly what the rows of its table give.
pub proof fn lemma_restored_exact(s: StateV, t: StateV, db: u32, name: Seq<char>)
    requires
        covering::covered(s),
        covering::covered(t),
        exact::table_exact(t, db, name),
    ensures
        exact::table_exact(wal::restored(t, db, wal::dumped(s, db)), db, name),
{
    let d = wal::dumped(s, db);
    lemma_tables_restored_exact(s, t, db, s.dbs.items.len() as int, name);
    let a = wal::tables_restored(t, db, d.tables, d.tables.len() as int);
    let b = match d.raw {
        Some(ts) => wal::raw_restored(a, db, ts, ts.len() as int),
        None => a,
    };
    let c = match d.views {
        Some(ts) => wal::views_restored(b, db, ts, ts.len() as int),
        None => b,
    };
    let e = match d.triggers {
        Some(ts) => wal::triggers_restored(c, db, ts, ts.len() as int),
        None => c,
    };
    match d.raw {
        Some(ts) => lemma_parts_fields(a, db, ts, Seq::empty(), Seq::empty(), ts.len() as int),
        None => {},
    }
    match d.views {
        Some(ts) => lemma_parts_fields(b, db, Seq::empty(), ts, Seq::empty(), ts.len() as int),
        None => {},
    }
    match d.triggers {
        Some(ts) => lemma_parts_fields(c, db, Seq::empty(), Seq::empty(), ts, ts.len() as int),
        None => {},
    }
    lemma_fts_restored_fields(e, db, d.tables, d.tables.len() as int);
    exact::lemma_same_indexes(a, wal::restored(t, db, d), db, name);
}

/// Whether a table is among the first `n` of a snapshot as one with a full-text index.
spec fn dumped_with_index(ts: Seq<TableDumpV>, n: int, name: Seq<char>) -> bool {
    exists|i: int|
        0 <= i < n && (#[trigger] ts[i]).name == name && match ts[i].schema {
            Some(d) => d.fts5_content_column is Some,
            None => false,
        }
}

proof fn lemma_fts_restored(e: StateV, db: u32, ts: Seq<TableDumpV>, n: int, name: Seq<char>)
    requires
        searching::table_in_step(e, db, name),
        0 <= n <= ts.len(),
    ensures
        searching::table_in_step(wal::fts_restored(e, db, ts, n), db, name),
        dumped_with_index(ts, n, name) ==> catalog::find(wal::fts_restored(e, db, ts, n).fts, db, name) is Some,
    decreases n,
{
    if n > 0 {
        lemma_fts_restored(e, db, ts, n - 1, name);
        lemma_fts_restored_fields(e, db, ts, n - 1);
        let p = wal::fts_restored(e, db, ts, n - 1);
        let x = ts[n - 1];
        match x.schema {
            Some(d) => match d.fts5_content_column {
                Some(c) => {
                    let rows = match state::table_rows(p, db, x.name) {
                        Some(m) => store::row_list(m),
                        None => Seq::empty(),
                    };
                    let f = FtsTableV {
                        name: x.name,
                        index: wal::fts_built(rows, c, rows.len() as int),
                        content_column: c,
                    };
                    assoc::lemma_get_put(p.fts.items, (db, x.name), f);
                    if x.name != name {
                        assoc::lemma_get_put_other(p.fts.items, (db, x.name), f, (db, name));
                    } else {
                        match state::table_rows(p, db, name) {
                            Some(m) => searching::lemma_built_in_step(m, name, c),
                            None => {},
                        }
                    }
                },
                None => {},
            },
            None => {},
        }
        if dumped_with_index(ts, n, name) && !dumped_with_index(ts, n - 1, name) {
            let i = choose|i: int|
                0 <= i < n && (#[trigger] ts[i]).name == name && match ts[i].schema {
                    Some(d) => d.fts5_content_column is Some,
                    None => false,
                };
            if i < n - 1 {
                assert(0 <= i < n - 1 && ts[i].name == name);
            }
        }
    }
}

proof fn lemma_dumped_table(s: StateV, db: u32, k: int, name: Seq<char>)
    requires
        0 <= k <= s.dbs.items.len(),
        among(s.dbs.items, db, name, k) is Some,
        match state::table_schema(s, db, name) {
            Some(d) => d.fts5_content_column is Some,
            None => false,
        },
    ensures
        dumped_with_index(wal::tables_dumped(s, db, k), wal::tables_dumped(s, db, k).len() as int, name),
    decreases k,
{
    let ts = wal::tables_dumped(s, db, k);
    let p = wal::tables_dumped(s, db, k - 1);
    let (key, m) = s.dbs.items[k - 1];
    if key == (db, name) {
        assert(ts == p.push(ts[p.len() as int]));
        assert(ts[p.len() as int].name == name);
    } else {
        lemma_dumped_table(s, db, k - 1, name);
        let i = choose|i: int|
            0 <= i < p.len() && (#[trigger] p[i]).name == name && match p[i].schema {
                Some(d) => d.fts5_content_column is Some,
                None => false,
            };
        assert(ts[i] == p[i]);
    }
}

/// A snapshot holds no full-text index, and after a restart every table that had one has it
/// again, with exactly the words of its rows.
pub proof fn lemma_restored_in_step(s: StateV, t: StateV, db: u32, name: Seq<char>)
    requires
        apart::single_names(s),
        is_empty(t, db),
        catalog::find(t.fts, db, name) is None,
    ensures
        ({
            let u = wal::restored(t, db, wal::dumped(s, db));
            &&& searching::table_in_step(u, db, name)
            &&& match (state::table_rows(s, db, name), state::table_schema(s, db, name)) {
                (Some(m), Some(d)) => d.fts5_content_column is Some ==> catalog::find(u.fts, db, name) is Some,
                _ => true,
            }
        }),
{
    let d = wal::dumped(s, db);
    let n = s.dbs.items.len() as int;
    let a = wal::tables_restored(t, db, d.tables, d.tables.len() as int);
    let b = match d.raw {
        Some(ts) => wal::raw_restored(a, db, ts, ts.len() as int),
        None => a,
    };
    let c = match d.views {
        Some(ts) => wal::views_restored(b, db, ts, ts.len() as int),
        None => b,
    };
    let e = match d.triggers {
        Some(ts) => wal::triggers_restored(c, db, ts, ts.len() as int),
        None => c,
    };
    lemma_tables_back(s, t, db, n, name);
    lemma_among_all(s.dbs, db, name);
    match d.raw {
        Some(ts) => lemma_parts_fields(a, db, ts, Seq::empty(), Seq::empty(), ts.len() as int),
        None => {},
    }
    match d.views {
        Some(ts) => lemma_parts_fields(b, db, Seq::empty(), ts, Seq::empty(), ts.len() as int),
        None => {},
    }
    match d.triggers {
        Some(ts) => lemma_parts_fields(c, db, Seq::empty(), Seq::empty(), ts, ts.len() as int),
        None => {},
    }
    assert(catalog::find(e.fts, db, name) is None);
    lemma_fts_restored(e, db, d.tables, d.tables.len() as int, name);
    match (state::table_rows(s, db, name), state::table_schema(s, db, name)) {
        (Some(m), Some(x)) => if x.fts5_content_column is Some {
            lemma_dumped_table(s, db, n, name);
        },
        _ => {},
    }
}

} // verus!

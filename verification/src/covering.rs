//! Every index covers its table: a row is found under its value. This is what makes it safe to
//! answer a query from an index.
use vstd::prelude::*;

use crate::assoc;
use crate::ast::{AlterTableOperationV, AssignmentV, BinaryOp, ExprV, StatementV};
use crate::catalog;
use crate::catalog::CatalogV;
use crate::constraint;
use crate::expr;
use crate::fts;
use crate::fts::FtsTableV;
use crate::index;
use crate::index::{IndexMapV, IndexOpV};
use crate::row::RowV;
use crate::schema;
use crate::schema::{ColumnV, IndexV, SchemaV, TriggerEvent, TriggerTiming, TriggerV, ValueV};
use crate::sql;
use crate::sql::ddl;
use crate::sql::ddl::RowChangeV;
use crate::sql::dml;
use crate::sql::parser;
use crate::sql::select;
use crate::state;
use crate::state::StateV;
use crate::store;
use crate::transaction;
use crate::transaction::UndoV;
use crate::triggers;
use crate::view;

verus! {

/// Whether an index over some columns finds every row of a table.
pub open spec fn covers(m: Map<u64, RowV>, columns: Seq<Seq<char>>, ix: IndexMapV) -> bool {
    forall|id: u64| #[trigger]
        m.contains_key(id) ==> match index::indexed_value(columns, m[id]) {
            Some(v) => index::index_ids(ix, v).contains(id),
            None => true,
        }
}

/// Whether no two indexes of a table share a name.
pub open spec fn names_differ(indices: Seq<IndexV>) -> bool {
    forall|i: int, j: int| 0 <= i < j < indices.len() ==> (#[trigger] indices[i]).name != (#[trigger] indices[j]).name
}

/// Whether the indexes of a table find all of its rows.
pub open spec fn indexes_cover(s: StateV, db: u32, table: Seq<char>, indices: Seq<IndexV>, m: Map<u64, RowV>) -> bool {
    forall|k: int|
        0 <= k < indices.len() ==> covers(
            m,
            (#[trigger] indices[k]).columns,
            state::index_of(s, db, table, indices[k].name),
        )
}

pub open spec fn table_covered(s: StateV, db: u32, table: Seq<char>) -> bool {
    match state::table_schema(s, db, table) {
        Some(d) => names_differ(d.indices) && match state::table_rows(s, db, table) {
            Some(m) => indexes_cover(s, db, table, d.indices, m),
            None => true,
        },
        None => true,
    }
}

/// Whether every index of every table finds all of its rows.
pub open spec fn covered(s: StateV) -> bool {
    &&& assoc::assoc_distinct(s.schemas.items)
    &&& forall|db: u32, table: Seq<char>| #[trigger] table_covered(s, db, table)
}

/// Values that are level stand alike to every third.
pub proof fn lemma_level(a: ValueV, b: ValueV, c: ValueV)
    requires
        schema::value_order(a, b) == 0,
    ensures
        (schema::value_order(a, c) < 0) == (schema::value_order(b, c) < 0),
        (schema::value_order(a, c) == 0) == (schema::value_order(b, c) == 0),
{
    schema::lemma_order_reverse(a, b);
    schema::lemma_order_reverse(a, c);
    schema::lemma_order_reverse(b, c);
    if schema::value_order(a, c) <= 0 {
        schema::lemma_order_transitive(b, a, c);
    }
    if schema::value_order(b, c) <= 0 {
        schema::lemma_order_transitive(a, b, c);
    }
    if schema::value_order(c, a) <= 0 {
        schema::lemma_order_transitive(c, a, b);
    }
    if schema::value_order(c, b) <= 0 {
        schema::lemma_order_transitive(c, b, a);
    }
}

/// To be below is transitive.
pub proof fn lemma_below(a: ValueV, b: ValueV, c: ValueV)
    requires
        schema::value_order(a, b) < 0,
        schema::value_order(b, c) < 0,
    ensures
        schema::value_order(a, c) < 0,
{
    schema::lemma_order_transitive(a, b, c);
    if schema::value_order(a, c) == 0 {
        lemma_level(a, c, b);
        schema::lemma_order_reverse(b, c);
    }
}

/// An id that leaves a list takes no other with it.
pub proof fn lemma_ids_without_keeps(ids: Seq<u64>, id: u64, x: u64)
    requires
        ids.contains(x),
        x != id,
    ensures
        fts::ids_without(ids, id).contains(x),
    decreases ids.len(),
{
    let i = choose|i: int| 0 <= i < ids.len() && ids[i] == x;
    let p = fts::ids_without(ids.drop_last(), id);
    if i == ids.len() - 1 {
        assert(p.push(ids.last())[p.len() as int] == x);
    } else {
        assert(ids.drop_last()[i] == x);
        lemma_ids_without_keeps(ids.drop_last(), id, x);
        if ids.last() != id {
            let j = choose|j: int| 0 <= j < p.len() && p[j] == x;
            assert(p.push(ids.last())[j] == x);
        }
    }
}

/// An id that is put into an index is found under its value, and nothing else is lost.
pub proof fn lemma_index_with(s: IndexMapV, v: ValueV, id: u64, w: ValueV, x: u64)
    ensures
        schema::value_order(w, v) == 0 ==> index::index_ids(index::index_with(s, v, id), w).contains(id),
        index::index_ids(s, w).contains(x) ==> index::index_ids(index::index_with(s, v, id), w).contains(x),
    decreases s.len(),
{
    let t = index::index_with(s, v, id);
    if s.len() == 0 || schema::value_order(v, s[0].0) < 0 {
        assert(t.drop_first() =~= s);
        assert(t[0] == (v, seq![id]));
        assert(seq![id][0] == id);
        if s.len() > 0 {
            if schema::value_order(w, v) < 0 {
                lemma_below(w, v, s[0].0);
            }
            if schema::value_order(w, v) == 0 {
                lemma_level(w, v, s[0].0);
            }
        }
    } else if schema::value_order(v, s[0].0) == 0 {
        assert(t.drop_first() =~= s.drop_first());
        let ids = s[0].1;
        if !ids.contains(id) {
            assert(ids.push(id)[ids.len() as int] == id);
            if ids.contains(x) {
                let j = choose|j: int| 0 <= j < ids.len() && ids[j] == x;
                assert(ids.push(id)[j] == x);
            }
        }
        if schema::value_order(w, v) == 0 {
            lemma_level(w, v, s[0].0);
        }
    } else {
        lemma_index_with(s.drop_first(), v, id, w, x);
        assert(t.drop_first() =~= index::index_with(s.drop_first(), v, id));
        if schema::value_order(w, v) == 0 {
            lemma_level(w, v, s[0].0);
        }
    }
}

/// An index from which an id is taken still finds everything else.
pub proof fn lemma_index_without(s: IndexMapV, v: ValueV, id: u64, w: ValueV, x: u64)
    requires
        index::index_ids(s, w).contains(x),
        x != id,
    ensures
        index::index_ids(index::index_without(s, v, id), w).contains(x),
    decreases s.len(),
{
    let t = index::index_without(s, v, id);
    if s.len() == 0 || schema::value_order(v, s[0].0) < 0 {
    } else if schema::value_order(v, s[0].0) == 0 {
        if schema::value_order(w, s[0].0) == 0 {
            lemma_ids_without_keeps(s[0].1, id, x);
        }
        if fts::ids_without(s[0].1, id).len() != 0 {
            assert(t.drop_first() =~= s.drop_first());
        }
    } else {
        if schema::value_order(w, s[0].0) > 0 {
            lemma_index_without(s.drop_first(), v, id, w, x);
        }
        assert(t.drop_first() =~= index::index_without(s.drop_first(), v, id));
    }
}

/// What an index holds after it followed a change of a row.
pub open spec fn index_after(ix: IndexMapV, columns: Seq<Seq<char>>, row: RowV, id: u64, op: IndexOpV) -> IndexMapV {
    match op {
        IndexOpV::Insert => plus_row(ix, columns, row, id),
        IndexOpV::Delete => minus_row(ix, columns, row, id),
        IndexOpV::Update { old_row } => plus_row(minus_row(ix, columns, old_row, id), columns, row, id),
    }
}

pub open spec fn plus_row(ix: IndexMapV, columns: Seq<Seq<char>>, row: RowV, id: u64) -> IndexMapV {
    match index::indexed_value(columns, row) {
        Some(v) => index::index_with(ix, v, id),
        None => ix,
    }
}

pub open spec fn minus_row(ix: IndexMapV, columns: Seq<Seq<char>>, row: RowV, id: u64) -> IndexMapV {
    match index::indexed_value(columns, row) {
        Some(v) => index::index_without(ix, v, id),
        None => ix,
    }
}

/// The rows of a table after a change of a row.
pub open spec fn rows_after(m: Map<u64, RowV>, row: RowV, id: u64, op: IndexOpV) -> Map<u64, RowV> {
    match op {
        IndexOpV::Delete => m.remove(id),
        _ => m.insert(id, row),
    }
}

/// An index that follows a change of a row still finds every row.
pub proof fn lemma_index_follows(m: Map<u64, RowV>, columns: Seq<Seq<char>>, ix: IndexMapV, row: RowV, id: u64, op: IndexOpV)
    requires
        covers(m, columns, ix),
    ensures
        covers(rows_after(m, row, id, op), columns, index_after(ix, columns, row, id, op)),
{
    let n = rows_after(m, row, id, op);
    let jx = index_after(ix, columns, row, id, op);
    let kx = match op {
        IndexOpV::Update { old_row } => minus_row(ix, columns, old_row, id),
        _ => ix,
    };
    assert forall|x: u64| #[trigger] n.contains_key(x) implies (match index::indexed_value(columns, n[x]) {
        Some(v) => index::index_ids(jx, v).contains(x),
        None => true,
    }) by {
        match index::indexed_value(columns, n[x]) {
            Some(w) => {
                if x == id {
                    schema::lemma_order_reflexive(w);
                    lemma_index_with(kx, w, id, w, x);
                } else {
                    assert(m.contains_key(x));
                    assert(index::index_ids(ix, w).contains(x));
                    match op {
                        IndexOpV::Update { old_row } => match index::indexed_value(columns, old_row) {
                            Some(u) => lemma_index_without(ix, u, id, w, x),
                            None => {},
                        },
                        IndexOpV::Delete => match index::indexed_value(columns, row) {
                            Some(u) => lemma_index_without(ix, u, id, w, x),
                            None => {},
                        },
                        _ => {},
                    }
                    match index::indexed_value(columns, row) {
                        Some(u) => lemma_index_with(kx, u, id, w, x),
                        None => {},
                    }
                }
            },
            None => {},
        }
    }
}

/// To fill one index leaves the others as they are.
pub proof fn lemma_index_set(s: StateV, db: u32, table: Seq<char>, name: Seq<char>, ix: IndexMapV, db2: u32, table2: Seq<char>, name2: Seq<char>)
    ensures
        state::index_of(state::index_set(s, db, table, name, ix), db2, table2, name2) == (if db == db2 && table == table2 && name
            == name2 {
            ix
        } else {
            state::index_of(s, db2, table2, name2)
        }),
{
    let k = (db, state::index_key(table, name));
    let k2 = (db2, state::index_key(table2, name2));
    assoc::lemma_get_put(s.indexes.items, k, ix);
    if k != k2 {
        assoc::lemma_get_put_other(s.indexes.items, k, ix, k2);
    } else {
        state::lemma_index_keys_differ(table, name, table2, name2);
    }
}

/// What each index of a table holds after the first `n` followed a change of a row.
pub proof fn lemma_followed(
    s: StateV,
    db: u32,
    table: Seq<char>,
    indices: Seq<IndexV>,
    n: int,
    row: RowV,
    id: u64,
    op: IndexOpV,
    db2: u32,
    table2: Seq<char>,
    name2: Seq<char>,
)
    requires
        0 <= n <= indices.len(),
    ensures
        ({
            let t = index::indexes_followed(s, db, table, indices, n, row, id, op);
            &&& t == (StateV { indexes: t.indexes, ..s })
            &&& (db != db2 || table != table2) ==> state::index_of(t, db2, table2, name2) == state::index_of(s, db2, table2, name2)
            &&& (forall|i: int| 0 <= i < n ==> (#[trigger] indices[i]).name != name2) ==> state::index_of(
                t,
                db2,
                table2,
                name2,
            ) == state::index_of(s, db2, table2, name2)
        }),
    decreases n,
{
    if n > 0 {
        let p = index::indexes_followed(s, db, table, indices, n - 1, row, id, op);
        let idx = indices[n - 1];
        lemma_followed(s, db, table, indices, n - 1, row, id, op, db2, table2, name2);
        match op {
            IndexOpV::Insert => lemma_one_added(p, db, table, idx, row, id, db2, table2, name2),
            IndexOpV::Delete => lemma_one_removed(p, db, table, idx, row, id, db2, table2, name2),
            IndexOpV::Update { old_row } => {
                let q = index::removed_from_index(p, db, table, idx, old_row, id);
                lemma_one_removed(p, db, table, idx, old_row, id, db2, table2, name2);
                lemma_one_added(q, db, table, idx, row, id, db2, table2, name2);
            },
        }
    }
}

proof fn lemma_one_added(
    s: StateV,
    db: u32,
    table: Seq<char>,
    idx: IndexV,
    row: RowV,
    id: u64,
    db2: u32,
    table2: Seq<char>,
    name2: Seq<char>,
)
    ensures
        ({
            let t = index::added_to_index(s, db, table, idx, row, id);
            &&& t == (StateV { indexes: t.indexes, ..s })
            &&& state::index_of(t, db2, table2, name2) == (if db == db2 && table == table2 && idx.name == name2 {
                plus_row(state::index_of(s, db, table, idx.name), idx.columns, row, id)
            } else {
                state::index_of(s, db2, table2, name2)
            })
        }),
{
    match index::indexed_value(idx.columns, row) {
        Some(v) => lemma_index_set(
            s,
            db,
            table,
            idx.name,
            index::index_with(state::index_of(s, db, table, idx.name), v, id),
            db2,
            table2,
            name2,
        ),
        None => {},
    }
}

proof fn lemma_one_removed(
    s: StateV,
    db: u32,
    table: Seq<char>,
    idx: IndexV,
    row: RowV,
    id: u64,
    db2: u32,
    table2: Seq<char>,
    name2: Seq<char>,
)
    ensures
        ({
            let t = index::removed_from_index(s, db, table, idx, row, id);
            &&& t == (StateV { indexes: t.indexes, ..s })
            &&& state::index_of(t, db2, table2, name2) == (if db == db2 && table == table2 && idx.name == name2 {
                minus_row(state::index_of(s, db, table, idx.name), idx.columns, row, id)
            } else {
                state::index_of(s, db2, table2, name2)
            })
        }),
{
    match index::indexed_value(idx.columns, row) {
        Some(v) => lemma_index_set(
            s,
            db,
            table,
            idx.name,
            index::index_without(state::index_of(s, db, table, idx.name), v, id),
            db2,
            table2,
            name2,
        ),
        None => {},
    }
}

/// What the `k`-th index of a table holds after the first `n` followed a change of a row.
pub proof fn lemma_followed_at(
    s: StateV,
    db: u32,
    table: Seq<char>,
    indices: Seq<IndexV>,
    n: int,
    row: RowV,
    id: u64,
    op: IndexOpV,
    k: int,
)
    requires
        names_differ(indices),
        0 <= k < n <= indices.len(),
    ensures
        state::index_of(index::indexes_followed(s, db, table, indices, n, row, id, op), db, table, indices[k].name) == index_after(
            state::index_of(s, db, table, indices[k].name),
            indices[k].columns,
            row,
            id,
            op,
        ),
    decreases n,
{
    let p = index::indexes_followed(s, db, table, indices, n - 1, row, id, op);
    let idx = indices[n - 1];
    let name = indices[k].name;
    if k < n - 1 {
        lemma_followed_at(s, db, table, indices, n - 1, row, id, op, k);
        assert(indices[k].name != indices[n - 1].name);
    } else {
        assert forall|i: int| 0 <= i < n - 1 implies (#[trigger] indices[i]).name != name by {
            assert(indices[i].name != indices[n - 1].name);
        }
        lemma_followed(s, db, table, indices, n - 1, row, id, op, db, table, name);
    }
    match op {
        IndexOpV::Insert => lemma_one_added(p, db, table, idx, row, id, db, table, name),
        IndexOpV::Delete => lemma_one_removed(p, db, table, idx, row, id, db, table, name),
        IndexOpV::Update { old_row } => {
            let q = index::removed_from_index(p, db, table, idx, old_row, id);
            lemma_one_removed(p, db, table, idx, old_row, id, db, table, name);
            lemma_one_added(q, db, table, idx, row, id, db, table, name);
        },
    }
}

/// Whether a table, its definition and its indexes are the same in two states.
pub open spec fn alike(s: StateV, t: StateV, db: u32, table: Seq<char>) -> bool {
    &&& state::table_schema(t, db, table) == state::table_schema(s, db, table)
    &&& state::table_rows(t, db, table) == state::table_rows(s, db, table)
    &&& forall|name: Seq<char>| #[trigger] state::index_of(t, db, table, name) == state::index_of(s, db, table, name)
}

/// Whether all tables but one are the same in two states.
pub open spec fn alike_elsewhere(s: StateV, t: StateV, db: u32, table: Seq<char>) -> bool {
    forall|db2: u32, table2: Seq<char>|
        (db2, table2) != (db, table) ==> #[trigger] alike(s, t, db2, table2)
}

/// A change of one table leaves the others covered.
pub proof fn lemma_elsewhere(s: StateV, t: StateV, db: u32, table: Seq<char>)
    requires
        covered(s),
        assoc::assoc_distinct(t.schemas.items),
        alike_elsewhere(s, t, db, table),
        table_covered(t, db, table),
    ensures
        covered(t),
{
    assert forall|db2: u32, table2: Seq<char>| #[trigger] table_covered(t, db2, table2) by {
        if (db2, table2) != (db, table) {
            assert(alike(s, t, db2, table2));
            assert(table_covered(s, db2, table2));
            match (state::table_schema(s, db2, table2), state::table_rows(s, db2, table2)) {
                (Some(d), Some(m)) => {
                    assert forall|k: int| 0 <= k < d.indices.len() implies covers(
                        m,
                        (#[trigger] d.indices[k]).columns,
                        state::index_of(t, db2, table2, d.indices[k].name),
                    ) by {
                        assert(state::index_of(t, db2, table2, d.indices[k].name) == state::index_of(
                            s,
                            db2,
                            table2,
                            d.indices[k].name,
                        ));
                    }
                },
                _ => {},
            }
        }
    }
}

/// What leaves tables and indexes alone leaves every table covered.
pub proof fn lemma_same_tables(s: StateV, t: StateV)
    requires
        covered(s),
        t.dbs == s.dbs,
        t.schemas.items == s.schemas.items,
        t.indexes == s.indexes,
    ensures
        covered(t),
{
    assert(alike_elsewhere(s, t, 0, Seq::empty()));
    assert(table_covered(s, 0, Seq::empty()));
    assert(alike(s, t, 0, Seq::empty()));
    match (state::table_schema(s, 0, Seq::empty()), state::table_rows(s, 0, Seq::empty())) {
        (Some(d), Some(m)) => {
            assert forall|k: int| 0 <= k < d.indices.len() implies covers(
                m,
                (#[trigger] d.indices[k]).columns,
                state::index_of(t, 0, Seq::empty(), d.indices[k].name),
            ) by {}
        },
        _ => {},
    }
    lemma_elsewhere(s, t, 0, Seq::empty());
}

/// The state in which the rows of a table changed and its indexes followed is covered.
proof fn lemma_change_covered(s: StateV, a: StateV, db: u32, table: Seq<char>, row: RowV, id: u64, op: IndexOpV)
    requires
        covered(s),
        a.schemas == s.schemas,
        a.indexes == s.indexes,
        a.dbs == (match state::table_rows(s, db, table) {
            Some(m) => catalog::changed(s.dbs, db, table, rows_after(m, row, id, op)),
            None => s.dbs,
        }),
    ensures
        covered(index::indexed(a, db, table, row, id, op)),
{
    let t = index::indexed(a, db, table, row, id, op);
    assert(table_covered(s, db, table));
    match state::table_schema(s, db, table) {
        Some(d) => {
            let n = d.indices.len() as int;
            lemma_followed(a, db, table, d.indices, n, row, id, op, db, table, Seq::empty());
            assert forall|db2: u32, table2: Seq<char>| (db2, table2) != (db, table) implies #[trigger] alike(
                s,
                t,
                db2,
                table2,
            ) by {
                match state::table_rows(s, db, table) {
                    Some(m) => assoc::lemma_get_put_other(
                        s.dbs.items,
                        (db, table),
                        rows_after(m, row, id, op),
                        (db2, table2),
                    ),
                    None => {},
                }
                assert forall|name: Seq<char>| #[trigger] state::index_of(t, db2, table2, name) == state::index_of(
                    s,
                    db2,
                    table2,
                    name,
                ) by {
                    lemma_followed(a, db, table, d.indices, n, row, id, op, db2, table2, name);
                }
            }
            match state::table_rows(s, db, table) {
                Some(m) => {
                    let m2 = rows_after(m, row, id, op);
                    assoc::lemma_get_put(s.dbs.items, (db, table), m2);
                    assert forall|k: int| 0 <= k < d.indices.len() implies covers(
                        m2,
                        (#[trigger] d.indices[k]).columns,
                        state::index_of(t, db, table, d.indices[k].name),
                    ) by {
                        lemma_followed_at(a, db, table, d.indices, n, row, id, op, k);
                        lemma_index_follows(
                            m,
                            d.indices[k].columns,
                            state::index_of(s, db, table, d.indices[k].name),
                            row,
                            id,
                            op,
                        );
                    }
                },
                None => {},
            }
        },
        None => {
            assert forall|db2: u32, table2: Seq<char>| (db2, table2) != (db, table) implies #[trigger] alike(
                s,
                t,
                db2,
                table2,
            ) by {
                match state::table_rows(s, db, table) {
                    Some(m) => assoc::lemma_get_put_other(
                        s.dbs.items,
                        (db, table),
                        rows_after(m, row, id, op),
                        (db2, table2),
                    ),
                    None => {},
                }
            }
        },
    }
    lemma_elsewhere(s, t, db, table);
}

/// A new row leaves every table covered.
pub proof fn lemma_row_written_covered(s: StateV, db: u32, table: Seq<char>, id: u64, row: RowV, tx: Option<u32>)
    requires
        covered(s),
    ensures
        covered(dml::row_written(s, db, table, id, row, tx)),
{
    let a = dml::journaled(state::row_stored(s, db, table, id, row), tx, UndoV::Insert { table, rowid: id });
    lemma_change_covered(s, a, db, table, row, id, IndexOpV::Insert);
    let b = index::indexed(a, db, table, row, id, IndexOpV::Insert);
    dml::lemma_synced_fields(b, db, table, id, row, false);
    lemma_same_tables(b, dml::fts_synced(b, db, table, id, row, false));
}

/// A changed row leaves every table covered.
pub proof fn lemma_row_rewritten_covered(
    s: StateV,
    db: u32,
    table: Seq<char>,
    id: u64,
    old_row: RowV,
    new_row: RowV,
    tx: Option<u32>,
)
    requires
        covered(s),
    ensures
        covered(dml::row_rewritten(s, db, table, id, old_row, new_row, tx)),
{
    let op = IndexOpV::Update { old_row };
    let a = dml::journaled(state::row_stored(s, db, table, id, new_row), tx, UndoV::Update { table, rowid: id, old_row });
    lemma_change_covered(s, a, db, table, new_row, id, op);
    let b = index::indexed(a, db, table, new_row, id, op);
    let c = dml::fts_synced(b, db, table, id, old_row, true);
    dml::lemma_synced_fields(b, db, table, id, old_row, true);
    dml::lemma_synced_fields(c, db, table, id, new_row, false);
    lemma_same_tables(b, dml::fts_moved(b, db, table, id, old_row, new_row));
}

/// A deleted row leaves every table covered.
pub proof fn lemma_row_erased_covered(s: StateV, db: u32, table: Seq<char>, id: u64, row: RowV, tx: Option<u32>)
    requires
        covered(s),
    ensures
        covered(dml::row_erased(s, db, table, id, row, tx)),
{
    let a = dml::journaled(state::row_dropped(s, db, table, id), tx, UndoV::Delete { table, rowid: id, row });
    lemma_change_covered(s, a, db, table, row, id, IndexOpV::Delete);
    let b = index::indexed(a, db, table, row, id, IndexOpV::Delete);
    dml::lemma_synced_fields(b, db, table, id, row, true);
    lemma_same_tables(b, dml::fts_synced(b, db, table, id, row, true));
}

/// An undone change leaves every table covered.
pub proof fn lemma_undone_covered(s: StateV, db: u32, op: UndoV)
    requires
        covered(s),
    ensures
        covered(transaction::undone(s, db, op)),
{
    match op {
        UndoV::Insert { table, rowid } => match state::table_rows(s, db, table) {
            Some(m) => if m.contains_key(rowid) {
                let a = state::row_dropped(s, db, table, rowid);
                lemma_change_covered(s, a, db, table, m[rowid], rowid, IndexOpV::Delete);
                let b = index::indexed(a, db, table, m[rowid], rowid, IndexOpV::Delete);
                dml::lemma_synced_fields(b, db, table, rowid, m[rowid], true);
                lemma_same_tables(b, dml::fts_synced(b, db, table, rowid, m[rowid], true));
            },
            None => {},
        },
        UndoV::Delete { table, rowid, row } => match state::table_rows(s, db, table) {
            Some(m) => {
                let a = state::row_stored(s, db, table, rowid, row);
                lemma_change_covered(s, a, db, table, row, rowid, IndexOpV::Insert);
                let b = index::indexed(a, db, table, row, rowid, IndexOpV::Insert);
                dml::lemma_synced_fields(b, db, table, rowid, row, false);
                lemma_same_tables(b, dml::fts_synced(b, db, table, rowid, row, false));
            },
            None => {},
        },
        UndoV::Update { table, rowid, old_row } => match state::table_rows(s, db, table) {
            Some(m) => {
                let a = state::row_stored(s, db, table, rowid, old_row);
                let was = if m.contains_key(rowid) {
                    m[rowid]
                } else {
                    Seq::empty()
                };
                let o = IndexOpV::Update { old_row: was };
                lemma_change_covered(s, a, db, table, old_row, rowid, o);
                let b = index::indexed(a, db, table, old_row, rowid, o);
                if m.contains_key(rowid) {
                    let c = dml::fts_synced(b, db, table, rowid, was, true);
                    dml::lemma_synced_fields(b, db, table, rowid, was, true);
                    dml::lemma_synced_fields(c, db, table, rowid, old_row, false);
                    lemma_same_tables(b, dml::fts_moved(b, db, table, rowid, was, old_row));
                }
            },
            None => {},
        },
    }
}

/// An undone journal leaves every table covered.
pub proof fn lemma_undone_upto_covered(s: StateV, db: u32, ops: Seq<UndoV>, n: int)
    requires
        covered(s),
        0 <= n <= ops.len(),
    ensures
        covered(transaction::undone_upto(s, db, ops, n)),
    decreases n,
{
    if n > 0 {
        lemma_undone_covered(s, db, ops[n - 1]);
        lemma_undone_upto_covered(transaction::undone(s, db, ops[n - 1]), db, ops, n - 1);
    }
}

/// An index that is built from a list of rows finds each of them.
proof fn lemma_built(rows: Seq<(u64, RowV)>, columns: Seq<Seq<char>>, n: int, i: int)
    requires
        0 <= i < n <= rows.len(),
    ensures
        match index::indexed_value(columns, rows[i].1) {
            Some(v) => index::index_ids(index::built_index(rows, columns, n), v).contains(rows[i].0),
            None => true,
        },
    decreases n,
{
    let p = index::built_index(rows, columns, n - 1);
    match index::indexed_value(columns, rows[i].1) {
        Some(w) => {
            if i < n - 1 {
                lemma_built(rows, columns, n - 1, i);
            }
            match index::indexed_value(columns, rows[n - 1].1) {
                Some(v) => {
                    schema::lemma_order_reflexive(w);
                    lemma_index_with(p, v, rows[n - 1].0, w, rows[i].0);
                },
                None => {},
            }
        },
        None => {},
    }
}

/// An index that is built from a table finds all of its rows.
pub proof fn lemma_built_covers(m: Map<u64, RowV>, columns: Seq<Seq<char>>)
    ensures
        covers(m, columns, index::built_index(store::row_list(m), columns, store::row_list(m).len() as int)),
{
    let l = store::row_list(m);
    assert forall|id: u64| #[trigger] m.contains_key(id) implies (match index::indexed_value(columns, m[id]) {
        Some(v) => index::index_ids(index::built_index(l, columns, l.len() as int), v).contains(id),
        None => true,
    }) by {
        let i = store::lemma_place_in_list(m, id);
        lemma_built(l, columns, l.len() as int, i);
    }
}

/// What the indexes hold after the first `n` of a table were made anew.
pub proof fn lemma_rebuilt(
    s: StateV,
    db: u32,
    table: Seq<char>,
    indices: Seq<IndexV>,
    n: int,
    db2: u32,
    table2: Seq<char>,
    name2: Seq<char>,
)
    requires
        0 <= n <= indices.len(),
    ensures
        ({
            let t = ddl::indexes_rebuilt(s, db, table, indices, n);
            &&& t == (StateV { indexes: t.indexes, ..s })
            &&& (db != db2 || table != table2) ==> state::index_of(t, db2, table2, name2) == state::index_of(s, db2, table2, name2)
            &&& (forall|i: int| 0 <= i < n ==> (#[trigger] indices[i]).name != name2) ==> state::index_of(
                t,
                db2,
                table2,
                name2,
            ) == state::index_of(s, db2, table2, name2)
        }),
    decreases n,
{
    if n > 0 {
        let p = ddl::indexes_rebuilt(s, db, table, indices, n - 1);
        lemma_rebuilt(s, db, table, indices, n - 1, db2, table2, name2);
        match state::table_rows(p, db, table) {
            Some(m) => lemma_index_set(
                p,
                db,
                table,
                indices[n - 1].name,
                index::built_index(store::row_list(m), indices[n - 1].columns, store::row_list(m).len() as int),
                db2,
                table2,
                name2,
            ),
            None => {},
        }
    }
}

proof fn lemma_rebuilt_at(s: StateV, db: u32, table: Seq<char>, indices: Seq<IndexV>, n: int, k: int, m: Map<u64, RowV>)
    requires
        names_differ(indices),
        0 <= k < n <= indices.len(),
        state::table_rows(s, db, table) == Some(m),
    ensures
        covers(m, indices[k].columns, state::index_of(ddl::indexes_rebuilt(s, db, table, indices, n), db, table, indices[k].name)),
    decreases n,
{
    let p = ddl::indexes_rebuilt(s, db, table, indices, n - 1);
    let name = indices[k].name;
    lemma_rebuilt(s, db, table, indices, n - 1, db, table, name);
    lemma_built_covers(m, indices[n - 1].columns);
    lemma_index_set(
        p,
        db,
        table,
        indices[n - 1].name,
        index::built_index(store::row_list(m), indices[n - 1].columns, store::row_list(m).len() as int),
        db,
        table,
        name,
    );
    if k < n - 1 {
        lemma_rebuilt_at(s, db, table, indices, n - 1, k, m);
        assert(indices[k].name != indices[n - 1].name);
    }
}

/// A table whose indexes were made anew is covered.
pub proof fn lemma_rebuilt_covered(s: StateV, a: StateV, db: u32, table: Seq<char>, d: SchemaV)
    requires
        covered(s),
        assoc::assoc_distinct(a.schemas.items),
        alike_elsewhere(s, a, db, table),
        state::table_schema(a, db, table) == Some(d),
        names_differ(d.indices),
    ensures
        covered(ddl::indexes_rebuilt(a, db, table, d.indices, d.indices.len() as int)),
{
    let n = d.indices.len() as int;
    let t = ddl::indexes_rebuilt(a, db, table, d.indices, n);
    lemma_rebuilt(a, db, table, d.indices, n, db, table, Seq::empty());
    assert forall|db2: u32, table2: Seq<char>| (db2, table2) != (db, table) implies #[trigger] alike(
        s,
        t,
        db2,
        table2,
    ) by {
        assert(alike(s, a, db2, table2));
        assert forall|name: Seq<char>| #[trigger] state::index_of(t, db2, table2, name) == state::index_of(s, db2, table2, name) by {
            lemma_rebuilt(a, db, table, d.indices, n, db2, table2, name);
            assert(state::index_of(a, db2, table2, name) == state::index_of(s, db2, table2, name));
        }
    }
    match state::table_rows(a, db, table) {
        Some(m) => {
            assert forall|k: int| 0 <= k < n implies covers(
                m,
                (#[trigger] d.indices[k]).columns,
                state::index_of(t, db, table, d.indices[k].name),
            ) by {
                lemma_rebuilt_at(a, db, table, d.indices, n, k, m);
            }
        },
        None => {},
    }
    lemma_elsewhere(s, t, db, table);
}

proof fn lemma_table_added_covered(s: StateV, db: u32, d: SchemaV)
    requires
        covered(s),
        d.indices.len() == 0,
    ensures
        covered(ddl::table_added(s, db, d)),
{
    let t = ddl::table_added(s, db, d);
    assoc::lemma_put_distinct(s.schemas.items, (db, d.name), d);
    assoc::lemma_get_put(s.schemas.items, (db, d.name), d);
    assert forall|db2: u32, table2: Seq<char>| (db2, table2) != (db, d.name) implies #[trigger] alike(
        s,
        t,
        db2,
        table2,
    ) by {
        assoc::lemma_get_put_other(s.schemas.items, (db, d.name), d, (db2, table2));
        assoc::lemma_get_put_other(s.dbs.items, (db, d.name), Map::<u64, RowV>::empty(), (db2, table2));
    }
    lemma_elsewhere(s, t, db, d.name);
}

proof fn lemma_table_removed_covered(s: StateV, db: u32, table: Seq<char>)
    requires
        covered(s),
    ensures
        covered(ddl::table_removed(s, db, table)),
{
    let t = ddl::table_removed(s, db, table);
    assoc::lemma_remove_distinct(s.schemas.items, (db, table));
    assoc::lemma_get_remove(s.schemas.items, (db, table));
    assert forall|db2: u32, table2: Seq<char>| (db2, table2) != (db, table) implies #[trigger] alike(
        s,
        t,
        db2,
        table2,
    ) by {
        assoc::lemma_get_remove_other(s.schemas.items, (db, table), (db2, table2));
        assoc::lemma_get_remove_other(s.dbs.items, (db, table), (db2, table2));
    }
    lemma_elsewhere(s, t, db, table);
}

proof fn lemma_reshaped_covered(s: StateV, db: u32, table: Seq<char>, d: SchemaV, c: RowChangeV)
    requires
        covered(s),
        names_differ(d.indices),
    ensures
        covered(ddl::reshaped(s, db, table, d, c)),
{
    let t = ddl::table_changed(s, db, table, c);
    let a = StateV { schemas: catalog::with(t.schemas, db, table, d), ..t };
    assoc::lemma_put_distinct(s.schemas.items, (db, table), d);
    assoc::lemma_get_put(s.schemas.items, (db, table), d);
    assert forall|db2: u32, table2: Seq<char>| (db2, table2) != (db, table) implies #[trigger] alike(
        s,
        a,
        db2,
        table2,
    ) by {
        assoc::lemma_get_put_other(s.schemas.items, (db, table), d, (db2, table2));
        match state::table_rows(s, db, table) {
            Some(m) => assoc::lemma_get_put_other(s.dbs.items, (db, table), ddl::rows_changed(m, c), (db2, table2)),
            None => {},
        }
    }
    lemma_rebuilt_covered(s, a, db, table, d);
}

proof fn lemma_dropped_index(s: StateV, db: u32, table: Seq<char>, name: Seq<char>, db2: u32, table2: Seq<char>, name2: Seq<char>)
    requires
        (db, table, name) != (db2, table2, name2),
    ensures
        state::index_of(state::index_dropped(s, db, table, name), db2, table2, name2) == state::index_of(s, db2, table2, name2),
{
    let k = (db, state::index_key(table, name));
    let k2 = (db2, state::index_key(table2, name2));
    if k == k2 {
        state::lemma_index_keys_differ(table, name, table2, name2);
    }
    assoc::lemma_get_remove_other(s.indexes.items, k, k2);
}

proof fn lemma_dropped_indexes(
    s: StateV,
    db: u32,
    table: Seq<char>,
    indices: Seq<IndexV>,
    n: int,
    db2: u32,
    table2: Seq<char>,
    name2: Seq<char>,
)
    requires
        0 <= n <= indices.len(),
    ensures
        ({
            let t = ddl::indexes_dropped(s, db, table, indices, n);
            &&& t == (StateV { indexes: t.indexes, ..s })
            &&& (db != db2 || table != table2) ==> state::index_of(t, db2, table2, name2) == state::index_of(s, db2, table2, name2)
        }),
    decreases n,
{
    if n > 0 {
        lemma_dropped_indexes(s, db, table, indices, n - 1, db2, table2, name2);
        if db != db2 || table != table2 {
            lemma_dropped_index(
                ddl::indexes_dropped(s, db, table, indices, n - 1),
                db,
                table,
                indices[n - 1].name,
                db2,
                table2,
                name2,
            );
        }
    }
}

proof fn lemma_moved<T>(c: CatalogV<T>, db: u32, from: Seq<char>, to: Seq<char>, db2: u32, name: Seq<char>)
    requires
        (db2, name) != (db, from),
        (db2, name) != (db, to),
    ensures
        catalog::find(ddl::moved(c, db, from, to), db2, name) == catalog::find(c, db2, name),
{
    match catalog::find(c, db, from) {
        Some(v) => {
            assoc::lemma_get_remove_other(c.items, (db, from), (db2, name));
            assoc::lemma_get_put_other(assoc::assoc_remove(c.items, (db, from)), (db, to), v, (db2, name));
        },
        None => {},
    }
}

proof fn lemma_table_renamed_covered(s: StateV, db: u32, table: Seq<char>, d: SchemaV, to: Seq<char>)
    requires
        covered(s),
        names_differ(d.indices),
    ensures
        covered(ddl::table_renamed(s, db, table, d, to)),
{
    let e = SchemaV { name: to, ..d };
    let t = StateV {
        schemas: catalog::with(catalog::without(s.schemas, db, table), db, to, e),
        dbs: ddl::moved(s.dbs, db, table, to),
        generators: ddl::moved(s.generators, db, table, to),
        ..s
    };
    let n = d.indices.len() as int;
    let a = ddl::indexes_dropped(t, db, table, d.indices, n);
    let r = assoc::assoc_remove(s.schemas.items, (db, table));
    assoc::lemma_remove_distinct(s.schemas.items, (db, table));
    assoc::lemma_get_remove(s.schemas.items, (db, table));
    assoc::lemma_put_distinct(r, (db, to), e);
    assoc::lemma_get_put(r, (db, to), e);
    lemma_dropped_indexes(t, db, table, d.indices, n, db, table, Seq::empty());
    // A state that lacks the old table altogether stands between the two.
    let b = StateV { schemas: catalog::without(s.schemas, db, table), ..s };
    assert forall|db2: u32, table2: Seq<char>| (db2, table2) != (db, table) implies #[trigger] alike(
        s,
        b,
        db2,
        table2,
    ) by {
        assoc::lemma_get_remove_other(s.schemas.items, (db, table), (db2, table2));
    }
    lemma_elsewhere(s, b, db, table);
    assert(covered(b));
    assert forall|db2: u32, table2: Seq<char>| (db2, table2) != (db, to) implies #[trigger] table_covered(
        a,
        db2,
        table2,
    ) by {
        assert(table_covered(b, db2, table2));
        assoc::lemma_get_put_other(r, (db, to), e, (db2, table2));
        if (db2, table2) != (db, table) {
            lemma_moved(s.dbs, db, table, to, db2, table2);
            match (state::table_schema(b, db2, table2), state::table_rows(b, db2, table2)) {
                (Some(x), Some(m)) => {
                    assert forall|k: int| 0 <= k < x.indices.len() implies covers(
                        m,
                        (#[trigger] x.indices[k]).columns,
                        state::index_of(a, db2, table2, x.indices[k].name),
                    ) by {
                        lemma_dropped_indexes(t, db, table, d.indices, n, db2, table2, x.indices[k].name);
                        assert(state::index_of(t, db2, table2, x.indices[k].name) == state::index_of(
                            b,
                            db2,
                            table2,
                            x.indices[k].name,
                        ));
                    }
                },
                _ => {},
            }
        }
    }
    // The indexes of the new name are still to be made: without them the state is covered.
    let f = StateV { schemas: catalog::with(a.schemas, db, to, SchemaV { indices: Seq::empty(), ..e }), ..a };
    assoc::lemma_put_distinct(a.schemas.items, (db, to), SchemaV { indices: Seq::empty(), ..e });
    assoc::lemma_get_put(a.schemas.items, (db, to), SchemaV { indices: Seq::empty(), ..e });
    assert forall|db2: u32, table2: Seq<char>| #[trigger] table_covered(f, db2, table2) by {
        if (db2, table2) != (db, to) {
            assoc::lemma_get_put_other(a.schemas.items, (db, to), SchemaV { indices: Seq::empty(), ..e }, (db2, table2));
            assert(table_covered(a, db2, table2));
            match (state::table_schema(a, db2, table2), state::table_rows(a, db2, table2)) {
                (Some(x), Some(m)) => {
                    assert forall|k: int| 0 <= k < x.indices.len() implies covers(
                        m,
                        (#[trigger] x.indices[k]).columns,
                        state::index_of(f, db2, table2, x.indices[k].name),
                    ) by {
                        assert(state::index_of(f, db2, table2, x.indices[k].name) == state::index_of(
                            a,
                            db2,
                            table2,
                            x.indices[k].name,
                        ));
                    }
                },
                _ => {},
            }
        }
    }
    assert(covered(f));
    assert forall|db2: u32, table2: Seq<char>| (db2, table2) != (db, to) implies #[trigger] alike(
        f,
        a,
        db2,
        table2,
    ) by {
        assoc::lemma_get_put_other(a.schemas.items, (db, to), SchemaV { indices: Seq::empty(), ..e }, (db2, table2));
    }
    lemma_rebuilt_covered(f, a, db, to, e);
}

proof fn lemma_index_created_covered(
    s: StateV,
    db: u32,
    name: Option<Seq<char>>,
    table: Seq<char>,
    columns: Seq<Seq<char>>,
    unique: bool,
    if_not_exists: bool,
)
    requires
        covered(s),
    ensures
        covered(ddl::index_created(s, db, name, table, columns, unique, if_not_exists).0),
{
    let index = ddl::index_name_of(name, table, columns);
    assert(table_covered(s, db, table));
    if s.schemas.known.contains(db) {
        match state::table_schema(s, db, table) {
            Some(d) => if !ddl::has_index(d.indices, index) {
                let idx = IndexV { name: index, columns, unique, partial_where: None, is_expression: false };
                let e = SchemaV { indices: d.indices.push(idx), ..d };
                let a = StateV { schemas: catalog::with(s.schemas, db, table, e), ..s };
                let t = index::index_rebuilt(a, db, table, idx);
                assoc::lemma_put_distinct(s.schemas.items, (db, table), e);
                assoc::lemma_get_put(s.schemas.items, (db, table), e);
                let bx = match state::table_rows(s, db, table) {
                    Some(m) => index::built_index(store::row_list(m), columns, store::row_list(m).len() as int),
                    None => Seq::empty(),
                };
                assert forall|db2: u32, table2: Seq<char>| (db2, table2) != (db, table) implies #[trigger] alike(
                    s,
                    t,
                    db2,
                    table2,
                ) by {
                    assoc::lemma_get_put_other(s.schemas.items, (db, table), e, (db2, table2));
                    assert forall|n2: Seq<char>| #[trigger] state::index_of(t, db2, table2, n2) == state::index_of(
                        s,
                        db2,
                        table2,
                        n2,
                    ) by {
                        lemma_index_set(a, db, table, index, bx, db2, table2, n2);
                        assert(state::index_of(a, db2, table2, n2) == state::index_of(s, db2, table2, n2));
                    }
                }
                assert(names_differ(e.indices)) by {
                    assert forall|i: int, j: int| 0 <= i < j < e.indices.len() implies (#[trigger] e.indices[i]).name != (
                    #[trigger] e.indices[j]).name by {
                        if j == d.indices.len() {
                            assert(d.indices[i] == e.indices[i]);
                        } else {
                            assert(d.indices[i].name != d.indices[j].name);
                        }
                    }
                }
                match state::table_rows(s, db, table) {
                    Some(m) => {
                        lemma_built_covers(m, columns);
                        assert forall|k: int| 0 <= k < e.indices.len() implies covers(
                            m,
                            (#[trigger] e.indices[k]).columns,
                            state::index_of(t, db, table, e.indices[k].name),
                        ) by {
                            lemma_index_set(a, db, table, index, bx, db, table, e.indices[k].name);
                            if k < d.indices.len() {
                                assert(d.indices[k] == e.indices[k]);
                                assert(state::index_of(a, db, table, d.indices[k].name) == state::index_of(
                                    s,
                                    db,
                                    table,
                                    d.indices[k].name,
                                ));
                            }
                        }
                    },
                    None => {},
                }
                lemma_elsewhere(s, t, db, table);
            },
            None => {},
        }
    }
}

/// What is left of a list of indexes are some of them, none of the name that left.
proof fn lemma_other_indexes(indices: Seq<IndexV>, name: Seq<char>, n: int)
    requires
        names_differ(indices),
        0 <= n <= indices.len(),
    ensures
        names_differ(ddl::other_indexes(indices, name, n)),
        forall|j: int| 0 <= j < ddl::other_indexes(indices, name, n).len() ==> {
            &&& (#[trigger] ddl::other_indexes(indices, name, n)[j]).name != name
            &&& exists|i: int| 0 <= i < n && #[trigger] indices[i] == ddl::other_indexes(indices, name, n)[j]
        },
    decreases n,
{
    if n > 0 {
        lemma_other_indexes(indices, name, n - 1);
        let p = ddl::other_indexes(indices, name, n - 1);
        let q = ddl::other_indexes(indices, name, n);
        assert forall|j: int| 0 <= j < q.len() implies {
            &&& (#[trigger] q[j]).name != name
            &&& exists|i: int| 0 <= i < n && #[trigger] indices[i] == q[j]
        } by {
            if j < p.len() {
                assert(q[j] == p[j]);
                let i = choose|i: int| 0 <= i < n - 1 && #[trigger] indices[i] == p[j];
                assert(indices[i] == q[j]);
            } else {
                assert(indices[n - 1] == q[j]);
            }
        }
        assert forall|i: int, j: int| 0 <= i < j < q.len() implies (#[trigger] q[i]).name != (#[trigger] q[j]).name by {
            assert(q[i] == p[i]);
            let a = choose|a: int| 0 <= a < n - 1 && #[trigger] indices[a] == p[i];
            if j < p.len() {
                assert(q[j] == p[j]);
            } else {
                assert(q[j] == indices[n - 1]);
                assert(indices[a].name != indices[n - 1].name);
            }
        }
    }
}

proof fn lemma_index_removed_covered(s: StateV, db: u32, table: Seq<char>, d: SchemaV, index: Seq<char>)
    requires
        covered(s),
        state::table_schema(s, db, table) == Some(d),
    ensures
        covered(ddl::index_removed(s, db, table, d, index)),
{
    let e = SchemaV { indices: ddl::other_indexes(d.indices, index, d.indices.len() as int), ..d };
    let a = StateV { schemas: catalog::with(s.schemas, db, table, e), ..s };
    let t = state::index_dropped(a, db, table, index);
    assert(table_covered(s, db, table));
    lemma_other_indexes(d.indices, index, d.indices.len() as int);
    assoc::lemma_put_distinct(s.schemas.items, (db, table), e);
    assoc::lemma_get_put(s.schemas.items, (db, table), e);
    assert forall|db2: u32, table2: Seq<char>| (db2, table2) != (db, table) implies #[trigger] alike(
        s,
        t,
        db2,
        table2,
    ) by {
        assoc::lemma_get_put_other(s.schemas.items, (db, table), e, (db2, table2));
        assert forall|n2: Seq<char>| #[trigger] state::index_of(t, db2, table2, n2) == state::index_of(s, db2, table2, n2) by {
            lemma_dropped_index(a, db, table, index, db2, table2, n2);
            assert(state::index_of(a, db2, table2, n2) == state::index_of(s, db2, table2, n2));
        }
    }
    match state::table_rows(s, db, table) {
        Some(m) => {
            assert forall|k: int| 0 <= k < e.indices.len() implies covers(
                m,
                (#[trigger] e.indices[k]).columns,
                state::index_of(t, db, table, e.indices[k].name),
            ) by {
                let i = choose|i: int| 0 <= i < d.indices.len() && #[trigger] d.indices[i] == e.indices[k];
                assert(covers(m, d.indices[i].columns, state::index_of(s, db, table, d.indices[i].name)));
                lemma_dropped_index(a, db, table, index, db, table, e.indices[k].name);
                assert(state::index_of(a, db, table, e.indices[k].name) == state::index_of(s, db, table, e.indices[k].name));
            }
        },
        None => {},
    }
    lemma_elsewhere(s, t, db, table);
}

proof fn lemma_holder(items: Seq<((u32, Seq<char>), SchemaV)>, db: u32, index: Seq<char>, k: int)
    requires
        assoc::assoc_distinct(items),
        0 <= k <= items.len(),
    ensures
        match ddl::index_holder(items, db, index, k) {
            Some((table, d)) => assoc::assoc_get(items, (db, table)) == Some(d),
            None => true,
        },
    decreases items.len() - k,
{
    if k < items.len() {
        if items[k].0.0 == db && ddl::has_index(items[k].1.indices, index) {
            assoc::lemma_get_distinct(items, k);
        } else {
            lemma_holder(items, db, index, k + 1);
        }
    }
}

proof fn lemma_indexes_removed_covered(s: StateV, db: u32, names: Seq<Seq<char>>, if_exists: bool, n: int)
    requires
        covered(s),
        0 <= n <= names.len(),
    ensures
        covered(ddl::indexes_removed(s, db, names, if_exists, n).0),
    decreases n,
{
    if n > 0 {
        lemma_indexes_removed_covered(s, db, names, if_exists, n - 1);
        let (p, e) = ddl::indexes_removed(s, db, names, if_exists, n - 1);
        lemma_holder(p.schemas.items, db, names[n - 1], 0);
        match ddl::index_holder(p.schemas.items, db, names[n - 1], 0) {
            Some((table, d)) => lemma_index_removed_covered(p, db, table, d, names[n - 1]),
            None => {},
        }
    }
}

proof fn lemma_tables_dropped_covered(s: StateV, db: u32, names: Seq<Seq<char>>, if_exists: bool, n: int)
    requires
        covered(s),
        0 <= n <= names.len(),
    ensures
        covered(ddl::tables_dropped(s, db, names, if_exists, n).0),
    decreases n,
{
    if n > 0 {
        lemma_tables_dropped_covered(s, db, names, if_exists, n - 1);
        let (p, e) = ddl::tables_dropped(s, db, names, if_exists, n - 1);
        lemma_table_removed_covered(p, db, names[n - 1]);
        lemma_same_tables(p, StateV { schemas: catalog::knowing(p.schemas, db), ..p });
    }
}

proof fn lemma_views_dropped_covered(s: StateV, db: u32, names: Seq<Seq<char>>, if_exists: bool, n: int)
    requires
        covered(s),
        0 <= n <= names.len(),
    ensures
        covered(ddl::views_dropped(s, db, names, if_exists, n).0),
    decreases n,
{
    if n > 0 {
        lemma_views_dropped_covered(s, db, names, if_exists, n - 1);
        let (p, e) = ddl::views_dropped(s, db, names, if_exists, n - 1);
        lemma_same_tables(p, state::view_removed(p, db, names[n - 1]).0);
    }
}

proof fn lemma_altered_covered(s: StateV, db: u32, table: Seq<char>, ops: Seq<AlterTableOperationV>, n: int)
    requires
        covered(s),
        0 <= n <= ops.len(),
    ensures
        covered(ddl::altered(s, db, table, ops, n).0),
    decreases n,
{
    if n > 0 {
        lemma_altered_covered(s, db, table, ops, n - 1);
        let (p, name, e) = ddl::altered(s, db, table, ops, n - 1);
        assert(table_covered(p, db, name));
        match state::table_schema(p, db, name) {
            Some(d) => match ops[n - 1] {
                AlterTableOperationV::AddColumn(c) => {
                    let x = ddl::column_of(c);
                    let v = match x.default {
                        Some(v) => v,
                        None => ValueV::Null,
                    };
                    lemma_reshaped_covered(
                        p,
                        db,
                        name,
                        SchemaV { columns: assoc::assoc_put(d.columns, x.name, x), ..d },
                        RowChangeV::Put(x.name, v),
                    );
                },
                AlterTableOperationV::DropColumn { column, if_exists } => {
                    lemma_reshaped_covered(
                        p,
                        db,
                        name,
                        SchemaV {
                            columns: assoc::assoc_remove(d.columns, column),
                            rowid_column: if d.rowid_column == Some(column) {
                                None
                            } else {
                                d.rowid_column
                            },
                            ..d
                        },
                        RowChangeV::Take(column),
                    );
                },
                AlterTableOperationV::RenameColumn { old_name, new_name } => {
                    match assoc::assoc_get(d.columns, old_name) {
                        Some(c) => {
                            let rest = assoc::assoc_remove(d.columns, old_name);
                            let place = assoc::assoc_place(d.columns, old_name);
                            lemma_reshaped_covered(
                                p,
                                db,
                                name,
                                SchemaV {
                                    columns: assoc::assoc_remove(rest, new_name).insert(
                                        place,
                                        (new_name, ColumnV { name: new_name, ..c }),
                                    ),
                                    rowid_column: if d.rowid_column == Some(old_name) {
                                        Some(new_name)
                                    } else {
                                        d.rowid_column
                                    },
                                    ..d
                                },
                                RowChangeV::Rename(old_name, new_name),
                            );
                        },
                        None => {},
                    }
                },
                AlterTableOperationV::RenameTable(to) => lemma_table_renamed_covered(p, db, name, d, to),
                AlterTableOperationV::Other(_) => {},
            },
            None => {},
        }
    }
}

proof fn lemma_fired_one_covered(
    depth: nat,
    s: StateV,
    db: u32,
    t: TriggerV,
    old_row: Option<RowV>,
    new_row: Option<RowV>,
    tx: Option<u32>,
)
    requires
        covered(s),
    ensures
        covered(triggers::fired_one(depth, s, db, t, old_row, new_row, tx).0),
    decreases depth, 0nat, 0int,
{
    match triggers::fires(s, db, t, old_row, new_row) {
        Ok(true) => match parser::statements_in(triggers::body_text(t.body, old_row, new_row)) {
            Ok(stmts) => if depth > 0 {
                lemma_ran_upto_covered((depth - 1) as nat, s, db, stmts, tx, stmts.len() as int);
            },
            _ => {},
        },
        _ => {},
    }
}

proof fn lemma_fired_upto_covered(
    depth: nat,
    s: StateV,
    db: u32,
    ts: Seq<TriggerV>,
    event: TriggerEvent,
    timing: TriggerTiming,
    old_row: Option<RowV>,
    new_row: Option<RowV>,
    tx: Option<u32>,
    n: int,
)
    requires
        covered(s),
        0 <= n <= ts.len(),
    ensures
        covered(triggers::fired_upto(depth, s, db, ts, event, timing, old_row, new_row, tx, n).0),
    decreases depth, 2nat, n,
{
    if n > 0 {
        lemma_fired_upto_covered(depth, s, db, ts, event, timing, old_row, new_row, tx, n - 1);
        let (p, e) = triggers::fired_upto(depth, s, db, ts, event, timing, old_row, new_row, tx, n - 1);
        lemma_fired_one_covered(depth, p, db, ts[n - 1], old_row, new_row, tx);
        assert(covered(triggers::fired_listed(depth, p, db, ts[n - 1], event, timing, old_row, new_row, tx).0));
    }
}

/// Triggers keep every index complete.
pub proof fn lemma_fired_covered(
    depth: nat,
    s: StateV,
    db: u32,
    table: Seq<char>,
    event: TriggerEvent,
    timing: TriggerTiming,
    old_row: Option<RowV>,
    new_row: Option<RowV>,
    tx: Option<u32>,
)
    requires
        covered(s),
    ensures
        covered(triggers::fired(depth, s, db, table, event, timing, old_row, new_row, tx).0),
    decreases depth, 3nat, 0int,
{
    let ts = state::triggers_of(s, db, table);
    lemma_fired_upto_covered(depth, s, db, ts, event, timing, old_row, new_row, tx, ts.len() as int);
}

proof fn lemma_ran_upto_covered(depth: nat, s: StateV, db: u32, stmts: Seq<StatementV>, tx: Option<u32>, n: int)
    requires
        covered(s),
        0 <= n <= stmts.len(),
    ensures
        covered(triggers::ran_upto(depth, s, db, stmts, tx, n).0),
    decreases depth, 8nat, n,
{
    if n > 0 {
        lemma_ran_upto_covered(depth, s, db, stmts, tx, n - 1);
        let (p, e) = triggers::ran_upto(depth, s, db, stmts, tx, n - 1);
        lemma_ran_covered(depth, p, db, stmts[n - 1], Seq::empty(), tx);
    }
}

proof fn lemma_rows_inserted_covered(
    depth: nat,
    s: StateV,
    db: u32,
    table: Seq<char>,
    d: SchemaV,
    rows: Seq<RowV>,
    tx: Option<u32>,
    n: int,
)
    requires
        covered(s),
        0 <= n <= rows.len(),
    ensures
        covered(dml::rows_inserted(depth, s, db, table, d, rows, tx, n).0),
    decreases depth, 5nat, n,
{
    if n > 0 {
        lemma_rows_inserted_covered(depth, s, db, table, d, rows, tx, n - 1);
        let (p, e) = dml::rows_inserted(depth, s, db, table, d, rows, tx, n - 1);
        let id = state::next_rowid(p, db, table);
        let s1 = state::rowid_taken(p, db, table);
        let full = dml::with_defaults(d.columns, rows[n - 1], id, d.columns.len() as int);
        lemma_same_tables(p, s1);
        lemma_fired_covered(depth, s1, db, table, TriggerEvent::Insert, TriggerTiming::Before, None, Some(full), tx);
        let (s2, e2) = triggers::fired(
            depth,
            s1,
            db,
            table,
            TriggerEvent::Insert,
            TriggerTiming::Before,
            None,
            Some(full),
            tx,
        );
        lemma_row_written_covered(s2, db, table, id, full, tx);
        let s3 = dml::row_written(s2, db, table, id, full, tx);
        lemma_fired_covered(depth, s3, db, table, TriggerEvent::Insert, TriggerTiming::After, None, Some(full), tx);
        assert(covered(dml::row_inserted(depth, p, db, table, d, rows[n - 1], tx).0));
    }
}

proof fn lemma_rows_updated_covered(
    depth: nat,
    s: StateV,
    db: u32,
    table: Seq<char>,
    d: SchemaV,
    rows: Seq<(u64, RowV)>,
    assignments: Seq<AssignmentV>,
    ps: Seq<ValueV>,
    tx: Option<u32>,
    n: int,
)
    requires
        covered(s),
        0 <= n <= rows.len(),
    ensures
        covered(dml::rows_updated(depth, s, db, table, d, rows, assignments, ps, tx, n).0),
    decreases depth, 5nat, n,
{
    if n > 0 {
        lemma_rows_updated_covered(depth, s, db, table, d, rows, assignments, ps, tx, n - 1);
        let (p, e) = dml::rows_updated(depth, s, db, table, d, rows, assignments, ps, tx, n - 1);
        let (id, old_row) = rows[n - 1];
        let new_row = dml::assigned(assignments, old_row, ps, assignments.len() as int).0;
        lemma_fired_covered(
            depth,
            p,
            db,
            table,
            TriggerEvent::Update,
            TriggerTiming::Before,
            Some(old_row),
            Some(new_row),
            tx,
        );
        let (s2, e2) = triggers::fired(
            depth,
            p,
            db,
            table,
            TriggerEvent::Update,
            TriggerTiming::Before,
            Some(old_row),
            Some(new_row),
            tx,
        );
        lemma_row_rewritten_covered(s2, db, table, id, old_row, new_row, tx);
        let s3 = dml::row_rewritten(s2, db, table, id, old_row, new_row, tx);
        lemma_fired_covered(
            depth,
            s3,
            db,
            table,
            TriggerEvent::Update,
            TriggerTiming::After,
            Some(old_row),
            Some(new_row),
            tx,
        );
        assert(covered(dml::row_updated(depth, p, db, table, d, id, old_row, assignments, ps, tx).0));
    }
}

proof fn lemma_rows_deleted_covered(
    depth: nat,
    s: StateV,
    db: u32,
    table: Seq<char>,
    rows: Seq<(u64, RowV)>,
    tx: Option<u32>,
    n: int,
)
    requires
        covered(s),
        0 <= n <= rows.len(),
    ensures
        covered(dml::rows_deleted(depth, s, db, table, rows, tx, n).0),
    decreases depth, 5nat, n,
{
    if n > 0 {
        lemma_rows_deleted_covered(depth, s, db, table, rows, tx, n - 1);
        let (p, e) = dml::rows_deleted(depth, s, db, table, rows, tx, n - 1);
        let (id, row) = rows[n - 1];
        lemma_fired_covered(depth, p, db, table, TriggerEvent::Delete, TriggerTiming::Before, Some(row), None, tx);
        let (s2, e2) = triggers::fired(
            depth,
            p,
            db,
            table,
            TriggerEvent::Delete,
            TriggerTiming::Before,
            Some(row),
            None,
            tx,
        );
        lemma_row_erased_covered(s2, db, table, id, row, tx);
        let s3 = dml::row_erased(s2, db, table, id, row, tx);
        lemma_fired_covered(depth, s3, db, table, TriggerEvent::Delete, TriggerTiming::After, Some(row), None, tx);
        assert(covered(dml::row_deleted(depth, p, db, table, id, row, tx).0));
    }
}

/// Whatever a statement does, also through triggers, leaves every table covered.
pub proof fn lemma_ran_covered(depth: nat, s: StateV, db: u32, stmt: StatementV, ps: Seq<ValueV>, tx: Option<u32>)
    requires
        covered(s),
    ensures
        covered(sql::ran(depth, s, db, stmt, ps, tx).0),
    decreases depth, 7nat, 0int,
{
    match stmt {
        StatementV::Insert { table, columns, source } => {
            match state::table_schema(s, db, table) {
                Some(d) => match dml::candidate_rows(s, db, dml::insert_columns(d, columns), source, ps) {
                    Ok(rows) => lemma_rows_inserted_covered(depth, s, db, table, d, rows, tx, rows.len() as int),
                    Err(_) => {},
                },
                None => {},
            }
            assert(covered(dml::inserted(depth, s, db, table, columns, source, ps, tx).0));
        },
        StatementV::Update { table, assignments, selection } => {
            match (state::table_rows(s, db, table), state::table_schema(s, db, table)) {
                (Some(m), Some(d)) => {
                    let start = dml::set_placeholders(assignments, assignments.len() as int);
                    let rows = dml::matching(s, db, m, selection, ps, start);
                    lemma_rows_updated_covered(depth, s, db, table, d, rows, assignments, ps, tx, rows.len() as int);
                },
                _ => {},
            }
            assert(covered(dml::updated(depth, s, db, table, assignments, selection, ps, tx).0));
        },
        StatementV::Delete { table, selection } => {
            match table {
                Some(t) => match state::table_rows(s, db, t) {
                    Some(m) => {
                        let rows = dml::matching(s, db, m, selection, ps, 0);
                        lemma_rows_deleted_covered(depth, s, db, t, rows, tx, rows.len() as int);
                    },
                    None => {},
                },
                None => {},
            }
            assert(covered(dml::deleted(depth, s, db, table, selection, ps, tx).0));
        },
        StatementV::CreateTable { name, columns, constraints, if_not_exists } => {
            lemma_table_added_covered(s, db, ddl::schema_of(name, columns, constraints));
        },
        StatementV::AlterTable { name, if_exists, operations } => {
            lemma_altered_covered(s, db, name, operations, operations.len() as int);
        },
        StatementV::CreateIndex { name, table, columns, unique, if_not_exists } => {
            lemma_index_created_covered(s, db, name, table, columns, unique, if_not_exists);
        },
        StatementV::CreateView { name, query } => {
            lemma_same_tables(s, view::view_created(s, db, name, query).0);
        },
        StatementV::CreateVirtualTable { name, if_not_exists, module_name, module_args } => {
            let t = ddl::table_added(s, db, ddl::fts_schema(name, module_args));
            lemma_table_added_covered(s, db, ddl::fts_schema(name, module_args));
            let r = ddl::fts_created(s, db, name, if_not_exists, module_name, module_args).0;
            if r != s {
                lemma_same_tables(t, r);
            }
        },
        StatementV::Drop { object, if_exists, names } => {
            lemma_tables_dropped_covered(s, db, names, if_exists, names.len() as int);
            lemma_indexes_removed_covered(s, db, names, if_exists, names.len() as int);
            lemma_views_dropped_covered(s, db, names, if_exists, names.len() as int);
        },
        _ => {},
    }
}

/// Whatever is run, every table stays covered.
pub proof fn lemma_executed_covered(s: StateV, db: u32, sql: Seq<char>, ps: Seq<ValueV>, tx: Option<u32>)
    requires
        covered(s),
    ensures
        covered(sql::executed(s, db, sql, ps, tx).0),
{
    if sql::is_trigger_text(sql) {
        lemma_same_tables(s, ddl::trigger_created(s, db, sql).0);
    } else {
        match parser::statements_in(sql) {
            Ok(stmts) => if stmts.len() == 1 {
                lemma_executed_statement_covered(s, db, stmts[0], ps, tx);
            },
            Err(_) => {},
        }
    }
}

proof fn lemma_executed_statement_covered(s: StateV, db: u32, stmt: StatementV, ps: Seq<ValueV>, tx: Option<u32>)
    requires
        covered(s),
    ensures
        covered(sql::executed_statement(s, db, stmt, ps, tx).0),
{
    let b = StateV { txns: transaction::begun(s.txns, db), ..s };
    lemma_same_tables(s, b);
    lemma_ran_covered(u64::MAX as nat, s, db, stmt, ps, tx);
    match tx {
        Some(id) => {
            lemma_same_tables(s, sql::committed(s, id));
            lemma_rolled_back_covered(s, id);
        },
        None => {
            let id = s.txns.next_id;
            lemma_ran_covered(u64::MAX as nat, b, db, stmt, ps, Some(id));
            let t = sql::ran(u64::MAX as nat, b, db, stmt, ps, Some(id)).0;
            lemma_same_tables(t, sql::committed(t, id));
            lemma_rolled_back_covered(t, id);
        },
    }
}

/// A rollback leaves every table covered.
pub proof fn lemma_rolled_back_covered(s: StateV, id: u32)
    requires
        covered(s),
    ensures
        covered(transaction::rolled_back(s, id)),
{
    let e = s.txns.active[id];
    let t = sql::committed(s, id);
    lemma_same_tables(s, t);
    lemma_undone_upto_covered(t, e.db, e.journal, e.journal.len() as int);
}

/// An empty engine has every table covered.
pub proof fn lemma_initial_covered(databases: Seq<(u32, Seq<char>)>, limit: usize, dir: Seq<char>)
    ensures
        covered(state::initial(databases, limit, dir)),
{
    let s = state::initial(databases, limit, dir);
    assert forall|db: u32, table: Seq<char>| #[trigger] table_covered(s, db, table) by {
        assert(state::table_schema(s, db, table) is None);
    }
}

/// A constant has the same value for every row.
proof fn lemma_constant(e: ExprV, a: Option<RowV>, b: Option<RowV>, ps: Seq<ValueV>, i: int)
    requires
        select::is_constant(e),
    ensures
        expr::eval_v(e, a, ps, i) == expr::eval_v(e, b, ps, i),
    decreases e,
{
    match e {
        ExprV::Nested(x) => lemma_constant(*x, a, b, ps, i),
        ExprV::UnaryOp { op, expr } => lemma_constant(*expr, a, b, ps, i),
        _ => {},
    }
}

/// Values that stand level in the order have the same ids in an index.
proof fn lemma_level_ids(ix: IndexMapV, v: ValueV, w: ValueV)
    requires
        schema::value_order(v, w) == 0,
    ensures
        index::index_ids(ix, v) == index::index_ids(ix, w),
    decreases ix.len(),
{
    if ix.len() > 0 {
        lemma_level(v, w, ix[0].0);
        lemma_level_ids(ix.drop_first(), v, w);
    }
}

proof fn lemma_index_on(indices: Seq<IndexV>, column: Seq<char>, k: int) -> (j: int)
    requires
        0 <= k,
        select::index_on(indices, column, k) is Some,
    ensures
        k <= j < indices.len(),
        indices[j].columns == seq![column],
        Some(indices[j].name) == select::index_on(indices, column, k),
    decreases indices.len() - k,
{
    if indices[k].columns.len() == 1 && indices[k].columns[0] == column {
        assert(indices[k].columns =~= seq![column]);
        k
    } else {
        lemma_index_on(indices, column, k + 1)
    }
}

/// Whether a condition keeps a row.
pub open spec fn keeps(fts: CatalogV<FtsTableV>, db: u32, row: RowV, selection: Option<ExprV>, ps: Seq<ValueV>) -> bool {
    match selection {
        Some(e) => select::holds(fts, db, row, e, ps, 0).0,
        None => true,
    }
}

/// Whether a condition asks for a value in the column in which a query sees the row ids.
pub open spec fn asks_rowid(selection: Option<ExprV>, ps: Seq<ValueV>) -> bool {
    match selection {
        Some(e) => match select::equality(e, ps) {
            Some((c, v)) => c == "_rowid_"@,
            None => false,
        },
        None => false,
    }
}

/// A condition keeps no row that an index does not offer for it.
proof fn lemma_not_offered(s: StateV, db: u32, table: Seq<char>, selection: Option<ExprV>, ps: Seq<ValueV>, id: u64)
    requires
        covered(s),
        state::table_rows(s, db, table) is Some,
        select::offered_ids(s, db, table, selection, ps) is Some,
        !asks_rowid(selection, ps),
        state::table_rows(s, db, table)->0.contains_key(id),
        !select::offered_ids(s, db, table, selection, ps)->0.contains(id),
    ensures
        !keeps(s.fts, db, select::with_rowid(id, state::table_rows(s, db, table)->0[id]), selection, ps),
{
    let m = state::table_rows(s, db, table)->0;
    let e = selection->0;
    let (c, v) = select::equality(e, ps)->0;
    let d = state::table_schema(s, db, table)->0;
    let row = select::with_rowid(id, m[id]);
    assert(table_covered(s, db, table));
    let k = lemma_index_on(d.indices, c, 0);
    let ix = state::index_of(s, db, table, d.indices[k].name);
    assert(covers(m, d.indices[k].columns, ix));
    assoc::lemma_get_put_other(m[id], "_rowid_"@, ValueV::Integer(id as i64), c);
    let w = expr::column_value(Some(row), c);
    match assoc::assoc_get(m[id], c) {
        Some(x) => {
            assert(index::indexed_value(d.indices[k].columns, m[id]) == Some(x));
            assert(index::index_ids(ix, x).contains(id));
            if schema::same_value(x, v) {
                schema::lemma_same_is_level(x, v);
                lemma_level_ids(ix, x, v);
            }
            if schema::same_value(v, x) {
                schema::lemma_same_is_level(v, x);
                lemma_level_ids(ix, v, x);
            }
        },
        None => {},
    }
    match e {
        ExprV::BinaryOp { left, op: BinaryOp::Eq, right } => {
            assert(select::fts_call(e) is None);
            match *left {
                ExprV::Identifier(n) => {
                    lemma_constant(*right, Some(row), None, ps, 0);
                    assert(expr::eval_v(*left, Some(row), ps, 0) == (expr::column_value(Some(row), n), 0int));
                    assert(expr::eval_v(e, Some(row), ps, 0).0 == expr::binary_value(BinaryOp::Eq, w, v));
                },
                _ => {
                    lemma_constant(*left, Some(row), None, ps, 0);
                    let j = expr::eval_v(*left, Some(row), ps, 0).1;
                    assert(expr::eval_v(*right, Some(row), ps, j) == (expr::column_value(Some(row), c), j));
                    assert(expr::eval_v(e, Some(row), ps, 0).0 == expr::binary_value(BinaryOp::Eq, v, w));
                },
            }
        },
        _ => {},
    }
}

/// The rows of a table from an id on, in the order of their ids.
spec fn scanned_from(m: Map<u64, RowV>, i: int) -> Seq<RowV> {
    let ids = store::ids_from(m.dom(), i);
    Seq::new(ids.len(), |j: int| select::with_rowid(ids[j], m[ids[j]]))
}

proof fn lemma_scanned_step(m: Map<u64, RowV>, i: int)
    requires
        0 <= i <= u64::MAX,
    ensures
        scanned_from(m, i) == (if m.contains_key(i as u64) {
            seq![select::with_rowid(i as u64, m[i as u64])] + scanned_from(m, i + 1)
        } else {
            scanned_from(m, i + 1)
        }),
{
    if m.contains_key(i as u64) {
        assert(scanned_from(m, i) =~= seq![select::with_rowid(i as u64, m[i as u64])] + scanned_from(m, i + 1));
    } else {
        assert(scanned_from(m, i) =~= scanned_from(m, i + 1));
    }
}

proof fn lemma_kept_is_filter(
    fts: CatalogV<FtsTableV>,
    db: u32,
    rows: Seq<RowV>,
    selection: Option<ExprV>,
    ps: Seq<ValueV>,
    n: int,
)
    requires
        0 <= n <= rows.len(),
    ensures
        select::kept_rows(fts, db, rows, selection, ps, n) == rows.take(n).filter(|r: RowV| keeps(fts, db, r, selection, ps)),
    decreases n,
{
    let f = |r: RowV| keeps(fts, db, r, selection, ps);
    reveal(Seq::filter);
    if n > 0 {
        lemma_kept_is_filter(fts, db, rows, selection, ps, n - 1);
        assert(rows.take(n).drop_last() =~= rows.take(n - 1));
        assert(rows.take(n).last() == rows[n - 1]);
    }
}

/// Rows that a condition does not keep can be left out before it is asked.
proof fn lemma_left_out(
    fts: CatalogV<FtsTableV>,
    db: u32,
    m: Map<u64, RowV>,
    w: Map<u64, RowV>,
    selection: Option<ExprV>,
    ps: Seq<ValueV>,
    i: int,
)
    requires
        0 <= i <= u64::MAX + 1,
        forall|id: u64| #[trigger] w.contains_key(id) ==> m.contains_key(id) && w[id] == m[id],
        forall|id: u64| #[trigger]
            m.contains_key(id) && !w.contains_key(id) ==> !keeps(fts, db, select::with_rowid(id, m[id]), selection, ps),
    ensures
        scanned_from(w, i).filter(|r: RowV| keeps(fts, db, r, selection, ps)) == scanned_from(m, i).filter(
            |r: RowV| keeps(fts, db, r, selection, ps),
        ),
    decreases u64::MAX + 1 - i,
{
    let f = |r: RowV| keeps(fts, db, r, selection, ps);
    if i <= u64::MAX {
        lemma_left_out(fts, db, m, w, selection, ps, i + 1);
        lemma_scanned_step(m, i);
        lemma_scanned_step(w, i);
        let id = i as u64;
        if m.contains_key(id) {
            let one = seq![select::with_rowid(id, m[id])];
            Seq::filter_distributes_over_add(one, scanned_from(m, i + 1), f);
            Seq::filter_distributes_over_add(one, scanned_from(w, i + 1), f);
            reveal_with_fuel(Seq::<_>::filter, 2);
            assert(one.drop_last() =~= Seq::empty());
            if !w.contains_key(id) {
                assert(!f(one[0]));
                assert(one.filter(f) =~= Seq::empty());
                assert(Seq::empty() + scanned_from(m, i + 1).filter(f) =~= scanned_from(m, i + 1).filter(f));
            }
        }
    } else {
        assert(scanned_from(m, i) =~= scanned_from(w, i));
    }
}

/// To answer a query from an index never changes what it gives: what its condition keeps of the
/// rows that the index offers is what it keeps of all rows of the table. The condition must not
/// ask for the column in which a query sees the row ids.
pub proof fn lemma_index_changes_nothing(s: StateV, db: u32, table: Seq<char>, selection: Option<ExprV>, ps: Seq<ValueV>)
    requires
        covered(s),
        state::table_rows(s, db, table) is Some,
        !asks_rowid(selection, ps),
    ensures
        select::source_rows(s, db, table, selection, ps) is Ok,
        select::selected(s.fts, db, select::source_rows(s, db, table, selection, ps)->Ok_0, selection, ps) == select::selected(
            s.fts,
            db,
            select::scanned(state::table_rows(s, db, table)->0),
            selection,
            ps,
        ),
{
    let m = state::table_rows(s, db, table)->0;
    match select::offered_ids(s, db, table, selection, ps) {
        Some(ids) => {
            let w = m.restrict(ids.to_set());
            let f = |r: RowV| keeps(s.fts, db, r, selection, ps);
            assert forall|id: u64| #[trigger] m.contains_key(id) && !w.contains_key(id) implies !keeps(
                s.fts,
                db,
                select::with_rowid(id, m[id]),
                selection,
                ps,
            ) by {
                assert(!ids.contains(id)) by {
                    if ids.contains(id) {
                        assert(ids.to_set().contains(id));
                    }
                }
                lemma_not_offered(s, db, table, selection, ps, id);
            }
            lemma_left_out(s.fts, db, m, w, selection, ps, 0);
            assert(select::scanned(m) =~= scanned_from(m, 0));
            assert(select::scanned(w) =~= scanned_from(w, 0));
            lemma_kept_is_filter(s.fts, db, select::scanned(m), selection, ps, select::scanned(m).len() as int);
            lemma_kept_is_filter(s.fts, db, select::scanned(w), selection, ps, select::scanned(w).len() as int);
            assert(select::scanned(m).take(select::scanned(m).len() as int) =~= select::scanned(m));
            assert(select::scanned(w).take(select::scanned(w).len() as int) =~= select::scanned(w));
        },
        None => {},
    }
}

/// To look for a duplicate through an index finds it where there is one: a combination of values
/// is taken if and only if another row of the table has it.
pub proof fn lemma_index_finds_duplicates(
    s: StateV,
    db: u32,
    d: SchemaV,
    columns: Seq<Seq<char>>,
    values: Seq<ValueV>,
    exclude: u64,
)
    requires
        covered(s),
        state::table_schema(s, db, d.name) == Some(d),
        state::table_rows(s, db, d.name) is Some,
    ensures
        constraint::taken(s, db, d, columns, values, exclude) == constraint::other_has(
            state::table_rows(s, db, d.name)->0,
            columns,
            values,
            exclude,
        ),
{
    let m = state::table_rows(s, db, d.name)->0;
    let w = constraint::searched(s, db, d, m, columns, values);
    if columns.len() == 1 && values.len() == 1 && select::index_on(d.indices, columns[0], 0) is Some {
        assert(table_covered(s, db, d.name));
        let k = lemma_index_on(d.indices, columns[0], 0);
        let ix = state::index_of(s, db, d.name, d.indices[k].name);
        assert(covers(m, d.indices[k].columns, ix));
        if constraint::other_has(w, columns, values, exclude) {
            let id = choose|id: u64| #[trigger]
                w.contains_key(id) && id != exclude && constraint::has_values(w[id], columns, values);
            assert(m.contains_key(id));
        }
        if constraint::other_has(m, columns, values, exclude) {
            let id = choose|id: u64| #[trigger]
                m.contains_key(id) && id != exclude && constraint::has_values(m[id], columns, values);
            let x = assoc::assoc_get(m[id], columns[0])->0;
            assert(assoc::assoc_get(m[id], columns[0]) is Some);
            assert(index::indexed_value(d.indices[k].columns, m[id]) == Some(x));
            schema::lemma_same_is_level(x, values[0]);
            lemma_level_ids(ix, x, values[0]);
            assert(index::index_ids(ix, values[0]).to_set().contains(id));
            assert(w.contains_key(id));
        }
    }
}

} // verus!

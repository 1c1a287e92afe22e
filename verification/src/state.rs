//! Everything the engine holds in memory.
use vstd::prelude::*;
use vstd::string::*;

use crate::assoc;
use crate::catalog;
use crate::catalog::{Catalog, CatalogV};
use crate::codec;
use crate::config::DatabaseConfig;
use crate::error;
use crate::error::{ErrorV, SkvsError};
use crate::fts::{FtsTableV, FtsVirtualTable};
use crate::index::{IndexMapV, IndexStore};
use crate::row;
use crate::row::RowV;
use crate::schema;
use crate::schema::{Row, RowId, SchemaV, TableSchema, TriggerDef, TriggerV};
use crate::store::{RawStore, RowStore};
use crate::text;
use crate::transaction::{TxnManager, TxnV};

verus! {

/// The triggers of one table, in the order in which they were made.
pub struct TriggerList {
    pub list: Vec<TriggerDef>,
}

impl View for TriggerList {
    type V = Seq<TriggerV>;

    open spec fn view(&self) -> Seq<TriggerV> {
        self.list.deep_view()
    }
}

/// The tables, indexes, views, triggers, raw values and transactions of all databases.
pub struct KvsState {
    pub dbs: Catalog<RowStore>,
    pub schemas: Catalog<TableSchema>,
    pub rowid_generators: Catalog<u64>,
    pub db_name_to_id: Vec<(String, u32)>,
    pub raw_stores: Catalog<RawStore>,
    pub indexes: Catalog<IndexStore>,
    pub triggers: Catalog<TriggerList>,
    pub views: Catalog<String>,
    pub fts_tables: Catalog<FtsVirtualTable>,
    pub txns: TxnManager,
    pub max_entries_per_table: usize,
    pub overflow_dir: String,
}

/// What the engine holds.
pub struct StateV {
    pub dbs: CatalogV<Map<u64, RowV>>,
    pub schemas: CatalogV<SchemaV>,
    pub generators: CatalogV<u64>,
    pub names: Seq<(Seq<char>, u32)>,
    pub raw: CatalogV<Map<Seq<u8>, Seq<u8>>>,
    pub indexes: CatalogV<IndexMapV>,
    pub triggers: CatalogV<Seq<TriggerV>>,
    pub views: CatalogV<Seq<char>>,
    pub fts: CatalogV<FtsTableV>,
    pub txns: TxnV,
    pub limit: usize,
    pub overflow_dir: Seq<char>,
}

pub open spec fn name_views(s: Seq<(String, u32)>) -> Seq<(Seq<char>, u32)> {
    Seq::new(s.len(), |i: int| (s[i].0@, s[i].1))
}

impl View for KvsState {
    type V = StateV;

    open spec fn view(&self) -> StateV {
        StateV {
            dbs: self.dbs@,
            schemas: self.schemas@,
            generators: self.rowid_generators@,
            names: name_views(self.db_name_to_id@),
            raw: self.raw_stores@,
            indexes: self.indexes@,
            triggers: self.triggers@,
            views: self.views@,
            fts: self.fts_tables@,
            txns: self.txns@,
            limit: self.max_entries_per_table,
            overflow_dir: self.overflow_dir@,
        }
    }
}

/// The rows of a table, where there is one.
pub open spec fn table_rows(s: StateV, db: u32, table: Seq<char>) -> Option<Map<u64, RowV>> {
    catalog::find(s.dbs, db, table)
}

/// The definition of a table, where there is one.
pub open spec fn table_schema(s: StateV, db: u32, table: Seq<char>) -> Option<SchemaV> {
    catalog::find(s.schemas, db, table)
}

/// The state with a row in a table, where the table is there.
pub open spec fn row_stored(s: StateV, db: u32, table: Seq<char>, id: u64, row: RowV) -> StateV {
    match table_rows(s, db, table) {
        Some(m) => StateV { dbs: catalog::changed(s.dbs, db, table, m.insert(id, row)), ..s },
        None => s,
    }
}

/// The state without a row of a table.
pub open spec fn row_dropped(s: StateV, db: u32, table: Seq<char>, id: u64) -> StateV {
    match table_rows(s, db, table) {
        Some(m) => StateV { dbs: catalog::changed(s.dbs, db, table, m.remove(id)), ..s },
        None => s,
    }
}

/// The id that the next row of a table gets.
pub open spec fn next_rowid(s: StateV, db: u32, table: Seq<char>) -> u64 {
    match catalog::find(s.generators, db, table) {
        Some(n) => n,
        None => 1,
    }
}

/// The number behind a number; behind the last comes zero.
pub open spec fn after_rowid(n: u64) -> u64 {
    if n == u64::MAX {
        0
    } else {
        (n + 1) as u64
    }
}

/// The state after an id was given to a row of a table.
pub open spec fn rowid_taken(s: StateV, db: u32, table: Seq<char>) -> StateV {
    StateV { generators: catalog::with(s.generators, db, table, after_rowid(next_rowid(s, db, table))), ..s }
}

/// The state in which a table's next id is at least `min`.
pub open spec fn rowid_at_least(s: StateV, db: u32, table: Seq<char>, min: u64) -> StateV {
    let n = next_rowid(s, db, table);
    StateV {
        generators: catalog::with(
            s.generators,
            db,
            table,
            if n < min {
                min
            } else {
                n
            },
        ),
        ..s
    }
}

/// The name under which the index of a table is kept: no two indexes share one.
pub open spec fn index_key(table: Seq<char>, index: Seq<char>) -> Seq<char> {
    text::nat_text(table.len()) + ":"@ + table + index
}

/// The indexes of different tables, and different indexes of one table, have different names.
pub proof fn lemma_index_keys_differ(t1: Seq<char>, i1: Seq<char>, t2: Seq<char>, i2: Seq<char>)
    requires
        index_key(t1, i1) == index_key(t2, i2),
    ensures
        t1 == t2,
        i1 == i2,
{
    reveal_strlit(":");
    let a = text::nat_text(t1.len());
    let b = text::nat_text(t2.len());
    let k = index_key(t1, i1);
    text::lemma_nat_text(t1.len());
    text::lemma_nat_text(t2.len());
    assert(k[a.len() as int] == ':');
    assert(k[b.len() as int] == ':');
    if a.len() < b.len() {
        assert(k[a.len() as int] == b[a.len() as int]);
    }
    if b.len() < a.len() {
        assert(k[b.len() as int] == a[b.len() as int]);
    }
    assert(a =~= k.take(a.len() as int));
    assert(b =~= k.take(a.len() as int));
    let n = a.len() as int + 1;
    assert(t1 =~= k.subrange(n, n + t1.len()));
    assert(t2 =~= k.subrange(n, n + t1.len()));
    assert(i1 =~= k.skip(n + t1.len()));
    assert(i2 =~= k.skip(n + t1.len()));
}

/// What an index of a table holds, nothing where it was never filled.
pub open spec fn index_of(s: StateV, db: u32, table: Seq<char>, index: Seq<char>) -> IndexMapV {
    match catalog::find(s.indexes, db, index_key(table, index)) {
        Some(m) => m,
        None => Seq::empty(),
    }
}

/// The state in which an index of a table holds `m`.
pub open spec fn index_set(s: StateV, db: u32, table: Seq<char>, index: Seq<char>, m: IndexMapV) -> StateV {
    StateV { indexes: catalog::with(s.indexes, db, index_key(table, index), m), ..s }
}

/// The state without an index of a table.
pub open spec fn index_dropped(s: StateV, db: u32, table: Seq<char>, index: Seq<char>) -> StateV {
    StateV { indexes: catalog::without(s.indexes, db, index_key(table, index)), ..s }
}

/// The triggers of a table.
pub open spec fn triggers_of(s: StateV, db: u32, table: Seq<char>) -> Seq<TriggerV> {
    match catalog::find(s.triggers, db, table) {
        Some(l) => l,
        None => Seq::empty(),
    }
}

/// The state with one more trigger on a table.
pub open spec fn trigger_added(s: StateV, db: u32, table: Seq<char>, t: TriggerV) -> StateV {
    StateV { triggers: catalog::with(s.triggers, db, table, triggers_of(s, db, table).push(t)), ..s }
}

/// The state in which a directory of databases `ids` starts.
pub open spec fn known_upto(databases: Seq<(u32, Seq<char>)>, n: int) -> Set<u32>
    decreases n,
{
    if n <= 0 || n > databases.len() {
        Set::empty()
    } else {
        known_upto(databases, n - 1).insert(databases[n - 1].0)
    }
}

/// The names of the first `n` databases with their ids; of two with one name the later counts.
pub open spec fn names_upto(databases: Seq<(u32, Seq<char>)>, n: int) -> Seq<(Seq<char>, u32)>
    decreases n,
{
    if n <= 0 || n > databases.len() {
        Seq::empty()
    } else {
        assoc::assoc_put(names_upto(databases, n - 1), databases[n - 1].1, databases[n - 1].0)
    }
}

pub open spec fn fresh<T>(known: Set<u32>) -> CatalogV<T> {
    CatalogV { known, items: Seq::empty() }
}

/// The state that holds nothing but the databases.
pub open spec fn initial(databases: Seq<(u32, Seq<char>)>, limit: usize, dir: Seq<char>) -> StateV {
    let known = known_upto(databases, databases.len() as int);
    StateV {
        dbs: fresh(known),
        schemas: fresh(known),
        generators: fresh(known),
        names: names_upto(databases, databases.len() as int),
        raw: fresh(known),
        indexes: fresh(known),
        triggers: fresh(known),
        views: fresh(known),
        fts: fresh(known),
        txns: TxnV { next_id: 1, active: Map::empty() },
        limit,
        overflow_dir: dir,
    }
}

/// The raw values of a table.
pub open spec fn raw_values(s: StateV, db: u32, table: Seq<char>) -> Map<Seq<u8>, Seq<u8>> {
    match catalog::find(s.raw, db, table) {
        Some(m) => m,
        None => Map::empty(),
    }
}

/// The state in which the raw values of a table are `m`.
pub open spec fn raw_set(s: StateV, db: u32, table: Seq<char>, m: Map<Seq<u8>, Seq<u8>>) -> StateV {
    StateV { raw: catalog::with(s.raw, db, table, m), ..s }
}

/// The state without the raw value under a key.
pub open spec fn raw_removed(s: StateV, db: u32, table: Seq<char>, key: Seq<u8>) -> StateV {
    match catalog::find(s.raw, db, table) {
        Some(m) => StateV { raw: catalog::changed(s.raw, db, table, m.remove(key)), ..s },
        None => s,
    }
}

/// The keys of entries that left memory.
spec fn spilled_keys(s: Seq<(Vec<u8>, Vec<u8>)>) -> Set<Seq<u8>> {
    Set::new(|k: Seq<u8>| exists|i: int| 0 <= i < s.len() && (#[trigger] s[i]).0@ == k)
}

/// Entries as keys and values.
pub open spec fn entry_views(s: Seq<(Vec<u8>, Vec<u8>)>) -> Seq<(Seq<u8>, Seq<u8>)> {
    Seq::new(s.len(), |i: int| (s[i].0@, s[i].1@))
}

/// The keys of entries.
pub open spec fn entry_keys(s: Seq<(Seq<u8>, Seq<u8>)>) -> Set<Seq<u8>> {
    Set::new(|k: Seq<u8>| exists|i: int| 0 <= i < s.len() && (#[trigger] s[i]).0 == k)
}

/// Whether putting a raw value under a key leads from one state to another and hands out the
/// given entries: those above the limit, whichever they are. The value is then under its key, or
/// among those handed out.
pub open spec fn raw_put(
    s: StateV,
    t: StateV,
    db: u32,
    table: Seq<char>,
    key: Seq<u8>,
    value: Seq<u8>,
    out: Seq<(Seq<u8>, Seq<u8>)>,
) -> bool {
    let all = raw_values(s, db, table).insert(key, value);
    let kept = raw_values(t, db, table);
    &&& t == raw_set(s, db, table, kept)
    &&& forall|i: int| 0 <= i < out.len() ==> all.contains_key((#[trigger] out[i]).0) && all[out[i].0] == out[i].1
    &&& forall|i: int, j: int| 0 <= i < j < out.len() ==> (#[trigger] out[i]).0 != (#[trigger] out[j]).0
    &&& kept == without_keys(all, entry_keys(out))
    &&& s.limit == 0 ==> out.len() == 0
    &&& s.limit > 0 ==> out.len() == surplus(all, s.limit as nat)
    &&& (kept.contains_key(key) && kept[key] == value) || out.contains((key, value))
}

/// A map without some keys.
pub open spec fn without_keys(m: Map<Seq<u8>, Seq<u8>>, keys: Set<Seq<u8>>) -> Map<Seq<u8>, Seq<u8>> {
    m.remove_keys(keys)
}

/// By how many entries a map is above a limit.
pub open spec fn surplus(m: Map<Seq<u8>, Seq<u8>>, limit: nat) -> nat {
    if m.dom().len() > limit {
        (m.dom().len() - limit) as nat
    } else {
        0
    }
}

proof fn lemma_key_count(m: Map<Seq<u8>, Seq<u8>>, keys: Seq<Vec<u8>>)
    requires
        forall|i: int, j: int| 0 <= i < j < keys.len() ==> (#[trigger] keys[i])@ != (#[trigger] keys[j])@,
        forall|i: int| 0 <= i < keys.len() ==> m.contains_key((#[trigger] keys[i])@),
        forall|k: Seq<u8>| #[trigger]
            m.contains_key(k) ==> exists|i: int| 0 <= i < keys.len() && (#[trigger] keys[i])@ == k,
    ensures
        m.dom().len() == keys.len(),
{
    let views = Seq::new(keys.len(), |i: int| keys[i]@);
    assert(views.no_duplicates());
    views.unique_seq_to_set();
    assert forall|k: Seq<u8>| #[trigger] m.dom().contains(k) <==> views.to_set().contains(k) by {
        if m.dom().contains(k) {
            assert(m.contains_key(k));
            let i = choose|i: int| 0 <= i < keys.len() && (#[trigger] keys[i])@ == k;
            assert(views[i] == k);
        }
        if views.to_set().contains(k) {
            let i = choose|i: int| 0 <= i < views.len() && views[i] == k;
            assert(m.contains_key(keys[i]@));
        }
    }
    assert(m.dom() =~= views.to_set());
}

/// What removing a view gives.
pub open spec fn view_removed(s: StateV, db: u32, name: Seq<char>) -> (StateV, Result<(), ErrorV>) {
    if s.views.known.contains(db) {
        (StateV { views: catalog::without(s.views, db, name), ..s }, Ok(()))
    } else {
        (s, Err(ErrorV::Schema("View "@ + name + " not found"@)))
    }
}

fn known_catalog<T: View>(databases: &[DatabaseConfig]) -> (r: Catalog<T>)
    ensures
        r@ == fresh::<T::V>(known_upto(databases.deep_view(), databases@.len() as int)),
{
    let ghost dv = databases.deep_view();
    let mut c: Catalog<T> = Catalog::new();
    let mut i: usize = 0;
    assert(c@.items =~= Seq::empty());
    while i < databases.len()
        invariant
            i <= databases@.len(),
            dv == databases.deep_view(),
            c@ == fresh::<T::V>(known_upto(dv, i as int)),
        decreases databases@.len() - i,
    {
        assert(dv[i as int].0 == databases@[i as int].id);
        c.ensure(databases[i].id);
        i = i + 1;
    }
    c
}

fn name_place(m: &Vec<(String, u32)>, name: &str) -> (r: Option<usize>)
    ensures
        match r {
            Some(i) => {
                &&& i < m@.len()
                &&& assoc::assoc_get(name_views(m@), name@) == Some(m@[i as int].1)
                &&& assoc::assoc_put_at(name_views(m@), name@, i as int)
            },
            None => {
                &&& assoc::assoc_get(name_views(m@), name@) is None
                &&& forall|j: int| 0 <= j < m@.len() ==> (#[trigger] name_views(m@)[j]).0 != name@
            },
        },
{
    let ghost v = name_views(m@);
    let mut i: usize = 0;
    while i < m.len()
        invariant
            i <= m@.len(),
            v == name_views(m@),
            forall|j: int| 0 <= j < i ==> (#[trigger] v[j]).0 != name@,
        decreases m@.len() - i,
    {
        if text::text_eq(m[i].0.as_str(), name) {
            proof {
                assert(v[i as int].0 == name@);
                assoc::lemma_get_at(v, name@, i as int);
            }
            return Some(i);
        }
        assert(v[i as int].0 != name@);
        i = i + 1;
    }
    proof {
        assoc::lemma_get_absent(v, name@);
    }
    None
}

fn database_names(databases: &[DatabaseConfig]) -> (r: Vec<(String, u32)>)
    ensures
        name_views(r@) == names_upto(databases.deep_view(), databases@.len() as int),
{
    let ghost dv = databases.deep_view();
    let mut m: Vec<(String, u32)> = Vec::new();
    let mut i: usize = 0;
    assert(name_views(m@) =~= Seq::empty());
    while i < databases.len()
        invariant
            i <= databases@.len(),
            dv == databases.deep_view(),
            name_views(m@) == names_upto(dv, i as int),
        decreases databases@.len() - i,
    {
        let name = &databases[i].name;
        let id: u32 = databases[i].id;
        assert(dv[i as int] == (id, name@));
        let ghost before = name_views(m@);
        match name_place(&m, name.as_str()) {
            Some(k) => {
                m.set(k, (name.clone(), id));
                assert(name_views(m@) =~= before.update(k as int, (name@, id)));
            },
            None => {
                m.push((name.clone(), id));
                proof {
                    assert(name_views(m@) =~= before.push((name@, id)));
                    assoc::lemma_put_absent(before, name@, id);
                }
            },
        }
        i = i + 1;
    }
    m
}

/// The name under which the index of a table is kept.
pub fn index_name(table: &str, index: &str) -> (r: String)
    ensures
        r@ == index_key(table@, index@),
{
    let cs = text::chars_of(table);
    let n = text::word_text(cs.len() as u64);
    text::text4(n.as_str(), ":", table, index)
}

impl KvsState {
    /// A state with these databases, and no limit on raw values.
    pub fn new(databases: &[DatabaseConfig]) -> (r: KvsState)
        ensures
            r@ == initial(databases.deep_view(), 0, "/tmp/skvs-overflow"@),
    {
        KvsState::new_with_config(databases, 0, "/tmp/skvs-overflow")
    }

    pub fn new_with_config(databases: &[DatabaseConfig], max_entries_per_table: usize, overflow_dir: &str) -> (r: KvsState)
        ensures
            r@ == initial(databases.deep_view(), max_entries_per_table, overflow_dir@),
    {
        KvsState {
            dbs: known_catalog(databases),
            schemas: known_catalog(databases),
            rowid_generators: known_catalog(databases),
            db_name_to_id: database_names(databases),
            raw_stores: known_catalog(databases),
            indexes: known_catalog(databases),
            triggers: known_catalog(databases),
            views: known_catalog(databases),
            fts_tables: known_catalog(databases),
            txns: TxnManager::new(),
            max_entries_per_table,
            overflow_dir: overflow_dir.to_owned(),
        }
    }

    pub fn get_db_id(&self, name: &str) -> (r: Option<u32>)
        ensures
            r == assoc::assoc_get(self@.names, name@),
    {
        match name_place(&self.db_name_to_id, name) {
            Some(i) => Some(self.db_name_to_id[i].1),
            None => None,
        }
    }

    pub fn get_table_store(&self, db_id: u32, table: &str) -> (r: Option<&RowStore>)
        ensures
            match r {
                Some(x) => table_rows(self@, db_id, table@) == Some(x@),
                None => table_rows(self@, db_id, table@) is None,
            },
    {
        self.dbs.get(db_id, table)
    }

    pub fn get_schema(&self, db_id: u32, table: &str) -> (r: Option<&TableSchema>)
        ensures
            match r {
                Some(x) => table_schema(self@, db_id, table@) == Some(x@),
                None => table_schema(self@, db_id, table@) is None,
            },
    {
        self.schemas.get(db_id, table)
    }

    /// Puts a row into a table, where the table is there.
    pub fn store_row(&mut self, db_id: u32, table: &str, rowid: RowId, row: Row)
        ensures
            final(self)@ == row_stored(old(self)@, db_id, table@, rowid, row::cells(row)),
    {
        match self.dbs.get_mut(db_id, table) {
            Some(store) => store.insert(rowid, row),
            None => {},
        }
    }

    /// Takes a row out of a table and hands it out, where it is there.
    pub fn drop_row(&mut self, db_id: u32, table: &str, rowid: RowId) -> (r: Option<Row>)
        ensures
            final(self)@ == row_dropped(old(self)@, db_id, table@, rowid),
            match r {
                Some(row) => table_rows(old(self)@, db_id, table@) matches Some(m) && m.contains_key(rowid)
                    && m[rowid] == row::cells(row),
                None => table_rows(old(self)@, db_id, table@) matches Some(m) ==> !m.contains_key(rowid),
            },
    {
        match self.dbs.get_mut(db_id, table) {
            Some(store) => store.remove(rowid),
            None => None,
        }
    }

    /// The id for the next row of a table; no other row gets it.
    pub fn get_next_rowid(&mut self, db_id: u32, table: &str) -> (r: u64)
        ensures
            r == next_rowid(old(self)@, db_id, table@),
            final(self)@ == rowid_taken(old(self)@, db_id, table@),
    {
        let n: u64 = match self.rowid_generators.get(db_id, table) {
            Some(n) => *n,
            None => 1,
        };
        let next: u64 = if n == u64::MAX {
            0
        } else {
            n + 1
        };
        self.rowid_generators.put(db_id, table.to_owned(), next);
        n
    }

    /// Whether a table has ids left for new rows.
    pub fn has_rowids(&self, db_id: u32, table: &str) -> (r: bool)
        ensures
            r == (next_rowid(self@, db_id, table@) < u64::MAX),
    {
        match self.rowid_generators.get(db_id, table) {
            Some(n) => *n < u64::MAX,
            None => true,
        }
    }

    /// Makes the next id of a table at least `min_next`; it never moves backwards.
    pub fn set_min_next_rowid(&mut self, db_id: u32, table: &str, min_next: u64)
        ensures
            final(self)@ == rowid_at_least(old(self)@, db_id, table@, min_next),
    {
        let n: u64 = match self.rowid_generators.get(db_id, table) {
            Some(n) => *n,
            None => 1,
        };
        let next: u64 = if n < min_next {
            min_next
        } else {
            n
        };
        self.rowid_generators.put(db_id, table.to_owned(), next);
    }

    /// The index of a table, made empty where it is not there.
    pub fn get_or_create_index_store(&mut self, db_id: u32, table: &str, index: &str) -> (r: &mut IndexStore)
        ensures
            (*r)@ == index_of(old(self)@, db_id, table@, index@),
            final(self)@ == index_set(old(self)@, db_id, table@, index@, (*final(r))@),
    {
        let key = index_name(table, index);
        let ghost before = self@.indexes;
        let absent: bool = self.indexes.get(db_id, key.as_str()).is_none();
        if absent {
            let empty = IndexStore::new();
            assert(empty@ =~= Seq::empty());
            self.indexes.put(db_id, key.clone(), empty);
            proof {
                assoc::lemma_get_put(before.items, (db_id, key@), Seq::empty());
                assoc::lemma_put_twice(before.items, (db_id, key@), Seq::empty());
            }
        } else {
            self.indexes.ensure(db_id);
        }
        let ghost mid = self@.indexes;
        match self.indexes.get_mut(db_id, key.as_str()) {
            Some(x) => x,
            None => {
                proof {
                    assert(false);
                }
                unreached()
            },
        }
    }

    pub fn drop_index_store(&mut self, db_id: u32, table: &str, index: &str)
        ensures
            final(self)@ == index_dropped(old(self)@, db_id, table@, index@),
    {
        let key = index_name(table, index);
        self.indexes.remove(db_id, key.as_str());
    }

    pub fn add_trigger(&mut self, db_id: u32, table: &str, trigger: TriggerDef) -> (r: Result<(), SkvsError>)
        ensures
            r is Ok,
            final(self)@ == trigger_added(old(self)@, db_id, table@, trigger@),
    {
        let mut list: Vec<TriggerDef> = self.get_triggers(db_id, table);
        let ghost before = list.deep_view();
        let ghost tv = trigger@;
        list.push(trigger);
        assert(list.deep_view() =~= before.push(tv));
        self.triggers.put(db_id, table.to_owned(), TriggerList { list });
        Ok(())
    }

    pub fn get_triggers(&self, db_id: u32, table: &str) -> (r: Vec<TriggerDef>)
        ensures
            r.deep_view() == triggers_of(self@, db_id, table@),
    {
        match self.triggers.get(db_id, table) {
            Some(l) => {
                let r = l.list.clone();
                assert(r.deep_view() =~= l.list.deep_view());
                r
            },
            None => {
                let r: Vec<TriggerDef> = Vec::new();
                assert(r.deep_view() =~= Seq::empty());
                r
            },
        }
    }

    pub fn add_view(&mut self, db_id: u32, name: &str, query: &str) -> (r: Result<(), SkvsError>)
        ensures
            r is Ok,
            final(self)@ == (StateV { views: catalog::with(old(self)@.views, db_id, name@, query@), ..old(self)@ }),
    {
        self.views.put(db_id, name.to_owned(), query.to_owned());
        Ok(())
    }

    /// Removes a view. It is no error where there is none, but the database has to be there.
    pub fn remove_view(&mut self, db_id: u32, name: &str) -> (r: Result<(), SkvsError>)
        ensures
            (final(self)@, error::outcome_unit(r)) == view_removed(old(self)@, db_id, name@),
    {
        if self.views.knows(db_id) {
            self.views.remove(db_id, name);
            Ok(())
        } else {
            Err(SkvsError::Schema(text::text3("View ", name, " not found")))
        }
    }

    pub fn get_view_definition(&self, db_id: u32, name: &str) -> (r: Option<String>)
        ensures
            r.deep_view() == catalog::find(self@.views, db_id, name@),
    {
        match self.views.get(db_id, name) {
            Some(q) => Some(q.clone()),
            None => None,
        }
    }

    pub fn register_fts_table(&mut self, db_id: u32, name: &str, table: FtsVirtualTable) -> (r: Result<(), SkvsError>)
        ensures
            r is Ok,
            final(self)@ == (StateV { fts: catalog::with(old(self)@.fts, db_id, name@, table@), ..old(self)@ }),
    {
        self.fts_tables.put(db_id, name.to_owned(), table);
        Ok(())
    }

    pub fn get_fts_table(&self, db_id: u32, name: &str) -> (r: Option<&FtsVirtualTable>)
        ensures
            match r {
                Some(x) => catalog::find(self@.fts, db_id, name@) == Some(x@),
                None => catalog::find(self@.fts, db_id, name@) is None,
            },
    {
        self.fts_tables.get(db_id, name)
    }

    /// Puts a raw value under a key. Where the table then holds more than the limit, the surplus
    /// leaves memory and is handed out, to be kept elsewhere; which entries leave is open. The new
    /// value is under its key afterwards, or among those handed out.
    pub fn put_raw(&mut self, db_id: u32, table: &str, key: Vec<u8>, value: Vec<u8>) -> (spilled: Vec<(Vec<u8>, Vec<u8>)>)
        ensures
            raw_put(old(self)@, final(self)@, db_id, table@, key@, value@, entry_views(spilled@)),
    {
        let ghost before = self@;
        let ghost kv = key@;
        let ghost vv = value@;
        let mut store: RawStore = RawStore::new();
        match self.raw_stores.get_mut(db_id, table) {
            Some(slot) => {
                std::mem::swap(slot, &mut store);
            },
            None => {},
        }
        let ghost all = raw_values(before, db_id, table@).insert(kv, vv);
        store.insert(key, value);
        assert(store@ =~= all);
        let mut spilled: Vec<(Vec<u8>, Vec<u8>)> = Vec::new();
        let keys = store.keys();
        proof {
            lemma_key_count(all, keys@);
        }
        let limit: usize = self.max_entries_per_table;
        let mut i: usize = 0;
        assert(without_keys(all, spilled_keys(spilled@)) =~= all);
        while limit > 0 && keys.len() > limit && i < keys.len() - limit
            invariant
                keys@.len() > limit > 0 ==> i <= keys@.len() - limit,
                !(keys@.len() > limit > 0) ==> i == 0,
                spilled@.len() == i,
                store@ == without_keys(all, spilled_keys(spilled@)),
                forall|a: int, b: int| 0 <= a < b < keys@.len() ==> (#[trigger] keys@[a])@ != (#[trigger] keys@[b])@,
                forall|a: int| 0 <= a < keys@.len() ==> all.contains_key((#[trigger] keys@[a])@),
                forall|a: int| 0 <= a < i ==> (#[trigger] spilled@[a]).0@ == keys@[a]@ && spilled@[a].1@ == all[keys@[a]@],
            decreases keys@.len() - i,
        {
            proof {
                let k = keys@[i as int]@;
                assert(!spilled_keys(spilled@).contains(k)) by {
                    if spilled_keys(spilled@).contains(k) {
                        let a = choose|a: int| 0 <= a < spilled@.len() && (#[trigger] spilled@[a]).0@ == k;
                        assert(keys@[a]@ == k);
                    }
                }
                assert(store@.contains_key(k));
            }
            match store.remove(&keys[i]) {
                Some(v) => {
                    let k = schema::copy_bytes(&keys[i]);
                    let ghost sk = spilled_keys(spilled@);
                    let ghost old_spilled = spilled@;
                    spilled.push((k, v));
                    proof {
                        assert forall|x: Seq<u8>| #[trigger] spilled_keys(spilled@).contains(x) <==> sk.contains(x) || x
                            == k@ by {
                            if sk.contains(x) {
                                let a = choose|a: int| 0 <= a < old_spilled.len() && (#[trigger] old_spilled[a]).0@ == x;
                                assert(spilled@[a].0@ == x);
                            }
                            if spilled_keys(spilled@).contains(x) {
                                let a = choose|a: int| 0 <= a < spilled@.len() && (#[trigger] spilled@[a]).0@ == x;
                                if a < old_spilled.len() {
                                    assert(old_spilled[a].0@ == x);
                                }
                            }
                            assert(spilled@[i as int].0@ == k@);
                        }
                        assert(store@ =~= without_keys(all, spilled_keys(spilled@)));
                    }
                },
                None => {},
            }
            i = i + 1;
        }
        let ghost kept = store@;
        self.raw_stores.put(db_id, table.to_owned(), store);
        proof {
            assoc::lemma_put_twice(before.raw.items, (db_id, table@), Map::<Seq<u8>, Seq<u8>>::empty());
            assoc::lemma_get_put(before.raw.items, (db_id, table@), kept);
            if spilled_keys(spilled@).contains(kv) {
                let a = choose|a: int| 0 <= a < spilled@.len() && (#[trigger] spilled@[a]).0@ == kv;
                assert(spilled@[a].1@ == all[keys@[a]@]);
                assert(entry_views(spilled@)[a] == (kv, vv));
            }
            assert(entry_keys(entry_views(spilled@)) =~= spilled_keys(spilled@)) by {
                assert forall|k: Seq<u8>| entry_keys(entry_views(spilled@)).contains(k) == spilled_keys(spilled@).contains(k) by {
                    if spilled_keys(spilled@).contains(k) {
                        let a = choose|a: int| 0 <= a < spilled@.len() && (#[trigger] spilled@[a]).0@ == k;
                        assert(entry_views(spilled@)[a].0 == k);
                    }
                    if entry_keys(entry_views(spilled@)).contains(k) {
                        let a = choose|a: int| 0 <= a < spilled@.len() && (#[trigger] entry_views(spilled@)[a]).0 == k;
                        assert(spilled@[a].0@ == k);
                    }
                }
            }
        }
        spilled
    }

    /// The raw value under a key, where it is in memory.
    pub fn get_raw(&self, db_id: u32, table: &str, key: &Vec<u8>) -> (r: Option<Vec<u8>>)
        ensures
            match r {
                Some(v) => raw_values(self@, db_id, table@).contains_key(key@) && v@ == raw_values(
                    self@,
                    db_id,
                    table@,
                )[key@],
                None => !raw_values(self@, db_id, table@).contains_key(key@),
            },
    {
        match self.raw_stores.get(db_id, table) {
            Some(s) => s.get(key),
            None => None,
        }
    }

    /// Removes what is under a key.
    pub fn remove_raw(&mut self, db_id: u32, table: &str, key: &Vec<u8>)
        ensures
            final(self)@ == raw_removed(old(self)@, db_id, table@, key@),
    {
        match self.raw_stores.get_mut(db_id, table) {
            Some(s) => {
                s.remove(key);
            },
            None => {},
        }
    }

    /// The parts of the path of the file that holds a value which left memory.
    pub fn overflow_path(&self, db_id: u32, table: &str, key: &Vec<u8>) -> (r: Vec<String>)
        ensures
            r.deep_view() == seq![self@.overflow_dir, text::nat_text(db_id as nat), table@, codec::hex_text(key@)],
    {
        let mut r: Vec<String> = Vec::new();
        r.push(self.overflow_dir.clone());
        r.push(text::word_text(db_id as u64));
        r.push(table.to_owned());
        r.push(codec::hex_encode(key));
        assert(r.deep_view() =~= seq![self@.overflow_dir, text::nat_text(db_id as nat), table@, codec::hex_text(key@)]);
        r
    }
}

} // verus!

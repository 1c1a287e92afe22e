//! What outlives the process: the log of raw writes, and snapshots of the databases.
use vstd::prelude::*;

use crate::assoc;
use crate::catalog;
use crate::fts;
use crate::fts::{FtsTableV, FtsV, FtsVirtualTable};
use crate::row;
use crate::row::RowV;
use crate::schema;
use crate::schema::{IndexDef, Row, RowId, SchemaV, TableSchema, TriggerDef, TriggerV, Value, ValueV};
use crate::sql::ddl;
use crate::state;
use crate::state::{KvsState, StateV, TriggerList};
use crate::store;
use crate::store::{RawStore, RowStore};

verus! {

/// A raw write.
#[derive(Debug)]
pub struct Operation {
    pub db_id: u32,
    pub table: String,
    pub op: OpType,
}

#[derive(Debug)]
pub enum OpType {
    Put { key: Vec<u8>, value: Vec<u8> },
    Delete { key: Vec<u8> },
}

pub struct OperationV {
    pub db: u32,
    pub table: Seq<char>,
    pub op: OpTypeV,
}

pub enum OpTypeV {
    Put { key: Seq<u8>, value: Seq<u8> },
    Delete { key: Seq<u8> },
}

impl View for OpType {
    type V = OpTypeV;

    open spec fn view(&self) -> OpTypeV {
        match self {
            OpType::Put { key, value } => OpTypeV::Put { key: key@, value: value@ },
            OpType::Delete { key } => OpTypeV::Delete { key: key@ },
        }
    }
}

impl View for Operation {
    type V = OperationV;

    open spec fn view(&self) -> OperationV {
        OperationV { db: self.db_id, table: self.table@, op: self.op@ }
    }
}

impl DeepView for Operation {
    type V = OperationV;

    open spec fn deep_view(&self) -> OperationV {
        self@
    }
}

impl Clone for Operation {
    fn clone(&self) -> (r: Operation)
        ensures
            r@ == self@,
    {
        let op = match &self.op {
            OpType::Put { key, value } => OpType::Put { key: schema::copy_bytes(key), value: schema::copy_bytes(value) },
            OpType::Delete { key } => OpType::Delete { key: schema::copy_bytes(key) },
        };
        Operation { db_id: self.db_id, table: self.table.clone(), op }
    }
}

/// The writes of each database among the first `n`, in order; the databases in the order in
/// which they first came.
pub open spec fn grouped(ops: Seq<OperationV>, n: int) -> Seq<(u32, Seq<OperationV>)>
    decreases n,
{
    if n <= 0 || n > ops.len() {
        Seq::empty()
    } else {
        let p = grouped(ops, n - 1);
        let o = ops[n - 1];
        match assoc::assoc_get(p, o.db) {
            Some(l) => assoc::assoc_put(p, o.db, l.push(o)),
            None => assoc::assoc_put(p, o.db, seq![o]),
        }
    }
}

pub open spec fn group_list(s: Seq<(u32, Vec<Operation>)>) -> Seq<(u32, Seq<OperationV>)> {
    Seq::new(s.len(), |i: int| (s[i].0, s[i].1.deep_view()))
}

fn group_place(groups: &Vec<(u32, Vec<Operation>)>, db_id: u32) -> (r: Option<usize>)
    ensures
        match r {
            Some(i) => {
                &&& i < groups@.len()
                &&& groups@[i as int].0 == db_id
                &&& assoc::assoc_get(group_list(groups@), db_id) == Some(groups@[i as int].1.deep_view())
                &&& assoc::assoc_put_at(group_list(groups@), db_id, i as int)
            },
            None => {
                &&& assoc::assoc_get(group_list(groups@), db_id) is None
                &&& forall|j: int| 0 <= j < groups@.len() ==> (#[trigger] group_list(groups@)[j]).0 != db_id
            },
        },
{
    let ghost g = group_list(groups@);
    let mut i: usize = 0;
    while i < groups.len()
        invariant
            i <= groups@.len(),
            g == group_list(groups@),
            forall|j: int| 0 <= j < i ==> (#[trigger] g[j]).0 != db_id,
        decreases groups@.len() - i,
    {
        assert(g[i as int].0 == groups@[i as int].0);
        if groups[i].0 == db_id {
            proof {
                assoc::lemma_get_at(g, db_id, i as int);
            }
            return Some(i);
        }
        i = i + 1;
    }
    proof {
        assoc::lemma_get_absent(g, db_id);
    }
    None
}

fn copy_operations(ops: &Vec<Operation>) -> (r: Vec<Operation>)
    ensures
        r.deep_view() == ops.deep_view(),
{
    let mut out: Vec<Operation> = Vec::new();
    let mut i: usize = 0;
    while i < ops.len()
        invariant
            i <= ops@.len(),
            out@.len() == i,
            forall|j: int| 0 <= j < i ==> (#[trigger] out@[j])@ == ops@[j]@,
        decreases ops@.len() - i,
    {
        out.push(ops[i].clone());
        i = i + 1;
    }
    assert(out.deep_view() =~= ops.deep_view());
    out
}

/// Sorts a batch of writes by database.
pub fn group_batch(batch: &Vec<Operation>) -> (r: Vec<(u32, Vec<Operation>)>)
    ensures
        group_list(r@) == grouped(batch.deep_view(), batch@.len() as int),
{
    let ghost bv = batch.deep_view();
    let mut groups: Vec<(u32, Vec<Operation>)> = Vec::new();
    let mut i: usize = 0;
    assert(group_list(groups@) =~= Seq::empty());
    while i < batch.len()
        invariant
            i <= batch@.len(),
            bv == batch.deep_view(),
            group_list(groups@) == grouped(bv, i as int),
        decreases batch@.len() - i,
    {
        assert(bv[i as int] == batch@[i as int]@);
        let ghost before = group_list(groups@);
        let db: u32 = batch[i].db_id;
        match group_place(&groups, db) {
            Some(k) => {
                let mut l = copy_operations(&groups[k].1);
                let ghost lv = l.deep_view();
                l.push(batch[i].clone());
                assert(l.deep_view() =~= lv.push(bv[i as int]));
                let ghost nv = l.deep_view();
                groups.set(k, (db, l));
                assert(group_list(groups@) =~= before.update(k as int, (db, nv)));
            },
            None => {
                let mut l: Vec<Operation> = Vec::new();
                l.push(batch[i].clone());
                assert(l.deep_view() =~= seq![bv[i as int]]);
                let ghost nv = l.deep_view();
                groups.push((db, l));
                proof {
                    assert(group_list(groups@) =~= before.push((db, nv)));
                    assoc::lemma_put_absent(before, db, nv);
                }
            },
        }
        i = i + 1;
    }
    groups
}

/// A number as four bytes, the lowest first.
pub open spec fn low_bytes(n: u32) -> Seq<u8> {
    seq![
        (n % 256) as u8,
        ((n / 256) % 256) as u8,
        ((n / 65536) % 256) as u8,
        ((n / 16777216) % 256) as u8,
    ]
}

/// A record of the log: the length of what it holds, then what it holds.
pub open spec fn framed(encoded: Seq<u8>) -> Seq<u8> {
    low_bytes(encoded.len() as u32) + encoded
}

/// Frames what a write was encoded as.
pub fn frame_record(encoded: &Vec<u8>) -> (r: Vec<u8>)
    ensures
        r@ == framed(encoded@),
{
    let n: u32 = encoded.len() as u32;
    let mut out: Vec<u8> = Vec::new();
    out.push((n % 256) as u8);
    out.push(((n / 256) % 256) as u8);
    out.push(((n / 65536) % 256) as u8);
    out.push(((n / 16777216) % 256) as u8);
    assert(out@ =~= low_bytes(n));
    let mut i: usize = 0;
    while i < encoded.len()
        invariant
            i <= encoded@.len(),
            out@ == low_bytes(n) + encoded@.take(i as int),
        decreases encoded@.len() - i,
    {
        out.push(encoded[i]);
        i = i + 1;
        assert(out@ =~= low_bytes(n) + encoded@.take(i as int));
    }
    assert(encoded@.take(encoded@.len() as int) =~= encoded@);
    out
}

/// What happens to the writer of the log.
pub enum WalEvent {
    /// The flush interval is over.
    Tick,
    /// A flush was asked for.
    Flush,
    /// A write came in.
    Received(Operation),
}

pub enum WalEventV {
    Tick,
    Flush,
    Received(OperationV),
}

impl View for WalEvent {
    type V = WalEventV;

    open spec fn view(&self) -> WalEventV {
        match self {
            WalEvent::Tick => WalEventV::Tick,
            WalEvent::Flush => WalEventV::Flush,
            WalEvent::Received(o) => WalEventV::Received(o@),
        }
    }
}

/// What the writer of the log has to do: write a batch to the log and send it on, and take a
/// snapshot.
pub struct WalStep {
    pub write: Option<Vec<Operation>>,
    pub snapshot: bool,
}

pub struct WalStepV {
    pub write: Option<Seq<OperationV>>,
    pub snapshot: bool,
}

impl View for WalStep {
    type V = WalStepV;

    open spec fn view(&self) -> WalStepV {
        WalStepV { write: self.write.deep_view(), snapshot: self.snapshot }
    }
}

/// The writes that wait to be logged.
pub struct WalBatch {
    pub ops: Vec<Operation>,
    pub batch_size: usize,
}

/// What waits behind an event, and what has to be done: a full batch is written at once, any
/// other at the next tick or flush. Only a tick asks for a snapshot.
pub open spec fn stepped(ops: Seq<OperationV>, batch_size: usize, event: WalEventV) -> (Seq<OperationV>, WalStepV) {
    match event {
        WalEventV::Received(o) => if ops.len() + 1 >= batch_size {
            (Seq::empty(), WalStepV { write: Some(ops.push(o)), snapshot: false })
        } else {
            (ops.push(o), WalStepV { write: None, snapshot: false })
        },
        _ => if ops.len() == 0 {
            (ops, WalStepV { write: None, snapshot: event is Tick })
        } else {
            (Seq::empty(), WalStepV { write: Some(ops), snapshot: event is Tick })
        },
    }
}

impl WalBatch {
    pub fn new(batch_size: usize) -> (r: WalBatch)
        ensures
            r.ops.deep_view() == Seq::<OperationV>::empty(),
            r.batch_size == batch_size,
    {
        let ops: Vec<Operation> = Vec::new();
        assert(ops.deep_view() =~= Seq::<OperationV>::empty());
        WalBatch { ops, batch_size }
    }

    /// Takes an event in and says what has to be done.
    pub fn step(&mut self, event: WalEvent) -> (r: WalStep)
        ensures
            (final(self).ops.deep_view(), r@) == stepped(old(self).ops.deep_view(), old(self).batch_size, event@),
            final(self).batch_size == old(self).batch_size,
    {
        let ghost before = self.ops.deep_view();
        let ticked: bool = matches!(event, WalEvent::Tick);
        let mut fresh: Vec<Operation> = Vec::new();
        assert(fresh.deep_view() =~= Seq::<OperationV>::empty());
        match event {
            WalEvent::Received(o) => {
                let ghost ov = o@;
                self.ops.push(o);
                assert(self.ops.deep_view() =~= before.push(ov));
                if self.ops.len() >= self.batch_size {
                    std::mem::swap(&mut self.ops, &mut fresh);
                    WalStep { write: Some(fresh), snapshot: false }
                } else {
                    WalStep { write: None, snapshot: false }
                }
            },
            _ => {
                if self.ops.len() == 0 {
                    WalStep { write: None, snapshot: ticked }
                } else {
                    std::mem::swap(&mut self.ops, &mut fresh);
                    WalStep { write: Some(fresh), snapshot: ticked }
                }
            },
        }
    }
}

/// A table in a snapshot.
pub struct TableDump {
    pub name: String,
    pub schema: Option<TableSchema>,
    pub rows: Vec<(RowId, Row)>,
}

pub struct TableDumpV {
    pub name: Seq<char>,
    pub schema: Option<SchemaV>,
    pub rows: Seq<(u64, RowV)>,
}

impl View for TableDump {
    type V = TableDumpV;

    open spec fn view(&self) -> TableDumpV {
        TableDumpV {
            name: self.name@,
            schema: match self.schema {
                Some(d) => Some(d@),
                None => None,
            },
            rows: store::row_pairs(self.rows@),
        }
    }
}

impl DeepView for TableDump {
    type V = TableDumpV;

    open spec fn deep_view(&self) -> TableDumpV {
        self@
    }
}

/// The map that the first `n` entries of a list make.
pub open spec fn pairs_map(s: Seq<(Vec<u8>, Vec<u8>)>, n: int) -> Map<Seq<u8>, Seq<u8>>
    decreases n,
{
    if n <= 0 || n > s.len() {
        Map::empty()
    } else {
        pairs_map(s, n - 1).insert(s[n - 1].0@, s[n - 1].1@)
    }
}

/// The raw values of a table in a snapshot.
pub struct RawDump {
    pub name: String,
    pub entries: Vec<(Vec<u8>, Vec<u8>)>,
}

pub struct RawDumpV {
    pub name: Seq<char>,
    pub values: Map<Seq<u8>, Seq<u8>>,
}

impl View for RawDump {
    type V = RawDumpV;

    open spec fn view(&self) -> RawDumpV {
        RawDumpV { name: self.name@, values: pairs_map(self.entries@, self.entries@.len() as int) }
    }
}

impl DeepView for RawDump {
    type V = RawDumpV;

    open spec fn deep_view(&self) -> RawDumpV {
        self@
    }
}

/// A view in a snapshot.
pub struct ViewDump {
    pub name: String,
    pub query: String,
}

pub struct ViewDumpV {
    pub name: Seq<char>,
    pub query: Seq<char>,
}

impl View for ViewDump {
    type V = ViewDumpV;

    open spec fn view(&self) -> ViewDumpV {
        ViewDumpV { name: self.name@, query: self.query@ }
    }
}

impl DeepView for ViewDump {
    type V = ViewDumpV;

    open spec fn deep_view(&self) -> ViewDumpV {
        self@
    }
}

/// The triggers of a table in a snapshot.
pub struct TriggersDump {
    pub table: String,
    pub list: Vec<TriggerDef>,
}

pub struct TriggersDumpV {
    pub table: Seq<char>,
    pub list: Seq<TriggerV>,
}

impl View for TriggersDump {
    type V = TriggersDumpV;

    open spec fn view(&self) -> TriggersDumpV {
        TriggersDumpV { table: self.table@, list: self.list.deep_view() }
    }
}

impl DeepView for TriggersDump {
    type V = TriggersDumpV;

    open spec fn deep_view(&self) -> TriggersDumpV {
        self@
    }
}

/// A snapshot of a database. Apart from the tables its parts may be missing.
pub struct DatabaseDump {
    pub tables: Vec<TableDump>,
    pub raw: Option<Vec<RawDump>>,
    pub views: Option<Vec<ViewDump>>,
    pub triggers: Option<Vec<TriggersDump>>,
}

pub struct DumpV {
    pub tables: Seq<TableDumpV>,
    pub raw: Option<Seq<RawDumpV>>,
    pub views: Option<Seq<ViewDumpV>>,
    pub triggers: Option<Seq<TriggersDumpV>>,
}

impl View for DatabaseDump {
    type V = DumpV;

    open spec fn view(&self) -> DumpV {
        DumpV {
            tables: self.tables.deep_view(),
            raw: self.raw.deep_view(),
            views: self.views.deep_view(),
            triggers: self.triggers.deep_view(),
        }
    }
}

/// The tables of a database among the first `n` of all, with their rows.
pub open spec fn tables_dumped(s: StateV, db: u32, n: int) -> Seq<TableDumpV>
    decreases n,
{
    if n <= 0 || n > s.dbs.items.len() {
        Seq::empty()
    } else {
        let p = tables_dumped(s, db, n - 1);
        let (key, m) = s.dbs.items[n - 1];
        if key.0 == db {
            p.push(TableDumpV { name: key.1, schema: state::table_schema(s, db, key.1), rows: store::row_list(m) })
        } else {
            p
        }
    }
}

/// The raw tables of a database among the first `n` of all.
pub open spec fn raw_dumped(items: Seq<((u32, Seq<char>), Map<Seq<u8>, Seq<u8>>)>, db: u32, n: int) -> Seq<RawDumpV>
    decreases n,
{
    if n <= 0 || n > items.len() {
        Seq::empty()
    } else {
        let p = raw_dumped(items, db, n - 1);
        let (key, m) = items[n - 1];
        if key.0 == db {
            p.push(RawDumpV { name: key.1, values: m })
        } else {
            p
        }
    }
}

/// The views of a database among the first `n` of all.
pub open spec fn views_dumped(items: Seq<((u32, Seq<char>), Seq<char>)>, db: u32, n: int) -> Seq<ViewDumpV>
    decreases n,
{
    if n <= 0 || n > items.len() {
        Seq::empty()
    } else {
        let p = views_dumped(items, db, n - 1);
        let (key, q) = items[n - 1];
        if key.0 == db {
            p.push(ViewDumpV { name: key.1, query: q })
        } else {
            p
        }
    }
}

/// The triggers of a database among the first `n` of all.
pub open spec fn triggers_dumped(items: Seq<((u32, Seq<char>), Seq<TriggerV>)>, db: u32, n: int) -> Seq<TriggersDumpV>
    decreases n,
{
    if n <= 0 || n > items.len() {
        Seq::empty()
    } else {
        let p = triggers_dumped(items, db, n - 1);
        let (key, l) = items[n - 1];
        if key.0 == db {
            p.push(TriggersDumpV { table: key.1, list: l })
        } else {
            p
        }
    }
}

/// The snapshot of a database.
pub open spec fn dumped(s: StateV, db: u32) -> DumpV {
    DumpV {
        tables: tables_dumped(s, db, s.dbs.items.len() as int),
        raw: if s.raw.known.contains(db) {
            Some(raw_dumped(s.raw.items, db, s.raw.items.len() as int))
        } else {
            None
        },
        views: if s.views.known.contains(db) {
            Some(views_dumped(s.views.items, db, s.views.items.len() as int))
        } else {
            None
        },
        triggers: if s.triggers.known.contains(db) {
            Some(triggers_dumped(s.triggers.items, db, s.triggers.items.len() as int))
        } else {
            None
        },
    }
}

fn dump_tables(state: &KvsState, db_id: u32) -> (r: Vec<TableDump>)
    ensures
        r.deep_view() == tables_dumped(state@, db_id, state@.dbs.items.len() as int),
{
    let ghost s = state@;
    let n: usize = state.dbs.len();
    let mut out: Vec<TableDump> = Vec::new();
    let mut i: usize = 0;
    assert(out.deep_view() =~= Seq::empty());
    while i < n
        invariant
            i <= n,
            s == state@,
            n == s.dbs.items.len(),
            out.deep_view() == tables_dumped(s, db_id, i as int),
        decreases n - i,
    {
        let e = state.dbs.at(i);
        if e.db == db_id {
            let ghost before = out.deep_view();
            let schema: Option<TableSchema> = match state.get_schema(db_id, e.name.as_str()) {
                Some(d) => Some(d.clone()),
                None => None,
            };
            let t = TableDump { name: e.name.clone(), schema, rows: e.value.entries() };
            let ghost tv = t@;
            out.push(t);
            assert(out.deep_view() =~= before.push(tv));
        }
        i = i + 1;
    }
    out
}

fn dump_store(store: &RawStore) -> (r: Vec<(Vec<u8>, Vec<u8>)>)
    ensures
        pairs_map(r@, r@.len() as int) == store@,
{
    let keys = store.keys();
    let ghost m = store@;
    let mut out: Vec<(Vec<u8>, Vec<u8>)> = Vec::new();
    let mut i: usize = 0;
    while i < keys.len()
        invariant
            i <= keys@.len(),
            m == store@,
            out@.len() == i,
            forall|j: int| 0 <= j < keys@.len() ==> m.contains_key((#[trigger] keys@[j])@),
            forall|k: Seq<u8>| #[trigger]
                pairs_map(out@, i as int).contains_key(k) <==> exists|j: int| 0 <= j < i && (#[trigger] keys@[j])@ == k,
            forall|k: Seq<u8>| #[trigger] pairs_map(out@, i as int).contains_key(k) ==> pairs_map(out@, i as int)[k] == m[k],
        decreases keys@.len() - i,
    {
        let ghost before = out@;
        let ghost bm = pairs_map(before, i as int);
        assert(m.contains_key(keys@[i as int]@));
        match store.get(&keys[i]) {
            Some(v) => {
                out.push((schema::copy_bytes(&keys[i]), v));
                proof {
                    lemma_pairs_prefix(before, out@, i as int);
                    assert(pairs_map(out@, i + 1) == bm.insert(keys@[i as int]@, m[keys@[i as int]@]));
                    assert forall|k: Seq<u8>| #[trigger]
                        pairs_map(out@, i + 1).contains_key(k) <==> exists|j: int|
                            0 <= j < i + 1 && (#[trigger] keys@[j])@ == k by {
                        if pairs_map(out@, i + 1).contains_key(k) {
                            if k == keys@[i as int]@ {
                            } else {
                                assert(bm.contains_key(k));
                                let j = choose|j: int| 0 <= j < i && (#[trigger] keys@[j])@ == k;
                                assert(keys@[j]@ == k);
                            }
                        }
                        if exists|j: int| 0 <= j < i + 1 && (#[trigger] keys@[j])@ == k {
                            let j = choose|j: int| 0 <= j < i + 1 && (#[trigger] keys@[j])@ == k;
                            if j < i {
                                assert(keys@[j]@ == k);
                                assert(bm.contains_key(k));
                            }
                        }
                    }
                    assert forall|k: Seq<u8>| #[trigger] pairs_map(out@, i + 1).contains_key(k) implies pairs_map(
                        out@,
                        i + 1,
                    )[k] == m[k] by {
                        if k != keys@[i as int]@ {
                            assert(bm.contains_key(k));
                        }
                    }
                }
            },
            None => {},
        }
        i = i + 1;
    }
    assert(pairs_map(out@, out@.len() as int) =~= m);
    out
}

proof fn lemma_pairs_prefix(a: Seq<(Vec<u8>, Vec<u8>)>, b: Seq<(Vec<u8>, Vec<u8>)>, n: int)
    requires
        0 <= n <= a.len() <= b.len(),
        forall|j: int| 0 <= j < n ==> a[j] == b[j],
    ensures
        pairs_map(a, n) == pairs_map(b, n),
    decreases n,
{
    if n > 0 {
        lemma_pairs_prefix(a, b, n - 1);
    }
}

fn dump_raw(state: &KvsState, db_id: u32) -> (r: Vec<RawDump>)
    ensures
        r.deep_view() == raw_dumped(state@.raw.items, db_id, state@.raw.items.len() as int),
{
    let ghost items = state@.raw.items;
    let n: usize = state.raw_stores.len();
    let mut out: Vec<RawDump> = Vec::new();
    let mut i: usize = 0;
    assert(out.deep_view() =~= Seq::empty());
    while i < n
        invariant
            i <= n,
            items == state.raw_stores@.items,
            n == items.len(),
            out.deep_view() == raw_dumped(items, db_id, i as int),
        decreases n - i,
    {
        let e = state.raw_stores.at(i);
        if e.db == db_id {
            let ghost before = out.deep_view();
            let t = RawDump { name: e.name.clone(), entries: dump_store(&e.value) };
            let ghost tv = t@;
            out.push(t);
            assert(out.deep_view() =~= before.push(tv));
        }
        i = i + 1;
    }
    out
}

fn dump_views(state: &KvsState, db_id: u32) -> (r: Vec<ViewDump>)
    ensures
        r.deep_view() == views_dumped(state@.views.items, db_id, state@.views.items.len() as int),
{
    let ghost items = state@.views.items;
    let n: usize = state.views.len();
    let mut out: Vec<ViewDump> = Vec::new();
    let mut i: usize = 0;
    assert(out.deep_view() =~= Seq::empty());
    while i < n
        invariant
            i <= n,
            items == state.views@.items,
            n == items.len(),
            out.deep_view() == views_dumped(items, db_id, i as int),
        decreases n - i,
    {
        let e = state.views.at(i);
        if e.db == db_id {
            let ghost before = out.deep_view();
            let t = ViewDump { name: e.name.clone(), query: e.value.clone() };
            let ghost tv = t@;
            out.push(t);
            assert(out.deep_view() =~= before.push(tv));
        }
        i = i + 1;
    }
    out
}

fn dump_triggers(state: &KvsState, db_id: u32) -> (r: Vec<TriggersDump>)
    ensures
        r.deep_view() == triggers_dumped(state@.triggers.items, db_id, state@.triggers.items.len() as int),
{
    let ghost items = state@.triggers.items;
    let n: usize = state.triggers.len();
    let mut out: Vec<TriggersDump> = Vec::new();
    let mut i: usize = 0;
    assert(out.deep_view() =~= Seq::empty());
    while i < n
        invariant
            i <= n,
            items == state.triggers@.items,
            n == items.len(),
            out.deep_view() == triggers_dumped(items, db_id, i as int),
        decreases n - i,
    {
        let e = state.triggers.at(i);
        if e.db == db_id {
            let ghost before = out.deep_view();
            let list = e.value.list.clone();
            assert(list.deep_view() =~= e.value.list.deep_view());
            let t = TriggersDump { table: e.name.clone(), list };
            let ghost tv = t@;
            out.push(t);
            assert(out.deep_view() =~= before.push(tv));
        }
        i = i + 1;
    }
    out
}

/// Takes a snapshot of a database.
pub fn dump_database(state: &KvsState, db_id: u32) -> (r: DatabaseDump)
    ensures
        r@ == dumped(state@, db_id),
{
    let raw: Option<Vec<RawDump>> = if state.raw_stores.knows(db_id) {
        Some(dump_raw(state, db_id))
    } else {
        None
    };
    let views: Option<Vec<ViewDump>> = if state.views.knows(db_id) {
        Some(dump_views(state, db_id))
    } else {
        None
    };
    let triggers: Option<Vec<TriggersDump>> = if state.triggers.knows(db_id) {
        Some(dump_triggers(state, db_id))
    } else {
        None
    };
    DatabaseDump { tables: dump_tables(state, db_id), raw, views, triggers }
}

/// The rows of a table with the first `n` of a list put into it.
pub open spec fn rows_put(m: Map<u64, RowV>, rows: Seq<(u64, RowV)>, n: int) -> Map<u64, RowV>
    decreases n,
{
    if n <= 0 || n > rows.len() {
        m
    } else {
        rows_put(m, rows, n - 1).insert(rows[n - 1].0, rows[n - 1].1)
    }
}

/// The highest id among the first `n` rows.
pub open spec fn highest_id(rows: Seq<(u64, RowV)>, n: int) -> u64
    decreases n,
{
    if n <= 0 || n > rows.len() {
        0
    } else {
        let p = highest_id(rows, n - 1);
        if rows[n - 1].0 > p {
            rows[n - 1].0
        } else {
            p
        }
    }
}

/// The state with a table's definition and rows from a snapshot.
pub open spec fn contents_restored(s: StateV, db: u32, t: TableDumpV) -> StateV {
    let m = match state::table_rows(s, db, t.name) {
        Some(m) => m,
        None => Map::empty(),
    };
    StateV {
        schemas: match t.schema {
            Some(d) => catalog::with(s.schemas, db, t.name, d),
            None => s.schemas,
        },
        dbs: catalog::with(s.dbs, db, t.name, rows_put(m, t.rows, t.rows.len() as int)),
        ..s
    }
}

/// The state with a table of a snapshot: new rows get ids behind those that it holds, and its
/// indexes are made anew.
pub open spec fn table_restored(s: StateV, db: u32, t: TableDumpV) -> StateV {
    let a = state::rowid_at_least(
        contents_restored(s, db, t),
        db,
        t.name,
        state::after_rowid(highest_id(t.rows, t.rows.len() as int)),
    );
    match state::table_schema(a, db, t.name) {
        Some(d) => ddl::indexes_rebuilt(a, db, t.name, d.indices, d.indices.len() as int),
        None => a,
    }
}

pub open spec fn tables_restored(s: StateV, db: u32, ts: Seq<TableDumpV>, n: int) -> StateV
    decreases n,
{
    if n <= 0 || n > ts.len() {
        StateV { schemas: catalog::knowing(s.schemas, db), ..s }
    } else {
        table_restored(tables_restored(s, db, ts, n - 1), db, ts[n - 1])
    }
}

pub open spec fn raw_restored(s: StateV, db: u32, ts: Seq<RawDumpV>, n: int) -> StateV
    decreases n,
{
    if n <= 0 || n > ts.len() {
        StateV { raw: catalog::knowing(s.raw, db), ..s }
    } else {
        let p = raw_restored(s, db, ts, n - 1);
        state::raw_set(p, db, ts[n - 1].name, state::raw_values(p, db, ts[n - 1].name).union_prefer_right(ts[n - 1].values))
    }
}

pub open spec fn views_restored(s: StateV, db: u32, ts: Seq<ViewDumpV>, n: int) -> StateV
    decreases n,
{
    if n <= 0 || n > ts.len() {
        StateV { views: catalog::knowing(s.views, db), ..s }
    } else {
        let p = views_restored(s, db, ts, n - 1);
        StateV { views: catalog::with(p.views, db, ts[n - 1].name, ts[n - 1].query), ..p }
    }
}

pub open spec fn triggers_restored(s: StateV, db: u32, ts: Seq<TriggersDumpV>, n: int) -> StateV
    decreases n,
{
    if n <= 0 || n > ts.len() {
        StateV { triggers: catalog::knowing(s.triggers, db), ..s }
    } else {
        let p = triggers_restored(s, db, ts, n - 1);
        StateV { triggers: catalog::with(p.triggers, db, ts[n - 1].table, ts[n - 1].list), ..p }
    }
}

/// A full-text index over the first `n` rows of a list.
pub open spec fn fts_built(rows: Seq<(u64, RowV)>, column: Seq<char>, n: int) -> FtsV
    decreases n,
{
    if n <= 0 || n > rows.len() {
        fts::empty_index()
    } else {
        let p = fts_built(rows, column, n - 1);
        match assoc::assoc_get(rows[n - 1].1, column) {
            Some(ValueV::Text(c)) => fts::with_document(p, rows[n - 1].0, c),
            _ => p,
        }
    }
}

/// The state with the full-text index of a table made anew from its rows.
pub open spec fn fts_rebuilt(s: StateV, db: u32, table: Seq<char>, column: Seq<char>) -> StateV {
    let rows = match state::table_rows(s, db, table) {
        Some(m) => store::row_list(m),
        None => Seq::empty(),
    };
    StateV {
        fts: catalog::with(
            s.fts,
            db,
            table,
            FtsTableV { name: table, index: fts_built(rows, column, rows.len() as int), content_column: column },
        ),
        ..s
    }
}

/// The state with the full-text indexes of the first `n` tables of a snapshot made anew.
pub open spec fn fts_restored(s: StateV, db: u32, ts: Seq<TableDumpV>, n: int) -> StateV
    decreases n,
{
    if n <= 0 || n > ts.len() {
        s
    } else {
        let p = fts_restored(s, db, ts, n - 1);
        match ts[n - 1].schema {
            Some(d) => match d.fts5_content_column {
                Some(c) => fts_rebuilt(p, db, ts[n - 1].name, c),
                None => p,
            },
            None => p,
        }
    }
}

/// The state with what a snapshot of a database holds.
pub open spec fn restored(s: StateV, db: u32, d: DumpV) -> StateV {
    let a = tables_restored(s, db, d.tables, d.tables.len() as int);
    let b = match d.raw {
        Some(ts) => raw_restored(a, db, ts, ts.len() as int),
        None => a,
    };
    let c = match d.views {
        Some(ts) => views_restored(b, db, ts, ts.len() as int),
        None => b,
    };
    let e = match d.triggers {
        Some(ts) => triggers_restored(c, db, ts, ts.len() as int),
        None => c,
    };
    fts_restored(e, db, d.tables, d.tables.len() as int)
}

fn put_rows(store: &mut RowStore, rows: &Vec<(RowId, Row)>) -> (highest: u64)
    ensures
        final(store)@ == rows_put(old(store)@, store::row_pairs(rows@), rows@.len() as int),
        highest == highest_id(store::row_pairs(rows@), rows@.len() as int),
{
    let ghost m = store@;
    let ghost rv = store::row_pairs(rows@);
    let mut highest: u64 = 0;
    let mut i: usize = 0;
    while i < rows.len()
        invariant
            i <= rows@.len(),
            rv == store::row_pairs(rows@),
            store@ == rows_put(m, rv, i as int),
            highest == highest_id(rv, i as int),
        decreases rows@.len() - i,
    {
        assert(rv[i as int] == (rows@[i as int].0, row::cells(rows@[i as int].1)));
        if rows[i].0 > highest {
            highest = rows[i].0;
        }
        store.insert(rows[i].0, row::row_copy(&rows[i].1));
        i = i + 1;
    }
    highest
}

fn restore_table(state: &mut KvsState, db_id: u32, t: &TableDump)
    ensures
        final(state)@ == table_restored(old(state)@, db_id, t@),
{
    let ghost before = state@;
    match &t.schema {
        Some(d) => state.schemas.put(db_id, t.name.clone(), d.clone()),
        None => {},
    }
    let mut store: RowStore = RowStore::new();
    match state.dbs.get_mut(db_id, t.name.as_str()) {
        Some(slot) => {
            std::mem::swap(slot, &mut store);
        },
        None => {},
    }
    let highest: u64 = put_rows(&mut store, &t.rows);
    state.dbs.put(db_id, t.name.clone(), store);
    proof {
        assoc::lemma_put_twice(before.dbs.items, (db_id, t.name@), Map::<u64, RowV>::empty());
        assert(state@ == contents_restored(before, db_id, t@));
    }
    let next: u64 = if highest == u64::MAX {
        0
    } else {
        highest + 1
    };
    state.set_min_next_rowid(db_id, t.name.as_str(), next);
    let indices: Option<Vec<IndexDef>> = match state.get_schema(db_id, t.name.as_str()) {
        Some(d) => {
            let c = d.indices.clone();
            assert(c.deep_view() =~= d.indices.deep_view());
            Some(c)
        },
        None => None,
    };
    match indices {
        Some(l) => ddl::rebuild_indexes(state, db_id, t.name.as_str(), &l),
        None => {},
    }
}

fn restore_tables(state: &mut KvsState, db_id: u32, ts: &Vec<TableDump>)
    ensures
        final(state)@ == tables_restored(old(state)@, db_id, ts.deep_view(), ts@.len() as int),
{
    let ghost start = state@;
    let ghost tv = ts.deep_view();
    state.schemas.ensure(db_id);
    let mut i: usize = 0;
    while i < ts.len()
        invariant
            i <= ts@.len(),
            tv == ts.deep_view(),
            state@ == tables_restored(start, db_id, tv, i as int),
        decreases ts@.len() - i,
    {
        assert(tv[i as int] == ts@[i as int]@);
        restore_table(state, db_id, &ts[i]);
        i = i + 1;
    }
}

fn put_pairs(store: &mut RawStore, entries: &Vec<(Vec<u8>, Vec<u8>)>)
    ensures
        final(store)@ == old(store)@.union_prefer_right(pairs_map(entries@, entries@.len() as int)),
{
    let ghost m = store@;
    let mut i: usize = 0;
    assert(m =~= m.union_prefer_right(Map::empty()));
    while i < entries.len()
        invariant
            i <= entries@.len(),
            store@ == m.union_prefer_right(pairs_map(entries@, i as int)),
        decreases entries@.len() - i,
    {
        let k = schema::copy_bytes(&entries[i].0);
        let v = schema::copy_bytes(&entries[i].1);
        store.insert(k, v);
        i = i + 1;
        assert(store@ =~= m.union_prefer_right(pairs_map(entries@, i as int)));
    }
}

fn restore_raw_table(state: &mut KvsState, db_id: u32, t: &RawDump)
    ensures
        final(state)@ == state::raw_set(
            old(state)@,
            db_id,
            t@.name,
            state::raw_values(old(state)@, db_id, t@.name).union_prefer_right(t@.values),
        ),
{
    let ghost before = state@;
    let mut store: RawStore = RawStore::new();
    match state.raw_stores.get_mut(db_id, t.name.as_str()) {
        Some(slot) => {
            std::mem::swap(slot, &mut store);
        },
        None => {},
    }
    assert(store@ =~= state::raw_values(before, db_id, t.name@));
    put_pairs(&mut store, &t.entries);
    state.raw_stores.put(db_id, t.name.clone(), store);
    proof {
        assoc::lemma_put_twice(before.raw.items, (db_id, t.name@), Map::<Seq<u8>, Seq<u8>>::empty());
    }
}

fn restore_raw(state: &mut KvsState, db_id: u32, ts: &Vec<RawDump>)
    ensures
        final(state)@ == raw_restored(old(state)@, db_id, ts.deep_view(), ts@.len() as int),
{
    let ghost start = state@;
    let ghost tv = ts.deep_view();
    state.raw_stores.ensure(db_id);
    let mut i: usize = 0;
    while i < ts.len()
        invariant
            i <= ts@.len(),
            tv == ts.deep_view(),
            state@ == raw_restored(start, db_id, tv, i as int),
        decreases ts@.len() - i,
    {
        assert(tv[i as int] == ts@[i as int]@);
        restore_raw_table(state, db_id, &ts[i]);
        i = i + 1;
    }
}

fn restore_views(state: &mut KvsState, db_id: u32, ts: &Vec<ViewDump>)
    ensures
        final(state)@ == views_restored(old(state)@, db_id, ts.deep_view(), ts@.len() as int),
{
    let ghost start = state@;
    let ghost tv = ts.deep_view();
    state.views.ensure(db_id);
    let mut i: usize = 0;
    while i < ts.len()
        invariant
            i <= ts@.len(),
            tv == ts.deep_view(),
            state@ == views_restored(start, db_id, tv, i as int),
        decreases ts@.len() - i,
    {
        assert(tv[i as int] == ts@[i as int]@);
        state.views.put(db_id, ts[i].name.clone(), ts[i].query.clone());
        i = i + 1;
    }
}

fn restore_triggers(state: &mut KvsState, db_id: u32, ts: &Vec<TriggersDump>)
    ensures
        final(state)@ == triggers_restored(old(state)@, db_id, ts.deep_view(), ts@.len() as int),
{
    let ghost start = state@;
    let ghost tv = ts.deep_view();
    state.triggers.ensure(db_id);
    let mut i: usize = 0;
    while i < ts.len()
        invariant
            i <= ts@.len(),
            tv == ts.deep_view(),
            state@ == triggers_restored(start, db_id, tv, i as int),
        decreases ts@.len() - i,
    {
        assert(tv[i as int] == ts@[i as int]@);
        let list = ts[i].list.clone();
        assert(list.deep_view() =~= ts[i as int].list.deep_view());
        state.triggers.put(db_id, ts[i].table.clone(), TriggerList { list });
        i = i + 1;
    }
}

fn fill_fts(t: &mut FtsVirtualTable, rows: &Vec<(RowId, Row)>, column: &str)
    requires
        old(t)@.index == fts::empty_index(),
    ensures
        final(t)@ == (FtsTableV {
            index: fts_built(store::row_pairs(rows@), column@, rows@.len() as int),
            ..old(t)@
        }),
{
    let ghost start = t@;
    let ghost rv = store::row_pairs(rows@);
    let mut i: usize = 0;
    while i < rows.len()
        invariant
            i <= rows@.len(),
            rv == store::row_pairs(rows@),
            t@ == (FtsTableV { index: fts_built(rv, column@, i as int), ..start }),
        decreases rows@.len() - i,
    {
        assert(rv[i as int] == (rows@[i as int].0, row::cells(rows@[i as int].1)));
        match row::row_get(&rows[i].1, column) {
            Some(v) => match v {
                Value::Text(c) => t.insert(rows[i].0, c.as_str()),
                _ => {},
            },
            None => {},
        }
        i = i + 1;
    }
}

fn rebuild_fts(state: &mut KvsState, db_id: u32, table: &str, column: &str)
    ensures
        final(state)@ == fts_rebuilt(old(state)@, db_id, table@, column@),
{
    let rows: Vec<(RowId, Row)> = match state.get_table_store(db_id, table) {
        Some(store) => store.entries(),
        None => Vec::new(),
    };
    assert(store::row_pairs(rows@) =~= (match state::table_rows(state@, db_id, table@) {
        Some(m) => store::row_list(m),
        None => Seq::empty(),
    }));
    let mut t = FtsVirtualTable::new(table, column);
    fill_fts(&mut t, &rows, column);
    let _ = state.register_fts_table(db_id, table, t);
}

fn restore_fts(state: &mut KvsState, db_id: u32, ts: &Vec<TableDump>)
    ensures
        final(state)@ == fts_restored(old(state)@, db_id, ts.deep_view(), ts@.len() as int),
{
    let ghost start = state@;
    let ghost tv = ts.deep_view();
    let mut i: usize = 0;
    while i < ts.len()
        invariant
            i <= ts@.len(),
            tv == ts.deep_view(),
            state@ == fts_restored(start, db_id, tv, i as int),
        decreases ts@.len() - i,
    {
        assert(tv[i as int] == ts@[i as int]@);
        match &ts[i].schema {
            Some(d) => match &d.fts5_content_column {
                Some(c) => rebuild_fts(state, db_id, ts[i].name.as_str(), c.as_str()),
                None => {},
            },
            None => {},
        }
        i = i + 1;
    }
}

/// Puts back what a snapshot of a database holds.
pub fn restore_database(state: &mut KvsState, db_id: u32, dump: &DatabaseDump)
    ensures
        final(state)@ == restored(old(state)@, db_id, dump@),
{
    restore_tables(state, db_id, &dump.tables);
    match &dump.raw {
        Some(ts) => restore_raw(state, db_id, ts),
        None => {},
    }
    match &dump.views {
        Some(ts) => restore_views(state, db_id, ts),
        None => {},
    }
    match &dump.triggers {
        Some(ts) => restore_triggers(state, db_id, ts),
        None => {},
    }
    restore_fts(state, db_id, &dump.tables);
}

/// The writes of a database among the first `n`, in order.
pub open spec fn writes_of(ops: Seq<OperationV>, db: u32, n: int) -> Seq<OperationV>
    decreases n,
{
    if n <= 0 || n > ops.len() {
        Seq::empty()
    } else if ops[n - 1].db == db {
        writes_of(ops, db, n - 1).push(ops[n - 1])
    } else {
        writes_of(ops, db, n - 1)
    }
}

/// To group writes by database loses none, adds none, and keeps their order within each.
pub proof fn lemma_grouped(ops: Seq<OperationV>, db: u32, n: int)
    requires
        0 <= n <= ops.len(),
    ensures
        match assoc::assoc_get(grouped(ops, n), db) {
            Some(l) => l == writes_of(ops, db, n),
            None => writes_of(ops, db, n).len() == 0,
        },
    decreases n,
{
    if n > 0 {
        lemma_grouped(ops, db, n - 1);
        let p = grouped(ops, n - 1);
        let o = ops[n - 1];
        let l = match assoc::assoc_get(p, o.db) {
            Some(l) => l.push(o),
            None => seq![o],
        };
        assoc::lemma_get_put(p, o.db, l);
        if o.db != db {
            assoc::lemma_get_put_other(p, o.db, l, db);
        } else {
            assert(l =~= writes_of(ops, db, n - 1).push(o));
        }
    }
}

/// The log loses no write: what an event has written, followed by what still waits, is what
/// waited before, followed by what came in. Behind every event fewer writes wait than fill a
/// batch.
pub proof fn lemma_log_loses_nothing(ops: Seq<OperationV>, batch_size: usize, event: WalEventV)
    requires
        batch_size > 0,
        ops.len() < batch_size,
    ensures
        ({
            let (rest, step) = stepped(ops, batch_size, event);
            let written = match step.write {
                Some(w) => w,
                None => Seq::empty(),
            };
            let came = match event {
                WalEventV::Received(o) => ops.push(o),
                _ => ops,
            };
            &&& written + rest == came
            &&& rest.len() < batch_size
        }),
{
    let (rest, step) = stepped(ops, batch_size, event);
    let written = match step.write {
        Some(w) => w,
        None => Seq::empty(),
    };
    let came = match event {
        WalEventV::Received(o) => ops.push(o),
        _ => ops,
    };
    assert(written + rest =~= came);
}

/// A record of the log can be told from what follows it: its first four bytes say how many bytes
/// it holds behind them.
pub proof fn lemma_framed(encoded: Seq<u8>)
    requires
        encoded.len() <= u32::MAX,
    ensures
        ({
            let f = framed(encoded);
            &&& f.len() == encoded.len() + 4
            &&& f[0] + 256 * f[1] + 65536 * f[2] + 16777216 * f[3] == encoded.len()
            &&& f.skip(4) == encoded
        }),
{
    let f = framed(encoded);
    assert(f.skip(4) =~= encoded);
}

} // verus!

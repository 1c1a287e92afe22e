//! Transactions, as a journal of how to undo each change.
//!
//! Writes go to the tables at once. A commit drops the journal; a rollback plays it backwards.
use dashmap::DashMap;
use vstd::prelude::*;

use crate::error::{ErrorV, SkvsError};
use crate::index;
use crate::index::{IndexOp, IndexOpV};
use crate::row;
use crate::row::RowV;
use crate::schema::{Row, RowId};
use crate::sql::dml;
use crate::state;
use crate::state::{KvsState, StateV};
use crate::text;

verus! {

/// How to undo one change.
pub enum UndoOp {
    /// The row was inserted: it leaves.
    Insert { table: String, rowid: RowId },
    /// The row was deleted: it comes back.
    Delete { table: String, rowid: RowId, row: Row },
    /// The row was changed: it is again what it was.
    Update { table: String, rowid: RowId, old_row: Row },
}

pub enum UndoV {
    Insert { table: Seq<char>, rowid: u64 },
    Delete { table: Seq<char>, rowid: u64, row: RowV },
    Update { table: Seq<char>, rowid: u64, old_row: RowV },
}

impl View for UndoOp {
    type V = UndoV;

    open spec fn view(&self) -> UndoV {
        match self {
            UndoOp::Insert { table, rowid } => UndoV::Insert { table: table@, rowid: *rowid },
            UndoOp::Delete { table, rowid, row } => UndoV::Delete {
                table: table@,
                rowid: *rowid,
                row: row::cells(*row),
            },
            UndoOp::Update { table, rowid, old_row } => UndoV::Update {
                table: table@,
                rowid: *rowid,
                old_row: row::cells(*old_row),
            },
        }
    }
}

impl DeepView for UndoOp {
    type V = UndoV;

    open spec fn deep_view(&self) -> UndoV {
        self@
    }
}

/// A transaction that is under way.
pub struct TxnEntry {
    pub db_id: u32,
    pub journal: Vec<UndoOp>,
}

pub struct TxnEntryV {
    pub db: u32,
    pub journal: Seq<UndoV>,
}

impl View for TxnEntry {
    type V = TxnEntryV;

    open spec fn view(&self) -> TxnEntryV {
        TxnEntryV { db: self.db_id, journal: self.journal.deep_view() }
    }
}

/// What the map of transactions under way holds.
pub uninterp spec fn txns_in(m: DashMap<u32, TxnEntry>) -> Map<u32, TxnEntryV>;

/// `DashMap::new`: the map is empty.
#[verifier::external_body]
fn txns_new() -> (m: DashMap<u32, TxnEntry>)
    ensures
        (txns_in(m) == Map::<u32, TxnEntryV>::empty()),
{
    DashMap::new()
}

/// `DashMap::insert`: the entry stands under the id, in place of an earlier one.
#[verifier::external_body]
fn txns_insert(m: &mut DashMap<u32, TxnEntry>, id: u32, e: TxnEntry)
    ensures
        txns_in(*final(m)) == txns_in(*old(m)).insert(id, e@),
{
    m.insert(id, e);
}

/// `DashMap::remove`: the entry under the id leaves and is handed out, where there is one.
#[verifier::external_body]
fn txns_remove(m: &mut DashMap<u32, TxnEntry>, id: u32) -> (r: Option<TxnEntry>)
    ensures
        txns_in(*final(m)) == txns_in(*old(m)).remove(id),
        match r {
            Some(e) => txns_in(*old(m)).contains_key(id) && e@ == txns_in(*old(m))[id],
            None => !txns_in(*old(m)).contains_key(id),
        },
{
    m.remove(&id).map(|e| e.1)
}

/// `DashMap::contains_key`: whether there is an entry under the id.
#[verifier::external_body]
fn txns_has(m: &DashMap<u32, TxnEntry>, id: u32) -> (r: bool)
    ensures
        r == txns_in(*m).contains_key(id),
{
    m.contains_key(&id)
}

/// The transactions under way, by id.
pub struct TxnManager {
    next_id: u32,
    active: DashMap<u32, TxnEntry>,
}

pub struct TxnV {
    pub next_id: u32,
    pub active: Map<u32, TxnEntryV>,
}

impl View for TxnManager {
    type V = TxnV;

    closed spec fn view(&self) -> TxnV {
        TxnV { next_id: self.next_id, active: txns_in(self.active) }
    }
}

/// The id behind an id; behind the last comes zero.
pub open spec fn id_after(id: u32) -> u32 {
    if id == u32::MAX {
        0
    } else {
        (id + 1) as u32
    }
}

/// The transactions with a new one.
pub open spec fn begun(t: TxnV, db: u32) -> TxnV {
    TxnV {
        next_id: id_after(t.next_id),
        active: t.active.insert(t.next_id, TxnEntryV { db, journal: Seq::empty() }),
    }
}

/// The transactions with one more entry in the journal of one, where it is under way.
pub open spec fn recorded(t: TxnV, id: u32, op: UndoV) -> TxnV {
    if t.active.contains_key(id) {
        let e = t.active[id];
        TxnV {
            active: t.active.insert(id, TxnEntryV { db: e.db, journal: e.journal.push(op) }),
            ..t
        }
    } else {
        t
    }
}

/// The transactions without one.
pub open spec fn ended(t: TxnV, id: u32) -> TxnV {
    TxnV { active: t.active.remove(id), ..t }
}

/// The error of a transaction that is not under way.
pub open spec fn no_transaction(id: u32) -> ErrorV {
    ErrorV::Transaction("No active transaction "@ + text::nat_text(id as nat))
}

impl Default for TxnManager {
    fn default() -> (r: TxnManager)
        ensures
            r@.next_id == 1,
            r@.active == Map::<u32, TxnEntryV>::empty(),
    {
        TxnManager::new()
    }
}

impl TxnManager {
    pub fn new() -> (r: TxnManager)
        ensures
            r@.next_id == 1,
            r@.active == Map::<u32, TxnEntryV>::empty(),
    {
        TxnManager { next_id: 1, active: txns_new() }
    }

    /// Starts a transaction and returns its id.
    pub fn begin(&mut self, db_id: u32) -> (id: u32)
        ensures
            id == old(self)@.next_id,
            final(self)@ == begun(old(self)@, db_id),
    {
        let id: u32 = self.next_id;
        self.next_id = if id == u32::MAX {
            0
        } else {
            id + 1
        };
        let e = TxnEntry { db_id, journal: Vec::new() };
        assert(e@.journal =~= Seq::empty());
        txns_insert(&mut self.active, id, e);
        id
    }

    pub fn record(&mut self, tx_id: u32, op: UndoOp)
        ensures
            final(self)@ == recorded(old(self)@, tx_id, op@),
    {
        let ghost before = self@;
        match txns_remove(&mut self.active, tx_id) {
            Some(e) => {
                let mut e = e;
                let ghost jv = e.journal.deep_view();
                let ghost ov = op@;
                e.journal.push(op);
                assert(e.journal.deep_view() =~= jv.push(ov));
                txns_insert(&mut self.active, tx_id, e);
                assert(self@.active =~= recorded(before, tx_id, ov).active);
            },
            None => {
                assert(self@.active =~= before.active);
            },
        }
    }

    /// Ends a transaction; its writes stay.
    pub fn commit(&mut self, tx_id: u32) -> (r: Result<(), SkvsError>)
        ensures
            final(self)@ == ended(old(self)@, tx_id),
            match r {
                Ok(_) => old(self)@.active.contains_key(tx_id),
                Err(e) => !old(self)@.active.contains_key(tx_id) && e@ == no_transaction(tx_id),
            },
    {
        match txns_remove(&mut self.active, tx_id) {
            Some(_) => Ok(()),
            None => Err(not_active(tx_id)),
        }
    }

    /// Ends a transaction and hands out its journal.
    pub fn take(&mut self, tx_id: u32) -> (r: Option<TxnEntry>)
        ensures
            final(self)@ == ended(old(self)@, tx_id),
            match r {
                Some(e) => old(self)@.active.contains_key(tx_id) && e@ == old(self)@.active[tx_id],
                None => !old(self)@.active.contains_key(tx_id),
            },
    {
        txns_remove(&mut self.active, tx_id)
    }

    pub fn is_active(&self, tx_id: u32) -> (r: bool)
        ensures
            r == self@.active.contains_key(tx_id),
    {
        txns_has(&self.active, tx_id)
    }
}

fn not_active(tx_id: u32) -> (r: SkvsError)
    ensures
        r@ == no_transaction(tx_id),
{
    let n = text::word_text(tx_id as u64);
    SkvsError::Transaction(text::text2("No active transaction ", n.as_str()))
}

/// The state after one change was undone; the indexes of the table follow.
pub open spec fn undone(s: StateV, db: u32, op: UndoV) -> StateV {
    match op {
        UndoV::Insert { table, rowid } => match state::table_rows(s, db, table) {
            Some(m) => if m.contains_key(rowid) {
                let dropped = state::row_dropped(s, db, table, rowid);
                dml::fts_synced(index::indexed(dropped, db, table, m[rowid], rowid, IndexOpV::Delete), db, table, rowid, m[rowid], true)
            } else {
                s
            },
            None => s,
        },
        UndoV::Delete { table, rowid, row } => match state::table_rows(s, db, table) {
            Some(m) => {
                let stored = state::row_stored(s, db, table, rowid, row);
                dml::fts_synced(index::indexed(stored, db, table, row, rowid, IndexOpV::Insert), db, table, rowid, row, false)
            },
            None => s,
        },
        UndoV::Update { table, rowid, old_row } => match state::table_rows(s, db, table) {
            Some(m) => {
                let stored = state::row_stored(s, db, table, rowid, old_row);
                if m.contains_key(rowid) {
                    dml::fts_moved(
                        index::indexed(stored, db, table, old_row, rowid, IndexOpV::Update { old_row: m[rowid] }),
                        db,
                        table,
                        rowid,
                        m[rowid],
                        old_row,
                    )
                } else {
                    index::indexed(stored, db, table, old_row, rowid, IndexOpV::Update { old_row: Seq::empty() })
                }
            },
            None => s,
        },
    }
}

/// The state after the first `n` changes of a journal were undone, the last first.
pub open spec fn undone_upto(s: StateV, db: u32, ops: Seq<UndoV>, n: int) -> StateV
    decreases n,
{
    if n <= 0 || n > ops.len() {
        s
    } else {
        undone_upto(undone(s, db, ops[n - 1]), db, ops, n - 1)
    }
}

/// The state after a transaction was rolled back: all of its changes are undone and it is no
/// longer under way.
pub open spec fn rolled_back(s: StateV, id: u32) -> StateV {
    let e = s.txns.active[id];
    undone_upto(StateV { txns: ended(s.txns, id), ..s }, e.db, e.journal, e.journal.len() as int)
}

fn undo_insert(state: &mut KvsState, db_id: u32, table: &str, rowid: RowId)
    ensures
        final(state)@ == undone(old(state)@, db_id, UndoV::Insert { table: table@, rowid }),
{
    let present: bool = match state.get_table_store(db_id, table) {
        Some(store) => store.get(rowid).is_some(),
        None => false,
    };
    if present {
        match state.drop_row(db_id, table, rowid) {
            Some(row) => {
                let _ = index::update_indexes(state, db_id, table, &row, rowid, &IndexOp::Delete);
                dml::sync_fts_index(state, db_id, table, rowid, Some(&row), true);
            },
            None => {},
        }
    }
}

fn undo_delete(state: &mut KvsState, db_id: u32, table: &str, rowid: RowId, row: &Row)
    ensures
        final(state)@ == undone(old(state)@, db_id, UndoV::Delete { table: table@, rowid, row: row::cells(*row) }),
{
    if state.get_table_store(db_id, table).is_some() {
        state.store_row(db_id, table, rowid, row::row_copy(row));
        let _ = index::update_indexes(state, db_id, table, row, rowid, &IndexOp::Insert);
        dml::sync_fts_index(state, db_id, table, rowid, Some(row), false);
    }
}

fn undo_update(state: &mut KvsState, db_id: u32, table: &str, rowid: RowId, old_row: &Row)
    ensures
        final(state)@ == undone(
            old(state)@,
            db_id,
            UndoV::Update { table: table@, rowid, old_row: row::cells(*old_row) },
        ),
{
    let current: Option<Row> = match state.get_table_store(db_id, table) {
        Some(store) => store.get(rowid),
        None => {
            return;
        },
    };
    state.store_row(db_id, table, rowid, row::row_copy(old_row));
    match current {
        Some(c) => {
            let op = IndexOp::Update { old_row: row::row_copy(&c) };
            let _ = index::update_indexes(state, db_id, table, old_row, rowid, &op);
            dml::sync_fts_index_change(state, db_id, table, rowid, Some(&c), Some(old_row));
        },
        None => {
            let op = IndexOp::Update { old_row: row::row_new() };
            let _ = index::update_indexes(state, db_id, table, old_row, rowid, &op);
        },
    }
}

/// Undoes a journal, the last change first. Rows are again what they were, and the indexes of
/// their tables follow.
pub fn undo_all(state: &mut KvsState, db_id: u32, ops: Vec<UndoOp>)
    ensures
        final(state)@ == undone_upto(old(state)@, db_id, ops.deep_view(), ops@.len() as int),
{
    let ghost start = state@;
    let ghost ov = ops.deep_view();
    let mut n: usize = ops.len();
    while n > 0
        invariant
            n <= ops@.len(),
            ov == ops.deep_view(),
            undone_upto(state@, db_id, ov, n as int) == undone_upto(start, db_id, ov, ov.len() as int),
        decreases n,
    {
        assert(ov[n - 1] == ops@[n - 1]@);
        match &ops[n - 1] {
            UndoOp::Insert { table, rowid } => undo_insert(state, db_id, table.as_str(), *rowid),
            UndoOp::Delete { table, rowid, row } => undo_delete(state, db_id, table.as_str(), *rowid, row),
            UndoOp::Update { table, rowid, old_row } => undo_update(state, db_id, table.as_str(), *rowid, old_row),
        }
        n = n - 1;
    }
}

impl TxnManager {
    /// Undoes every change of a transaction and ends it.
    pub fn rollback(state: &mut KvsState, tx_id: u32) -> (r: Result<(), SkvsError>)
        ensures
            match r {
                Ok(_) => old(state)@.txns.active.contains_key(tx_id) && final(state)@ == rolled_back(
                    old(state)@,
                    tx_id,
                ),
                Err(e) => {
                    &&& !old(state)@.txns.active.contains_key(tx_id)
                    &&& e@ == no_transaction(tx_id)
                    &&& final(state)@ == old(state)@
                },
            },
    {
        match state.txns.take(tx_id) {
            Some(e) => {
                undo_all(state, e.db_id, e.journal);
                Ok(())
            },
            None => {
                assert(ended(old(state)@.txns, tx_id).active =~= old(state)@.txns.active);
                Err(not_active(tx_id))
            },
        }
    }
}

} // verus!

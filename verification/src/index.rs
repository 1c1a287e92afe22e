//! Secondary indexes: the ids of rows by the value of a column, in the order of the values.
use vstd::prelude::*;

use crate::assoc;
use crate::codec;
use crate::covering;
use crate::decimal;
use crate::error::SkvsError;
use crate::fts;
use crate::row;
use crate::row::RowV;
use crate::schema;
use crate::schema::{IndexDef, IndexV, Row, RowId, Value, ValueV};
use crate::state;
use crate::state::{KvsState, StateV};
use crate::store;
use crate::text;

verus! {

/// What an index holds: values in increasing order, each with the ids of the rows that have it.
pub type IndexMapV = Seq<(ValueV, Seq<u64>)>;

/// The index with an id under a value.
pub open spec fn index_with(s: IndexMapV, v: ValueV, id: u64) -> IndexMapV
    decreases s.len(),
{
    if s.len() == 0 || schema::value_order(v, s[0].0) < 0 {
        seq![(v, seq![id])] + s
    } else if schema::value_order(v, s[0].0) == 0 {
        seq![(s[0].0, fts::ids_with(s[0].1, id))] + s.drop_first()
    } else {
        seq![s[0]] + index_with(s.drop_first(), v, id)
    }
}

/// The index without an id under a value; a value without ids leaves.
pub open spec fn index_without(s: IndexMapV, v: ValueV, id: u64) -> IndexMapV
    decreases s.len(),
{
    if s.len() == 0 || schema::value_order(v, s[0].0) < 0 {
        s
    } else if schema::value_order(v, s[0].0) == 0 {
        if fts::ids_without(s[0].1, id).len() == 0 {
            s.drop_first()
        } else {
            seq![(s[0].0, fts::ids_without(s[0].1, id))] + s.drop_first()
        }
    } else {
        seq![s[0]] + index_without(s.drop_first(), v, id)
    }
}

/// The ids under a value.
pub open spec fn index_ids(s: IndexMapV, v: ValueV) -> Seq<u64>
    decreases s.len(),
{
    if s.len() == 0 || schema::value_order(v, s[0].0) < 0 {
        Seq::empty()
    } else if schema::value_order(v, s[0].0) == 0 {
        s[0].1
    } else {
        index_ids(s.drop_first(), v)
    }
}

/// One end of a range of values.
#[derive(Debug)]
pub enum Bound {
    Included(Value),
    Excluded(Value),
    Unbounded,
}

pub enum BoundV {
    Included(ValueV),
    Excluded(ValueV),
    Unbounded,
}

impl View for Bound {
    type V = BoundV;

    open spec fn view(&self) -> BoundV {
        match self {
            Bound::Included(v) => BoundV::Included(v@),
            Bound::Excluded(v) => BoundV::Excluded(v@),
            Bound::Unbounded => BoundV::Unbounded,
        }
    }
}

/// Whether a value is above the lower end of a range.
pub open spec fn above(lower: BoundV, v: ValueV) -> bool {
    match lower {
        BoundV::Included(b) => schema::value_order(v, b) >= 0,
        BoundV::Excluded(b) => schema::value_order(v, b) > 0,
        BoundV::Unbounded => true,
    }
}

/// Whether a value is below the upper end of a range.
pub open spec fn below(upper: BoundV, v: ValueV) -> bool {
    match upper {
        BoundV::Included(b) => schema::value_order(v, b) <= 0,
        BoundV::Excluded(b) => schema::value_order(v, b) < 0,
        BoundV::Unbounded => true,
    }
}

/// The ids of the first `n` values that lie in a range, in the order of the values.
pub open spec fn range_ids(s: IndexMapV, lower: BoundV, upper: BoundV, n: int) -> Seq<u64>
    decreases n,
{
    if n <= 0 || n > s.len() {
        Seq::empty()
    } else if above(lower, s[n - 1].0) && below(upper, s[n - 1].0) {
        range_ids(s, lower, upper, n - 1) + s[n - 1].1
    } else {
        range_ids(s, lower, upper, n - 1)
    }
}

pub proof fn lemma_index_at(s: IndexMapV, v: ValueV, id: u64, i: int)
    requires
        0 <= i <= s.len(),
        forall|j: int| 0 <= j < i ==> schema::value_order(v, (#[trigger] s[j]).0) > 0,
        i < s.len() ==> schema::value_order(v, s[i].0) <= 0,
    ensures
        index_with(s, v, id) == (if i < s.len() && schema::value_order(v, s[i].0) == 0 {
            s.update(i, (s[i].0, fts::ids_with(s[i].1, id)))
        } else {
            s.insert(i, (v, seq![id]))
        }),
        index_without(s, v, id) == (if i < s.len() && schema::value_order(v, s[i].0) == 0 {
            if fts::ids_without(s[i].1, id).len() == 0 {
                s.remove(i)
            } else {
                s.update(i, (s[i].0, fts::ids_without(s[i].1, id)))
            }
        } else {
            s
        }),
        index_ids(s, v) == (if i < s.len() && schema::value_order(v, s[i].0) == 0 {
            s[i].1
        } else {
            Seq::empty()
        }),
    decreases i,
{
    if i == 0 {
        if s.len() > 0 {
            assert(s.remove(0) =~= s.drop_first());
            assert(s.update(0, (s[0].0, fts::ids_with(s[0].1, id))) =~= seq![(s[0].0, fts::ids_with(s[0].1, id))]
                + s.drop_first());
            assert(s.update(0, (s[0].0, fts::ids_without(s[0].1, id))) =~= seq![
                (s[0].0, fts::ids_without(s[0].1, id)),
            ] + s.drop_first());
        }
        assert(s.insert(0, (v, seq![id])) =~= seq![(v, seq![id])] + s);
    } else {
        assert(schema::value_order(v, s[0].0) > 0);
        let d = s.drop_first();
        assert forall|j: int| 0 <= j < i - 1 implies schema::value_order(v, (#[trigger] d[j]).0) > 0 by {
            assert(d[j] == s[j + 1]);
        }
        lemma_index_at(d, v, id, i - 1);
        let h = seq![s[0]];
        assert(s.insert(i, (v, seq![id])) =~= h + d.insert(i - 1, (v, seq![id])));
        assert(h + d =~= s);
        if i < s.len() {
            let a = (s[i].0, fts::ids_with(s[i].1, id));
            let b = (s[i].0, fts::ids_without(s[i].1, id));
            assert(s.update(i, a) =~= h + d.update(i - 1, a));
            assert(s.update(i, b) =~= h + d.update(i - 1, b));
            assert(s.remove(i) =~= h + d.remove(i - 1));
        }
    }
}

/// Whether values stand in increasing order, each with at least one id, and none twice.
pub open spec fn tidy_index(s: IndexMapV) -> bool {
    &&& forall|i: int, j: int| 0 <= i < j < s.len() ==> schema::value_order((#[trigger] s[i]).0, (#[trigger] s[j]).0) < 0
    &&& forall|i: int| 0 <= i < s.len() ==> (#[trigger] s[i]).1.len() > 0 && s[i].1.no_duplicates()
}

/// Where a value stands, or would stand, in an index.
proof fn lemma_place(s: IndexMapV, v: ValueV) -> (i: int)
    ensures
        0 <= i <= s.len(),
        forall|j: int| 0 <= j < i ==> schema::value_order(v, (#[trigger] s[j]).0) > 0,
        i < s.len() ==> schema::value_order(v, s[i].0) <= 0,
    decreases s.len(),
{
    if s.len() == 0 || schema::value_order(v, s[0].0) <= 0 {
        0
    } else {
        let d = s.drop_first();
        let k = lemma_place(d, v);
        assert forall|j: int| 0 <= j < k + 1 implies schema::value_order(v, (#[trigger] s[j]).0) > 0 by {
            if j > 0 {
                assert(s[j] == d[j - 1]);
            }
        }
        k + 1
    }
}

/// An index stays tidy with one more id.
pub proof fn lemma_index_with_tidy(s: IndexMapV, v: ValueV, id: u64)
    requires
        tidy_index(s),
    ensures
        tidy_index(index_with(s, v, id)),
{
    let i = lemma_place(s, v);
    lemma_index_at(s, v, id, i);
    let t = index_with(s, v, id);
    if i < s.len() && schema::value_order(v, s[i].0) == 0 {
        assert forall|a: int, b: int| 0 <= a < b < t.len() implies schema::value_order((#[trigger] t[a]).0, (#[trigger] t[b]).0) < 0 by {
            assert(t[a].0 == s[a].0 && t[b].0 == s[b].0);
        }
        assert(fts::ids_with(s[i].1, id).no_duplicates());
    } else {
        assert forall|a: int, b: int| 0 <= a < b < t.len() implies schema::value_order((#[trigger] t[a]).0, (#[trigger] t[b]).0) < 0 by {
            if a < i && b < i {
                assert(t[a] == s[a] && t[b] == s[b]);
            } else if a < i && b == i {
                assert(t[a] == s[a]);
                schema::lemma_order_reverse(v, s[a].0);
            } else if a < i {
                assert(t[a] == s[a] && t[b] == s[b - 1]);
            } else if a == i {
                assert(t[b] == s[b - 1]);
                if b - 1 > i {
                    covering::lemma_below(v, s[i].0, s[b - 1].0);
                }
            } else {
                assert(t[a] == s[a - 1] && t[b] == s[b - 1]);
            }
        }
        assert forall|a: int| 0 <= a < t.len() implies (#[trigger] t[a]).1.len() > 0 && t[a].1.no_duplicates() by {
            if a < i {
                assert(t[a] == s[a]);
            } else if a > i {
                assert(t[a] == s[a - 1]);
            }
        }
    }
}

/// An index stays tidy without an id.
pub proof fn lemma_index_without_tidy(s: IndexMapV, v: ValueV, id: u64)
    requires
        tidy_index(s),
    ensures
        tidy_index(index_without(s, v, id)),
{
    let i = lemma_place(s, v);
    lemma_index_at(s, v, id, i);
    let t = index_without(s, v, id);
    if i < s.len() && schema::value_order(v, s[i].0) == 0 {
        fts::lemma_ids_without_tidy(s[i].1, id);
        if fts::ids_without(s[i].1, id).len() == 0 {
            assert forall|a: int, b: int| 0 <= a < b < t.len() implies schema::value_order((#[trigger] t[a]).0, (#[trigger] t[b]).0)
                < 0 by {
                let x = if a < i {
                    a
                } else {
                    a + 1
                };
                let y = if b < i {
                    b
                } else {
                    b + 1
                };
                assert(t[a] == s[x] && t[b] == s[y]);
            }
            assert forall|a: int| 0 <= a < t.len() implies (#[trigger] t[a]).1.len() > 0 && t[a].1.no_duplicates() by {
                let x = if a < i {
                    a
                } else {
                    a + 1
                };
                assert(t[a] == s[x]);
            }
        } else {
            assert forall|a: int, b: int| 0 <= a < b < t.len() implies schema::value_order((#[trigger] t[a]).0, (#[trigger] t[b]).0)
                < 0 by {
                assert(t[a].0 == s[a].0 && t[b].0 == s[b].0);
            }
        }
    }
}

proof fn lemma_ids_tidy(s: IndexMapV, v: ValueV)
    requires
        tidy_index(s),
    ensures
        index_ids(s, v).no_duplicates(),
{
    let i = lemma_place(s, v);
    lemma_index_at(s, v, 0, i);
    assert(i < s.len() ==> s[i].1.no_duplicates());
}

/// One secondary index, in memory.
pub struct IndexStore {
    entries: Vec<(Value, Vec<u64>)>,
}

pub open spec fn entry_views(s: Seq<(Value, Vec<u64>)>) -> IndexMapV {
    Seq::new(s.len(), |i: int| (s[i].0@, s[i].1@))
}

impl View for IndexStore {
    type V = IndexMapV;

    closed spec fn view(&self) -> IndexMapV {
        entry_views(self.entries@)
    }
}

impl IndexStore {
    #[verifier::type_invariant]
    spec fn kept_tidy(self) -> bool {
        tidy_index(self@)
    }

    pub fn new() -> (r: IndexStore)
        ensures
            r@.len() == 0,
    {
        IndexStore { entries: Vec::new() }
    }

    /// The first place whose value is not below `v`.
    fn place(entries: &Vec<(Value, Vec<u64>)>, v: &Value) -> (i: usize)
        ensures
            i <= entries@.len(),
            forall|j: int| 0 <= j < i ==> schema::value_order(v@, (#[trigger] entry_views(entries@)[j]).0) > 0,
            i < entries@.len() ==> schema::value_order(v@, entry_views(entries@)[i as int].0) <= 0,
    {
        let ghost s = entry_views(entries@);
        let mut i: usize = 0;
        while i < entries.len() && v.order(&entries[i].0) > 0
            invariant
                i <= entries@.len(),
                s == entry_views(entries@),
                forall|j: int| 0 <= j < i ==> schema::value_order(v@, (#[trigger] s[j]).0) > 0,
            decreases entries@.len() - i,
        {
            i = i + 1;
        }
        i
    }

    pub fn add(&mut self, v: Value, id: RowId)
        ensures
            final(self)@ == index_with(old(self)@, v@, id),
    {
        let ghost s = self@;
        let ghost vv = v@;
        proof {
            use_type_invariant(&*self);
            lemma_index_with_tidy(s, vv, id);
        }
        let mut entries: Vec<(Value, Vec<u64>)> = Vec::new();
        std::mem::swap(&mut entries, &mut self.entries);
        let i = IndexStore::place(&entries, &v);
        proof {
            lemma_index_at(s, vv, id, i as int);
        }
        if i < entries.len() && v.order(&entries[i].0) == 0 {
            let mut ids = fts::copy_ids(&entries[i].1);
            if !fts::contains_id(&ids, id) {
                ids.push(id);
            }
            let key = entries[i].0.clone();
            let ghost kv = key@;
            let ghost iv = ids@;
            entries.set(i, (key, ids));
            assert(entry_views(entries@) =~= s.update(i as int, (kv, iv)));
        } else {
            let mut ids: Vec<u64> = Vec::new();
            ids.push(id);
            let ghost iv = ids@;
            assert(iv =~= seq![id]);
            entries.insert(i, (v, ids));
            assert(entry_views(entries@) =~= s.insert(i as int, (vv, iv)));
        }
        self.entries = entries;
    }

    pub fn drop(&mut self, v: &Value, id: RowId)
        ensures
            final(self)@ == index_without(old(self)@, v@, id),
    {
        let ghost s = self@;
        proof {
            use_type_invariant(&*self);
            lemma_index_without_tidy(s, v@, id);
        }
        let mut entries: Vec<(Value, Vec<u64>)> = Vec::new();
        std::mem::swap(&mut entries, &mut self.entries);
        let i = IndexStore::place(&entries, v);
        proof {
            lemma_index_at(s, v@, id, i as int);
        }
        if i < entries.len() && v.order(&entries[i].0) == 0 {
            let ids = fts::drop_id(&entries[i].1, id);
            if ids.len() == 0 {
                entries.remove(i);
                assert(entry_views(entries@) =~= s.remove(i as int));
            } else {
                let key = entries[i].0.clone();
                let ghost kv = key@;
                let ghost iv = ids@;
                entries.set(i, (key, ids));
                assert(entry_views(entries@) =~= s.update(i as int, (kv, iv)));
            }
        }
        self.entries = entries;
    }

    /// The ids under a value, each once.
    pub fn ids(&self, v: &Value) -> (r: Vec<RowId>)
        ensures
            r@ == index_ids(self@, v@),
            r@.no_duplicates(),
    {
        let i = IndexStore::place(&self.entries, v);
        proof {
            use_type_invariant(self);
            lemma_index_at(self@, v@, 0, i as int);
            lemma_ids_tidy(self@, v@);
        }
        if i < self.entries.len() && v.order(&self.entries[i].0) == 0 {
            fts::copy_ids(&self.entries[i].1)
        } else {
            let r: Vec<u64> = Vec::new();
            assert(r@ =~= Seq::empty());
            r
        }
    }

    pub fn range(&self, lower: &Bound, upper: &Bound) -> (r: Vec<RowId>)
        ensures
            r@ == range_ids(self@, lower@, upper@, self@.len() as int),
    {
        let ghost s = self@;
        let mut out: Vec<u64> = Vec::new();
        let mut i: usize = 0;
        assert(out@ =~= Seq::empty());
        while i < self.entries.len()
            invariant
                i <= self.entries@.len(),
                s == entry_views(self.entries@),
                out@ == range_ids(s, lower@, upper@, i as int),
            decreases self.entries@.len() - i,
        {
            if is_above(lower, &self.entries[i].0) && is_below(upper, &self.entries[i].0) {
                let mut more = fts::copy_ids(&self.entries[i].1);
                out.append(&mut more);
            }
            i = i + 1;
        }
        out
    }
}

fn is_above(lower: &Bound, v: &Value) -> (r: bool)
    ensures
        r == above(lower@, v@),
{
    match lower {
        Bound::Included(b) => v.order(b) >= 0,
        Bound::Excluded(b) => v.order(b) > 0,
        Bound::Unbounded => true,
    }
}

fn is_below(upper: &Bound, v: &Value) -> (r: bool)
    ensures
        r == below(upper@, v@),
{
    match upper {
        Bound::Included(b) => v.order(b) <= 0,
        Bound::Excluded(b) => v.order(b) < 0,
        Bound::Unbounded => true,
    }
}

/// What happened to a row that the indexes have to follow.
pub enum IndexOp {
    Insert,
    Delete,
    Update { old_row: Row },
}

pub enum IndexOpV {
    Insert,
    Delete,
    Update { old_row: RowV },
}

impl View for IndexOp {
    type V = IndexOpV;

    open spec fn view(&self) -> IndexOpV {
        match self {
            IndexOp::Insert => IndexOpV::Insert,
            IndexOp::Delete => IndexOpV::Delete,
            IndexOp::Update { old_row } => IndexOpV::Update { old_row: row::cells(*old_row) },
        }
    }
}

/// A text that tells values of different kinds apart.
pub open spec fn key_text(v: ValueV) -> Seq<char> {
    match v {
        ValueV::Null => "n:"@,
        ValueV::Integer(i) => "i:"@ + text::int_text(i as int),
        ValueV::Real(b) => "f:"@ + decimal::real_text(b),
        ValueV::Text(s) => "t:"@ + s,
        ValueV::Blob(b) => "b:"@ + codec::hex_text(b),
    }
}

/// A text that tells values of different kinds apart.
pub fn value_to_key_string(v: &Value) -> (r: String)
    ensures
        r@ == key_text(v@),
{
    match v {
        Value::Null => "n:".to_owned(),
        Value::Integer(i) => {
            let t = text::int_to_text(*i);
            text::text2("i:", t.as_str())
        },
        Value::Real(x) => {
            let t = decimal::real_to_text(*x);
            text::text2("f:", t.as_str())
        },
        Value::Text(s) => text::text2("t:", s.as_str()),
        Value::Blob(b) => {
            let t = codec::hex_encode(b);
            text::text2("b:", t.as_str())
        },
    }
}

/// The value under which an index keeps a row: that of its first column.
pub open spec fn indexed_value(columns: Seq<Seq<char>>, row: RowV) -> Option<ValueV> {
    if columns.len() == 0 {
        None
    } else {
        assoc::assoc_get(row, columns[0])
    }
}

fn index_value(idx: &IndexDef, row: &Row) -> (r: Option<Value>)
    ensures
        r.deep_view() == indexed_value(idx@.columns, row::cells(*row)),
{
    if idx.columns.len() == 0 {
        return None;
    }
    assert(idx@.columns[0] == idx.columns@[0]@);
    match row::row_get(row, idx.columns[0].as_str()) {
        Some(v) => Some(v.clone()),
        None => None,
    }
}

/// The state with a row in one index of its table.
pub open spec fn added_to_index(s: StateV, db: u32, table: Seq<char>, idx: IndexV, row: RowV, id: u64) -> StateV {
    match indexed_value(idx.columns, row) {
        Some(v) => state::index_set(s, db, table, idx.name, index_with(state::index_of(s, db, table, idx.name), v, id)),
        None => s,
    }
}

/// The state without a row in one index of its table.
pub open spec fn removed_from_index(s: StateV, db: u32, table: Seq<char>, idx: IndexV, row: RowV, id: u64) -> StateV {
    match indexed_value(idx.columns, row) {
        Some(v) => state::index_set(s, db, table, idx.name, index_without(state::index_of(s, db, table, idx.name), v, id)),
        None => s,
    }
}

fn add_to_index(state: &mut KvsState, db_id: u32, table: &str, idx: &IndexDef, row: &Row, rowid: RowId)
    ensures
        final(state)@ == added_to_index(old(state)@, db_id, table@, idx@, row::cells(*row), rowid),
{
    match index_value(idx, row) {
        Some(v) => {
            let store = state.get_or_create_index_store(db_id, table, idx.name.as_str());
            store.add(v, rowid);
        },
        None => {},
    }
}

fn remove_from_index(state: &mut KvsState, db_id: u32, table: &str, idx: &IndexDef, row: &Row, rowid: RowId)
    ensures
        final(state)@ == removed_from_index(old(state)@, db_id, table@, idx@, row::cells(*row), rowid),
{
    match index_value(idx, row) {
        Some(v) => {
            let store = state.get_or_create_index_store(db_id, table, idx.name.as_str());
            store.drop(&v, rowid);
        },
        None => {},
    }
}

/// The state after the first `n` indexes followed a change of a row.
pub open spec fn indexes_followed(
    s: StateV,
    db: u32,
    table: Seq<char>,
    indices: Seq<IndexV>,
    n: int,
    row: RowV,
    id: u64,
    op: IndexOpV,
) -> StateV
    decreases n,
{
    if n <= 0 || n > indices.len() {
        s
    } else {
        let p = indexes_followed(s, db, table, indices, n - 1, row, id, op);
        let idx = indices[n - 1];
        match op {
            IndexOpV::Insert => added_to_index(p, db, table, idx, row, id),
            IndexOpV::Delete => removed_from_index(p, db, table, idx, row, id),
            IndexOpV::Update { old_row } => added_to_index(
                removed_from_index(p, db, table, idx, old_row, id),
                db,
                table,
                idx,
                row,
                id,
            ),
        }
    }
}

/// The state after every index of a table followed a change of a row.
pub open spec fn indexed(s: StateV, db: u32, table: Seq<char>, row: RowV, id: u64, op: IndexOpV) -> StateV {
    match state::table_schema(s, db, table) {
        Some(d) => indexes_followed(s, db, table, d.indices, d.indices.len() as int, row, id, op),
        None => s,
    }
}

/// Keeps the indexes of a table in step with a change of a row.
pub fn update_indexes(state: &mut KvsState, db_id: u32, table: &str, row: &Row, rowid: RowId, op: &IndexOp) -> (r: Result<(), SkvsError>)
    ensures
        r is Ok,
        final(state)@ == indexed(old(state)@, db_id, table@, row::cells(*row), rowid, op@),
{
    let indices: Vec<IndexDef> = match state.get_schema(db_id, table) {
        Some(d) => {
            let c = d.indices.clone();
            assert(c.deep_view() =~= d.indices.deep_view());
            c
        },
        None => {
            return Ok(());
        },
    };
    let ghost start = state@;
    let ghost iv = indices.deep_view();
    let ghost rv = row::cells(*row);
    let mut i: usize = 0;
    while i < indices.len()
        invariant
            i <= indices@.len(),
            iv == indices.deep_view(),
            rv == row::cells(*row),
            state@ == indexes_followed(start, db_id, table@, iv, i as int, rv, rowid, op@),
        decreases indices@.len() - i,
    {
        assert(iv[i as int] == indices@[i as int]@);
        match op {
            IndexOp::Insert => add_to_index(state, db_id, table, &indices[i], row, rowid),
            IndexOp::Delete => remove_from_index(state, db_id, table, &indices[i], row, rowid),
            IndexOp::Update { old_row } => {
                remove_from_index(state, db_id, table, &indices[i], old_row, rowid);
                add_to_index(state, db_id, table, &indices[i], row, rowid);
            },
        }
        i = i + 1;
    }
    Ok(())
}

/// What an index over the first `n` rows holds.
pub open spec fn built_index(rows: Seq<(u64, RowV)>, columns: Seq<Seq<char>>, n: int) -> IndexMapV
    decreases n,
{
    if n <= 0 || n > rows.len() {
        Seq::empty()
    } else {
        match indexed_value(columns, rows[n - 1].1) {
            Some(v) => index_with(built_index(rows, columns, n - 1), v, rows[n - 1].0),
            None => built_index(rows, columns, n - 1),
        }
    }
}

/// The state with an index made anew from the rows of its table.
pub open spec fn index_rebuilt(s: StateV, db: u32, table: Seq<char>, idx: IndexV) -> StateV {
    match state::table_rows(s, db, table) {
        Some(m) => state::index_set(
            s,
            db,
            table,
            idx.name,
            built_index(store::row_list(m), idx.columns, store::row_list(m).len() as int),
        ),
        None => s,
    }
}

/// Makes an index anew from the rows of its table.
pub fn rebuild_index(state: &mut KvsState, db_id: u32, table: &str, idx: &IndexDef)
    ensures
        final(state)@ == index_rebuilt(old(state)@, db_id, table@, idx@),
{
    let rows: Vec<(RowId, Row)> = match state.get_table_store(db_id, table) {
        Some(store) => store.entries(),
        None => {
            return;
        },
    };
    let ghost rv = store::row_pairs(rows@);
    let mut built = IndexStore::new();
    let mut i: usize = 0;
    assert(built@ =~= Seq::empty());
    while i < rows.len()
        invariant
            i <= rows@.len(),
            rv == store::row_pairs(rows@),
            built@ == built_index(rv, idx@.columns, i as int),
        decreases rows@.len() - i,
    {
        assert(rv[i as int] == (rows@[i as int].0, row::cells(rows@[i as int].1)));
        match index_value(idx, &rows[i].1) {
            Some(v) => built.add(v, rows[i].0),
            None => {},
        }
        i = i + 1;
    }
    let store = state.get_or_create_index_store(db_id, table, idx.name.as_str());
    *store = built;
}

/// Removes an index from memory.
pub fn drop_index_store(state: &mut KvsState, db_id: u32, table: &str, index_name: &str)
    ensures
        final(state)@ == state::index_dropped(old(state)@, db_id, table@, index_name@),
{
    state.drop_index_store(db_id, table, index_name);
}

/// The ids of the rows that have a value, by an index.
pub fn lookup_index(state: &KvsState, db_id: u32, table: &str, index_name: &str, value: &Value) -> (r: Vec<RowId>)
    ensures
        r@ == index_ids(state::index_of(state@, db_id, table@, index_name@), value@),
        r@.no_duplicates(),
{
    let key = state::index_name(table, index_name);
    match state.indexes.get(db_id, key.as_str()) {
        Some(store) => store.ids(value),
        None => {
            let r: Vec<u64> = Vec::new();
            assert(r@ =~= Seq::empty());
            r
        },
    }
}

/// Whether a range is one that can be asked for: its lower end is not above its upper end, and
/// the two are not the same excluded value.
pub open spec fn valid_range(lower: BoundV, upper: BoundV) -> bool {
    match (lower, upper) {
        (BoundV::Unbounded, _) => true,
        (_, BoundV::Unbounded) => true,
        (BoundV::Included(a), BoundV::Included(b)) => schema::value_order(a, b) <= 0,
        (BoundV::Included(a), BoundV::Excluded(b)) => schema::value_order(a, b) <= 0,
        (BoundV::Excluded(a), BoundV::Included(b)) => schema::value_order(a, b) <= 0,
        (BoundV::Excluded(a), BoundV::Excluded(b)) => schema::value_order(a, b) < 0,
    }
}

/// The ids of the rows whose value lies in a range, by an index, in the order of the values.
pub fn range_lookup(state: &KvsState, db_id: u32, table: &str, index_name: &str, lower: &Bound, upper: &Bound) -> (r: Vec<RowId>)
    requires
        valid_range(lower@, upper@),
    ensures
        ({
            let m = state::index_of(state@, db_id, table@, index_name@);
            r@ == range_ids(m, lower@, upper@, m.len() as int)
        }),
{
    let key = state::index_name(table, index_name);
    match state.indexes.get(db_id, key.as_str()) {
        Some(store) => store.range(lower, upper),
        None => {
            let r: Vec<u64> = Vec::new();
            assert(r@ =~= Seq::empty());
            r
        },
    }
}

proof fn lemma_index_fields(s: StateV, db: u32, table: Seq<char>, indices: Seq<IndexV>, n: int, row: RowV, id: u64, op: IndexOpV)
    ensures
        ({
            let t = indexes_followed(s, db, table, indices, n, row, id, op);
            t == (StateV { indexes: t.indexes, ..s })
        }),
    decreases n,
{
    if n > 0 && n <= indices.len() {
        lemma_index_fields(s, db, table, indices, n - 1, row, id, op);
    }
}

/// Indexes that follow a change of a row are all that changes.
pub proof fn lemma_indexed_fields(s: StateV, db: u32, table: Seq<char>, row: RowV, id: u64, op: IndexOpV)
    ensures
        ({
            let t = indexed(s, db, table, row, id, op);
            t == (StateV { indexes: t.indexes, ..s })
        }),
{
    match state::table_schema(s, db, table) {
        Some(d) => lemma_index_fields(s, db, table, d.indices, d.indices.len() as int, row, id, op),
        None => {},
    }
}

} // verus!

//! The concurrent maps that hold rows and raw values.
use dashmap::DashMap;
use indexmap::IndexMap;
use vstd::prelude::*;

use crate::fts;
use crate::row;
use crate::row::RowV;
use crate::schema::{Row, RowId, Value, ValueV};

verus! {

/// The concurrent map of the dashmap crate.
#[verifier::external_type_specification]
#[verifier::external_body]
#[verifier::reject_recursive_types(K)]
#[verifier::reject_recursive_types(V)]
#[verifier::reject_recursive_types(S)]
pub struct ExDashMap<K, V, S>(DashMap<K, V, S>);

/// What a map of rows holds.
pub uninterp spec fn rows_in(m: DashMap<u64, IndexMap<String, Value>>) -> Map<u64, Seq<(Seq<char>, ValueV)>>;

/// What a map of raw values holds.
pub uninterp spec fn raw_in(m: DashMap<Vec<u8>, Vec<u8>>) -> Map<Seq<u8>, Seq<u8>>;

/// `DashMap::new`: the map is empty.
#[verifier::external_body]
fn rows_new() -> (m: DashMap<u64, Row>)
    ensures
        (rows_in(m) == Map::<u64, RowV>::empty()),
{
    DashMap::new()
}

/// `DashMap::get`: a copy of the row under the id, where there is one.
#[verifier::external_body]
fn rows_get(m: &DashMap<u64, Row>, id: u64) -> (r: Option<Row>)
    ensures
        match r {
            Some(row) => rows_in(*m).contains_key(id) && row::cells(row) == rows_in(*m)[id],
            None => !rows_in(*m).contains_key(id),
        },
{
    m.get(&id).map(|e| e.value().clone())
}

/// `DashMap::insert`: the row stands under the id, in place of an earlier one.
#[verifier::external_body]
fn rows_insert(m: &mut DashMap<u64, Row>, id: u64, row: Row)
    ensures
        rows_in(*final(m)) == rows_in(*old(m)).insert(id, row::cells(row)),
{
    m.insert(id, row);
}

/// `DashMap::remove`: the row under the id leaves and is handed out, where there is one.
#[verifier::external_body]
fn rows_remove(m: &mut DashMap<u64, Row>, id: u64) -> (r: Option<Row>)
    ensures
        rows_in(*final(m)) == rows_in(*old(m)).remove(id),
        match r {
            Some(row) => rows_in(*old(m)).contains_key(id) && row::cells(row) == rows_in(*old(m))[id],
            None => !rows_in(*old(m)).contains_key(id),
        },
{
    m.remove(&id).map(|e| e.1)
}

/// `DashMap::iter`: each key comes once. In which order is left unsaid: it follows a hasher
/// that each map seeds.
#[verifier::external_body]
fn rows_keys(m: &DashMap<u64, Row>) -> (r: Vec<u64>)
    ensures
        r@.no_duplicates(),
        forall|k: u64| #[trigger] r@.contains(k) <==> rows_in(*m).contains_key(k),
{
    m.iter().map(|e| *e.key()).collect()
}

/// `DashMap::new`: the map is empty.
#[verifier::external_body]
fn raw_new() -> (m: DashMap<Vec<u8>, Vec<u8>>)
    ensures
        (raw_in(m) == Map::<Seq<u8>, Seq<u8>>::empty()),
{
    DashMap::new()
}

/// `DashMap::get`: a copy of the value under the key, where there is one.
#[verifier::external_body]
fn raw_get(m: &DashMap<Vec<u8>, Vec<u8>>, k: &Vec<u8>) -> (r: Option<Vec<u8>>)
    ensures
        match r {
            Some(v) => raw_in(*m).contains_key(k@) && v@ == raw_in(*m)[k@],
            None => !raw_in(*m).contains_key(k@),
        },
{
    m.get(k).map(|e| e.value().clone())
}

/// `DashMap::insert`: the value stands under the key, in place of an earlier one.
#[verifier::external_body]
fn raw_insert(m: &mut DashMap<Vec<u8>, Vec<u8>>, k: Vec<u8>, v: Vec<u8>)
    ensures
        raw_in(*final(m)) == raw_in(*old(m)).insert(k@, v@),
{
    m.insert(k, v);
}

/// `DashMap::remove`: what is under the key leaves and is handed out, where there is something.
#[verifier::external_body]
fn raw_remove(m: &mut DashMap<Vec<u8>, Vec<u8>>, k: &Vec<u8>) -> (r: Option<Vec<u8>>)
    ensures
        raw_in(*final(m)) == raw_in(*old(m)).remove(k@),
        match r {
            Some(v) => raw_in(*old(m)).contains_key(k@) && v@ == raw_in(*old(m))[k@],
            None => !raw_in(*old(m)).contains_key(k@),
        },
{
    m.remove(k).map(|e| e.1)
}

/// `DashMap::iter`: each key comes once. In which order is left unsaid: it follows a hasher
/// that each map seeds.
#[verifier::external_body]
fn raw_keys(m: &DashMap<Vec<u8>, Vec<u8>>) -> (r: Vec<Vec<u8>>)
    ensures
        forall|i: int, j: int| 0 <= i < j < r@.len() ==> (#[trigger] r@[i])@ != (#[trigger] r@[j])@,
        forall|i: int| 0 <= i < r@.len() ==> raw_in(*m).contains_key((#[trigger] r@[i])@),
        forall|k: Seq<u8>| #[trigger]
            raw_in(*m).contains_key(k) ==> exists|i: int| 0 <= i < r@.len() && (#[trigger] r@[i])@ == k,
{
    m.iter().map(|e| e.key().clone()).collect()
}

/// The ids of a set from `i` up, in order.
pub open spec fn ids_from(d: Set<u64>, i: int) -> Seq<u64>
    decreases u64::MAX + 1 - i,
{
    if i < 0 || i > u64::MAX {
        Seq::empty()
    } else if d.contains(i as u64) {
        seq![i as u64] + ids_from(d, i + 1)
    } else {
        ids_from(d, i + 1)
    }
}

/// The ids of a table's rows, in order.
pub open spec fn row_ids(m: Map<u64, RowV>) -> Seq<u64> {
    ids_from(m.dom(), 0)
}

/// The rows of a table with their ids, in the order of the ids.
pub open spec fn row_list(m: Map<u64, RowV>) -> Seq<(u64, RowV)> {
    Seq::new(row_ids(m).len(), |i: int| (row_ids(m)[i], m[row_ids(m)[i]]))
}

pub open spec fn increasing(s: Seq<u64>) -> bool {
    forall|i: int, j: int| 0 <= i < j < s.len() ==> (#[trigger] s[i]) < (#[trigger] s[j])
}

/// A list in increasing order that holds exactly the ids from `i` up is the list of them.
pub proof fn lemma_ids(s: Seq<u64>, d: Set<u64>, i: int)
    requires
        0 <= i,
        increasing(s),
        forall|k: u64| #[trigger] s.contains(k) <==> d.contains(k) && i <= k,
    ensures
        s == ids_from(d, i),
    decreases u64::MAX + 1 - i,
{
    if i > u64::MAX {
        if s.len() > 0 {
            assert(s.contains(s[0]));
        }
        assert(s =~= Seq::empty());
    } else if d.contains(i as u64) {
        assert(s.contains(i as u64));
        let at = choose|x: int| 0 <= x < s.len() && s[x] == i as u64;
        if at > 0 {
            assert(s.contains(s[0]));
            assert(s[0] < s[at]);
        }
        assert(s[0] == i as u64);
        let t = s.drop_first();
        assert(increasing(t)) by {
            assert forall|a: int, b: int| 0 <= a < b < t.len() implies (#[trigger] t[a]) < (#[trigger] t[b]) by {
                assert(t[a] == s[a + 1]);
                assert(t[b] == s[b + 1]);
            }
        }
        assert forall|k: u64| #[trigger] t.contains(k) <==> d.contains(k) && i + 1 <= k by {
            if t.contains(k) {
                let x = choose|x: int| 0 <= x < t.len() && t[x] == k;
                assert(s[x + 1] == k);
                assert(s.contains(k));
                assert(s[0] < s[x + 1]);
            }
            if d.contains(k) && i + 1 <= k {
                assert(s.contains(k));
                let x = choose|x: int| 0 <= x < s.len() && s[x] == k;
                assert(t[x - 1] == k);
            }
        }
        lemma_ids(t, d, i + 1);
        assert(s =~= seq![i as u64] + t);
    } else {
        assert forall|k: u64| #[trigger] s.contains(k) <==> d.contains(k) && i + 1 <= k by {}
        lemma_ids(s, d, i + 1);
    }
}

/// The list of the ids from `i` up is in increasing order and holds exactly them.
pub proof fn lemma_ids_from(d: Set<u64>, i: int)
    requires
        0 <= i,
    ensures
        increasing(ids_from(d, i)),
        forall|k: u64| #[trigger] ids_from(d, i).contains(k) <==> d.contains(k) && i <= k,
    decreases u64::MAX + 1 - i,
{
    if i <= u64::MAX {
        lemma_ids_from(d, i + 1);
        let t = ids_from(d, i + 1);
        if d.contains(i as u64) {
            let s = seq![i as u64] + t;
            assert(ids_from(d, i) == s);
            assert forall|a: int, b: int| 0 <= a < b < s.len() implies (#[trigger] s[a]) < (#[trigger] s[b]) by {
                assert(s[b] == t[b - 1]);
                assert(t.contains(t[b - 1]));
                if a > 0 {
                    assert(s[a] == t[a - 1]);
                }
            }
            assert forall|k: u64| #[trigger] s.contains(k) <==> d.contains(k) && i <= k by {
                if s.contains(k) {
                    let x = choose|x: int| 0 <= x < s.len() && s[x] == k;
                    if x > 0 {
                        assert(t[x - 1] == k);
                        assert(t.contains(k));
                    }
                }
                if d.contains(k) && i <= k {
                    if k == i {
                        assert(s[0] == k);
                    } else {
                        assert(t.contains(k));
                        let x = choose|x: int| 0 <= x < t.len() && t[x] == k;
                        assert(s[x + 1] == k);
                    }
                }
            }
        }
    }
}

/// Puts an id into a list in increasing order, at its place.
fn insert_sorted(v: &mut Vec<u64>, x: u64)
    requires
        increasing(old(v)@),
        !old(v)@.contains(x),
    ensures
        increasing(final(v)@),
        forall|k: u64| #[trigger] final(v)@.contains(k) <==> old(v)@.contains(k) || k == x,
{
    let mut i: usize = 0;
    while i < v.len() && v[i] < x
        invariant
            i <= v@.len(),
            forall|j: int| 0 <= j < i ==> v@[j] < x,
            v@ == old(v)@,
        decreases v@.len() - i,
    {
        i = i + 1;
    }
    let ghost before = v@;
    v.insert(i, x);
    proof {
        let s = v@;
        assert(s =~= before.insert(i as int, x));
        if i < before.len() {
            assert(before.contains(before[i as int]));
        }
        assert forall|a: int, b: int| 0 <= a < b < s.len() implies (#[trigger] s[a]) < (#[trigger] s[b]) by {
            if a < i && b < i {
                assert(before[a] < before[b]);
            } else if a < i && b == i {
            } else if a < i {
                assert(before[a] < before[b - 1]);
            } else if a == i {
                if b - 1 > i {
                    assert(before[i as int] < before[b - 1]);
                }
            } else {
                assert(before[a - 1] < before[b - 1]);
            }
        }
        assert forall|k: u64| #[trigger] s.contains(k) <==> before.contains(k) || k == x by {
            if s.contains(k) {
                let y = choose|y: int| 0 <= y < s.len() && s[y] == k;
                if y < i {
                    assert(before[y] == k);
                } else if y > i {
                    assert(before[y - 1] == k);
                }
            }
            if before.contains(k) {
                let y = choose|y: int| 0 <= y < before.len() && before[y] == k;
                if y < i {
                    assert(s[y] == k);
                } else {
                    assert(s[y + 1] == k);
                }
            }
            if k == x {
                assert(s[i as int] == x);
            }
        }
    }
}

/// The rows of one table, by id.
pub struct RowStore {
    rows: DashMap<u64, Row>,
}

impl View for RowStore {
    type V = Map<u64, RowV>;

    closed spec fn view(&self) -> Map<u64, RowV> {
        rows_in(self.rows)
    }
}

impl RowStore {
    pub fn new() -> (r: RowStore)
        ensures
            r@ == Map::<u64, RowV>::empty(),
    {
        RowStore { rows: rows_new() }
    }

    pub fn get(&self, id: RowId) -> (r: Option<Row>)
        ensures
            match r {
                Some(row) => self@.contains_key(id) && row::cells(row) == self@[id],
                None => !self@.contains_key(id),
            },
    {
        rows_get(&self.rows, id)
    }

    pub fn insert(&mut self, id: RowId, row: Row)
        ensures
            final(self)@ == old(self)@.insert(id, row::cells(row)),
    {
        rows_insert(&mut self.rows, id, row)
    }

    pub fn remove(&mut self, id: RowId) -> (r: Option<Row>)
        ensures
            final(self)@ == old(self)@.remove(id),
            match r {
                Some(row) => old(self)@.contains_key(id) && row::cells(row) == old(self)@[id],
                None => !old(self)@.contains_key(id),
            },
    {
        rows_remove(&mut self.rows, id)
    }

    /// The ids of the rows, in order.
    pub fn ids(&self) -> (r: Vec<RowId>)
        ensures
            r@ == row_ids(self@),
    {
        let keys = rows_keys(&self.rows);
        let mut out: Vec<u64> = Vec::new();
        let mut i: usize = 0;
        while i < keys.len()
            invariant
                i <= keys@.len(),
                keys@.no_duplicates(),
                increasing(out@),
                forall|k: u64| #[trigger] out@.contains(k) <==> keys@.take(i as int).contains(k),
            decreases keys@.len() - i,
        {
            let ghost t = keys@.take(i as int);
            let ghost u = keys@.take(i + 1);
            proof {
                assert(u =~= t.push(keys@[i as int]));
                if out@.contains(keys@[i as int]) {
                    assert(t.contains(keys@[i as int]));
                    let x = choose|x: int| 0 <= x < t.len() && t[x] == keys@[i as int];
                    assert(keys@[x] == keys@[i as int]);
                }
            }
            insert_sorted(&mut out, keys[i]);
            proof {
                assert forall|k: u64| #[trigger] out@.contains(k) <==> u.contains(k) by {
                    if u.contains(k) {
                        let x = choose|x: int| 0 <= x < u.len() && u[x] == k;
                        if x < i {
                            assert(t[x] == k);
                        }
                    }
                    if t.contains(k) {
                        let x = choose|x: int| 0 <= x < t.len() && t[x] == k;
                        assert(u[x] == k);
                    }
                    if k == keys@[i as int] {
                        assert(u[i as int] == k);
                    }
                }
            }
            i = i + 1;
        }
        proof {
            assert(keys@.take(i as int) =~= keys@);
            lemma_ids(out@, self@.dom(), 0);
        }
        out
    }

    /// The rows whose id is in a list, in the order of the ids.
    pub fn entries_among(&self, wanted: &Vec<RowId>) -> (r: Vec<(RowId, Row)>)
        ensures
            row_pairs(r@) == row_list(self@.restrict(wanted@.to_set())),
    {
        let ghost m = self@.restrict(wanted@.to_set());
        let mut ids: Vec<u64> = Vec::new();
        let mut i: usize = 0;
        while i < wanted.len()
            invariant
                i <= wanted@.len(),
                increasing(ids@),
                forall|k: u64| #[trigger]
                    ids@.contains(k) <==> self@.contains_key(k) && wanted@.take(i as int).contains(k),
            decreases wanted@.len() - i,
        {
            let x: u64 = wanted[i];
            let ghost t = wanted@.take(i as int);
            let ghost u = wanted@.take(i + 1);
            proof {
                assert(u =~= t.push(x));
                assert forall|k: u64| #[trigger] u.contains(k) <==> t.contains(k) || k == x by {
                    if t.contains(k) {
                        let y = choose|y: int| 0 <= y < t.len() && t[y] == k;
                        assert(u[y] == k);
                    }
                    if u.contains(k) {
                        let y = choose|y: int| 0 <= y < u.len() && u[y] == k;
                        if y < i {
                            assert(t[y] == k);
                        }
                    }
                    assert(u[i as int] == x);
                }
            }
            if !fts::contains_id(&ids, x) {
                match self.get(x) {
                    Some(_) => {
                        insert_sorted(&mut ids, x);
                    },
                    None => {},
                }
            }
            i = i + 1;
        }
        proof {
            assert(wanted@.take(i as int) =~= wanted@);
            assert forall|k: u64| #[trigger] ids@.contains(k) <==> m.dom().contains(k) && 0 <= k by {}
            lemma_ids(ids@, m.dom(), 0);
        }
        let mut out: Vec<(u64, Row)> = Vec::new();
        let mut j: usize = 0;
        while j < ids.len()
            invariant
                j <= ids@.len(),
                m == self@.restrict(wanted@.to_set()),
                ids@ == row_ids(m),
                forall|k: u64| #[trigger] ids@.contains(k) <==> m.dom().contains(k) && 0 <= k,
                row_pairs(out@) == row_list(m).take(j as int),
            decreases ids@.len() - j,
        {
            assert(ids@.contains(ids@[j as int]));
            let ghost before = row_pairs(out@);
            let ghost all = row_list(m);
            match self.get(ids[j]) {
                Some(row) => {
                    let ghost rv = row::cells(row);
                    out.push((ids[j], row));
                    assert(row_pairs(out@) =~= before.push((ids@[j as int], rv)));
                },
                None => {},
            }
            assert(all[j as int] == (ids@[j as int], m[ids@[j as int]]));
            assert(all.take(j + 1) =~= all.take(j as int).push(all[j as int]));
            j = j + 1;
        }
        assert(row_pairs(out@) =~= row_list(m));
        out
    }

    /// The rows with their ids, in the order of the ids.
    pub fn entries(&self) -> (r: Vec<(RowId, Row)>)
        ensures
            row_pairs(r@) == row_list(self@),
    {
        let ids = self.ids();
        let mut out: Vec<(u64, Row)> = Vec::new();
        let mut i: usize = 0;
        proof {
            lemma_ids_from(self@.dom(), 0);
        }
        while i < ids.len()
            invariant
                i <= ids@.len(),
                ids@ == row_ids(self@),
                forall|k: u64| #[trigger] ids@.contains(k) <==> self@.dom().contains(k) && 0 <= k,
                row_pairs(out@) == row_list(self@).take(i as int),
            decreases ids@.len() - i,
        {
            assert(ids@.contains(ids@[i as int]));
            let ghost before = row_pairs(out@);
            let ghost all = row_list(self@);
            match self.get(ids[i]) {
                Some(row) => {
                    let ghost rv = row::cells(row);
                    out.push((ids[i], row));
                    assert(row_pairs(out@) =~= before.push((ids@[i as int], rv)));
                },
                None => {},
            }
            assert(all[i as int] == (ids@[i as int], self@[ids@[i as int]]));
            assert(all.take(i + 1) =~= all.take(i as int).push(all[i as int]));
            i = i + 1;
        }
        assert(row_pairs(out@) =~= row_list(self@));
        out
    }
}

/// The views of a list of rows with their ids.
pub open spec fn row_pairs(s: Seq<(u64, Row)>) -> Seq<(u64, RowV)> {
    Seq::new(s.len(), |i: int| (s[i].0, row::cells(s[i].1)))
}

/// The raw values of one table, by key.
pub struct RawStore {
    values: DashMap<Vec<u8>, Vec<u8>>,
}

impl View for RawStore {
    type V = Map<Seq<u8>, Seq<u8>>;

    closed spec fn view(&self) -> Map<Seq<u8>, Seq<u8>> {
        raw_in(self.values)
    }
}

impl RawStore {
    pub fn new() -> (r: RawStore)
        ensures
            r@ == Map::<Seq<u8>, Seq<u8>>::empty(),
    {
        RawStore { values: raw_new() }
    }

    pub fn get(&self, k: &Vec<u8>) -> (r: Option<Vec<u8>>)
        ensures
            match r {
                Some(v) => self@.contains_key(k@) && v@ == self@[k@],
                None => !self@.contains_key(k@),
            },
    {
        raw_get(&self.values, k)
    }

    pub fn insert(&mut self, k: Vec<u8>, v: Vec<u8>)
        ensures
            final(self)@ == old(self)@.insert(k@, v@),
    {
        raw_insert(&mut self.values, k, v)
    }

    pub fn remove(&mut self, k: &Vec<u8>) -> (r: Option<Vec<u8>>)
        ensures
            final(self)@ == old(self)@.remove(k@),
            match r {
                Some(v) => old(self)@.contains_key(k@) && v@ == old(self)@[k@],
                None => !old(self)@.contains_key(k@),
            },
    {
        raw_remove(&mut self.values, k)
    }

    /// The keys, each once, in no particular order.
    pub fn keys(&self) -> (r: Vec<Vec<u8>>)
        ensures
            forall|i: int, j: int| 0 <= i < j < r@.len() ==> (#[trigger] r@[i])@ != (#[trigger] r@[j])@,
            forall|i: int| 0 <= i < r@.len() ==> self@.contains_key((#[trigger] r@[i])@),
            forall|k: Seq<u8>| #[trigger]
                self@.contains_key(k) ==> exists|i: int| 0 <= i < r@.len() && (#[trigger] r@[i])@ == k,
    {
        raw_keys(&self.values)
    }
}

/// Every listed row is in the table.
pub proof fn lemma_listed(m: Map<u64, RowV>, i: int)
    requires
        0 <= i < row_list(m).len(),
    ensures
        m.contains_key(row_list(m)[i].0),
        m[row_list(m)[i].0] == row_list(m)[i].1,
{
    lemma_ids_from(m.dom(), 0);
    assert(row_ids(m).contains(row_ids(m)[i]));
}

/// Every row of the table is listed.
pub proof fn lemma_place_in_list(m: Map<u64, RowV>, id: u64) -> (i: int)
    requires
        m.contains_key(id),
    ensures
        0 <= i < row_list(m).len(),
        row_list(m)[i] == (id, m[id]),
{
    lemma_ids_from(m.dom(), 0);
    assert(row_ids(m).contains(id));
    let i = choose|i: int| 0 <= i < row_ids(m).len() && row_ids(m)[i] == id;
    i
}

} // verus!

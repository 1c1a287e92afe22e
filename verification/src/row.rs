//! Rows and column lists: maps that keep the order in which their keys came.
use indexmap::IndexMap;
use vstd::prelude::*;

use crate::assoc;
use crate::schema::{ColumnDef, ColumnV, Row, Value, ValueV};

verus! {

/// The insertion-ordered map of the indexmap crate.
#[verifier::external_type_specification]
#[verifier::external_body]
#[verifier::reject_recursive_types(K)]
#[verifier::reject_recursive_types(V)]
#[verifier::reject_recursive_types(S)]
pub struct ExIndexMap<K, V, S>(IndexMap<K, V, S>);

/// What a row is: its cells, in order.
pub type RowV = Seq<(Seq<char>, ValueV)>;

/// What a row's map holds, in its order.
pub uninterp spec fn cells(r: IndexMap<String, Value>) -> Seq<(Seq<char>, ValueV)>;

/// What a column map holds, in its order.
pub uninterp spec fn column_list(c: IndexMap<String, ColumnDef>) -> Seq<(Seq<char>, ColumnV)>;

/// `IndexMap::new`: the map is empty.
#[verifier::external_body]
pub(crate) fn row_new() -> (r: Row)
    ensures
        cells(r) == Seq::<(Seq<char>, ValueV)>::empty(),
{
    IndexMap::new()
}

/// `IndexMap::get`: the value under the key, where the map has it.
#[verifier::external_body]
pub(crate) fn row_get<'a>(r: &'a Row, k: &str) -> (v: Option<&'a Value>)
    ensures
        match v {
            Some(x) => assoc::assoc_get(cells(*r), k@) == Some(x@),
            None => assoc::assoc_get(cells(*r), k@) is None,
        },
{
    r.get(k)
}

/// `IndexMap::insert`: a key that is there keeps its place and gets the new value; a new key
/// goes to the end.
#[verifier::external_body]
pub(crate) fn row_put(r: &mut Row, k: String, v: Value)
    ensures
        cells(*final(r)) == assoc::assoc_put(cells(*old(r)), k@, v@),
{
    r.insert(k, v);
}

/// `IndexMap::shift_remove`: the entry leaves, the others keep their order.
#[verifier::external_body]
pub(crate) fn row_remove(r: &mut Row, k: &str)
    ensures
        cells(*final(r)) == assoc::assoc_remove(cells(*old(r)), k@),
{
    r.shift_remove(k);
}

/// `IndexMap::len`: the number of entries.
#[verifier::external_body]
pub(crate) fn row_len(r: &Row) -> (n: usize)
    ensures
        n == cells(*r).len(),
{
    r.len()
}

/// `IndexMap::get_index`: the entry at a position.
#[verifier::external_body]
pub(crate) fn row_at<'a>(r: &'a Row, i: usize) -> (e: Option<(&'a String, &'a Value)>)
    ensures
        match e {
            Some(e) => i < cells(*r).len() && cells(*r)[i as int] == (e.0@, e.1@),
            None => i >= cells(*r).len(),
        },
{
    r.get_index(i)
}

/// `IndexMap::clone`: the same entries in the same order, each cloned.
#[verifier::external_body]
pub(crate) fn row_copy(r: &Row) -> (c: Row)
    ensures
        cells(c) == cells(*r),
{
    r.clone()
}

/// `IndexMap::new`: the map is empty.
#[verifier::external_body]
pub(crate) fn columns_new() -> (r: IndexMap<String, ColumnDef>)
    ensures
        column_list(r) == Seq::<(Seq<char>, ColumnV)>::empty(),
{
    IndexMap::new()
}

/// `IndexMap::get`: the value under the key, where the map has it.
#[verifier::external_body]
pub(crate) fn columns_get<'a>(r: &'a IndexMap<String, ColumnDef>, k: &str) -> (v: Option<&'a ColumnDef>)
    ensures
        match v {
            Some(x) => assoc::assoc_get(column_list(*r), k@) == Some(x@),
            None => assoc::assoc_get(column_list(*r), k@) is None,
        },
{
    r.get(k)
}

/// `IndexMap::insert`: a key that is there keeps its place and gets the new value; a new key
/// goes to the end.
#[verifier::external_body]
pub(crate) fn columns_put(r: &mut IndexMap<String, ColumnDef>, k: String, v: ColumnDef)
    ensures
        column_list(*final(r)) == assoc::assoc_put(column_list(*old(r)), k@, v@),
{
    r.insert(k, v);
}

/// `IndexMap::shift_remove_full`: the entry leaves and is handed out with the place it had, the
/// others keep their order.
#[verifier::external_body]
pub(crate) fn columns_take(r: &mut IndexMap<String, ColumnDef>, k: &str) -> (e: Option<(usize, String, ColumnDef)>)
    ensures
        column_list(*final(r)) == assoc::assoc_remove(column_list(*old(r)), k@),
        match e {
            Some(e) => assoc::assoc_get(column_list(*old(r)), k@) == Some(e.2@) && e.0 == assoc::assoc_place(
                column_list(*old(r)),
                k@,
            ) && e.1@ == k@ && e.0 <= column_list(*final(r)).len(),
            None => assoc::assoc_get(column_list(*old(r)), k@) is None,
        },
{
    r.shift_remove_full(k)
}

/// `IndexMap::shift_insert`: an entry with a new key goes to the given place. One whose key
/// is there moves to the place, which then has to be that of an entry.
#[verifier::external_body]
pub(crate) fn columns_place(r: &mut IndexMap<String, ColumnDef>, i: usize, k: String, v: ColumnDef)
    requires
        assoc::assoc_get(column_list(*old(r)), k@) is None ==> i <= column_list(*old(r)).len(),
        assoc::assoc_get(column_list(*old(r)), k@) is Some ==> i < column_list(*old(r)).len(),
    ensures
        column_list(*final(r)) == assoc::assoc_remove(column_list(*old(r)), k@).insert(i as int, (k@, v@)),
{
    r.shift_insert(i, k, v);
}

/// `IndexMap::len`: the number of entries.
#[verifier::external_body]
pub(crate) fn columns_len(r: &IndexMap<String, ColumnDef>) -> (n: usize)
    ensures
        n == column_list(*r).len(),
{
    r.len()
}

/// `IndexMap::get_index`: the entry at a position.
#[verifier::external_body]
pub(crate) fn columns_at<'a>(r: &'a IndexMap<String, ColumnDef>, i: usize) -> (e: Option<(&'a String, &'a ColumnDef)>)
    ensures
        match e {
            Some(e) => i < column_list(*r).len() && column_list(*r)[i as int] == (e.0@, e.1@),
            None => i >= column_list(*r).len(),
        },
{
    r.get_index(i)
}

/// `IndexMap::clone`: the same entries in the same order, each cloned.
#[verifier::external_body]
pub(crate) fn columns_copy(r: &IndexMap<String, ColumnDef>) -> (c: IndexMap<String, ColumnDef>)
    ensures
        column_list(c) == column_list(*r),
{
    r.clone()
}

} // verus!

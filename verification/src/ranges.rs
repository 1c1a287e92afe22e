//! What a lookup of a range in an index finds.
use vstd::prelude::*;

use crate::index;
use crate::index::{BoundV, IndexMapV};
use crate::operators;
use crate::schema::ValueV;

verus! {

/// Whether a value lies in a range: not below its lower end nor above its upper one, nor at an end
/// that is left out.
pub open spec fn lies_in(v: ValueV, lower: BoundV, upper: BoundV) -> bool {
    &&& match lower {
        BoundV::Included(b) => !operators::smaller(v, b),
        BoundV::Excluded(b) => operators::smaller(b, v),
        BoundV::Unbounded => true,
    }
    &&& match upper {
        BoundV::Included(b) => !operators::smaller(b, v),
        BoundV::Excluded(b) => operators::smaller(v, b),
        BoundV::Unbounded => true,
    }
}

proof fn lemma_lies_in(v: ValueV, lower: BoundV, upper: BoundV)
    ensures
        lies_in(v, lower, upper) == (index::above(lower, v) && index::below(upper, v)),
{
    match lower {
        BoundV::Included(b) => operators::lemma_smaller(v, b),
        BoundV::Excluded(b) => operators::lemma_smaller(v, b),
        BoundV::Unbounded => {},
    }
    match upper {
        BoundV::Included(b) => operators::lemma_smaller(v, b),
        BoundV::Excluded(b) => operators::lemma_smaller(v, b),
        BoundV::Unbounded => {},
    }
}

/// Whether a value of an index that lies in a range has an id.
pub open spec fn has_in_range(m: IndexMapV, lower: BoundV, upper: BoundV, n: int, id: u64) -> bool {
    exists|k: int| 0 <= k < n && lies_in((#[trigger] m[k]).0, lower, upper) && m[k].1.contains(id)
}

proof fn lemma_range_upto(m: IndexMapV, lower: BoundV, upper: BoundV, n: int, id: u64)
    requires
        0 <= n <= m.len(),
    ensures
        index::range_ids(m, lower, upper, n).contains(id) == has_in_range(m, lower, upper, n, id),
    decreases n,
{
    if n > 0 {
        lemma_range_upto(m, lower, upper, n - 1, id);
        let p = index::range_ids(m, lower, upper, n - 1);
        let q = index::range_ids(m, lower, upper, n);
        let (v, ids) = m[n - 1];
        lemma_lies_in(v, lower, upper);
        if has_in_range(m, lower, upper, n - 1, id) {
            let k = choose|k: int| 0 <= k < n - 1 && lies_in((#[trigger] m[k]).0, lower, upper) && m[k].1.contains(id);
            assert(has_in_range(m, lower, upper, n, id));
        }
        if lies_in(v, lower, upper) {
            assert(q == p + ids);
            if p.contains(id) {
                let k = choose|k: int| 0 <= k < p.len() && p[k] == id;
                assert(q[k] == id);
            }
            if ids.contains(id) {
                let k = choose|k: int| 0 <= k < ids.len() && ids[k] == id;
                assert(q[p.len() + k] == id);
                assert(has_in_range(m, lower, upper, n, id));
            }
            if q.contains(id) && !p.contains(id) {
                let k = choose|k: int| 0 <= k < q.len() && q[k] == id;
                if k < p.len() {
                    assert(p[k] == id);
                } else {
                    assert(ids[k - p.len()] == id);
                }
            }
        }
        if has_in_range(m, lower, upper, n, id) && !has_in_range(m, lower, upper, n - 1, id) {
            let k = choose|k: int| 0 <= k < n && lies_in((#[trigger] m[k]).0, lower, upper) && m[k].1.contains(id);
            assert(k == n - 1);
        }
    }
}

/// A lookup of a range finds exactly the ids of the values of the index that lie in it.
pub proof fn lemma_range(m: IndexMapV, lower: BoundV, upper: BoundV, id: u64)
    ensures
        index::range_ids(m, lower, upper, m.len() as int).contains(id) == has_in_range(m, lower, upper, m.len() as int, id),
{
    lemma_range_upto(m, lower, upper, m.len() as int, id);
}

} // verus!

//! What becomes of raw values that leave memory: together with a place that keeps the entries
//! handed out, a table gives back what was last put, however few entries stay in memory.
use vstd::prelude::*;

use crate::assoc;
use crate::state;
use crate::state::StateV;

verus! {

/// The engine and the entries kept elsewhere, by database, table and key.
pub struct HeldV {
    pub memory: StateV,
    pub elsewhere: Map<(u32, Seq<char>, Seq<u8>), Seq<u8>>,
}

/// The value under a key: what is in memory, else what is kept elsewhere.
pub open spec fn found(h: HeldV, db: u32, table: Seq<char>, key: Seq<u8>) -> Option<Seq<u8>> {
    let m = state::raw_values(h.memory, db, table);
    if m.contains_key(key) {
        Some(m[key])
    } else if h.elsewhere.contains_key((db, table, key)) {
        Some(h.elsewhere[(db, table, key)])
    } else {
        None
    }
}

/// What is kept elsewhere once the first `n` of the entries of a table that were handed out are
/// there too.
pub open spec fn kept_upto(
    m: Map<(u32, Seq<char>, Seq<u8>), Seq<u8>>,
    db: u32,
    table: Seq<char>,
    out: Seq<(Seq<u8>, Seq<u8>)>,
    n: int,
) -> Map<(u32, Seq<char>, Seq<u8>), Seq<u8>>
    decreases n,
{
    if n <= 0 || n > out.len() {
        m
    } else {
        kept_upto(m, db, table, out, n - 1).insert((db, table, out[n - 1].0), out[n - 1].1)
    }
}

/// A call on the raw values of a table.
pub enum RawCallV {
    /// A put, with what it handed out.
    Put { db: u32, table: Seq<char>, key: Seq<u8>, value: Seq<u8>, out: Seq<(Seq<u8>, Seq<u8>)> },
    Remove { db: u32, table: Seq<char>, key: Seq<u8> },
}

/// The database, table and key of a call.
pub open spec fn target(c: RawCallV) -> (u32, Seq<char>, Seq<u8>) {
    match c {
        RawCallV::Put { db, table, key, value, out } => (db, table, key),
        RawCallV::Remove { db, table, key } => (db, table, key),
    }
}

/// Whether a call leads from one to the other: what is kept elsewhere under its key is dropped,
/// and what it hands out is kept there.
pub open spec fn leads(h: HeldV, c: RawCallV, g: HeldV) -> bool {
    match c {
        RawCallV::Put { db, table, key, value, out } => {
            &&& state::raw_put(h.memory, g.memory, db, table, key, value, out)
            &&& g.elsewhere == kept_upto(h.elsewhere.remove((db, table, key)), db, table, out, out.len() as int)
        },
        RawCallV::Remove { db, table, key } => {
            &&& g.memory == state::raw_removed(h.memory, db, table, key)
            &&& g.elsewhere == h.elsewhere.remove((db, table, key))
        },
    }
}

proof fn lemma_kept_other(
    m: Map<(u32, Seq<char>, Seq<u8>), Seq<u8>>,
    db: u32,
    table: Seq<char>,
    out: Seq<(Seq<u8>, Seq<u8>)>,
    n: int,
    p: (u32, Seq<char>, Seq<u8>),
)
    requires
        0 <= n <= out.len(),
        (db, table) != (p.0, p.1) || forall|i: int| 0 <= i < n ==> (#[trigger] out[i]).0 != p.2,
    ensures
        kept_upto(m, db, table, out, n).contains_key(p) == m.contains_key(p),
        m.contains_key(p) ==> kept_upto(m, db, table, out, n)[p] == m[p],
    decreases n,
{
    if n > 0 {
        lemma_kept_other(m, db, table, out, n - 1, p);
        assert(p != (db, table, out[n - 1].0));
    }
}

proof fn lemma_kept_entry(
    m: Map<(u32, Seq<char>, Seq<u8>), Seq<u8>>,
    db: u32,
    table: Seq<char>,
    out: Seq<(Seq<u8>, Seq<u8>)>,
    n: int,
    i: int,
)
    requires
        0 <= i < n <= out.len(),
        forall|i: int, j: int| 0 <= i < j < out.len() ==> (#[trigger] out[i]).0 != (#[trigger] out[j]).0,
    ensures
        kept_upto(m, db, table, out, n).contains_key((db, table, out[i].0)),
        kept_upto(m, db, table, out, n)[(db, table, out[i].0)] == out[i].1,
    decreases n,
{
    if i < n - 1 {
        lemma_kept_entry(m, db, table, out, n - 1, i);
        assert(out[i].0 != out[n - 1].0);
    }
}

proof fn lemma_raw_set(s: StateV, db: u32, table: Seq<char>, m: Map<Seq<u8>, Seq<u8>>, db2: u32, table2: Seq<char>)
    ensures
        state::raw_values(state::raw_set(s, db, table, m), db2, table2) == (if (db, table) == (db2, table2) {
            m
        } else {
            state::raw_values(s, db2, table2)
        }),
{
    if (db, table) == (db2, table2) {
        assoc::lemma_get_put(s.raw.items, (db, table), m);
    } else {
        assoc::lemma_get_put_other(s.raw.items, (db, table), m, (db2, table2));
    }
}

/// A value that was just put is read back, in memory or not.
pub proof fn lemma_put_is_found(
    h: HeldV,
    g: HeldV,
    db: u32,
    table: Seq<char>,
    key: Seq<u8>,
    value: Seq<u8>,
    out: Seq<(Seq<u8>, Seq<u8>)>,
)
    requires
        leads(h, RawCallV::Put { db, table, key, value, out }, g),
    ensures
        found(g, db, table, key) == Some(value),
{
    let all = state::raw_values(h.memory, db, table).insert(key, value);
    let kept = state::raw_values(g.memory, db, table);
    if !kept.contains_key(key) {
        let i = choose|i: int| 0 <= i < out.len() && out[i] == (key, value);
        lemma_kept_entry(h.elsewhere.remove((db, table, key)), db, table, out, out.len() as int, i);
    } else {
        assert(kept[key] == all[key]);
    }
}

/// A value that was just removed is nowhere.
pub proof fn lemma_removed_is_gone(h: HeldV, g: HeldV, db: u32, table: Seq<char>, key: Seq<u8>)
    requires
        leads(h, RawCallV::Remove { db, table, key }, g),
    ensures
        found(g, db, table, key) is None,
{
    let m = state::raw_values(h.memory, db, table);
    assoc::lemma_get_put(h.memory.raw.items, (db, table), m.remove(key));
}

/// A call leaves alone what is under every other key, though the value may leave memory.
pub proof fn lemma_others_stay(h: HeldV, c: RawCallV, g: HeldV, db: u32, table: Seq<char>, key: Seq<u8>)
    requires
        leads(h, c, g),
        target(c) != (db, table, key),
    ensures
        found(g, db, table, key) == found(h, db, table, key),
{
    let p = (db, table, key);
    let m = state::raw_values(h.memory, db, table);
    match c {
        RawCallV::Put { db: db2, table: table2, key: key2, value, out } => {
            let kept = state::raw_values(g.memory, db2, table2);
            let rest = h.elsewhere.remove((db2, table2, key2));
            lemma_raw_set(h.memory, db2, table2, kept, db, table);
            if (db2, table2) == (db, table) {
                let all = m.insert(key2, value);
                assert(key2 != key);
                if state::entry_keys(out).contains(key) {
                    let i = choose|i: int| 0 <= i < out.len() && (#[trigger] out[i]).0 == key;
                    assert(all.contains_key(out[i].0));
                    lemma_kept_entry(rest, db, table, out, out.len() as int, i);
                } else {
                    assert forall|i: int| 0 <= i < out.len() implies (#[trigger] out[i]).0 != key by {}
                    lemma_kept_other(rest, db, table, out, out.len() as int, p);
                }
            } else {
                lemma_kept_other(rest, db2, table2, out, out.len() as int, p);
            }
        },
        RawCallV::Remove { db: db2, table: table2, key: key2 } => {
            let m2 = state::raw_values(h.memory, db2, table2).remove(key2);
            if (db2, table2) == (db, table) {
                assoc::lemma_get_put(h.memory.raw.items, (db2, table2), m2);
            } else {
                assoc::lemma_get_put_other(h.memory.raw.items, (db2, table2), m2, (db, table));
            }
        },
    }
}

/// Whether each call leads from one of the given to the next.
pub open spec fn is_run(hs: Seq<HeldV>, calls: Seq<RawCallV>) -> bool {
    &&& hs.len() == calls.len() + 1
    &&& forall|i: int| 0 <= i < calls.len() ==> leads(hs[i], #[trigger] calls[i], hs[i + 1])
}

/// What is under a key stays until it is put again or removed: a value that the first call puts
/// is read back behind any calls for other keys, whatever the limit is; after a first call that
/// removes the key there is none.
pub proof fn lemma_last_put_is_read(hs: Seq<HeldV>, calls: Seq<RawCallV>)
    requires
        is_run(hs, calls),
        calls.len() > 0,
        forall|i: int| 0 < i < calls.len() ==> target(#[trigger] calls[i]) != target(calls[0]),
    ensures
        match calls[0] {
            RawCallV::Put { db, table, key, value, out } => found(hs.last(), db, table, key) == Some(value),
            RawCallV::Remove { db, table, key } => found(hs.last(), db, table, key) is None,
        },
    decreases calls.len(),
{
    let (db, table, key) = target(calls[0]);
    let n = calls.len() - 1;
    if n == 0 {
        assert(leads(hs[0], calls[0], hs[1]));
        match calls[0] {
            RawCallV::Put { db, table, key, value, out } => {
                lemma_put_is_found(hs[0], hs[1], db, table, key, value, out);
            },
            RawCallV::Remove { db, table, key } => {
                lemma_removed_is_gone(hs[0], hs[1], db, table, key);
            },
        }
    } else {
        let hs2 = hs.drop_last();
        let calls2 = calls.drop_last();
        assert forall|i: int| 0 <= i < calls2.len() implies leads(hs2[i], #[trigger] calls2[i], hs2[i + 1]) by {
            assert(leads(hs[i], calls[i], hs[i + 1]));
        }
        lemma_last_put_is_read(hs2, calls2);
        assert(leads(hs[n], calls[n], hs[n + 1]));
        lemma_others_stay(hs[n], calls[n], hs[n + 1], db, table, key);
    }
}

} // verus!

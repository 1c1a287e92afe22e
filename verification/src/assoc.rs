//! Lists of keyed entries, in the order in which the keys first came.
use vstd::prelude::*;

verus! {

/// The value of the first entry with key `k`.
pub open spec fn assoc_get<K, V>(s: Seq<(K, V)>, k: K) -> Option<V>
    decreases s.len(),
{
    if s.len() == 0 {
        None
    } else if s[0].0 == k {
        Some(s[0].1)
    } else {
        assoc_get(s.drop_first(), k)
    }
}

/// The list with `v` under `k`: in place where `k` is there, else at the end.
pub open spec fn assoc_put<K, V>(s: Seq<(K, V)>, k: K, v: V) -> Seq<(K, V)>
    decreases s.len(),
{
    if s.len() == 0 {
        seq![(k, v)]
    } else if s[0].0 == k {
        seq![(k, v)] + s.drop_first()
    } else {
        seq![s[0]] + assoc_put(s.drop_first(), k, v)
    }
}

/// The list without the first entry with key `k`.
pub open spec fn assoc_remove<K, V>(s: Seq<(K, V)>, k: K) -> Seq<(K, V)>
    decreases s.len(),
{
    if s.len() == 0 {
        s
    } else if s[0].0 == k {
        s.drop_first()
    } else {
        seq![s[0]] + assoc_remove(s.drop_first(), k)
    }
}

/// The position of the first entry with key `k`.
pub open spec fn assoc_place<K, V>(s: Seq<(K, V)>, k: K) -> int
    decreases s.len(),
{
    if s.len() == 0 || s[0].0 == k {
        0
    } else {
        1 + assoc_place(s.drop_first(), k)
    }
}

/// Whether no two entries share a key.
pub open spec fn assoc_distinct<K, V>(s: Seq<(K, V)>) -> bool {
    forall|i: int, j: int| 0 <= i < j < s.len() ==> (#[trigger] s[i]).0 != (#[trigger] s[j]).0
}

/// What was put is what is found under the key.
pub proof fn lemma_get_put<K, V>(s: Seq<(K, V)>, k: K, v: V)
    ensures
        assoc_get(assoc_put(s, k, v), k) == Some(v),
    decreases s.len(),
{
    let t = assoc_put(s, k, v);
    if s.len() > 0 && s[0].0 != k {
        lemma_get_put(s.drop_first(), k, v);
        assert(t.drop_first() =~= assoc_put(s.drop_first(), k, v));
    }
}

/// To put under one key changes nothing under another.
pub proof fn lemma_get_put_other<K, V>(s: Seq<(K, V)>, k: K, v: V, j: K)
    requires
        j != k,
    ensures
        assoc_get(assoc_put(s, k, v), j) == assoc_get(s, j),
    decreases s.len(),
{
    let t = assoc_put(s, k, v);
    if s.len() == 0 {
        assert(t.drop_first() =~= Seq::empty());
        assert(assoc_get(t.drop_first(), j) is None);
    } else if s[0].0 == k {
        assert(t.drop_first() =~= s.drop_first());
    } else {
        lemma_get_put_other(s.drop_first(), k, v, j);
        assert(t.drop_first() =~= assoc_put(s.drop_first(), k, v));
    }
}

/// To remove one key changes nothing under another.
pub proof fn lemma_get_remove_other<K, V>(s: Seq<(K, V)>, k: K, j: K)
    requires
        j != k,
    ensures
        assoc_get(assoc_remove(s, k), j) == assoc_get(s, j),
    decreases s.len(),
{
    let t = assoc_remove(s, k);
    if s.len() > 0 && s[0].0 != k {
        lemma_get_remove_other(s.drop_first(), k, j);
        assert(t.drop_first() =~= assoc_remove(s.drop_first(), k));
    }
}

/// A removed key is not found, where no two entries share one.
pub proof fn lemma_get_remove<K, V>(s: Seq<(K, V)>, k: K)
    requires
        assoc_distinct(s),
    ensures
        assoc_get(assoc_remove(s, k), k) is None,
    decreases s.len(),
{
    let t = assoc_remove(s, k);
    if s.len() > 0 {
        assert(assoc_distinct(s.drop_first())) by {
            assert forall|i: int, j: int|
                0 <= i < j < s.drop_first().len() implies (#[trigger] s.drop_first()[i]).0 != (
            #[trigger] s.drop_first()[j]).0 by {
                assert(s.drop_first()[i] == s[i + 1]);
                assert(s.drop_first()[j] == s[j + 1]);
            }
        }
        if s[0].0 == k {
            assert forall|i: int| 0 <= i < s.drop_first().len() implies (#[trigger] s.drop_first()[i]).0
                != k by {
                assert(s.drop_first()[i] == s[i + 1]);
            }
            lemma_get_absent(s.drop_first(), k);
        } else {
            lemma_get_remove(s.drop_first(), k);
            assert(t.drop_first() =~= assoc_remove(s.drop_first(), k));
        }
    }
}

/// A key that no entry has is not found.
pub proof fn lemma_get_absent<K, V>(s: Seq<(K, V)>, k: K)
    requires
        forall|i: int| 0 <= i < s.len() ==> (#[trigger] s[i]).0 != k,
    ensures
        assoc_get(s, k) is None,
    decreases s.len(),
{
    if s.len() > 0 {
        assert forall|i: int| 0 <= i < s.drop_first().len() implies (#[trigger] s.drop_first()[i]).0
            != k by {
            assert(s.drop_first()[i] == s[i + 1]);
        }
        lemma_get_absent(s.drop_first(), k);
    }
}

/// Where a key first stands is what decides what is found under it.
pub proof fn lemma_get_at<K, V>(s: Seq<(K, V)>, k: K, i: int)
    requires
        0 <= i < s.len(),
        s[i].0 == k,
        forall|j: int| 0 <= j < i ==> (#[trigger] s[j]).0 != k,
    ensures
        assoc_get(s, k) == Some(s[i].1),
        assoc_put_at(s, k, i),
        assoc_remove(s, k) == s.remove(i),
        assoc_place(s, k) == i,
    decreases i,
{
    if i > 0 {
        assert(s[0].0 != k);
        let d = s.drop_first();
        assert forall|j: int| 0 <= j < i - 1 implies (#[trigger] d[j]).0 != k by {
            assert(d[j] == s[j + 1]);
        }
        lemma_get_at(d, k, i - 1);
        assert(s.remove(i) =~= seq![s[0]] + d.remove(i - 1));
        assert forall|v: V| #[trigger] assoc_put(s, k, v) == s.update(i, (k, v)) by {
            assert(assoc_put(d, k, v) == d.update(i - 1, (k, v)));
            assert(s.update(i, (k, v)) =~= seq![s[0]] + d.update(i - 1, (k, v)));
        }
    } else {
        assert(s.remove(0) =~= s.drop_first());
        assert forall|v: V| #[trigger] assoc_put(s, k, v) == s.update(0, (k, v)) by {
            assert(s.update(0, (k, v)) =~= seq![(k, v)] + s.drop_first());
        }
    }
}

/// That putting under `k` replaces the entry at `i`.
pub open spec fn assoc_put_at<K, V>(s: Seq<(K, V)>, k: K, i: int) -> bool {
    forall|v: V| #[trigger] assoc_put(s, k, v) == s.update(i, (k, v))
}

/// A new key goes to the end.
pub proof fn lemma_put_absent<K, V>(s: Seq<(K, V)>, k: K, v: V)
    requires
        forall|i: int| 0 <= i < s.len() ==> (#[trigger] s[i]).0 != k,
    ensures
        assoc_put(s, k, v) == s.push((k, v)),
        assoc_remove(s, k) == s,
        assoc_get(s, k) is None,
    decreases s.len(),
{
    if s.len() > 0 {
        assert(s[0].0 != k);
        let d = s.drop_first();
        assert forall|i: int| 0 <= i < d.len() implies (#[trigger] d[i]).0 != k by {
            assert(d[i] == s[i + 1]);
        }
        lemma_put_absent(d, k, v);
        assert(s.push((k, v)) =~= seq![s[0]] + d.push((k, v)));
        assert(seq![s[0]] + d =~= s);
    } else {
        assert(s.push((k, v)) =~= seq![(k, v)]);
    }
}

/// To remove a key that no entry has changes nothing.
pub proof fn lemma_remove_absent<K, V>(s: Seq<(K, V)>, k: K)
    requires
        forall|i: int| 0 <= i < s.len() ==> (#[trigger] s[i]).0 != k,
    ensures
        assoc_remove(s, k) == s,
    decreases s.len(),
{
    if s.len() > 0 {
        assert(s[0].0 != k);
        let d = s.drop_first();
        assert forall|i: int| 0 <= i < d.len() implies (#[trigger] d[i]).0 != k by {
            assert(d[i] == s[i + 1]);
        }
        lemma_remove_absent(d, k);
        assert(seq![s[0]] + d =~= s);
    }
}

/// Of two values put under one key the later stays.
pub proof fn lemma_put_twice<K, V>(s: Seq<(K, V)>, k: K, v: V)
    ensures
        forall|w: V| #[trigger] assoc_put(assoc_put(s, k, v), k, w) == assoc_put(s, k, w),
    decreases s.len(),
{
    let t = assoc_put(s, k, v);
    if s.len() == 0 {
        assert forall|w: V| #[trigger] assoc_put(t, k, w) == assoc_put(s, k, w) by {
            assert(seq![(k, w)] + t.drop_first() =~= seq![(k, w)]);
        }
    } else if s[0].0 == k {
        assert(t.drop_first() =~= s.drop_first());
    } else {
        lemma_put_twice(s.drop_first(), k, v);
        assert(t.drop_first() =~= assoc_put(s.drop_first(), k, v));
        assert forall|w: V| #[trigger] assoc_put(t, k, w) == assoc_put(s, k, w) by {
            assert(assoc_put(t.drop_first(), k, w) == assoc_put(s.drop_first(), k, w));
        }
    }
}

/// To put again what is there changes nothing.
pub proof fn lemma_put_same<K, V>(s: Seq<(K, V)>, k: K, v: V)
    requires
        assoc_get(s, k) == Some(v),
    ensures
        assoc_put(s, k, v) == s,
    decreases s.len(),
{
    if s[0].0 == k {
        assert(assoc_put(s, k, v) =~= s);
    } else {
        lemma_put_same(s.drop_first(), k, v);
        assert(assoc_put(s, k, v) =~= s);
    }
}

/// A list of which no two entries share a key stays so when something is put into it.
pub proof fn lemma_put_distinct<K, V>(s: Seq<(K, V)>, k: K, v: V)
    requires
        assoc_distinct(s),
    ensures
        assoc_distinct(assoc_put(s, k, v)),
        forall|j: int| 0 <= j < assoc_put(s, k, v).len() ==> (#[trigger] assoc_put(s, k, v)[j]).0 == k || exists|i: int|
            0 <= i < s.len() && (#[trigger] s[i]).0 == assoc_put(s, k, v)[j].0,
    decreases s.len(),
{
    let t = assoc_put(s, k, v);
    if s.len() == 0 {
    } else if s[0].0 == k {
        assert forall|j: int| 0 <= j < t.len() implies (#[trigger] t[j]).0 == s[j].0 by {}
    } else {
        let d = s.drop_first();
        let p = assoc_put(d, k, v);
        assert(assoc_distinct(d)) by {
            assert forall|i: int, j: int| 0 <= i < j < d.len() implies (#[trigger] d[i]).0 != (#[trigger] d[j]).0 by {
                assert(s[i + 1].0 != s[j + 1].0);
            }
        }
        lemma_put_distinct(d, k, v);
        assert forall|j: int| 0 <= j < t.len() implies (#[trigger] t[j]).0 == k || exists|i: int|
            0 <= i < s.len() && (#[trigger] s[i]).0 == t[j].0 by {
            if j > 0 {
                assert(t[j] == p[j - 1]);
                if p[j - 1].0 != k {
                    let i = choose|i: int| 0 <= i < d.len() && (#[trigger] d[i]).0 == p[j - 1].0;
                    assert(s[i + 1].0 == t[j].0);
                }
            }
        }
        assert forall|i: int, j: int| 0 <= i < j < t.len() implies (#[trigger] t[i]).0 != (#[trigger] t[j]).0 by {
            assert(t[j] == p[j - 1]);
            if i > 0 {
                assert(t[i] == p[i - 1]);
            } else if p[j - 1].0 != k {
                let x = choose|x: int| 0 <= x < d.len() && (#[trigger] d[x]).0 == p[j - 1].0;
                assert(s[0].0 != s[x + 1].0);
            }
        }
    }
}

/// A list of which no two entries share a key stays so when an entry is taken out.
pub proof fn lemma_remove_distinct<K, V>(s: Seq<(K, V)>, k: K)
    requires
        assoc_distinct(s),
    ensures
        assoc_distinct(assoc_remove(s, k)),
        forall|j: int| 0 <= j < assoc_remove(s, k).len() ==> exists|i: int|
            0 <= i < s.len() && (#[trigger] s[i]) == #[trigger] assoc_remove(s, k)[j],
    decreases s.len(),
{
    let t = assoc_remove(s, k);
    if s.len() == 0 {
    } else {
        let d = s.drop_first();
        assert(assoc_distinct(d)) by {
            assert forall|i: int, j: int| 0 <= i < j < d.len() implies (#[trigger] d[i]).0 != (#[trigger] d[j]).0 by {
                assert(s[i + 1].0 != s[j + 1].0);
            }
        }
        if s[0].0 == k {
            assert forall|j: int| 0 <= j < t.len() implies exists|i: int| 0 <= i < s.len() && (#[trigger] s[i])
                == #[trigger] t[j] by {
                assert(s[j + 1] == t[j]);
            }
        } else {
            let p = assoc_remove(d, k);
            lemma_remove_distinct(d, k);
            assert forall|j: int| 0 <= j < t.len() implies exists|i: int| 0 <= i < s.len() && (#[trigger] s[i])
                == #[trigger] t[j] by {
                if j > 0 {
                    assert(t[j] == p[j - 1]);
                    let i = choose|i: int| 0 <= i < d.len() && (#[trigger] d[i]) == p[j - 1];
                    assert(s[i + 1] == t[j]);
                } else {
                    assert(s[0] == t[0]);
                }
            }
            assert forall|i: int, j: int| 0 <= i < j < t.len() implies (#[trigger] t[i]).0 != (#[trigger] t[j]).0 by {
                assert(t[j] == p[j - 1]);
                if i > 0 {
                    assert(t[i] == p[i - 1]);
                } else {
                    let x = choose|x: int| 0 <= x < d.len() && (#[trigger] d[x]) == p[j - 1];
                    assert(s[0].0 != s[x + 1].0);
                }
            }
        }
    }
}

/// Where no two entries share a key, an entry is what is found under its key.
pub proof fn lemma_get_distinct<K, V>(s: Seq<(K, V)>, i: int)
    requires
        assoc_distinct(s),
        0 <= i < s.len(),
    ensures
        assoc_get(s, s[i].0) == Some(s[i].1),
{
    assert forall|j: int| 0 <= j < i implies (#[trigger] s[j]).0 != s[i].0 by {}
    lemma_get_at(s, s[i].0, i);
}

} // verus!

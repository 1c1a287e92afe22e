//! What a full-text index makes of documents and queries: a document that comes and goes leaves no
//! trace, and a query of two parts finds what both find.
use vstd::prelude::*;

use crate::assoc;
use crate::fts;
use crate::fts::FtsV;
use crate::searching;
use crate::text;

verus! {

/// Whether a token is among the first `n` of a list.
pub open spec fn among(ts: Seq<Seq<char>>, n: int, t: Seq<char>) -> bool {
    exists|k: int| 0 <= k < n && #[trigger] ts[k] == t
}

proof fn lemma_among_more(ts: Seq<Seq<char>>, n: int, t: Seq<char>)
    requires
        0 < n <= ts.len(),
    ensures
        among(ts, n, t) == (among(ts, n - 1, t) || ts[n - 1] == t),
{
    if among(ts, n, t) {
        let k = choose|k: int| 0 <= k < n && #[trigger] ts[k] == t;
        if k < n - 1 {
            assert(0 <= k < n - 1 && ts[k] == t);
        }
    }
    if among(ts, n - 1, t) {
        let k = choose|k: int| 0 <= k < n - 1 && #[trigger] ts[k] == t;
        assert(0 <= k < n && ts[k] == t);
    }
    if ts[n - 1] == t {
        assert(0 <= n - 1 < n && ts[n - 1] == t);
    }
}

proof fn lemma_posted_at(m: Seq<(Seq<char>, Seq<u64>)>, ts: Seq<Seq<char>>, n: int, id: u64, t: Seq<char>)
    requires
        0 <= n <= ts.len(),
    ensures
        assoc::assoc_get(fts::posted(m, ts, n, id), t) == (if among(ts, n, t) {
            Some(fts::ids_with(fts::docs_of(m, t), id))
        } else {
            assoc::assoc_get(m, t)
        }),
    decreases n,
{
    if n > 0 {
        let p = fts::posted(m, ts, n - 1, id);
        let u = ts[n - 1];
        let d = fts::ids_with(fts::docs_of(p, u), id);
        lemma_posted_at(m, ts, n - 1, id, t);
        lemma_among_more(ts, n, t);
        if t == u {
            assoc::lemma_get_put(p, u, d);
            let e = fts::docs_of(m, u);
            assert(fts::ids_with(fts::ids_with(e, id), id) == fts::ids_with(e, id)) by {
                if !e.contains(id) {
                    assert(e.push(id)[e.len() as int] == id);
                }
            }
        } else {
            assoc::lemma_get_put_other(p, u, d, t);
        }
    }
}

/// What is left of a list of documents when one leaves.
spec fn left_of(d: Option<Seq<u64>>, id: u64) -> Option<Seq<u64>> {
    match d {
        Some(x) => if fts::ids_without(x, id).len() == 0 {
            None
        } else {
            Some(fts::ids_without(x, id))
        },
        None => None,
    }
}

proof fn lemma_without_absent(ids: Seq<u64>, id: u64)
    requires
        !ids.contains(id),
    ensures
        fts::ids_without(ids, id) == ids,
    decreases ids.len(),
{
    if ids.len() > 0 {
        let d = ids.drop_last();
        assert(ids[ids.len() - 1] != id);
        if d.contains(id) {
            let k = choose|k: int| 0 <= k < d.len() && d[k] == id;
            assert(ids[k] == id);
        }
        lemma_without_absent(d, id);
        assert(d.push(ids.last()) =~= ids);
    }
}

/// An id that leaves a list is gone.
pub proof fn lemma_without_gone(ids: Seq<u64>, id: u64)
    ensures
        !fts::ids_without(ids, id).contains(id),
    decreases ids.len(),
{
    if ids.len() > 0 {
        let d = ids.drop_last();
        lemma_without_gone(d, id);
        let w = fts::ids_without(d, id);
        let q = fts::ids_without(ids, id);
        if q.contains(id) {
            let k = choose|k: int| 0 <= k < q.len() && q[k] == id;
            if k < w.len() {
                assert(w[k] == id);
            }
        }
    }
}

proof fn lemma_unposted_at(p: Seq<(Seq<char>, Seq<u64>)>, ts: Seq<Seq<char>>, n: int, id: u64, t: Seq<char>)
    requires
        fts::tidy_postings(p),
        0 <= n <= ts.len(),
    ensures
        assoc::assoc_get(fts::unposted(p, ts, n, id), t) == (if among(ts, n, t) {
            left_of(assoc::assoc_get(p, t), id)
        } else {
            assoc::assoc_get(p, t)
        }),
    decreases n,
{
    if n > 0 {
        let q = fts::unposted(p, ts, n - 1, id);
        let u = ts[n - 1];
        lemma_unposted_at(p, ts, n - 1, id, t);
        lemma_among_more(ts, n, t);
        fts::lemma_unposted_tidy(p, ts, n - 1, id);
        match assoc::assoc_get(q, u) {
            Some(d) => {
                let e = fts::ids_without(d, id);
                if t == u {
                    assoc::lemma_get_remove(q, u);
                    assoc::lemma_get_put(q, u, e);
                    match assoc::assoc_get(p, u) {
                        Some(x) => {
                            lemma_without_gone(x, id);
                            lemma_without_absent(fts::ids_without(x, id), id);
                        },
                        None => {},
                    }
                } else {
                    assoc::lemma_get_remove_other(q, u, t);
                    assoc::lemma_get_put_other(q, u, e, t);
                }
            },
            None => {},
        }
    }
}

proof fn lemma_get_member(m: Seq<(Seq<char>, Seq<u64>)>, t: Seq<char>)
    requires
        fts::tidy_lists(m),
    ensures
        match assoc::assoc_get(m, t) {
            Some(d) => d.len() > 0,
            None => true,
        },
    decreases m.len(),
{
    if m.len() > 0 {
        if m[0].0 != t {
            let r = m.drop_first();
            assert forall|i: int| 0 <= i < r.len() implies (#[trigger] r[i]).1.len() > 0 && r[i].1.no_duplicates() by {
                assert(r[i] == m[i + 1]);
            }
            lemma_get_member(r, t);
        } else {
            assert(assoc::assoc_get(m, t) == Some(m[0].1));
        }
    }
}

proof fn lemma_absent_keys<V>(s: Seq<(u64, V)>, k: u64)
    requires
        assoc::assoc_get(s, k) is None,
    ensures
        forall|i: int| 0 <= i < s.len() ==> (#[trigger] s[i]).0 != k,
    decreases s.len(),
{
    if s.len() > 0 {
        let d = s.drop_first();
        lemma_absent_keys(d, k);
        assert forall|i: int| 0 <= i < s.len() implies (#[trigger] s[i]).0 != k by {
            if i > 0 {
                assert(d[i - 1] == s[i]);
            }
        }
    }
}

proof fn lemma_same_docs(
    m: Seq<(Seq<char>, Seq<u64>)>,
    w: Seq<(Seq<char>, Seq<u64>)>,
    ts: Seq<Seq<char>>,
    n: int,
)
    requires
        forall|t: Seq<char>| #[trigger] assoc::assoc_get(w, t) == assoc::assoc_get(m, t),
    ensures
        fts::docs_with_all(w, ts, n) == fts::docs_with_all(m, ts, n),
    decreases n,
{
    if n > 0 && n <= ts.len() {
        assert(fts::docs_of(w, ts[n - 1]) == fts::docs_of(m, ts[n - 1])) by {
            assert(assoc::assoc_get(w, ts[n - 1]) == assoc::assoc_get(m, ts[n - 1]));
        }
        lemma_same_docs(m, w, ts, n - 1);
    }
}

/// A document that is added and removed again leaves the index as it was: each word has the same
/// documents, each document the same length, and every search finds the same.
pub proof fn lemma_removed_leaves_no_trace(x: FtsV, id: u64, content: Seq<char>)
    requires
        fts::tidy(x),
        forall|t: Seq<char>| !(#[trigger] fts::docs_of(x.inverted, t)).contains(id),
        assoc::assoc_get(x.doc_lengths, id) is None,
        x.total_docs < usize::MAX,
    ensures
        ({
            let y = fts::without_document(fts::with_document(x, id, content), id, content);
            &&& forall|t: Seq<char>| #[trigger] assoc::assoc_get(y.inverted, t) == assoc::assoc_get(x.inverted, t)
            &&& y.doc_lengths == x.doc_lengths
            &&& y.total_docs == x.total_docs
            &&& forall|query: Seq<char>| #[trigger] fts::search_result(y, query) == fts::search_result(x, query)
        }),
{
    let ts = fts::tokens(content);
    let n = ts.len() as int;
    let p = fts::posted(x.inverted, ts, n, id);
    let y = fts::without_document(fts::with_document(x, id, content), id, content);
    fts::lemma_posted_tidy(x.inverted, ts, n, id);
    assert forall|t: Seq<char>| #[trigger] assoc::assoc_get(y.inverted, t) == assoc::assoc_get(x.inverted, t) by {
        lemma_posted_at(x.inverted, ts, n, id, t);
        lemma_unposted_at(p, ts, n, id, t);
        lemma_get_member(x.inverted, t);
        let d = fts::docs_of(x.inverted, t);
        assert(!d.contains(id));
        lemma_without_absent(d, id);
        assert(d.push(id).drop_last() =~= d);
        assert(fts::ids_without(d.push(id), id) == d);
    }
    let len = ts.len() as usize;
    lemma_absent_keys(x.doc_lengths, id);
    assoc::lemma_put_absent(x.doc_lengths, id, len);
    let l = x.doc_lengths.push((id, len));
    assert forall|j: int| 0 <= j < x.doc_lengths.len() implies (#[trigger] l[j]).0 != id by {
        assert(l[j] == x.doc_lengths[j]);
    }
    assoc::lemma_get_at(l, id, x.doc_lengths.len() as int);
    assert(l.remove(x.doc_lengths.len() as int) =~= x.doc_lengths);
    assert forall|query: Seq<char>| #[trigger] fts::search_result(y, query) == fts::search_result(x, query) by {
        lemma_same_docs(x.inverted, y.inverted, fts::tokens(query), fts::tokens(query).len() as int);
    }
}

proof fn lemma_word_end_in(a: Seq<char>, s: Seq<char>, k: int, i: int)
    requires
        0 <= i <= a.len(),
        0 <= k,
        k + a.len() <= s.len(),
        s.subrange(k, k + a.len()) == a,
        k + a.len() == s.len() || !fts::is_word(s[k + a.len()]),
    ensures
        fts::word_end(s, k + i) == k + fts::word_end(a, i),
    decreases a.len() - i,
{
    if i < a.len() {
        assert(s.subrange(k, k + a.len())[i] == s[k + i]);
        if fts::is_word(a[i]) {
            lemma_word_end_in(a, s, k, i + 1);
        }
    }
}

/// The words of a text from `i` on, where it stands in another at `k` and no word goes on behind
/// it: they come first.
proof fn lemma_words_in(a: Seq<char>, s: Seq<char>, k: int, i: int)
    requires
        0 <= i <= a.len(),
        0 <= k,
        k + a.len() <= s.len(),
        s.subrange(k, k + a.len()) == a,
        k + a.len() == s.len() || !fts::is_word(s[k + a.len()]),
    ensures
        fts::words_from(s, k + i) == fts::words_from(a, i) + fts::words_from(s, k + a.len()),
    decreases a.len() - i,
{
    if i == a.len() {
        assert(fts::words_from(a, i) + fts::words_from(s, k + i) =~= fts::words_from(s, k + i));
    } else {
        assert(s.subrange(k, k + a.len())[i] == s[k + i]);
        if fts::is_word(a[i]) {
            fts::lemma_word_end(a, i);
            lemma_word_end_in(a, s, k, i);
            let e = fts::word_end(a, i);
            lemma_words_in(a, s, k, e);
            assert(s.subrange(k + i, k + e) =~= a.subrange(i, e)) by {
                assert forall|x: int| 0 <= x < e - i implies s.subrange(k + i, k + e)[x] == a.subrange(i, e)[x] by {
                    assert(s.subrange(k, k + a.len())[i + x] == s[k + i + x]);
                }
            }
            let w = seq![a.subrange(i, e)];
            assert(w + (fts::words_from(a, e) + fts::words_from(s, k + a.len())) =~= (w + fts::words_from(a, e))
                + fts::words_from(s, k + a.len()));
        } else {
            lemma_words_in(a, s, k, i + 1);
        }
    }
}

proof fn lemma_kept_both(v: Seq<Seq<char>>, w: Seq<Seq<char>>, n: int)
    requires
        0 <= n <= w.len(),
    ensures
        fts::kept_tokens(v + w, v.len() + n) == fts::kept_tokens(v, v.len() as int) + fts::kept_tokens(w, n),
    decreases n,
{
    let u = v + w;
    if n == 0 {
        lemma_kept_first(v, w, v.len() as int);
        assert(fts::kept_tokens(v, v.len() as int) + fts::kept_tokens(w, 0) =~= fts::kept_tokens(v, v.len() as int));
    } else {
        lemma_kept_both(v, w, n - 1);
        assert(u[v.len() + n - 1] == w[n - 1]);
        let a = fts::kept_tokens(v, v.len() as int);
        let b = fts::kept_tokens(w, n - 1);
        assert((a + b).push(w[n - 1]) =~= a + b.push(w[n - 1]));
    }
}

proof fn lemma_kept_first(v: Seq<Seq<char>>, w: Seq<Seq<char>>, n: int)
    requires
        0 <= n <= v.len(),
    ensures
        fts::kept_tokens(v + w, n) == fts::kept_tokens(v, n),
    decreases n,
{
    if n > 0 {
        lemma_kept_first(v, w, n - 1);
        assert((v + w)[n - 1] == v[n - 1]);
    }
}

/// The tokens of a text of two parts are those of the parts, where lower case of the whole is
/// that of the parts.
pub(crate) proof fn lemma_tokens_of_parts(q1: Seq<char>, q2: Seq<char>)
    requires
        text::lowercase(text::spaced(q1, q2)) == text::spaced(text::lowercase(q1), text::lowercase(q2)),
    ensures
        fts::tokens(text::spaced(q1, q2)) == fts::tokens(q1) + fts::tokens(q2),
{
    let a = text::lowercase(q1);
    let b = text::lowercase(q2);
    let s = text::spaced(a, b);
    let after = a.len() as int + 1;
    let v = fts::words_from(a, 0);
    let w = fts::words_from(b, 0);
    assert(s.subrange(0, a.len() as int) =~= a);
    assert(s[a.len() as int] == ' ');
    lemma_words_in(a, s, 0, 0);
    assert(s.subrange(after, s.len() as int) =~= b);
    lemma_words_in(b, s, after, 0);
    assert(fts::words_from(s, s.len() as int) =~= Seq::empty());
    assert(fts::words_from(s, after) =~= w);
    assert(fts::words_from(s, a.len() as int) == fts::words_from(s, after));
    assert(fts::words_from(s, 0) == v + w);
    lemma_kept_both(v, w, w.len() as int);
}

/// A query whose tokens are those of two others, each with some, finds exactly the documents that
/// both find.
pub proof fn lemma_two_parts(x: FtsV, q: Seq<char>, q1: Seq<char>, q2: Seq<char>, id: u64)
    requires
        fts::tokens(q1).len() > 0,
        fts::tokens(q2).len() > 0,
        fts::tokens(q) == fts::tokens(q1) + fts::tokens(q2),
    ensures
        fts::search_result(x, q).contains(id) == (fts::search_result(x, q1).contains(id) && fts::search_result(
            x,
            q2,
        ).contains(id)),
{
    let t1 = fts::tokens(q1);
    let t2 = fts::tokens(q2);
    let t = t1 + t2;
    let m = x.inverted;
    searching::lemma_docs_with_all(m, t1, t1.len() as int, id);
    searching::lemma_docs_with_all(m, t2, t2.len() as int, id);
    searching::lemma_docs_with_all(m, t, t.len() as int, id);
    if fts::docs_with_all(m, t, t.len() as int).contains(id) {
        assert forall|k: int| 0 <= k < t1.len() implies fts::docs_of(m, #[trigger] t1[k]).contains(id) by {
            assert(t[k] == t1[k]);
        }
        assert forall|k: int| 0 <= k < t2.len() implies fts::docs_of(m, #[trigger] t2[k]).contains(id) by {
            assert(t[t1.len() + k] == t2[k]);
        }
    }
    if fts::docs_with_all(m, t1, t1.len() as int).contains(id) && fts::docs_with_all(m, t2, t2.len() as int).contains(id) {
        assert forall|k: int| 0 <= k < t.len() implies fts::docs_of(m, #[trigger] t[k]).contains(id) by {
            if k < t1.len() {
                assert(t[k] == t1[k]);
            } else {
                assert(t[k] == t2[k - t1.len()]);
            }
        }
    }
}

} // verus!

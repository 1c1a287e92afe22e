//! Full-text search: an inverted index over the words of documents.
use regex::Regex;
use vstd::prelude::*;
use vstd::string::*;

use crate::assoc;
use crate::documents;
use crate::schema::RowId;
use crate::text;

verus! {

/// Whether a character belongs to a word.
pub open spec fn is_word(c: char) -> bool {
    ('a' <= c && c <= 'z') || ('A' <= c && c <= 'Z') || ('0' <= c && c <= '9')
}

/// The end of the run of word characters at `i`.
pub open spec fn word_end(s: Seq<char>, i: int) -> int
    decreases s.len() - i,
{
    if i < 0 || i >= s.len() || !is_word(s[i]) {
        i
    } else {
        word_end(s, i + 1)
    }
}

pub proof fn lemma_word_end(s: Seq<char>, i: int)
    requires
        0 <= i <= s.len(),
    ensures
        i <= word_end(s, i) <= s.len(),
        i < s.len() && is_word(s[i]) ==> i < word_end(s, i),
    decreases s.len() - i,
{
    if i < s.len() && is_word(s[i]) {
        lemma_word_end(s, i + 1);
    }
}

/// The longest runs of word characters from `i` on, in order.
pub open spec fn words_from(s: Seq<char>, i: int) -> Seq<Seq<char>>
    decreases s.len() - i,
{
    if i < 0 || i >= s.len() {
        Seq::empty()
    } else if !is_word(s[i]) {
        words_from(s, i + 1)
    } else {
        proof {
            lemma_word_end(s, i);
        }
        seq![s.subrange(i, word_end(s, i))] + words_from(s, word_end(s, i))
    }
}

/// The pattern of a word.
pub open spec fn word_pattern() -> Seq<char> {
    "[a-zA-Z0-9]+"@
}

/// Calls `regex::Regex::find_iter` with the pattern of a word: the matches are the longest runs
/// of ASCII letters and digits, from left to right.
#[verifier::external_body]
fn find_words(pattern: &str, s: &str) -> (r: Vec<String>)
    requires
        pattern@ == word_pattern(),
    ensures
        r.deep_view() == words_from(s@, 0),
{
    Regex::new(pattern).unwrap().find_iter(s).map(|m| m.as_str().to_string()).collect()
}

/// The words that are too common to be searched for.
pub open spec fn is_stopword(w: Seq<char>) -> bool {
    w == "a"@ || w == "an"@ || w == "the"@ || w == "is"@ || w == "are"@ || w == "was"@ || w == "were"@ || w
        == "in"@ || w == "on"@ || w == "at"@ || w == "to"@ || w == "for"@ || w == "of"@ || w == "with"@ || w
        == "without"@ || w == "and"@ || w == "or"@ || w == "but"@ || w == "so"@ || w == "yet"@
}

fn stopword(w: &str) -> (r: bool)
    ensures
        r == is_stopword(w@),
{
    text::text_eq(w, "a") || text::text_eq(w, "an") || text::text_eq(w, "the") || text::text_eq(w, "is") || text::text_eq(w, "are")
        || text::text_eq(w, "was") || text::text_eq(w, "were") || text::text_eq(w, "in") || text::text_eq(w, "on") || text::text_eq(w, "at")
        || text::text_eq(w, "to") || text::text_eq(w, "for") || text::text_eq(w, "of") || text::text_eq(w, "with") || text::text_eq(
        w,
        "without",
    ) || text::text_eq(w, "and") || text::text_eq(w, "or") || text::text_eq(w, "but") || text::text_eq(w, "so") || text::text_eq(w, "yet")
}

/// Whether a word is indexed: it has more than two characters and is no stopword.
pub open spec fn is_token(w: Seq<char>) -> bool {
    w.len() > 2 && !is_stopword(w)
}

/// The words of a list that are indexed, up to `n`.
pub open spec fn kept_tokens(words: Seq<Seq<char>>, n: int) -> Seq<Seq<char>>
    decreases n,
{
    if n <= 0 || n > words.len() {
        Seq::empty()
    } else if is_token(words[n - 1]) {
        kept_tokens(words, n - 1).push(words[n - 1])
    } else {
        kept_tokens(words, n - 1)
    }
}

/// The tokens of a text: its words in lower case that are indexed.
pub open spec fn tokens(text: Seq<char>) -> Seq<Seq<char>> {
    let words = words_from(text::lowercase(text), 0);
    kept_tokens(words, words.len() as int)
}

/// A list of ids with one more, where it is not there.
pub open spec fn ids_with(ids: Seq<u64>, id: u64) -> Seq<u64> {
    if ids.contains(id) {
        ids
    } else {
        ids.push(id)
    }
}

/// A list of ids without one.
pub open spec fn ids_without(ids: Seq<u64>, id: u64) -> Seq<u64>
    decreases ids.len(),
{
    if ids.len() == 0 {
        ids
    } else if ids.last() == id {
        ids_without(ids.drop_last(), id)
    } else {
        ids_without(ids.drop_last(), id).push(ids.last())
    }
}

/// The ids of a list that another list holds too.
pub open spec fn ids_common(a: Seq<u64>, b: Seq<u64>) -> Seq<u64>
    decreases a.len(),
{
    if a.len() == 0 {
        a
    } else if b.contains(a.last()) {
        ids_common(a.drop_last(), b).push(a.last())
    } else {
        ids_common(a.drop_last(), b)
    }
}

pub fn contains_id(ids: &Vec<u64>, id: u64) -> (r: bool)
    ensures
        r == ids@.contains(id),
{
    let mut i: usize = 0;
    while i < ids.len()
        invariant
            i <= ids@.len(),
            forall|j: int| 0 <= j < i ==> ids@[j] != id,
        decreases ids@.len() - i,
    {
        if ids[i] == id {
            return true;
        }
        i = i + 1;
    }
    false
}

pub fn copy_ids(ids: &Vec<u64>) -> (r: Vec<u64>)
    ensures
        r@ == ids@,
{
    let r = ids.clone();
    assert(r@ =~= ids@);
    r
}

pub fn drop_id(ids: &Vec<u64>, id: u64) -> (r: Vec<u64>)
    ensures
        r@ == ids_without(ids@, id),
{
    let mut out: Vec<u64> = Vec::new();
    let mut i: usize = 0;
    assert(ids@.take(0) =~= Seq::empty());
    while i < ids.len()
        invariant
            i <= ids@.len(),
            out@ == ids_without(ids@.take(i as int), id),
        decreases ids@.len() - i,
    {
        proof {
            assert(ids@.take(i + 1).drop_last() =~= ids@.take(i as int));
        }
        if ids[i] != id {
            out.push(ids[i]);
        }
        i = i + 1;
    }
    assert(ids@.take(i as int) =~= ids@);
    out
}

fn common_ids(a: &Vec<u64>, b: &Vec<u64>) -> (r: Vec<u64>)
    ensures
        r@ == ids_common(a@, b@),
{
    let mut out: Vec<u64> = Vec::new();
    let mut i: usize = 0;
    assert(a@.take(0) =~= Seq::empty());
    while i < a.len()
        invariant
            i <= a@.len(),
            out@ == ids_common(a@.take(i as int), b@),
        decreases a@.len() - i,
    {
        proof {
            assert(a@.take(i + 1).drop_last() =~= a@.take(i as int));
        }
        if contains_id(b, a[i]) {
            out.push(a[i]);
        }
        i = i + 1;
    }
    assert(a@.take(i as int) =~= a@);
    out
}

/// An inverted index: the documents of each token.
pub struct FtsIndex {
    inverted: Vec<(String, Vec<u64>)>,
    doc_lengths: Vec<(u64, usize)>,
    total_docs: usize,
}

/// What an inverted index holds.
pub struct FtsV {
    pub inverted: Seq<(Seq<char>, Seq<u64>)>,
    pub doc_lengths: Seq<(u64, usize)>,
    pub total_docs: usize,
}

pub open spec fn postings(s: Seq<(String, Vec<u64>)>) -> Seq<(Seq<char>, Seq<u64>)> {
    Seq::new(s.len(), |i: int| (s[i].0@, s[i].1@))
}

impl View for FtsIndex {
    type V = FtsV;

    closed spec fn view(&self) -> FtsV {
        FtsV {
            inverted: postings(self.inverted@),
            doc_lengths: self.doc_lengths@,
            total_docs: self.total_docs,
        }
    }
}

/// Whether each word stands in the postings once, with at least one document, and no document
/// twice.
pub open spec fn tidy_postings(m: Seq<(Seq<char>, Seq<u64>)>) -> bool {
    assoc::assoc_distinct(m) && tidy_lists(m)
}

/// Whether each list of documents has at least one, and none twice.
pub open spec fn tidy_lists(m: Seq<(Seq<char>, Seq<u64>)>) -> bool {
    forall|i: int| 0 <= i < m.len() ==> (#[trigger] m[i]).1.len() > 0 && m[i].1.no_duplicates()
}

/// Whether nothing stands in an index twice.
pub open spec fn tidy(x: FtsV) -> bool {
    tidy_postings(x.inverted) && assoc::assoc_distinct(x.doc_lengths)
}

impl FtsIndex {
    #[verifier::type_invariant]
    spec fn kept_tidy(self) -> bool {
        tidy(self@)
    }
}

proof fn lemma_put_lists(m: Seq<(Seq<char>, Seq<u64>)>, t: Seq<char>, d: Seq<u64>)
    requires
        tidy_lists(m),
        d.len() > 0,
        d.no_duplicates(),
    ensures
        tidy_lists(assoc::assoc_put(m, t, d)),
    decreases m.len(),
{
    let w = assoc::assoc_put(m, t, d);
    if m.len() > 0 && m[0].0 != t {
        let r = m.drop_first();
        assert forall|i: int| 0 <= i < r.len() implies (#[trigger] r[i]).1.len() > 0 && r[i].1.no_duplicates() by {
            assert(r[i] == m[i + 1]);
        }
        lemma_put_lists(r, t, d);
        let q = assoc::assoc_put(r, t, d);
        assert forall|i: int| 0 <= i < w.len() implies (#[trigger] w[i]).1.len() > 0 && w[i].1.no_duplicates() by {
            if i == 0 {
                assert(w[0] == m[0]);
            } else {
                assert(w[i] == q[i - 1]);
            }
        }
    } else {
        assert forall|i: int| 0 <= i < w.len() implies (#[trigger] w[i]).1.len() > 0 && w[i].1.no_duplicates() by {
            if i > 0 {
                assert(w[i] == m[i]);
            }
        }
    }
}

proof fn lemma_remove_lists(m: Seq<(Seq<char>, Seq<u64>)>, t: Seq<char>)
    requires
        tidy_lists(m),
    ensures
        tidy_lists(assoc::assoc_remove(m, t)),
    decreases m.len(),
{
    if m.len() > 0 {
        let r = m.drop_first();
        assert forall|i: int| 0 <= i < r.len() implies (#[trigger] r[i]).1.len() > 0 && r[i].1.no_duplicates() by {
            assert(r[i] == m[i + 1]);
        }
        lemma_remove_lists(r, t);
        let w = assoc::assoc_remove(m, t);
        let q = assoc::assoc_remove(r, t);
        assert forall|i: int| 0 <= i < w.len() implies (#[trigger] w[i]).1.len() > 0 && w[i].1.no_duplicates() by {
            if m[0].0 != t {
                if i == 0 {
                    assert(w[0] == m[0]);
                } else {
                    assert(w[i] == q[i - 1]);
                }
            }
        }
    }
}

proof fn lemma_docs_tidy(m: Seq<(Seq<char>, Seq<u64>)>, t: Seq<char>)
    requires
        tidy_lists(m),
    ensures
        docs_of(m, t).no_duplicates(),
    decreases m.len(),
{
    if m.len() > 0 {
        if m[0].0 == t {
            assert(docs_of(m, t) == m[0].1);
        } else {
            let r = m.drop_first();
            assert forall|i: int| 0 <= i < r.len() implies (#[trigger] r[i]).1.len() > 0 && r[i].1.no_duplicates() by {
                assert(r[i] == m[i + 1]);
            }
            lemma_docs_tidy(r, t);
            assert(docs_of(m, t) == docs_of(r, t));
        }
    }
}

/// A list without repeats has none after an id left it.
pub proof fn lemma_ids_without_tidy(ids: Seq<u64>, id: u64)
    requires
        ids.no_duplicates(),
    ensures
        ids_without(ids, id).no_duplicates(),
        forall|x: u64| #[trigger] ids_without(ids, id).contains(x) ==> ids.contains(x),
    decreases ids.len(),
{
    if ids.len() > 0 {
        let d = ids.drop_last();
        lemma_ids_without_tidy(d, id);
        let w = ids_without(d, id);
        let q = ids_without(ids, id);
        assert forall|x: u64| #[trigger] q.contains(x) implies ids.contains(x) by {
            let k = choose|k: int| 0 <= k < q.len() && q[k] == x;
            if k < w.len() {
                assert(w[k] == x);
                assert(w.contains(x));
                let j = choose|j: int| 0 <= j < d.len() && d[j] == x;
                assert(ids[j] == x);
            } else {
                assert(ids[ids.len() - 1] == x);
            }
        }
        if ids.last() != id {
            assert forall|i: int, j: int| 0 <= i < q.len() && 0 <= j < q.len() && i != j implies q[i] != q[j] by {
                if i == w.len() || j == w.len() {
                    let a = if i == w.len() {
                        j
                    } else {
                        i
                    };
                    assert(w.contains(w[a]));
                    let b = choose|b: int| 0 <= b < d.len() && d[b] == w[a];
                    assert(ids[b] == w[a] && ids[b] != ids[ids.len() - 1]);
                } else {
                    assert(w[i] != w[j]);
                }
            }
        }
    }
}

proof fn lemma_ids_common_tidy(a: Seq<u64>, b: Seq<u64>)
    requires
        a.no_duplicates(),
    ensures
        ids_common(a, b).no_duplicates(),
        forall|x: u64| #[trigger] ids_common(a, b).contains(x) ==> a.contains(x),
    decreases a.len(),
{
    if a.len() > 0 {
        let d = a.drop_last();
        lemma_ids_common_tidy(d, b);
        let w = ids_common(d, b);
        let q = ids_common(a, b);
        assert forall|x: u64| #[trigger] q.contains(x) implies a.contains(x) by {
            let k = choose|k: int| 0 <= k < q.len() && q[k] == x;
            if k < w.len() {
                assert(w[k] == x);
                assert(w.contains(x));
                let j = choose|j: int| 0 <= j < d.len() && d[j] == x;
                assert(a[j] == x);
            } else {
                assert(a[a.len() - 1] == x);
            }
        }
        if b.contains(a.last()) {
            assert forall|i: int, j: int| 0 <= i < q.len() && 0 <= j < q.len() && i != j implies q[i] != q[j] by {
                if i == w.len() || j == w.len() {
                    let x = if i == w.len() {
                        j
                    } else {
                        i
                    };
                    assert(w.contains(w[x]));
                    let y = choose|y: int| 0 <= y < d.len() && d[y] == w[x];
                    assert(a[y] == w[x] && a[y] != a[a.len() - 1]);
                } else {
                    assert(w[i] != w[j]);
                }
            }
        }
    }
}

/// Postings stay tidy with a document.
pub proof fn lemma_posted_tidy(m: Seq<(Seq<char>, Seq<u64>)>, ts: Seq<Seq<char>>, n: int, id: u64)
    requires
        tidy_postings(m),
    ensures
        tidy_postings(posted(m, ts, n, id)),
    decreases n,
{
    if n > 0 && n <= ts.len() {
        lemma_posted_tidy(m, ts, n - 1, id);
        let p = posted(m, ts, n - 1, id);
        let d = docs_of(p, ts[n - 1]);
        lemma_docs_tidy(p, ts[n - 1]);
        assert(ids_with(d, id).no_duplicates());
        assoc::lemma_put_distinct(p, ts[n - 1], ids_with(d, id));
        lemma_put_lists(p, ts[n - 1], ids_with(d, id));
    }
}

/// Postings stay tidy without a document.
pub proof fn lemma_unposted_tidy(m: Seq<(Seq<char>, Seq<u64>)>, ts: Seq<Seq<char>>, n: int, id: u64)
    requires
        tidy_postings(m),
    ensures
        tidy_postings(unposted(m, ts, n, id)),
    decreases n,
{
    if n > 0 && n <= ts.len() {
        lemma_unposted_tidy(m, ts, n - 1, id);
        let p = unposted(m, ts, n - 1, id);
        let t = ts[n - 1];
        match assoc::assoc_get(p, t) {
            Some(d) => {
                lemma_docs_tidy(p, t);
                assert(docs_of(p, t) == d);
                lemma_ids_without_tidy(d, id);
                assoc::lemma_remove_distinct(p, t);
                assoc::lemma_put_distinct(p, t, ids_without(d, id));
                lemma_remove_lists(p, t);
                if ids_without(d, id).len() > 0 {
                    lemma_put_lists(p, t, ids_without(d, id));
                }
            },
            None => {},
        }
    }
}

/// A search of a tidy index lists no document twice.
pub proof fn lemma_search_tidy(x: FtsV, query: Seq<char>)
    requires
        tidy(x),
    ensures
        search_result(x, query).no_duplicates(),
{
    lemma_docs_with_all_tidy(x.inverted, tokens(query), tokens(query).len() as int);
}

proof fn lemma_docs_with_all_tidy(m: Seq<(Seq<char>, Seq<u64>)>, ts: Seq<Seq<char>>, n: int)
    requires
        tidy_lists(m),
    ensures
        docs_with_all(m, ts, n).no_duplicates(),
    decreases n,
{
    if n > 0 && n <= ts.len() {
        if n == 1 {
            lemma_docs_tidy(m, ts[0]);
        } else {
            lemma_docs_with_all_tidy(m, ts, n - 1);
            lemma_ids_common_tidy(docs_with_all(m, ts, n - 1), docs_of(m, ts[n - 1]));
        }
    }
}

/// An index stays tidy with a document.
pub proof fn lemma_with_document_tidy(x: FtsV, id: u64, content: Seq<char>)
    requires
        tidy(x),
    ensures
        tidy(with_document(x, id, content)),
{
    let ts = tokens(content);
    lemma_posted_tidy(x.inverted, ts, ts.len() as int, id);
    assoc::lemma_put_distinct(x.doc_lengths, id, ts.len() as usize);
}

/// An index stays tidy without a document.
pub proof fn lemma_without_document_tidy(x: FtsV, id: u64, content: Seq<char>)
    requires
        tidy(x),
    ensures
        tidy(without_document(x, id, content)),
{
    let ts = tokens(content);
    lemma_unposted_tidy(x.inverted, ts, ts.len() as int, id);
    assoc::lemma_remove_distinct(x.doc_lengths, id);
}

/// An index of nothing.
pub open spec fn empty_index() -> FtsV {
    FtsV { inverted: Seq::empty(), doc_lengths: Seq::empty(), total_docs: 0 }
}

/// The documents of a token, none where there are none.
pub open spec fn docs_of(m: Seq<(Seq<char>, Seq<u64>)>, t: Seq<char>) -> Seq<u64> {
    match assoc::assoc_get(m, t) {
        Some(d) => d,
        None => Seq::empty(),
    }
}

/// The postings with a document under the first `n` tokens.
pub open spec fn posted(m: Seq<(Seq<char>, Seq<u64>)>, ts: Seq<Seq<char>>, n: int, id: u64) -> Seq<
    (Seq<char>, Seq<u64>),
>
    decreases n,
{
    if n <= 0 || n > ts.len() {
        m
    } else {
        let p = posted(m, ts, n - 1, id);
        assoc::assoc_put(p, ts[n - 1], ids_with(docs_of(p, ts[n - 1]), id))
    }
}

/// The postings without a document under a token; a token without documents leaves.
pub open spec fn unposted_one(m: Seq<(Seq<char>, Seq<u64>)>, t: Seq<char>, id: u64) -> Seq<(Seq<char>, Seq<u64>)> {
    match assoc::assoc_get(m, t) {
        None => m,
        Some(d) => if ids_without(d, id).len() == 0 {
            assoc::assoc_remove(m, t)
        } else {
            assoc::assoc_put(m, t, ids_without(d, id))
        },
    }
}

/// The postings without a document under the first `n` tokens.
pub open spec fn unposted(m: Seq<(Seq<char>, Seq<u64>)>, ts: Seq<Seq<char>>, n: int, id: u64) -> Seq<
    (Seq<char>, Seq<u64>),
>
    decreases n,
{
    if n <= 0 || n > ts.len() {
        m
    } else {
        unposted_one(unposted(m, ts, n - 1, id), ts[n - 1], id)
    }
}

/// The index with a document.
pub open spec fn with_document(x: FtsV, id: u64, content: Seq<char>) -> FtsV {
    let ts = tokens(content);
    FtsV {
        inverted: posted(x.inverted, ts, ts.len() as int, id),
        doc_lengths: assoc::assoc_put(x.doc_lengths, id, ts.len() as usize),
        total_docs: if x.total_docs < usize::MAX {
            (x.total_docs + 1) as usize
        } else {
            x.total_docs
        },
    }
}

/// The index without a document.
pub open spec fn without_document(x: FtsV, id: u64, content: Seq<char>) -> FtsV {
    let ts = tokens(content);
    FtsV {
        inverted: unposted(x.inverted, ts, ts.len() as int, id),
        doc_lengths: assoc::assoc_remove(x.doc_lengths, id),
        total_docs: if x.total_docs > 0 {
            (x.total_docs - 1) as usize
        } else {
            0
        },
    }
}

/// The documents that hold each of the first `n` tokens, in the order of the first token's.
pub open spec fn docs_with_all(m: Seq<(Seq<char>, Seq<u64>)>, ts: Seq<Seq<char>>, n: int) -> Seq<u64>
    decreases n,
{
    if n <= 0 || n > ts.len() {
        Seq::empty()
    } else if n == 1 {
        docs_of(m, ts[0])
    } else {
        ids_common(docs_with_all(m, ts, n - 1), docs_of(m, ts[n - 1]))
    }
}

/// The documents that hold every token of a query; none where the query has no token.
pub open spec fn search_result(x: FtsV, query: Seq<char>) -> Seq<u64> {
    docs_with_all(x.inverted, tokens(query), tokens(query).len() as int)
}

/// Whether documents are those that both parts of a query find, for each way to part it at a
/// space such that both parts have a token.
pub open spec fn finds_both(x: FtsV, query: Seq<char>, docs: Seq<u64>) -> bool {
    forall|a: Seq<char>, b: Seq<char>, id: u64|
        query == #[trigger] text::spaced(a, b) && tokens(a).len() > 0 && tokens(b).len() > 0 ==> #[trigger] docs.contains(id)
            == (search_result(x, a).contains(id) && search_result(x, b).contains(id))
}

fn tokenize(text: &str) -> (r: Vec<String>)
    ensures
        r.deep_view() == tokens(text@),
        forall|a: Seq<char>, b: Seq<char>| text@ == #[trigger] text::spaced(a, b) ==> tokens(text@) == tokens(a) + tokens(b),
{
    let lower = text::to_lower(text);
    proof {
        assert forall|a: Seq<char>, b: Seq<char>| text@ == #[trigger] text::spaced(a, b) implies tokens(text@) == tokens(a)
            + tokens(b) by {
            documents::lemma_tokens_of_parts(a, b);
        }
    }
    let words = find_words("[a-zA-Z0-9]+", lower.as_str());
    let ghost wv = words.deep_view();
    let mut out: Vec<String> = Vec::new();
    let mut i: usize = 0;
    assert(out.deep_view() =~= kept_tokens(wv, 0));
    while i < words.len()
        invariant
            i <= words@.len(),
            wv == words.deep_view(),
            out.deep_view() == kept_tokens(wv, i as int),
        decreases words@.len() - i,
    {
        assert(wv[i as int] == words@[i as int]@);
        if words[i].as_str().unicode_len() > 2 && !stopword(words[i].as_str()) {
            let ghost before = out.deep_view();
            out.push(words[i].clone());
            assert(out.deep_view() =~= before.push(wv[i as int]));
        }
        i = i + 1;
    }
    out
}

fn find_token(m: &Vec<(String, Vec<u64>)>, t: &str) -> (r: Option<usize>)
    ensures
        match r {
            Some(i) => {
                &&& i < m@.len()
                &&& postings(m@)[i as int].0 == t@
                &&& assoc::assoc_get(postings(m@), t@) == Some(m@[i as int].1@)
                &&& assoc::assoc_put_at(postings(m@), t@, i as int)
                &&& assoc::assoc_remove(postings(m@), t@) == postings(m@).remove(i as int)
            },
            None => {
                &&& assoc::assoc_get(postings(m@), t@) is None
                &&& forall|j: int| 0 <= j < m@.len() ==> (#[trigger] postings(m@)[j]).0 != t@
            },
        },
{
    let ghost v = postings(m@);
    let mut i: usize = 0;
    while i < m.len()
        invariant
            i <= m@.len(),
            v == postings(m@),
            forall|j: int| 0 <= j < i ==> (#[trigger] v[j]).0 != t@,
        decreases m@.len() - i,
    {
        if text::text_eq(m[i].0.as_str(), t) {
            proof {
                assert(v[i as int].0 == t@);
                assoc::lemma_get_at(v, t@, i as int);
            }
            return Some(i);
        }
        assert(v[i as int].0 != t@);
        i = i + 1;
    }
    proof {
        assoc::lemma_get_absent(v, t@);
    }
    None
}

fn find_length(m: &Vec<(u64, usize)>, id: u64) -> (r: Option<usize>)
    ensures
        match r {
            Some(i) => {
                &&& i < m@.len()
                &&& m@[i as int].0 == id
                &&& assoc::assoc_get(m@, id) == Some(m@[i as int].1)
                &&& assoc::assoc_put_at(m@, id, i as int)
                &&& assoc::assoc_remove(m@, id) == m@.remove(i as int)
            },
            None => {
                &&& assoc::assoc_get(m@, id) is None
                &&& forall|j: int| 0 <= j < m@.len() ==> (#[trigger] m@[j]).0 != id
            },
        },
{
    let mut i: usize = 0;
    while i < m.len()
        invariant
            i <= m@.len(),
            forall|j: int| 0 <= j < i ==> (#[trigger] m@[j]).0 != id,
        decreases m@.len() - i,
    {
        if m[i].0 == id {
            proof {
                assoc::lemma_get_at(m@, id, i as int);
            }
            return Some(i);
        }
        i = i + 1;
    }
    proof {
        assoc::lemma_get_absent(m@, id);
    }
    None
}

fn post(m: &mut Vec<(String, Vec<u64>)>, t: &str, id: u64)
    ensures
        postings(final(m)@) == assoc::assoc_put(
            postings(old(m)@),
            t@,
            ids_with(docs_of(postings(old(m)@), t@), id),
        ),
{
    let ghost before = postings(m@);
    match find_token(m, t) {
        Some(i) => {
            let mut d = copy_ids(&m[i].1);
            if !contains_id(&d, id) {
                d.push(id);
            }
            let ghost dv = d@;
            m.set(i, (t.to_owned(), d));
            assert(postings(m@) =~= before.update(i as int, (t@, dv)));
        },
        None => {
            let mut d: Vec<u64> = Vec::new();
            d.push(id);
            let ghost dv = d@;
            m.push((t.to_owned(), d));
            proof {
                assert(dv =~= ids_with(Seq::empty(), id));
                assert(postings(m@) =~= before.push((t@, dv)));
                assoc::lemma_put_absent(before, t@, dv);
            }
        },
    }
}

fn unpost(m: &mut Vec<(String, Vec<u64>)>, t: &str, id: u64)
    ensures
        postings(final(m)@) == unposted_one(postings(old(m)@), t@, id),
{
    let ghost before = postings(m@);
    match find_token(m, t) {
        Some(i) => {
            let d = drop_id(&m[i].1, id);
            let ghost dv = d@;
            if d.len() == 0 {
                m.remove(i);
                assert(postings(m@) =~= before.remove(i as int));
            } else {
                m.set(i, (t.to_owned(), d));
                assert(postings(m@) =~= before.update(i as int, (t@, dv)));
            }
        },
        None => {},
    }
}

impl FtsIndex {
    pub fn new() -> (r: FtsIndex)
        ensures
            r@ == empty_index(),
    {
        let r = FtsIndex { inverted: Vec::new(), doc_lengths: Vec::new(), total_docs: 0 };
        assert(r@.inverted =~= Seq::empty());
        assert(r@.doc_lengths =~= Seq::empty());
        r
    }

    pub fn add_document(&mut self, rowid: RowId, content: &str)
        ensures
            final(self)@ == with_document(old(self)@, rowid, content@),
    {
        proof {
            use_type_invariant(&*self);
        }
        let ts = tokenize(content);
        let ghost tv = ts.deep_view();
        let ghost start = self@;
        let mut lengths: Vec<(u64, usize)> = Vec::new();
        let mut inverted: Vec<(String, Vec<u64>)> = Vec::new();
        std::mem::swap(&mut lengths, &mut self.doc_lengths);
        std::mem::swap(&mut inverted, &mut self.inverted);
        match find_length(&lengths, rowid) {
            Some(i) => {
                lengths.set(i, (rowid, ts.len()));
            },
            None => {
                proof {
                    assoc::lemma_put_absent(start.doc_lengths, rowid, ts@.len() as usize);
                }
                lengths.push((rowid, ts.len()));
            },
        }
        let mut k: usize = 0;
        while k < ts.len()
            invariant
                k <= ts@.len(),
                tv == ts.deep_view(),
                postings(inverted@) == posted(start.inverted, tv, k as int, rowid),
            decreases ts@.len() - k,
        {
            assert(tv[k as int] == ts@[k as int]@);
            post(&mut inverted, ts[k].as_str(), rowid);
            k = k + 1;
        }
        proof {
            lemma_with_document_tidy(start, rowid, content@);
        }
        self.doc_lengths = lengths;
        self.inverted = inverted;
        if self.total_docs < usize::MAX {
            self.total_docs = self.total_docs + 1;
        }
    }

    pub fn remove_document(&mut self, rowid: RowId, content: &str)
        ensures
            final(self)@ == without_document(old(self)@, rowid, content@),
    {
        proof {
            use_type_invariant(&*self);
        }
        let ts = tokenize(content);
        let ghost tv = ts.deep_view();
        let ghost start = self@;
        let mut lengths: Vec<(u64, usize)> = Vec::new();
        let mut inverted: Vec<(String, Vec<u64>)> = Vec::new();
        std::mem::swap(&mut lengths, &mut self.doc_lengths);
        std::mem::swap(&mut inverted, &mut self.inverted);
        let mut k: usize = 0;
        while k < ts.len()
            invariant
                k <= ts@.len(),
                tv == ts.deep_view(),
                postings(inverted@) == unposted(start.inverted, tv, k as int, rowid),
            decreases ts@.len() - k,
        {
            assert(tv[k as int] == ts@[k as int]@);
            unpost(&mut inverted, ts[k].as_str(), rowid);
            k = k + 1;
        }
        match find_length(&lengths, rowid) {
            Some(i) => {
                lengths.remove(i);
            },
            None => {
                proof {
                    assoc::lemma_remove_absent(start.doc_lengths, rowid);
                }
            },
        }
        proof {
            lemma_without_document_tidy(start, rowid, content@);
        }
        self.doc_lengths = lengths;
        self.inverted = inverted;
        if self.total_docs > 0 {
            self.total_docs = self.total_docs - 1;
        }
    }

    fn docs(&self, t: &str) -> (r: Vec<RowId>)
        ensures
            r@ == docs_of(self@.inverted, t@),
    {
        match find_token(&self.inverted, t) {
            Some(i) => copy_ids(&self.inverted[i].1),
            None => {
                let r: Vec<u64> = Vec::new();
                assert(r@ =~= Seq::empty());
                r
            },
        }
    }

    /// The documents that hold every token of a query, each once. A query of two parts, each
    /// with a token, finds exactly the documents that both parts find.
    pub fn search(&self, query: &str) -> (r: Vec<RowId>)
        ensures
            r@ == search_result(self@, query@),
            r@.no_duplicates(),
            finds_both(self@, query@, r@),
    {
        proof {
            use_type_invariant(self);
            lemma_search_tidy(self@, query@);
        }
        let ts = tokenize(query);
        let ghost tv = ts.deep_view();
        proof {
            assert forall|a: Seq<char>, b: Seq<char>, id: u64|
                query@ == #[trigger] text::spaced(a, b) && tokens(a).len() > 0 && tokens(b).len()
                    > 0 implies #[trigger] search_result(self@, query@).contains(id) == (search_result(self@, a).contains(id)
                && search_result(self@, b).contains(id)) by {
                documents::lemma_two_parts(self@, query@, a, b, id);
            }
        }
        if ts.len() == 0 {
            let r: Vec<u64> = Vec::new();
            assert(r@ =~= Seq::empty());
            return r;
        }
        assert(tv[0] == ts@[0]@);
        let mut out = self.docs(ts[0].as_str());
        let mut k: usize = 1;
        while k < ts.len()
            invariant
                1 <= k <= ts@.len(),
                tv == ts.deep_view(),
                out@ == docs_with_all(self@.inverted, tv, k as int),
            decreases ts@.len() - k,
        {
            assert(tv[k as int] == ts@[k as int]@);
            let d = self.docs(ts[k].as_str());
            out = common_ids(&out, &d);
            k = k + 1;
        }
        out
    }

    /// How many documents there are.
    pub fn total_docs(&self) -> (r: usize)
        ensures
            r == self@.total_docs,
    {
        self.total_docs
    }

    /// The documents of each token of a query that has some, each with its length in tokens.
    pub fn ranked_terms(&self, query: &str) -> (r: Vec<Vec<(RowId, usize)>>)
        ensures
            term_views(r@) == terms_of(self@, tokens(query@), tokens(query@).len() as int),
    {
        let ts = tokenize(query);
        let ghost tv = ts.deep_view();
        let mut out: Vec<Vec<(u64, usize)>> = Vec::new();
        let mut k: usize = 0;
        assert(term_views(out@) =~= Seq::empty());
        while k < ts.len()
            invariant
                k <= ts@.len(),
                tv == ts.deep_view(),
                term_views(out@) == terms_of(self@, tv, k as int),
            decreases ts@.len() - k,
        {
            assert(tv[k as int] == ts@[k as int]@);
            match find_token(&self.inverted, ts[k].as_str()) {
                Some(i) => {
                    let d = copy_ids(&self.inverted[i].1);
                    let mut list: Vec<(u64, usize)> = Vec::new();
                    let mut j: usize = 0;
                    while j < d.len()
                        invariant
                            j <= d@.len(),
                            list@.len() == j,
                            forall|x: int| 0 <= x < j ==> #[trigger] list@[x] == (d@[x], length_of(self@, d@[x])),
                        decreases d@.len() - j,
                    {
                        let n: usize = match find_length(&self.doc_lengths, d[j]) {
                            Some(x) => self.doc_lengths[x].1,
                            None => 0,
                        };
                        list.push((d[j], n));
                        j = j + 1;
                    }
                    assert(list@ =~= with_lengths(self@, d@));
                    let ghost before = term_views(out@);
                    let ghost lv = list@;
                    out.push(list);
                    assert(term_views(out@) =~= before.push(lv));
                },
                None => {},
            }
            k = k + 1;
        }
        out
    }

    /// The lengths of all documents.
    pub fn lengths(&self) -> (r: &Vec<(RowId, usize)>)
        ensures
            r@ == self@.doc_lengths,
    {
        &self.doc_lengths
    }
}

/// The length of a document in tokens, zero where it is not known.
pub open spec fn length_of(x: FtsV, id: u64) -> usize {
    match assoc::assoc_get(x.doc_lengths, id) {
        Some(n) => n,
        None => 0,
    }
}

/// Documents with their lengths.
pub open spec fn with_lengths(x: FtsV, d: Seq<u64>) -> Seq<(u64, usize)> {
    Seq::new(d.len(), |i: int| (d[i], length_of(x, d[i])))
}

/// The documents of each of the first `n` tokens that has some, with their lengths.
pub open spec fn terms_of(x: FtsV, ts: Seq<Seq<char>>, n: int) -> Seq<Seq<(u64, usize)>>
    decreases n,
{
    if n <= 0 || n > ts.len() {
        Seq::empty()
    } else {
        match assoc::assoc_get(x.inverted, ts[n - 1]) {
            Some(d) => terms_of(x, ts, n - 1).push(with_lengths(x, d)),
            None => terms_of(x, ts, n - 1),
        }
    }
}

pub open spec fn term_views(s: Seq<Vec<(u64, usize)>>) -> Seq<Seq<(u64, usize)>> {
    Seq::new(s.len(), |i: int| s[i]@)
}

/// A table whose content column is searched by words.
pub struct FtsVirtualTable {
    pub name: String,
    pub index: FtsIndex,
    pub content_column: String,
}

pub struct FtsTableV {
    pub name: Seq<char>,
    pub index: FtsV,
    pub content_column: Seq<char>,
}

impl View for FtsVirtualTable {
    type V = FtsTableV;

    open spec fn view(&self) -> FtsTableV {
        FtsTableV { name: self.name@, index: self.index@, content_column: self.content_column@ }
    }
}

impl FtsVirtualTable {
    pub fn new(name: &str, content_column: &str) -> (r: FtsVirtualTable)
        ensures
            r@ == (FtsTableV { name: name@, index: empty_index(), content_column: content_column@ }),
    {
        FtsVirtualTable {
            name: name.to_owned(),
            index: FtsIndex::new(),
            content_column: content_column.to_owned(),
        }
    }

    pub fn insert(&mut self, rowid: RowId, content: &str)
        ensures
            final(self)@ == (FtsTableV {
                index: with_document(old(self)@.index, rowid, content@),
                ..old(self)@
            }),
    {
        self.index.add_document(rowid, content);
    }

    pub fn delete(&mut self, rowid: RowId, content: &str)
        ensures
            final(self)@ == (FtsTableV {
                index: without_document(old(self)@.index, rowid, content@),
                ..old(self)@
            }),
    {
        self.index.remove_document(rowid, content);
    }

    pub fn search(&self, query: &str) -> (r: Vec<RowId>)
        ensures
            r@ == search_result(self@.index, query@),
            r@.no_duplicates(),
            finds_both(self@.index, query@, r@),
    {
        self.index.search(query)
    }
}

} // verus!

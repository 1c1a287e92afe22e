//! What is read out of texts: the words that a full-text index keeps, and what the text of a
//! trigger says.
use vstd::prelude::*;

use crate::definitions;
use crate::fts;
use crate::schema::{TriggerEvent, TriggerTiming, TriggerV};
use crate::sql::ddl;
use crate::text;

verus! {

/// Whether a part of a text is a run of word characters that goes on neither before nor behind it.
pub open spec fn is_run(s: Seq<char>, i: int, j: int) -> bool {
    &&& 0 <= i < j <= s.len()
    &&& forall|k: int| i <= k < j ==> fts::is_word(#[trigger] s[k])
    &&& i > 0 ==> !fts::is_word(s[i - 1])
    &&& j < s.len() ==> !fts::is_word(s[j])
}

/// Whether a word stands in a text by itself, from a place on.
pub open spec fn stands_alone(s: Seq<char>, from: int, w: Seq<char>) -> bool {
    exists|i: int, j: int| from <= i && #[trigger] is_run(s, i, j) && s.subrange(i, j) == w
}

proof fn lemma_run_end(s: Seq<char>, i: int)
    requires
        0 <= i <= s.len(),
    ensures
        i <= fts::word_end(s, i) <= s.len(),
        forall|k: int| i <= k < fts::word_end(s, i) ==> fts::is_word(#[trigger] s[k]),
        fts::word_end(s, i) < s.len() ==> !fts::is_word(s[fts::word_end(s, i)]),
    decreases s.len() - i,
{
    if i < s.len() && fts::is_word(s[i]) {
        lemma_run_end(s, i + 1);
    }
}

proof fn lemma_words(s: Seq<char>, i: int, w: Seq<char>)
    requires
        0 <= i <= s.len(),
        i > 0 && i < s.len() && fts::is_word(s[i]) ==> !fts::is_word(s[i - 1]),
    ensures
        fts::words_from(s, i).contains(w) == stands_alone(s, i, w),
    decreases s.len() - i,
{
    let ws = fts::words_from(s, i);
    if i >= s.len() {
        if stands_alone(s, i, w) {
            let (a, b) = choose|a: int, b: int| i <= a && #[trigger] is_run(s, a, b) && s.subrange(a, b) == w;
            assert(false);
        }
    } else if !fts::is_word(s[i]) {
        lemma_words(s, i + 1, w);
        if stands_alone(s, i, w) {
            let (a, b) = choose|a: int, b: int| i <= a && #[trigger] is_run(s, a, b) && s.subrange(a, b) == w;
            assert(fts::is_word(s[a]));
            assert(i + 1 <= a && is_run(s, a, b));
        }
        if stands_alone(s, i + 1, w) {
            let (a, b) = choose|a: int, b: int| i + 1 <= a && #[trigger] is_run(s, a, b) && s.subrange(a, b) == w;
            assert(i <= a && is_run(s, a, b));
        }
    } else {
        fts::lemma_word_end(s, i);
        lemma_run_end(s, i);
        let e = fts::word_end(s, i);
        let first = s.subrange(i, e);
        let rest = fts::words_from(s, e);
        lemma_words(s, e, w);
        assert(ws == seq![first] + rest);
        assert(is_run(s, i, e));
        if w == first {
            assert(ws[0] == w);
            assert(i <= i && is_run(s, i, e));
        }
        if rest.contains(w) {
            let k = choose|k: int| 0 <= k < rest.len() && rest[k] == w;
            assert(ws[k + 1] == w);
            let (a, b) = choose|a: int, b: int| e <= a && #[trigger] is_run(s, a, b) && s.subrange(a, b) == w;
            assert(i <= a && is_run(s, a, b));
        }
        if ws.contains(w) && w != first {
            let k = choose|k: int| 0 <= k < ws.len() && ws[k] == w;
            assert(rest[k - 1] == w);
        }
        if stands_alone(s, i, w) {
            let (a, b) = choose|a: int, b: int| i <= a && #[trigger] is_run(s, a, b) && s.subrange(a, b) == w;
            if a < e {
                if a > i {
                    assert(fts::is_word(s[a - 1]));
                }
                assert(a == i);
                if b < e {
                    assert(fts::is_word(s[b]));
                }
                if e < b {
                    assert(fts::is_word(s[e]));
                }
                assert(w == first);
            } else {
                assert(e <= a && is_run(s, a, b));
            }
        }
    }
}

proof fn lemma_kept(words: Seq<Seq<char>>, n: int, w: Seq<char>)
    requires
        0 <= n <= words.len(),
    ensures
        fts::kept_tokens(words, n).contains(w) == (words.take(n).contains(w) && w.len() > 2 && !fts::is_stopword(w)),
    decreases n,
{
    let some = words.take(n);
    if n > 0 {
        lemma_kept(words, n - 1, w);
        let p = fts::kept_tokens(words, n - 1);
        let earlier = words.take(n - 1);
        let q = fts::kept_tokens(words, n);
        assert(some =~= earlier.push(words[n - 1]));
        definitions::lemma_pushed(earlier, words[n - 1], w);
        if fts::is_token(words[n - 1]) {
            definitions::lemma_pushed(p, words[n - 1], w);
        }
    } else {
        assert(some =~= Seq::empty());
    }
}

/// The words of a text that a full-text index keeps are those that stand in it, in lower case, as
/// whole runs of letters and digits, and have more than two characters, but for the stopwords.
pub proof fn lemma_tokens(content: Seq<char>, w: Seq<char>)
    ensures
        fts::tokens(content).contains(w) == (stands_alone(text::lowercase(content), 0, w) && w.len() > 2 && !fts::is_stopword(w)),
{
    let s = text::lowercase(content);
    let words = fts::words_from(s, 0);
    lemma_words(s, 0, w);
    lemma_kept(words, words.len() as int, w);
    assert(words.take(words.len() as int) =~= words);
}

proof fn lemma_found(s: Seq<char>, pat: Seq<char>, i: int)
    requires
        0 <= i <= s.len() + 1,
    ensures
        match text::find_from(s, pat, i) {
            Some(k) => i <= k && text::stands_at(s, pat, k) && forall|j: int| i <= j < k ==> !#[trigger] text::stands_at(s, pat, j),
            None => forall|j: int| i <= j ==> !#[trigger] text::stands_at(s, pat, j),
        },
    decreases s.len() + 1 - i,
{
    if i <= s.len() && !text::stands_at(s, pat, i) {
        lemma_found(s, pat, i + 1);
    }
}

proof fn lemma_found_back(s: Seq<char>, pat: Seq<char>, i: int)
    requires
        -1 <= i <= s.len(),
    ensures
        match text::find_back(s, pat, i) {
            Some(k) => k <= i && text::stands_at(s, pat, k) && forall|j: int| k < j <= i ==> !#[trigger] text::stands_at(s, pat, j),
            None => forall|j: int| j <= i ==> !#[trigger] text::stands_at(s, pat, j),
        },
    decreases i + 1,
{
    if i >= 0 && !text::stands_at(s, pat, i) {
        lemma_found_back(s, pat, i - 1);
    }
}

/// Whether a word is another but for the case of its letters.
pub open spec fn reads(w: Seq<char>, word: Seq<char>) -> bool {
    text::capitals(w) == word
}

/// What the text of a trigger says: the word behind CREATE TRIGGER is its name, the next says when
/// it runs, the next on what, and the table stands behind ON. Its statements stand between the
/// first BEGIN and the last END, and its condition between WHEN and the BEGIN behind it.
pub proof fn lemma_trigger_text(whole: Seq<char>, t: TriggerV) -> (r: (int, int))
    requires
        ddl::trigger_of(whole) == Some(t),
    ensures
        ({
            let sql = text::trimmed(whole);
            let upper = text::capitals(sql);
            let w = text::parts_from(sql.skip(14), 0);
            let k: int = if t.timing == TriggerTiming::InsteadOf {
                3
            } else {
                2
            };
            &&& w.len() >= k + 3
            &&& t.name == w[0]
            &&& reads(w[1], "BEFORE"@) == (t.timing == TriggerTiming::Before)
            &&& reads(w[1], "AFTER"@) == (t.timing == TriggerTiming::After)
            &&& reads(w[1], "INSTEAD"@) == (t.timing == TriggerTiming::InsteadOf)
            &&& reads(w[k], "INSERT"@) == (t.event == TriggerEvent::Insert)
            &&& reads(w[k], "UPDATE"@) == (t.event == TriggerEvent::Update)
            &&& reads(w[k], "DELETE"@) == (t.event == TriggerEvent::Delete)
            &&& reads(w[k + 1], "ON"@)
            &&& t.table == ddl::unmarked(w[k + 2])
            &&& text::stands_at(upper, "BEGIN"@, r.0)
            &&& forall|j: int| 0 <= j < r.0 ==> !#[trigger] text::stands_at(upper, "BEGIN"@, j)
            &&& text::stands_at(upper, "END"@, r.1)
            &&& forall|j: int| r.1 < j ==> !#[trigger] text::stands_at(upper, "END"@, j)
            &&& r.0 + 5 <= r.1
            &&& t.body == text::trimmed(sql.subrange(r.0 + 5, r.1))
            &&& t.condition is Some ==> exists|a: int, b: int|
                #![trigger sql.subrange(a, b)]
                0 <= a - 6 && a <= b && text::stands_at(upper, " WHEN "@, a - 6) && text::stands_at(upper, " BEGIN "@, b)
                    && t.condition == Some(text::trimmed(sql.subrange(a, b)))
            &&& t.condition is None ==> forall|a: int, b: int|
                0 <= a <= b && #[trigger] text::stands_at(upper, " WHEN "@, a) && (forall|j: int|
                    0 <= j < a ==> !#[trigger] text::stands_at(upper, " WHEN "@, j)) ==> !#[trigger] text::stands_at(upper, " BEGIN "@, b)
        }),
{
    let sql = text::trimmed(whole);
    let upper = text::capitals(sql);
    reveal_strlit("CREATE TRIGGER");
    reveal_strlit("BEFORE");
    reveal_strlit("AFTER");
    reveal_strlit("INSTEAD");
    reveal_strlit("INSERT");
    reveal_strlit("UPDATE");
    reveal_strlit("DELETE");
    reveal_strlit("BEGIN");
    reveal_strlit(" BEGIN ");
    reveal_strlit(" WHEN ");
    reveal_strlit("END");
    assert("BEFORE"@.len() == 6 && "AFTER"@.len() == 5 && "INSTEAD"@.len() == 7);
    assert("INSERT"@[0] != "UPDATE"@[0] && "UPDATE"@[0] != "DELETE"@[0] && "INSERT"@[0] != "DELETE"@[0]);
    assert(sql.subrange(14, sql.len() as int) =~= sql.skip(14));
    lemma_found(upper, "BEGIN"@, 0);
    lemma_found_back(upper, "END"@, upper.len() as int);
    lemma_found(upper, " WHEN "@, 0);
    let b = text::find_from(upper, "BEGIN"@, 0)->0;
    let e = text::find_back(upper, "END"@, upper.len() as int)->0;
    assert forall|j: int| e < j implies !#[trigger] text::stands_at(upper, "END"@, j) by {}
    match text::find_from(upper, " WHEN "@, 0) {
        Some(w) => {
            lemma_found(upper, " BEGIN "@, w);
            match text::find_from(upper, " BEGIN "@, w) {
                Some(c) => {
                    assert(text::stands_at(upper, " WHEN "@, (w + 6) - 6));
                    assert(t.condition == Some(text::trimmed(sql.subrange(w + 6, c))));
                },
                None => {
                    assert forall|a: int, c: int|
                        0 <= a <= c && #[trigger] text::stands_at(upper, " WHEN "@, a) && (forall|j: int|
                            0 <= j < a ==> !#[trigger] text::stands_at(upper, " WHEN "@, j)) implies !#[trigger] text::stands_at(
                        upper,
                        " BEGIN "@,
                        c,
                    ) by {
                        assert(a == w) by {
                            if a < w {
                                assert(!text::stands_at(upper, " WHEN "@, a));
                            }
                            if w < a {
                                assert(!text::stands_at(upper, " WHEN "@, w));
                            }
                        }
                    }
                },
            }
        },
        None => {},
    }
    (b, e)
}

} // verus!

//! Text: comparison, search, splitting and decimal numbers.
use vstd::prelude::*;
use vstd::string::*;

verus! {

/// `String::push` puts one character behind the others.
pub assume_specification[ String::push ](s: &mut String, c: char)
    ensures
        final(s)@ == old(s)@.push(c),
;

/// What `str::to_lowercase` makes of a text.
pub uninterp spec fn lowercase(s: Seq<char>) -> Seq<char>;

/// What `str::to_uppercase` makes of a text.
pub uninterp spec fn uppercase(s: Seq<char>) -> Seq<char>;

/// Whether `char::is_whitespace` holds of a character.
pub uninterp spec fn white(c: char) -> bool;

/// Two texts with a space between them.
pub open spec fn spaced(a: Seq<char>, b: Seq<char>) -> Seq<char> {
    a + seq![' '] + b
}

/// Calls `str::to_lowercase`. The contract says that the result is a function of the text, and
/// that a space parts it: what a character becomes depends at most on the word that it is in.
#[verifier::external_body]
pub(crate) fn to_lower(s: &str) -> (r: String)
    ensures
        r@ == lowercase(s@),
        forall|a: Seq<char>, b: Seq<char>| s@ == #[trigger] spaced(a, b) ==> r@ == spaced(lowercase(a), lowercase(b)),
{
    s.to_lowercase()
}

/// Calls `str::to_uppercase`. The contract says only that the result is a function of the text.
#[verifier::external_body]
pub(crate) fn to_upper(s: &str) -> (r: String)
    ensures
        r@ == uppercase(s@),
{
    s.to_uppercase()
}

/// Calls `char::is_whitespace`. The contract says only that the result is a function of the
/// character.
#[verifier::external_body]
pub(crate) fn is_white(c: char) -> (r: bool)
    ensures
        r == white(c),
{
    c.is_whitespace()
}

/// The characters of `s`, in order.
pub fn chars_of(s: &str) -> (r: Vec<char>)
    ensures
        r@ == s@,
{
    let mut out: Vec<char> = Vec::new();
    for c in it: s.chars()
        invariant
            out@ == it.seq().take(it.index() as int),
            it.seq() == s@,
    {
        out.push(c);
        assert(out@ =~= it.seq().take(it.index() as int + 1));
    }
    assert(out@ =~= s@);
    out
}

/// The text of the characters from `from` up to `to`.
pub fn slice_text(v: &Vec<char>, from: usize, to: usize) -> (r: String)
    requires
        from <= to <= v@.len(),
    ensures
        r@ == v@.subrange(from as int, to as int),
{
    let mut out = String::new();
    let mut i: usize = from;
    while i < to
        invariant
            from <= i <= to <= v@.len(),
            out@ == v@.subrange(from as int, i as int),
        decreases to - i,
    {
        out.push(v[i]);
        i = i + 1;
        assert(out@ =~= v@.subrange(from as int, i as int));
    }
    out
}

/// The text of these characters.
pub fn string_of(v: &Vec<char>) -> (r: String)
    ensures
        r@ == v@,
{
    let r = slice_text(v, 0, v.len());
    assert(v@.subrange(0, v@.len() as int) =~= v@);
    r
}

pub fn text_eq(a: &str, b: &str) -> (r: bool)
    ensures
        r == (a@ == b@),
{
    a.to_owned() == b.to_owned()
}

pub fn text2(a: &str, b: &str) -> (r: String)
    ensures
        r@ == a@ + b@,
{
    let mut s = a.to_owned();
    s.append(b);
    s
}

pub fn text3(a: &str, b: &str, c: &str) -> (r: String)
    ensures
        r@ == a@ + b@ + c@,
{
    let mut s = a.to_owned();
    s.append(b);
    s.append(c);
    s
}

pub fn text4(a: &str, b: &str, c: &str, d: &str) -> (r: String)
    ensures
        r@ == a@ + b@ + c@ + d@,
{
    let mut s = text3(a, b, c);
    s.append(d);
    s
}

/// The texts of a list with `sep` between each two.
pub open spec fn joined(s: Seq<Seq<char>>, sep: Seq<char>) -> Seq<char>
    decreases s.len(),
{
    if s.len() == 0 {
        Seq::empty()
    } else if s.len() == 1 {
        s[0]
    } else {
        joined(s.drop_last(), sep) + sep + s.last()
    }
}

pub fn join(v: &Vec<String>, sep: &str) -> (r: String)
    ensures
        r@ == joined(v.deep_view(), sep@),
{
    let mut out = String::new();
    let mut i: usize = 0;
    let ghost all = v.deep_view();
    assert(all.take(0) =~= Seq::empty());
    while i < v.len()
        invariant
            i <= v@.len(),
            all == v.deep_view(),
            out@ == joined(all.take(i as int), sep@),
        decreases v@.len() - i,
    {
        proof {
            assert(all.take(i + 1).drop_last() =~= all.take(i as int));
        }
        if i > 0 {
            out.append(sep);
        }
        out.append(v[i].as_str());
        i = i + 1;
        assert(out@ =~= joined(all.take(i as int), sep@));
    }
    assert(all.take(v@.len() as int) =~= all);
    out
}

/// A copy of a list of texts.
pub fn copy_texts(v: &Vec<String>) -> (r: Vec<String>)
    ensures
        r@ == v@,
{
    let mut out: Vec<String> = Vec::new();
    let mut i: usize = 0;
    while i < v.len()
        invariant
            i <= v@.len(),
            out@ == v@.take(i as int),
        decreases v@.len() - i,
    {
        out.push(v[i].clone());
        i = i + 1;
        assert(out@ =~= v@.take(i as int));
    }
    assert(out@ =~= v@);
    out
}

/// -1, 0 or 1 as `a` comes before, with or after `b` in the order of their items from `i` on,
/// the shorter first where one begins the other.
pub open spec fn item_order(a: Seq<int>, b: Seq<int>, i: int) -> int
    decreases a.len() - i,
{
    if i < 0 || i >= a.len() || i >= b.len() {
        if a.len() < b.len() {
            -1
        } else if a.len() > b.len() {
            1
        } else {
            0
        }
    } else if a[i] < b[i] {
        -1
    } else if a[i] > b[i] {
        1
    } else {
        item_order(a, b, i + 1)
    }
}

/// The code points of a text.
pub open spec fn codes(s: Seq<char>) -> Seq<int> {
    Seq::new(s.len(), |i: int| s[i] as int)
}

pub open spec fn byte_values(s: Seq<u8>) -> Seq<int> {
    Seq::new(s.len(), |i: int| s[i] as int)
}

/// The order of two texts by their code points.
pub open spec fn text_order(a: Seq<char>, b: Seq<char>) -> int {
    item_order(codes(a), codes(b), 0)
}

/// The order of two byte strings.
pub open spec fn bytes_order(a: Seq<u8>, b: Seq<u8>) -> int {
    item_order(byte_values(a), byte_values(b), 0)
}

pub proof fn lemma_item_order_reverse(a: Seq<int>, b: Seq<int>, i: int)
    requires
        0 <= i,
    ensures
        item_order(a, b, i) == -item_order(b, a, i),
    decreases a.len() - i,
{
    if i < a.len() && i < b.len() {
        lemma_item_order_reverse(a, b, i + 1);
    }
}

pub proof fn lemma_item_order_transitive(a: Seq<int>, b: Seq<int>, c: Seq<int>, i: int)
    requires
        0 <= i,
        item_order(a, b, i) <= 0,
        item_order(b, c, i) <= 0,
        i <= a.len(),
        i <= b.len(),
        i <= c.len(),
    ensures
        item_order(a, c, i) <= 0,
    decreases a.len() - i,
{
    if i < a.len() && i < b.len() && i < c.len() && a[i] == b[i] && b[i] == c[i] {
        lemma_item_order_transitive(a, b, c, i + 1);
    }
}

pub proof fn lemma_item_order_same(a: Seq<int>, i: int)
    requires
        0 <= i,
    ensures
        item_order(a, a, i) == 0,
    decreases a.len() - i,
{
    if i < a.len() {
        lemma_item_order_same(a, i + 1);
    }
}

/// -1, 0 or 1 as `a` comes before, with or after `b`.
pub fn order_texts(a: &str, b: &str) -> (r: i8)
    ensures
        r == text_order(a@, b@),
{
    let x = chars_of(a);
    let y = chars_of(b);
    let ghost ca = codes(a@);
    let ghost cb = codes(b@);
    let mut i: usize = 0;
    while i < x.len() && i < y.len()
        invariant
            i <= x@.len(),
            i <= y@.len(),
            x@ == a@,
            y@ == b@,
            ca == codes(a@),
            cb == codes(b@),
            item_order(ca, cb, i as int) == item_order(ca, cb, 0),
        decreases x@.len() - i,
    {
        if x[i] < y[i] {
            return -1;
        }
        if x[i] > y[i] {
            return 1;
        }
        i = i + 1;
    }
    if x.len() < y.len() {
        -1
    } else if x.len() > y.len() {
        1
    } else {
        0
    }
}

/// -1, 0 or 1 as `a` comes before, with or after `b`.
pub fn order_bytes(a: &Vec<u8>, b: &Vec<u8>) -> (r: i8)
    ensures
        r == bytes_order(a@, b@),
{
    let ghost ca = byte_values(a@);
    let ghost cb = byte_values(b@);
    let mut i: usize = 0;
    while i < a.len() && i < b.len()
        invariant
            i <= a@.len(),
            i <= b@.len(),
            ca == byte_values(a@),
            cb == byte_values(b@),
            item_order(ca, cb, i as int) == item_order(ca, cb, 0),
        decreases a@.len() - i,
    {
        if a[i] < b[i] {
            return -1;
        }
        if a[i] > b[i] {
            return 1;
        }
        i = i + 1;
    }
    if a.len() < b.len() {
        -1
    } else if a.len() > b.len() {
        1
    } else {
        0
    }
}

pub fn bytes_eq(a: &Vec<u8>, b: &Vec<u8>) -> (r: bool)
    ensures
        r == (a@ == b@),
{
    if a.len() != b.len() {
        return false;
    }
    let mut i: usize = 0;
    while i < a.len()
        invariant
            i <= a@.len(),
            a@.len() == b@.len(),
            a@.take(i as int) == b@.take(i as int),
        decreases a@.len() - i,
    {
        if a[i] != b[i] {
            assert(a@ != b@);
            return false;
        }
        i = i + 1;
        assert(a@.take(i as int) =~= a@.take(i - 1).push(a@[i - 1]));
        assert(b@.take(i as int) =~= b@.take(i - 1).push(b@[i - 1]));
    }
    assert(a@.take(i as int) =~= a@);
    assert(b@.take(i as int) =~= b@);
    true
}

/// Whether `pat` stands in `s` at position `i`.
pub open spec fn stands_at(s: Seq<char>, pat: Seq<char>, i: int) -> bool {
    0 <= i && i + pat.len() <= s.len() && s.subrange(i, i + pat.len()) == pat
}

/// The first position from `i` on at which `pat` stands in `s`.
pub open spec fn find_from(s: Seq<char>, pat: Seq<char>, i: int) -> Option<int>
    decreases s.len() + 1 - i,
{
    if i < 0 || i > s.len() {
        None
    } else if stands_at(s, pat, i) {
        Some(i)
    } else {
        find_from(s, pat, i + 1)
    }
}

pub fn stands(s: &Vec<char>, pat: &Vec<char>, i: usize) -> (r: bool)
    requires
        i <= s@.len(),
    ensures
        r == stands_at(s@, pat@, i as int),
{
    let n: usize = s.len();
    if pat.len() > n - i {
        return false;
    }
    let mut j: usize = 0;
    while j < pat.len()
        invariant
            j <= pat@.len(),
            n == s@.len(),
            i + pat@.len() <= n,
            forall|k: int| 0 <= k < j ==> s@[i + k] == pat@[k],
        decreases pat@.len() - j,
    {
        if s[i + j] != pat[j] {
            assert(s@.subrange(i as int, i + pat@.len())[j as int] != pat@[j as int]);
            return false;
        }
        j = j + 1;
    }
    assert(s@.subrange(i as int, i + pat@.len()) =~= pat@);
    true
}

pub fn find_text(s: &Vec<char>, pat: &Vec<char>, from: usize) -> (r: Option<usize>)
    requires
        from <= s@.len(),
    ensures
        match r {
            Some(i) => find_from(s@, pat@, from as int) == Some(i as int) && i + pat@.len() <= s@.len() && from <= i,
            None => find_from(s@, pat@, from as int) is None,
        },
{
    let mut i: usize = from;
    loop
        invariant
            from <= i <= s@.len(),
            find_from(s@, pat@, from as int) == find_from(s@, pat@, i as int),
        decreases s@.len() - i,
    {
        if stands(s, pat, i) {
            return Some(i);
        }
        if i == s.len() {
            assert(find_from(s@, pat@, i + 1) is None);
            return None;
        }
        i = i + 1;
    }
}

/// `s` from `i` on with `to` in place of each `pat`, taken from the left.
pub open spec fn replaced_from(s: Seq<char>, pat: Seq<char>, to: Seq<char>, i: int) -> Seq<char>
    decreases s.len() - i,
{
    if i < 0 || i >= s.len() || pat.len() == 0 {
        Seq::empty()
    } else if stands_at(s, pat, i) {
        to + replaced_from(s, pat, to, i + pat.len())
    } else {
        seq![s[i]] + replaced_from(s, pat, to, i + 1)
    }
}

/// `to`, and each character of `s` from `i` on with `to` behind it.
pub open spec fn spread_from(s: Seq<char>, to: Seq<char>, i: int) -> Seq<char>
    decreases s.len() - i,
{
    if i < 0 || i >= s.len() {
        to
    } else {
        to + seq![s[i]] + spread_from(s, to, i + 1)
    }
}

/// `s` with `to` in place of each `pat`; an empty `pat` stands before each character and at
/// the end.
pub open spec fn replaced(s: Seq<char>, pat: Seq<char>, to: Seq<char>) -> Seq<char> {
    if pat.len() == 0 {
        spread_from(s, to, 0)
    } else {
        replaced_from(s, pat, to, 0)
    }
}

pub fn replace_text(s: &str, pat: &str, to: &str) -> (r: String)
    ensures
        r@ == replaced(s@, pat@, to@),
{
    let cs = chars_of(s);
    let ps = chars_of(pat);
    let mut out = String::new();
    let mut i: usize = 0;
    if ps.len() == 0 {
        while i < cs.len()
            invariant
                i <= cs@.len(),
                cs@ == s@,
                out@ + spread_from(s@, to@, i as int) == spread_from(s@, to@, 0),
            decreases cs@.len() - i,
        {
            out.append(to);
            out.push(cs[i]);
            assert(out@ + spread_from(s@, to@, i + 1) =~= spread_from(s@, to@, 0));
            i = i + 1;
        }
        out.append(to);
        return out;
    }
    while i < cs.len()
        invariant
            i <= cs@.len(),
            cs@ == s@,
            ps@ == pat@,
            ps@.len() > 0,
            out@ + replaced_from(s@, pat@, to@, i as int) == replaced_from(s@, pat@, to@, 0),
        decreases cs@.len() - i,
    {
        if stands(&cs, &ps, i) {
            out.append(to);
            assert(out@ + replaced_from(s@, pat@, to@, i + pat@.len()) =~= replaced_from(s@, pat@, to@, 0));
            i = i + ps.len();
        } else {
            out.push(cs[i]);
            assert(out@ + replaced_from(s@, pat@, to@, i + 1) =~= replaced_from(s@, pat@, to@, 0));
            i = i + 1;
        }
    }
    assert(out@ =~= replaced_from(s@, pat@, to@, 0));
    out
}

/// How many white characters `s` begins with, from `i` on.
pub open spec fn white_until(s: Seq<char>, i: int) -> int
    decreases s.len() - i,
{
    if i < 0 || i >= s.len() || !white(s[i]) {
        i
    } else {
        white_until(s, i + 1)
    }
}

/// The end of `s` without its trailing white characters, `e` being an upper bound.
pub open spec fn white_back(s: Seq<char>, e: int) -> int
    decreases e,
{
    if e <= 0 || e > s.len() || !white(s[e - 1]) {
        e
    } else {
        white_back(s, e - 1)
    }
}

pub open spec fn trimmed_start(s: Seq<char>) -> Seq<char> {
    s.subrange(white_until(s, 0), s.len() as int)
}

pub open spec fn trimmed_end(s: Seq<char>) -> Seq<char> {
    s.subrange(0, white_back(s, s.len() as int))
}

pub open spec fn trimmed(s: Seq<char>) -> Seq<char> {
    trimmed_end(trimmed_start(s))
}

pub fn trim_start(s: &str) -> (r: String)
    ensures
        r@ == trimmed_start(s@),
{
    let cs = chars_of(s);
    let mut i: usize = 0;
    while i < cs.len() && is_white(cs[i])
        invariant
            i <= cs@.len(),
            cs@ == s@,
            white_until(s@, i as int) == white_until(s@, 0),
        decreases cs@.len() - i,
    {
        i = i + 1;
    }
    slice_text(&cs, i, cs.len())
}

pub fn trim_end(s: &str) -> (r: String)
    ensures
        r@ == trimmed_end(s@),
{
    let cs = chars_of(s);
    let mut e: usize = cs.len();
    while e > 0 && is_white(cs[e - 1])
        invariant
            e <= cs@.len(),
            cs@ == s@,
            white_back(s@, e as int) == white_back(s@, s@.len() as int),
        decreases e,
    {
        e = e - 1;
    }
    slice_text(&cs, 0, e)
}

pub fn trim(s: &str) -> (r: String)
    ensures
        r@ == trimmed(s@),
{
    let t = trim_start(s);
    trim_end(t.as_str())
}

/// The position of the first `c` in `s` from `i` on, or the end.
pub open spec fn char_at_or_end(s: Seq<char>, c: char, i: int) -> int
    decreases s.len() - i,
{
    if i < 0 || i >= s.len() || s[i] == c {
        i
    } else {
        char_at_or_end(s, c, i + 1)
    }
}

pub proof fn lemma_char_at_or_end(s: Seq<char>, c: char, i: int)
    requires
        0 <= i <= s.len(),
    ensures
        i <= char_at_or_end(s, c, i) <= s.len(),
    decreases s.len() - i,
{
    if i < s.len() && s[i] != c {
        lemma_char_at_or_end(s, c, i + 1);
    }
}

/// The parts of `s` from `i` on between the occurrences of `c`.
pub open spec fn split_from(s: Seq<char>, c: char, i: int) -> Seq<Seq<char>>
    decreases s.len() - i,
{
    if i < 0 || i > s.len() {
        Seq::empty()
    } else {
        proof {
            lemma_char_at_or_end(s, c, i);
        }
        let e = char_at_or_end(s, c, i);
        if e >= s.len() || e < i {
            seq![s.subrange(i, s.len() as int)]
        } else {
            seq![s.subrange(i, e)] + split_from(s, c, e + 1)
        }
    }
}

pub open spec fn split_on(s: Seq<char>, c: char) -> Seq<Seq<char>> {
    split_from(s, c, 0)
}

pub fn split(s: &str, c: char) -> (r: Vec<String>)
    ensures
        r.deep_view() == split_on(s@, c),
{
    let cs = chars_of(s);
    let mut out: Vec<String> = Vec::new();
    let mut i: usize = 0;
    assert(out.deep_view() + split_from(s@, c, 0) =~= split_on(s@, c));
    loop
        invariant
            i <= cs@.len(),
            cs@ == s@,
            out.deep_view() + split_from(s@, c, i as int) == split_on(s@, c),
        decreases cs@.len() - i,
    {
        let mut e: usize = i;
        while e < cs.len() && cs[e] != c
            invariant
                i <= e <= cs@.len(),
                cs@ == s@,
                char_at_or_end(s@, c, e as int) == char_at_or_end(s@, c, i as int),
            decreases cs@.len() - e,
        {
            e = e + 1;
        }
        let part = slice_text(&cs, i, e);
        let ghost before = out.deep_view();
        out.push(part);
        assert(out.deep_view() =~= before.push(part@));
        if e == cs.len() {
            assert(out.deep_view() =~= split_on(s@, c));
            return out;
        }
        assert(out.deep_view() + split_from(s@, c, e + 1) =~= split_on(s@, c));
        i = e + 1;
    }
}

pub open spec fn is_digit(c: char) -> bool {
    '0' <= c && c <= '9'
}

pub open spec fn all_digits(s: Seq<char>) -> bool {
    forall|i: int| 0 <= i < s.len() ==> is_digit(#[trigger] s[i])
}

/// The number that decimal digits stand for.
pub open spec fn digits_value(s: Seq<char>) -> nat
    decreases s.len(),
{
    if s.len() == 0 {
        0
    } else {
        digits_value(s.drop_last()) * 10 + (s.last() as int - '0' as int) as nat
    }
}

/// The digits that follow an optional sign, and whether the sign is a minus.
pub open spec fn sign_split(s: Seq<char>) -> (bool, Seq<char>) {
    if s.len() > 0 && s[0] == '-' {
        (true, s.drop_first())
    } else if s.len() > 0 && s[0] == '+' {
        (false, s.drop_first())
    } else {
        (false, s)
    }
}

/// The 64-bit integer that a decimal text stands for, where it is one.
pub open spec fn int_of_text(s: Seq<char>) -> Option<int> {
    let (neg, d) = sign_split(s);
    if d.len() == 0 || !all_digits(d) {
        None
    } else {
        let n = if neg {
            -(digits_value(d) as int)
        } else {
            digits_value(d) as int
        };
        if i64::MIN <= n <= i64::MAX {
            Some(n)
        } else {
            None
        }
    }
}

/// The array index that a decimal text stands for, where it is one.
pub open spec fn index_of_text(s: Seq<char>) -> Option<int> {
    let (neg, d) = sign_split(s);
    if neg || d.len() == 0 || !all_digits(d) || digits_value(d) > usize::MAX {
        None
    } else {
        Some(digits_value(d) as int)
    }
}

/// The number that the digits from `from` on stand for: `None` where one is no digit, or where
/// it is above `u64::MAX`.
fn word_of_digits(cs: &Vec<char>, from: usize) -> (r: Option<u64>)
    requires
        from <= cs@.len(),
    ensures
        ({
            let d = cs@.subrange(from as int, cs@.len() as int);
            match r {
                Some(n) => all_digits(d) && n == digits_value(d),
                None => !all_digits(d) || digits_value(d) > u64::MAX,
            }
        }),
{
    let ghost d = cs@.subrange(from as int, cs@.len() as int);
    let mut n: u64 = 0;
    let mut i: usize = from;
    let mut fits: bool = true;
    assert(d.take(0) =~= Seq::empty());
    while i < cs.len()
        invariant
            from <= i <= cs@.len(),
            d == cs@.subrange(from as int, cs@.len() as int),
            all_digits(d.take(i - from)),
            fits ==> n == digits_value(d.take(i - from)),
            !fits ==> digits_value(d.take(i - from)) > u64::MAX,
        decreases cs@.len() - i,
    {
        let c: char = cs[i];
        assert(c == d[i - from]);
        if !('0' <= c && c <= '9') {
            assert(!is_digit(d[i - from]));
            return None;
        }
        proof {
            let t = d.take(i - from + 1);
            assert(t.drop_last() =~= d.take(i - from));
            assert forall|k: int| 0 <= k < t.len() implies is_digit(#[trigger] t[k]) by {
                if k < i - from {
                    assert(t[k] == d.take(i - from)[k]);
                }
            }
        }
        let v: u64 = (c as u32 - '0' as u32) as u64;
        if fits {
            if n > (u64::MAX - v) / 10 {
                fits = false;
            } else {
                n = n * 10 + v;
            }
        }
        i = i + 1;
    }
    assert(d.take(i - from) =~= d);
    if fits {
        Some(n)
    } else {
        None
    }
}

pub fn parse_int(s: &str) -> (r: Option<i64>)
    ensures
        match r {
            Some(i) => int_of_text(s@) == Some(i as int),
            None => int_of_text(s@) is None,
        },
{
    let cs = chars_of(s);
    let neg: bool = cs.len() > 0 && cs[0] == '-';
    let from: usize = if cs.len() > 0 && (cs[0] == '-' || cs[0] == '+') {
        1
    } else {
        0
    };
    assert(cs@.subrange(from as int, cs@.len() as int) =~= sign_split(s@).1);
    if cs.len() == from {
        return None;
    }
    match word_of_digits(&cs, from) {
        None => None,
        Some(n) => if neg {
            if n <= 0x7fff_ffff_ffff_ffff {
                Some(-(n as i64))
            } else if n == 0x8000_0000_0000_0000 {
                Some(i64::MIN)
            } else {
                None
            }
        } else {
            if n <= 0x7fff_ffff_ffff_ffff {
                Some(n as i64)
            } else {
                None
            }
        },
    }
}

pub fn parse_index(s: &str) -> (r: Option<usize>)
    ensures
        match r {
            Some(i) => index_of_text(s@) == Some(i as int),
            None => index_of_text(s@) is None,
        },
{
    let cs = chars_of(s);
    if cs.len() > 0 && cs[0] == '-' {
        return None;
    }
    let from: usize = if cs.len() > 0 && cs[0] == '+' {
        1
    } else {
        0
    };
    assert(cs@.subrange(from as int, cs@.len() as int) =~= sign_split(s@).1);
    if cs.len() == from {
        return None;
    }
    match word_of_digits(&cs, from) {
        None => None,
        Some(n) => if n <= usize::MAX as u64 {
            Some(n as usize)
        } else {
            None
        },
    }
}

/// The digit of a number below ten.
pub open spec fn digit_char(n: nat) -> char {
    (n + '0' as int) as char
}

/// The decimal digits of a number.
pub open spec fn nat_text(n: nat) -> Seq<char>
    decreases n,
{
    if n < 10 {
        seq![digit_char(n)]
    } else {
        nat_text(n / 10).push(digit_char(n % 10))
    }
}

/// The decimal text of an integer.
pub open spec fn int_text(i: int) -> Seq<char> {
    if i < 0 {
        seq!['-'] + nat_text((-i) as nat)
    } else {
        nat_text(i as nat)
    }
}

pub fn word_text(n: u64) -> (r: String)
    ensures
        r@ == nat_text(n as nat),
    decreases n,
{
    if n < 10 {
        let mut s = String::new();
        s.push((n as u8 + 48) as char);
        assert(s@ =~= nat_text(n as nat));
        s
    } else {
        let mut s = word_text(n / 10);
        s.push(((n % 10) as u8 + 48) as char);
        s
    }
}

pub fn int_to_text(i: i64) -> (r: String)
    ensures
        r@ == int_text(i as int),
{
    let size = word_text(crate::double::int_size(i));
    if i < 0 {
        let r = text2("-", size.as_str());
        proof {
            reveal_strlit("-");
        }
        assert("-"@ =~= seq!['-']);
        r
    } else {
        size
    }
}

/// The last position up to `i` at which `pat` stands in `s`.
pub open spec fn find_back(s: Seq<char>, pat: Seq<char>, i: int) -> Option<int>
    decreases i + 1,
{
    if i < 0 || i > s.len() {
        None
    } else if stands_at(s, pat, i) {
        Some(i)
    } else {
        find_back(s, pat, i - 1)
    }
}

/// The last position at which `pat` stands in `s`.
pub fn find_last(s: &Vec<char>, pat: &Vec<char>) -> (r: Option<usize>)
    ensures
        match r {
            Some(i) => find_back(s@, pat@, s@.len() as int) == Some(i as int) && i + pat@.len() <= s@.len(),
            None => find_back(s@, pat@, s@.len() as int) is None,
        },
{
    let mut i: usize = s.len();
    loop
        invariant
            i <= s@.len(),
            find_back(s@, pat@, s@.len() as int) == find_back(s@, pat@, i as int),
        decreases i,
    {
        if stands(s, pat, i) {
            return Some(i);
        }
        if i == 0 {
            assert(find_back(s@, pat@, -1) is None);
            return None;
        }
        i = i - 1;
    }
}

/// An ASCII letter as a capital; any other character as it is.
pub open spec fn capital(c: char) -> char {
    if 'a' <= c && c <= 'z' {
        ((c as int) - 32) as char
    } else {
        c
    }
}

pub open spec fn capitals(s: Seq<char>) -> Seq<char> {
    Seq::new(s.len(), |i: int| capital(s[i]))
}

fn to_capital(c: char) -> (r: char)
    ensures
        r == capital(c),
{
    if 'a' <= c && c <= 'z' {
        let b: u8 = c as u8;
        let d: u8 = b - 32;
        d as char
    } else {
        c
    }
}

pub fn to_capitals(s: &Vec<char>) -> (r: Vec<char>)
    ensures
        r@ == capitals(s@),
{
    let mut out: Vec<char> = Vec::new();
    let mut i: usize = 0;
    while i < s.len()
        invariant
            i <= s@.len(),
            out@.len() == i,
            forall|j: int| 0 <= j < i ==> #[trigger] out@[j] == capital(s@[j]),
        decreases s@.len() - i,
    {
        out.push(to_capital(s[i]));
        i = i + 1;
    }
    assert(out@ =~= capitals(s@));
    out
}

/// The end of the word that starts at `i`.
pub open spec fn word_end(s: Seq<char>, i: int) -> int
    decreases s.len() - i,
{
    if i < 0 || i >= s.len() || white(s[i]) {
        i
    } else {
        word_end(s, i + 1)
    }
}

/// The words of `s` from `i` on: its parts between white characters.
pub open spec fn parts_from(s: Seq<char>, i: int) -> Seq<Seq<char>>
    decreases s.len() - i,
{
    let a = white_until(s, i);
    let e = word_end(s, a);
    if i < 0 || a >= s.len() || e <= i || e > s.len() {
        Seq::empty()
    } else {
        seq![s.subrange(a, e)] + parts_from(s, e)
    }
}

proof fn lemma_word_bounds(s: Seq<char>, i: int)
    requires
        0 <= i <= s.len(),
    ensures
        i <= word_end(s, i) <= s.len(),
        i <= white_until(s, i) <= s.len(),
        i < s.len() && !white(s[i]) ==> i < word_end(s, i),
        white_until(s, i) < s.len() ==> !white(s[white_until(s, i)]),
    decreases s.len() - i,
{
    if i < s.len() {
        lemma_word_bounds(s, i + 1);
    }
}

pub fn split_white(s: &Vec<char>) -> (r: Vec<String>)
    ensures
        r.deep_view() == parts_from(s@, 0),
{
    let mut out: Vec<String> = Vec::new();
    let mut i: usize = 0;
    assert(out.deep_view() + parts_from(s@, 0) =~= parts_from(s@, 0));
    loop
        invariant
            i <= s@.len(),
            out.deep_view() + parts_from(s@, i as int) == parts_from(s@, 0),
        decreases s@.len() - i,
    {
        let ghost from = i as int;
        proof {
            lemma_word_bounds(s@, from);
            lemma_word_bounds(s@, white_until(s@, from));
        }
        let mut a: usize = i;
        while a < s.len() && is_white(s[a])
            invariant
                i <= a <= s@.len(),
                from == i,
                white_until(s@, a as int) == white_until(s@, from),
            decreases s@.len() - a,
        {
            a = a + 1;
        }
        if a == s.len() {
            assert(out.deep_view() =~= parts_from(s@, 0));
            return out;
        }
        let mut e: usize = a;
        while e < s.len() && !is_white(s[e])
            invariant
                a <= e <= s@.len(),
                word_end(s@, e as int) == word_end(s@, a as int),
            decreases s@.len() - e,
        {
            e = e + 1;
        }
        let ghost before = out.deep_view();
        let w = slice_text(s, a, e);
        let ghost wv = w@;
        out.push(w);
        proof {
            assert(out.deep_view() =~= before.push(wv));
            assert(parts_from(s@, from) == seq![s@.subrange(a as int, e as int)] + parts_from(s@, e as int));
            assert(before + parts_from(s@, from) =~= before.push(wv) + parts_from(s@, e as int));
        }
        i = e;
    }
}

/// The decimal text of a number is made of digits, and stands for the number.
pub proof fn lemma_nat_text(n: nat)
    ensures
        all_digits(nat_text(n)),
        nat_text(n).len() > 0,
        digits_value(nat_text(n)) == n,
    decreases n,
{
    let s = nat_text(n);
    if n < 10 {
        assert(s.drop_last() =~= Seq::empty());
        assert(digits_value(s.drop_last()) == 0);
    } else {
        lemma_nat_text(n / 10);
        assert(s.drop_last() =~= nat_text(n / 10));
    }
}

} // verus!

//! From SQL text to statements. The text is read by sqlparser, whose tree comes as JSON; here the
//! tree becomes the statements that the engine runs.
use serde::Deserialize;
use sqlparser::dialect::GenericDialect;
use sqlparser::parser::Parser;
use sqlparser::tokenizer::{Token, Tokenizer};
use vstd::prelude::*;
use vstd::string::*;

use crate::assoc;
use crate::ast;
use crate::ast::{AlterTableOperation, AlterTableOperationV, Assignment, AssignmentV, BinaryOp, ColumnOption, ColumnOptionV, ColumnSpec, ColumnSpecV, Expr, ExprV, FunctionArg, FunctionArgV, Join, JoinConstraint, JoinConstraintV, JoinOperator, JoinOperatorV, JoinV, Literal, LiteralV, ObjectType, ObjectTypeV, OrderByExpr, OrderByExprV, Query, QueryV, Select, SelectItem, SelectItemV, SelectV, SetExpr, SetExprV, Statement, StatementV, TableConstraint, TableConstraintV, TableRef, TableRefV, TableWithJoins, TableWithJoinsV, UnaryOp};
use crate::error;
use crate::error::{ErrorV, SkvsError};
use crate::json;
use crate::json::{JsonTop, JsonTopV};
use crate::text;

verus! {

/// What `sqlparser` makes of an SQL text: the statements as one JSON array, or the message of
/// the error.
pub uninterp spec fn sql_read(sql: Seq<char>) -> Result<Seq<char>, Seq<char>>;

/// A token of an SQL text: a word as the keyword that it is, a number as it is written.
pub enum Lexeme {
    Word(String),
    Number(String),
    Quoted,
    Equals,
    Semicolon,
    Dot,
    Open,
    Close,
    White,
    Other,
}

pub enum LexemeV {
    Word(Seq<char>),
    Number(Seq<char>),
    Quoted,
    Equals,
    Semicolon,
    Dot,
    Open,
    Close,
    White,
    Other,
}

impl View for Lexeme {
    type V = LexemeV;

    open spec fn view(&self) -> LexemeV {
        match self {
            Lexeme::Word(k) => LexemeV::Word(k@),
            Lexeme::Number(t) => LexemeV::Number(t@),
            Lexeme::Quoted => LexemeV::Quoted,
            Lexeme::Equals => LexemeV::Equals,
            Lexeme::Semicolon => LexemeV::Semicolon,
            Lexeme::Dot => LexemeV::Dot,
            Lexeme::Open => LexemeV::Open,
            Lexeme::Close => LexemeV::Close,
            Lexeme::White => LexemeV::White,
            Lexeme::Other => LexemeV::Other,
        }
    }
}

impl DeepView for Lexeme {
    type V = LexemeV;

    open spec fn deep_view(&self) -> LexemeV {
        self@
    }
}

/// The tokens of an SQL text as `sqlparser` reads them, where it can.
pub uninterp spec fn sql_tokens(sql: Seq<char>) -> Option<Seq<LexemeV>>;

/// Calls `sqlparser::tokenizer::Tokenizer::tokenize` with the generic dialect. The contract says
/// only that the result is a function of the text.
#[verifier::external_body]
fn read_tokens(sql: &str) -> (r: Option<Vec<Lexeme>>)
    ensures
        r.deep_view() == sql_tokens(sql@),
{
    let tokens = Tokenizer::new(&GenericDialect {}, sql).tokenize().ok()?;
    Some(tokens.into_iter().map(|t| match t {
        Token::Word(w) => Lexeme::Word(format!("{:?}", w.keyword)),
        Token::Number(n, _) => Lexeme::Number(n),
        Token::SingleQuotedString(_) | Token::DoubleQuotedString(_) => Lexeme::Quoted,
        Token::Eq => Lexeme::Equals,
        Token::SemiColon => Lexeme::Semicolon,
        Token::Period => Lexeme::Dot,
        Token::LParen => Lexeme::Open,
        Token::RParen => Lexeme::Close,
        Token::Whitespace(_) => Lexeme::White,
        _ => Lexeme::Other,
    }).collect())
}

/// The tokens among the first `n` that are not white.
pub open spec fn solid_upto(ts: Seq<LexemeV>, n: int) -> Seq<LexemeV>
    decreases n,
{
    if n <= 0 || n > ts.len() {
        Seq::empty()
    } else if ts[n - 1] == LexemeV::White {
        solid_upto(ts, n - 1)
    } else {
        solid_upto(ts, n - 1).push(ts[n - 1])
    }
}

/// Whether a given keyword stands at a place.
pub open spec fn keyword_at(ts: Seq<LexemeV>, i: int, k: Seq<char>) -> bool {
    0 <= i < ts.len() && ts[i] == LexemeV::Word(k)
}

/// Whether a number is one that a table can start its ids at.
pub open spec fn is_offset(t: Seq<char>) -> bool {
    match text::index_of_text(t) {
        Some(n) => n <= u32::MAX,
        None => false,
    }
}

/// Whether a number that no table can start its ids at stands behind `i`, with or without an
/// equals sign.
pub open spec fn bad_offset_behind(ts: Seq<LexemeV>, i: int) -> bool {
    let j = if 0 <= i + 1 < ts.len() && ts[i + 1] == LexemeV::Equals {
        i + 2
    } else {
        i + 1
    };
    0 <= j < ts.len() && match ts[j] {
        LexemeV::Number(t) => !is_offset(t),
        _ => false,
    }
}

/// Whether GRANTED BY stands at a place with no name behind it.
pub open spec fn nameless_grantor(ts: Seq<LexemeV>, i: int) -> bool {
    &&& keyword_at(ts, i, "GRANTED"@)
    &&& keyword_at(ts, i + 1, "BY"@)
    &&& !(i + 2 < ts.len() && (ts[i + 2] is Word || ts[i + 2] is Quoted))
}

/// Whether a statement can start at a place: at the front, behind a semicolon, or behind a word
/// that a statement of its own can follow.
pub open spec fn starts_at(ts: Seq<LexemeV>, i: int) -> bool {
    ||| i == 0
    ||| 0 < i <= ts.len() && ts[i - 1] == LexemeV::Semicolon
    ||| keyword_at(ts, i - 1, "AS"@)
    ||| keyword_at(ts, i - 1, "BEGIN"@)
    ||| keyword_at(ts, i - 1, "EXPLAIN"@)
    ||| keyword_at(ts, i - 1, "DESCRIBE"@)
    ||| keyword_at(ts, i - 1, "ANALYZE"@)
    ||| keyword_at(ts, i - 1, "VERBOSE"@)
    ||| keyword_at(ts, i - 1, "TEXT"@)
    ||| keyword_at(ts, i - 1, "GRAPHVIZ"@)
    ||| keyword_at(ts, i - 1, "JSON"@)
}

/// Whether a GRANT or REVOKE starts at a place.
pub open spec fn grant_at(ts: Seq<LexemeV>, i: int) -> bool {
    starts_at(ts, i) && (keyword_at(ts, i, "GRANT"@) || keyword_at(ts, i, "REVOKE"@))
}

/// Whether a word can stand between CREATE and TABLE.
pub open spec fn modifier_at(ts: Seq<LexemeV>, i: int) -> bool {
    ||| keyword_at(ts, i, "OR"@)
    ||| keyword_at(ts, i, "REPLACE"@)
    ||| keyword_at(ts, i, "ALTER"@)
    ||| keyword_at(ts, i, "LOCAL"@)
    ||| keyword_at(ts, i, "GLOBAL"@)
    ||| keyword_at(ts, i, "TRANSIENT"@)
    ||| keyword_at(ts, i, "TEMP"@)
    ||| keyword_at(ts, i, "TEMPORARY"@)
}

/// The first place from `i` on at which no such word stands.
pub open spec fn behind_modifiers(ts: Seq<LexemeV>, i: int) -> int
    decreases ts.len() - i,
{
    if i < ts.len() && modifier_at(ts, i) {
        behind_modifiers(ts, i + 1)
    } else {
        i
    }
}

/// The place behind the name that starts at `i`, its parts parted by dots; `i` where none starts.
pub open spec fn behind_name(ts: Seq<LexemeV>, i: int) -> int
    decreases ts.len() - i,
{
    if 0 <= i < ts.len() && (ts[i] is Word || ts[i] is Quoted) {
        if i + 1 < ts.len() && ts[i + 1] == LexemeV::Dot {
            behind_name(ts, i + 2)
        } else {
            i + 1
        }
    } else {
        i
    }
}

/// Whether a word is of the plain part of the language of column lists, in which every bracket
/// that opens is closed.
pub open spec fn is_plain_word(k: Seq<char>) -> bool {
    ||| k == "NoKeyword"@
    ||| k == "INTEGER"@
    ||| k == "INT"@
    ||| k == "BIGINT"@
    ||| k == "TEXT"@
    ||| k == "REAL"@
    ||| k == "BLOB"@
    ||| k == "VARCHAR"@
    ||| k == "PRIMARY"@
    ||| k == "KEY"@
    ||| k == "NOT"@
    ||| k == "NULL"@
    ||| k == "UNIQUE"@
    ||| k == "DEFAULT"@
    ||| k == "CHECK"@
    ||| k == "AND"@
    ||| k == "OR"@
    ||| k == "FOREIGN"@
    ||| k == "REFERENCES"@
    ||| k == "AUTO_INCREMENT"@
}

/// The place behind the bracket that closes a list, of whose brackets `depth` are open before
/// `i`; `None` where the list is not plain or does not end.
pub open spec fn behind_list(ts: Seq<LexemeV>, i: int, depth: nat) -> Option<int>
    decreases ts.len() - i,
{
    if i < 0 || i >= ts.len() {
        None
    } else {
        match ts[i] {
            LexemeV::Semicolon => None,
            LexemeV::Open => behind_list(ts, i + 1, depth + 1),
            LexemeV::Close => if depth <= 1 {
                Some(i + 1)
            } else {
                behind_list(ts, i + 1, (depth - 1) as nat)
            },
            LexemeV::Word(k) => if is_plain_word(k) {
                behind_list(ts, i + 1, depth)
            } else {
                None
            },
            _ => behind_list(ts, i + 1, depth),
        }
    }
}

/// Where the name of a table starts whose CREATE TABLE ends before `i`.
pub open spec fn name_from(ts: Seq<LexemeV>, i: int) -> int {
    if keyword_at(ts, i, "IF"@) && keyword_at(ts, i + 1, "NOT"@) && keyword_at(ts, i + 2, "EXISTS"@) {
        i + 3
    } else {
        i
    }
}

/// From where on the options of a table can stand whose CREATE TABLE ends before `i`: behind a
/// plain list of columns, else behind the name. `None` where a query follows, which ends them.
pub open spec fn options_from(ts: Seq<LexemeV>, i: int) -> Option<int> {
    let e = behind_name(ts, name_from(ts, i));
    if keyword_at(ts, e, "AS"@) {
        None
    } else if 0 <= e < ts.len() && ts[e] == LexemeV::Open {
        match behind_list(ts, e + 1, 1) {
            Some(q) => if keyword_at(ts, q, "AS"@) {
                None
            } else {
                Some(q)
            },
            None => Some(e),
        }
    } else {
        Some(e)
    }
}

/// From where on the options of a table can stand whose CREATE starts at `i`.
pub open spec fn table_options(ts: Seq<LexemeV>, i: int) -> Option<int> {
    if starts_at(ts, i) && keyword_at(ts, i, "CREATE"@) && keyword_at(ts, behind_modifiers(ts, i + 1), "TABLE"@) {
        options_from(ts, behind_modifiers(ts, i + 1) + 1)
    } else {
        None
    }
}

/// Whether an AUTO_INCREMENT with a number that does not fit stands at a place.
pub open spec fn bad_start_at(ts: Seq<LexemeV>, k: int) -> bool {
    keyword_at(ts, k, "AUTO_INCREMENT"@) && bad_offset_behind(ts, k)
}

/// Whether what starts at `i` stumbles over what stands at `k`: a GRANT or REVOKE over a GRANTED
/// BY without a name, a CREATE TABLE over an AUTO_INCREMENT whose number does not fit.
pub open spec fn stumbles_over(ts: Seq<LexemeV>, i: int, k: int) -> bool {
    ||| grant_at(ts, i) && i < k && nameless_grantor(ts, k)
    ||| match table_options(ts, i) {
        Some(q) => q <= k && bad_start_at(ts, k),
        None => false,
    }
}

/// Whether a statement among the tokens stumbles over something.
pub open spec fn some_stumble(ts: Seq<LexemeV>) -> bool {
    exists|i: int, k: int| 0 <= i < ts.len() && 0 <= k < ts.len() && #[trigger] stumbles_over(ts, i, k)
}

/// Whether an SQL text is one that `sqlparser` stumbles over.
pub open spec fn stumbles(sql: Seq<char>) -> bool {
    match sql_tokens(sql) {
        Some(ts) => some_stumble(solid_upto(ts, ts.len() as int)),
        None => false,
    }
}

fn is_keyword(t: &Lexeme, k: &str) -> (r: bool)
    ensures
        r == (t@ == LexemeV::Word(k@)),
{
    match t {
        Lexeme::Word(w) => text::text_eq(w.as_str(), k),
        _ => false,
    }
}

fn has_keyword(ts: &Vec<Lexeme>, i: usize, k: &str) -> (r: bool)
    ensures
        r == keyword_at(ts.deep_view(), i as int, k@),
{
    if i < ts.len() {
        assert(ts.deep_view()[i as int] == ts@[i as int]@);
        is_keyword(&ts[i], k)
    } else {
        false
    }
}

fn has_bad_offset(ts: &Vec<Lexeme>, i: usize) -> (r: bool)
    requires
        i < ts@.len(),
    ensures
        r == bad_offset_behind(ts.deep_view(), i as int),
{
    let ghost tv = ts.deep_view();
    assert(ts.len() <= usize::MAX);
    let mut j: usize = i + 1;
    if j < ts.len() {
        assert(tv[j as int] == ts@[j as int]@);
        if matches!(ts[j], Lexeme::Equals) {
            j = j + 1;
        }
    }
    if j < ts.len() {
        assert(tv[j as int] == ts@[j as int]@);
        match &ts[j] {
            Lexeme::Number(t) => match text::parse_index(t.as_str()) {
                Some(n) => n as u64 > u32::MAX as u64,
                None => true,
            },
            _ => false,
        }
    } else {
        false
    }
}

fn has_nameless_grantor(ts: &Vec<Lexeme>, i: usize) -> (r: bool)
    requires
        i < ts@.len(),
    ensures
        r == nameless_grantor(ts.deep_view(), i as int),
{
    let ghost tv = ts.deep_view();
    assert(ts.len() <= usize::MAX);
    if !has_keyword(ts, i, "GRANTED") || !has_keyword(ts, i + 1, "BY") {
        return false;
    }
    let j: usize = i + 2;
    if j < ts.len() {
        assert(tv[j as int] == ts@[j as int]@);
        !matches!(ts[j], Lexeme::Word(_) | Lexeme::Quoted)
    } else {
        true
    }
}

fn can_start(ts: &Vec<Lexeme>, i: usize) -> (r: bool)
    requires
        i < ts@.len(),
    ensures
        r == starts_at(ts.deep_view(), i as int),
{
    if i == 0 {
        return true;
    }
    let j: usize = i - 1;
    assert(ts.deep_view()[j as int] == ts@[j as int]@);
    match &ts[j] {
        Lexeme::Semicolon => true,
        _ => has_keyword(ts, j, "AS") || has_keyword(ts, j, "BEGIN") || has_keyword(ts, j, "EXPLAIN") || has_keyword(
            ts,
            j,
            "DESCRIBE",
        ) || has_keyword(ts, j, "ANALYZE") || has_keyword(ts, j, "VERBOSE") || has_keyword(ts, j, "TEXT")
            || has_keyword(ts, j, "GRAPHVIZ") || has_keyword(ts, j, "JSON"),
    }
}

fn has_modifier(ts: &Vec<Lexeme>, i: usize) -> (r: bool)
    ensures
        r == modifier_at(ts.deep_view(), i as int),
{
    has_keyword(ts, i, "OR") || has_keyword(ts, i, "REPLACE") || has_keyword(ts, i, "ALTER") || has_keyword(
        ts,
        i,
        "LOCAL",
    ) || has_keyword(ts, i, "GLOBAL") || has_keyword(ts, i, "TRANSIENT") || has_keyword(ts, i, "TEMP")
        || has_keyword(ts, i, "TEMPORARY")
}

fn skip_modifiers(ts: &Vec<Lexeme>, from: usize) -> (r: usize)
    requires
        from <= ts@.len(),
    ensures
        r == behind_modifiers(ts.deep_view(), from as int),
        r <= ts@.len(),
{
    let mut i: usize = from;
    while i < ts.len() && has_modifier(ts, i)
        invariant
            i <= ts@.len(),
            behind_modifiers(ts.deep_view(), i as int) == behind_modifiers(ts.deep_view(), from as int),
        decreases ts@.len() - i,
    {
        i = i + 1;
    }
    i
}

fn is_name_part(t: &Lexeme) -> (r: bool)
    ensures
        r == (t@ is Word || t@ is Quoted),
{
    matches!(t, Lexeme::Word(_) | Lexeme::Quoted)
}

fn skip_name(ts: &Vec<Lexeme>, from: usize) -> (r: usize)
    requires
        from <= ts@.len(),
    ensures
        r == behind_name(ts.deep_view(), from as int),
        r <= ts@.len(),
{
    let ghost tv = ts.deep_view();
    let mut i: usize = from;
    loop
        invariant
            i <= ts@.len(),
            tv == ts.deep_view(),
            behind_name(tv, i as int) == behind_name(tv, from as int),
        decreases ts@.len() - i,
    {
        if i >= ts.len() {
            return i;
        }
        assert(tv[i as int] == ts@[i as int]@);
        if !is_name_part(&ts[i]) {
            return i;
        }
        let j: usize = i + 1;
        if j >= ts.len() {
            return j;
        }
        assert(tv[j as int] == ts@[j as int]@);
        if !matches!(ts[j], Lexeme::Dot) {
            return j;
        }
        i = j + 1;
    }
}

fn plain_word(k: &str) -> (r: bool)
    ensures
        r == is_plain_word(k@),
{
    text::text_eq(k, "NoKeyword") || text::text_eq(k, "INTEGER") || text::text_eq(k, "INT") || text::text_eq(k, "BIGINT")
        || text::text_eq(k, "TEXT") || text::text_eq(k, "REAL") || text::text_eq(k, "BLOB") || text::text_eq(k, "VARCHAR")
        || text::text_eq(k, "PRIMARY") || text::text_eq(k, "KEY") || text::text_eq(k, "NOT") || text::text_eq(k, "NULL")
        || text::text_eq(k, "UNIQUE") || text::text_eq(k, "DEFAULT") || text::text_eq(k, "CHECK") || text::text_eq(k, "AND")
        || text::text_eq(k, "OR") || text::text_eq(k, "FOREIGN") || text::text_eq(k, "REFERENCES") || text::text_eq(
        k,
        "AUTO_INCREMENT",
    )
}

fn skip_list(ts: &Vec<Lexeme>, from: usize) -> (r: Option<usize>)
    requires
        1 <= from <= ts@.len(),
    ensures
        match r {
            Some(q) => behind_list(ts.deep_view(), from as int, 1) == Some(q as int) && q <= ts@.len(),
            None => behind_list(ts.deep_view(), from as int, 1) is None,
        },
{
    let ghost tv = ts.deep_view();
    let mut i: usize = from;
    let mut depth: usize = 1;
    while i < ts.len()
        invariant
            1 <= from <= i <= ts@.len(),
            tv == ts.deep_view(),
            1 <= depth <= i - from + 1,
            behind_list(tv, i as int, depth as nat) == behind_list(tv, from as int, 1),
        decreases ts@.len() - i,
    {
        assert(tv[i as int] == ts@[i as int]@);
        assert(i < ts.len() <= usize::MAX);
        match &ts[i] {
            Lexeme::Semicolon => {
                return None;
            },
            Lexeme::Open => {
                depth = depth + 1;
            },
            Lexeme::Close => {
                if depth <= 1 {
                    return Some(i + 1);
                }
                depth = depth - 1;
            },
            Lexeme::Word(k) => {
                if !plain_word(k.as_str()) {
                    return None;
                }
            },
            _ => {},
        }
        i = i + 1;
    }
    None
}

fn find_options(ts: &Vec<Lexeme>, i: usize) -> (r: Option<usize>)
    requires
        i <= ts@.len(),
    ensures
        match r {
            Some(q) => options_from(ts.deep_view(), i as int) == Some(q as int) && q <= ts@.len(),
            None => options_from(ts.deep_view(), i as int) is None,
        },
{
    let ghost tv = ts.deep_view();
    assert(ts.len() <= usize::MAX);
    let n: usize = if has_keyword(ts, i, "IF") && has_keyword(ts, i + 1, "NOT") && has_keyword(ts, i + 2, "EXISTS") {
        i + 3
    } else {
        i
    };
    let e: usize = skip_name(ts, n);
    if has_keyword(ts, e, "AS") {
        return None;
    }
    if e < ts.len() {
        assert(tv[e as int] == ts@[e as int]@);
        if matches!(ts[e], Lexeme::Open) {
            return match skip_list(ts, e + 1) {
                Some(q) => if has_keyword(ts, q, "AS") {
                    None
                } else {
                    Some(q)
                },
                None => Some(e),
            };
        }
    }
    Some(e)
}

fn find_table_options(ts: &Vec<Lexeme>, i: usize) -> (r: Option<usize>)
    requires
        i < ts@.len(),
    ensures
        match r {
            Some(q) => table_options(ts.deep_view(), i as int) == Some(q as int) && q <= ts@.len(),
            None => table_options(ts.deep_view(), i as int) is None,
        },
{
    assert(ts.len() <= usize::MAX);
    if !can_start(ts, i) || !has_keyword(ts, i, "CREATE") {
        return None;
    }
    let j: usize = skip_modifiers(ts, i + 1);
    if !has_keyword(ts, j, "TABLE") {
        return None;
    }
    find_options(ts, j + 1)
}

fn starts_grant(ts: &Vec<Lexeme>, i: usize) -> (r: bool)
    requires
        i < ts@.len(),
    ensures
        r == grant_at(ts.deep_view(), i as int),
{
    can_start(ts, i) && (has_keyword(ts, i, "GRANT") || has_keyword(ts, i, "REVOKE"))
}

fn stumbles_somewhere(ts: &Vec<Lexeme>, i: usize) -> (r: bool)
    requires
        i < ts@.len(),
    ensures
        r == exists|k: int| 0 <= k < ts@.len() && #[trigger] stumbles_over(ts.deep_view(), i as int, k),
{
    let ghost tv = ts.deep_view();
    let grant: bool = starts_grant(ts, i);
    let options: Option<usize> = find_table_options(ts, i);
    if !grant && options.is_none() {
        assert forall|k: int| 0 <= k < ts@.len() implies !#[trigger] stumbles_over(tv, i as int, k) by {}
        return false;
    }
    let mut k: usize = 0;
    while k < ts.len()
        invariant
            i < ts@.len(),
            k <= ts@.len(),
            tv == ts.deep_view(),
            grant == grant_at(tv, i as int),
            match options {
                Some(q) => table_options(tv, i as int) == Some(q as int),
                None => table_options(tv, i as int) is None,
            },
            forall|j: int| 0 <= j < k ==> !#[trigger] stumbles_over(tv, i as int, j),
        decreases ts@.len() - k,
    {
        let mut over: bool = grant && i < k && has_nameless_grantor(ts, k);
        match options {
            Some(q) => {
                if q <= k && has_keyword(ts, k, "AUTO_INCREMENT") && has_bad_offset(ts, k) {
                    over = true;
                }
            },
            None => {},
        }
        assert(over == stumbles_over(tv, i as int, k as int));
        if over {
            return true;
        }
        k = k + 1;
    }
    false
}

fn copy_lexeme(t: &Lexeme) -> (r: Lexeme)
    ensures
        r@ == t@,
{
    match t {
        Lexeme::Word(k) => Lexeme::Word(k.clone()),
        Lexeme::Number(n) => Lexeme::Number(n.clone()),
        Lexeme::Quoted => Lexeme::Quoted,
        Lexeme::Equals => Lexeme::Equals,
        Lexeme::Semicolon => Lexeme::Semicolon,
        Lexeme::Dot => Lexeme::Dot,
        Lexeme::Open => Lexeme::Open,
        Lexeme::Close => Lexeme::Close,
        Lexeme::White => Lexeme::White,
        Lexeme::Other => Lexeme::Other,
    }
}

fn solid_tokens(ts: &Vec<Lexeme>) -> (r: Vec<Lexeme>)
    ensures
        r.deep_view() == solid_upto(ts.deep_view(), ts@.len() as int),
{
    let ghost tv = ts.deep_view();
    let mut out: Vec<Lexeme> = Vec::new();
    let mut i: usize = 0;
    assert(out.deep_view() =~= solid_upto(tv, 0));
    while i < ts.len()
        invariant
            i <= ts@.len(),
            tv == ts.deep_view(),
            out.deep_view() == solid_upto(tv, i as int),
        decreases ts@.len() - i,
    {
        assert(tv[i as int] == ts@[i as int]@);
        let ghost before = out.deep_view();
        if !matches!(ts[i], Lexeme::White) {
            out.push(copy_lexeme(&ts[i]));
            assert(out.deep_view() =~= before.push(tv[i as int]));
        }
        i = i + 1;
    }
    out
}

/// Whether an SQL text is one that cannot be read at all.
pub fn is_unreadable(sql: &str) -> (r: bool)
    ensures
        r == stumbles(sql@),
{
    let ts = match read_tokens(sql) {
        Some(v) => solid_tokens(&v),
        None => {
            return false;
        },
    };
    let ghost tv = ts.deep_view();
    let mut i: usize = 0;
    while i < ts.len()
        invariant
            i <= ts@.len(),
                tv == ts.deep_view(),
            stumbles(sql@) == some_stumble(tv),
            forall|j: int, k: int| 0 <= j < i && 0 <= k < tv.len() ==> !#[trigger] stumbles_over(tv, j, k),
        decreases ts@.len() - i,
    {
        if stumbles_somewhere(&ts, i) {
            return true;
        }
        i = i + 1;
    }
    false
}

/// Calls `sqlparser::parser::Parser::parse_sql` with the generic dialect, and
/// `serde_json::to_string` on its result. The contract says only that the result is a function
/// of the text. Texts that the parser stumbles over are left out: it panics where GRANT or REVOKE
/// has a GRANTED BY without a name, and where the AUTO_INCREMENT option of CREATE TABLE has a
/// number that is none of a `u32`.
#[verifier::external_body]
fn parse_sql(sql: &str) -> (r: Result<String, String>)
    requires
        !stumbles(sql@),
    ensures
        match r {
            Ok(t) => sql_read(sql@) == Ok::<Seq<char>, Seq<char>>(t@),
            Err(t) => sql_read(sql@) == Err::<Seq<char>, Seq<char>>(t@),
        },
{
    match Parser::parse_sql(&GenericDialect {}, sql) {
        Ok(v) => Ok(serde_json::to_string(&v).unwrap_or_default()),
        Err(e) => Err(e.to_string()),
    }
}

/// What `sqlparser` makes of the text of an expression: its JSON, or the message of the error.
pub uninterp spec fn sql_expr_read(sql: Seq<char>) -> Result<Seq<char>, Seq<char>>;

/// Calls `sqlparser::parser::Parser::parse_expr` with the generic dialect, and
/// `serde_json::to_string` on its result. The contract says only that the result is a function
/// of the text.
#[verifier::external_body]
fn parse_expr_text(sql: &str) -> (r: Result<String, String>)
    ensures
        match r {
            Ok(t) => sql_expr_read(sql@) == Ok::<Seq<char>, Seq<char>>(t@),
            Err(t) => sql_expr_read(sql@) == Err::<Seq<char>, Seq<char>>(t@),
        },
{
    match Parser::new(&GenericDialect {}).try_with_sql(sql).and_then(|mut p| p.parse_expr()) {
        Ok(e) => Ok(serde_json::to_string(&e).unwrap_or_default()),
        Err(e) => Err(e.to_string()),
    }
}

/// Whether a JSON text is a member of an array or the value of a field of an object.
pub open spec fn is_child(t: Seq<char>, c: Seq<char>) -> bool {
    match json::json_node(t) {
        JsonTopV::Array(a) => a.contains(c),
        JsonTopV::Object(o) => exists|i: int| 0 <= i < o.len() && (#[trigger] o[i]).1 == c,
        _ => false,
    }
}

/// Whether a JSON text is found `n` levels below another.
pub open spec fn descends(root: Seq<char>, t: Seq<char>, n: nat) -> bool
    decreases n,
{
    if n == 0 {
        t == root
    } else {
        exists|m: Seq<char>| descends(root, m, (n - 1) as nat) && #[trigger] is_child(m, t)
    }
}

/// Whether a JSON text is part of what the parser made of some SQL text.
pub open spec fn from_parser(t: Seq<char>) -> bool {
    exists|sql: Seq<char>, n: nat| parsed_part(sql, t, n)
}

pub open spec fn parsed_part(sql: Seq<char>, t: Seq<char>, n: nat) -> bool {
    !stumbles(sql) && match sql_read(sql) {
        Ok(root) => descends(root, t, n),
        Err(_) => false,
    }
}

proof fn lemma_child(t: Seq<char>, c: Seq<char>)
    requires
        from_parser(t),
        is_child(t, c),
    ensures
        from_parser(c),
{
    let (sql, n) = choose|sql: Seq<char>, n: nat| parsed_part(sql, t, n);
    match sql_read(sql) {
        Ok(root) => {
            assert(descends(root, c, n + 1));
            assert(parsed_part(sql, c, n + 1));
        },
        Err(_) => {},
    }
}

/// Whether a text is a part of the parser's tree, or nothing.
pub open spec fn usable(t: Seq<char>) -> bool {
    t.len() == 0 || from_parser(t)
}

/// The text of an expression of the parser's tree.
pub uninterp spec fn expr_text(t: Seq<char>) -> Seq<char>;

/// Reads an `sqlparser::ast::Expr` back from its JSON and calls its `to_string`. The contract
/// says only that the result is a function of the JSON. Names with quotes that the parser does
/// not make are left out, on which `to_string` panics.
#[verifier::external_body]
fn show_expr(t: &str) -> (r: String)
    requires
        from_parser(t@),
    ensures
        r@ == expr_text(t@),
{
    let mut d = serde_json::Deserializer::from_str(t);
    d.disable_recursion_limit();
    match sqlparser::ast::Expr::deserialize(&mut d) {
        Ok(e) => e.to_string(),
        Err(_) => String::new(),
    }
}

/// The text of a query of the parser's tree.
pub uninterp spec fn query_text(t: Seq<char>) -> Seq<char>;

/// Reads an `sqlparser::ast::Query` back from its JSON and calls its `to_string`. The contract
/// says only that the result is a function of the JSON. Trees that the parser does not make are
/// left out, on which `to_string` may panic.
#[verifier::external_body]
fn show_query(t: &str) -> (r: String)
    requires
        from_parser(t@),
    ensures
        r@ == query_text(t@),
{
    let mut d = serde_json::Deserializer::from_str(t);
    d.disable_recursion_limit();
    match sqlparser::ast::Query::deserialize(&mut d) {
        Ok(e) => e.to_string(),
        Err(_) => String::new(),
    }
}

/// The text of what stands in place of a table in the parser's tree.
pub uninterp spec fn factor_text(t: Seq<char>) -> Seq<char>;

/// Reads an `sqlparser::ast::TableFactor` back from its JSON and calls its `to_string`. The
/// contract says only that the result is a function of the JSON. Trees that the parser does not
/// make are left out, on which `to_string` may panic.
#[verifier::external_body]
fn show_factor(t: &str) -> (r: String)
    requires
        from_parser(t@),
    ensures
        r@ == factor_text(t@),
{
    let mut d = serde_json::Deserializer::from_str(t);
    d.disable_recursion_limit();
    match sqlparser::ast::TableFactor::deserialize(&mut d) {
        Ok(e) => e.to_string(),
        Err(_) => String::new(),
    }
}

/// The text of a change of a table in the parser's tree.
pub uninterp spec fn alteration_text(t: Seq<char>) -> Seq<char>;

/// Reads an `sqlparser::ast::AlterTableOperation` back from its JSON and calls its `to_string`.
/// The contract says only that the result is a function of the JSON. Trees that the parser does
/// not make are left out, on which `to_string` may panic.
#[verifier::external_body]
fn show_alteration(t: &str) -> (r: String)
    requires
        from_parser(t@),
    ensures
        r@ == alteration_text(t@),
{
    let mut d = serde_json::Deserializer::from_str(t);
    d.disable_recursion_limit();
    match sqlparser::ast::AlterTableOperation::deserialize(&mut d) {
        Ok(e) => e.to_string(),
        Err(_) => String::new(),
    }
}

/// The text of a token in the parser's tree.
pub uninterp spec fn token_text(t: Seq<char>) -> Seq<char>;

/// Reads an `sqlparser::tokenizer::Token` back from its JSON and calls its `to_string`. The
/// contract says only that the result is a function of the JSON. Tokens that the parser does not
/// make are left out, on which `to_string` may panic.
#[verifier::external_body]
fn show_token(t: &str) -> (r: String)
    requires
        from_parser(t@),
    ensures
        r@ == token_text(t@),
{
    match serde_json::from_str::<sqlparser::tokenizer::Token>(t) {
        Ok(e) => e.to_string(),
        Err(_) => String::new(),
    }
}

/// The description of a join operator of the parser's tree.
pub uninterp spec fn join_description(t: Seq<char>) -> Seq<char>;

/// Reads an `sqlparser::ast::JoinOperator` back from its JSON and formats it for debugging. The
/// contract says only that the result is a function of the JSON.
#[verifier::external_body]
fn describe_join(t: &str) -> (r: String)
    ensures
        r@ == join_description(t@),
{
    let mut d = serde_json::Deserializer::from_str(t);
    d.disable_recursion_limit();
    match sqlparser::ast::JoinOperator::deserialize(&mut d) {
        Ok(e) => format!("{:?}", e),
        Err(_) => String::new(),
    }
}

/// The description of a statement of the parser's tree.
pub uninterp spec fn statement_description(t: Seq<char>) -> Seq<char>;

/// Reads an `sqlparser::ast::Statement` back from its JSON and formats it for debugging. The
/// contract says only that the result is a function of the JSON.
#[verifier::external_body]
fn describe_statement(t: &str) -> (r: String)
    ensures
        r@ == statement_description(t@),
{
    let mut d = serde_json::Deserializer::from_str(t);
    d.disable_recursion_limit();
    match sqlparser::ast::Statement::deserialize(&mut d) {
        Ok(e) => format!("{:?}", e),
        Err(_) => String::new(),
    }
}

/// The value of a field, nothing where there is no such field.
pub open spec fn part_of(t: Seq<char>, name: Seq<char>) -> Seq<char> {
    match json::json_node(t) {
        JsonTopV::Object(o) => match assoc::assoc_get(o, name) {
            Some(x) => x,
            None => Seq::empty(),
        },
        _ => Seq::empty(),
    }
}

/// A variant of the tree: its name, and what it holds.
pub open spec fn variant_of(t: Seq<char>) -> (Seq<char>, Seq<char>) {
    match json::json_node(t) {
        JsonTopV::Object(o) => if o.len() == 1 {
            o[0]
        } else {
            (Seq::empty(), Seq::empty())
        },
        JsonTopV::Str(s) => (s, Seq::empty()),
        _ => (Seq::empty(), Seq::empty()),
    }
}

/// The members of an array.
pub open spec fn items_of(t: Seq<char>) -> Seq<Seq<char>> {
    match json::json_node(t) {
        JsonTopV::Array(a) => a,
        _ => Seq::empty(),
    }
}

/// The text that a JSON string holds.
pub open spec fn string_at(t: Seq<char>) -> Seq<char> {
    match json::json_node(t) {
        JsonTopV::Str(s) => s,
        _ => Seq::empty(),
    }
}

pub open spec fn flag_at(t: Seq<char>) -> bool {
    json::json_node(t) == JsonTopV::Bool(true)
}

/// Whether an optional part is missing.
pub open spec fn absent(t: Seq<char>) -> bool {
    t.len() == 0 || json::json_node(t) == JsonTopV::Null
}

fn part(t: &str, name: &str) -> (r: String)
    ensures
        r@ == part_of(t@, name@),
        r@.len() == 0 || r@.len() < t@.len(),
        usable(t@) ==> usable(r@),
{
    match json::json_top(t) {
        JsonTop::Object(o) => match json::find_field(&o, name) {
            Some(i) => {
                assert(o.deep_view()[i as int].1 == o@[i as int].1@);
                proof {
                    if from_parser(t@) {
                        lemma_child(t@, o@[i as int].1@);
                    }
                }
                o[i].1.clone()
            },
            None => String::new(),
        },
        _ => String::new(),
    }
}

fn variant(t: &str) -> (r: (String, String))
    ensures
        (r.0@, r.1@) == variant_of(t@),
        r.1@.len() == 0 || r.1@.len() < t@.len(),
        usable(t@) ==> usable(r.1@),
{
    match json::json_top(t) {
        JsonTop::Object(o) => {
            if o.len() == 1 {
                assert(o.deep_view()[0] == (o@[0].0@, o@[0].1@));
                proof {
                    if from_parser(t@) {
                        lemma_child(t@, o@[0].1@);
                    }
                }
                (o[0].0.clone(), o[0].1.clone())
            } else {
                (String::new(), String::new())
            }
        },
        JsonTop::Str(s) => (s, String::new()),
        _ => (String::new(), String::new()),
    }
}

fn items(t: &str) -> (r: Vec<String>)
    ensures
        r.deep_view() == items_of(t@),
        forall|i: int| 0 <= i < r@.len() ==> (#[trigger] r@[i])@.len() < t@.len(),
        usable(t@) ==> forall|i: int| 0 <= i < r@.len() ==> usable((#[trigger] r@[i])@),
{
    let top = json::json_top(t);
    let ghost tv = top@;
    match top {
        JsonTop::Array(a) => {
            let ghost av: Seq<Seq<char>> = a.deep_view();
            assert(tv == JsonTopV::Array(av));
            assert forall|i: int| 0 <= i < a@.len() implies (#[trigger] a@[i])@.len() < t@.len() by {
                assert(av[i] == a@[i]@);
                assert(0 <= i < av.len());
                assert((tv->Array_0)[i].len() < t@.len());
            }
            assert forall|i: int| usable(t@) && 0 <= i < a@.len() implies usable((#[trigger] a@[i])@) by {
                assert(av[i] == a@[i]@);
                assert(av.contains(av[i]));
                if from_parser(t@) {
                    lemma_child(t@, av[i]);
                }
            }
            a
        },
        _ => {
            let r: Vec<String> = Vec::new();
            assert(r.deep_view() =~= Seq::empty());
            r
        },
    }
}

fn read_string(t: &str) -> (r: String)
    ensures
        r@ == string_at(t@),
{
    match json::json_top(t) {
        JsonTop::Str(s) => s,
        _ => String::new(),
    }
}

fn read_flag(t: &str) -> (r: bool)
    ensures
        r == flag_at(t@),
{
    match json::json_top(t) {
        JsonTop::Bool(b) => b,
        _ => false,
    }
}

fn is_absent(t: &str) -> (r: bool)
    ensures
        r == absent(t@),
{
    if t.is_empty() {
        return true;
    }
    match json::json_top(t) {
        JsonTop::Null => true,
        _ => false,
    }
}

/// The name that an identifier holds.
pub open spec fn ident_value(t: Seq<char>) -> Seq<char> {
    string_at(part_of(t, "value"@))
}

/// The names that a list of identifiers holds.
pub open spec fn ident_values(t: Seq<char>) -> Seq<Seq<char>> {
    Seq::new(items_of(t).len(), |i: int| ident_value(items_of(t)[i]))
}

/// A quoted name from `i` on with its quotes doubled, those behind a backslash excepted.
pub open spec fn escaped_from(s: Seq<char>, q: char, i: int, prev: char) -> Seq<char>
    decreases s.len() - i,
{
    if i < 0 || i >= s.len() {
        Seq::empty()
    } else if s[i] == q {
        if prev == '\\' {
            seq![q] + escaped_from(s, q, i + 1, prev)
        } else if i + 1 < s.len() && s[i + 1] == q {
            seq![q, q] + escaped_from(s, q, i + 2, q)
        } else {
            seq![q, q] + escaped_from(s, q, i + 1, q)
        }
    } else {
        seq![s[i]] + escaped_from(s, q, i + 1, s[i])
    }
}

/// A name with the quotes it was written with.
pub open spec fn quoted_name(s: Seq<char>, quote: Seq<char>) -> Seq<char> {
    if quote.len() == 1 && (quote[0] == '"' || quote[0] == '\'' || quote[0] == '`') {
        seq![quote[0]] + escaped_from(s, quote[0], 0, '\0') + seq![quote[0]]
    } else if quote.len() == 1 && quote[0] == '[' {
        seq!['['] + s + seq![']']
    } else {
        s
    }
}

/// An identifier as it was written.
pub open spec fn ident_text(t: Seq<char>) -> Seq<char> {
    quoted_name(ident_value(t), string_at(part_of(t, "quote_style"@)))
}

pub open spec fn ident_texts(t: Seq<char>) -> Seq<Seq<char>> {
    Seq::new(items_of(t).len(), |i: int| ident_text(items_of(t)[i]))
}

/// The name of an object, its parts joined by points.
pub open spec fn object_name(t: Seq<char>) -> Seq<char> {
    text::joined(ident_texts(t), "."@)
}

fn read_ident(t: &str) -> (r: String)
    ensures
        r@ == ident_value(t@),
{
    let p = part(t, "value");
    read_string(p.as_str())
}

fn escape_name(s: &str, q: char) -> (r: String)
    ensures
        r@ == escaped_from(s@, q, 0, '\0'),
{
    let cs = text::chars_of(s);
    let mut out = String::new();
    let mut i: usize = 0;
    let mut prev: char = '\0';
    assert(out@ + escaped_from(s@, q, 0, '\0') =~= escaped_from(s@, q, 0, '\0'));
    while i < cs.len()
        invariant
            i <= cs@.len(),
            cs@ == s@,
            out@ + escaped_from(s@, q, i as int, prev) == escaped_from(s@, q, 0, '\0'),
        decreases cs@.len() - i,
    {
        let c: char = cs[i];
        if c == q {
            if prev == '\\' {
                out.push(q);
                assert(out@ + escaped_from(s@, q, i + 1, prev) =~= escaped_from(s@, q, 0, '\0'));
                i = i + 1;
            } else if i + 1 < cs.len() && cs[i + 1] == q {
                out.push(q);
                out.push(q);
                assert(out@ + escaped_from(s@, q, i + 2, q) =~= escaped_from(s@, q, 0, '\0'));
                i = i + 2;
                prev = q;
            } else {
                out.push(q);
                out.push(q);
                assert(out@ + escaped_from(s@, q, i + 1, q) =~= escaped_from(s@, q, 0, '\0'));
                i = i + 1;
                prev = q;
            }
        } else {
            out.push(c);
            assert(out@ + escaped_from(s@, q, i + 1, c) =~= escaped_from(s@, q, 0, '\0'));
            i = i + 1;
            prev = c;
        }
    }
    assert(out@ =~= escaped_from(s@, q, 0, '\0'));
    out
}

fn read_ident_text(t: &str) -> (r: String)
    ensures
        r@ == ident_text(t@),
{
    let name = read_ident(t);
    let p = part(t, "quote_style");
    let q = read_string(p.as_str());
    let qs = text::chars_of(q.as_str());
    if qs.len() == 1 && (qs[0] == '"' || qs[0] == '\'' || qs[0] == '`') {
        let mut out = String::new();
        out.push(qs[0]);
        let e = escape_name(name.as_str(), qs[0]);
        out.append(e.as_str());
        out.push(qs[0]);
        assert(out@ =~= ident_text(t@));
        out
    } else if qs.len() == 1 && qs[0] == '[' {
        let mut out = String::new();
        out.push('[');
        out.append(name.as_str());
        out.push(']');
        assert(out@ =~= ident_text(t@));
        out
    } else {
        name
    }
}

fn read_idents(t: &str) -> (r: Vec<String>)
    ensures
        r.deep_view() == ident_values(t@),
{
    let list = items(t);
    let mut out: Vec<String> = Vec::new();
    let mut i: usize = 0;
    while i < list.len()
        invariant
            i <= list@.len(),
            list.deep_view() == items_of(t@),
            out@.len() == i,
            forall|j: int| 0 <= j < i ==> (#[trigger] out@[j])@ == ident_value(items_of(t@)[j]),
        decreases list@.len() - i,
    {
        assert(list.deep_view()[i as int] == list@[i as int]@);
        out.push(read_ident(list[i].as_str()));
        i = i + 1;
    }
    assert(out.deep_view() =~= ident_values(t@));
    out
}

fn read_ident_texts(t: &str) -> (r: Vec<String>)
    ensures
        r.deep_view() == ident_texts(t@),
{
    let list = items(t);
    let mut out: Vec<String> = Vec::new();
    let mut i: usize = 0;
    while i < list.len()
        invariant
            i <= list@.len(),
            list.deep_view() == items_of(t@),
            out@.len() == i,
            forall|j: int| 0 <= j < i ==> (#[trigger] out@[j])@ == ident_text(items_of(t@)[j]),
        decreases list@.len() - i,
    {
        assert(list.deep_view()[i as int] == list@[i as int]@);
        out.push(read_ident_text(list[i].as_str()));
        i = i + 1;
    }
    assert(out.deep_view() =~= ident_texts(t@));
    out
}

fn read_object_name(t: &str) -> (r: String)
    ensures
        r@ == object_name(t@),
{
    let parts = read_ident_texts(t);
    text::join(&parts, ".")
}

fn read_object_names(t: &str) -> (r: Vec<String>)
    ensures
        r.deep_view() == object_names(t@),
{
    let list = items(t);
    let mut out: Vec<String> = Vec::new();
    let mut i: usize = 0;
    while i < list.len()
        invariant
            i <= list@.len(),
            list.deep_view() == items_of(t@),
            out@.len() == i,
            forall|j: int| 0 <= j < i ==> (#[trigger] out@[j])@ == object_name(items_of(t@)[j]),
        decreases list@.len() - i,
    {
        assert(list.deep_view()[i as int] == list@[i as int]@);
        out.push(read_object_name(list[i].as_str()));
        i = i + 1;
    }
    assert(out.deep_view() =~= object_names(t@));
    out
}

pub open spec fn object_names(t: Seq<char>) -> Seq<Seq<char>> {
    Seq::new(items_of(t).len(), |i: int| object_name(items_of(t)[i]))
}

pub open spec fn unary_op_of(tag: Seq<char>) -> UnaryOp {
    if tag == "Minus"@ {
        UnaryOp::Minus
    } else if tag == "Plus"@ {
        UnaryOp::Plus
    } else if tag == "Not"@ {
        UnaryOp::Not
    } else {
        UnaryOp::Other
    }
}

pub open spec fn binary_op_of(tag: Seq<char>) -> BinaryOp {
    if tag == "And"@ {
        BinaryOp::And
    } else if tag == "Or"@ {
        BinaryOp::Or
    } else if tag == "Eq"@ {
        BinaryOp::Eq
    } else if tag == "NotEq"@ {
        BinaryOp::NotEq
    } else if tag == "Gt"@ {
        BinaryOp::Gt
    } else if tag == "Lt"@ {
        BinaryOp::Lt
    } else if tag == "GtEq"@ {
        BinaryOp::GtEq
    } else if tag == "LtEq"@ {
        BinaryOp::LtEq
    } else if tag == "StringConcat"@ {
        BinaryOp::StringConcat
    } else if tag == "Plus"@ {
        BinaryOp::Plus
    } else if tag == "Minus"@ {
        BinaryOp::Minus
    } else if tag == "Multiply"@ {
        BinaryOp::Multiply
    } else if tag == "Divide"@ {
        BinaryOp::Divide
    } else if tag == "Modulo"@ {
        BinaryOp::Modulo
    } else {
        BinaryOp::Other
    }
}

fn read_unary_op(tag: &str) -> (r: UnaryOp)
    ensures
        r == unary_op_of(tag@),
{
    if text::text_eq(tag, "Minus") {
        UnaryOp::Minus
    } else if text::text_eq(tag, "Plus") {
        UnaryOp::Plus
    } else if text::text_eq(tag, "Not") {
        UnaryOp::Not
    } else {
        UnaryOp::Other
    }
}

fn read_binary_op(tag: &str) -> (r: BinaryOp)
    ensures
        r == binary_op_of(tag@),
{
    if text::text_eq(tag, "And") {
        BinaryOp::And
    } else if text::text_eq(tag, "Or") {
        BinaryOp::Or
    } else if text::text_eq(tag, "Eq") {
        BinaryOp::Eq
    } else if text::text_eq(tag, "NotEq") {
        BinaryOp::NotEq
    } else if text::text_eq(tag, "Gt") {
        BinaryOp::Gt
    } else if text::text_eq(tag, "Lt") {
        BinaryOp::Lt
    } else if text::text_eq(tag, "GtEq") {
        BinaryOp::GtEq
    } else if text::text_eq(tag, "LtEq") {
        BinaryOp::LtEq
    } else if text::text_eq(tag, "StringConcat") {
        BinaryOp::StringConcat
    } else if text::text_eq(tag, "Plus") {
        BinaryOp::Plus
    } else if text::text_eq(tag, "Minus") {
        BinaryOp::Minus
    } else if text::text_eq(tag, "Multiply") {
        BinaryOp::Multiply
    } else if text::text_eq(tag, "Divide") {
        BinaryOp::Divide
    } else if text::text_eq(tag, "Modulo") {
        BinaryOp::Modulo
    } else {
        BinaryOp::Other
    }
}

/// The constant that a part of the tree stands for.
pub open spec fn literal_of(t: Seq<char>) -> LiteralV {
    let (tag, x) = variant_of(t);
    if tag == "Number"@ {
        LiteralV::Number(
            if items_of(x).len() > 0 {
                string_at(items_of(x)[0])
            } else {
                Seq::empty()
            },
        )
    } else if tag == "SingleQuotedString"@ {
        LiteralV::SingleQuoted(string_at(x))
    } else if tag == "DoubleQuotedString"@ {
        LiteralV::DoubleQuoted(string_at(x))
    } else if tag == "Boolean"@ {
        LiteralV::Boolean(flag_at(x))
    } else if tag == "Null"@ {
        LiteralV::Null
    } else if tag == "Placeholder"@ {
        LiteralV::Placeholder
    } else {
        LiteralV::Other
    }
}

fn read_literal(t: &str) -> (r: Literal)
    ensures
        r@ == literal_of(t@),
{
    let (tag, x) = variant(t);
    if text::text_eq(tag.as_str(), "Number") {
        let list = items(x.as_str());
        if list.len() > 0 {
            assert(list.deep_view()[0] == list@[0]@);
            Literal::Number(read_string(list[0].as_str()))
        } else {
            Literal::Number(String::new())
        }
    } else if text::text_eq(tag.as_str(), "SingleQuotedString") {
        Literal::SingleQuoted(read_string(x.as_str()))
    } else if text::text_eq(tag.as_str(), "DoubleQuotedString") {
        Literal::DoubleQuoted(read_string(x.as_str()))
    } else if text::text_eq(tag.as_str(), "Boolean") {
        Literal::Boolean(read_flag(x.as_str()))
    } else if text::text_eq(tag.as_str(), "Null") {
        Literal::Null
    } else if text::text_eq(tag.as_str(), "Placeholder") {
        Literal::Placeholder
    } else {
        Literal::Other
    }
}

/// The expression that a part of the tree stands for.
pub open spec fn expr_of(t: Seq<char>) -> ExprV
    decreases t.len(), 1int,
{
    let (tag, x) = variant_of(t);
    if tag == "Identifier"@ {
        ExprV::Identifier(ident_value(x))
    } else if tag == "CompoundIdentifier"@ {
        ExprV::CompoundIdentifier(ident_values(x))
    } else if tag == "Value"@ {
        ExprV::Value(literal_of(x))
    } else if tag == "Nested"@ {
        ExprV::Nested(Box::new(expr_below(t, x)))
    } else if tag == "UnaryOp"@ {
        ExprV::UnaryOp {
            op: unary_op_of(variant_of(part_of(x, "op"@)).0),
            expr: Box::new(expr_below(t, part_of(x, "expr"@))),
        }
    } else if tag == "BinaryOp"@ {
        ExprV::BinaryOp {
            left: Box::new(expr_below(t, part_of(x, "left"@))),
            op: binary_op_of(variant_of(part_of(x, "op"@)).0),
            right: Box::new(expr_below(t, part_of(x, "right"@))),
        }
    } else if tag == "IsNull"@ {
        ExprV::IsNull(Box::new(expr_below(t, x)))
    } else if tag == "IsNotNull"@ {
        ExprV::IsNotNull(Box::new(expr_below(t, x)))
    } else if tag == "Between"@ {
        ExprV::Between {
            expr: Box::new(expr_below(t, part_of(x, "expr"@))),
            negated: flag_at(part_of(x, "negated"@)),
            low: Box::new(expr_below(t, part_of(x, "low"@))),
            high: Box::new(expr_below(t, part_of(x, "high"@))),
        }
    } else if tag == "InList"@ {
        ExprV::InList {
            expr: Box::new(expr_below(t, part_of(x, "expr"@))),
            list: exprs_below(t, part_of(x, "list"@)),
            negated: flag_at(part_of(x, "negated"@)),
        }
    } else if tag == "Like"@ || tag == "ILike"@ {
        ExprV::Like {
            negated: flag_at(part_of(x, "negated"@)),
            expr: Box::new(expr_below(t, part_of(x, "expr"@))),
            pattern: Box::new(expr_below(t, part_of(x, "pattern"@))),
            any_case: tag == "ILike"@,
        }
    } else if tag == "Case"@ {
        ExprV::Case {
            operand: if absent(part_of(x, "operand"@)) {
                None
            } else {
                Some(Box::new(expr_below(t, part_of(x, "operand"@))))
            },
            conditions: exprs_below(t, part_of(x, "conditions"@)),
            results: exprs_below(t, part_of(x, "results"@)),
            else_result: if absent(part_of(x, "else_result"@)) {
                None
            } else {
                Some(Box::new(expr_below(t, part_of(x, "else_result"@))))
            },
        }
    } else if tag == "Function"@ {
        ExprV::Function {
            name: object_name(part_of(x, "name"@)),
            distinct: flag_at(part_of(x, "distinct"@)),
            args: args_below(t, part_of(x, "args"@)),
        }
    } else {
        ExprV::Other
    }
}

/// The expression of a part `c` of `t`.
pub open spec fn expr_below(t: Seq<char>, c: Seq<char>) -> ExprV
    decreases t.len(), 0int,
{
    if c.len() < t.len() {
        expr_of(c)
    } else {
        ExprV::Other
    }
}

/// The expressions of a list `c` in `t`.
pub open spec fn exprs_below(t: Seq<char>, c: Seq<char>) -> Seq<ExprV>
    decreases t.len(), 0int,
{
    Seq::new(
        items_of(c).len(),
        |i: int|
            if items_of(c)[i].len() < t.len() {
                expr_of(items_of(c)[i])
            } else {
                ExprV::Other
            },
    )
}

/// The arguments of a list `c` in `t`.
pub open spec fn args_below(t: Seq<char>, c: Seq<char>) -> Seq<FunctionArgV>
    decreases t.len(), 0int,
{
    Seq::new(
        items_of(c).len(),
        |i: int|
            {
                let (tag, x) = variant_of(items_of(c)[i]);
                let named = tag == "Named"@;
                let a = if named {
                    part_of(x, "arg"@)
                } else {
                    x
                };
                let (kind, e) = variant_of(a);
                if kind == "Expr"@ {
                    let v = if e.len() < t.len() {
                        expr_of(e)
                    } else {
                        ExprV::Other
                    };
                    if named {
                        FunctionArgV::Named(v)
                    } else {
                        FunctionArgV::Unnamed(v)
                    }
                } else if kind == "Wildcard"@ && !named {
                    FunctionArgV::Wildcard
                } else {
                    FunctionArgV::Other
                }
            },
    )
}

fn lower_expr(t: &str) -> (r: Expr)
    ensures
        r@ == expr_of(t@),
    decreases t@.len(), 1int,
{
    let (tag, x) = variant(t);
    let tg = tag.as_str();
    let x = x.as_str();
    if text::text_eq(tg, "Identifier") {
        Expr::Identifier(read_ident(x))
    } else if text::text_eq(tg, "CompoundIdentifier") {
        Expr::CompoundIdentifier(read_idents(x))
    } else if text::text_eq(tg, "Value") {
        Expr::Value(read_literal(x))
    } else if text::text_eq(tg, "Nested") {
        Expr::Nested(Box::new(lower_below(t, x)))
    } else if text::text_eq(tg, "UnaryOp") {
        let o = part(x, "op");
        let (op, _) = variant(o.as_str());
        let e = part(x, "expr");
        Expr::UnaryOp { op: read_unary_op(op.as_str()), expr: Box::new(lower_below(t, e.as_str())) }
    } else if text::text_eq(tg, "BinaryOp") {
        let o = part(x, "op");
        let (op, _) = variant(o.as_str());
        let a = part(x, "left");
        let b = part(x, "right");
        Expr::BinaryOp {
            left: Box::new(lower_below(t, a.as_str())),
            op: read_binary_op(op.as_str()),
            right: Box::new(lower_below(t, b.as_str())),
        }
    } else if text::text_eq(tg, "IsNull") {
        Expr::IsNull(Box::new(lower_below(t, x)))
    } else if text::text_eq(tg, "IsNotNull") {
        Expr::IsNotNull(Box::new(lower_below(t, x)))
    } else if text::text_eq(tg, "Between") {
        let e = part(x, "expr");
        let n = part(x, "negated");
        let a = part(x, "low");
        let b = part(x, "high");
        Expr::Between {
            expr: Box::new(lower_below(t, e.as_str())),
            negated: read_flag(n.as_str()),
            low: Box::new(lower_below(t, a.as_str())),
            high: Box::new(lower_below(t, b.as_str())),
        }
    } else if text::text_eq(tg, "InList") {
        let e = part(x, "expr");
        let n = part(x, "negated");
        let l = part(x, "list");
        Expr::InList {
            expr: Box::new(lower_below(t, e.as_str())),
            list: lower_list_below(t, l.as_str()),
            negated: read_flag(n.as_str()),
        }
    } else if text::text_eq(tg, "Like") || text::text_eq(tg, "ILike") {
        let e = part(x, "expr");
        let n = part(x, "negated");
        let p = part(x, "pattern");
        Expr::Like {
            negated: read_flag(n.as_str()),
            expr: Box::new(lower_below(t, e.as_str())),
            pattern: Box::new(lower_below(t, p.as_str())),
            any_case: text::text_eq(tg, "ILike"),
        }
    } else if text::text_eq(tg, "Case") {
        let o = part(x, "operand");
        let c = part(x, "conditions");
        let s = part(x, "results");
        let e = part(x, "else_result");
        let operand: Option<Box<Expr>> = if is_absent(o.as_str()) {
            None
        } else {
            Some(Box::new(lower_below(t, o.as_str())))
        };
        let else_result: Option<Box<Expr>> = if is_absent(e.as_str()) {
            None
        } else {
            Some(Box::new(lower_below(t, e.as_str())))
        };
        Expr::Case {
            operand,
            conditions: lower_list_below(t, c.as_str()),
            results: lower_list_below(t, s.as_str()),
            else_result,
        }
    } else if text::text_eq(tg, "Function") {
        let n = part(x, "name");
        let d = part(x, "distinct");
        let a = part(x, "args");
        Expr::Function {
            name: read_object_name(n.as_str()),
            distinct: read_flag(d.as_str()),
            args: lower_args_below(t, a.as_str()),
        }
    } else {
        Expr::Other
    }
}

fn lower_below(t: &str, c: &str) -> (r: Expr)
    requires
        c@.len() == 0 || c@.len() < t@.len(),
    ensures
        r@ == expr_below(t@, c@),
    decreases t@.len(), 0int,
{
    if c.is_empty() {
        if t.is_empty() {
            return Expr::Other;
        }
    }
    lower_expr(c)
}

fn lower_list_below(t: &str, c: &str) -> (r: Vec<Expr>)
    requires
        c@.len() <= t@.len(),
    ensures
        ast::exprs_view(r@) == exprs_below(t@, c@),
        r.deep_view() == exprs_below(t@, c@),
    decreases t@.len(), 0int,
{
    let list = items(c);
    let ghost want = exprs_below(t@, c@);
    let mut out: Vec<Expr> = Vec::new();
    let mut i: usize = 0;
    while i < list.len()
        invariant
            i <= list@.len(),
            c@.len() <= t@.len(),
            list.deep_view() == items_of(c@),
            want == exprs_below(t@, c@),
            forall|j: int| 0 <= j < list@.len() ==> (#[trigger] list@[j])@.len() < c@.len(),
            out@.len() == i,
            forall|j: int| 0 <= j < i ==> (#[trigger] out@[j])@ == want[j],
        decreases list@.len() - i,
    {
        assert(list.deep_view()[i as int] == list@[i as int]@);
        assert(list@[i as int]@.len() < c@.len());
        let e = lower_expr(list[i].as_str());
        assert(want[i as int] == expr_of(items_of(c@)[i as int]));
        out.push(e);
        i = i + 1;
    }
    assert(ast::exprs_view(out@) =~= want);
    assert(out.deep_view() =~= want);
    out
}

fn lower_args_below(t: &str, c: &str) -> (r: Vec<FunctionArg>)
    requires
        c@.len() <= t@.len(),
    ensures
        ast::args_view(r@) == args_below(t@, c@),
    decreases t@.len(), 0int,
{
    let list = items(c);
    let ghost want = args_below(t@, c@);
    let mut out: Vec<FunctionArg> = Vec::new();
    let mut i: usize = 0;
    while i < list.len()
        invariant
            i <= list@.len(),
            c@.len() <= t@.len(),
            list.deep_view() == items_of(c@),
            want == args_below(t@, c@),
            forall|j: int| 0 <= j < list@.len() ==> (#[trigger] list@[j])@.len() < c@.len(),
            out@.len() == i,
            forall|j: int| 0 <= j < i ==> ast::arg_view(#[trigger] out@[j]) == want[j],
        decreases list@.len() - i,
    {
        assert(list.deep_view()[i as int] == list@[i as int]@);
        assert(list@[i as int]@.len() < c@.len());
        let (tag, x) = variant(list[i].as_str());
        let named = text::text_eq(tag.as_str(), "Named");
        let a = if named {
            part(x.as_str(), "arg")
        } else {
            x
        };
        let (kind, e) = variant(a.as_str());
        let arg = if text::text_eq(kind.as_str(), "Expr") {
            let v = lower_expr(e.as_str());
            if named {
                FunctionArg::Named(v)
            } else {
                FunctionArg::Unnamed(v)
            }
        } else if text::text_eq(kind.as_str(), "Wildcard") && !named {
            FunctionArg::Wildcard
        } else {
            FunctionArg::Other
        };
        assert(ast::arg_view(arg) == want[i as int]);
        out.push(arg);
        i = i + 1;
    }
    assert(ast::args_view(out@) =~= want);
    out
}

/// The text of an expression, nothing where there is none.
pub open spec fn shown_expr(t: Seq<char>) -> Seq<char> {
    if t.len() == 0 {
        Seq::empty()
    } else {
        expr_text(t)
    }
}

fn read_shown_expr(t: &str) -> (r: String)
    requires
        usable(t@),
    ensures
        r@ == shown_expr(t@),
{
    if t.is_empty() {
        String::new()
    } else {
        show_expr(t)
    }
}

/// An optional expression.
pub open spec fn option_expr_of(t: Seq<char>) -> Option<ExprV> {
    if absent(t) {
        None
    } else {
        Some(expr_of(t))
    }
}

fn read_option_expr(t: &str) -> (r: Option<Expr>)
    ensures
        r.deep_view() == option_expr_of(t@),
{
    if is_absent(t) {
        None
    } else {
        Some(lower_expr(t))
    }
}

/// The expressions of a list.
pub open spec fn exprs_of(t: Seq<char>) -> Seq<ExprV> {
    Seq::new(items_of(t).len(), |i: int| expr_of(items_of(t)[i]))
}

fn read_exprs(t: &str) -> (r: Vec<Expr>)
    ensures
        r.deep_view() == exprs_of(t@),
{
    let list = items(t);
    let mut out: Vec<Expr> = Vec::new();
    let mut i: usize = 0;
    while i < list.len()
        invariant
            i <= list@.len(),
            list.deep_view() == items_of(t@),
            out@.len() == i,
            forall|j: int| 0 <= j < i ==> (#[trigger] out@[j])@ == expr_of(items_of(t@)[j]),
        decreases list@.len() - i,
    {
        assert(list.deep_view()[i as int] == list@[i as int]@);
        out.push(lower_expr(list[i].as_str()));
        i = i + 1;
    }
    assert(out.deep_view() =~= exprs_of(t@));
    out
}

/// The rows of a list of lists of expressions.
pub open spec fn expr_rows_of(t: Seq<char>) -> Seq<Seq<ExprV>> {
    Seq::new(items_of(t).len(), |i: int| exprs_of(items_of(t)[i]))
}

fn read_expr_rows(t: &str) -> (r: Vec<Vec<Expr>>)
    ensures
        r.deep_view() == expr_rows_of(t@),
{
    let list = items(t);
    let mut out: Vec<Vec<Expr>> = Vec::new();
    let mut i: usize = 0;
    while i < list.len()
        invariant
            i <= list@.len(),
            list.deep_view() == items_of(t@),
            out@.len() == i,
            forall|j: int| 0 <= j < i ==> (#[trigger] out@[j]).deep_view() == exprs_of(items_of(t@)[j]),
        decreases list@.len() - i,
    {
        assert(list.deep_view()[i as int] == list@[i as int]@);
        out.push(read_exprs(list[i].as_str()));
        i = i + 1;
    }
    assert(out.deep_view() =~= expr_rows_of(t@));
    out
}

/// An item of a projection.
pub open spec fn select_item_of(t: Seq<char>) -> SelectItemV {
    let (tag, x) = variant_of(t);
    if tag == "UnnamedExpr"@ {
        SelectItemV::Unnamed { expr: expr_of(x), text: shown_expr(x) }
    } else if tag == "ExprWithAlias"@ {
        SelectItemV::Aliased { expr: expr_of(part_of(x, "expr"@)), alias: ident_text(part_of(x, "alias"@)) }
    } else if tag == "QualifiedWildcard"@ {
        SelectItemV::QualifiedWildcard
    } else {
        SelectItemV::Wildcard
    }
}

fn read_select_item(t: &str) -> (r: SelectItem)
    requires
        usable(t@),
    ensures
        r@ == select_item_of(t@),
{
    let (tag, x) = variant(t);
    if text::text_eq(tag.as_str(), "UnnamedExpr") {
        SelectItem::Unnamed { expr: lower_expr(x.as_str()), text: read_shown_expr(x.as_str()) }
    } else if text::text_eq(tag.as_str(), "ExprWithAlias") {
        let e = part(x.as_str(), "expr");
        let a = part(x.as_str(), "alias");
        SelectItem::Aliased { expr: lower_expr(e.as_str()), alias: read_ident_text(a.as_str()) }
    } else if text::text_eq(tag.as_str(), "QualifiedWildcard") {
        SelectItem::QualifiedWildcard
    } else {
        SelectItem::Wildcard
    }
}

/// The items of a projection.
pub open spec fn select_items_of(t: Seq<char>) -> Seq<SelectItemV> {
    Seq::new(items_of(t).len(), |i: int| select_item_of(items_of(t)[i]))
}

fn read_select_items(t: &str) -> (r: Vec<SelectItem>)
    requires
        usable(t@),
    ensures
        r.deep_view() == select_items_of(t@),
{
    let list = items(t);
    let mut out: Vec<SelectItem> = Vec::new();
    let mut i: usize = 0;
    while i < list.len()
        invariant
            i <= list@.len(),
            list.deep_view() == items_of(t@),
            forall|j: int| 0 <= j < list@.len() ==> usable((#[trigger] list@[j])@),
            out@.len() == i,
            forall|j: int| 0 <= j < i ==> (#[trigger] out@[j])@ == select_item_of(items_of(t@)[j]),
        decreases list@.len() - i,
    {
        assert(list.deep_view()[i as int] == list@[i as int]@);
        out.push(read_select_item(list[i].as_str()));
        i = i + 1;
    }
    assert(out.deep_view() =~= select_items_of(t@));
    out
}

/// The text of what stands in place of a table, nothing where there is none.
pub open spec fn shown_factor(t: Seq<char>) -> Seq<char> {
    if t.len() == 0 {
        Seq::empty()
    } else {
        factor_text(t)
    }
}

/// A table that is read from.
pub open spec fn table_ref_of(t: Seq<char>) -> TableRefV {
    let (tag, x) = variant_of(t);
    if tag == "Table"@ {
        let a = part_of(x, "alias"@);
        TableRefV {
            table: object_name(part_of(x, "name"@)),
            alias: if absent(a) {
                None
            } else {
                Some(ident_text(part_of(a, "name"@)))
            },
        }
    } else {
        TableRefV { table: shown_factor(t), alias: None }
    }
}

fn read_table_ref(t: &str) -> (r: TableRef)
    requires
        usable(t@),
    ensures
        r@ == table_ref_of(t@),
{
    let (tag, x) = variant(t);
    if text::text_eq(tag.as_str(), "Table") {
        let n = part(x.as_str(), "name");
        let a = part(x.as_str(), "alias");
        let alias: Option<String> = if is_absent(a.as_str()) {
            None
        } else {
            let b = part(a.as_str(), "name");
            Some(read_ident_text(b.as_str()))
        };
        TableRef { table: read_object_name(n.as_str()), alias }
    } else if t.is_empty() {
        TableRef { table: String::new(), alias: None }
    } else {
        TableRef { table: show_factor(t), alias: None }
    }
}

/// When rows of a join belong together.
pub open spec fn join_constraint_of(t: Seq<char>) -> JoinConstraintV {
    let (tag, x) = variant_of(t);
    if tag == "On"@ {
        JoinConstraintV::On(expr_of(x))
    } else if tag == "Using"@ {
        JoinConstraintV::Using(ident_values(x))
    } else if tag == "Natural"@ {
        JoinConstraintV::Natural
    } else {
        JoinConstraintV::Missing
    }
}

fn read_join_constraint(t: &str) -> (r: JoinConstraint)
    ensures
        r@ == join_constraint_of(t@),
{
    let (tag, x) = variant(t);
    if text::text_eq(tag.as_str(), "On") {
        JoinConstraint::On(lower_expr(x.as_str()))
    } else if text::text_eq(tag.as_str(), "Using") {
        JoinConstraint::Using(read_idents(x.as_str()))
    } else if text::text_eq(tag.as_str(), "Natural") {
        JoinConstraint::Natural
    } else {
        JoinConstraint::Missing
    }
}

/// How a table is joined.
pub open spec fn join_operator_of(t: Seq<char>) -> JoinOperatorV {
    let (tag, x) = variant_of(t);
    if tag == "Inner"@ {
        JoinOperatorV::Inner(join_constraint_of(x))
    } else if tag == "LeftOuter"@ {
        JoinOperatorV::LeftOuter(join_constraint_of(x))
    } else if tag == "RightOuter"@ {
        JoinOperatorV::RightOuter(join_constraint_of(x))
    } else if tag == "FullOuter"@ {
        JoinOperatorV::FullOuter(join_constraint_of(x))
    } else if tag == "CrossJoin"@ {
        JoinOperatorV::CrossJoin
    } else {
        JoinOperatorV::Other(join_description(t))
    }
}

fn read_join_operator(t: &str) -> (r: JoinOperator)
    ensures
        r@ == join_operator_of(t@),
{
    let (tag, x) = variant(t);
    if text::text_eq(tag.as_str(), "Inner") {
        JoinOperator::Inner(read_join_constraint(x.as_str()))
    } else if text::text_eq(tag.as_str(), "LeftOuter") {
        JoinOperator::LeftOuter(read_join_constraint(x.as_str()))
    } else if text::text_eq(tag.as_str(), "RightOuter") {
        JoinOperator::RightOuter(read_join_constraint(x.as_str()))
    } else if text::text_eq(tag.as_str(), "FullOuter") {
        JoinOperator::FullOuter(read_join_constraint(x.as_str()))
    } else if text::text_eq(tag.as_str(), "CrossJoin") {
        JoinOperator::CrossJoin
    } else {
        JoinOperator::Other(describe_join(t))
    }
}

pub open spec fn join_of(t: Seq<char>) -> JoinV {
    JoinV {
        relation: table_ref_of(part_of(t, "relation"@)),
        operator: join_operator_of(part_of(t, "join_operator"@)),
    }
}

fn read_join(t: &str) -> (r: Join)
    requires
        usable(t@),
    ensures
        r@ == join_of(t@),
{
    let a = part(t, "relation");
    let b = part(t, "join_operator");
    Join { relation: read_table_ref(a.as_str()), operator: read_join_operator(b.as_str()) }
}

/// The joins of a table.
pub open spec fn joins_of(t: Seq<char>) -> Seq<JoinV> {
    Seq::new(items_of(t).len(), |i: int| join_of(items_of(t)[i]))
}

fn read_joins(t: &str) -> (r: Vec<Join>)
    requires
        usable(t@),
    ensures
        r.deep_view() == joins_of(t@),
{
    let list = items(t);
    let mut out: Vec<Join> = Vec::new();
    let mut i: usize = 0;
    while i < list.len()
        invariant
            i <= list@.len(),
            list.deep_view() == items_of(t@),
            forall|j: int| 0 <= j < list@.len() ==> usable((#[trigger] list@[j])@),
            out@.len() == i,
            forall|j: int| 0 <= j < i ==> (#[trigger] out@[j])@ == join_of(items_of(t@)[j]),
        decreases list@.len() - i,
    {
        assert(list.deep_view()[i as int] == list@[i as int]@);
        out.push(read_join(list[i].as_str()));
        i = i + 1;
    }
    assert(out.deep_view() =~= joins_of(t@));
    out
}

pub open spec fn joined_table_of(t: Seq<char>) -> TableWithJoinsV {
    TableWithJoinsV {
        relation: table_ref_of(part_of(t, "relation"@)),
        joins: joins_of(part_of(t, "joins"@)),
    }
}

fn read_joined_table(t: &str) -> (r: TableWithJoins)
    requires
        usable(t@),
    ensures
        r@ == joined_table_of(t@),
{
    let a = part(t, "relation");
    let b = part(t, "joins");
    TableWithJoins { relation: read_table_ref(a.as_str()), joins: read_joins(b.as_str()) }
}

/// The tables of a `FROM`.
pub open spec fn joined_tables_of(t: Seq<char>) -> Seq<TableWithJoinsV> {
    Seq::new(items_of(t).len(), |i: int| joined_table_of(items_of(t)[i]))
}

fn read_joined_tables(t: &str) -> (r: Vec<TableWithJoins>)
    requires
        usable(t@),
    ensures
        r.deep_view() == joined_tables_of(t@),
{
    let list = items(t);
    let mut out: Vec<TableWithJoins> = Vec::new();
    let mut i: usize = 0;
    while i < list.len()
        invariant
            i <= list@.len(),
            list.deep_view() == items_of(t@),
            forall|j: int| 0 <= j < list@.len() ==> usable((#[trigger] list@[j])@),
            out@.len() == i,
            forall|j: int| 0 <= j < i ==> (#[trigger] out@[j])@ == joined_table_of(items_of(t@)[j]),
        decreases list@.len() - i,
    {
        assert(list.deep_view()[i as int] == list@[i as int]@);
        out.push(read_joined_table(list[i].as_str()));
        i = i + 1;
    }
    assert(out.deep_view() =~= joined_tables_of(t@));
    out
}

pub open spec fn order_key_of(t: Seq<char>) -> OrderByExprV {
    OrderByExprV {
        expr: expr_of(part_of(t, "expr"@)),
        asc: if absent(part_of(t, "asc"@)) {
            None
        } else {
            Some(flag_at(part_of(t, "asc"@)))
        },
    }
}

fn read_order_key(t: &str) -> (r: OrderByExpr)
    ensures
        r@ == order_key_of(t@),
{
    let e = part(t, "expr");
    let a = part(t, "asc");
    let asc: Option<bool> = if is_absent(a.as_str()) {
        None
    } else {
        Some(read_flag(a.as_str()))
    };
    OrderByExpr { expr: lower_expr(e.as_str()), asc }
}

/// The keys of an ordering.
pub open spec fn order_keys_of(t: Seq<char>) -> Seq<OrderByExprV> {
    Seq::new(items_of(t).len(), |i: int| order_key_of(items_of(t)[i]))
}

fn read_order_keys(t: &str) -> (r: Vec<OrderByExpr>)
    ensures
        r.deep_view() == order_keys_of(t@),
{
    let list = items(t);
    let mut out: Vec<OrderByExpr> = Vec::new();
    let mut i: usize = 0;
    while i < list.len()
        invariant
            i <= list@.len(),
            list.deep_view() == items_of(t@),
            out@.len() == i,
            forall|j: int| 0 <= j < i ==> (#[trigger] out@[j])@ == order_key_of(items_of(t@)[j]),
        decreases list@.len() - i,
    {
        assert(list.deep_view()[i as int] == list@[i as int]@);
        out.push(read_order_key(list[i].as_str()));
        i = i + 1;
    }
    assert(out.deep_view() =~= order_keys_of(t@));
    out
}

/// The keys of a grouping; none for `GROUP BY ALL`.
pub open spec fn grouping_of(t: Seq<char>) -> Option<Seq<ExprV>> {
    let (tag, x) = variant_of(t);
    if tag == "All"@ {
        None
    } else {
        Some(exprs_of(x))
    }
}

fn read_grouping(t: &str) -> (r: Option<Vec<Expr>>)
    ensures
        r.deep_view() == grouping_of(t@),
{
    let (tag, x) = variant(t);
    if text::text_eq(tag.as_str(), "All") {
        None
    } else {
        Some(read_exprs(x.as_str()))
    }
}

pub open spec fn select_of(t: Seq<char>) -> SelectV {
    SelectV {
        distinct: !absent(part_of(t, "distinct"@)),
        projection: select_items_of(part_of(t, "projection"@)),
        from: joined_tables_of(part_of(t, "from"@)),
        selection: option_expr_of(part_of(t, "selection"@)),
        group_by: grouping_of(part_of(t, "group_by"@)),
    }
}

fn read_select(t: &str) -> (r: Select)
    requires
        usable(t@),
    ensures
        r@ == select_of(t@),
{
    let d = part(t, "distinct");
    let p = part(t, "projection");
    let f = part(t, "from");
    let s = part(t, "selection");
    let g = part(t, "group_by");
    Select {
        distinct: !is_absent(d.as_str()),
        projection: read_select_items(p.as_str()),
        from: read_joined_tables(f.as_str()),
        selection: read_option_expr(s.as_str()),
        group_by: read_grouping(g.as_str()),
    }
}

/// What a query takes its rows from.
pub open spec fn set_expr_of(t: Seq<char>) -> SetExprV {
    let (tag, x) = variant_of(t);
    if tag == "Select"@ {
        SetExprV::Select(select_of(x))
    } else if tag == "Values"@ {
        SetExprV::Values(expr_rows_of(part_of(x, "rows"@)))
    } else {
        SetExprV::Other
    }
}

fn read_set_expr(t: &str) -> (r: SetExpr)
    requires
        usable(t@),
    ensures
        r@ == set_expr_of(t@),
{
    let (tag, x) = variant(t);
    if text::text_eq(tag.as_str(), "Select") {
        SetExpr::Select(read_select(x.as_str()))
    } else if text::text_eq(tag.as_str(), "Values") {
        let y = part(x.as_str(), "rows");
        SetExpr::Values(read_expr_rows(y.as_str()))
    } else {
        SetExpr::Other
    }
}

pub open spec fn query_of(t: Seq<char>) -> QueryV {
    let o = part_of(t, "offset"@);
    QueryV {
        body: set_expr_of(part_of(t, "body"@)),
        order_by: order_keys_of(part_of(t, "order_by"@)),
        limit: option_expr_of(part_of(t, "limit"@)),
        offset: if absent(o) {
            None
        } else {
            Some(expr_of(part_of(o, "value"@)))
        },
    }
}

fn read_query(t: &str) -> (r: Query)
    requires
        usable(t@),
    ensures
        r@ == query_of(t@),
{
    let b = part(t, "body");
    let k = part(t, "order_by");
    let l = part(t, "limit");
    let o = part(t, "offset");
    let offset: Option<Expr> = if is_absent(o.as_str()) {
        None
    } else {
        let v = part(o.as_str(), "value");
        Some(lower_expr(v.as_str()))
    };
    Query {
        body: read_set_expr(b.as_str()),
        order_by: read_order_keys(k.as_str()),
        limit: read_option_expr(l.as_str()),
        offset,
    }
}

/// An option of a column.
pub open spec fn column_option_of(t: Seq<char>) -> ColumnOptionV {
    let (tag, x) = variant_of(part_of(t, "option"@));
    if tag == "NotNull"@ {
        ColumnOptionV::NotNull
    } else if tag == "Unique"@ {
        ColumnOptionV::Unique { is_primary: flag_at(part_of(x, "is_primary"@)) }
    } else if tag == "Default"@ {
        ColumnOptionV::Default(expr_of(x))
    } else if tag == "Check"@ {
        ColumnOptionV::Check(shown_expr(x))
    } else if tag == "DialectSpecific"@ {
        ColumnOptionV::DialectSpecific(text::joined(token_texts_of(x), " "@))
    } else {
        ColumnOptionV::Other
    }
}

/// The text of a token, nothing where there is none.
pub open spec fn token_text_of(t: Seq<char>) -> Seq<char> {
    if t.len() == 0 {
        Seq::empty()
    } else {
        token_text(t)
    }
}

fn read_token_text(t: &str) -> (r: String)
    requires
        usable(t@),
    ensures
        r@ == token_text_of(t@),
{
    if t.is_empty() {
        String::new()
    } else {
        show_token(t)
    }
}

/// The texts of tokens.
pub open spec fn token_texts_of(t: Seq<char>) -> Seq<Seq<char>> {
    Seq::new(items_of(t).len(), |i: int| token_text_of(items_of(t)[i]))
}

fn read_token_texts(t: &str) -> (r: Vec<String>)
    requires
        usable(t@),
    ensures
        r.deep_view() == token_texts_of(t@),
{
    let list = items(t);
    let mut out: Vec<String> = Vec::new();
    let mut i: usize = 0;
    while i < list.len()
        invariant
            i <= list@.len(),
            list.deep_view() == items_of(t@),
            forall|j: int| 0 <= j < list@.len() ==> usable((#[trigger] list@[j])@),
            out@.len() == i,
            forall|j: int| 0 <= j < i ==> (#[trigger] out@[j])@ == token_text_of(items_of(t@)[j]),
        decreases list@.len() - i,
    {
        assert(list.deep_view()[i as int] == list@[i as int]@);
        out.push(read_token_text(list[i].as_str()));
        i = i + 1;
    }
    assert(out.deep_view() =~= token_texts_of(t@));
    out
}

fn read_column_option(t: &str) -> (r: ColumnOption)
    requires
        usable(t@),
    ensures
        r@ == column_option_of(t@),
{
    let o = part(t, "option");
    let (tag, x) = variant(o.as_str());
    if text::text_eq(tag.as_str(), "NotNull") {
        ColumnOption::NotNull
    } else if text::text_eq(tag.as_str(), "Unique") {
        let p = part(x.as_str(), "is_primary");
        ColumnOption::Unique { is_primary: read_flag(p.as_str()) }
    } else if text::text_eq(tag.as_str(), "Default") {
        ColumnOption::Default(lower_expr(x.as_str()))
    } else if text::text_eq(tag.as_str(), "Check") {
        ColumnOption::Check(read_shown_expr(x.as_str()))
    } else if text::text_eq(tag.as_str(), "DialectSpecific") {
        let l = read_token_texts(x.as_str());
        ColumnOption::DialectSpecific(text::join(&l, " "))
    } else {
        ColumnOption::Other
    }
}

/// The options of a column.
pub open spec fn column_options_of(t: Seq<char>) -> Seq<ColumnOptionV> {
    Seq::new(items_of(t).len(), |i: int| column_option_of(items_of(t)[i]))
}

fn read_column_options(t: &str) -> (r: Vec<ColumnOption>)
    requires
        usable(t@),
    ensures
        r.deep_view() == column_options_of(t@),
{
    let list = items(t);
    let mut out: Vec<ColumnOption> = Vec::new();
    let mut i: usize = 0;
    while i < list.len()
        invariant
            i <= list@.len(),
            list.deep_view() == items_of(t@),
            forall|j: int| 0 <= j < list@.len() ==> usable((#[trigger] list@[j])@),
            out@.len() == i,
            forall|j: int| 0 <= j < i ==> (#[trigger] out@[j])@ == column_option_of(items_of(t@)[j]),
        decreases list@.len() - i,
    {
        assert(list.deep_view()[i as int] == list@[i as int]@);
        out.push(read_column_option(list[i].as_str()));
        i = i + 1;
    }
    assert(out.deep_view() =~= column_options_of(t@));
    out
}

pub open spec fn column_spec_of(t: Seq<char>) -> ColumnSpecV {
    ColumnSpecV {
        name: ident_text(part_of(t, "name"@)),
        data_type: variant_of(part_of(t, "data_type"@)).0,
        options: column_options_of(part_of(t, "options"@)),
    }
}

fn read_column_spec(t: &str) -> (r: ColumnSpec)
    requires
        usable(t@),
    ensures
        r@ == column_spec_of(t@),
{
    let n = part(t, "name");
    let d = part(t, "data_type");
    let (data_type, _) = variant(d.as_str());
    let o = part(t, "options");
    ColumnSpec { name: read_ident_text(n.as_str()), data_type, options: read_column_options(o.as_str()) }
}

/// The columns of a table.
pub open spec fn column_specs_of(t: Seq<char>) -> Seq<ColumnSpecV> {
    Seq::new(items_of(t).len(), |i: int| column_spec_of(items_of(t)[i]))
}

fn read_column_specs(t: &str) -> (r: Vec<ColumnSpec>)
    requires
        usable(t@),
    ensures
        r.deep_view() == column_specs_of(t@),
{
    let list = items(t);
    let mut out: Vec<ColumnSpec> = Vec::new();
    let mut i: usize = 0;
    while i < list.len()
        invariant
            i <= list@.len(),
            list.deep_view() == items_of(t@),
            forall|j: int| 0 <= j < list@.len() ==> usable((#[trigger] list@[j])@),
            out@.len() == i,
            forall|j: int| 0 <= j < i ==> (#[trigger] out@[j])@ == column_spec_of(items_of(t@)[j]),
        decreases list@.len() - i,
    {
        assert(list.deep_view()[i as int] == list@[i as int]@);
        out.push(read_column_spec(list[i].as_str()));
        i = i + 1;
    }
    assert(out.deep_view() =~= column_specs_of(t@));
    out
}

/// A constraint of a table.
pub open spec fn table_constraint_of(t: Seq<char>) -> TableConstraintV {
    let (tag, x) = variant_of(t);
    if tag == "Unique"@ {
        TableConstraintV::Unique {
            columns: ident_values(part_of(x, "columns"@)),
            is_primary: flag_at(part_of(x, "is_primary"@)),
        }
    } else if tag == "ForeignKey"@ {
        TableConstraintV::ForeignKey {
            columns: ident_texts(part_of(x, "columns"@)),
            foreign_table: object_name(part_of(x, "foreign_table"@)),
            referred_columns: ident_texts(part_of(x, "referred_columns"@)),
            on_delete: variant_of(part_of(x, "on_delete"@)).0,
            on_update: variant_of(part_of(x, "on_update"@)).0,
        }
    } else if tag == "Check"@ {
        TableConstraintV::Check(shown_expr(part_of(x, "expr"@)))
    } else {
        TableConstraintV::Other
    }
}

fn read_table_constraint(t: &str) -> (r: TableConstraint)
    requires
        usable(t@),
    ensures
        r@ == table_constraint_of(t@),
{
    let (tag, x) = variant(t);
    let x = x.as_str();
    if text::text_eq(tag.as_str(), "Unique") {
        let c = part(x, "columns");
        let p = part(x, "is_primary");
        TableConstraint::Unique { columns: read_idents(c.as_str()), is_primary: read_flag(p.as_str()) }
    } else if text::text_eq(tag.as_str(), "ForeignKey") {
        let c = part(x, "columns");
        let f = part(x, "foreign_table");
        let r = part(x, "referred_columns");
        let d = part(x, "on_delete");
        let u = part(x, "on_update");
        let (on_delete, _) = variant(d.as_str());
        let (on_update, _) = variant(u.as_str());
        TableConstraint::ForeignKey {
            columns: read_ident_texts(c.as_str()),
            foreign_table: read_object_name(f.as_str()),
            referred_columns: read_ident_texts(r.as_str()),
            on_delete,
            on_update,
        }
    } else if text::text_eq(tag.as_str(), "Check") {
        let e = part(x, "expr");
        TableConstraint::Check(read_shown_expr(e.as_str()))
    } else {
        TableConstraint::Other
    }
}

/// The constraints of a table.
pub open spec fn table_constraints_of(t: Seq<char>) -> Seq<TableConstraintV> {
    Seq::new(items_of(t).len(), |i: int| table_constraint_of(items_of(t)[i]))
}

fn read_table_constraints(t: &str) -> (r: Vec<TableConstraint>)
    requires
        usable(t@),
    ensures
        r.deep_view() == table_constraints_of(t@),
{
    let list = items(t);
    let mut out: Vec<TableConstraint> = Vec::new();
    let mut i: usize = 0;
    while i < list.len()
        invariant
            i <= list@.len(),
            list.deep_view() == items_of(t@),
            forall|j: int| 0 <= j < list@.len() ==> usable((#[trigger] list@[j])@),
            out@.len() == i,
            forall|j: int| 0 <= j < i ==> (#[trigger] out@[j])@ == table_constraint_of(items_of(t@)[j]),
        decreases list@.len() - i,
    {
        assert(list.deep_view()[i as int] == list@[i as int]@);
        out.push(read_table_constraint(list[i].as_str()));
        i = i + 1;
    }
    assert(out.deep_view() =~= table_constraints_of(t@));
    out
}

/// The text of a change of a table, nothing where there is none.
pub open spec fn shown_alteration(t: Seq<char>) -> Seq<char> {
    if t.len() == 0 {
        Seq::empty()
    } else {
        alteration_text(t)
    }
}

/// A change of a table.
pub open spec fn alteration_of(t: Seq<char>) -> AlterTableOperationV {
    let (tag, x) = variant_of(t);
    if tag == "AddColumn"@ {
        AlterTableOperationV::AddColumn(column_spec_of(part_of(x, "column_def"@)))
    } else if tag == "DropColumn"@ {
        AlterTableOperationV::DropColumn {
            column: ident_value(part_of(x, "column_name"@)),
            if_exists: flag_at(part_of(x, "if_exists"@)),
        }
    } else if tag == "RenameColumn"@ {
        AlterTableOperationV::RenameColumn {
            old_name: ident_value(part_of(x, "old_column_name"@)),
            new_name: ident_value(part_of(x, "new_column_name"@)),
        }
    } else if tag == "RenameTable"@ {
        AlterTableOperationV::RenameTable(object_name(part_of(x, "table_name"@)))
    } else {
        AlterTableOperationV::Other(shown_alteration(t))
    }
}

fn read_alteration(t: &str) -> (r: AlterTableOperation)
    requires
        usable(t@),
    ensures
        r@ == alteration_of(t@),
{
    let (tag, x) = variant(t);
    let x = x.as_str();
    if text::text_eq(tag.as_str(), "AddColumn") {
        let c = part(x, "column_def");
        AlterTableOperation::AddColumn(read_column_spec(c.as_str()))
    } else if text::text_eq(tag.as_str(), "DropColumn") {
        let c = part(x, "column_name");
        let e = part(x, "if_exists");
        AlterTableOperation::DropColumn { column: read_ident(c.as_str()), if_exists: read_flag(e.as_str()) }
    } else if text::text_eq(tag.as_str(), "RenameColumn") {
        let a = part(x, "old_column_name");
        let b = part(x, "new_column_name");
        AlterTableOperation::RenameColumn { old_name: read_ident(a.as_str()), new_name: read_ident(b.as_str()) }
    } else if text::text_eq(tag.as_str(), "RenameTable") {
        let n = part(x, "table_name");
        AlterTableOperation::RenameTable(read_object_name(n.as_str()))
    } else if t.is_empty() {
        AlterTableOperation::Other(String::new())
    } else {
        AlterTableOperation::Other(show_alteration(t))
    }
}

/// The changes of a table.
pub open spec fn alterations_of(t: Seq<char>) -> Seq<AlterTableOperationV> {
    Seq::new(items_of(t).len(), |i: int| alteration_of(items_of(t)[i]))
}

fn read_alterations(t: &str) -> (r: Vec<AlterTableOperation>)
    requires
        usable(t@),
    ensures
        r.deep_view() == alterations_of(t@),
{
    let list = items(t);
    let mut out: Vec<AlterTableOperation> = Vec::new();
    let mut i: usize = 0;
    while i < list.len()
        invariant
            i <= list@.len(),
            list.deep_view() == items_of(t@),
            forall|j: int| 0 <= j < list@.len() ==> usable((#[trigger] list@[j])@),
            out@.len() == i,
            forall|j: int| 0 <= j < i ==> (#[trigger] out@[j])@ == alteration_of(items_of(t@)[j]),
        decreases list@.len() - i,
    {
        assert(list.deep_view()[i as int] == list@[i as int]@);
        out.push(read_alteration(list[i].as_str()));
        i = i + 1;
    }
    assert(out.deep_view() =~= alterations_of(t@));
    out
}

pub open spec fn assignment_of(t: Seq<char>) -> AssignmentV {
    let ids = ident_values(part_of(t, "id"@));
    AssignmentV {
        column: if ids.len() == 0 {
            Seq::empty()
        } else {
            ids.last()
        },
        value: expr_of(part_of(t, "value"@)),
    }
}

fn read_assignment(t: &str) -> (r: Assignment)
    ensures
        r@ == assignment_of(t@),
{
    let i = part(t, "id");
    let ids = read_idents(i.as_str());
    let v = part(t, "value");
    let column = if ids.len() == 0 {
        String::new()
    } else {
        assert(ids.deep_view().last() == ids@[ids@.len() - 1]@);
        ids[ids.len() - 1].clone()
    };
    Assignment { column, value: lower_expr(v.as_str()) }
}

/// The assignments of an update.
pub open spec fn assignments_of(t: Seq<char>) -> Seq<AssignmentV> {
    Seq::new(items_of(t).len(), |i: int| assignment_of(items_of(t)[i]))
}

fn read_assignments(t: &str) -> (r: Vec<Assignment>)
    ensures
        r.deep_view() == assignments_of(t@),
{
    let list = items(t);
    let mut out: Vec<Assignment> = Vec::new();
    let mut i: usize = 0;
    while i < list.len()
        invariant
            i <= list@.len(),
            list.deep_view() == items_of(t@),
            out@.len() == i,
            forall|j: int| 0 <= j < i ==> (#[trigger] out@[j])@ == assignment_of(items_of(t@)[j]),
        decreases list@.len() - i,
    {
        assert(list.deep_view()[i as int] == list@[i as int]@);
        out.push(read_assignment(list[i].as_str()));
        i = i + 1;
    }
    assert(out.deep_view() =~= assignments_of(t@));
    out
}

/// The text of the expression of an index column.
pub open spec fn index_column_of(t: Seq<char>) -> Seq<char> {
    shown_expr(part_of(t, "expr"@))
}

fn read_index_column(t: &str) -> (r: String)
    requires
        usable(t@),
    ensures
        r@ == index_column_of(t@),
{
    let e = part(t, "expr");
    read_shown_expr(e.as_str())
}

/// The columns of an index.
pub open spec fn index_columns_of(t: Seq<char>) -> Seq<Seq<char>> {
    Seq::new(items_of(t).len(), |i: int| index_column_of(items_of(t)[i]))
}

fn read_index_columns(t: &str) -> (r: Vec<String>)
    requires
        usable(t@),
    ensures
        r.deep_view() == index_columns_of(t@),
{
    let list = items(t);
    let mut out: Vec<String> = Vec::new();
    let mut i: usize = 0;
    while i < list.len()
        invariant
            i <= list@.len(),
            list.deep_view() == items_of(t@),
            forall|j: int| 0 <= j < list@.len() ==> usable((#[trigger] list@[j])@),
            out@.len() == i,
            forall|j: int| 0 <= j < i ==> (#[trigger] out@[j])@ == index_column_of(items_of(t@)[j]),
        decreases list@.len() - i,
    {
        assert(list.deep_view()[i as int] == list@[i as int]@);
        out.push(read_index_column(list[i].as_str()));
        i = i + 1;
    }
    assert(out.deep_view() =~= index_columns_of(t@));
    out
}

/// The table that a delete names: the first before `FROM`, else the first behind it.
pub open spec fn delete_table_of(t: Seq<char>) -> Option<Seq<char>> {
    let tables = items_of(part_of(t, "tables"@));
    let from = items_of(part_of(t, "from"@));
    if tables.len() > 0 {
        Some(object_name(tables[0]))
    } else if from.len() > 0 {
        Some(table_ref_of(part_of(from[0], "relation"@)).table)
    } else {
        None
    }
}

fn read_delete_table(t: &str) -> (r: Option<String>)
    requires
        usable(t@),
    ensures
        r.deep_view() == delete_table_of(t@),
{
    let a = part(t, "tables");
    let tables = items(a.as_str());
    let b = part(t, "from");
    let from = items(b.as_str());
    if tables.len() > 0 {
        assert(tables.deep_view()[0] == tables@[0]@);
        Some(read_object_name(tables[0].as_str()))
    } else if from.len() > 0 {
        assert(from.deep_view()[0] == from@[0]@);
        assert(usable(from@[0]@));
        let c = part(from[0].as_str(), "relation");
        let f = read_table_ref(c.as_str());
        Some(f.table)
    } else {
        None
    }
}

pub open spec fn object_type_of(tag: Seq<char>) -> ObjectTypeV {
    if tag == "Table"@ {
        ObjectTypeV::Table
    } else if tag == "View"@ {
        ObjectTypeV::View
    } else if tag == "Index"@ {
        ObjectTypeV::Index
    } else {
        ObjectTypeV::Other(tag)
    }
}

fn read_object_type(tag: String) -> (r: ObjectType)
    ensures
        r@ == object_type_of(tag@),
{
    if text::text_eq(tag.as_str(), "Table") {
        ObjectType::Table
    } else if text::text_eq(tag.as_str(), "View") {
        ObjectType::View
    } else if text::text_eq(tag.as_str(), "Index") {
        ObjectType::Index
    } else {
        ObjectType::Other(tag)
    }
}

/// The text of a query, nothing where there is none.
pub open spec fn shown_query(t: Seq<char>) -> Seq<char> {
    if t.len() == 0 {
        Seq::empty()
    } else {
        query_text(t)
    }
}

/// The statement that a part of the tree stands for.
pub open spec fn statement_of(t: Seq<char>) -> StatementV {
    let (tag, x) = variant_of(t);
    if tag == "Query"@ {
        StatementV::Query(query_of(x))
    } else if tag == "Insert"@ {
        StatementV::Insert {
            table: object_name(part_of(x, "table_name"@)),
            columns: ident_values(part_of(x, "columns"@)),
            source: if absent(part_of(x, "source"@)) {
                None
            } else {
                Some(query_of(part_of(x, "source"@)))
            },
        }
    } else if tag == "Update"@ {
        StatementV::Update {
            table: table_ref_of(part_of(part_of(x, "table"@), "relation"@)).table,
            assignments: assignments_of(part_of(x, "assignments"@)),
            selection: option_expr_of(part_of(x, "selection"@)),
        }
    } else if tag == "Delete"@ {
        StatementV::Delete {
            table: delete_table_of(x),
            selection: option_expr_of(part_of(x, "selection"@)),
        }
    } else if tag == "CreateTable"@ {
        StatementV::CreateTable {
            name: object_name(part_of(x, "name"@)),
            columns: column_specs_of(part_of(x, "columns"@)),
            constraints: table_constraints_of(part_of(x, "constraints"@)),
            if_not_exists: flag_at(part_of(x, "if_not_exists"@)),
        }
    } else if tag == "AlterTable"@ {
        StatementV::AlterTable {
            name: object_name(part_of(x, "name"@)),
            if_exists: flag_at(part_of(x, "if_exists"@)),
            operations: alterations_of(part_of(x, "operations"@)),
        }
    } else if tag == "CreateIndex"@ {
        StatementV::CreateIndex {
            name: if absent(part_of(x, "name"@)) {
                None
            } else {
                Some(object_name(part_of(x, "name"@)))
            },
            table: object_name(part_of(x, "table_name"@)),
            columns: index_columns_of(part_of(x, "columns"@)),
            unique: flag_at(part_of(x, "unique"@)),
            if_not_exists: flag_at(part_of(x, "if_not_exists"@)),
        }
    } else if tag == "CreateView"@ {
        StatementV::CreateView {
            name: object_name(part_of(x, "name"@)),
            query: shown_query(part_of(x, "query"@)),
        }
    } else if tag == "CreateVirtualTable"@ {
        StatementV::CreateVirtualTable {
            name: object_name(part_of(x, "name"@)),
            if_not_exists: flag_at(part_of(x, "if_not_exists"@)),
            module_name: ident_text(part_of(x, "module_name"@)),
            module_args: ident_values(part_of(x, "module_args"@)),
        }
    } else if tag == "Drop"@ {
        StatementV::Drop {
            object: object_type_of(variant_of(part_of(x, "object_type"@)).0),
            if_exists: flag_at(part_of(x, "if_exists"@)),
            names: object_names(part_of(x, "names"@)),
        }
    } else if tag == "StartTransaction"@ {
        StatementV::StartTransaction
    } else if tag == "Commit"@ {
        StatementV::Commit
    } else if tag == "Rollback"@ {
        StatementV::Rollback
    } else {
        StatementV::Other(statement_description(t))
    }
}

fn lower_statement(t: &str) -> (r: Statement)
    requires
        usable(t@),
    ensures
        r@ == statement_of(t@),
{
    let (tag, x) = variant(t);
    let tg = tag.as_str();
    let x = x.as_str();
    if text::text_eq(tg, "Query") {
        Statement::Query(read_query(x))
    } else if text::text_eq(tg, "Insert") {
        let n = part(x, "table_name");
        let c = part(x, "columns");
        let s = part(x, "source");
        let source: Option<Query> = if is_absent(s.as_str()) {
            None
        } else {
            Some(read_query(s.as_str()))
        };
        Statement::Insert { table: read_object_name(n.as_str()), columns: read_idents(c.as_str()), source }
    } else if text::text_eq(tg, "Update") {
        let n = part(x, "table");
        let f = part(n.as_str(), "relation");
        let a = part(x, "assignments");
        let s = part(x, "selection");
        let table = read_table_ref(f.as_str());
        Statement::Update {
            table: table.table,
            assignments: read_assignments(a.as_str()),
            selection: read_option_expr(s.as_str()),
        }
    } else if text::text_eq(tg, "Delete") {
        let s = part(x, "selection");
        Statement::Delete { table: read_delete_table(x), selection: read_option_expr(s.as_str()) }
    } else if text::text_eq(tg, "CreateTable") {
        let n = part(x, "name");
        let c = part(x, "columns");
        let k = part(x, "constraints");
        let e = part(x, "if_not_exists");
        Statement::CreateTable {
            name: read_object_name(n.as_str()),
            columns: read_column_specs(c.as_str()),
            constraints: read_table_constraints(k.as_str()),
            if_not_exists: read_flag(e.as_str()),
        }
    } else if text::text_eq(tg, "AlterTable") {
        let n = part(x, "name");
        let e = part(x, "if_exists");
        let o = part(x, "operations");
        Statement::AlterTable {
            name: read_object_name(n.as_str()),
            if_exists: read_flag(e.as_str()),
            operations: read_alterations(o.as_str()),
        }
    } else if text::text_eq(tg, "CreateIndex") {
        let n = part(x, "name");
        let t2 = part(x, "table_name");
        let c = part(x, "columns");
        let u = part(x, "unique");
        let e = part(x, "if_not_exists");
        let name: Option<String> = if is_absent(n.as_str()) {
            None
        } else {
            Some(read_object_name(n.as_str()))
        };
        Statement::CreateIndex {
            name,
            table: read_object_name(t2.as_str()),
            columns: read_index_columns(c.as_str()),
            unique: read_flag(u.as_str()),
            if_not_exists: read_flag(e.as_str()),
        }
    } else if text::text_eq(tg, "CreateView") {
        let n = part(x, "name");
        let q = part(x, "query");
        let query = if q.as_str().is_empty() {
            String::new()
        } else {
            show_query(q.as_str())
        };
        Statement::CreateView { name: read_object_name(n.as_str()), query }
    } else if text::text_eq(tg, "CreateVirtualTable") {
        let n = part(x, "name");
        let e = part(x, "if_not_exists");
        let m = part(x, "module_name");
        let a = part(x, "module_args");
        Statement::CreateVirtualTable {
            name: read_object_name(n.as_str()),
            if_not_exists: read_flag(e.as_str()),
            module_name: read_ident_text(m.as_str()),
            module_args: read_idents(a.as_str()),
        }
    } else if text::text_eq(tg, "Drop") {
        let o = part(x, "object_type");
        let (kind, _) = variant(o.as_str());
        let e = part(x, "if_exists");
        let n = part(x, "names");
        Statement::Drop {
            object: read_object_type(kind),
            if_exists: read_flag(e.as_str()),
            names: read_object_names(n.as_str()),
        }
    } else if text::text_eq(tg, "StartTransaction") {
        Statement::StartTransaction
    } else if text::text_eq(tg, "Commit") {
        Statement::Commit
    } else if text::text_eq(tg, "Rollback") {
        Statement::Rollback
    } else {
        Statement::Other(describe_statement(t))
    }
}

/// The statements of a list.
pub open spec fn statements_of(t: Seq<char>) -> Seq<StatementV> {
    Seq::new(items_of(t).len(), |i: int| statement_of(items_of(t)[i]))
}

fn read_statements(t: &str) -> (r: Vec<Statement>)
    requires
        usable(t@),
    ensures
        r.deep_view() == statements_of(t@),
{
    let list = items(t);
    let mut out: Vec<Statement> = Vec::new();
    let mut i: usize = 0;
    while i < list.len()
        invariant
            i <= list@.len(),
            list.deep_view() == items_of(t@),
            forall|j: int| 0 <= j < list@.len() ==> usable((#[trigger] list@[j])@),
            out@.len() == i,
            forall|j: int| 0 <= j < i ==> (#[trigger] out@[j])@ == statement_of(items_of(t@)[j]),
        decreases list@.len() - i,
    {
        assert(list.deep_view()[i as int] == list@[i as int]@);
        out.push(lower_statement(list[i].as_str()));
        i = i + 1;
    }
    assert(out.deep_view() =~= statements_of(t@));
    out
}

/// The statements of an SQL text, or why it is not SQL.
pub open spec fn statements_in(sql: Seq<char>) -> Result<Seq<StatementV>, ErrorV> {
    if stumbles(sql) {
        Err(unreadable())
    } else {
        match sql_read(sql) {
            Ok(t) => Ok(statements_of(t)),
            Err(e) => Err(ErrorV::SqlParse(e)),
        }
    }
}

pub open spec fn unreadable() -> ErrorV {
    ErrorV::SqlParse("sql parser error: Expected a name behind GRANTED BY, and a whole number behind AUTO_INCREMENT"@)
}

/// The statements of an SQL text.
pub fn parse_statements(sql: &str) -> (r: Result<Vec<Statement>, SkvsError>)
    ensures
        match r {
            Ok(v) => statements_in(sql@) == Ok::<Seq<StatementV>, ErrorV>(v.deep_view()),
            Err(e) => statements_in(sql@) == Err::<Seq<StatementV>, ErrorV>(e@),
        },
{
    if is_unreadable(sql) {
        return Err(
            SkvsError::SqlParse(
                "sql parser error: Expected a name behind GRANTED BY, and a whole number behind AUTO_INCREMENT".to_owned(),
            ),
        );
    }
    match parse_sql(sql) {
        Ok(t) => {
            proof {
                assert(descends(t@, t@, 0));
                assert(parsed_part(sql@, t@, 0));
            }
            Ok(read_statements(t.as_str()))
        },
        Err(e) => Err(SkvsError::SqlParse(e)),
    }
}

/// The expression of an SQL text, or why it is none.
pub open spec fn expression_in(sql: Seq<char>) -> Result<ExprV, ErrorV> {
    match sql_expr_read(sql) {
        Ok(t) => Ok(expr_of(t)),
        Err(e) => Err(ErrorV::SqlParse(e)),
    }
}

/// The expression of an SQL text.
pub fn parse_expression(sql: &str) -> (r: Result<Expr, SkvsError>)
    ensures
        error::outcome(r) == expression_in(sql@),
{
    match parse_expr_text(sql) {
        Ok(t) => Ok(lower_expr(t.as_str())),
        Err(e) => Err(SkvsError::SqlParse(e)),
    }
}

} // verus!

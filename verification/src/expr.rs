//! The evaluator of scalar expressions, shared by every part of the engine.
use vstd::prelude::*;
use vstd::slice::slice_subrange;
use vstd::string::*;
use vstd::utf8::*;

use crate::assoc;
use crate::ast;
use crate::ast::{BinaryOp, Expr, ExprV, FunctionArg, FunctionArgV, Literal, LiteralV, UnaryOp};
use crate::codec;
use crate::decimal;
use crate::double;
use crate::double::Real;
use crate::error;
use crate::error::{ErrorV, SkvsError};
use crate::json;
use crate::row;
use crate::row::RowV;
use crate::schema;
use crate::schema::{Row, Value, ValueV};
use crate::text;

verus! {

/// What an expression is evaluated against: the current row, where there is one.
pub struct EvalCtx<'a> {
    pub row: Option<&'a Row>,
}

impl<'a> EvalCtx<'a> {
    pub open spec fn row_view(&self) -> Option<RowV> {
        match self.row {
            Some(r) => Some(row::cells(*r)),
            None => None,
        }
    }

    pub fn with_row(row: &'a Row) -> (r: EvalCtx<'a>)
        ensures
            r.row_view() == Some(row::cells(*row)),
    {
        EvalCtx { row: Some(row) }
    }

    pub fn no_row() -> (r: EvalCtx<'a>)
        ensures
            r.row_view() is None,
    {
        EvalCtx { row: None }
    }
}

/// Whether a value counts as true: null, zero and what is empty do not.
pub open spec fn is_true(v: ValueV) -> bool {
    match v {
        ValueV::Null => false,
        ValueV::Integer(i) => i != 0,
        ValueV::Real(b) => !double::is_zero(b),
        ValueV::Text(s) => s.len() > 0,
        ValueV::Blob(b) => b.len() > 0,
    }
}

/// Whether a value counts as true.
pub fn truthy(v: &Value) -> (r: bool)
    ensures
        r == is_true(v@),
{
    match v {
        Value::Null => false,
        Value::Integer(i) => *i != 0,
        Value::Real(x) => !x.zero(),
        Value::Text(s) => !s.as_str().is_empty(),
        Value::Blob(b) => b.len() > 0,
    }
}

/// One for true, zero for false.
pub open spec fn bool_value(b: bool) -> ValueV {
    ValueV::Integer(
        if b {
            1
        } else {
            0
        },
    )
}

pub(crate) fn bool_val(b: bool) -> (r: Value)
    ensures
        r@ == bool_value(b),
{
    Value::Integer(
        if b {
            1
        } else {
            0
        },
    )
}

/// The sum of two counts, kept within what an index can hold.
pub open spec fn count_sum(a: int, b: int) -> int {
    if a + b > usize::MAX {
        usize::MAX as int
    } else {
        a + b
    }
}

/// How many placeholders an expression holds, in every part that evaluation may reach.
pub open spec fn placeholders(e: ExprV) -> int
    decreases e,
{
    match e {
        ExprV::Value(l) => match l {
            LiteralV::Placeholder => 1,
            _ => 0,
        },
        ExprV::UnaryOp { op, expr } => placeholders(*expr),
        ExprV::Nested(x) => placeholders(*x),
        ExprV::BinaryOp { left, op, right } => count_sum(placeholders(*left), placeholders(*right)),
        ExprV::IsNull(x) => placeholders(*x),
        ExprV::IsNotNull(x) => placeholders(*x),
        ExprV::Between { expr, negated, low, high } => count_sum(
            count_sum(placeholders(*expr), placeholders(*low)),
            placeholders(*high),
        ),
        ExprV::InList { expr, list, negated } => count_sum(
            placeholders(*expr),
            list_placeholders(list, list.len() as int),
        ),
        ExprV::Like { negated, expr, pattern, any_case } => count_sum(
            placeholders(*expr),
            placeholders(*pattern),
        ),
        ExprV::Case { operand, conditions, results, else_result } => count_sum(
            count_sum(
                count_sum(
                    match operand {
                        Some(x) => placeholders(*x),
                        None => 0,
                    },
                    list_placeholders(conditions, conditions.len() as int),
                ),
                list_placeholders(results, results.len() as int),
            ),
            match else_result {
                Some(x) => placeholders(*x),
                None => 0,
            },
        ),
        ExprV::Function { name, distinct, args } => arg_placeholders(args, args.len() as int),
        _ => 0,
    }
}

/// How many placeholders the first `n` expressions of a list hold.
pub open spec fn list_placeholders(list: Seq<ExprV>, n: int) -> int
    decreases list, n,
{
    if n <= 0 || n > list.len() {
        0
    } else {
        count_sum(list_placeholders(list, n - 1), placeholders(list[n - 1]))
    }
}

/// How many placeholders the first `n` arguments of a call hold.
pub open spec fn arg_placeholders(args: Seq<FunctionArgV>, n: int) -> int
    decreases args, n,
{
    if n <= 0 || n > args.len() {
        0
    } else {
        count_sum(
            arg_placeholders(args, n - 1),
            match args[n - 1] {
                FunctionArgV::Unnamed(e) => placeholders(e),
                FunctionArgV::Named(e) => placeholders(e),
                _ => 0,
            },
        )
    }
}

/// The sum of two counts, or the greatest count.
pub fn saturating(a: usize, b: usize) -> (r: usize)
    ensures
        r == count_sum(a as int, b as int),
{
    if b > usize::MAX - a {
        usize::MAX
    } else {
        a + b
    }
}

/// How many placeholders an expression holds, without evaluating it.
pub fn count_placeholders(expr: &Expr) -> (r: usize)
    ensures
        r == placeholders(expr@),
    decreases expr,
{
    match expr {
        Expr::Value(l) => match l {
            Literal::Placeholder => 1,
            _ => 0,
        },
        Expr::UnaryOp { op, expr } => count_placeholders(expr),
        Expr::Nested(x) => count_placeholders(x),
        Expr::BinaryOp { left, op, right } => {
            let a: usize = count_placeholders(left);
            let b: usize = count_placeholders(right);
            saturating(a, b)
        },
        Expr::IsNull(x) => count_placeholders(x),
        Expr::IsNotNull(x) => count_placeholders(x),
        Expr::Between { expr, negated, low, high } => {
            let a: usize = count_placeholders(expr);
            let b: usize = count_placeholders(low);
            let c: usize = count_placeholders(high);
            saturating(saturating(a, b), c)
        },
        Expr::InList { expr, list, negated } => {
            let a: usize = count_placeholders(expr);
            saturating(a, count_list(list))
        },
        Expr::Like { negated, expr, pattern, any_case } => {
            let a: usize = count_placeholders(expr);
            let b: usize = count_placeholders(pattern);
            saturating(a, b)
        },
        Expr::Case { operand, conditions, results, else_result } => {
            let a: usize = match operand {
                Some(x) => count_placeholders(x),
                None => 0,
            };
            let b: usize = count_list(conditions);
            let c: usize = count_list(results);
            let d: usize = match else_result {
                Some(x) => count_placeholders(x),
                None => 0,
            };
            saturating(saturating(saturating(a, b), c), d)
        },
        Expr::Function { name, distinct, args } => {
            let ghost av = ast::args_view(args@);
            let mut n: usize = 0;
            let mut i: usize = 0;
            while i < args.len()
                invariant
                    i <= args@.len(),
                    av == ast::args_view(args@),
                    n == arg_placeholders(av, i as int),
                    forall|k: int| 0 <= k < args@.len() ==> decreases_to!(expr => #[trigger] args@[k]),
                decreases args@.len() - i,
            {
                assert(av[i as int] == ast::arg_view(args@[i as int]));
                assert(decreases_to!(expr => args@[i as int]));
                let c: usize = match &args[i] {
                    FunctionArg::Unnamed(e) => count_placeholders(e),
                    FunctionArg::Named(e) => count_placeholders(e),
                    _ => 0,
                };
                n = saturating(n, c);
                i = i + 1;
            }
            n
        },
        _ => 0,
    }
}

/// How many placeholders the expressions of a list hold.
pub fn count_list(list: &Vec<Expr>) -> (r: usize)
    ensures
        r == list_placeholders(ast::exprs_view(list@), list@.len() as int),
    decreases list,
{
    let ghost lv = ast::exprs_view(list@);
    let mut n: usize = 0;
    let mut i: usize = 0;
    while i < list.len()
        invariant
            i <= list@.len(),
            lv == ast::exprs_view(list@),
            n == list_placeholders(lv, i as int),
        decreases list@.len() - i,
    {
        assert(lv[i as int] == ast::expr_view(list@[i as int]));
        let c: usize = count_placeholders(&list[i]);
        n = saturating(n, c);
        i = i + 1;
    }
    n
}

/// Whether a text matches a pattern: `%` stands for any run of characters and `_` for exactly
/// one.
pub open spec fn like(t: Seq<char>, p: Seq<char>) -> bool
    decreases p.len(), t.len(),
{
    if p.len() == 0 {
        t.len() == 0
    } else if p[0] == '%' {
        like(t, p.drop_first()) || (t.len() > 0 && like(t.drop_first(), p))
    } else {
        t.len() > 0 && (p[0] == '_' || t[0] == p[0]) && like(t.drop_first(), p.drop_first())
    }
}

/// A `%` at the head of a pattern matches any run of characters at the head of a text.
pub proof fn lemma_like_percent(t: Seq<char>, p: Seq<char>, k: int)
    requires
        0 <= k <= t.len(),
        p.len() > 0,
        p[0] == '%',
        like(t.skip(k), p.drop_first()),
    ensures
        like(t, p),
    decreases k,
{
    if k == 0 {
        assert(t.skip(0) =~= t);
    } else {
        assert(t.drop_first().skip(k - 1) =~= t.skip(k));
        lemma_like_percent(t.drop_first(), p, k - 1);
    }
}

/// A text that a pattern with `%` at its head matches has a run of characters at its head after
/// which the rest of the pattern matches.
pub proof fn lemma_like_percent_run(t: Seq<char>, p: Seq<char>) -> (k: int)
    requires
        p.len() > 0,
        p[0] == '%',
        like(t, p),
    ensures
        0 <= k <= t.len(),
        like(t.skip(k), p.drop_first()),
    decreases t.len(),
{
    if like(t, p.drop_first()) {
        assert(t.skip(0) =~= t);
        0
    } else {
        let k = lemma_like_percent_run(t.drop_first(), p);
        assert(t.drop_first().skip(k) =~= t.skip(k + 1));
        k + 1
    }
}

/// A pattern without `%` and `_` matches exactly itself.
pub proof fn lemma_like_plain(t: Seq<char>, p: Seq<char>)
    requires
        forall|i: int| 0 <= i < p.len() ==> p[i] != '%' && p[i] != '_',
    ensures
        like(t, p) == (t == p),
    decreases p.len(),
{
    if p.len() > 0 && t.len() > 0 {
        lemma_like_plain(t.drop_first(), p.drop_first());
        if t.drop_first() == p.drop_first() && t[0] == p[0] {
            assert(t =~= seq![t[0]] + t.drop_first());
            assert(p =~= seq![p[0]] + p.drop_first());
        }
    } else if p.len() == 0 && t.len() == 0 {
        assert(t =~= p);
    }
}

/// Matches characters against a pattern with `%` and `_`.
pub fn like_match_chars(text: &[char], pattern: &[char]) -> (r: bool)
    ensures
        r == like(text@, pattern@),
    decreases pattern@.len(), text@.len(),
{
    if pattern.len() == 0 {
        return text.len() == 0;
    }
    let c: char = pattern[0];
    let rest = slice_subrange(pattern, 1, pattern.len());
    assert(rest@ =~= pattern@.drop_first());
    if c == '%' {
        if like_match_chars(text, rest) {
            return true;
        }
        if text.len() == 0 {
            return false;
        }
        let tail = slice_subrange(text, 1, text.len());
        assert(tail@ =~= text@.drop_first());
        like_match_chars(tail, pattern)
    } else {
        if text.len() == 0 {
            return false;
        }
        let tail = slice_subrange(text, 1, text.len());
        assert(tail@ =~= text@.drop_first());
        if c == '_' || text[0] == c {
            like_match_chars(tail, rest)
        } else {
            false
        }
    }
}

/// Matches a text against a pattern, both in lower case where the case is not to count.
pub fn sql_like_match(text: &str, pattern: &str, case_insensitive_hint: bool) -> (r: bool)
    ensures
        r == (if case_insensitive_hint {
            like(text::lowercase(text@), text::lowercase(pattern@))
        } else {
            like(text@, pattern@)
        }),
{
    if case_insensitive_hint {
        let t = text::to_lower(text);
        let p = text::to_lower(pattern);
        let tc = text::chars_of(t.as_str());
        let pc = text::chars_of(p.as_str());
        like_match_chars(tc.as_slice(), pc.as_slice())
    } else {
        let tc = text::chars_of(text);
        let pc = text::chars_of(pattern);
        like_match_chars(tc.as_slice(), pc.as_slice())
    }
}

/// What a column holds in the row, null where there is no row or no such column.
pub open spec fn column_value(row: Option<RowV>, name: Seq<char>) -> ValueV {
    match row {
        Some(r) => match assoc::assoc_get(r, name) {
            Some(v) => v,
            None => ValueV::Null,
        },
        None => ValueV::Null,
    }
}

/// What a qualified column holds: under its full name, else under its last part.
pub open spec fn compound_value(row: Option<RowV>, parts: Seq<Seq<char>>) -> ValueV {
    let full = text::joined(parts, "."@);
    let bare = if parts.len() == 0 {
        ValueV::Null
    } else {
        column_value(row, parts.last())
    };
    match row {
        Some(r) => match assoc::assoc_get(r, full) {
            Some(v) => v,
            None => bare,
        },
        None => bare,
    }
}

/// The index behind `i`, kept within what an index can hold.
pub open spec fn next_index(i: int) -> int {
    if i < usize::MAX {
        i + 1
    } else {
        i
    }
}

/// What a constant stands for, and the index of the parameter that comes next.
pub open spec fn literal_value(l: LiteralV, ps: Seq<ValueV>, i: int) -> (ValueV, int) {
    match l {
        LiteralV::Number(n) => (
            match json::number_value(n) {
                Some(v) => v,
                None => ValueV::Null,
            },
            i,
        ),
        LiteralV::SingleQuoted(s) => (ValueV::Text(s), i),
        LiteralV::DoubleQuoted(s) => (ValueV::Text(s), i),
        LiteralV::Boolean(b) => (bool_value(b), i),
        LiteralV::Null => (ValueV::Null, i),
        LiteralV::Placeholder => (
            if 0 <= i < ps.len() {
                ps[i]
            } else {
                ValueV::Null
            },
            next_index(i),
        ),
        LiteralV::Other => (ValueV::Null, i),
    }
}

pub open spec fn unary_value(op: UnaryOp, v: ValueV) -> ValueV {
    match op {
        UnaryOp::Minus => match v {
            ValueV::Integer(i) => ValueV::Integer(negated_int(i)),
            ValueV::Real(b) => ValueV::Real(double::negated(b)),
            _ => v,
        },
        UnaryOp::Not => bool_value(!is_true(v)),
        _ => v,
    }
}

/// The negative of an integer; the least one, which has none, stays.
pub open spec fn negated_int(i: i64) -> i64 {
    if i == i64::MIN {
        i
    } else {
        (-i) as i64
    }
}

/// A number as a double.
pub open spec fn as_real(v: ValueV) -> Option<u64> {
    match v {
        ValueV::Integer(i) => Some(double::int_real(i as int)),
        ValueV::Real(b) => Some(b),
        _ => None,
    }
}

/// The bits of two to the power 63.
pub const TWO_63: u64 = 0x43e0_0000_0000_0000;

/// The result of arithmetic: an integer where one is wanted and the double is a whole number
/// in range.
pub open spec fn numeric_value(b: u64, prefer_int: bool) -> ValueV {
    if prefer_int && double::is_whole(b) && double::magnitude(b) < TWO_63 {
        ValueV::Integer(double::saturated(b) as i64)
    } else {
        ValueV::Real(b)
    }
}

/// The remainder of a division of integers that has the sign of the dividend.
pub open spec fn int_remainder(a: i64, b: i64) -> i64 {
    let x = if a < 0 {
        -a
    } else {
        a as int
    };
    let y = if b < 0 {
        -b
    } else {
        b as int
    };
    if a < 0 {
        (-(x % y)) as i64
    } else {
        (x % y) as i64
    }
}

pub open spec fn arithmetic_value(l: ValueV, op: BinaryOp, r: ValueV) -> ValueV {
    match (as_real(l), as_real(r)) {
        (Some(a), Some(b)) => {
            let both_int = l is Integer && r is Integer;
            match op {
                BinaryOp::Plus => numeric_value(double::sum_real(a, b), both_int),
                BinaryOp::Minus => numeric_value(double::difference_real(a, b), both_int),
                BinaryOp::Multiply => numeric_value(double::product_real(a, b), both_int),
                BinaryOp::Divide => if double::is_zero(b) {
                    ValueV::Null
                } else {
                    ValueV::Real(double::quotient_real(a, b))
                },
                BinaryOp::Modulo => if double::is_zero(b) {
                    ValueV::Null
                } else {
                    match (l, r) {
                        (ValueV::Integer(i), ValueV::Integer(j)) => ValueV::Integer(int_remainder(i, j)),
                        _ => ValueV::Real(double::remainder_real(a, b)),
                    }
                },
                _ => ValueV::Null,
            }
        },
        _ => ValueV::Null,
    }
}

/// A value as it is shown in a text.
pub open spec fn display_text(v: ValueV) -> Seq<char> {
    match v {
        ValueV::Null => Seq::empty(),
        ValueV::Integer(i) => text::int_text(i as int),
        ValueV::Real(b) => decimal::real_text(b),
        ValueV::Text(s) => s,
        ValueV::Blob(b) => "x'"@ + codec::hex_text(b) + "'"@,
    }
}

/// What an operator other than `AND` and `OR` makes of two values.
pub open spec fn binary_value(op: BinaryOp, l: ValueV, r: ValueV) -> ValueV {
    match op {
        BinaryOp::Eq => bool_value(schema::same_value(l, r)),
        BinaryOp::NotEq => bool_value(!schema::same_value(l, r)),
        BinaryOp::Gt => bool_value(schema::value_order(l, r) > 0),
        BinaryOp::Lt => bool_value(schema::value_order(l, r) < 0),
        BinaryOp::GtEq => bool_value(schema::value_order(l, r) >= 0),
        BinaryOp::LtEq => bool_value(schema::value_order(l, r) <= 0),
        BinaryOp::StringConcat => ValueV::Text(display_text(l) + display_text(r)),
        _ => arithmetic_value(l, op, r),
    }
}

/// Whether a value matches a pattern; only texts do.
pub open spec fn like_values(v: ValueV, p: ValueV, any_case: bool) -> bool {
    match (v, p) {
        (ValueV::Text(s), ValueV::Text(t)) => if any_case {
            like(text::lowercase(s), text::lowercase(t))
        } else {
            like(s, t)
        },
        _ => false,
    }
}

/// The argument at `k`, null where there is none.
pub open spec fn argument(args: Seq<ValueV>, k: int) -> ValueV {
    if 0 <= k < args.len() {
        args[k]
    } else {
        ValueV::Null
    }
}

/// The first value from `k` on that is not null.
pub open spec fn first_present(args: Seq<ValueV>, k: int) -> ValueV
    decreases args.len() - k,
{
    if k < 0 || k >= args.len() {
        ValueV::Null
    } else if args[k] != ValueV::Null {
        args[k]
    } else {
        first_present(args, k + 1)
    }
}

/// The part of a text from the position `start`, counted from one, or from the end where it is
/// not above zero.
pub open spec fn substring(s: Seq<char>, start: int, count: Option<int>) -> Seq<char> {
    let n = s.len() as int;
    let from = if start > 0 {
        start - 1
    } else if n + start > 0 {
        n + start
    } else {
        0
    };
    let len = match count {
        Some(c) => if c > 0 {
            c
        } else {
            0
        },
        None => if n > from {
            n - from
        } else {
            0
        },
    };
    let end = if from + len < n {
        from + len
    } else {
        n
    };
    if from >= n {
        Seq::empty()
    } else {
        s.subrange(from, end)
    }
}

/// The keys among arguments that come in pairs.
pub open spec fn pair_keys(args: Seq<ValueV>) -> Seq<Seq<char>> {
    Seq::new(args.len() / 2, |i: int| display_text(args[2 * i]))
}

/// The values among arguments that come in pairs.
pub open spec fn pair_values(args: Seq<ValueV>) -> Seq<ValueV> {
    Seq::new(args.len() / 2, |i: int| args[2 * i + 1])
}

/// A text value, or null where there was an error.
pub open spec fn text_or_null(r: Result<Seq<char>, ErrorV>) -> ValueV {
    match r {
        Ok(t) => ValueV::Text(t),
        Err(_) => ValueV::Null,
    }
}

pub open spec fn kind_name(v: ValueV) -> Seq<char> {
    match v {
        ValueV::Null => "null"@,
        ValueV::Integer(_) => "integer"@,
        ValueV::Real(_) => "real"@,
        ValueV::Text(_) => "text"@,
        ValueV::Blob(_) => "blob"@,
    }
}

/// What a function on a text gives; a value of another kind stays.
pub open spec fn on_text(v: ValueV, t: Seq<char>) -> ValueV {
    match v {
        ValueV::Text(_) => ValueV::Text(t),
        _ => v,
    }
}

pub open spec fn text_of(v: ValueV) -> Seq<char> {
    match v {
        ValueV::Text(s) => s,
        _ => Seq::empty(),
    }
}

/// What a call of a scalar function gives; `name` is in lower case.
pub open spec fn function_value(name: Seq<char>, args: Seq<ValueV>) -> ValueV {
    let a = argument(args, 0);
    let b = argument(args, 1);
    let c = argument(args, 2);
    if name == "json_extract"@ {
        match a {
            ValueV::Text(s) => match json::extracted(
                s,
                match b {
                    ValueV::Text(p) => p,
                    _ => "$"@,
                },
            ) {
                Ok(v) => v,
                Err(_) => ValueV::Null,
            },
            _ => ValueV::Null,
        }
    } else if name == "json_array"@ {
        text_or_null(Ok::<Seq<char>, ErrorV>(json::array_text(json::value_texts(args))))
    } else if name == "json_object"@ {
        text_or_null(json::object_of(pair_keys(args), pair_values(args)))
    } else if name == "json_set"@ {
        match (a, b) {
            (ValueV::Text(s), ValueV::Text(p)) => text_or_null(json::with_value(s, p, c)),
            _ => ValueV::Null,
        }
    } else if name == "upper"@ {
        on_text(a, text::uppercase(text_of(a)))
    } else if name == "lower"@ {
        on_text(a, text::lowercase(text_of(a)))
    } else if name == "length"@ || name == "len"@ {
        match a {
            ValueV::Text(s) => ValueV::Integer(s.len() as i64),
            ValueV::Blob(s) => ValueV::Integer(s.len() as i64),
            _ => ValueV::Null,
        }
    } else if name == "abs"@ {
        match a {
            ValueV::Integer(i) => ValueV::Integer(
                if i < 0 {
                    negated_int(i)
                } else {
                    i
                },
            ),
            ValueV::Real(x) => ValueV::Real(double::magnitude(x)),
            _ => ValueV::Null,
        }
    } else if name == "round"@ {
        let places = match b {
            ValueV::Integer(i) => i as i32,
            _ => 0,
        };
        match as_real(a) {
            Some(x) => ValueV::Real(double::round_places(x, places as int)),
            None => ValueV::Null,
        }
    } else if name == "coalesce"@ {
        first_present(args, 0)
    } else if name == "ifnull"@ {
        if a == ValueV::Null {
            b
        } else {
            a
        }
    } else if name == "nullif"@ {
        if schema::same_value(a, b) {
            ValueV::Null
        } else {
            a
        }
    } else if name == "trim"@ {
        on_text(a, text::trimmed(text_of(a)))
    } else if name == "ltrim"@ {
        on_text(a, text::trimmed_start(text_of(a)))
    } else if name == "rtrim"@ {
        on_text(a, text::trimmed_end(text_of(a)))
    } else if name == "substr"@ || name == "substring"@ {
        match a {
            ValueV::Text(s) => ValueV::Text(
                substring(
                    s,
                    match b {
                        ValueV::Integer(i) => i as int,
                        _ => 1,
                    },
                    match c {
                        ValueV::Integer(i) => Some(i as int),
                        _ => None,
                    },
                ),
            ),
            _ => ValueV::Null,
        }
    } else if name == "replace"@ {
        match (a, b, c) {
            (ValueV::Text(s), ValueV::Text(f), ValueV::Text(t)) => ValueV::Text(text::replaced(s, f, t)),
            _ => ValueV::Null,
        }
    } else if name == "typeof"@ {
        ValueV::Text(kind_name(a))
    } else if name == "hex"@ {
        match a {
            ValueV::Blob(s) => ValueV::Text(codec::hex_text(s)),
            ValueV::Text(s) => ValueV::Text(codec::hex_text(encode_utf8(s))),
            _ => ValueV::Null,
        }
    } else {
        ValueV::Null
    }
}

/// How many items the list of an expression has, and one more.
pub open spec fn width(e: ExprV) -> nat {
    match e {
        ExprV::InList { expr, list, negated } => list.len() + 1,
        ExprV::Case { operand, conditions, results, else_result } => conditions.len() + 1,
        ExprV::Function { name, distinct, args } => args.len() + 1,
        _ => 0,
    }
}

/// What an expression evaluates to against a row and parameters, and the index of the
/// parameter that comes next. Placeholders take parameters from left to right.
pub open spec fn eval_v(e: ExprV, row: Option<RowV>, ps: Seq<ValueV>, i: int) -> (ValueV, int)
    decreases e, width(e) + 1,
{
    match e {
        ExprV::Identifier(n) => (column_value(row, n), i),
        ExprV::CompoundIdentifier(parts) => (compound_value(row, parts), i),
        ExprV::Value(l) => literal_value(l, ps, i),
        ExprV::Nested(x) => eval_v(*x, row, ps, i),
        ExprV::UnaryOp { op, expr } => {
            let (v, j) = eval_v(*expr, row, ps, i);
            (unary_value(op, v), j)
        },
        ExprV::BinaryOp { left, op, right } => {
            let (l, j) = eval_v(*left, row, ps, i);
            let (r, k) = eval_v(*right, row, ps, j);
            match op {
                BinaryOp::And => (bool_value(is_true(l) && is_true(r)), k),
                BinaryOp::Or => (bool_value(is_true(l) || is_true(r)), k),
                _ => (binary_value(op, l, r), k),
            }
        },
        ExprV::IsNull(x) => {
            let (v, j) = eval_v(*x, row, ps, i);
            (bool_value(v == ValueV::Null), j)
        },
        ExprV::IsNotNull(x) => {
            let (v, j) = eval_v(*x, row, ps, i);
            (bool_value(v != ValueV::Null), j)
        },
        ExprV::Between { expr, negated, low, high } => {
            let (v, j) = eval_v(*expr, row, ps, i);
            let (lo, k) = eval_v(*low, row, ps, j);
            let (hi, m) = eval_v(*high, row, ps, k);
            let inside = schema::value_order(v, lo) >= 0 && schema::value_order(v, hi) <= 0;
            (bool_value(inside != negated), m)
        },
        ExprV::InList { expr, list, negated } => {
            let (v, j) = eval_v(*expr, row, ps, i);
            (bool_value(found_from(e, v, 0, row, ps, j) != negated), count_sum(i, placeholders(e)))
        },
        ExprV::Like { negated, expr, pattern, any_case } => {
            let (v, j) = eval_v(*expr, row, ps, i);
            let (p, k) = eval_v(*pattern, row, ps, j);
            (bool_value(like_values(v, p, any_case) != negated), k)
        },
        ExprV::Case { operand, conditions, results, else_result } => {
            let (o, j) = match operand {
                Some(x) => {
                    let (v, k) = eval_v(*x, row, ps, i);
                    (Some(v), k)
                },
                None => (None, i),
            };
            (case_from(e, o, 0, row, ps, j), count_sum(i, placeholders(e)))
        },
        ExprV::Function { name, distinct, args } => {
            let (vs, j) = args_upto(e, args.len() as int, row, ps, i);
            (function_value(text::lowercase(name), vs), j)
        },
        ExprV::Other => (ValueV::Null, i),
    }
}

/// Whether one of the items of an `IN` list from `k` on equals `v`.
pub open spec fn found_from(e: ExprV, v: ValueV, k: int, row: Option<RowV>, ps: Seq<ValueV>, i: int) -> bool
    decreases e, width(e) - k,
{
    match e {
        ExprV::InList { expr, list, negated } => if k < 0 || k >= list.len() {
            false
        } else {
            let (w, j) = eval_v(list[k], row, ps, i);
            schema::same_value(w, v) || found_from(e, v, k + 1, row, ps, j)
        },
        _ => false,
    }
}

/// What the branches of a `CASE` from `k` on give: the result of the first whose condition
/// equals the operand, or holds where there is no operand; else that of `ELSE`. The placeholders
/// of a branch that is passed over keep their parameters.
pub open spec fn case_from(e: ExprV, o: Option<ValueV>, k: int, row: Option<RowV>, ps: Seq<ValueV>, i: int) -> ValueV
    decreases e, width(e) - k,
{
    match e {
        ExprV::Case { operand, conditions, results, else_result } => if k < 0 || k >= conditions.len()
            || k >= results.len() {
            match else_result {
                Some(x) => eval_v(*x, row, ps, i).0,
                None => ValueV::Null,
            }
        } else {
            let (c, m) = eval_v(conditions[k], row, ps, i);
            let hit = match o {
                Some(v) => schema::same_value(v, c),
                None => is_true(c),
            };
            if hit {
                eval_v(results[k], row, ps, m).0
            } else {
                case_from(e, o, k + 1, row, ps, count_sum(m, placeholders(results[k])))
            }
        },
        _ => ValueV::Null,
    }
}

/// What the first `n` arguments of a call evaluate to.
pub open spec fn args_upto(e: ExprV, n: int, row: Option<RowV>, ps: Seq<ValueV>, i: int) -> (Seq<ValueV>, int)
    decreases e, n,
{
    match e {
        ExprV::Function { name, distinct, args } => if n <= 0 || n > args.len() {
            (Seq::empty(), i)
        } else {
            let (vs, j) = args_upto(e, n - 1, row, ps, i);
            match args[n - 1] {
                FunctionArgV::Unnamed(x) => {
                    let (v, k) = eval_v(x, row, ps, j);
                    (vs.push(v), k)
                },
                FunctionArgV::Named(x) => {
                    let (v, k) = eval_v(x, row, ps, j);
                    (vs.push(v), k)
                },
                _ => (vs.push(ValueV::Null), j),
            }
        },
        _ => (Seq::empty(), i),
    }
}

proof fn lemma_placeholders(e: ExprV)
    ensures
        0 <= placeholders(e) <= usize::MAX,
    decreases e,
{
    match e {
        ExprV::UnaryOp { op, expr } => lemma_placeholders(*expr),
        ExprV::Nested(x) => lemma_placeholders(*x),
        ExprV::BinaryOp { left, op, right } => {
            lemma_placeholders(*left);
            lemma_placeholders(*right);
        },
        ExprV::IsNull(x) => lemma_placeholders(*x),
        ExprV::IsNotNull(x) => lemma_placeholders(*x),
        ExprV::Between { expr, negated, low, high } => {
            lemma_placeholders(*expr);
            lemma_placeholders(*low);
            lemma_placeholders(*high);
        },
        ExprV::InList { expr, list, negated } => {
            lemma_placeholders(*expr);
            lemma_list_placeholders(list, list.len() as int);
        },
        ExprV::Like { negated, expr, pattern, any_case } => {
            lemma_placeholders(*expr);
            lemma_placeholders(*pattern);
        },
        ExprV::Case { operand, conditions, results, else_result } => {
            match operand {
                Some(x) => lemma_placeholders(*x),
                None => {},
            }
            lemma_list_placeholders(conditions, conditions.len() as int);
            lemma_list_placeholders(results, results.len() as int);
            match else_result {
                Some(x) => lemma_placeholders(*x),
                None => {},
            }
        },
        ExprV::Function { name, distinct, args } => lemma_arg_placeholders(args, args.len() as int),
        _ => {},
    }
}

/// A count of placeholders is one that an index can hold.
pub proof fn lemma_list_placeholders(list: Seq<ExprV>, n: int)
    ensures
        0 <= list_placeholders(list, n) <= usize::MAX,
    decreases list, n,
{
    if n > 0 && n <= list.len() {
        lemma_list_placeholders(list, n - 1);
        lemma_placeholders(list[n - 1]);
    }
}

pub(crate) proof fn lemma_arg_placeholders(args: Seq<FunctionArgV>, n: int)
    ensures
        0 <= arg_placeholders(args, n) <= usize::MAX,
    decreases args, n,
{
    if n > 0 && n <= args.len() {
        lemma_arg_placeholders(args, n - 1);
        match args[n - 1] {
            FunctionArgV::Unnamed(e) => lemma_placeholders(e),
            FunctionArgV::Named(e) => lemma_placeholders(e),
            _ => {},
        }
    }
}

/// Evaluation takes exactly as many parameters as the expression holds placeholders, whatever
/// the row and the parameters are.
pub proof fn lemma_eval_counts(e: ExprV, row: Option<RowV>, ps: Seq<ValueV>, i: int)
    requires
        0 <= i <= usize::MAX,
    ensures
        eval_v(e, row, ps, i).1 == count_sum(i, placeholders(e)),
        i + placeholders(e) <= usize::MAX ==> eval_v(e, row, ps, i).1 == i + placeholders(e),
        0 <= placeholders(e) <= usize::MAX,
    decreases e,
{
    lemma_placeholders(e);
    match e {
        ExprV::Nested(x) => lemma_eval_counts(*x, row, ps, i),
        ExprV::UnaryOp { op, expr } => lemma_eval_counts(*expr, row, ps, i),
        ExprV::BinaryOp { left, op, right } => {
            lemma_eval_counts(*left, row, ps, i);
            lemma_eval_counts(*right, row, ps, eval_v(*left, row, ps, i).1);
        },
        ExprV::IsNull(x) => lemma_eval_counts(*x, row, ps, i),
        ExprV::IsNotNull(x) => lemma_eval_counts(*x, row, ps, i),
        ExprV::Between { expr, negated, low, high } => {
            let j = eval_v(*expr, row, ps, i).1;
            lemma_eval_counts(*expr, row, ps, i);
            lemma_eval_counts(*low, row, ps, j);
            lemma_eval_counts(*high, row, ps, eval_v(*low, row, ps, j).1);
        },
        ExprV::Like { negated, expr, pattern, any_case } => {
            lemma_eval_counts(*expr, row, ps, i);
            lemma_eval_counts(*pattern, row, ps, eval_v(*expr, row, ps, i).1);
        },
        ExprV::Function { name, distinct, args } => lemma_args_count(e, args, args.len() as int, row, ps, i),
        _ => {},
    }
}

proof fn lemma_args_count(e: ExprV, args: Seq<FunctionArgV>, n: int, row: Option<RowV>, ps: Seq<ValueV>, i: int)
    requires
        e is Function,
        args == e->args,
        0 <= n <= args.len(),
        0 <= i <= usize::MAX,
    ensures
        args_upto(e, n, row, ps, i).1 == count_sum(i, arg_placeholders(args, n)),
    decreases args, n,
{
    if n > 0 {
        lemma_args_count(e, args, n - 1, row, ps, i);
        lemma_arg_placeholders(args, n - 1);
        let j = args_upto(e, n - 1, row, ps, i).1;
        match args[n - 1] {
            FunctionArgV::Unnamed(x) => lemma_eval_counts(x, row, ps, j),
            FunctionArgV::Named(x) => lemma_eval_counts(x, row, ps, j),
            _ => {},
        }
    }
}

fn lookup_column(ctx: &EvalCtx, name: &str) -> (r: Value)
    ensures
        r@ == column_value(ctx.row_view(), name@),
{
    match ctx.row {
        Some(row) => match row::row_get(row, name) {
            Some(v) => v.clone(),
            None => Value::Null,
        },
        None => Value::Null,
    }
}

fn lookup_compound(ctx: &EvalCtx, parts: &Vec<String>) -> (r: Value)
    ensures
        r@ == compound_value(ctx.row_view(), parts.deep_view()),
{
    let full = text::join(parts, ".");
    match ctx.row {
        Some(row) => match row::row_get(row, full.as_str()) {
            Some(v) => {
                return v.clone();
            },
            None => {},
        },
        None => {},
    }
    if parts.len() == 0 {
        Value::Null
    } else {
        assert(parts.deep_view().last() == parts@[parts@.len() - 1]@);
        lookup_column(ctx, parts[parts.len() - 1].as_str())
    }
}

fn eval_literal(l: &Literal, params: &[Value], param_idx: &mut usize) -> (r: Value)
    ensures
        (r@, *final(param_idx) as int) == literal_value(l@, params.deep_view(), *old(param_idx) as int),
{
    match l {
        Literal::Number(n) => match json::read_number(n.as_str()) {
            Some(v) => v,
            None => Value::Null,
        },
        Literal::SingleQuoted(s) => Value::Text(s.clone()),
        Literal::DoubleQuoted(s) => Value::Text(s.clone()),
        Literal::Boolean(b) => bool_val(*b),
        Literal::Null => Value::Null,
        Literal::Placeholder => {
            let i: usize = *param_idx;
            if i < usize::MAX {
                *param_idx = i + 1;
            }
            if i < params.len() {
                params[i].clone()
            } else {
                Value::Null
            }
        },
        Literal::Other => Value::Null,
    }
}

fn negate_int(i: i64) -> (r: i64)
    ensures
        r == negated_int(i),
{
    if i == i64::MIN {
        i
    } else {
        -i
    }
}

pub(crate) fn apply_unary(op: UnaryOp, v: Value) -> (r: Value)
    ensures
        r@ == unary_value(op, v@),
{
    match op {
        UnaryOp::Minus => match v {
            Value::Integer(i) => Value::Integer(negate_int(i)),
            Value::Real(x) => Value::Real(x.negate()),
            other => other,
        },
        UnaryOp::Not => bool_val(!truthy(&v)),
        _ => v,
    }
}

pub fn to_real(v: &Value) -> (r: Option<Real>)
    ensures
        match r {
            Some(x) => as_real(v@) == Some(x.bits),
            None => as_real(v@) is None,
        },
{
    match v {
        Value::Integer(i) => Some(Real::from_int(*i)),
        Value::Real(x) => Some(*x),
        _ => None,
    }
}

fn numeric_result(x: Real, prefer_int: bool) -> (r: Value)
    ensures
        r@ == numeric_value(x.bits, prefer_int),
{
    if prefer_int && x.whole() && x.size() < TWO_63 {
        Value::Integer(x.saturate())
    } else {
        Value::Real(x)
    }
}

fn remainder(a: i64, b: i64) -> (r: i64)
    requires
        b != 0,
    ensures
        r == int_remainder(a, b),
{
    let x: u64 = double::int_size(a);
    let y: u64 = double::int_size(b);
    let m: u64 = x % y;
    if a < 0 {
        if m == 0x8000_0000_0000_0000 {
            // No remainder is as large as the largest divisor.
            proof {
                assert(m < y && y <= 0x8000_0000_0000_0000);
            }
            0
        } else {
            -(m as i64)
        }
    } else {
        m as i64
    }
}

proof fn lemma_int_zero(i: i64)
    ensures
        double::is_zero(double::int_real(i as int)) == (i == 0),
{
    double::lemma_int_real_zero(i);
}

fn arithmetic(l: &Value, op: BinaryOp, r: &Value) -> (v: Value)
    ensures
        v@ == arithmetic_value(l@, op, r@),
{
    let both_int: bool = match (l, r) {
        (Value::Integer(_), Value::Integer(_)) => true,
        _ => false,
    };
    match (to_real(l), to_real(r)) {
        (Some(a), Some(b)) => match op {
            BinaryOp::Plus => numeric_result(a.plus(b), both_int),
            BinaryOp::Minus => numeric_result(a.minus(b), both_int),
            BinaryOp::Multiply => numeric_result(a.times(b), both_int),
            BinaryOp::Divide => if b.zero() {
                Value::Null
            } else {
                Value::Real(a.divided(b))
            },
            BinaryOp::Modulo => if b.zero() {
                Value::Null
            } else {
                match (l, r) {
                    (Value::Integer(i), Value::Integer(j)) => {
                        proof {
                            lemma_int_zero(*j);
                        }
                        Value::Integer(remainder(*i, *j))
                    },
                    _ => Value::Real(a.remainder(b)),
                }
            },
            _ => Value::Null,
        },
        _ => Value::Null,
    }
}

fn to_display_string(v: &Value) -> (r: String)
    ensures
        r@ == display_text(v@),
{
    match v {
        Value::Null => String::new(),
        Value::Integer(i) => text::int_to_text(*i),
        Value::Real(x) => decimal::real_to_text(*x),
        Value::Text(s) => s.clone(),
        Value::Blob(b) => {
            let h = codec::hex_encode(b);
            text::text3("x'", h.as_str(), "'")
        },
    }
}

/// What an operator makes of two values.
pub fn apply_binary(op: BinaryOp, l: &Value, r: &Value) -> (v: Value)
    ensures
        v@ == binary_value(op, l@, r@),
{
    match op {
        BinaryOp::Eq => bool_val(l.same(r)),
        BinaryOp::NotEq => bool_val(!l.same(r)),
        BinaryOp::Gt => bool_val(l.order(r) > 0),
        BinaryOp::Lt => bool_val(l.order(r) < 0),
        BinaryOp::GtEq => bool_val(l.order(r) >= 0),
        BinaryOp::LtEq => bool_val(l.order(r) <= 0),
        BinaryOp::StringConcat => {
            let a = to_display_string(l);
            let b = to_display_string(r);
            Value::Text(text::text2(a.as_str(), b.as_str()))
        },
        _ => arithmetic(l, op, r),
    }
}

fn apply_like(v: &Value, p: &Value, any_case: bool) -> (r: bool)
    ensures
        r == like_values(v@, p@, any_case),
{
    match (v, p) {
        (Value::Text(s), Value::Text(t)) => sql_like_match(s.as_str(), t.as_str(), any_case),
        _ => false,
    }
}

fn arg_at(args: &Vec<Value>, k: usize) -> (r: Value)
    ensures
        r@ == argument(args.deep_view(), k as int),
{
    if k < args.len() {
        args[k].clone()
    } else {
        Value::Null
    }
}

fn coalesce(args: &Vec<Value>) -> (r: Value)
    ensures
        r@ == first_present(args.deep_view(), 0),
{
    let ghost av = args.deep_view();
    let mut k: usize = 0;
    while k < args.len()
        invariant
            k <= args@.len(),
            av == args.deep_view(),
            first_present(av, k as int) == first_present(av, 0),
        decreases args@.len() - k,
    {
        assert(av[k as int] == args@[k as int]@);
        if !args[k].is_null() {
            return args[k].clone();
        }
        k = k + 1;
    }
    Value::Null
}

fn take_substring(s: &str, start: i64, count: Option<i64>) -> (r: String)
    ensures
        r@ == substring(
            s@,
            start as int,
            match count {
                Some(c) => Some(c as int),
                None => None,
            },
        ),
{
    let cs = text::chars_of(s);
    let n: u128 = cs.len() as u128;
    let from: u128 = if start > 0 {
        (start - 1) as u128
    } else {
        let back: u128 = double::int_size(start) as u128;
        if n > back {
            n - back
        } else {
            0
        }
    };
    if from >= n {
        return String::new();
    }
    let len: u128 = match count {
        Some(c) => if c > 0 {
            c as u128
        } else {
            0
        },
        None => n - from,
    };
    let end: u128 = if from + len < n {
        from + len
    } else {
        n
    };
    text::slice_text(&cs, from as usize, end as usize)
}

fn call_json_object(args: &Vec<Value>) -> (r: Value)
    ensures
        r@ == text_or_null(json::object_of(pair_keys(args.deep_view()), pair_values(args.deep_view()))),
{
    let ghost av = args.deep_view();
    let mut keys: Vec<String> = Vec::new();
    let mut vals: Vec<Value> = Vec::new();
    let total: usize = args.len();
    let n: usize = total / 2;
    let mut i: usize = 0;
    while i < n
        invariant
            i <= n,
            n == total / 2,
            total == args@.len(),
            av == args.deep_view(),
            keys@.len() == i,
            vals@.len() == i,
            forall|j: int| 0 <= j < i ==> (#[trigger] keys@[j])@ == display_text(av[2 * j]),
            forall|j: int| 0 <= j < i ==> (#[trigger] vals@[j])@ == av[2 * j + 1],
        decreases n - i,
    {
        keys.push(to_display_string(&args[2 * i]));
        vals.push(args[2 * i + 1].clone());
        i = i + 1;
    }
    assert(keys.deep_view() =~= pair_keys(av));
    assert(vals.deep_view() =~= pair_values(av));
    match json::json_object(&keys, &vals) {
        Ok(t) => Value::Text(t),
        Err(_) => Value::Null,
    }
}

fn text_result(r: Result<String, SkvsError>) -> (v: Value)
    ensures
        v@ == text_or_null(error::outcome(r)),
{
    match r {
        Ok(t) => Value::Text(t),
        Err(_) => Value::Null,
    }
}

/// What a call of a scalar function gives; `name` is in lower case.
pub fn call_function(name: &str, args: &Vec<Value>) -> (r: Value)
    ensures
        r@ == function_value(name@, args.deep_view()),
{
    let a = arg_at(args, 0);
    let b = arg_at(args, 1);
    let c = arg_at(args, 2);
    if text::text_eq(name, "json_extract") {
        match a {
            Value::Text(s) => {
                let path = match b {
                    Value::Text(p) => p,
                    _ => "$".to_owned(),
                };
                match json::json_extract(s.as_str(), path.as_str()) {
                    Ok(v) => v,
                    Err(_) => Value::Null,
                }
            },
            _ => Value::Null,
        }
    } else if text::text_eq(name, "json_array") {
        text_result(json::json_array(args))
    } else if text::text_eq(name, "json_object") {
        call_json_object(args)
    } else if text::text_eq(name, "json_set") {
        match (a, b) {
            (Value::Text(s), Value::Text(p)) => text_result(json::json_set(s.as_str(), p.as_str(), &c)),
            _ => Value::Null,
        }
    } else if text::text_eq(name, "upper") {
        match a {
            Value::Text(s) => Value::Text(text::to_upper(s.as_str())),
            other => other,
        }
    } else if text::text_eq(name, "lower") {
        match a {
            Value::Text(s) => Value::Text(text::to_lower(s.as_str())),
            other => other,
        }
    } else if text::text_eq(name, "length") || text::text_eq(name, "len") {
        match a {
            Value::Text(s) => {
                let cs = text::chars_of(s.as_str());
                Value::Integer(cs.len() as i64)
            },
            Value::Blob(s) => Value::Integer(s.len() as i64),
            _ => Value::Null,
        }
    } else if text::text_eq(name, "abs") {
        match a {
            Value::Integer(i) => Value::Integer(
                if i < 0 {
                    negate_int(i)
                } else {
                    i
                },
            ),
            Value::Real(x) => Value::Real(x.absolute()),
            _ => Value::Null,
        }
    } else if text::text_eq(name, "round") {
        let places: i32 = match b {
            Value::Integer(i) => #[verifier::truncate] (i as i32),
            _ => 0,
        };
        match to_real(&a) {
            Some(x) => Value::Real(x.round_to(places)),
            None => Value::Null,
        }
    } else if text::text_eq(name, "coalesce") {
        coalesce(args)
    } else if text::text_eq(name, "ifnull") {
        if a.is_null() {
            b
        } else {
            a
        }
    } else if text::text_eq(name, "nullif") {
        if a.same(&b) {
            Value::Null
        } else {
            a
        }
    } else if text::text_eq(name, "trim") {
        match a {
            Value::Text(s) => Value::Text(text::trim(s.as_str())),
            other => other,
        }
    } else if text::text_eq(name, "ltrim") {
        match a {
            Value::Text(s) => Value::Text(text::trim_start(s.as_str())),
            other => other,
        }
    } else if text::text_eq(name, "rtrim") {
        match a {
            Value::Text(s) => Value::Text(text::trim_end(s.as_str())),
            other => other,
        }
    } else if text::text_eq(name, "substr") || text::text_eq(name, "substring") {
        match a {
            Value::Text(s) => {
                let start: i64 = match b {
                    Value::Integer(i) => i,
                    _ => 1,
                };
                let count: Option<i64> = match c {
                    Value::Integer(i) => Some(i),
                    _ => None,
                };
                Value::Text(take_substring(s.as_str(), start, count))
            },
            _ => Value::Null,
        }
    } else if text::text_eq(name, "replace") {
        match (a, b, c) {
            (Value::Text(s), Value::Text(f), Value::Text(t)) => Value::Text(
                text::replace_text(s.as_str(), f.as_str(), t.as_str()),
            ),
            _ => Value::Null,
        }
    } else if text::text_eq(name, "typeof") {
        Value::Text(
            match a {
                Value::Null => "null".to_owned(),
                Value::Integer(_) => "integer".to_owned(),
                Value::Real(_) => "real".to_owned(),
                Value::Text(_) => "text".to_owned(),
                Value::Blob(_) => "blob".to_owned(),
            },
        )
    } else if text::text_eq(name, "hex") {
        match a {
            Value::Blob(s) => Value::Text(codec::hex_encode(&s)),
            Value::Text(s) => {
                let bytes = codec::text_bytes(s.as_str());
                Value::Text(codec::hex_encode(&bytes))
            },
            _ => Value::Null,
        }
    } else {
        Value::Null
    }
}

/// Evaluates a scalar expression against the row and the parameters; `param_idx` is the index
/// of the parameter that the next placeholder takes.
pub fn eval(expr: &Expr, ctx: &EvalCtx, params: &[Value], param_idx: &mut usize) -> (r: Value)
    ensures
        (r@, *final(param_idx) as int) == eval_v(
            expr@,
            ctx.row_view(),
            params.deep_view(),
            *old(param_idx) as int,
        ),
        *final(param_idx) == count_sum(*old(param_idx) as int, placeholders(expr@)),
    decreases expr, 1int,
{
    proof {
        lemma_eval_counts(expr@, ctx.row_view(), params.deep_view(), *param_idx as int);
    }
    match expr {
        Expr::Identifier(n) => lookup_column(ctx, n.as_str()),
        Expr::CompoundIdentifier(parts) => lookup_compound(ctx, parts),
        Expr::Value(l) => eval_literal(l, params, param_idx),
        Expr::Nested(x) => eval(x, ctx, params, param_idx),
        Expr::UnaryOp { op, expr } => {
            let v = eval(expr, ctx, params, param_idx);
            apply_unary(*op, v)
        },
        Expr::BinaryOp { left, op, right } => {
            let l = eval(left, ctx, params, param_idx);
            match op {
                BinaryOp::And => {
                    let r = eval(right, ctx, params, param_idx);
                    bool_val(truthy(&l) && truthy(&r))
                },
                BinaryOp::Or => {
                    let r = eval(right, ctx, params, param_idx);
                    bool_val(truthy(&l) || truthy(&r))
                },
                _ => {
                    let r = eval(right, ctx, params, param_idx);
                    apply_binary(*op, &l, &r)
                },
            }
        },
        Expr::IsNull(x) => {
            let v = eval(x, ctx, params, param_idx);
            bool_val(v.is_null())
        },
        Expr::IsNotNull(x) => {
            let v = eval(x, ctx, params, param_idx);
            bool_val(!v.is_null())
        },
        Expr::Between { expr, negated, low, high } => {
            let v = eval(expr, ctx, params, param_idx);
            let lo = eval(low, ctx, params, param_idx);
            let hi = eval(high, ctx, params, param_idx);
            let inside: bool = v.order(&lo) >= 0 && v.order(&hi) <= 0;
            bool_val(inside != *negated)
        },
        Expr::InList { expr: inner, list, negated } => {
            let after: usize = saturating(*param_idx, count_placeholders(expr));
            let v = eval(inner, ctx, params, param_idx);
            let found = eval_in_list(expr, &v, ctx, params, param_idx);
            *param_idx = after;
            bool_val(found != *negated)
        },
        Expr::Like { negated, expr, pattern, any_case } => {
            let v = eval(expr, ctx, params, param_idx);
            let p = eval(pattern, ctx, params, param_idx);
            bool_val(apply_like(&v, &p, *any_case) != *negated)
        },
        Expr::Case { operand, conditions, results, else_result } => {
            let after: usize = saturating(*param_idx, count_placeholders(expr));
            let o = match operand {
                Some(x) => Some(eval(x, ctx, params, param_idx)),
                None => None,
            };
            let v = eval_case(expr, &o, ctx, params, param_idx);
            *param_idx = after;
            v
        },
        Expr::Function { name, distinct, args } => eval_function(expr, ctx, params, param_idx),
        Expr::Other => Value::Null,
    }
}

fn eval_in_list(e: &Expr, v: &Value, ctx: &EvalCtx, params: &[Value], param_idx: &mut usize) -> (r: bool)
    ensures
        r == found_from(e@, v@, 0, ctx.row_view(), params.deep_view(), *old(param_idx) as int),
    decreases e, 0int,
{
    match e {
        Expr::InList { expr, list, negated } => {
            let ghost start = *param_idx as int;
            let ghost lv = ast::exprs_view(list@);
            let mut k: usize = 0;
            while k < list.len()
                invariant
                    k <= list@.len(),
                    start == *old(param_idx) as int,
                    lv == ast::exprs_view(list@),
                    e@ matches ExprV::InList { list: l, .. } && l == lv,
                    found_from(e@, v@, k as int, ctx.row_view(), params.deep_view(), *param_idx as int)
                        == found_from(e@, v@, 0, ctx.row_view(), params.deep_view(), start),
                    forall|i: int| 0 <= i < list@.len() ==> decreases_to!(e => #[trigger] list@[i]),
                decreases list@.len() - k,
            {
                assert(lv[k as int] == ast::expr_view(list@[k as int]));
                assert(decreases_to!(e => list@[k as int]));
                let w = eval(&list[k], ctx, params, param_idx);
                if w.same(v) {
                    return true;
                }
                k = k + 1;
            }
            false
        },
        _ => false,
    }
}

fn eval_case(e: &Expr, operand: &Option<Value>, ctx: &EvalCtx, params: &[Value], param_idx: &mut usize) -> (r: Value)
    ensures
        r@ == case_from(
            e@,
            operand.deep_view(),
            0,
            ctx.row_view(),
            params.deep_view(),
            *old(param_idx) as int,
        ),
    decreases e, 0int,
{
    match e {
        Expr::Case { operand: _, conditions, results, else_result } => {
            let ghost start = *param_idx as int;
            let ghost ov = operand.deep_view();
            let ghost cv = ast::exprs_view(conditions@);
            let ghost rv = ast::exprs_view(results@);
            let mut k: usize = 0;
            while k < conditions.len() && k < results.len()
                invariant
                    k <= conditions@.len(),
                    k <= results@.len(),
                    start == *old(param_idx) as int,
                    ov == operand.deep_view(),
                    cv == ast::exprs_view(conditions@),
                    rv == ast::exprs_view(results@),
                    e@ matches ExprV::Case { conditions: c, results: s, .. } && c == cv && s == rv,
                    case_from(e@, ov, k as int, ctx.row_view(), params.deep_view(), *param_idx as int)
                        == case_from(e@, ov, 0, ctx.row_view(), params.deep_view(), start),
                    forall|i: int| 0 <= i < conditions@.len() ==> decreases_to!(e => #[trigger] conditions@[i]),
                    forall|i: int| 0 <= i < results@.len() ==> decreases_to!(e => #[trigger] results@[i]),
                decreases conditions@.len() - k,
            {
                assert(cv[k as int] == ast::expr_view(conditions@[k as int]));
                assert(rv[k as int] == ast::expr_view(results@[k as int]));
                assert(decreases_to!(e => conditions@[k as int]));
                assert(decreases_to!(e => results@[k as int]));
                let c = eval(&conditions[k], ctx, params, param_idx);
                let holds: bool = match operand {
                    Some(o) => o.same(&c),
                    None => truthy(&c),
                };
                if holds {
                    return eval(&results[k], ctx, params, param_idx);
                }
                *param_idx = saturating(*param_idx, count_placeholders(&results[k]));
                k = k + 1;
            }
            match else_result {
                Some(x) => eval(x, ctx, params, param_idx),
                None => Value::Null,
            }
        },
        _ => Value::Null,
    }
}

fn eval_function(e: &Expr, ctx: &EvalCtx, params: &[Value], param_idx: &mut usize) -> (r: Value)
    ensures
        e@ is Function ==> (r@, *final(param_idx) as int) == eval_v(
            e@,
            ctx.row_view(),
            params.deep_view(),
            *old(param_idx) as int,
        ),
    decreases e, 0int,
{
    match e {
        Expr::Function { name, distinct, args } => {
            let ghost start = *param_idx as int;
            let ghost av = ast::args_view(args@);
            let mut vals: Vec<Value> = Vec::new();
            let mut k: usize = 0;
            assert(vals.deep_view() =~= Seq::empty());
            while k < args.len()
                invariant
                    k <= args@.len(),
                    av == ast::args_view(args@),
                    e@ matches ExprV::Function { args: a, .. } && a == av,
                    (vals.deep_view(), *param_idx as int) == args_upto(
                        e@,
                        k as int,
                        ctx.row_view(),
                        params.deep_view(),
                        start,
                    ),
                    forall|i: int| 0 <= i < args@.len() ==> decreases_to!(e => #[trigger] args@[i]),
                decreases args@.len() - k,
            {
                assert(av[k as int] == ast::arg_view(args@[k as int]));
                assert(decreases_to!(e => args@[k as int]));
                let ghost before = vals.deep_view();
                let v = match &args[k] {
                    FunctionArg::Unnamed(x) => eval(x, ctx, params, param_idx),
                    FunctionArg::Named(x) => eval(x, ctx, params, param_idx),
                    _ => Value::Null,
                };
                let ghost vv = v@;
                vals.push(v);
                assert(vals.deep_view() =~= before.push(vv));
                k = k + 1;
            }
            let lower = text::to_lower(name.as_str());
            call_function(lower.as_str(), &vals)
        },
        _ => Value::Null,
    }
}

} // verus!

//! What operators come to: comparisons, logic, ranges, lists, choices and patterns, each stated by
//! what its value has to satisfy, whatever the operands are.
use vstd::prelude::*;

use crate::assoc;
use crate::ast::{BinaryOp, ExprV, LiteralV, UnaryOp};
use crate::catalog::CatalogV;
use crate::double;
use crate::expr;
use crate::fts::FtsTableV;
use crate::json;
use crate::row::RowV;
use crate::schema;
use crate::schema::ValueV;
use crate::sql::select;
use crate::text;

verus! {

/// The value of `l op r`.
pub open spec fn applied(op: BinaryOp, l: ExprV, r: ExprV, row: Option<RowV>, ps: Seq<ValueV>, i: int) -> ValueV {
    expr::eval_v(ExprV::BinaryOp { left: Box::new(l), op, right: Box::new(r) }, row, ps, i).0
}

/// The value of the left operand.
pub open spec fn first_operand(l: ExprV, row: Option<RowV>, ps: Seq<ValueV>, i: int) -> ValueV {
    expr::eval_v(l, row, ps, i).0
}

/// The value of the right operand, which reads the parameters behind those of the left one.
pub open spec fn second_operand(l: ExprV, r: ExprV, row: Option<RowV>, ps: Seq<ValueV>, i: int) -> ValueV {
    expr::eval_v(r, row, ps, expr::eval_v(l, row, ps, i).1).0
}

/// Whether a value is one or zero.
pub open spec fn is_bit(v: ValueV) -> bool {
    v == ValueV::Integer(1) || v == ValueV::Integer(0)
}

/// Whether one list of numbers begins another that is longer, or has the smaller number where the
/// two first differ.
pub open spec fn comes_first(a: Seq<int>, b: Seq<int>) -> bool {
    exists|k: int|
        0 <= k <= a.len() && k <= b.len() && #[trigger] a.take(k) == b.take(k) && k < b.len() && (k == a.len() || a[k] < b[k])
}

/// The characters of a text as numbers.
pub open spec fn char_numbers(s: Seq<char>) -> Seq<int> {
    Seq::new(s.len(), |i: int| s[i] as int)
}

/// Bytes as numbers.
pub open spec fn byte_numbers(s: Seq<u8>) -> Seq<int> {
    Seq::new(s.len(), |i: int| s[i] as int)
}

/// Whether a double is a number.
pub open spec fn is_number(b: u64) -> bool {
    b % 0x8000_0000_0000_0000 <= 0x7ff0_0000_0000_0000
}

/// Whether one value is smaller than another: null before numbers, numbers before texts, texts
/// before blobs; numbers by size, the others by what stands where they first differ. A double that
/// is not a number comes behind all numbers.
#[verifier::opaque]
pub open spec fn smaller(a: ValueV, b: ValueV) -> bool {
    match (a, b) {
        (ValueV::Null, _) => b != ValueV::Null,
        (_, ValueV::Null) => false,
        (ValueV::Integer(x), ValueV::Integer(y)) => x < y,
        (ValueV::Integer(x), ValueV::Real(y)) => !is_number(y) || x * double::one() < double::exact(y),
        (ValueV::Real(x), ValueV::Integer(y)) => is_number(x) && double::exact(x) < y * double::one(),
        (ValueV::Real(x), ValueV::Real(y)) => is_number(x) && (!is_number(y) || double::exact(x) < double::exact(y)),
        (ValueV::Integer(_), _) => true,
        (ValueV::Real(_), _) => true,
        (ValueV::Text(s), ValueV::Text(t)) => comes_first(char_numbers(s), char_numbers(t)),
        (ValueV::Text(_), ValueV::Blob(_)) => true,
        (ValueV::Blob(s), ValueV::Blob(t)) => comes_first(byte_numbers(s), byte_numbers(t)),
        _ => false,
    }
}

/// Whether two values are equal: of one kind, and the same there. A double that is not a number
/// equals nothing, and both zeros are equal.
#[verifier::opaque]
pub open spec fn alike(a: ValueV, b: ValueV) -> bool {
    match (a, b) {
        (ValueV::Real(x), ValueV::Real(y)) => is_number(x) && is_number(y) && double::exact(x) == double::exact(y),
        _ => a == b,
    }
}

proof fn lemma_items_first(a: Seq<int>, b: Seq<int>, i: int)
    requires
        0 <= i <= a.len(),
        i <= b.len(),
        a.take(i) == b.take(i),
    ensures
        (text::item_order(a, b, i) < 0) == comes_first(a, b),
    decreases a.len() - i,
{
    if i < a.len() && i < b.len() && a[i] == b[i] {
        assert(a.take(i + 1) =~= a.take(i).push(a[i]));
        assert(b.take(i + 1) =~= b.take(i).push(b[i]));
        lemma_items_first(a, b, i + 1);
        assert(text::item_order(a, b, i) == text::item_order(a, b, i + 1));
    } else {
        if text::item_order(a, b, i) < 0 {
            assert(a.take(i) == b.take(i) && i < b.len() && (i == a.len() || a[i] < b[i]));
            assert(comes_first(a, b));
        }
        if comes_first(a, b) {
            let k = choose|k: int|
                0 <= k <= a.len() && k <= b.len() && #[trigger] a.take(k) == b.take(k) && k < b.len() && (k == a.len() || a[k]
                    < b[k]);
            if k < i {
                assert(a.take(i)[k] == a[k] && b.take(i)[k] == b[k]);
                assert(false);
            } else if k > i {
                assert(a.take(k)[i] == a[i] && b.take(k)[i] == b[i]);
                assert(false);
            }
            assert(text::item_order(a, b, i) < 0);
        }
    }
}

pub(crate) proof fn lemma_number(b: u64)
    ensures
        is_number(b) == !double::is_nan(b),
{
    assert(b % 0x8000_0000_0000_0000 == (if b >= 0x8000_0000_0000_0000u64 {
        (b - 0x8000_0000_0000_0000) as u64
    } else {
        b
    })) by (bit_vector);
}

proof fn lemma_exact_inside(b: u64)
    requires
        is_number(b),
    ensures
        -(double::units(double::INFINITE as nat) as int) <= double::exact(b) <= double::units(double::INFINITE as nat),
{
    lemma_number(b);
    let m = double::magnitude(b) as nat;
    if m < double::INFINITE as nat {
        double::lemma_units_increase(m, double::INFINITE as nat);
    }
}

proof fn lemma_int_inside(x: i64)
    ensures
        -(double::units(double::INFINITE as nat) as int) < x * double::one() < double::units(double::INFINITE as nat),
{
    let w = double::one() as int;
    vstd::arithmetic::power2::lemma_pow2_pos(1074);
    vstd::arithmetic::power2::lemma2_to64();
    vstd::arithmetic::power2::lemma2_to64_rest();
    assert(0x7ff0_0000_0000_0000nat / 0x10_0000_0000_0000nat == 2047);
    assert(0x7ff0_0000_0000_0000nat % 0x10_0000_0000_0000nat == 0);
    vstd::arithmetic::power2::lemma_pow2_adds(52, 2046);
    vstd::arithmetic::power2::lemma_pow2_adds(1024, 1074);
    vstd::arithmetic::power2::lemma_pow2_strictly_increases(64, 1024);
    let top = vstd::arithmetic::power2::pow2(1024) as int;
    assert(double::units(double::INFINITE as nat) == top * w);
    assert(-(top * w) < x * w < top * w) by (nonlinear_arith)
        requires
            w > 0,
            -top < x < top,
    ;
}

pub(crate) proof fn lemma_smaller(a: ValueV, b: ValueV)
    ensures
        (schema::value_order(a, b) < 0) == smaller(a, b),
        (schema::value_order(a, b) > 0) == smaller(b, a),
        schema::same_value(a, b) == alike(a, b),
{
    reveal(alike);
    schema::lemma_order_reverse(a, b);
    lemma_one_way(a, b);
    lemma_one_way(b, a);
    match (a, b) {
        (ValueV::Real(x), ValueV::Real(y)) => {
            lemma_number(x);
            lemma_number(y);
        },
        _ => {},
    }
}

proof fn lemma_one_way(a: ValueV, b: ValueV)
    ensures
        (schema::value_order(a, b) < 0) == smaller(a, b),
{
    reveal(smaller);
    match (a, b) {
        (ValueV::Integer(x), ValueV::Integer(y)) => double::lemma_int_position_order(x as int, y as int),
        (ValueV::Integer(x), ValueV::Real(y)) => {
            lemma_number(y);
            lemma_int_inside(x);
        },
        (ValueV::Real(x), ValueV::Integer(y)) => {
            lemma_number(x);
            lemma_int_inside(y);
        },
        (ValueV::Real(x), ValueV::Real(y)) => {
            lemma_number(x);
            lemma_number(y);
            if is_number(x) {
                lemma_exact_inside(x);
            }
            if is_number(y) {
                lemma_exact_inside(y);
            }
        },
        (ValueV::Text(s), ValueV::Text(t)) => {
            assert(text::codes(s) =~= char_numbers(s) && text::codes(t) =~= char_numbers(t));
            assert(char_numbers(s).take(0) =~= char_numbers(t).take(0));
            lemma_items_first(char_numbers(s), char_numbers(t), 0);
        },
        (ValueV::Blob(s), ValueV::Blob(t)) => {
            assert(text::byte_values(s) =~= byte_numbers(s) && text::byte_values(t) =~= byte_numbers(t));
            assert(byte_numbers(s).take(0) =~= byte_numbers(t).take(0));
            lemma_items_first(byte_numbers(s), byte_numbers(t), 0);
        },
        _ => {},
    }
}

/// The six comparisons give one or zero, and fit each other and the sizes of the operands: exactly
/// one of `<`, `>` and "neither" holds; `>=` is the opposite of `<`, `<=` of `>`, `<>` of `=`; equal
/// values are neither smaller nor larger; and integers compare as numbers.
pub proof fn lemma_comparisons(l: ExprV, r: ExprV, row: Option<RowV>, ps: Seq<ValueV>, i: int)
    ensures
        ({
            let a = first_operand(l, row, ps, i);
            let b = second_operand(l, r, row, ps, i);
            let yes = ValueV::Integer(1);
            let lt = applied(BinaryOp::Lt, l, r, row, ps, i);
            let gt = applied(BinaryOp::Gt, l, r, row, ps, i);
            let le = applied(BinaryOp::LtEq, l, r, row, ps, i);
            let ge = applied(BinaryOp::GtEq, l, r, row, ps, i);
            let eq = applied(BinaryOp::Eq, l, r, row, ps, i);
            let ne = applied(BinaryOp::NotEq, l, r, row, ps, i);
            &&& is_bit(lt) && is_bit(gt) && is_bit(le) && is_bit(ge) && is_bit(eq) && is_bit(ne)
            &&& (lt == yes) == smaller(a, b)
            &&& (gt == yes) == smaller(b, a)
            &&& (ge == yes) == (lt != yes)
            &&& (le == yes) == (gt != yes)
            &&& (ne == yes) == (eq != yes)
            &&& (eq == yes) == alike(a, b)
            &&& !(lt == yes && gt == yes)
            &&& eq == yes ==> le == yes && ge == yes
            &&& match (a, b) {
                (ValueV::Integer(x), ValueV::Integer(y)) => {
                    &&& (lt == yes) == (x < y)
                    &&& (gt == yes) == (x > y)
                    &&& (le == yes) == (x <= y)
                    &&& (ge == yes) == (x >= y)
                    &&& (eq == yes) == (x == y)
                    &&& (ne == yes) == (x != y)
                },
                _ => true,
            }
        }),
{
    let a = first_operand(l, row, ps, i);
    let b = second_operand(l, r, row, ps, i);
    lemma_compared(a, b);
    lemma_applied(BinaryOp::Lt, l, r, row, ps, i);
    lemma_applied(BinaryOp::Gt, l, r, row, ps, i);
    lemma_applied(BinaryOp::LtEq, l, r, row, ps, i);
    lemma_applied(BinaryOp::GtEq, l, r, row, ps, i);
    lemma_applied(BinaryOp::Eq, l, r, row, ps, i);
    lemma_applied(BinaryOp::NotEq, l, r, row, ps, i);
}

proof fn lemma_applied(op: BinaryOp, l: ExprV, r: ExprV, row: Option<RowV>, ps: Seq<ValueV>, i: int)
    requires
        op != BinaryOp::And,
        op != BinaryOp::Or,
    ensures
        applied(op, l, r, row, ps, i) == expr::binary_value(
            op,
            first_operand(l, row, ps, i),
            second_operand(l, r, row, ps, i),
        ),
{
}

pub(crate) proof fn lemma_compared(a: ValueV, b: ValueV)
    ensures
        ({
            let yes = ValueV::Integer(1);
            let lt = expr::binary_value(BinaryOp::Lt, a, b);
            let gt = expr::binary_value(BinaryOp::Gt, a, b);
            let le = expr::binary_value(BinaryOp::LtEq, a, b);
            let ge = expr::binary_value(BinaryOp::GtEq, a, b);
            let eq = expr::binary_value(BinaryOp::Eq, a, b);
            let ne = expr::binary_value(BinaryOp::NotEq, a, b);
            &&& is_bit(lt) && is_bit(gt) && is_bit(le) && is_bit(ge) && is_bit(eq) && is_bit(ne)
            &&& (lt == yes) == smaller(a, b)
            &&& (gt == yes) == smaller(b, a)
            &&& (ge == yes) == (lt != yes)
            &&& (le == yes) == (gt != yes)
            &&& (ne == yes) == (eq != yes)
            &&& (eq == yes) == alike(a, b)
            &&& !(lt == yes && gt == yes)
            &&& eq == yes ==> le == yes && ge == yes
            &&& match (a, b) {
                (ValueV::Integer(x), ValueV::Integer(y)) => {
                    &&& smaller(a, b) == (x < y)
                    &&& smaller(b, a) == (y < x)
                    &&& alike(a, b) == (x == y)
                },
                _ => true,
            }
        }),
{
    lemma_smaller(a, b);
    if schema::same_value(a, b) {
        schema::lemma_same_is_level(a, b);
    }
    reveal(smaller);
    reveal(alike);
}

/// A comparison the other way round says the same of the operands the other way round, and a value
/// compared with itself is neither smaller nor larger.
pub proof fn lemma_turned_round(l: ExprV, r: ExprV, row: Option<RowV>, ps: Seq<ValueV>, i: int)
    requires
        0 <= i <= usize::MAX,
        expr::placeholders(l) == 0,
        expr::placeholders(r) == 0,
    ensures
        applied(BinaryOp::GtEq, l, r, row, ps, i) == applied(BinaryOp::LtEq, r, l, row, ps, i),
        applied(BinaryOp::Gt, l, r, row, ps, i) == applied(BinaryOp::Lt, r, l, row, ps, i),
        applied(BinaryOp::Eq, l, r, row, ps, i) == applied(BinaryOp::Eq, r, l, row, ps, i),
        applied(BinaryOp::NotEq, l, r, row, ps, i) == applied(BinaryOp::NotEq, r, l, row, ps, i),
        applied(BinaryOp::GtEq, l, l, row, ps, i) == ValueV::Integer(1),
        applied(BinaryOp::LtEq, l, l, row, ps, i) == ValueV::Integer(1),
        applied(BinaryOp::Gt, l, l, row, ps, i) == ValueV::Integer(0),
        applied(BinaryOp::Lt, l, l, row, ps, i) == ValueV::Integer(0),
{
    expr::lemma_eval_counts(l, row, ps, i);
    expr::lemma_eval_counts(r, row, ps, i);
    let a = first_operand(l, row, ps, i);
    let b = first_operand(r, row, ps, i);
    schema::lemma_order_reverse(a, b);
    schema::lemma_order_reflexive(a);
}

/// The comparisons order all values in one line: what is at most something that is at most a third
/// is at most that third.
pub proof fn lemma_in_one_line(a: ValueV, b: ValueV, c: ValueV)
    ensures
        expr::binary_value(BinaryOp::LtEq, a, b) == ValueV::Integer(1) && expr::binary_value(BinaryOp::LtEq, b, c)
            == ValueV::Integer(1) ==> expr::binary_value(BinaryOp::LtEq, a, c) == ValueV::Integer(1),
        expr::binary_value(BinaryOp::LtEq, a, b) == ValueV::Integer(1) || expr::binary_value(BinaryOp::LtEq, b, a)
            == ValueV::Integer(1),
{
    schema::lemma_order_reverse(a, b);
    if schema::value_order(a, b) <= 0 && schema::value_order(b, c) <= 0 {
        schema::lemma_order_transitive(a, b, c);
    }
}

/// Whether a value counts as true: a number other than zero, and what is not empty.
pub open spec fn counts(v: ValueV) -> bool {
    match v {
        ValueV::Null => false,
        ValueV::Integer(x) => x != 0,
        ValueV::Real(b) => b % 0x8000_0000_0000_0000 != 0,
        ValueV::Text(s) => s != Seq::<char>::empty(),
        ValueV::Blob(s) => s != Seq::<u8>::empty(),
    }
}

pub(crate) proof fn lemma_counts(v: ValueV)
    ensures
        expr::is_true(v) == counts(v),
{
    match v {
        ValueV::Real(b) => {
            assert(b % 0x8000_0000_0000_0000 == (if b >= 0x8000_0000_0000_0000u64 {
                (b - 0x8000_0000_0000_0000) as u64
            } else {
                b
            })) by (bit_vector);
        },
        ValueV::Text(s) => assert(s.len() == 0 ==> s =~= Seq::empty()),
        ValueV::Blob(s) => assert(s.len() == 0 ==> s =~= Seq::empty()),
        _ => {},
    }
}

/// `AND`, `OR` and `NOT` give one or zero by whether their operands count as true, and `IS NULL`
/// and `IS NOT NULL` by whether their operand is null. Brackets change nothing.
pub proof fn lemma_logic(l: ExprV, r: ExprV, row: Option<RowV>, ps: Seq<ValueV>, i: int)
    ensures
        ({
            let a = first_operand(l, row, ps, i);
            let b = second_operand(l, r, row, ps, i);
            let yes = ValueV::Integer(1);
            let both = applied(BinaryOp::And, l, r, row, ps, i);
            let one = applied(BinaryOp::Or, l, r, row, ps, i);
            let not = expr::eval_v(ExprV::UnaryOp { op: UnaryOp::Not, expr: Box::new(l) }, row, ps, i).0;
            let null = expr::eval_v(ExprV::IsNull(Box::new(l)), row, ps, i).0;
            let set = expr::eval_v(ExprV::IsNotNull(Box::new(l)), row, ps, i).0;
            &&& is_bit(both) && is_bit(one) && is_bit(not) && is_bit(null) && is_bit(set)
            &&& (both == yes) == (counts(a) && counts(b))
            &&& (one == yes) == (counts(a) || counts(b))
            &&& (not == yes) == !counts(a)
            &&& (null == yes) == (a == ValueV::Null)
            &&& (set == yes) == (a != ValueV::Null)
            &&& expr::eval_v(ExprV::Nested(Box::new(l)), row, ps, i) == expr::eval_v(l, row, ps, i)
        }),
{
    lemma_counts(first_operand(l, row, ps, i));
    lemma_counts(second_operand(l, r, row, ps, i));
}

proof fn lemma_range_value(x: ExprV, low: ExprV, high: ExprV, negated: bool, row: Option<RowV>, ps: Seq<ValueV>, i: int)
    ensures
        ({
            let (v, j) = expr::eval_v(x, row, ps, i);
            let (lo, k) = expr::eval_v(low, row, ps, j);
            let hi = expr::eval_v(high, row, ps, k).0;
            expr::eval_v(
                ExprV::Between { expr: Box::new(x), negated, low: Box::new(low), high: Box::new(high) },
                row,
                ps,
                i,
            ).0 == expr::bool_value((schema::value_order(v, lo) >= 0 && schema::value_order(v, hi) <= 0) != negated)
        }),
{
}

/// `x BETWEEN low AND high` is one where `x` is neither smaller than `low` nor larger than `high`:
/// both bounds belong to the range. `NOT BETWEEN` is the opposite.
#[verifier::rlimit(60)]
#[verifier::spinoff_prover]
pub proof fn lemma_between(x: ExprV, low: ExprV, high: ExprV, row: Option<RowV>, ps: Seq<ValueV>, i: int)
    ensures
        ({
            let (v, j) = expr::eval_v(x, row, ps, i);
            let (lo, k) = expr::eval_v(low, row, ps, j);
            let hi = expr::eval_v(high, row, ps, k).0;
            let yes = ValueV::Integer(1);
            let inside = expr::eval_v(
                ExprV::Between { expr: Box::new(x), negated: false, low: Box::new(low), high: Box::new(high) },
                row,
                ps,
                i,
            ).0;
            let outside = expr::eval_v(
                ExprV::Between { expr: Box::new(x), negated: true, low: Box::new(low), high: Box::new(high) },
                row,
                ps,
                i,
            ).0;
            &&& is_bit(inside) && is_bit(outside) && inside != outside
            &&& (inside == yes) == (!smaller(v, lo) && !smaller(hi, v))
            &&& match (v, lo, hi) {
                (ValueV::Integer(a), ValueV::Integer(b), ValueV::Integer(c)) => (inside == yes) == (b <= a && a <= c),
                _ => true,
            }
        }),
{
    let (v, j) = expr::eval_v(x, row, ps, i);
    let (lo, k) = expr::eval_v(low, row, ps, j);
    let hi = expr::eval_v(high, row, ps, k).0;
    lemma_range_value(x, low, high, false, row, ps, i);
    lemma_range_value(x, low, high, true, row, ps, i);
    lemma_smaller(v, lo);
    lemma_smaller(v, hi);
    lemma_compared(v, lo);
    lemma_compared(v, hi);
}

/// Where the parameters of the item at `k` of a list start, the list starting at `i`.
pub open spec fn item_start(list: Seq<ExprV>, row: Option<RowV>, ps: Seq<ValueV>, i: int, k: int) -> int
    decreases k,
{
    if k <= 0 {
        i
    } else {
        expr::eval_v(list[k - 1], row, ps, item_start(list, row, ps, i, k - 1)).1
    }
}

proof fn lemma_found(e: ExprV, list: Seq<ExprV>, v: ValueV, k: int, row: Option<RowV>, ps: Seq<ValueV>, i: int)
    requires
        e matches ExprV::InList { expr, list: li, negated } && li == list,
        0 <= k <= list.len(),
    ensures
        expr::found_from(e, v, k, row, ps, item_start(list, row, ps, i, k)) == exists|m: int|
            k <= m < list.len() && alike(expr::eval_v(#[trigger] list[m], row, ps, item_start(list, row, ps, i, m)).0, v),
    decreases list.len() - k,
{
    if k < list.len() {
        lemma_found(e, list, v, k + 1, row, ps, i);
        let w = expr::eval_v(list[k], row, ps, item_start(list, row, ps, i, k)).0;
        lemma_smaller(w, v);
        if expr::found_from(e, v, k, row, ps, item_start(list, row, ps, i, k)) && !alike(w, v) {
            let m = choose|m: int|
                k + 1 <= m < list.len() && alike(
                    expr::eval_v(#[trigger] list[m], row, ps, item_start(list, row, ps, i, m)).0,
                    v,
                );
            assert(k <= m < list.len());
        }
        if alike(w, v) {
            assert(alike(expr::eval_v(list[k], row, ps, item_start(list, row, ps, i, k)).0, v));
        }
    }
}

/// `x IN (...)` is one where `x` equals some item of the list, wherever it stands, and zero where
/// it equals none; `NOT IN` is the opposite.
pub proof fn lemma_in_list(x: ExprV, list: Seq<ExprV>, row: Option<RowV>, ps: Seq<ValueV>, i: int)
    ensures
        ({
            let (v, j) = expr::eval_v(x, row, ps, i);
            let yes = ValueV::Integer(1);
            let inside = expr::eval_v(ExprV::InList { expr: Box::new(x), list, negated: false }, row, ps, i).0;
            let outside = expr::eval_v(ExprV::InList { expr: Box::new(x), list, negated: true }, row, ps, i).0;
            &&& is_bit(inside) && is_bit(outside) && inside != outside
            &&& (inside == yes) == exists|m: int|
                0 <= m < list.len() && alike(
                    expr::eval_v(#[trigger] list[m], row, ps, item_start(list, row, ps, j, m)).0,
                    v,
                )
        }),
{
    let (v, j) = expr::eval_v(x, row, ps, i);
    lemma_found(ExprV::InList { expr: Box::new(x), list, negated: false }, list, v, 0, row, ps, j);
    lemma_found(ExprV::InList { expr: Box::new(x), list, negated: true }, list, v, 0, row, ps, j);
}

/// The value of the operand of a choice, where it has one.
pub open spec fn operand_value(operand: Option<Box<ExprV>>, row: Option<RowV>, ps: Seq<ValueV>, i: int) -> Option<ValueV> {
    match operand {
        Some(x) => Some(expr::eval_v(*x, row, ps, i).0),
        None => None,
    }
}

/// Where the parameters of the first branch of a choice start.
pub open spec fn operand_end(operand: Option<Box<ExprV>>, row: Option<RowV>, ps: Seq<ValueV>, i: int) -> int {
    match operand {
        Some(x) => expr::eval_v(*x, row, ps, i).1,
        None => i,
    }
}

/// Where the parameters of the branch at `k` of a choice start, the first branch starting at `i`:
/// behind those of the conditions and results before it, taken or not.
pub open spec fn branch_start(conditions: Seq<ExprV>, results: Seq<ExprV>, i: int, k: int) -> int
    decreases k,
{
    if k <= 0 {
        i
    } else {
        expr::count_sum(
            expr::count_sum(branch_start(conditions, results, i, k - 1), expr::placeholders(conditions[k - 1])),
            expr::placeholders(results[k - 1]),
        )
    }
}

/// Whether the branch at `k` of a choice is one to take: its condition equals the operand, or
/// counts as true where there is none.
pub open spec fn branch_fits(o: Option<ValueV>, conditions: Seq<ExprV>, results: Seq<ExprV>, row: Option<RowV>, ps: Seq<ValueV>, i: int, k: int) -> bool {
    let c = expr::eval_v(conditions[k], row, ps, branch_start(conditions, results, i, k)).0;
    match o {
        Some(v) => alike(v, c),
        None => counts(c),
    }
}

proof fn lemma_branch_range(conditions: Seq<ExprV>, results: Seq<ExprV>, i: int, k: int)
    requires
        0 <= i <= usize::MAX,
        0 <= k <= conditions.len(),
        conditions.len() == results.len(),
    ensures
        0 <= branch_start(conditions, results, i, k) <= usize::MAX,
    decreases k,
{
    if k > 0 {
        lemma_branch_range(conditions, results, i, k - 1);
        expr::lemma_eval_counts(conditions[k - 1], None, Seq::empty(), 0);
        expr::lemma_eval_counts(results[k - 1], None, Seq::empty(), 0);
    }
}

proof fn lemma_branch(e: ExprV, conditions: Seq<ExprV>, results: Seq<ExprV>, o: Option<ValueV>, row: Option<RowV>, ps: Seq<ValueV>, i: int, k: int, m: int)
    requires
        e matches ExprV::Case { operand, conditions: c, results: r, else_result } && c == conditions && r == results,
        conditions.len() == results.len(),
        0 <= i <= usize::MAX,
        0 <= k <= m <= conditions.len(),
        forall|q: int| k <= q < m ==> !#[trigger] branch_fits(o, conditions, results, row, ps, i, q),
        m < conditions.len() ==> branch_fits(o, conditions, results, row, ps, i, m),
    ensures
        expr::case_from(e, o, k, row, ps, branch_start(conditions, results, i, k)) == expr::case_from(
            e,
            o,
            m,
            row,
            ps,
            branch_start(conditions, results, i, m),
        ),
    decreases m - k,
{
    if k < m {
        lemma_branch_range(conditions, results, i, k);
        let j = branch_start(conditions, results, i, k);
        let c = expr::eval_v(conditions[k], row, ps, j).0;
        expr::lemma_eval_counts(conditions[k], row, ps, j);
        assert(!branch_fits(o, conditions, results, row, ps, i, k));
        lemma_counts(c);
        match o {
            Some(v) => lemma_smaller(v, c),
            None => {},
        }
        lemma_branch(e, conditions, results, o, row, ps, i, k + 1, m);
    }
}

/// A `CASE` takes the first branch that fits, and no other: its value is the result of that branch;
/// where no branch fits, it is that of `ELSE`, or null without one.
#[verifier::rlimit(60)]
#[verifier::spinoff_prover]
pub proof fn lemma_case(
    operand: Option<Box<ExprV>>,
    conditions: Seq<ExprV>,
    results: Seq<ExprV>,
    else_result: Option<Box<ExprV>>,
    row: Option<RowV>,
    ps: Seq<ValueV>,
    i: int,
    k: int,
)
    requires
        conditions.len() == results.len(),
        0 <= i <= usize::MAX,
        0 <= k <= conditions.len(),
        ({
            let o = operand_value(operand, row, ps, i);
            let j = operand_end(operand, row, ps, i);
            &&& forall|q: int| 0 <= q < k ==> !#[trigger] branch_fits(o, conditions, results, row, ps, j, q)
            &&& k < conditions.len() ==> branch_fits(o, conditions, results, row, ps, j, k)
        }),
    ensures
        ({
            let j = operand_end(operand, row, ps, i);
            let at = branch_start(conditions, results, j, k);
            expr::eval_v(ExprV::Case { operand, conditions, results, else_result }, row, ps, i).0 == (if k
                < conditions.len() {
                expr::eval_v(results[k], row, ps, expr::count_sum(at, expr::placeholders(conditions[k]))).0
            } else {
                match else_result {
                    Some(x) => expr::eval_v(*x, row, ps, at).0,
                    None => ValueV::Null,
                }
            })
        }),
{
    let e = ExprV::Case { operand, conditions, results, else_result };
    lemma_case_start(operand, conditions, results, else_result, row, ps, i);
    let o = operand_value(operand, row, ps, i);
    let j = operand_end(operand, row, ps, i);
    match operand {
        Some(x) => expr::lemma_eval_counts(*x, row, ps, i),
        None => {},
    }
    lemma_branch(e, conditions, results, o, row, ps, j, 0, k);
    if k < conditions.len() {
        lemma_branch_range(conditions, results, j, k);
        let at = branch_start(conditions, results, j, k);
        let c = expr::eval_v(conditions[k], row, ps, at).0;
        expr::lemma_eval_counts(conditions[k], row, ps, at);
        lemma_counts(c);
        match o {
            Some(v) => lemma_smaller(v, c),
            None => {},
        }
    }
}

proof fn lemma_case_start(
    operand: Option<Box<ExprV>>,
    conditions: Seq<ExprV>,
    results: Seq<ExprV>,
    else_result: Option<Box<ExprV>>,
    row: Option<RowV>,
    ps: Seq<ValueV>,
    i: int,
)
    ensures
        ({
            let e = ExprV::Case { operand, conditions, results, else_result };
            expr::eval_v(e, row, ps, i).0 == expr::case_from(
                e,
                operand_value(operand, row, ps, i),
                0,
                row,
                ps,
                operand_end(operand, row, ps, i),
            )
        }),
{
}

proof fn lemma_like_first(t: Seq<char>, p: Seq<char>, q: Seq<char>, k: int)
    requires
        0 <= k <= t.len(),
        expr::like(t.take(k), p),
        expr::like(t.skip(k), q),
    ensures
        expr::like(t, p + q),
    decreases p.len(), k,
{
    let pq = p + q;
    if p.len() == 0 {
        assert(pq =~= q);
        assert(t.skip(k) =~= t);
    } else {
        assert(pq.drop_first() =~= p.drop_first() + q);
        assert(pq[0] == p[0]);
        if p[0] == '%' && expr::like(t.take(k), p.drop_first()) {
            lemma_like_first(t, p.drop_first(), q, k);
        } else {
            let d = t.drop_first();
            assert(d.take(k - 1) =~= t.take(k).drop_first());
            assert(d.skip(k - 1) =~= t.skip(k));
            assert(t.take(k)[0] == t[0]);
            if p[0] == '%' {
                lemma_like_first(d, p, q, k - 1);
            } else {
                lemma_like_first(d, p.drop_first(), q, k - 1);
            }
        }
    }
}

proof fn lemma_like_cut(t: Seq<char>, p: Seq<char>, q: Seq<char>) -> (k: int)
    requires
        expr::like(t, p + q),
    ensures
        0 <= k <= t.len(),
        expr::like(t.take(k), p),
        expr::like(t.skip(k), q),
    decreases p.len(), t.len(),
{
    let pq = p + q;
    if p.len() == 0 {
        assert(pq =~= q);
        assert(t.skip(0) =~= t);
        assert(t.take(0).len() == 0);
        0
    } else {
        assert(pq.drop_first() =~= p.drop_first() + q);
        assert(pq[0] == p[0]);
        if p[0] == '%' && expr::like(t, pq.drop_first()) {
            lemma_like_cut(t, p.drop_first(), q)
        } else {
            let d = t.drop_first();
            let k = if p[0] == '%' {
                lemma_like_cut(d, p, q)
            } else {
                lemma_like_cut(d, p.drop_first(), q)
            };
            assert(t.take(k + 1).drop_first() =~= d.take(k));
            assert(t.skip(k + 1) =~= d.skip(k));
            assert(t.take(k + 1)[0] == t[0]);
            k + 1
        }
    }
}

/// A pattern matches part by part: a text matches two patterns written one behind the other where
/// it can be cut such that each part matches its own. The empty pattern matches the empty text,
/// `%` every text, `_` every text of one character, and any other character itself.
pub proof fn lemma_like(t: Seq<char>, p: Seq<char>, q: Seq<char>, c: char)
    ensures
        expr::like(t, p + q) == exists|k: int|
            0 <= k <= t.len() && expr::like(#[trigger] t.take(k), p) && expr::like(t.skip(k), q),
        expr::like(t, Seq::empty()) == (t == Seq::<char>::empty()),
        expr::like(t, seq!['%']),
        expr::like(t, seq!['_']) == (t.len() == 1),
        c != '%' && c != '_' ==> expr::like(t, seq![c]) == (t == seq![c]),
{
    if expr::like(t, p + q) {
        let k = lemma_like_cut(t, p, q);
        assert(expr::like(t.take(k), p));
    }
    if exists|k: int| 0 <= k <= t.len() && expr::like(#[trigger] t.take(k), p) && expr::like(t.skip(k), q) {
        let k = choose|k: int| 0 <= k <= t.len() && expr::like(#[trigger] t.take(k), p) && expr::like(t.skip(k), q);
        lemma_like_first(t, p, q, k);
    }
    assert(t.len() == 0 ==> t =~= Seq::empty());
    let none = Seq::<char>::empty();
    let any = seq!['%'];
    assert(any.drop_first() =~= none);
    assert(t.skip(t.len() as int) =~= none);
    expr::lemma_like_percent(t, any, t.len() as int);
    reveal_with_fuel(expr::like, 3);
    let gap = seq!['_'];
    assert(gap.drop_first() =~= none);
    let own = seq![c];
    assert(own.drop_first() =~= none);
    assert(t.len() == 1 && t[0] == c ==> t =~= own);
    if t.len() > 0 {
        let d = t.drop_first();
        assert(expr::like(d, none) == (d.len() == 0));
        assert(expr::like(t, gap) == expr::like(d, none));
    }
}

/// `LIKE` matches texts with patterns and nothing else; `ILIKE` does so in lower case; with `NOT`
/// each is the opposite.
pub proof fn lemma_like_operator(x: ExprV, p: ExprV, any_case: bool, row: Option<RowV>, ps: Seq<ValueV>, i: int)
    ensures
        ({
            let v = first_operand(x, row, ps, i);
            let w = second_operand(x, p, row, ps, i);
            let yes = ValueV::Integer(1);
            let fits = expr::eval_v(
                ExprV::Like { negated: false, expr: Box::new(x), pattern: Box::new(p), any_case },
                row,
                ps,
                i,
            ).0;
            let not = expr::eval_v(
                ExprV::Like { negated: true, expr: Box::new(x), pattern: Box::new(p), any_case },
                row,
                ps,
                i,
            ).0;
            &&& is_bit(fits) && is_bit(not) && fits != not
            &&& (fits == yes) == (match (v, w) {
                (ValueV::Text(s), ValueV::Text(t)) => if any_case {
                    expr::like(text::lowercase(s), text::lowercase(t))
                } else {
                    expr::like(s, t)
                },
                _ => false,
            })
        }),
{
}

/// Whether an expression asks no full-text index.
pub open spec fn asks_no_index(e: ExprV) -> bool
    decreases e,
{
    match e {
        ExprV::BinaryOp { left, op: BinaryOp::And, right } => asks_no_index(*left) && asks_no_index(*right),
        ExprV::BinaryOp { left, op: BinaryOp::Or, right } => asks_no_index(*left) && asks_no_index(*right),
        ExprV::UnaryOp { op: UnaryOp::Not, expr } => asks_no_index(*expr),
        ExprV::Nested(x) => asks_no_index(*x),
        ExprV::Function { name, distinct, args } => text::lowercase(name) != "fts_match"@,
        _ => true,
    }
}

/// A condition holds of a row where its value there counts as true.
pub proof fn lemma_condition(fts: CatalogV<FtsTableV>, db: u32, row: RowV, e: ExprV, ps: Seq<ValueV>, i: int)
    requires
        asks_no_index(e),
    ensures
        select::holds(fts, db, row, e, ps, i).0 == counts(expr::eval_v(e, Some(row), ps, i).0),
        select::holds(fts, db, row, e, ps, i).1 == expr::eval_v(e, Some(row), ps, i).1,
    decreases e,
{
    lemma_counts(expr::eval_v(e, Some(row), ps, i).0);
    match e {
        ExprV::BinaryOp { left, op: BinaryOp::And, right } => {
            lemma_condition(fts, db, row, *left, ps, i);
            let j = expr::eval_v(*left, Some(row), ps, i).1;
            lemma_condition(fts, db, row, *right, ps, j);
            lemma_counts(expr::eval_v(*left, Some(row), ps, i).0);
            lemma_counts(expr::eval_v(*right, Some(row), ps, j).0);
        },
        ExprV::BinaryOp { left, op: BinaryOp::Or, right } => {
            lemma_condition(fts, db, row, *left, ps, i);
            let j = expr::eval_v(*left, Some(row), ps, i).1;
            lemma_condition(fts, db, row, *right, ps, j);
            lemma_counts(expr::eval_v(*left, Some(row), ps, i).0);
            lemma_counts(expr::eval_v(*right, Some(row), ps, j).0);
        },
        ExprV::UnaryOp { op: UnaryOp::Not, expr } => {
            lemma_condition(fts, db, row, *expr, ps, i);
            lemma_counts(expr::eval_v(*expr, Some(row), ps, i).0);
        },
        ExprV::Nested(x) => lemma_condition(fts, db, row, *x, ps, i),
        _ => {},
    }
}

/// What a name, a constant and a placeholder stand for: the cell under the name, or null; the
/// constant; the next parameter, or null where there is none, and the one behind it comes next.
pub proof fn lemma_leaves(name: Seq<char>, t: Seq<char>, b: bool, n: i64, row: RowV, ps: Seq<ValueV>, i: int)
    requires
        0 <= i < usize::MAX,
    ensures
        expr::eval_v(ExprV::Identifier(name), Some(row), ps, i).0 == (match assoc::assoc_get(row, name) {
            Some(v) => v,
            None => ValueV::Null,
        }),
        expr::eval_v(ExprV::Value(LiteralV::SingleQuoted(t)), Some(row), ps, i).0 == ValueV::Text(t),
        expr::eval_v(ExprV::Value(LiteralV::DoubleQuoted(t)), Some(row), ps, i).0 == ValueV::Text(t),
        expr::eval_v(ExprV::Value(LiteralV::Null), Some(row), ps, i).0 == ValueV::Null,
        expr::eval_v(ExprV::Value(LiteralV::Boolean(b)), Some(row), ps, i).0 == ValueV::Integer(
            if b {
                1
            } else {
                0
            },
        ),
        expr::eval_v(ExprV::Value(LiteralV::Number(text::int_text(n as int))), Some(row), ps, i).0 == ValueV::Integer(n),
        expr::eval_v(ExprV::Value(LiteralV::Placeholder), Some(row), ps, i) == (
            if i < ps.len() {
                ps[i]
            } else {
                ValueV::Null
            },
            i + 1,
        ),
{
    json::lemma_int_read(n);
}

/// A name behind the name of a table stands for the cell under both with a point between, or for
/// the cell under the name alone where there is none, or for null.
pub proof fn lemma_qualified_name(table: Seq<char>, name: Seq<char>, row: RowV, ps: Seq<ValueV>, i: int)
    ensures
        expr::eval_v(ExprV::CompoundIdentifier(seq![table, name]), Some(row), ps, i) == (
            match (assoc::assoc_get(row, table + "."@ + name), assoc::assoc_get(row, name)) {
                (Some(v), _) => v,
                (None, Some(v)) => v,
                (None, None) => ValueV::Null,
            },
            i,
        ),
{
    let parts = seq![table, name];
    reveal_with_fuel(text::joined, 3);
    assert(parts.drop_last() =~= seq![table]);
    assert(seq![table].drop_last() =~= Seq::empty());
    assert(parts.drop_first() =~= seq![name]);
    assert(text::joined(parts, "."@) =~= table + "."@ + name);
    assert(parts.last() == name);
}

} // verus!

//! What arithmetic answers: on integers that a double holds exactly, the operators and SUM are
//! those of the whole numbers.
use vstd::arithmetic::div_mod::{lemma_fundamental_div_mod, lemma_fundamental_div_mod_converse};
use vstd::arithmetic::power2::{lemma2_to64, lemma2_to64_rest, lemma_pow2_adds, lemma_pow2_pos, lemma_pow2_strictly_increases, lemma_pow2_unfold, pow2};
use vstd::prelude::*;

use crate::ast::{BinaryOp, ExprV, FunctionArgV, UnaryOp};
use crate::double;
use crate::double::Real;
use crate::expr;
use crate::operators;
use crate::row::RowV;
use crate::schema::ValueV;
use crate::sql::select;
use crate::text;

verus! {

/// Whether a double holds an integer, and all smaller ones, exactly.
pub open spec fn is_small(i: int) -> bool {
    -0x20_0000_0000_0000 < i < 0x20_0000_0000_0000
}

proof fn lemma_doubled(x: nat) -> (j: nat)
    requires
        0 < x < 0x20_0000_0000_0000,
    ensures
        0x10_0000_0000_0000 <= x * pow2(j) < 0x20_0000_0000_0000,
        j <= 52,
    decreases 0x20_0000_0000_0000 - x,
{
    lemma2_to64();
    lemma2_to64_rest();
    if x >= 0x10_0000_0000_0000 {
        assert(pow2(0) == 1);
        assert(x * 1 == x) by (nonlinear_arith);
        0
    } else {
        let k = lemma_doubled(2 * x);
        let j = k + 1;
        lemma_pow2_unfold(j);
        let p = pow2(k);
        assert(x * (2 * p) == (2 * x) * p) by (nonlinear_arith);
        if j > 52 {
            if j > 53 {
                lemma_pow2_strictly_increases(53, j);
            }
            lemma_pow2_adds(1, 52);
            assert(pow2(53) == 2 * pow2(52));
            let r = pow2(j);
            assert(x * r >= r) by (nonlinear_arith)
                requires
                    x >= 1,
                    r >= 0,
            ;
        }
        j
    }
}

proof fn lemma_nearest_itself(m: nat, q: nat)
    requires
        m < double::INFINITE,
        q > 0,
    ensures
        double::nearest(double::units(m) * q, q) == m,
{
    double::lemma_units_increase(m, m + 1);
    let u = double::units(m);
    let v = double::units(m + 1);
    assert(u * q < v * q && 2 * (u * q) < (u + v) * q) by (nonlinear_arith)
        requires
            u < v,
            q > 0,
    ;
    double::lemma_floor(u * q, q, m, double::INFINITE as nat);
}

proof fn lemma_whole(n: nat) -> (m: nat)
    requires
        n < 0x20_0000_0000_0000,
    ensures
        double::units(m) == n * double::one(),
        m < 0x43e0_0000_0000_0000,
        (m == 0) == (n == 0),
{
    lemma_pow2_pos(1074);
    if n == 0 {
        0
    } else {
        let j = lemma_doubled(n);
        let step = 0x10_0000_0000_0000int;
        let e = 1075 - j;
        let f = n * pow2(j) - step;
        let m = e * step + f;
        assert(m / step == e && m % step == f) by {
            lemma_fundamental_div_mod_converse(m, step, e, f);
        }
        assert(m < 0x43e0_0000_0000_0000) by (nonlinear_arith)
            requires
                m == e * step + f,
                e <= 1075,
                f < step,
                step == 0x10_0000_0000_0000int,
        ;
        assert(m > 0) by (nonlinear_arith)
            requires
                m == e * step + f,
                e >= 1,
                f >= 0,
                step == 0x10_0000_0000_0000int,
        ;
        let k = (1074 - j) as nat;
        lemma_pow2_adds(j, k);
        let p = pow2(j);
        let r = pow2(k);
        assert((n * p) * r == n * (p * r)) by (nonlinear_arith);
        assert((step + f) as nat == n * p);
        m as nat
    }
}

/// Whether a double is a given whole number.
pub open spec fn is_exactly(b: u64, i: int) -> bool {
    operators::is_number(b) && double::exact(b) == i * double::one()
}

proof fn lemma_sized(neg: bool, n: nat, m: nat)
    requires
        double::units(m) == n * double::one(),
        m < 0x43e0_0000_0000_0000,
    ensures
        ({
            let b = double::with_sign(neg, m as u64);
            let i = if neg {
                -(n as int)
            } else {
                n as int
            };
            &&& double::negative(b) == neg
            &&& double::magnitude(b) == m
            &&& double::is_finite(b)
            &&& !double::is_nan(b)
            &&& is_exactly(b, i)
        }),
{
    let b = double::with_sign(neg, m as u64);
    operators::lemma_number(b);
    let w = double::one() as int;
    assert(-(n as int) * w == -(n * w)) by (nonlinear_arith);
}

proof fn lemma_held(i: int)
    requires
        is_small(i),
    ensures
        ({
            let b = double::int_real(i);
            &&& double::negative(b) == (i < 0)
            &&& double::is_finite(b)
            &&& !double::is_nan(b)
            &&& is_exactly(b, i)
            &&& double::units(double::magnitude(b) as nat) == (if i < 0 {
                -i
            } else {
                i
            }) * double::one()
            &&& (double::magnitude(b) == 0) == (i == 0)
        }),
{
    let n = (if i < 0 {
        -i
    } else {
        i
    }) as nat;
    let m = lemma_whole(n);
    let w = double::one();
    lemma_pow2_pos(1074);
    lemma_nearest_itself(m, 1);
    assert(double::units(m) * 1 == double::units(m)) by (nonlinear_arith);
    lemma_sized(i < 0, n, m);
    assert(-((n as int) * w) == -(n as int) * w) by (nonlinear_arith);
    if i != 0 {
        assert(n * w > 0) by (nonlinear_arith)
            requires
                n > 0,
                w > 0,
        ;
    } else {
        assert(0 * w == 0) by (nonlinear_arith);
    }
}

proof fn lemma_read_back(b: u64, i: int)
    requires
        is_exactly(b, i),
        is_small(i),
        double::is_finite(b),
    ensures
        double::is_whole(b),
        double::saturated(b) == i,
{
    operators::lemma_number(b);
    let n = (if i < 0 {
        -i
    } else {
        i
    }) as nat;
    let w = double::one() as int;
    let u = double::units(double::magnitude(b) as nat) as int;
    lemma_pow2_pos(1074);
    assert(u == n * w) by (nonlinear_arith)
        requires
            u >= 0,
            w > 0,
            u == i * w || -u == i * w,
            n == (if i < 0 {
                -i
            } else {
                i
            }),
    ;
    assert(i > 0 ==> i * w > 0) by (nonlinear_arith)
        requires
            w > 0,
    ;
    assert(i < 0 ==> i * w < 0) by (nonlinear_arith)
        requires
            w > 0,
    ;
    lemma_fundamental_div_mod_converse(u, w, n as int, 0);
}

proof fn lemma_rounded(i: int, zero_negative: bool)
    requires
        is_small(i),
    ensures
        ({
            let b = double::rounded(i * double::one(), 1, zero_negative);
            &&& is_exactly(b, i)
            &&& double::is_finite(b)
            &&& double::magnitude(b) < 0x43e0_0000_0000_0000
        }),
{
    let n = (if i < 0 {
        -i
    } else {
        i
    }) as nat;
    let w = double::one();
    lemma_pow2_pos(1074);
    let m = lemma_whole(n);
    lemma_nearest_itself(m, 1);
    assert(double::units(m) * 1 == double::units(m)) by (nonlinear_arith);
    assert(-(i * w) == (-i) * w) by (nonlinear_arith);
    assert(0 * w == 0) by (nonlinear_arith);
    assert(i > 0 ==> i * w > 0) by (nonlinear_arith)
        requires
            w > 0,
    ;
    assert(i < 0 ==> i * w < 0) by (nonlinear_arith)
        requires
            w > 0,
    ;
    lemma_sized(i < 0, n, m);
    if i == 0 {
        lemma_sized(zero_negative, 0, 0);
    }
}

proof fn lemma_sum(a: u64, b: u64, i: int, j: int)
    requires
        is_exactly(a, i),
        is_exactly(b, j),
        double::is_finite(a),
        double::is_finite(b),
        is_small(i + j),
    ensures
        is_exactly(double::sum_real(a, b), i + j),
        double::is_finite(double::sum_real(a, b)),
        double::magnitude(double::sum_real(a, b)) < 0x43e0_0000_0000_0000,
{
    operators::lemma_number(a);
    operators::lemma_number(b);
    let w = double::one() as int;
    assert(i * w + j * w == (i + j) * w) by (nonlinear_arith);
    lemma_rounded(i + j, double::negative(a) && double::negative(b));
}

proof fn lemma_negated(b: u64, j: int)
    requires
        is_exactly(b, j),
        double::is_finite(b),
    ensures
        is_exactly(double::negated(b), -j),
        double::is_finite(double::negated(b)),
{
    operators::lemma_number(b);
    operators::lemma_number(double::negated(b));
    let w = double::one() as int;
    assert((-j) * w == -(j * w)) by (nonlinear_arith);
}

proof fn lemma_product(i: int, j: int)
    requires
        is_small(i),
        is_small(j),
        is_small(i * j),
    ensures
        ({
            let b = double::product_real(double::int_real(i), double::int_real(j));
            &&& is_exactly(b, i * j)
            &&& double::is_finite(b)
            &&& double::magnitude(b) < 0x43e0_0000_0000_0000
        }),
{
    lemma_held(i);
    lemma_held(j);
    let a = double::int_real(i);
    let b = double::int_real(j);
    let x = (if i < 0 {
        -i
    } else {
        i
    }) as nat;
    let y = (if j < 0 {
        -j
    } else {
        j
    }) as nat;
    let w = double::one();
    lemma_pow2_pos(1074);
    let neg = (i < 0) != (j < 0);
    assert(x * y == (if neg {
        -(i * j)
    } else {
        i * j
    })) by (nonlinear_arith)
        requires
            x == (if i < 0 {
                -i
            } else {
                i
            }),
            y == (if j < 0 {
                -j
            } else {
                j
            }),
            neg == ((i < 0) != (j < 0)),
    ;
    assert(0 <= x * y) by (nonlinear_arith)
        requires
            x >= 0,
            y >= 0,
    ;
    let n = (x * y) as nat;
    let m = lemma_whole(n);
    lemma_nearest_itself(m, w);
    assert((x * w) * (y * w) == ((x * y) * w) * w) by (nonlinear_arith);
    lemma_sized(neg, n, m);
}

proof fn lemma_quotient(i: int, j: int, k: int)
    requires
        is_small(i),
        is_small(j),
        is_small(k),
        j != 0,
        i == j * k,
    ensures
        is_exactly(double::quotient_real(double::int_real(i), double::int_real(j)), k),
{
    lemma_held(i);
    lemma_held(j);
    let x = (if i < 0 {
        -i
    } else {
        i
    }) as nat;
    let y = (if j < 0 {
        -j
    } else {
        j
    }) as nat;
    let z = (if k < 0 {
        -k
    } else {
        k
    }) as nat;
    let w = double::one();
    lemma_pow2_pos(1074);
    let neg = (i < 0) != (j < 0);
    assert(x == y * z && (i != 0 ==> neg == (k < 0)) && (i == 0 ==> k == 0)) by (nonlinear_arith)
        requires
            x == (if i < 0 {
                -i
            } else {
                i
            }),
            y == (if j < 0 {
                -j
            } else {
                j
            }),
            z == (if k < 0 {
                -k
            } else {
                k
            }),
            neg == ((i < 0) != (j < 0)),
            i == j * k,
            j != 0,
    ;
    let m = lemma_whole(z);
    assert(y * w > 0) by (nonlinear_arith)
        requires
            y > 0,
            w > 0,
    ;
    lemma_nearest_itself(m, y * w);
    assert((x * w) * w == (z * w) * (y * w)) by (nonlinear_arith)
        requires
            x == y * z,
    ;
    lemma_sized(neg, z, m);
}

proof fn lemma_whole_numbers(i: i64, j: i64)
    requires
        is_small(i as int),
        is_small(j as int),
    ensures
        is_small(i + j) ==> expr::binary_value(BinaryOp::Plus, ValueV::Integer(i), ValueV::Integer(j)) == ValueV::Integer(
            (i + j) as i64,
        ),
        is_small(i - j) ==> expr::binary_value(BinaryOp::Minus, ValueV::Integer(i), ValueV::Integer(j)) == ValueV::Integer(
            (i - j) as i64,
        ),
        is_small(i * j) ==> expr::binary_value(BinaryOp::Multiply, ValueV::Integer(i), ValueV::Integer(j)) == ValueV::Integer(
            (i * j) as i64,
        ),
        forall|k: int|
            is_small(k) && j != 0 && i == #[trigger] (j * k) ==> match expr::binary_value(
                BinaryOp::Divide,
                ValueV::Integer(i),
                ValueV::Integer(j),
            ) {
                ValueV::Real(b) => is_exactly(b, k),
                _ => false,
            },
        j == 0 ==> expr::binary_value(BinaryOp::Divide, ValueV::Integer(i), ValueV::Integer(j)) == ValueV::Null,
        j == 0 ==> expr::binary_value(BinaryOp::Modulo, ValueV::Integer(i), ValueV::Integer(j)) == ValueV::Null,
{
    lemma_held(i as int);
    lemma_held(j as int);
    let a = double::int_real(i as int);
    let b = double::int_real(j as int);
    if is_small(i + j) {
        lemma_sum(a, b, i as int, j as int);
        lemma_read_back(double::sum_real(a, b), i + j);
    }
    if is_small(i - j) {
        lemma_negated(b, j as int);
        lemma_sum(a, double::negated(b), i as int, -j);
        lemma_read_back(double::difference_real(a, b), i - j);
    }
    if is_small(i * j) {
        lemma_product(i as int, j as int);
        lemma_read_back(double::product_real(a, b), i * j);
    }
    assert forall|k: int| is_small(k) && j != 0 && i == #[trigger] (j * k) implies match expr::binary_value(
        BinaryOp::Divide,
        ValueV::Integer(i),
        ValueV::Integer(j),
    ) {
        ValueV::Real(b) => is_exactly(b, k),
        _ => false,
    } by {
        lemma_quotient(i as int, j as int, k);
    }
}

/// On integers that a double holds exactly, with a result of that size, `+`, `-` and `*` are the
/// sum, the difference and the product of the operands, and a division that leaves no rest gives
/// the quotient. To divide by zero gives null.
pub proof fn lemma_arithmetic(l: ExprV, r: ExprV, row: Option<RowV>, ps: Seq<ValueV>, i: int, x: i64, y: i64, k: int)
    requires
        operators::first_operand(l, row, ps, i) == ValueV::Integer(x),
        operators::second_operand(l, r, row, ps, i) == ValueV::Integer(y),
        is_small(x as int),
        is_small(y as int),
    ensures
        is_small(x + y) ==> operators::applied(BinaryOp::Plus, l, r, row, ps, i) == ValueV::Integer((x + y) as i64),
        is_small(x - y) ==> operators::applied(BinaryOp::Minus, l, r, row, ps, i) == ValueV::Integer((x - y) as i64),
        is_small(x * y) ==> operators::applied(BinaryOp::Multiply, l, r, row, ps, i) == ValueV::Integer((x * y) as i64),
        y != 0 && is_small(k) && x == y * k ==> match operators::applied(BinaryOp::Divide, l, r, row, ps, i) {
            ValueV::Real(b) => is_exactly(b, k),
            _ => false,
        },
        y == 0 ==> operators::applied(BinaryOp::Divide, l, r, row, ps, i) == ValueV::Null,
        y == 0 ==> operators::applied(BinaryOp::Modulo, l, r, row, ps, i) == ValueV::Null,
{
    lemma_whole_numbers(x, y);
    assert(x == y * k ==> x == (y * k));
}

/// The remainder of integers has the sign of the first, is smaller than the second, and is what a
/// multiple of the second leaves of the first.
pub proof fn lemma_remainder_operator(l: ExprV, r: ExprV, row: Option<RowV>, ps: Seq<ValueV>, i: int, x: i64, y: i64) -> (d: (i64, int))
    requires
        operators::first_operand(l, row, ps, i) == ValueV::Integer(x),
        operators::second_operand(l, r, row, ps, i) == ValueV::Integer(y),
        y != 0,
        is_small(y as int),
    ensures
        operators::applied(BinaryOp::Modulo, l, r, row, ps, i) == ValueV::Integer(d.0),
        x == y * d.1 + d.0,
        x >= 0 ==> 0 <= d.0,
        x <= 0 ==> d.0 <= 0,
        -d.0 < y || -d.0 < -y,
        d.0 < y || d.0 < -y,
{
    lemma_remainder(x, y)
}

proof fn lemma_remainder(i: i64, j: i64) -> (r: (i64, int))
    requires
        j != 0,
        is_small(j as int),
    ensures
        expr::binary_value(BinaryOp::Modulo, ValueV::Integer(i), ValueV::Integer(j)) == ValueV::Integer(r.0),
        i == j * r.1 + r.0,
        i >= 0 ==> 0 <= r.0,
        i <= 0 ==> r.0 <= 0,
        -r.0 < j || -r.0 < -j,
        r.0 < j || r.0 < -j,
{
    lemma_held(j as int);
    let x = (if i < 0 {
        -i
    } else {
        i as int
    });
    let y = (if j < 0 {
        -j
    } else {
        j as int
    });
    lemma_fundamental_div_mod(x, y);
    let q = x / y;
    let m = x % y;
    assert(0 <= m < y) by (nonlinear_arith)
        requires
            y > 0,
            m == x % y,
    ;
    assert(m <= x) by (nonlinear_arith)
        requires
            x >= 0,
            y > 0,
            m == x % y,
    ;
    let k = if (i < 0) == (j < 0) {
        q
    } else {
        -q
    };
    let r = if i < 0 {
        -m
    } else {
        m
    };
    assert(i == j * k + r) by (nonlinear_arith)
        requires
            x == y * q + m,
            x == (if i < 0 {
                -i
            } else {
                i as int
            }),
            y == (if j < 0 {
                -j
            } else {
                j as int
            }),
            k == (if (i < 0) == (j < 0) {
                q
            } else {
                -q
            }),
            r == (if i < 0 {
                -m
            } else {
                m
            }),
    ;
    (r as i64, k)
}

/// Arithmetic on a value that is no number gives null, also where the other is one.
pub proof fn lemma_no_number(op: BinaryOp, l: ExprV, r: ExprV, row: Option<RowV>, ps: Seq<ValueV>, i: int)
    requires
        op == BinaryOp::Plus || op == BinaryOp::Minus || op == BinaryOp::Multiply || op == BinaryOp::Divide || op
            == BinaryOp::Modulo,
        ({
            let a = operators::first_operand(l, row, ps, i);
            let b = operators::second_operand(l, r, row, ps, i);
            !(a is Integer || a is Real) || !(b is Integer || b is Real)
        }),
    ensures
        operators::applied(op, l, r, row, ps, i) == ValueV::Null,
{
}

/// How `||` writes a text or an integer.
pub open spec fn written(v: ValueV) -> Seq<char> {
    match v {
        ValueV::Text(s) => s,
        ValueV::Integer(i) => text::int_text(i as int),
        _ => Seq::empty(),
    }
}

/// `||` puts its operands as texts one behind the other.
pub proof fn lemma_joined_texts(l: ExprV, r: ExprV, row: Option<RowV>, ps: Seq<ValueV>, i: int)
    requires
        ({
            let a = operators::first_operand(l, row, ps, i);
            let b = operators::second_operand(l, r, row, ps, i);
            (a is Text || a is Integer) && (b is Text || b is Integer)
        }),
    ensures
        operators::applied(BinaryOp::StringConcat, l, r, row, ps, i) == ValueV::Text(
            written(operators::first_operand(l, row, ps, i)) + written(operators::second_operand(l, r, row, ps, i)),
        ),
{
}

/// A minus turns the sign of a number round and keeps its size, a plus changes nothing, and what is
/// no number stays.
pub proof fn lemma_signs(e: ExprV, row: Option<RowV>, ps: Seq<ValueV>, i: int)
    ensures
        ({
            let v = expr::eval_v(e, row, ps, i).0;
            let minus = expr::eval_v(ExprV::UnaryOp { op: UnaryOp::Minus, expr: Box::new(e) }, row, ps, i).0;
            &&& expr::eval_v(ExprV::UnaryOp { op: UnaryOp::Plus, expr: Box::new(e) }, row, ps, i).0 == v
            &&& match v {
                ValueV::Integer(x) => x > i64::MIN ==> minus == ValueV::Integer((-x) as i64),
                ValueV::Real(b) => match minus {
                    ValueV::Real(c) => b as int - c == 0x8000_0000_0000_0000 || c as int - b == 0x8000_0000_0000_0000,
                    _ => false,
                },
                _ => minus == v,
            }
        }),
{
}

/// What some values add up to, those that are no integers as nothing.
pub open spec fn total(vals: Seq<ValueV>) -> int
    decreases vals.len(),
{
    if vals.len() == 0 {
        0
    } else {
        total(vals.drop_last()) + match vals.last() {
            ValueV::Integer(i) => i as int,
            _ => 0,
        }
    }
}

/// Whether the values are integers or no numbers, and each beginning of them adds up to an
/// integer that a double holds exactly.
pub open spec fn add_up(vals: Seq<ValueV>) -> bool {
    &&& forall|k: int| 0 <= k < vals.len() ==> !(#[trigger] vals[k] is Real)
    &&& forall|k: int| 0 <= k < vals.len() ==> match #[trigger] vals[k] {
        ValueV::Integer(i) => is_small(i as int),
        _ => true,
    }
    &&& forall|n: int| 0 <= n <= vals.len() ==> is_small(#[trigger] total(vals.take(n)))
}

/// The values of a column in some rows.
pub open spec fn column_of(rows: Seq<RowV>, c: Seq<char>) -> Seq<ValueV> {
    Seq::new(rows.len(), |k: int| expr::column_value(Some(rows[k]), c))
}

proof fn lemma_totals(rows: Seq<RowV>, c: Seq<char>, n: int)
    requires
        0 <= n <= rows.len(),
        add_up(column_of(rows, c)),
    ensures
        ({
            let b = select::real_total(select::column_numbers(rows, c, n));
            &&& is_exactly(b, total(column_of(rows, c).take(n)))
            &&& double::is_finite(b)
        }),
    decreases n,
{
    let vals = column_of(rows, c);
    if n == 0 {
        lemma_pow2_pos(1074);
        lemma_sized(true, 0, 0);
        assert(0 * double::one() == 0) by (nonlinear_arith);
        assert(double::units(0) == 0);
        assert(total(vals.take(0)) == 0);
    } else {
        lemma_totals(rows, c, n - 1);
        assert(vals.take(n).drop_last() =~= vals.take(n - 1));
        assert(vals.take(n).last() == vals[n - 1]);
        let before = select::column_numbers(rows, c, n - 1);
        match vals[n - 1] {
            ValueV::Integer(i) => {
                let x = double::int_real(i as int);
                lemma_held(i as int);
                assert(before.push(x).drop_last() =~= before);
                assert(is_small(total(vals.take(n))));
                lemma_sum(select::real_total(before), x, total(vals.take(n - 1)), i as int);
            },
            _ => {},
        }
    }
}

/// SUM over a column of integers whose sums a double holds exactly is their sum; values that are
/// no numbers add nothing, and the sum of nothing is zero.
pub proof fn lemma_sum_of_column(name: Seq<char>, distinct: bool, c: Seq<char>, rows: Seq<RowV>, ps: Seq<ValueV>, i: int)
    requires
        text::lowercase(name) == "sum"@,
        add_up(column_of(rows, c)),
    ensures
        select::aggregate_value(
            ExprV::Function { name, distinct, args: seq![FunctionArgV::Unnamed(ExprV::Identifier(c))] },
            rows,
            ps,
            i,
        ) == ValueV::Integer(total(column_of(rows, c)) as i64),
{
    reveal_strlit("sum");
    reveal_strlit("count");
    let n = rows.len() as int;
    assert("sum"@.len() != "count"@.len());
    lemma_totals(rows, c, n);
    let vals = column_of(rows, c);
    assert(vals.take(n) =~= vals);
    assert(is_small(total(vals.take(n))));
    lemma_read_back(select::real_total(select::column_numbers(rows, c, n)), total(vals));
}

proof fn lemma_shared_out(a: u64, i: int, j: int, k: int)
    requires
        is_exactly(a, i),
        double::is_finite(a),
        is_small(i),
        is_small(j),
        is_small(k),
        j > 0,
        i == j * k,
    ensures
        is_exactly(double::quotient_real(a, double::int_real(j)), k),
{
    operators::lemma_number(a);
    lemma_held(j);
    let w = double::one();
    lemma_pow2_pos(1074);
    let u = double::units(double::magnitude(a) as nat);
    let neg = double::negative(a);
    let z = (if k < 0 {
        -k
    } else {
        k
    }) as nat;
    assert(u == (j * z) * w && (i != 0 ==> neg == (k < 0)) && (i == 0 ==> k == 0)) by (nonlinear_arith)
        requires
            neg ==> -(u as int) == i * w,
            !neg ==> u == i * w,
            w > 0,
            i == j * k,
            j > 0,
            z == (if k < 0 {
                -k
            } else {
                k
            }),
    ;
    let m = lemma_whole(z);
    let y = j as nat;
    assert(y * w > 0) by (nonlinear_arith)
        requires
            y > 0,
            w > 0,
    ;
    lemma_nearest_itself(m, y * w);
    assert(u * w == (z * w) * (y * w)) by (nonlinear_arith)
        requires
            u == (y * z) * w,
    ;
    lemma_sized(neg, z, m);
    if i == 0 {
        assert(z == 0);
        assert(0 * w == 0) by (nonlinear_arith);
    }
}

/// How many of some values are integers.
pub open spec fn integers_in(vals: Seq<ValueV>) -> nat {
    vals.filter(|v: ValueV| v is Integer).len()
}

proof fn lemma_numbers_counted(rows: Seq<RowV>, c: Seq<char>, n: int)
    requires
        0 <= n <= rows.len(),
        add_up(column_of(rows, c)),
    ensures
        select::column_numbers(rows, c, n).len() == integers_in(column_of(rows, c).take(n)),
    decreases n,
{
    reveal(Seq::filter);
    let vals = column_of(rows, c);
    if n > 0 {
        lemma_numbers_counted(rows, c, n - 1);
        assert(vals.take(n).drop_last() =~= vals.take(n - 1));
        assert(vals.take(n).last() == vals[n - 1]);
    }
}

proof fn lemma_numbers_bound(rows: Seq<RowV>, c: Seq<char>, n: int)
    requires
        0 <= n <= rows.len(),
    ensures
        select::column_numbers(rows, c, n).len() <= n,
    decreases n,
{
    if n > 0 {
        lemma_numbers_bound(rows, c, n - 1);
    }
}

/// AVG over a column of integers whose sums a double holds exactly is their sum shared out among
/// them, where it can be without a rest, and null where there are none.
pub proof fn lemma_mean_of_column(
    name: Seq<char>,
    distinct: bool,
    c: Seq<char>,
    rows: Seq<RowV>,
    ps: Seq<ValueV>,
    i: int,
    k: int,
)
    requires
        text::lowercase(name) == "avg"@,
        add_up(column_of(rows, c)),
        is_small(rows.len() as int),
        is_small(k),
        total(column_of(rows, c)) == integers_in(column_of(rows, c)) * k,
    ensures
        ({
            let v = select::aggregate_value(
                ExprV::Function { name, distinct, args: seq![FunctionArgV::Unnamed(ExprV::Identifier(c))] },
                rows,
                ps,
                i,
            );
            if integers_in(column_of(rows, c)) == 0 {
                v == ValueV::Null
            } else {
                match v {
                    ValueV::Real(b) => is_exactly(b, k),
                    _ => false,
                }
            }
        }),
{
    reveal_strlit("sum");
    reveal_strlit("count");
    reveal_strlit("avg");
    assert("avg"@.len() != "count"@.len());
    assert("avg"@[0] != "sum"@[0]);
    let n = rows.len() as int;
    let vals = column_of(rows, c);
    lemma_totals(rows, c, n);
    lemma_numbers_counted(rows, c, n);
    assert(vals.take(n) =~= vals);
    assert(is_small(total(vals.take(n))));
    lemma_numbers_bound(rows, c, n);
    let ns = select::column_numbers(rows, c, n);
    if ns.len() > 0 {
        lemma_shared_out(select::real_total(ns), total(vals), ns.len() as int, k);
    }
}

proof fn lemma_bits_of_one()
    ensures
        double::units(double::REAL_ONE as nat) == double::one(),
        double::magnitude(double::REAL_ONE) == double::REAL_ONE,
        !double::negative(double::REAL_ONE),
{
    lemma2_to64();
    lemma2_to64_rest();
    assert(0x3ff0_0000_0000_0000nat / 0x10_0000_0000_0000nat == 1023);
    assert(0x3ff0_0000_0000_0000nat % 0x10_0000_0000_0000nat == 0);
    lemma_pow2_adds(52, 1022);
}

proof fn lemma_times_one(b: u64)
    requires
        double::is_finite(b),
    ensures
        double::product_real(b, double::REAL_ONE) == b,
        double::quotient_real(b, double::REAL_ONE) == b,
{
    lemma_bits_of_one();
    lemma_pow2_pos(1074);
    lemma_nearest_itself(double::magnitude(b) as nat, double::one());
}

/// Whether a whole number is nearest to a double, and of two that are equally near the one that is
/// farther from zero.
pub open spec fn is_nearest_to(i: int, b: u64) -> bool {
    let w = double::one() as int;
    let x = double::exact(b);
    &&& -w <= 2 * (i * w - x) <= w
    &&& 2 * (i * w - x) == w ==> x >= 0
    &&& 2 * (i * w - x) == -w ==> x <= 0
}

/// To round a double that is not too large gives the nearest whole number; a half is rounded away
/// from zero.
pub proof fn lemma_rounds_to_nearest(b: u64) -> (i: int)
    requires
        double::is_finite(b),
        -0x10_0000_0000_0000 * double::one() < double::exact(b) < 0x10_0000_0000_0000 * double::one(),
    ensures
        is_exactly(double::round_places(b, 0), i),
        is_nearest_to(i, b),
{
    let w = double::one() as int;
    lemma_pow2_pos(1074);
    let u = double::units(double::magnitude(b) as nat) as int;
    let n = (2 * u + w) / (2 * w);
    lemma_fundamental_div_mod(2 * u + w, 2 * w);
    let r = (2 * u + w) % (2 * w);
    assert(0 <= r < 2 * w) by (nonlinear_arith)
        requires
            w > 0,
            r == (2 * u + w) % (2 * w),
    ;
    assert(0 <= n <= 0x10_0000_0000_0000 && -w < 2 * (n * w - u) <= w) by (nonlinear_arith)
        requires
            w > 0,
            u >= 0,
            u < 0x10_0000_0000_0000 * w,
            2 * u + w == (2 * w) * n + r,
            0 <= r < 2 * w,
    ;
    let m = lemma_whole(n as nat);
    lemma_nearest_itself(m, 1);
    assert(double::units(m) * 1 == double::units(m)) by (nonlinear_arith);
    let neg = double::negative(b);
    lemma_sized(neg, n as nat, m);
    lemma_times_one(b);
    lemma_times_one(double::round_whole(b));
    let i = if neg {
        -n
    } else {
        n
    };
    assert((-n) * w == -(n * w)) by (nonlinear_arith);
    i
}

pub(crate) proof fn lemma_round_integer(x: int)
    requires
        -0x10_0000_0000_0000 < x < 0x10_0000_0000_0000,
    ensures
        is_exactly(double::round_places(double::int_real(x), 0), x),
{
    let b = double::int_real(x);
    let w = double::one() as int;
    lemma_held(x);
    lemma_pow2_pos(1074);
    assert(-0x10_0000_0000_0000 * w < x * w < 0x10_0000_0000_0000 * w) by (nonlinear_arith)
        requires
            w > 0,
            -0x10_0000_0000_0000 < x < 0x10_0000_0000_0000,
    ;
    let i = lemma_rounds_to_nearest(b);
    assert(i == x) by (nonlinear_arith)
        requires
            w > 0,
            -w <= 2 * (i * w - x * w) <= w,
    ;
}

} // verus!

//! Doubles from and to decimal text.
use vstd::arithmetic::div_mod::*;
use vstd::arithmetic::mul::*;
use vstd::arithmetic::power2::*;
use vstd::prelude::*;
use vstd::string::*;

use crate::double;
use crate::double::{INFINITE, Real, STEP};
use crate::natural::Natural;
use crate::text;

verus! {

/// Ten to the power `k`.
pub open spec fn tens(k: nat) -> nat
    decreases k,
{
    if k == 0 {
        1
    } else {
        10 * tens((k - 1) as nat)
    }
}

/// The double nearest to `d` times ten to the power `e`.
pub open spec fn decimal_real(neg: bool, d: nat, e: int) -> u64 {
    double::with_sign(
        neg,
        if e >= 0 {
            double::nearest(d * tens(e as nat) * double::one(), 1)
        } else {
            double::nearest(d * double::one(), tens((-e) as nat))
        },
    )
}

/// The position of the first character from `i` on that `a` or `b` equals, or the end.
pub open spec fn either_at(s: Seq<char>, a: char, b: char, i: int) -> int
    decreases s.len() - i,
{
    if i < 0 || i >= s.len() || s[i] == a || s[i] == b {
        i
    } else {
        either_at(s, a, b, i + 1)
    }
}

/// The exponent that follows the letter at `i`; zero where the text ends there.
pub open spec fn exponent_of(s: Seq<char>, i: int) -> Option<int> {
    if i >= s.len() {
        Some(0)
    } else {
        let (neg, d) = text::sign_split(s.subrange(i + 1, s.len() as int));
        if d.len() == 0 || !text::all_digits(d) {
            None
        } else if neg {
            Some(-(text::digits_value(d) as int))
        } else {
            Some(text::digits_value(d) as int)
        }
    }
}

/// The double that a decimal text stands for: an optional sign, digits with an optional point
/// among them, and an optional exponent.
pub open spec fn real_of_text(s: Seq<char>) -> Option<u64> {
    let (neg, body) = text::sign_split(s);
    let e = either_at(body, 'e', 'E', 0);
    let p = either_at(body.take(e), '.', '.', 0);
    let whole = body.take(p);
    let frac = if p < e {
        body.subrange(p + 1, e)
    } else {
        Seq::empty()
    };
    let digits = whole + frac;
    if digits.len() == 0 || !text::all_digits(digits) {
        None
    } else {
        match exponent_of(body, e) {
            None => None,
            Some(x) => Some(decimal_real(neg, text::digits_value(digits), x - frac.len())),
        }
    }
}

proof fn lemma_tens_positive(k: nat)
    ensures
        tens(k) > 0,
    decreases k,
{
    if k > 0 {
        lemma_tens_positive((k - 1) as nat);
    }
}

proof fn lemma_tens_grow(j: nat, k: nat)
    requires
        j <= k,
    ensures
        tens(j) <= tens(k),
    decreases k,
{
    if j < k {
        lemma_tens_grow(j, (k - 1) as nat);
    }
}

proof fn lemma_tens_sum(j: nat, k: nat)
    ensures
        tens(j + k) == tens(j) * tens(k),
    decreases k,
{
    if k == 0 {
        assert(tens(j) * 1 == tens(j)) by (nonlinear_arith);
    } else {
        lemma_tens_sum(j, (k - 1) as nat);
        assert(tens((j + k - 1) as nat) == tens(j) * tens((k - 1) as nat));
        let a = tens(j) as int;
        let b = tens((k - 1) as nat) as int;
        assert(10 * (a * b) == a * (10 * b)) by (nonlinear_arith);
    }
}

proof fn lemma_tens_above(k: nat)
    ensures
        tens(k) >= pow2(3 * k),
    decreases k,
{
    lemma2_to64();
    if k > 0 {
        lemma_tens_above((k - 1) as nat);
        lemma_pow2_adds(3, (3 * (k - 1)) as nat);
        assert(pow2(3) == 8);
        lemma_pow2_pos((3 * (k - 1)) as nat);
    }
}

proof fn lemma_digits_below(s: Seq<char>)
    requires
        text::all_digits(s),
    ensures
        text::digits_value(s) < tens(s.len()),
    decreases s.len(),
{
    if s.len() > 0 {
        assert(text::all_digits(s.drop_last())) by {
            assert forall|i: int| 0 <= i < s.drop_last().len() implies text::is_digit(#[trigger] s.drop_last()[i]) by {
                assert(s.drop_last()[i] == s[i]);
            }
        }
        lemma_digits_below(s.drop_last());
        assert(text::is_digit(s.last()));
    }
}

/// A number that is at least ten to the power 400 is beyond every finite double.
proof fn lemma_huge(d: nat, e: nat)
    requires
        d >= 1,
        e >= 400,
    ensures
        double::nearest(d * tens(e) * double::one(), 1) == INFINITE,
{
    lemma_tens_grow(400, e);
    lemma_tens_above(400);
    lemma_pow2_pos(1074);
    lemma2_to64();
    lemma2_to64_rest();
    assert(INFINITE as nat / STEP as nat == 2047);
    assert(INFINITE as nat % STEP as nat == 0);
    assert(double::units(INFINITE as nat) == STEP as nat * pow2(2046));
    lemma_pow2_adds(1074, 972);
    lemma_pow2_adds(228, 972);
    lemma_pow2_strictly_increases(52, 228);
    let w = double::one() as int;
    let h = pow2(972) as int;
    lemma_pow2_pos(972);
    let g = pow2(228) as int;
    let t = tens(e) as int;
    assert(d * t * w * 1 >= STEP * (w * h) * 1) by (nonlinear_arith)
        requires
            d >= 1,
            t >= g * h,
            g >= STEP,
            w > 0,
            h > 0,
            STEP > 0,
    {
        assert(d * t >= t);
        assert(g * h >= STEP * h);
        assert(d * t >= STEP * h);
        assert(d * t * w >= STEP * h * w);
        assert(STEP * (w * h) == STEP * h * w);
    }
    assert(STEP as nat * pow2(2046) == STEP * (w * h));
    assert(double::units(INFINITE as nat) * 1 <= d * tens(e) * double::one());
}

/// A number below ten to the power -400 is nearest to zero.
proof fn lemma_tiny(d: nat, n: nat, e: nat)
    requires
        d < tens(n),
        e >= n + 400,
    ensures
        double::nearest(d * double::one(), tens(e)) == 0,
{
    lemma_tens_positive(e);
    lemma_tens_positive(n);
    lemma_tens_grow(n + 400, e);
    lemma_tens_sum(n, 400);
    lemma_tens_above(400);
    lemma_pow2_strictly_increases(1075, 1200);
    lemma_pow2_unfold(1075);
    lemma_pow2_pos(1074);
    let w = double::one() as int;
    let a = tens(n) as int;
    let b = tens(400) as int;
    assert(2 * (d * w) < a * b) by (nonlinear_arith)
        requires
            d < a,
            b > 2 * w,
            w > 0,
            d >= 0,
    {
        assert(d * (2 * w) <= a * (2 * w));
        assert(a * (2 * w) < a * b);
    }
    lemma_zero_floor(d * double::one(), tens(e));
}

proof fn lemma_zero_floor(p: nat, q: nat)
    requires
        2 * p < q,
    ensures
        double::nearest(p, q) == 0,
{
    lemma_zero_floor_from(p, q, INFINITE as nat);
    assert(double::units(0) == 0);
    assert(double::units(1) == 1);
    assert((double::units(0) + double::units(1)) * q == q) by (nonlinear_arith)
        requires
            double::units(0) + double::units(1) == 1,
    ;
}

proof fn lemma_zero_floor_from(p: nat, q: nat, hi: nat)
    requires
        p < q,
    ensures
        double::floor_magnitude(p, q, hi) == 0,
    decreases hi,
{
    if hi > 0 {
        double::lemma_units_increase(0, hi);
        assert(double::units(hi) * q >= q) by (nonlinear_arith)
            requires
                double::units(hi) >= 1,
                q >= 0,
        ;
        lemma_zero_floor_from(p, q, (hi - 1) as nat);
    }
}

fn tens_natural(k: u64) -> (r: Natural)
    ensures
        r@ == tens(k as nat),
{
    let mut r = Natural::from_word(1);
    let mut i: u64 = 0;
    while i < k
        invariant
            i <= k,
            r@ == tens(i as nat),
        decreases k - i,
    {
        r = r.times_small(10);
        i = i + 1;
    }
    r
}

fn digits_natural(cs: &Vec<char>) -> (r: Option<Natural>)
    ensures
        match r {
            Some(n) => text::all_digits(cs@) && n@ == text::digits_value(cs@),
            None => !text::all_digits(cs@),
        },
{
    let mut r = Natural::zero();
    let mut i: usize = 0;
    assert(cs@.take(0) =~= Seq::empty());
    while i < cs.len()
        invariant
            i <= cs@.len(),
            text::all_digits(cs@.take(i as int)),
            r@ == text::digits_value(cs@.take(i as int)),
        decreases cs@.len() - i,
    {
        let c: char = cs[i];
        if !('0' <= c && c <= '9') {
            assert(!text::is_digit(cs@[i as int]));
            return None;
        }
        proof {
            let t = cs@.take(i + 1);
            assert(t.drop_last() =~= cs@.take(i as int));
            assert forall|k: int| 0 <= k < t.len() implies text::is_digit(#[trigger] t[k]) by {
                if k < i {
                    assert(t[k] == cs@.take(i as int)[k]);
                }
            }
        }
        let v: u64 = (c as u32 - '0' as u32) as u64;
        r = r.times_small(10).plus(&Natural::from_word(v));
        i = i + 1;
    }
    assert(cs@.take(i as int) =~= cs@);
    Some(r)
}

fn slice_chars(cs: &Vec<char>, from: usize, to: usize) -> (r: Vec<char>)
    requires
        from <= to <= cs@.len(),
    ensures
        r@ == cs@.subrange(from as int, to as int),
{
    let mut r: Vec<char> = Vec::new();
    let mut i: usize = from;
    while i < to
        invariant
            from <= i <= to <= cs@.len(),
            r@ == cs@.subrange(from as int, i as int),
        decreases to - i,
    {
        r.push(cs[i]);
        i = i + 1;
        assert(r@ =~= cs@.subrange(from as int, i as int));
    }
    r
}

fn find_either(cs: &Vec<char>, a: char, b: char, end: usize) -> (r: usize)
    requires
        end <= cs@.len(),
    ensures
        r == either_at(cs@.take(end as int), a, b, 0),
        r <= end,
{
    let ghost s = cs@.take(end as int);
    let mut i: usize = 0;
    while i < end && cs[i] != a && cs[i] != b
        invariant
            i <= end <= cs@.len(),
            s == cs@.take(end as int),
            either_at(s, a, b, i as int) == either_at(s, a, b, 0),
        decreases end - i,
    {
        i = i + 1;
    }
    i
}

/// The double nearest to `d` times ten to the power `up - down`.
fn decimal_to_real(neg: bool, d: &Natural, n: usize, up: &Natural, down: &Natural) -> (r: Real)
    requires
        d@ < tens(n as nat),
    ensures
        r.bits == decimal_real(neg, d@, up@ - down@),
{
    let one = Natural::from_word(1);
    let limit = Natural::from_word(400);
    if down.at_most(up) {
        let e = up.minus(down);
        proof {
            assert(0 * tens(e@) * double::one() == 0) by (nonlinear_arith);
        }
        if d.is_zero() {
            proof {
                lemma_zero_floor(0, 1);
                assert(d@ * tens(e@) * double::one() == 0) by (nonlinear_arith)
                    requires
                        d@ == 0,
                ;
            }
            return double::signed(neg, 0);
        }
        if limit.at_most(&e) {
            proof {
                lemma_huge(d@, e@);
            }
            return double::signed(neg, INFINITE);
        }
        match double::natural_quotient(&e, &one) {
            None => {
                proof {
                    lemma_div_basics(e@ as int);
                }
                double::signed(neg, 0)
            },
            Some(k) => {
                proof {
                    lemma_div_basics(e@ as int);
                }
                let p = d.times(&tens_natural(k)).shifted(1074);
                double::signed(neg, double::nearest_magnitude(&p, &one))
            },
        }
    } else {
        let e = down.minus(up);
        let bound = Natural::from_word(n as u64).plus(&limit);
        if bound.at_most(&e) {
            proof {
                lemma_tiny(d@, n as nat, e@);
            }
            return double::signed(neg, 0);
        }
        match double::natural_quotient(&e, &one) {
            None => {
                proof {
                    lemma_div_basics(e@ as int);
                    assert(n + 400 > u64::MAX);
                }
                // Only a text of some 2^64 digits comes here.
                let q = slow_tens(&e);
                proof {
                    lemma_tens_positive(e@);
                }
                double::signed(neg, double::nearest_magnitude(&d.shifted(1074), &q))
            },
            Some(k) => {
                proof {
                    lemma_div_basics(e@ as int);
                    lemma_tens_positive(k as nat);
                }
                let q = tens_natural(k);
                double::signed(neg, double::nearest_magnitude(&d.shifted(1074), &q))
            },
        }
    }
}

fn slow_tens(k: &Natural) -> (r: Natural)
    ensures
        r@ == tens(k@),
{
    let mut r = Natural::from_word(1);
    let mut i = Natural::zero();
    let unit = Natural::from_word(1);
    while !k.at_most(&i)
        invariant
            unit@ == 1,
            i@ <= k@,
            r@ == tens(i@),
        decreases k@ - i@,
    {
        r = r.times_small(10);
        i = i.plus(&unit);
    }
    r
}

/// The double that a decimal text stands for.
pub fn parse_real(s: &str) -> (r: Option<Real>)
    ensures
        match r {
            Some(x) => real_of_text(s@) == Some(x.bits),
            None => real_of_text(s@) is None,
        },
{
    let all = text::chars_of(s);
    let neg: bool = all.len() > 0 && all[0] == '-';
    let from: usize = if all.len() > 0 && (all[0] == '-' || all[0] == '+') {
        1
    } else {
        0
    };
    let body = slice_chars(&all, from, all.len());
    assert(body@ =~= text::sign_split(s@).1);
    let e = find_either(&body, 'e', 'E', body.len());
    assert(body@.take(body@.len() as int) =~= body@);
    let p = find_either(&body, '.', '.', e);
    let whole = slice_chars(&body, 0, p);
    assert(whole@ =~= body@.take(p as int));
    let mut digits = whole;
    let mut frac_len: usize = 0;
    if p < e {
        let mut frac = slice_chars(&body, p + 1, e);
        frac_len = frac.len();
        digits.append(&mut frac);
    } else {
        assert(digits@ + Seq::<char>::empty() =~= digits@);
    }
    if digits.len() == 0 {
        return None;
    }
    match digits_natural(&digits) {
        None => None,
        Some(d) => {
            proof {
                lemma_digits_below(digits@);
            }
            let frac_down = Natural::from_word(frac_len as u64);
            if e >= body.len() {
                let none = Natural::zero();
                Some(decimal_to_real(neg, &d, digits.len(), &none, &frac_down))
            } else {
                let tail = slice_chars(&body, e + 1, body.len());
                let eneg: bool = tail.len() > 0 && tail[0] == '-';
                let efrom: usize = if tail.len() > 0 && (tail[0] == '-' || tail[0] == '+') {
                    1
                } else {
                    0
                };
                let ed = slice_chars(&tail, efrom, tail.len());
                assert(ed@ =~= text::sign_split(body@.subrange(e + 1, body@.len() as int)).1);
                if ed.len() == 0 {
                    return None;
                }
                match digits_natural(&ed) {
                    None => None,
                    Some(x) => if eneg {
                        let down = frac_down.plus(&x);
                        let none = Natural::zero();
                        Some(decimal_to_real(neg, &d, digits.len(), &none, &down))
                    } else {
                        Some(decimal_to_real(neg, &d, digits.len(), &x, &frac_down))
                    },
                }
            }
        },
    }
}

/// What a number is multiplied by to count it in steps of ten to the power `k`.
pub open spec fn scale_up(k: int) -> nat {
    if k < 0 {
        tens((-k) as nat)
    } else {
        1
    }
}

/// What a number is divided by to count it in steps of ten to the power `k`.
pub open spec fn scale_down(k: int) -> nat {
    if k < 0 {
        double::one()
    } else {
        tens(k as nat) * double::one()
    }
}

/// The magnitude `m` in whole steps of ten to the power `k`, the rest dropped.
pub open spec fn step_floor(m: nat, k: int) -> nat {
    double::units(m) * scale_up(k) / scale_down(k)
}

/// Whether `d` steps of ten to the power `k` are read back as the magnitude `m`.
pub open spec fn reads_back(m: nat, k: int, d: nat) -> bool {
    let low = (double::units((m - 1) as nat) + double::units(m)) * scale_up(k);
    let high = (double::units(m) + double::units(m + 1)) * scale_up(k);
    let x = 2 * (d * scale_down(k));
    if m % 2 == 0 {
        low <= x <= high
    } else {
        low < x < high
    }
}

/// The count of steps of ten to the power `k` next to the magnitude `m` that is read back as
/// `m`: of two, the nearer, and of two equally near, the larger.
pub open spec fn steps_at(m: nat, k: int) -> Option<nat> {
    let d = step_floor(m, k);
    let down = reads_back(m, k, d);
    let up = reads_back(m, k, d + 1);
    if down && up {
        if 2 * (double::units(m) * scale_up(k) - d * scale_down(k)) < scale_down(k) {
            Some(d)
        } else {
            Some(d + 1)
        }
    } else if down {
        Some(d)
    } else if up {
        Some(d + 1)
    } else {
        None
    }
}

/// The fewest digits that are read back as the magnitude `m`, and the power of ten of the last
/// of them, which is at most `k`.
pub open spec fn shortest(m: nat, k: int) -> (nat, int)
    decreases k + 1074,
{
    if step_floor(m, k) >= u64::MAX {
        (u64::MAX as nat, k)
    } else {
        match steps_at(m, k) {
            Some(d) => (d, k),
            None => if k <= -1074 {
                (step_floor(m, k), k)
            } else {
                shortest(m, k - 1)
            },
        }
    }
}

/// `n` zeros.
pub open spec fn zeros(n: nat) -> Seq<char> {
    Seq::new(n, |i: int| '0')
}

/// Digits whose last has the weight ten to the power `k`, written out.
pub open spec fn plain_decimal(digits: Seq<char>, k: int) -> Seq<char> {
    let p = digits.len() + k;
    if k >= 0 {
        digits + zeros(k as nat)
    } else if p > 0 {
        digits.take(p) + seq!['.'] + digits.skip(p)
    } else {
        seq!['0', '.'] + zeros((-p) as nat) + digits
    }
}

/// The decimal text of a double: the fewest digits that are read back as the same double.
pub open spec fn real_text(b: u64) -> Seq<char> {
    let m = double::magnitude(b) as nat;
    let body = if m == 0 {
        seq!['0']
    } else if double::is_infinite(b) {
        seq!['i', 'n', 'f']
    } else {
        let (d, k) = shortest(m, 309);
        plain_decimal(text::nat_text(d), k)
    };
    if double::is_nan(b) {
        seq!['N', 'a', 'N']
    } else if double::negative(b) {
        seq!['-'] + body
    } else {
        body
    }
}

/// `x` steps against the two bounds between which a count is read back.
fn within(low: &Natural, high: &Natural, x: &Natural, closed: bool) -> (r: bool)
    ensures
        r == (if closed {
            low@ <= x@ <= high@
        } else {
            low@ < x@ < high@
        }),
{
    if closed {
        low.at_most(x) && x.at_most(high)
    } else {
        !x.at_most(low) && !high.at_most(x)
    }
}

/// What one scale gives: the count where one is read back; the floor in any case.
fn steps_of(u: &Natural, low: &Natural, high: &Natural, den: &Natural, closed: bool) -> (r: Option<(u64, Option<u64>)>)
    requires
        den@ > 0,
    ensures
        match r {
            None => u@ / den@ >= u64::MAX,
            Some((d, c)) => {
                let lo = 2 * (d as nat * den@);
                let hi = 2 * ((d + 1) as nat * den@);
                let down = if closed {
                    low@ <= lo <= high@
                } else {
                    low@ < lo < high@
                };
                let up = if closed {
                    low@ <= hi <= high@
                } else {
                    low@ < hi < high@
                };
                &&& d == u@ / den@
                &&& d < u64::MAX
                &&& c == (if down && up {
                    if 2 * (u@ - d as nat * den@) < den@ {
                        Some(d)
                    } else {
                        Some((d + 1) as u64)
                    }
                } else if down {
                    Some(d)
                } else if up {
                    Some((d + 1) as u64)
                } else {
                    None
                })
            },
        },
{
    match double::natural_quotient(u, den) {
        None => None,
        Some(d) => {
            if d == u64::MAX {
                return None;
            }
            let floor = Natural::from_word(d).times(den);
            let ceil = Natural::from_word(d + 1).times(den);
            let down = within(low, high, &floor.plus(&floor), closed);
            let up = within(low, high, &ceil.plus(&ceil), closed);
            if down && up {
                proof {
                    lemma_fundamental_div_mod(u@ as int, den@ as int);
                    lemma_mul_is_commutative(d as int, den@ as int);
                    lemma_mod_bound(u@ as int, den@ as int);
                }
                let rest = u.minus(&floor);
                if den.at_most(&rest.plus(&rest)) {
                    Some((d, Some(d + 1)))
                } else {
                    Some((d, Some(d)))
                }
            } else if down {
                Some((d, Some(d)))
            } else if up {
                Some((d, Some(d + 1)))
            } else {
                Some((d, None))
            }
        },
    }
}

/// Scales whose step is above the upper bound give nothing.
proof fn lemma_skip(m: nat, k: int, to: int)
    requires
        0 <= to <= k,
        m > 0,
        forall|j: int| to < j <= k ==> double::units(m) + double::units(m + 1) < 2 * #[trigger] (tens(j as nat) * double::one()),
    ensures
        shortest(m, k) == shortest(m, to),
    decreases k - to,
{
    if to < k {
        let s = tens(k as nat) * double::one();
        assert(double::units(m) + double::units(m + 1) < 2 * (tens(k as nat) * double::one()));
        double::lemma_units_increase(m, m + 1);
        double::lemma_units_increase((m - 1) as nat, m);
        assert(double::units(m) < s);
        assert(double::units(m) * 1 == double::units(m)) by (nonlinear_arith);
        lemma_basic_div(double::units(m) as int, s as int);
        assert(step_floor(m, k) == 0);
        assert(0 * s == 0) by (nonlinear_arith);
        assert(1 * s == s) by (nonlinear_arith);
        assert((double::units((m - 1) as nat) + double::units(m)) * 1 > 0) by (nonlinear_arith)
            requires
                double::units(m) > 0,
        ;
        assert((double::units(m) + double::units(m + 1)) * 1 == double::units(m) + double::units(m + 1)) by (nonlinear_arith);
        assert(steps_at(m, k) is None);
        lemma_skip(m, k - 1, to);
    }
}

/// The shortest digits of a finite magnitude above zero.
fn shortest_digits(m: u64) -> (r: (u64, i32))
    requires
        0 < m < INFINITE,
    ensures
        (r.0 as nat, r.1 as int) == shortest(m as nat, 309),
        -1100 < r.1 <= 309,
{
    let ghost mm = m as nat;
    let u = double::units_natural(m);
    let low = double::units_natural(m - 1).plus(&u);
    let high = double::units_natural(m + 1).plus(&u);
    let closed: bool = m % 2 == 0;
    let mut powers: Vec<Natural> = Vec::new();
    powers.push(double::one_natural());
    proof {
        lemma_pow2_pos(1074);
        assert(tens(0) * double::one() == double::one()) by (nonlinear_arith)
            requires
                tens(0) == 1,
        ;
    }
    let mut top: usize = 0;
    // Go up to the first step that is above the upper bound.
    while top < 309 && powers[top].plus(&powers[top]).at_most(&high)
        invariant
            top <= 309,
            powers@.len() == top + 1,
            forall|i: int| 0 <= i <= top ==> (#[trigger] powers@[i])@ == tens(i as nat) * double::one(),
        decreases 309 - top,
    {
        let next = powers[top].times_small(10);
        proof {
            let a = tens(top as nat) as int;
            let b = double::one() as int;
            assert((a * b) * 10 == (10 * a) * b) by (nonlinear_arith);
        }
        powers.push(next);
        top = top + 1;
    }
    proof {
        assert forall|j: int| top < j <= 309 implies double::units(mm) + double::units(mm + 1) < 2 * #[trigger] (tens(
            j as nat,
        ) * double::one()) by {
            lemma_tens_grow(top as nat, j as nat);
            lemma_mul_inequality(tens(top as nat) as int, tens(j as nat) as int, double::one() as int);
            assert(powers@[top as int]@ == tens(top as nat) * double::one());
        }
        lemma_skip(mm, 309, top as int);
    }
    let mut k: usize = top;
    loop
        invariant
            0 < m < INFINITE,
            mm == m as nat,
            k <= top <= 309,
            powers@.len() == top + 1,
            forall|i: int| 0 <= i <= top ==> (#[trigger] powers@[i])@ == tens(i as nat) * double::one(),
            shortest(mm, 309) == shortest(mm, k as int),
            u@ == double::units(mm),
            low@ == double::units((mm - 1) as nat) + double::units(mm),
            high@ == double::units(mm) + double::units(mm + 1),
            closed == (m % 2 == 0),
        ensures
            k == 0,
            shortest(mm, 309) == shortest(mm, -1),
        decreases k,
    {
        let den = &powers[k];
        proof {
            lemma_tens_positive(k as nat);
            lemma_pow2_pos(1074);
            assert(den@ > 0) by (nonlinear_arith)
                requires
                    den@ == tens(k as nat) * double::one(),
                    tens(k as nat) > 0,
                    double::one() > 0,
            ;
            assert(u@ * 1 == u@ && low@ * 1 == low@ && high@ * 1 == high@) by (nonlinear_arith);
        }
        match steps_of(&u, &low, &high, den, closed) {
            None => {
                return (u64::MAX, k as i32);
            },
            Some((d, c)) => match c {
                Some(n) => {
                    return (n, k as i32);
                },
                None => {},
            },
        }
        if k == 0 {
            break;
        }
        k = k - 1;
    }
    let unit = double::one_natural();
    let mut us = u;
    let mut lows = low;
    let mut highs = high;
    let mut j: i32 = 0;
    proof {
        assert(us@ * 1 == us@ && lows@ * 1 == lows@ && highs@ * 1 == highs@) by (nonlinear_arith);
    }
    loop
        invariant
            0 < m < INFINITE,
            mm == m as nat,
            0 <= j < 1074,
            unit@ == double::one(),
            unit@ > 0,
            shortest(mm, 309) == shortest(mm, -(j + 1)),
            us@ == double::units(mm) * tens(j as nat),
            lows@ == (double::units((mm - 1) as nat) + double::units(mm)) * tens(j as nat),
            highs@ == (double::units(mm) + double::units(mm + 1)) * tens(j as nat),
            closed == (m % 2 == 0),
        decreases 1074 - j,
    {
        proof {
            let t = tens(j as nat) as int;
            let a = double::units(mm) as int;
            let b = (double::units((mm - 1) as nat) + double::units(mm)) as int;
            let c = (double::units(mm) + double::units(mm + 1)) as int;
            assert((a * t) * 10 == a * (10 * t)) by (nonlinear_arith);
            assert((b * t) * 10 == b * (10 * t)) by (nonlinear_arith);
            assert((c * t) * 10 == c * (10 * t)) by (nonlinear_arith);
        }
        us = us.times_small(10);
        lows = lows.times_small(10);
        highs = highs.times_small(10);
        j = j + 1;
        match steps_of(&us, &lows, &highs, &unit, closed) {
            None => {
                return (u64::MAX, -j);
            },
            Some((d, c)) => match c {
                Some(n) => {
                    return (n, -j);
                },
                None => if j >= 1074 {
                    return (d, -j);
                },
            },
        }
    }
}

fn push_zeros(s: &mut String, n: usize)
    ensures
        final(s)@ == old(s)@ + zeros(n as nat),
{
    let mut i: usize = 0;
    let ghost start = s@;
    assert(start + zeros(0) =~= start);
    while i < n
        invariant
            i <= n,
            s@ == start + zeros(i as nat),
        decreases n - i,
    {
        s.push('0');
        i = i + 1;
        assert(s@ =~= start + zeros(i as nat));
    }
}

/// The decimal text of a double.
pub fn real_to_text(x: Real) -> (r: String)
    ensures
        r@ == real_text(x.bits),
{
    let m: u64 = x.size();
    let mut out = String::new();
    if m > INFINITE {
        out.push('N');
        out.push('a');
        out.push('N');
        assert(out@ =~= seq!['N', 'a', 'N']);
        return out;
    }
    if x.is_negative() {
        out.push('-');
    }
    let ghost sign = out@;
    if m == 0 {
        out.push('0');
        assert(out@ =~= real_text(x.bits));
        return out;
    }
    if m == INFINITE {
        out.push('i');
        out.push('n');
        out.push('f');
        assert(out@ =~= real_text(x.bits));
        return out;
    }
    let (d, k) = shortest_digits(m);
    let text = text::word_text(d);
    let digits = text::chars_of(text.as_str());
    let n: usize = digits.len();
    proof {
        lemma_word_len(d as nat);
    }
    if k >= 0 {
        out.append(text.as_str());
        push_zeros(&mut out, k as usize);
    } else {
        let p: i32 = n as i32 + k;
        if p > 0 {
            let a = text::slice_text(&digits, 0, p as usize);
            let b = text::slice_text(&digits, p as usize, n);
            out.append(a.as_str());
            out.push('.');
            out.append(b.as_str());
            assert(a@ =~= digits@.take(p as int));
            assert(b@ =~= digits@.skip(p as int));
        } else {
            out.push('0');
            out.push('.');
            push_zeros(&mut out, (-p) as usize);
            out.append(text.as_str());
        }
    }
    assert(out@ =~= sign + plain_decimal(text::nat_text(d as nat), k as int));
    assert(out@ =~= real_text(x.bits));
    out
}

proof fn lemma_word_len(n: nat)
    requires
        n <= u64::MAX,
    ensures
        text::nat_text(n).len() <= 20,
{
    reveal_with_fuel(text::nat_text, 21);
}

} // verus!

//! Double-precision numbers, held as their bits and computed with integers.
use vstd::arithmetic::div_mod::*;
use vstd::arithmetic::mul::*;
use vstd::arithmetic::power2::*;
use vstd::prelude::*;

use crate::natural::Natural;

verus! {

/// A double, as the bits of its IEEE 754 form.
#[derive(Debug, Clone, Copy)]
pub struct Real {
    pub bits: u64,
}

impl PartialEq for Real {
    fn eq(&self, other: &Real) -> (r: bool) {
        self.same(*other)
    }
}

impl vstd::std_specs::cmp::PartialEqSpecImpl for Real {
    open spec fn obeys_eq_spec() -> bool {
        true
    }

    open spec fn eq_spec(&self, other: &Real) -> bool {
        same_real(self.bits, other.bits)
    }
}

/// The bits of positive infinity; a magnitude above it is not a number.
pub const INFINITE: u64 = 0x7ff0_0000_0000_0000;

/// The sign bit.
pub const SIGN: u64 = 0x8000_0000_0000_0000;

/// The bits that an operation without a numeric result gives.
pub const NOT_A_NUMBER: u64 = 0x7ff8_0000_0000_0000;

/// The weight of the lowest exponent bit.
pub const STEP: u64 = 0x10_0000_0000_0000;

pub open spec fn negative(b: u64) -> bool {
    b >= SIGN
}

pub open spec fn magnitude(b: u64) -> u64 {
    if b >= SIGN {
        (b - SIGN) as u64
    } else {
        b
    }
}

pub open spec fn is_nan(b: u64) -> bool {
    magnitude(b) > INFINITE
}

pub open spec fn is_infinite(b: u64) -> bool {
    magnitude(b) == INFINITE
}

pub open spec fn is_finite(b: u64) -> bool {
    magnitude(b) < INFINITE
}

pub open spec fn is_zero(b: u64) -> bool {
    magnitude(b) == 0
}

/// The number one, in units of the smallest positive double.
pub open spec fn one() -> nat {
    pow2(1074)
}

/// The magnitude `m` in units of the smallest positive double; infinity counts as two to the
/// power 1024.
pub open spec fn units(m: nat) -> nat {
    if m / (STEP as nat) == 0 {
        m
    } else {
        (STEP + m % (STEP as nat)) as nat * pow2((m / (STEP as nat) - 1) as nat)
    }
}

/// The exact value of a double that is a number, in units of the smallest positive double.
pub open spec fn exact(b: u64) -> int {
    if negative(b) {
        -(units(magnitude(b) as nat) as int)
    } else {
        units(magnitude(b) as nat) as int
    }
}

/// Where a double stands among all numbers: what is not a number stands above the rest.
pub open spec fn position(b: u64) -> int {
    if is_nan(b) {
        (units(INFINITE as nat) + 1) as int
    } else {
        exact(b)
    }
}

/// Where an integer stands among all numbers.
pub open spec fn int_position(i: int) -> int {
    i * one()
}

/// Equality of doubles as IEEE 754 has it.
pub open spec fn same_real(a: u64, b: u64) -> bool {
    !is_nan(a) && !is_nan(b) && exact(a) == exact(b)
}

pub open spec fn with_sign(neg: bool, m: u64) -> u64 {
    if neg {
        (m + SIGN) as u64
    } else {
        m
    }
}

/// The largest magnitude up to `hi` that is not above `p / q`.
pub open spec fn floor_magnitude(p: nat, q: nat, hi: nat) -> nat
    decreases hi,
{
    if hi == 0 || units(hi) * q <= p {
        hi
    } else {
        floor_magnitude(p, q, (hi - 1) as nat)
    }
}

/// The magnitude nearest to `p / q`; of two that are equally near, the one with the even bits.
pub open spec fn nearest(p: nat, q: nat) -> u64 {
    let m = floor_magnitude(p, q, INFINITE as nat);
    if m == INFINITE {
        INFINITE
    } else {
        let middle = (units(m) + units(m + 1)) * q;
        if 2 * p < middle || (2 * p == middle && m % 2 == 0) {
            m as u64
        } else {
            (m + 1) as u64
        }
    }
}

/// The double nearest to the signed number `n / q`, zero taking the sign `zero_negative`.
pub open spec fn rounded(n: int, q: nat, zero_negative: bool) -> u64 {
    if n < 0 {
        with_sign(true, nearest((-n) as nat, q))
    } else if n > 0 {
        with_sign(false, nearest(n as nat, q))
    } else {
        with_sign(zero_negative, 0)
    }
}

pub open spec fn int_real(i: int) -> u64 {
    rounded(i * one(), 1, false)
}

pub open spec fn negated(b: u64) -> u64 {
    with_sign(!negative(b), magnitude(b))
}

pub open spec fn sum_real(a: u64, b: u64) -> u64 {
    if is_nan(a) || is_nan(b) || (is_infinite(a) && is_infinite(b) && negative(a) != negative(b)) {
        NOT_A_NUMBER
    } else if is_infinite(a) {
        a
    } else if is_infinite(b) {
        b
    } else {
        rounded(exact(a) + exact(b), 1, negative(a) && negative(b))
    }
}

pub open spec fn difference_real(a: u64, b: u64) -> u64 {
    if is_nan(b) {
        NOT_A_NUMBER
    } else {
        sum_real(a, negated(b))
    }
}

pub open spec fn product_real(a: u64, b: u64) -> u64 {
    let neg = negative(a) != negative(b);
    if is_nan(a) || is_nan(b) || (is_infinite(a) && is_zero(b)) || (is_zero(a) && is_infinite(b)) {
        NOT_A_NUMBER
    } else if is_infinite(a) || is_infinite(b) {
        with_sign(neg, INFINITE)
    } else {
        with_sign(
            neg,
            nearest(units(magnitude(a) as nat) * units(magnitude(b) as nat), one()),
        )
    }
}

pub open spec fn quotient_real(a: u64, b: u64) -> u64 {
    let neg = negative(a) != negative(b);
    if is_nan(a) || is_nan(b) || (is_infinite(a) && is_infinite(b)) || (is_zero(a) && is_zero(b)) {
        NOT_A_NUMBER
    } else if is_infinite(a) || is_zero(b) {
        with_sign(neg, INFINITE)
    } else if is_infinite(b) {
        with_sign(neg, 0)
    } else {
        with_sign(
            neg,
            nearest(units(magnitude(a) as nat) * one(), units(magnitude(b) as nat)),
        )
    }
}

/// The remainder that has the sign of the dividend.
pub open spec fn remainder_real(a: u64, b: u64) -> u64 {
    if is_nan(a) || is_nan(b) || is_infinite(a) || is_zero(b) {
        NOT_A_NUMBER
    } else if is_infinite(b) {
        a
    } else {
        with_sign(
            negative(a),
            nearest(units(magnitude(a) as nat) % units(magnitude(b) as nat), 1),
        )
    }
}

/// Whether a double is a whole number.
pub open spec fn is_whole(b: u64) -> bool {
    is_finite(b) && units(magnitude(b) as nat) % one() == 0
}

/// The double without its fraction, as an integer.
pub open spec fn truncated(b: u64) -> int {
    let n = (units(magnitude(b) as nat) / one()) as int;
    if negative(b) {
        -n
    } else {
        n
    }
}

/// The conversion to a 64-bit integer: what does not fit goes to the nearest bound, and what
/// is not a number to zero.
pub open spec fn saturated(b: u64) -> int {
    if is_nan(b) {
        0
    } else if truncated(b) > i64::MAX {
        i64::MAX as int
    } else if truncated(b) < i64::MIN {
        i64::MIN as int
    } else {
        truncated(b)
    }
}

/// The nearest whole number, halves going away from zero.
pub open spec fn round_whole(b: u64) -> u64 {
    if !is_finite(b) {
        b
    } else {
        with_sign(
            negative(b),
            nearest(((2 * units(magnitude(b) as nat) + one()) / (2 * one())) as nat * one(), 1),
        )
    }
}

/// `r` times `a` to the power `n`, by repeated squaring.
pub open spec fn power_loop(r: u64, a: u64, n: nat) -> u64
    decreases n,
{
    if n == 0 {
        r
    } else {
        let next = if n % 2 == 1 {
            product_real(r, a)
        } else {
            r
        };
        if n / 2 == 0 {
            next
        } else {
            power_loop(next, product_real(a, a), n / 2)
        }
    }
}

/// The bits of one.
pub const REAL_ONE: u64 = 0x3ff0_0000_0000_0000;

/// The bits of ten.
pub const REAL_TEN: u64 = 0x4024_0000_0000_0000;

/// Ten to the power `n`.
pub open spec fn ten_power(n: int) -> u64 {
    if n >= 0 {
        power_loop(REAL_ONE, REAL_TEN, n as nat)
    } else {
        quotient_real(REAL_ONE, power_loop(REAL_ONE, REAL_TEN, (-n) as nat))
    }
}

/// The double rounded to `places` decimal places.
pub open spec fn round_places(b: u64, places: int) -> u64 {
    quotient_real(round_whole(product_real(b, ten_power(places))), ten_power(places))
}

proof fn lemma_units_step(m: nat)
    ensures
        units(m) < units(m + 1),
{
    let s = STEP as int;
    let e = m as int / s;
    let f = m as int % s;
    lemma_fundamental_div_mod(m as int, s);
    lemma2_to64();
    assert(pow2(0) == 1);
    if f + 1 < s {
        lemma_fundamental_div_mod_converse((m + 1) as int, s, e, f + 1);
        if e > 0 {
            lemma_pow2_pos((e - 1) as nat);
            let p = pow2((e - 1) as nat) as int;
            assert((s + f) * p < (s + (f + 1)) * p) by (nonlinear_arith)
                requires
                    p > 0,
            ;
        }
    } else {
        assert(s * (e + 1) == s * e + s) by (nonlinear_arith);
        lemma_fundamental_div_mod_converse((m + 1) as int, s, e + 1, 0);
        lemma_pow2_pos(e as nat);
        if e > 0 {
            lemma_pow2_unfold(e as nat);
            let p = pow2((e - 1) as nat) as int;
            lemma_pow2_pos((e - 1) as nat);
            assert((s + f) * p < s * (2 * p)) by (nonlinear_arith)
                requires
                    f < s,
                    p > 0,
            ;
        } else {
            assert((s + 0) * pow2(0) == s) by (nonlinear_arith)
                requires
                    pow2(0) == 1,
            ;
        }
    }
}

/// A larger magnitude stands for a larger number.
pub proof fn lemma_units_increase(m: nat, n: nat)
    requires
        m < n,
    ensures
        units(m) < units(n),
    decreases n - m,
{
    lemma_units_step((n - 1) as nat);
    if m + 1 < n {
        lemma_units_increase(m, (n - 1) as nat);
    }
}

proof fn lemma_units_zero(m: nat)
    ensures
        (units(m) == 0) == (m == 0),
{
    if m > 0 {
        lemma_units_increase(0, m);
    }
}

pub(crate) proof fn lemma_floor(p: nat, q: nat, m: nat, hi: nat)
    requires
        q > 0,
        m <= hi,
        units(m) * q <= p,
        m == hi || p < units(m + 1) * q,
    ensures
        floor_magnitude(p, q, hi) == m,
    decreases hi,
{
    if m < hi {
        if m + 1 < hi {
            lemma_units_increase(m + 1, hi);
            assert(units(m + 1) * q < units(hi) * q) by (nonlinear_arith)
                requires
                    units(m + 1) < units(hi),
                    q > 0,
            ;
        }
        lemma_floor(p, q, m, (hi - 1) as nat);
    }
}

/// The magnitude `m` as a natural number of units.
pub fn units_natural(m: u64) -> (r: Natural)
    ensures
        r@ == units(m as nat),
{
    let e: u64 = m / STEP;
    if e == 0 {
        Natural::from_word(m)
    } else {
        let sig: u64 = STEP + m % STEP;
        Natural::from_word(sig).shifted((e - 1) as u32)
    }
}

pub fn one_natural() -> (r: Natural)
    ensures
        r@ == one(),
{
    let r = Natural::from_word(1).shifted(1074);
    assert(1 * pow2(1074) == pow2(1074)) by (nonlinear_arith);
    r
}

pub fn nearest_magnitude(p: &Natural, q: &Natural) -> (r: u64)
    requires
        q@ > 0,
    ensures
        r == nearest(p@, q@),
        r <= INFINITE,
{
    let mut lo: u64 = 0;
    let mut hi: u64 = INFINITE + 1;
    assert(units(0) * q@ == 0) by (nonlinear_arith)
        requires
            units(0) == 0,
    ;
    while hi - lo > 1
        invariant
            q@ > 0,
            lo < hi <= INFINITE + 1,
            units(lo as nat) * q@ <= p@,
            hi == INFINITE + 1 || p@ < units(hi as nat) * q@,
        decreases hi - lo,
    {
        let mid: u64 = lo + (hi - lo) / 2;
        let u = units_natural(mid);
        if u.times(q).at_most(p) {
            lo = mid;
        } else {
            hi = mid;
        }
    }
    proof {
        lemma_floor(p@, q@, lo as nat, INFINITE as nat);
    }
    if lo == INFINITE {
        return INFINITE;
    }
    let a = units_natural(lo);
    let b = units_natural(lo + 1);
    let middle = a.plus(&b).times(q);
    let twice = p.plus(p);
    let below_or_at = twice.at_most(&middle);
    let above_or_at = middle.at_most(&twice);
    if below_or_at && (!above_or_at || lo % 2 == 0) {
        lo
    } else {
        lo + 1
    }
}

/// `p / q` where it fits a word.
pub fn natural_quotient(p: &Natural, q: &Natural) -> (r: Option<u64>)
    requires
        q@ > 0,
    ensures
        match r {
            Some(n) => n == p@ / q@,
            None => p@ / q@ > u64::MAX,
        },
{
    let top = q.shifted(64);
    proof {
        lemma2_to64();
        assert(pow2(64) == 0x1_0000_0000_0000_0000);
    }
    if top.at_most(p) {
        proof {
            assert(q@ * pow2(64) == 0x1_0000_0000_0000_0000 * q@) by (nonlinear_arith)
                requires
                    pow2(64) == 0x1_0000_0000_0000_0000,
            ;
            lemma_div_is_ordered((0x1_0000_0000_0000_0000 * q@) as int, p@ as int, q@ as int);
            lemma_div_multiples_vanish(0x1_0000_0000_0000_0000, q@ as int);
            lemma_mul_is_commutative(0x1_0000_0000_0000_0000, q@ as int);
        }
        return None;
    }
    let mut rest = p.copy();
    let mut quo: u64 = 0;
    let mut weight: u64 = 0x8000_0000_0000_0000;
    let mut k: u32 = 64;
    proof {
        lemma_pow2_unfold(64);
        assert(quo * q@ == 0) by (nonlinear_arith)
            requires
                quo == 0,
        ;
    }
    while k > 0
        invariant
            q@ > 0,
            k <= 64,
            k > 0 ==> weight == pow2((k - 1) as nat),
            quo + pow2(k as nat) <= 0x1_0000_0000_0000_0000,
            p@ == quo * q@ + rest@,
            rest@ < q@ * pow2(k as nat),
        decreases k,
    {
        let part = q.shifted(k - 1);
        proof {
            lemma_pow2_unfold(k as nat);
            lemma_pow2_pos((k - 1) as nat);
            let w = pow2((k - 1) as nat) as int;
            assert(q@ * (2 * w) == q@ * w + q@ * w) by (nonlinear_arith);
            assert((quo + w) * q@ == quo * q@ + q@ * w) by (nonlinear_arith);
        }
        if part.at_most(&rest) {
            rest = rest.minus(&part);
            quo = quo + weight;
        }
        weight = weight / 2;
        k = k - 1;
        proof {
            if k > 0 {
                lemma_pow2_unfold(k as nat);
            }
        }
    }
    proof {
        lemma2_to64();
        assert(q@ * pow2(0) == q@) by (nonlinear_arith)
            requires
                pow2(0) == 1,
        ;
        lemma_fundamental_div_mod_converse(p@ as int, q@ as int, quo as int, rest@ as int);
        lemma_mul_is_commutative(quo as int, q@ as int);
    }
    Some(quo)
}

/// `p % q`.
fn natural_remainder(p: &Natural, q: &Natural) -> (r: Natural)
    requires
        q@ > 0,
    ensures
        r@ == p@ % q@,
{
    // Double q until it passes p, then take the multiples out from the largest down.
    let mut steps: Vec<Natural> = Vec::new();
    let mut cur = q.copy();
    while cur.at_most(p)
        invariant
            q@ > 0,
            cur@ > 0,
            cur@ % q@ == 0,
            steps@.len() == 0 ==> cur@ == q@,
            steps@.len() > 0 ==> steps@[0]@ == q@ && cur@ == 2 * steps@.last()@,
            forall|i: int| 0 <= i < steps@.len() ==> (#[trigger] steps@[i])@ > 0 && steps@[i]@ % q@ == 0,
            forall|i: int| 0 < i < steps@.len() ==> (#[trigger] steps@[i])@ == 2 * steps@[i - 1]@,
        decreases 2 * p@ - cur@,
    {
        let next = cur.plus(&cur);
        proof {
            lemma_fundamental_div_mod(cur@ as int, q@ as int);
            let d = cur@ as int / q@ as int;
            assert(2 * cur@ == q@ * (2 * d)) by (nonlinear_arith)
                requires
                    cur@ == q@ * d,
            ;
            lemma_fundamental_div_mod_converse((2 * cur@) as int, q@ as int, 2 * d, 0);
        }
        steps.push(cur);
        cur = next;
    }
    let mut rest = p.copy();
    let mut k: usize = steps.len();
    while k > 0
        invariant
            q@ > 0,
            k <= steps@.len(),
            rest@ % q@ == p@ % q@,
            k == 0 ==> rest@ < q@,
            k > 0 ==> rest@ < 2 * steps@[k - 1]@,
            steps@.len() > 0 ==> steps@[0]@ == q@,
            forall|i: int| 0 <= i < steps@.len() ==> (#[trigger] steps@[i])@ > 0 && steps@[i]@ % q@ == 0,
            forall|i: int| 0 < i < steps@.len() ==> (#[trigger] steps@[i])@ == 2 * steps@[i - 1]@,
        decreases k,
    {
        k = k - 1;
        if steps[k].at_most(&rest) {
            let less = rest.minus(&steps[k]);
            proof {
                let s = steps@[k as int]@ as int;
                let d = s / q@ as int;
                lemma_fundamental_div_mod(s, q@ as int);
                lemma_mod_multiples_vanish(d, less@ as int, q@ as int);
                assert(q@ * d + less@ == rest@);
            }
            rest = less;
        }
        assert(steps@[k as int]@ > 0);
    }
    proof {
        lemma_small_mod(rest@, q@);
    }
    rest
}

pub fn signed(neg: bool, m: u64) -> (r: Real)
    requires
        m <= INFINITE,
    ensures
        r.bits == with_sign(neg, m),
{
    if neg {
        Real { bits: m + SIGN }
    } else {
        Real { bits: m }
    }
}

impl Real {
    pub fn is_negative(self) -> (r: bool)
        ensures
            r == negative(self.bits),
    {
        self.bits >= SIGN
    }

    pub fn size(self) -> (r: u64)
        ensures
            r == magnitude(self.bits),
    {
        if self.bits >= SIGN {
            self.bits - SIGN
        } else {
            self.bits
        }
    }

    pub fn zero(self) -> (r: bool)
        ensures
            r == is_zero(self.bits),
    {
        self.size() == 0
    }

    pub fn finite(self) -> (r: bool)
        ensures
            r == is_finite(self.bits),
    {
        self.size() < INFINITE
    }

    pub fn from_int(i: i64) -> (r: Real)
        ensures
            r.bits == int_real(i as int),
    {
        if i == 0 {
            assert(0 * one() == 0) by (nonlinear_arith);
            return Real { bits: 0 };
        }
        let neg: bool = i < 0;
        let size: u64 = int_size(i);
        let p = Natural::from_word(size).shifted(1074);
        let q = Natural::from_word(1);
        proof {
            lemma_pow2_pos(1074);
            let w1 = one() as int;
            assert(i * w1 > 0 <==> i > 0) by (nonlinear_arith)
                requires
                    w1 > 0,
            ;
            assert(i * w1 < 0 <==> i < 0) by (nonlinear_arith)
                requires
                    w1 > 0,
            ;
            assert((-i) * w1 == -(i * w1)) by (nonlinear_arith);
        }
        signed(neg, nearest_magnitude(&p, &q))
    }

    pub fn negate(self) -> (r: Real)
        ensures
            r.bits == negated(self.bits),
    {
        if self.bits >= SIGN {
            Real { bits: self.bits - SIGN }
        } else {
            Real { bits: self.bits + SIGN }
        }
    }

    pub fn absolute(self) -> (r: Real)
        ensures
            r.bits == magnitude(self.bits),
    {
        Real { bits: self.size() }
    }

    pub fn plus(self, other: Real) -> (r: Real)
        ensures
            r.bits == sum_real(self.bits, other.bits),
    {
        let a: u64 = self.size();
        let b: u64 = other.size();
        let na = self.is_negative();
        let nb = other.is_negative();
        if a > INFINITE || b > INFINITE || (a == INFINITE && b == INFINITE && na != nb) {
            return Real { bits: NOT_A_NUMBER };
        }
        if a == INFINITE {
            return self;
        }
        if b == INFINITE {
            return other;
        }
        let ua = units_natural(a);
        let ub = units_natural(b);
        let q = Natural::from_word(1);
        if na == nb {
            let p = ua.plus(&ub);
            if p.is_zero() {
                signed(na, 0)
            } else {
                signed(na, nearest_magnitude(&p, &q))
            }
        } else if ua.at_most(&ub) {
            let p = ub.minus(&ua);
            if p.is_zero() {
                signed(false, 0)
            } else {
                signed(nb, nearest_magnitude(&p, &q))
            }
        } else {
            let p = ua.minus(&ub);
            signed(na, nearest_magnitude(&p, &q))
        }
    }

    pub fn minus(self, other: Real) -> (r: Real)
        ensures
            r.bits == difference_real(self.bits, other.bits),
    {
        if other.size() > INFINITE {
            Real { bits: NOT_A_NUMBER }
        } else {
            self.plus(other.negate())
        }
    }

    pub fn times(self, other: Real) -> (r: Real)
        ensures
            r.bits == product_real(self.bits, other.bits),
    {
        let a: u64 = self.size();
        let b: u64 = other.size();
        let neg: bool = self.is_negative() != other.is_negative();
        if a > INFINITE || b > INFINITE || (a == INFINITE && b == 0) || (a == 0 && b == INFINITE) {
            return Real { bits: NOT_A_NUMBER };
        }
        if a == INFINITE || b == INFINITE {
            return signed(neg, INFINITE);
        }
        let p = units_natural(a).times(&units_natural(b));
        let q = one_natural();
        proof {
            lemma_pow2_pos(1074);
        }
        signed(neg, nearest_magnitude(&p, &q))
    }

    pub fn divided(self, other: Real) -> (r: Real)
        ensures
            r.bits == quotient_real(self.bits, other.bits),
    {
        let a: u64 = self.size();
        let b: u64 = other.size();
        let neg: bool = self.is_negative() != other.is_negative();
        if a > INFINITE || b > INFINITE || (a == INFINITE && b == INFINITE) || (a == 0 && b == 0) {
            return Real { bits: NOT_A_NUMBER };
        }
        if a == INFINITE || b == 0 {
            return signed(neg, INFINITE);
        }
        if b == INFINITE {
            return signed(neg, 0);
        }
        let p = units_natural(a).shifted(1074);
        let q = units_natural(b);
        proof {
            lemma_units_zero(b as nat);
        }
        signed(neg, nearest_magnitude(&p, &q))
    }

    pub fn remainder(self, other: Real) -> (r: Real)
        ensures
            r.bits == remainder_real(self.bits, other.bits),
    {
        let a: u64 = self.size();
        let b: u64 = other.size();
        if a > INFINITE || b > INFINITE || a == INFINITE || b == 0 {
            return Real { bits: NOT_A_NUMBER };
        }
        if b == INFINITE {
            return self;
        }
        proof {
            lemma_units_zero(b as nat);
        }
        let p = natural_remainder(&units_natural(a), &units_natural(b));
        let q = Natural::from_word(1);
        signed(self.is_negative(), nearest_magnitude(&p, &q))
    }

    pub fn whole(self) -> (r: bool)
        ensures
            r == is_whole(self.bits),
    {
        let a: u64 = self.size();
        if a >= INFINITE {
            return false;
        }
        let q = one_natural();
        proof {
            lemma_pow2_pos(1074);
        }
        natural_remainder(&units_natural(a), &q).is_zero()
    }

    pub fn saturate(self) -> (r: i64)
        ensures
            r == saturated(self.bits),
    {
        let a: u64 = self.size();
        if a > INFINITE {
            return 0;
        }
        let q = one_natural();
        proof {
            lemma_pow2_pos(1074);
        }
        match natural_quotient(&units_natural(a), &q) {
            None => if self.is_negative() {
                i64::MIN
            } else {
                i64::MAX
            },
            Some(n) => if self.is_negative() {
                if n > 0x7fff_ffff_ffff_ffff {
                    i64::MIN
                } else {
                    -(n as i64)
                }
            } else {
                if n > 0x7fff_ffff_ffff_ffff {
                    i64::MAX
                } else {
                    n as i64
                }
            },
        }
    }

    pub fn round(self) -> (r: Real)
        ensures
            r.bits == round_whole(self.bits),
    {
        let a: u64 = self.size();
        if a >= INFINITE {
            return self;
        }
        let u = units_natural(a);
        let unit = one_natural();
        let q = unit.plus(&unit);
        let p = u.plus(&u).plus(&unit);
        proof {
            lemma_pow2_pos(1074);
        }
        let rest = natural_remainder(&p, &q);
        proof {
            lemma_fundamental_div_mod(p@ as int, q@ as int);
            lemma_mod_bound(p@ as int, q@ as int);
            let d = p@ as int / q@ as int;
            assert(q@ * d == 2 * (d * one())) by (nonlinear_arith)
                requires
                    q@ == 2 * one(),
            ;
            lemma_div_pos_is_pos(p@ as int, q@ as int);
        }
        // The whole part, doubled.
        let twice = p.minus(&rest);
        let two = Natural::from_word(2);
        proof {
            lemma_halved(((p@ as int / q@ as int) * one()) as nat);
        }
        signed(self.is_negative(), nearest_magnitude(&twice, &two))
    }

    pub fn same(self, other: Real) -> (r: bool)
        ensures
            r == same_real(self.bits, other.bits),
    {
        let a: u64 = self.size();
        let b: u64 = other.size();
        proof {
            lemma_units_zero(a as nat);
            lemma_units_zero(b as nat);
            if a < b {
                lemma_units_increase(a as nat, b as nat);
            } else if b < a {
                lemma_units_increase(b as nat, a as nat);
            }
        }
        a <= INFINITE && b <= INFINITE && a == b && (a == 0 || self.is_negative()
            == other.is_negative())
    }

    /// Whether `self` stands at or below `other`.
    pub fn at_most(self, other: Real) -> (r: bool)
        ensures
            r == (position(self.bits) <= position(other.bits)),
    {
        let a: u64 = self.size();
        let b: u64 = other.size();
        proof {
            lemma_units_zero(a as nat);
            lemma_units_zero(b as nat);
            if a < b {
                lemma_units_increase(a as nat, b as nat);
            } else if b < a {
                lemma_units_increase(b as nat, a as nat);
            }
            if a < INFINITE {
                lemma_units_increase(a as nat, INFINITE as nat);
            }
            if b < INFINITE {
                lemma_units_increase(b as nat, INFINITE as nat);
            }
        }
        if b > INFINITE {
            true
        } else if a > INFINITE {
            false
        } else if self.is_negative() {
            if other.is_negative() {
                b <= a
            } else {
                true
            }
        } else {
            if other.is_negative() {
                a == 0 && b == 0
            } else {
                a <= b
            }
        }
    }

    /// Whether `self` stands at or below the integer `i`.
    pub fn at_most_int(self, i: i64) -> (r: bool)
        ensures
            r == (position(self.bits) <= int_position(i as int)),
    {
        let a: u64 = self.size();
        let p = Natural::from_word(int_size(i)).shifted(1074);
        proof {
            lemma_int_below_infinite(i);
            lemma_int_signs(i);
        }
        if a > INFINITE {
            false
        } else {
            let u = units_natural(a);
            if self.is_negative() {
                i >= 0 || p.at_most(&u)
            } else {
                i >= 0 && u.at_most(&p)
            }
        }
    }

    /// Whether the integer `i` stands at or below `self`.
    pub fn at_least_int(self, i: i64) -> (r: bool)
        ensures
            r == (int_position(i as int) <= position(self.bits)),
    {
        let a: u64 = self.size();
        let p = Natural::from_word(int_size(i)).shifted(1074);
        proof {
            lemma_int_below_infinite(i);
            lemma_int_signs(i);
            lemma_units_zero(a as nat);
        }
        if a > INFINITE {
            true
        } else {
            let u = units_natural(a);
            if self.is_negative() {
                (i <= 0 && u.at_most(&p))
            } else {
                i <= 0 || p.at_most(&u)
            }
        }
    }

    /// Ten to the power `n`.
    fn power_of_ten(n: i32) -> (r: Real)
        ensures
            r.bits == ten_power(n as int),
    {
        let mut r = Real { bits: REAL_ONE };
        let mut a = Real { bits: REAL_TEN };
        let mut k: u32 = if n >= 0 {
            n as u32
        } else {
            (-(n as i64)) as u32
        };
        let ghost whole = k as nat;
        while k > 0
            invariant
                power_loop(r.bits, a.bits, k as nat) == power_loop(REAL_ONE, REAL_TEN, whole),
            decreases k,
        {
            if k % 2 == 1 {
                r = r.times(a);
            }
            k = k / 2;
            if k > 0 {
                a = a.times(a);
            }
        }
        if n >= 0 {
            r
        } else {
            (Real { bits: REAL_ONE }).divided(r)
        }
    }

    /// The double rounded to `places` decimal places.
    pub fn round_to(self, places: i32) -> (r: Real)
        ensures
            r.bits == round_places(self.bits, places as int),
    {
        let scale = Real::power_of_ten(places);
        self.times(scale).round().divided(scale)
    }
}

proof fn lemma_halved(n: nat)
    ensures
        nearest(2 * n, 2) == nearest(n, 1),
{
    lemma_halved_floor(n, INFINITE as nat);
    let m = floor_magnitude(n, 1, INFINITE as nat);
    let s = units(m) + units(m + 1);
    assert(s * 2 == 2 * (s * 1)) by (nonlinear_arith);
}

proof fn lemma_halved_floor(n: nat, hi: nat)
    ensures
        floor_magnitude(2 * n, 2, hi) == floor_magnitude(n, 1, hi),
    decreases hi,
{
    let u = units(hi);
    assert(u * 2 == 2 * (u * 1)) by (nonlinear_arith);
    if hi > 0 {
        lemma_halved_floor(n, (hi - 1) as nat);
    }
}

/// Integers stand among all numbers in their own order.
pub proof fn lemma_int_position_order(i: int, j: int)
    ensures
        (int_position(i) < int_position(j)) == (i < j),
{
    lemma_pow2_pos(1074);
    let w1 = one() as int;
    assert((i * w1 < j * w1) == (i < j)) by (nonlinear_arith)
        requires
            w1 > 0,
    ;
}

/// Zero is the only integer whose double is zero.
pub proof fn lemma_int_real_zero(i: i64)
    ensures
        is_zero(int_real(i as int)) == (i == 0),
{
    lemma_pow2_pos(1074);
    lemma_int_signs(i);
    if i != 0 {
        let p = (if i < 0 {
            -(i * one())
        } else {
            i * one()
        }) as nat;
        let w1 = one() as int;
        assert(i > 0 ==> i * w1 >= w1) by (nonlinear_arith)
            requires
                w1 > 0,
        ;
        assert(i < 0 ==> -(i * w1) >= w1) by (nonlinear_arith)
            requires
                w1 > 0,
        ;
        lemma_nearest_positive(p);
    } else {
        assert(0 * one() == 0) by (nonlinear_arith);
    }
}

/// What is at least one unit is not rounded to zero.
proof fn lemma_nearest_positive(p: nat)
    requires
        p >= 1,
    ensures
        nearest(p, 1) > 0,
        nearest(p, 1) <= INFINITE,
{
    lemma_floor_positive(p, INFINITE as nat);
}

proof fn lemma_floor_positive(p: nat, hi: nat)
    requires
        p >= 1,
        hi >= 1,
    ensures
        1 <= floor_magnitude(p, 1, hi) <= hi,
    decreases hi,
{
    if hi > 1 {
        lemma_floor_positive(p, (hi - 1) as nat);
    } else {
        assert(units(1) == 1);
    }
}

proof fn lemma_int_signs(i: i64)
    ensures
        int_position(i as int) == (if i < 0 {
            -((-i) as nat * one())
        } else {
            (i as nat * one()) as int
        }),
        (int_position(i as int) > 0) == (i > 0),
        (int_position(i as int) < 0) == (i < 0),
{
    lemma_pow2_pos(1074);
    let w1 = one() as int;
    assert(i * w1 > 0 <==> i > 0) by (nonlinear_arith)
        requires
            w1 > 0,
    ;
    assert(i * w1 < 0 <==> i < 0) by (nonlinear_arith)
        requires
            w1 > 0,
    ;
    assert((-i) * w1 == -(i * w1)) by (nonlinear_arith);
}

proof fn lemma_int_below_infinite(i: i64)
    ensures
        int_position(i as int) < units(INFINITE as nat),
        -int_position(i as int) < units(INFINITE as nat),
{
    lemma2_to64();
    assert(INFINITE as nat / STEP as nat == 2047);
    assert(INFINITE as nat % STEP as nat == 0);
    assert(units(INFINITE as nat) == STEP as nat * pow2(2046));
    lemma_pow2_adds(1074, 972);
    lemma_pow2_pos(1074);
    lemma_pow2_strictly_increases(12, 972);
    let w1 = one() as int;
    let w = pow2(972) as int;
    assert(STEP * (w1 * w) > 0x8000_0000_0000_0000 * w1) by (nonlinear_arith)
        requires
            STEP == 0x10_0000_0000_0000,
            w1 > 0,
            w > 4096,
    ;
    assert(i * w1 <= 0x8000_0000_0000_0000 * w1 && -(i * w1) <= 0x8000_0000_0000_0000 * w1)
        by (nonlinear_arith)
        requires
            w1 > 0,
            -0x8000_0000_0000_0000 <= i <= 0x7fff_ffff_ffff_ffff,
    ;
}

/// The absolute value of `i`.
pub fn int_size(i: i64) -> (r: u64)
    ensures
        r == (if i < 0 {
            -i
        } else {
            i as int
        }),
{
    if i < 0 {
        (-(i + 1)) as u64 + 1
    } else {
        i as u64
    }
}

/// A count as a double.
pub fn real_of_count(n: usize) -> (r: Real)
    ensures
        r.bits == int_real(n as int),
{
    if n == 0 {
        assert(0 * one() == 0) by (nonlinear_arith);
        return Real { bits: 0 };
    }
    let p = Natural::from_word(n as u64).shifted(1074);
    let q = Natural::from_word(1);
    proof {
        lemma_pow2_pos(1074);
        let w1 = one() as int;
        assert(n * w1 > 0) by (nonlinear_arith)
            requires
                n > 0,
                w1 > 0,
        ;
    }
    signed(false, nearest_magnitude(&p, &q))
}

} // verus!

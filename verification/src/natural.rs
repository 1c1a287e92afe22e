//! Natural numbers of any size, as little-endian 32-bit limbs.
use vstd::arithmetic::mul::*;
use vstd::arithmetic::power::*;
use vstd::arithmetic::power2::*;
use vstd::prelude::*;

verus! {

/// The base of the limbs, two to the thirty-second power.
pub const BASE: u64 = 0x1_0000_0000;

/// The number that little-endian limbs stand for.
pub open spec fn limbs_value(s: Seq<u32>) -> nat
    decreases s.len(),
{
    if s.len() == 0 {
        0
    } else {
        limbs_value(s.drop_last()) + s.last() as nat * place(s.len() - 1)
    }
}

/// The weight of the limb at position `i`.
pub open spec fn place(i: int) -> nat {
    pow(BASE as int, i as nat) as nat
}

pub struct Natural {
    pub limbs: Vec<u32>,
}

impl View for Natural {
    type V = nat;

    open spec fn view(&self) -> nat {
        limbs_value(self.limbs@)
    }
}

pub proof fn lemma_place(i: int)
    requires
        i >= 0,
    ensures
        place(0) == 1,
        place(i) > 0,
        place(i + 1) == BASE * place(i),
{
    lemma_pow0(BASE as int);
    lemma_pow_positive(BASE as int, i as nat);
    lemma_pow_positive(BASE as int, (i + 1) as nat);
    reveal(pow);
    assert(pow(BASE as int, (i + 1) as nat) == BASE * pow(BASE as int, i as nat));
}

proof fn lemma_take_step(s: Seq<u32>, i: int)
    requires
        0 <= i < s.len(),
    ensures
        limbs_value(s.take(i + 1)) == limbs_value(s.take(i)) + s[i] as nat * place(i),
{
    assert(s.take(i + 1).drop_last() =~= s.take(i));
}

proof fn lemma_push(s: Seq<u32>, x: u32)
    ensures
        limbs_value(s.push(x)) == limbs_value(s) + x as nat * place(s.len() as int),
{
    assert(s.push(x).drop_last() =~= s);
}

proof fn lemma_below(s: Seq<u32>)
    ensures
        limbs_value(s) < place(s.len() as int),
    decreases s.len(),
{
    lemma_place(0);
    if s.len() > 0 {
        lemma_below(s.drop_last());
        lemma_place(s.len() - 1);
        let p = place(s.len() - 1) as int;
        let x = s.last() as int;
        assert(x * p + p <= BASE * p) by (nonlinear_arith)
            requires
                x + 1 <= BASE,
                p > 0,
        ;
    }
}

impl Natural {
    pub fn zero() -> (r: Natural)
        ensures
            r@ == 0,
    {
        Natural { limbs: Vec::new() }
    }

    pub fn from_word(x: u64) -> (r: Natural)
        ensures
            r@ == x,
    {
        let mut limbs: Vec<u32> = Vec::new();
        let lo: u32 = (x % BASE) as u32;
        let hi: u32 = (x / BASE) as u32;
        limbs.push(lo);
        limbs.push(hi);
        proof {
            lemma_place(0);
            lemma_push(Seq::<u32>::empty(), lo);
            lemma_push(Seq::<u32>::empty().push(lo), hi);
            assert(limbs@ =~= Seq::<u32>::empty().push(lo).push(hi));
            assert(place(1) == BASE);
            assert(limbs_value(Seq::<u32>::empty()) == 0);
            assert(lo as nat * place(0) == lo) by (nonlinear_arith)
                requires
                    place(0) == 1,
            ;
            assert(hi as nat * place(1) == BASE * hi) by (nonlinear_arith)
                requires
                    place(1) == BASE,
            ;
            assert(x == BASE * (x / BASE) + x % BASE);
        }
        Natural { limbs }
    }

    pub fn copy(&self) -> (r: Natural)
        ensures
            r@ == self@,
    {
        let limbs = self.limbs.clone();
        assert(limbs@ =~= self.limbs@);
        Natural { limbs }
    }

    /// `self + other`.
    pub fn plus(&self, other: &Natural) -> (r: Natural)
        ensures
            r@ == self@ + other@,
    {
        let a = &self.limbs;
        let b = &other.limbs;
        let n: usize = if a.len() < b.len() { b.len() } else { a.len() };
        let ghost pa = a@ + Seq::new((n - a@.len()) as nat, |i: int| 0u32);
        let ghost pb = b@ + Seq::new((n - b@.len()) as nat, |i: int| 0u32);
        proof {
            lemma_padded(a@, (n - a@.len()) as nat);
            lemma_padded(b@, (n - b@.len()) as nat);
            lemma_place(0);
        }
        let mut out: Vec<u32> = Vec::new();
        let mut carry: u64 = 0;
        let mut i: usize = 0;
        assert(pa.take(0) =~= Seq::<u32>::empty());
        assert(pb.take(0) =~= Seq::<u32>::empty());
        while i < n
            invariant
                i <= n,
                n == pa.len(),
                n == pb.len(),
                a.len() <= n,
                b.len() <= n,
                pa == a@ + Seq::new((n - a@.len()) as nat, |i: int| 0u32),
                pb == b@ + Seq::new((n - b@.len()) as nat, |i: int| 0u32),
                carry <= 1,
                out@.len() == i,
                limbs_value(out@) + carry * place(i as int) == limbs_value(pa.take(i as int)) + limbs_value(
                    pb.take(i as int),
                ),
            decreases n - i,
        {
            let x: u64 = if i < a.len() { a[i] as u64 } else { 0 };
            let y: u64 = if i < b.len() { b[i] as u64 } else { 0 };
            let sum: u64 = x + y + carry;
            let low: u32 = (sum % BASE) as u32;
            let next: u64 = sum / BASE;
            proof {
                assert(x == pa[i as int]);
                assert(y == pb[i as int]);
                lemma_take_step(pa, i as int);
                lemma_take_step(pb, i as int);
                lemma_push(out@, low);
                lemma_place(i as int);
                let p = place(i as int) as int;
                assert(low * p + next * (BASE * p) == x * p + y * p + carry * p) by (nonlinear_arith)
                    requires
                        low + BASE * next == x + y + carry,
                ;
            }
            out.push(low);
            carry = next;
            i = i + 1;
        }
        proof {
            assert(pa.take(n as int) =~= pa);
            assert(pb.take(n as int) =~= pb);
            lemma_push(out@, carry as u32);
        }
        out.push(carry as u32);
        Natural { limbs: out }
    }

    /// `self * m`.
    pub fn times_small(&self, m: u32) -> (r: Natural)
        ensures
            r@ == self@ * m,
    {
        let a = &self.limbs;
        let n: usize = a.len();
        let mut out: Vec<u32> = Vec::new();
        let mut carry: u64 = 0;
        let mut i: usize = 0;
        proof {
            lemma_place(0);
            assert(a@.take(0) =~= Seq::<u32>::empty());
            assert(limbs_value(a@.take(0)) * m == 0) by (nonlinear_arith)
                requires
                    limbs_value(a@.take(0)) == 0,
            ;
        }
        while i < n
            invariant
                i <= n,
                n == a@.len(),
                carry < BASE,
                out@.len() == i,
                limbs_value(out@) + carry * place(i as int) == limbs_value(a@.take(i as int)) * m,
            decreases n - i,
        {
            let x: u64 = a[i] as u64;
            assert(x * (m as u64) <= 0xffff_ffff * 0xffff_ffff) by (nonlinear_arith)
                requires
                    x <= 0xffff_ffff,
                    m <= 0xffff_ffff,
            ;
            let t: u64 = x * (m as u64) + carry;
            let low: u32 = (t % BASE) as u32;
            let next: u64 = t / BASE;
            proof {
                lemma_take_step(a@, i as int);
                lemma_push(out@, low);
                lemma_place(i as int);
                let p = place(i as int) as int;
                let v = limbs_value(a@.take(i as int)) as int;
                assert(low * p + next * (BASE * p) == (x * m) * p + carry * p) by (nonlinear_arith)
                    requires
                        low + BASE * next == x * m + carry,
                ;
                assert((v + x * p) * m == v * m + (x * m) * p) by (nonlinear_arith);
            }
            out.push(low);
            carry = next;
            i = i + 1;
        }
        proof {
            assert(a@.take(n as int) =~= a@);
            lemma_push(out@, carry as u32);
        }
        out.push(carry as u32);
        Natural { limbs: out }
    }

    /// `self * BASE`.
    fn limb_shifted(&self) -> (r: Natural)
        ensures
            r@ == BASE * self@,
    {
        let mut limbs = self.limbs.clone();
        assert(limbs@ =~= self.limbs@);
        limbs.insert(0, 0u32);
        proof {
            assert(limbs@ =~= seq![0u32] + self.limbs@);
            lemma_front(0, self.limbs@);
        }
        Natural { limbs }
    }

    /// `self * other`.
    pub fn times(&self, other: &Natural) -> (r: Natural)
        ensures
            r@ == self@ * other@,
    {
        let b = &other.limbs;
        let mut acc = Natural::zero();
        let mut i: usize = b.len();
        let ghost a = self@ as int;
        proof {
            assert(b@.subrange(i as int, b@.len() as int) =~= Seq::<u32>::empty());
            assert(a * limbs_value(Seq::<u32>::empty()) == 0) by (nonlinear_arith)
                requires
                    limbs_value(Seq::<u32>::empty()) == 0,
            ;
        }
        while i > 0
            invariant
                i <= b@.len(),
                a == self@,
                acc@ == a * limbs_value(b@.subrange(i as int, b@.len() as int)),
            decreases i,
        {
            i = i - 1;
            let part = self.times_small(b[i]);
            let shifted = acc.limb_shifted();
            proof {
                let hi = b@.subrange(i + 1, b@.len() as int);
                let all = b@.subrange(i as int, b@.len() as int);
                assert(all =~= seq![b@[i as int]] + hi);
                lemma_front(b@[i as int], hi);
                let h = limbs_value(hi) as int;
                let x = b@[i as int] as int;
                assert(a * (x + BASE * h) == a * x + BASE * (a * h)) by (nonlinear_arith);
            }
            acc = shifted.plus(&part);
        }
        assert(b@.subrange(0, b@.len() as int) =~= b@);
        acc
    }

    /// `self` times two to the power `n`.
    pub fn shifted(&self, n: u32) -> (r: Natural)
        ensures
            r@ == self@ * pow2(n as nat),
    {
        let mut acc = self.copy();
        let mut k: u32 = 0;
        proof {
            lemma2_to64();
            assert(self@ * pow2(0) == self@) by (nonlinear_arith)
                requires
                    pow2(0) == 1,
            ;
        }
        while n - k >= 32
            invariant
                k <= n,
                acc@ == self@ * pow2(k as nat),
            decreases n - k,
        {
            acc = acc.limb_shifted();
            proof {
                lemma_pow2_adds(32, k as nat);
                lemma2_to64();
                let a = self@ as int;
                let p = pow2(k as nat) as int;
                assert(BASE * (a * p) == a * (BASE * p)) by (nonlinear_arith);
            }
            k = k + 32;
        }
        let rest: u32 = n - k;
        let m: u32 = power_word(rest);
        proof {
            lemma_pow2_adds(k as nat, rest as nat);
            let a = self@ as int;
            let p = pow2(k as nat) as int;
            let q = pow2(rest as nat) as int;
            assert((a * p) * q == a * (p * q)) by (nonlinear_arith);
        }
        acc.times_small(m)
    }

    /// Whether `self <= other`.
    pub fn at_most(&self, other: &Natural) -> (r: bool)
        ensures
            r == (self@ <= other@),
    {
        let a = &self.limbs;
        let b = &other.limbs;
        let n: usize = if a.len() < b.len() { b.len() } else { a.len() };
        let ghost pa = a@ + Seq::new((n - a@.len()) as nat, |i: int| 0u32);
        let ghost pb = b@ + Seq::new((n - b@.len()) as nat, |i: int| 0u32);
        proof {
            lemma_padded(a@, (n - a@.len()) as nat);
            lemma_padded(b@, (n - b@.len()) as nat);
        }
        let mut above: bool = false;
        let mut i: usize = 0;
        assert(pa.take(0) =~= Seq::<u32>::empty());
        assert(pb.take(0) =~= Seq::<u32>::empty());
        while i < n
            invariant
                i <= n,
                n == pa.len(),
                n == pb.len(),
                a.len() <= n,
                b.len() <= n,
                pa == a@ + Seq::new((n - a@.len()) as nat, |i: int| 0u32),
                pb == b@ + Seq::new((n - b@.len()) as nat, |i: int| 0u32),
                above == (limbs_value(pa.take(i as int)) > limbs_value(pb.take(i as int))),
            decreases n - i,
        {
            let x: u32 = if i < a.len() { a[i] } else { 0 };
            let y: u32 = if i < b.len() { b[i] } else { 0 };
            proof {
                assert(x == pa[i as int]);
                assert(y == pb[i as int]);
                lemma_take_step(pa, i as int);
                lemma_take_step(pb, i as int);
                lemma_below(pa.take(i as int));
                lemma_below(pb.take(i as int));
                let p = place(i as int) as int;
                if x > y {
                    assert(x * p >= y * p + p) by (nonlinear_arith)
                        requires
                            x >= y + 1,
                            p >= 0,
                    ;
                } else if x < y {
                    assert(y * p >= x * p + p) by (nonlinear_arith)
                        requires
                            y >= x + 1,
                            p >= 0,
                    ;
                }
            }
            if x > y {
                above = true;
            } else if x < y {
                above = false;
            }
            i = i + 1;
        }
        proof {
            assert(pa.take(n as int) =~= pa);
            assert(pb.take(n as int) =~= pb);
        }
        !above
    }

    /// `self - other`.
    pub fn minus(&self, other: &Natural) -> (r: Natural)
        requires
            other@ <= self@,
        ensures
            r@ == self@ - other@,
    {
        let a = &self.limbs;
        let b = &other.limbs;
        let n: usize = if a.len() < b.len() { b.len() } else { a.len() };
        let ghost pa = a@ + Seq::new((n - a@.len()) as nat, |i: int| 0u32);
        let ghost pb = b@ + Seq::new((n - b@.len()) as nat, |i: int| 0u32);
        proof {
            lemma_padded(a@, (n - a@.len()) as nat);
            lemma_padded(b@, (n - b@.len()) as nat);
            lemma_place(0);
        }
        let mut out: Vec<u32> = Vec::new();
        let mut borrow: u64 = 0;
        let mut i: usize = 0;
        assert(pa.take(0) =~= Seq::<u32>::empty());
        assert(pb.take(0) =~= Seq::<u32>::empty());
        while i < n
            invariant
                i <= n,
                n == pa.len(),
                n == pb.len(),
                a.len() <= n,
                b.len() <= n,
                pa == a@ + Seq::new((n - a@.len()) as nat, |i: int| 0u32),
                pb == b@ + Seq::new((n - b@.len()) as nat, |i: int| 0u32),
                borrow <= 1,
                out@.len() == i,
                limbs_value(out@) + limbs_value(pb.take(i as int)) == limbs_value(pa.take(i as int))
                    + borrow * place(i as int),
            decreases n - i,
        {
            let x: u64 = if i < a.len() { a[i] as u64 } else { 0 };
            let y: u64 = if i < b.len() { b[i] as u64 } else { 0 };
            let t: u64 = BASE + x - y - borrow;
            let low: u32 = (t % BASE) as u32;
            let next: u64 = 1 - t / BASE;
            proof {
                assert(x == pa[i as int]);
                assert(y == pb[i as int]);
                lemma_take_step(pa, i as int);
                lemma_take_step(pb, i as int);
                lemma_push(out@, low);
                lemma_place(i as int);
                let p = place(i as int) as int;
                assert(low * p + y * p + borrow * p == x * p + next * (BASE * p)) by (nonlinear_arith)
                    requires
                        low + y + borrow == x + next * BASE,
                ;
            }
            out.push(low);
            borrow = next;
            i = i + 1;
        }
        proof {
            assert(pa.take(n as int) =~= pa);
            assert(pb.take(n as int) =~= pb);
            lemma_below(out@);
            lemma_place(n as int);
            if borrow == 1 {
                assert(borrow * place(n as int) == place(n as int)) by (nonlinear_arith)
                    requires
                        borrow == 1,
                ;
                assert(false);
            }
        }
        Natural { limbs: out }
    }

    pub fn is_zero(&self) -> (r: bool)
        ensures
            r == (self@ == 0),
    {
        let z = Natural::zero();
        self.at_most(&z)
    }
}

proof fn lemma_front(x: u32, s: Seq<u32>)
    ensures
        limbs_value(seq![x] + s) == x + BASE * limbs_value(s),
    decreases s.len(),
{
    lemma_place(0);
    if s.len() == 0 {
        assert(seq![x] + s =~= seq![x]);
        assert(seq![x].drop_last() =~= Seq::<u32>::empty());
        assert(limbs_value(Seq::<u32>::empty()) == 0);
        assert(x as nat * place(0) == x) by (nonlinear_arith)
            requires
                place(0) == 1,
        ;
    } else {
        let t = seq![x] + s;
        assert(t.drop_last() =~= seq![x] + s.drop_last());
        lemma_front(x, s.drop_last());
        lemma_place(s.len() - 1);
        let y = s.last() as int;
        let p = place(s.len() - 1) as int;
        let v = limbs_value(s.drop_last()) as int;
        assert(BASE * (v + y * p) == BASE * v + y * (BASE * p)) by (nonlinear_arith);
    }
}

proof fn lemma_padded(s: Seq<u32>, n: nat)
    ensures
        limbs_value(s + Seq::new(n, |i: int| 0u32)) == limbs_value(s),
    decreases n,
{
    let t = s + Seq::new(n, |i: int| 0u32);
    if n == 0 {
        assert(t =~= s);
    } else {
        lemma_padded(s, (n - 1) as nat);
        assert(t.drop_last() =~= s + Seq::new((n - 1) as nat, |i: int| 0u32));
        assert(0 * place(t.len() - 1) == 0) by (nonlinear_arith);
    }
}

/// Two to the power `n`.
fn power_word(n: u32) -> (r: u32)
    requires
        n < 32,
    ensures
        r == pow2(n as nat),
{
    let mut r: u32 = 1;
    let mut i: u32 = 0;
    proof {
        lemma2_to64();
    }
    while i < n
        invariant
            i <= n < 32,
            r == pow2(i as nat),
        decreases n - i,
    {
        proof {
            lemma_pow2_unfold((i + 1) as nat);
            lemma_pow2_strictly_increases((i + 1) as nat, 32);
            lemma2_to64();
        }
        r = r * 2;
        i = i + 1;
    }
    r
}

} // verus!

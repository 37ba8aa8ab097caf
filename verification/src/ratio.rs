//! Non-negative rational numbers for centrality scores.
//!
//! Betweenness accumulation splits credit by ratios of shortest-path
//! counts, so scores are fractions. They are kept exact as a pair of
//! unsigned integers `num / den`, reduced by the greatest common
//! divisor after every operation; an operation whose reduced result
//! does not fit in 64 bits reports `None` instead of rounding.

use vstd::prelude::*;
use vstd::arithmetic::div_mod::lemma_fundamental_div_mod;
use vstd::arithmetic::div_mod::lemma_mod_multiples_basic;
use vstd::arithmetic::div_mod::lemma_mod_self_0;
use vstd::arithmetic::div_mod::lemma_small_mod;

verus! {

/// A non-negative rational `num / den`. Well-formed when `den >= 1`,
/// so every well-formed value is `>= 0`.
#[derive(Clone, Copy, Debug)]
pub struct Ratio {
    pub num: u64,
    pub den: u64,
}

impl Ratio {
    /// A valid denominator.
    pub open spec fn wf(self) -> bool {
        self.den >= 1
    }

    /// Cross-multiplied comparison with another rational.
    pub open spec fn spec_ge(self, other: Ratio) -> bool {
        self.num * other.den >= other.num * self.den
    }

    /// The exact value zero.
    pub fn zero() -> (r: Ratio)
        ensures
            r == spec_zero(),
    {
        Ratio { num: 0, den: 1 }
    }

    /// The exact value one.
    pub fn one() -> (r: Ratio)
        ensures
            r == spec_one(),
    {
        Ratio { num: 1, den: 1 }
    }
}

pub open spec fn spec_zero() -> Ratio {
    Ratio { num: 0, den: 1 }
}

pub open spec fn spec_one() -> Ratio {
    Ratio { num: 1, den: 1 }
}

/// Every well-formed score is at least zero.
pub proof fn lemma_ratio_nonneg(r: Ratio)
    requires
        r.wf(),
    ensures
        r.spec_ge(spec_zero()),
{
}

/// Euclid's greatest common divisor.
pub open spec fn spec_gcd(a: nat, b: nat) -> nat
    decreases b,
{
    if b == 0 {
        a
    } else {
        spec_gcd(b, a % b)
    }
}

/// The gcd with a positive second argument lies between 1 and it.
pub proof fn lemma_gcd_bounds(a: nat, b: nat)
    requires
        b >= 1,
    ensures
        1 <= spec_gcd(a, b) <= b,
    decreases b,
{
    if a % b == 0 {
        assert(spec_gcd(a, b) == spec_gcd(b, 0));
    } else {
        lemma_gcd_bounds(b, a % b);
    }
}

/// The reduced form of `n / d`, if it fits in 64 bits.
pub open spec fn spec_reduce(n: int, d: int) -> Option<Ratio> {
    let g = spec_gcd(n as nat, d as nat);
    if n / (g as int) <= u64::MAX && d / (g as int) <= u64::MAX {
        Some(Ratio { num: (n / (g as int)) as u64, den: (d / (g as int)) as u64 })
    } else {
        None
    }
}

/// The reduced sum, or `None` if an intermediate or the result does not
/// fit the machine words.
pub open spec fn spec_ratio_add(a: Ratio, b: Ratio) -> Option<Ratio> {
    let n = a.num * b.den + b.num * a.den;
    let d = a.den * b.den;
    if n > u128::MAX {
        None
    } else {
        spec_reduce(n, d)
    }
}

/// The reduced product, or `None` if the result does not fit.
pub open spec fn spec_ratio_mul(a: Ratio, b: Ratio) -> Option<Ratio> {
    spec_reduce(a.num * b.num, a.den * b.den)
}

fn gcd_u128(a: u128, b: u128) -> (g: u128)
    ensures
        g == spec_gcd(a as nat, b as nat),
{
    let mut x = a;
    let mut y = b;
    while y != 0
        invariant
            spec_gcd(x as nat, y as nat) == spec_gcd(a as nat, b as nat),
        decreases y,
    {
        let t = x % y;
        x = y;
        y = t;
    }
    x
}

fn reduce_u128(n: u128, d: u128) -> (r: Option<Ratio>)
    requires
        d >= 1,
    ensures
        r == spec_reduce(n as int, d as int),
        r matches Some(v) ==> v.wf(),
{
    let g = gcd_u128(n, d);
    proof {
        lemma_gcd_bounds(n as nat, d as nat);
    }
    let n2 = n / g;
    let d2 = d / g;
    proof {
        lemma_fundamental_div_mod(d as int, g as int);
        if d2 == 0 {
            assert(d == g * 0 + d % g);
            assert(d < g);
        }
    }
    if n2 <= u64::MAX as u128 && d2 <= u64::MAX as u128 {
        Some(Ratio { num: n2 as u64, den: d2 as u64 })
    } else {
        None
    }
}

/// The exact sum of two scores, reduced; `None` on overflow.
pub fn ratio_add(a: &Ratio, b: &Ratio) -> (r: Option<Ratio>)
    requires
        a.wf(),
        b.wf(),
    ensures
        r == spec_ratio_add(*a, *b),
        r matches Some(v) ==> v.wf(),
{
    proof {
        assert(a.num * b.den <= 0xffff_ffff_ffff_ffffu64 * 0xffff_ffff_ffff_ffffu64
            && b.num * a.den <= 0xffff_ffff_ffff_ffffu64 * 0xffff_ffff_ffff_ffffu64
            && a.den * b.den <= 0xffff_ffff_ffff_ffffu64 * 0xffff_ffff_ffff_ffffu64
            && 1 * 1 <= a.den * b.den) by (nonlinear_arith)
            requires
                a.num <= 0xffff_ffff_ffff_ffffu64,
                b.num <= 0xffff_ffff_ffff_ffffu64,
                1 <= a.den <= 0xffff_ffff_ffff_ffffu64,
                1 <= b.den <= 0xffff_ffff_ffff_ffffu64,
        ;
    }
    let p1 = (a.num as u128) * (b.den as u128);
    let p2 = (b.num as u128) * (a.den as u128);
    if p1 > u128::MAX - p2 {
        return None;
    }
    let d = (a.den as u128) * (b.den as u128);
    reduce_u128(p1 + p2, d)
}

/// The exact product of two scores, reduced; `None` on overflow.
pub fn ratio_mul(a: &Ratio, b: &Ratio) -> (r: Option<Ratio>)
    requires
        a.wf(),
        b.wf(),
    ensures
        r == spec_ratio_mul(*a, *b),
        r matches Some(v) ==> v.wf(),
{
    proof {
        assert(a.num * b.num <= 0xffff_ffff_ffff_ffffu64 * 0xffff_ffff_ffff_ffffu64
            && a.den * b.den <= 0xffff_ffff_ffff_ffffu64 * 0xffff_ffff_ffff_ffffu64
            && 1 * 1 <= a.den * b.den) by (nonlinear_arith)
            requires
                a.num <= 0xffff_ffff_ffff_ffffu64,
                b.num <= 0xffff_ffff_ffff_ffffu64,
                1 <= a.den <= 0xffff_ffff_ffff_ffffu64,
                1 <= b.den <= 0xffff_ffff_ffff_ffffu64,
        ;
    }
    let n = (a.num as u128) * (b.num as u128);
    let d = (a.den as u128) * (b.den as u128);
    reduce_u128(n, d)
}

/// Whether `a >= b`, by cross multiplication.
pub fn ratio_ge(a: &Ratio, b: &Ratio) -> (r: bool)
    requires
        a.wf(),
        b.wf(),
    ensures
        r == a.spec_ge(*b),
{
    proof {
        assert(a.num * b.den <= 0xffff_ffff_ffff_ffffu64 * 0xffff_ffff_ffff_ffffu64
            && b.num * a.den <= 0xffff_ffff_ffff_ffffu64 * 0xffff_ffff_ffff_ffffu64)
            by (nonlinear_arith)
            requires
                a.num <= 0xffff_ffff_ffff_ffffu64,
                b.num <= 0xffff_ffff_ffff_ffffu64,
                a.den <= 0xffff_ffff_ffff_ffffu64,
                b.den <= 0xffff_ffff_ffff_ffffu64,
        ;
    }
    (a.num as u128) * (b.den as u128) >= (b.num as u128) * (a.den as u128)
}

/// The comparison is total: of any two scores one is at least the other.
pub proof fn lemma_ratio_ge_total(a: Ratio, b: Ratio)
    ensures
        a.spec_ge(b) || b.spec_ge(a),
{
}

/// The gcd divides both of its arguments.
pub proof fn lemma_gcd_divides(a: nat, b: nat)
    requires
        a + b >= 1,
    ensures
        spec_gcd(a, b) >= 1,
        a % spec_gcd(a, b) == 0,
        b % spec_gcd(a, b) == 0,
    decreases b,
{
    if b == 0 {
        lemma_mod_self_0(a as int);
        lemma_small_mod(0, a);
    } else {
        lemma_gcd_divides(b, a % b);
        let g = spec_gcd(b, a % b);
        lemma_fundamental_div_mod(a as int, b as int);
        lemma_fundamental_div_mod(b as int, g as int);
        lemma_fundamental_div_mod((a % b) as int, g as int);
        let q = a as int / b as int;
        let b1 = b as int / g as int;
        let r1 = (a % b) as int / g as int;
        assert(a as int == (g * b1) * q + g * r1);
        assert(a as int == g as int * (b1 * q + r1)) by (nonlinear_arith)
            requires
                a as int == (g * b1) * q + g * r1,
        ;
        lemma_mod_multiples_basic(b1 * q + r1, g as int);
    }
}

/// A reduced fraction equals the original in value: cross
/// multiplication of `spec_reduce(n, d)` with `n / d` agrees.
pub proof fn lemma_reduce_exact(n: int, d: int)
    requires
        0 <= n,
        1 <= d,
    ensures
        spec_reduce(n, d) matches Some(v) ==> v.wf() && v.num * d == n * v.den,
{
    let g = spec_gcd(n as nat, d as nat);
    lemma_gcd_divides(n as nat, d as nat);
    lemma_gcd_bounds(n as nat, d as nat);
    if spec_reduce(n, d) is Some {
        let v = spec_reduce(n, d)->0;
        lemma_fundamental_div_mod(n, g as int);
        lemma_fundamental_div_mod(d, g as int);
        assert(n == g as int * (n / g as int));
        assert(d == g as int * (d / g as int));
        vstd::arithmetic::div_mod::lemma_div_pos_is_pos(n, g as int);
        vstd::arithmetic::div_mod::lemma_div_pos_is_pos(d, g as int);
        assert(v.num == n / g as int && v.den == d / g as int);
        assert((n / g as int) * d == n * (d / g as int)) by (nonlinear_arith)
            requires
                n == g as int * (n / g as int),
                d == g as int * (d / g as int),
        ;
        if d / g as int == 0 {
            assert(d == g as int * 0);
            assert(false);
        }
        assert(d / g as int >= 1);
        assert(v.wf());
        assert(v.num == n / g as int && v.den == d / g as int);
        assert(v.num * d == n * v.den);
    }
}

/// The reduced sum equals the exact sum of the two fractions.
pub proof fn lemma_ratio_add_exact(a: Ratio, b: Ratio)
    requires
        a.wf(),
        b.wf(),
    ensures
        spec_ratio_add(a, b) matches Some(v) ==> v.wf() && v.num * (a.den * b.den) == (a.num
            * b.den + b.num * a.den) * v.den,
{
    let n = a.num * b.den + b.num * a.den;
    let d = a.den * b.den;
    assert(a.num * b.den + b.num * a.den >= 0 && a.den * b.den >= 1) by (nonlinear_arith)
        requires
            a.num >= 0,
            b.num >= 0,
            a.den >= 1,
            b.den >= 1,
    ;
    if n <= u128::MAX {
        lemma_reduce_exact(n, d);
    }
}

/// The reduced product equals the exact product of the two fractions.
pub proof fn lemma_ratio_mul_exact(a: Ratio, b: Ratio)
    requires
        a.wf(),
        b.wf(),
    ensures
        spec_ratio_mul(a, b) matches Some(v) ==> v.wf() && v.num * (a.den * b.den) == (a.num
            * b.num) * v.den,
{
    let n = a.num * b.num;
    let d = a.den * b.den;
    assert(a.num * b.num >= 0 && a.den * b.den >= 1) by (nonlinear_arith)
        requires
            a.num >= 0,
            b.num >= 0,
            a.den >= 1,
            b.den >= 1,
    ;
    lemma_reduce_exact(n, d);
}

} // verus!

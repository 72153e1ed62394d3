//! `Rational`: an exact fraction in lowest terms, with 64-bit numerator and denominator.
//!
//! Every operation returns the lowest-terms form of the exact result; `num_rational` puts
//! fractions in lowest terms and `num_integer` computes greatest common divisors.
use crate::arith::{abs, lemma_gcd_one, lcm, lemma_lcm, lemma_gcd_pos, canon, gcd, lemma_canon, lemma_reduced_unique, q_add, q_div, q_int, q_le, q_lt, q_mul, q_sub, reduced, Q};
use num_integer::Integer;
use num_rational::Ratio;
use vstd::prelude::*;

verus! {

/// Whether a fraction's numerator and denominator are representable by `Rational`.
pub open spec fn fits(q: Q) -> bool {
    i64::MIN < q.n <= i64::MAX && 0 < q.d <= i64::MAX
}

/// A fraction in lowest terms: `numer / denom` with `denom > 0`.
#[derive(Clone, Copy, Debug, PartialEq, Eq, Structural, Hash)]
pub struct Rational {
    numer: i64,
    denom: i64,
}

impl View for Rational {
    type V = Q;

    closed spec fn view(&self) -> Q {
        Q { n: self.numer as int, d: self.denom as int }
    }
}

/// The `Rational` holding `q`.
pub closed spec fn rational_spec(q: Q) -> Rational {
    Rational { numer: q.n as i64, denom: q.d as i64 }
}

/// A fraction that fits is held exactly.
pub proof fn lemma_rational_spec(q: Q)
    requires
        fits(q),
    ensures
        rational_spec(q)@ == q,
{
}

/// Calls `num_rational::Ratio::<i128>::new`, which returns `numer / denom` in lowest terms
/// with a positive denominator.  Its panics (zero denominator, and the minimum value, whose
/// absolute value the gcd cannot take) are excluded by `requires`.
#[verifier::external_body]
fn ratio_new_i128(numer: i128, denom: i128) -> (r: (i128, i128))
    requires
        denom != 0,
        numer > i128::MIN,
        denom > i128::MIN,
    ensures
        r.1 > 0,
        gcd(abs(r.0 as int) as nat, r.1 as nat) == 1,
        r.0 * denom == numer * r.1,
{
    Ratio::new(numer, denom).into_raw()
}

/// Calls `num_integer::Integer::gcd` on `i64`, which returns the non-negative greatest common
/// divisor (Stein's algorithm).  The minimum value is excluded: the crate takes its absolute
/// value.
#[verifier::external_body]
pub(crate) fn i64_gcd(a: i64, b: i64) -> (g: i64)
    requires
        a > i64::MIN,
        b > i64::MIN,
    ensures
        g == gcd(abs(a as int) as nat, abs(b as int) as nat),
{
    a.gcd(&b)
}

/// The least common multiple of two positive numbers, from their gcd.
pub(crate) fn i64_lcm(a: i64, b: i64, Ghost(m): Ghost<int>) -> (r: i64)
    requires
        a > 0,
        b > 0,
        0 < m <= i64::MAX,
        m % (a as int) == 0,
        m % (b as int) == 0,
    ensures
        r == lcm(a as nat, b as nat),
        r > 0,
        m % (r as int) == 0,
{
    let g = i64_gcd(a, b);
    proof {
        lemma_lcm(a as nat, b as nat, m);
        lemma_gcd_pos(a as nat, b as nat);
        assert((a / g) * b <= m);
    }
    (a / g) * b
}

proof fn lemma_i64_product(x: i64, y: i64)
    requires
        x > i64::MIN,
        y > i64::MIN,
    ensures
        -0x3fff_ffff_ffff_ffff_0000_0000_0000_0001 <= x * y <= 0x3fff_ffff_ffff_ffff_0000_0000_0000_0001,
{
    assert(-0x3fff_ffff_ffff_ffff_0000_0000_0000_0001 <= x * y <= 0x3fff_ffff_ffff_ffff_0000_0000_0000_0001)
        by (nonlinear_arith)
        requires
            -0x7fff_ffff_ffff_ffff <= x <= 0x7fff_ffff_ffff_ffff,
            -0x7fff_ffff_ffff_ffff <= y <= 0x7fff_ffff_ffff_ffff,
    ;
}

/// Two `Rational`s with the same value are the same.
pub proof fn lemma_view_injective(a: Rational, b: Rational)
    requires
        a@ == b@,
    ensures
        a == b,
{
}

impl Rational {
    /// Lowest terms, positive denominator, and a negatable numerator.
    pub open spec fn wf(&self) -> bool {
        reduced(self@) && fits(self@)
    }

    /// Builds the lowest-terms form of `n / d` from 128-bit parts.
    fn from_parts(n: i128, d: i128) -> (r: Rational)
        requires
            d != 0,
            n > i128::MIN,
            d > i128::MIN,
            fits(canon(n as int, d as int)),
        ensures
            r.wf(),
            r@ == canon(n as int, d as int),
    {
        let (rn, rd) = ratio_new_i128(n, d);
        proof {
            lemma_canon(n as int, d as int);
            let c = canon(n as int, d as int);
            let q = Q { n: rn as int, d: rd as int };
            assert(c.n * q.d == q.n * c.d) by (nonlinear_arith)
                requires
                    c.n * d == n * c.d,
                    rn * d == n * rd,
                    d != 0,
                    q.n == rn,
                    q.d == rd,
            ;
            lemma_reduced_unique(c, q);
        }
        Rational { numer: rn as i64, denom: rd as i64 }
    }

    /// `numer / denom` in lowest terms; `denom` is not zero.
    pub fn new(numer: i64, denom: i64) -> (r: Rational)
        requires
            denom != 0,
            numer > i64::MIN,
            denom > i64::MIN,
        ensures
            r.wf(),
            r@ == canon(numer as int, denom as int),
    {
        proof {
            lemma_canon(numer as int, denom as int);
        }
        Rational::from_parts(numer as i128, denom as i128)
    }

    /// The integer `t`.
    pub fn from_integer(t: i64) -> (r: Rational)
        requires
            t > i64::MIN,
        ensures
            r.wf(),
            r@ == q_int(t as int),
    {
        proof {
            lemma_gcd_one(abs(t as int) as nat);
        }
        Rational { numer: t, denom: 1 }
    }

    pub fn zero() -> (r: Rational)
        ensures
            r.wf(),
            r@ == q_int(0),
    {
        proof {
            lemma_gcd_one(0);
        }
        Rational { numer: 0, denom: 1 }
    }

    pub fn one() -> (r: Rational)
        ensures
            r.wf(),
            r@ == q_int(1),
    {
        proof {
            lemma_gcd_one(1);
        }
        Rational { numer: 1, denom: 1 }
    }

    pub fn numer(&self) -> (n: i64)
        ensures
            n == self@.n,
    {
        self.numer
    }

    pub fn denom(&self) -> (d: i64)
        ensures
            d == self@.d,
    {
        self.denom
    }

    /// `self + other`.
    pub fn add(self, other: Rational) -> (r: Rational)
        requires
            self.wf(),
            other.wf(),
            fits(q_add(self@, other@)),
        ensures
            r.wf(),
            r@ == q_add(self@, other@),
    {
        proof {
            lemma_i64_product(self.numer, other.denom);
            lemma_i64_product(other.numer, self.denom);
            lemma_i64_product(self.denom, other.denom);
            assert(self.denom * other.denom > 0) by (nonlinear_arith)
                requires
                    self.denom > 0,
                    other.denom > 0,
            ;
        }
        let n = (self.numer as i128) * (other.denom as i128) + (other.numer as i128) * (
        self.denom as i128);
        let d = (self.denom as i128) * (other.denom as i128);
        Rational::from_parts(n, d)
    }

    /// `self - other`.
    pub fn sub(self, other: Rational) -> (r: Rational)
        requires
            self.wf(),
            other.wf(),
            fits(q_sub(self@, other@)),
        ensures
            r.wf(),
            r@ == q_sub(self@, other@),
    {
        proof {
            lemma_i64_product(self.numer, other.denom);
            lemma_i64_product(other.numer, self.denom);
            lemma_i64_product(self.denom, other.denom);
            assert(self.denom * other.denom > 0) by (nonlinear_arith)
                requires
                    self.denom > 0,
                    other.denom > 0,
            ;
        }
        let n = (self.numer as i128) * (other.denom as i128) - (other.numer as i128) * (
        self.denom as i128);
        let d = (self.denom as i128) * (other.denom as i128);
        Rational::from_parts(n, d)
    }

    /// `self * other`.
    pub fn mul(self, other: Rational) -> (r: Rational)
        requires
            self.wf(),
            other.wf(),
            fits(q_mul(self@, other@)),
        ensures
            r.wf(),
            r@ == q_mul(self@, other@),
    {
        proof {
            lemma_i64_product(self.numer, other.numer);
            lemma_i64_product(self.denom, other.denom);
            assert(self.denom * other.denom > 0) by (nonlinear_arith)
                requires
                    self.denom > 0,
                    other.denom > 0,
            ;
        }
        let n = (self.numer as i128) * (other.numer as i128);
        let d = (self.denom as i128) * (other.denom as i128);
        Rational::from_parts(n, d)
    }

    /// `self / other`, for `other` not zero.
    pub fn div(self, other: Rational) -> (r: Rational)
        requires
            self.wf(),
            other.wf(),
            other@.n != 0,
            fits(q_div(self@, other@)),
        ensures
            r.wf(),
            r@ == q_div(self@, other@),
    {
        proof {
            lemma_i64_product(self.numer, other.denom);
            lemma_i64_product(self.denom, other.numer);
            assert(self.denom * other.numer != 0) by (nonlinear_arith)
                requires
                    self.denom > 0,
                    other.numer != 0,
            ;
        }
        let n = (self.numer as i128) * (other.denom as i128);
        let d = (self.denom as i128) * (other.numer as i128);
        Rational::from_parts(n, d)
    }

    /// `self < other`.
    pub fn lt(&self, other: &Rational) -> (b: bool)
        requires
            self.wf(),
            other.wf(),
        ensures
            b == q_lt(self@, other@),
    {
        proof {
            lemma_i64_product(self.numer, other.denom);
            lemma_i64_product(other.numer, self.denom);
        }
        (self.numer as i128) * (other.denom as i128) < (other.numer as i128) * (
        self.denom as i128)
    }

    /// `self <= other`.
    pub fn le(&self, other: &Rational) -> (b: bool)
        requires
            self.wf(),
            other.wf(),
        ensures
            b == q_le(self@, other@),
    {
        proof {
            lemma_i64_product(self.numer, other.denom);
            lemma_i64_product(other.numer, self.denom);
        }
        (self.numer as i128) * (other.denom as i128) <= (other.numer as i128) * (
        self.denom as i128)
    }

    /// `self > other`.
    pub fn gt(&self, other: &Rational) -> (b: bool)
        requires
            self.wf(),
            other.wf(),
        ensures
            b == q_lt(other@, self@),
    {
        other.lt(self)
    }

    /// `self >= other`.
    pub fn ge(&self, other: &Rational) -> (b: bool)
        requires
            self.wf(),
            other.wf(),
        ensures
            b == q_le(other@, self@),
    {
        other.le(self)
    }

    /// Numeric equality (for lowest-terms values the same as equality of the parts).
    pub fn eq(&self, other: &Rational) -> (b: bool)
        requires
            self.wf(),
            other.wf(),
        ensures
            b == (self@ == other@),
    {
        self.numer == other.numer && self.denom == other.denom
    }

    pub fn is_zero(&self) -> (b: bool)
        ensures
            b == (self@.n == 0),
    {
        self.numer == 0
    }

    pub fn is_positive(&self) -> (b: bool)
        ensures
            b == (self@.n > 0),
    {
        self.numer > 0
    }

    pub fn is_negative(&self) -> (b: bool)
        ensures
            b == (self@.n < 0),
    {
        self.numer < 0
    }

    pub fn is_one(&self) -> (b: bool)
        requires
            self.wf(),
        ensures
            b == (self@ == q_int(1)),
    {
        self.numer == 1 && self.denom == 1
    }

    /// The smaller of the two values (`self` when equal).
    pub fn min(self, other: Rational) -> (r: Rational)
        requires
            self.wf(),
            other.wf(),
        ensures
            r == (if q_le(self@, other@) {
                self
            } else {
                other
            }),
    {
        if self.le(&other) {
            self
        } else {
            other
        }
    }

    /// The integer part of a non-negative value (rounding towards zero).
    pub fn to_integer(&self) -> (i: i64)
        requires
            self.wf(),
            self@.n >= 0,
        ensures
            i == self@.n / self@.d,
    {
        self.numer / self.denom
    }
}


impl From<i64> for Rational {
    /// The integer `t` (in lowest terms, over one).
    fn from(t: i64) -> (r: Rational) {
        Rational { numer: t, denom: 1 }
    }
}

impl vstd::std_specs::convert::FromSpecImpl<i64> for Rational {
    open spec fn obeys_from_spec() -> bool {
        true
    }

    closed spec fn from_spec(t: i64) -> Rational {
        Rational { numer: t, denom: 1 }
    }
}

} // verus!

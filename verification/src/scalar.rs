//! The executable number type of the library: an exact rational held in
//! canonical form (gcd-reduced, positive denominator) over 64-bit parts.
//! Intermediate arithmetic runs in 128 bits and is therefore exact; an
//! operation whose canonical result would not fit the 64-bit parts is ruled
//! out by its precondition, which states exactly that machine limit.

use crate::arith::{gcd_nat, gcd_u128, isqrt_u128, lemma_gcd_divides};
use crate::rat::{
    canon, fits, iabs, is_canon, lemma_canon, lemma_exact_div, qabs, qmax, qmin, qmul, qneg,
    qsub, radd, rat_eq, rat_int, rat_le, rat_lt, rat_one, rat_zero, rdiv, rmul, rsub, Rat,
};
use vstd::arithmetic::div_mod::lemma_fundamental_div_mod;
use vstd::prelude::*;

verus! {

/// An exact rational scalar.
#[derive(Clone, Copy, Debug)]
pub struct Scalar {
    num: i64,
    den: i64,
}

impl View for Scalar {
    type V = Rat;

    closed spec fn view(&self) -> Rat {
        Rat { n: self.num as int, d: self.den as int }
    }
}

impl Scalar {
    /// The representation invariant: canonical form within 64-bit bounds.
    /// It holds of every scalar value; `use_type_invariant` recovers it.
    #[verifier::type_invariant]
    pub open spec fn wf(self) -> bool {
        is_canon(self@) && fits(self@)
    }

    /// The integer `n` as a scalar.
    pub fn from_int(n: i64) -> (r: Scalar)
        requires
            n > i64::MIN,
        ensures
            r@ == rat_int(n as int),
    {
        proof {
            lemma_gcd_one(iabs(n as int) as nat);
        }
        Scalar { num: n, den: 1 }
    }

    /// The rational `n / d` as a scalar; `d` must not be zero.
    pub fn from_ratio(n: i64, d: i64) -> (r: Scalar)
        requires
            d != 0,
            n > i64::MIN,
            d > i64::MIN,
        ensures
            r@.n * d == n * r@.d,
    {
        let (nn, dd): (i128, i128) = if d > 0 {
            (n as i128, d as i128)
        } else {
            (-(n as i128), -(d as i128))
        };
        proof {
            lemma_canon(nn as int, dd as int);
            assert(fits(canon(nn as int, dd as int)));
        }
        let r = reduce_pair(nn, dd);
        proof {
            let c = canon(nn as int, dd as int);
            assert(c.n * d == n * c.d) by (nonlinear_arith)
                requires
                    c.n * dd == nn * c.d,
                    (nn == n && dd == d) || (nn == -n && dd == -d),
                    dd != 0,
            ;
        }
        r
    }

    /// Zero.
    pub fn zero() -> (r: Scalar)
        ensures
            r@ == rat_zero(),
    {
        Scalar::from_int(0)
    }

    /// One.
    pub fn one() -> (r: Scalar)
        ensures
            r@ == rat_one(),
    {
        Scalar::from_int(1)
    }

    /// Exact sum.
    pub fn add(self, rhs: Scalar) -> (r: Scalar)
        requires
            fits(radd(self@, rhs@)),
        ensures
            r@ == radd(self@, rhs@),
    {
        proof {
            use_type_invariant(&self);
            use_type_invariant(&rhs);
            lemma_part_bounds(self@, rhs@);
        }
        let n = (self.num as i128) * (rhs.den as i128) + (rhs.num as i128) * (self.den as i128);
        let d = (self.den as i128) * (rhs.den as i128);
        reduce_pair(n, d)
    }

    /// Exact difference.
    pub fn sub(self, rhs: Scalar) -> (r: Scalar)
        requires
            fits(rsub(self@, rhs@)),
        ensures
            r@ == rsub(self@, rhs@),
    {
        proof {
            use_type_invariant(&self);
            use_type_invariant(&rhs);
            lemma_part_bounds(self@, rhs@);
        }
        let n = (self.num as i128) * (rhs.den as i128) - (rhs.num as i128) * (self.den as i128);
        let d = (self.den as i128) * (rhs.den as i128);
        reduce_pair(n, d)
    }

    /// Exact product.
    pub fn mul(self, rhs: Scalar) -> (r: Scalar)
        requires
            fits(rmul(self@, rhs@)),
        ensures
            r@ == rmul(self@, rhs@),
    {
        proof {
            use_type_invariant(&self);
            use_type_invariant(&rhs);
            lemma_part_bounds(self@, rhs@);
        }
        let n = (self.num as i128) * (rhs.num as i128);
        let d = (self.den as i128) * (rhs.den as i128);
        reduce_pair(n, d)
    }

    /// Exact quotient; the divisor must not be zero.
    pub fn div(self, rhs: Scalar) -> (r: Scalar)
        requires
            rhs@.n != 0,
            fits(rdiv(self@, rhs@)),
        ensures
            r@ == rdiv(self@, rhs@),
    {
        proof {
            use_type_invariant(&self);
            use_type_invariant(&rhs);
            lemma_part_bounds(self@, rhs@);
        }
        if rhs.num >= 0 {
            let n = (self.num as i128) * (rhs.den as i128);
            let d = (self.den as i128) * (rhs.num as i128);
            proof {
                assert(d > 0) by (nonlinear_arith)
                    requires
                        d == (self@.d) * (rhs@.n),
                        self@.d > 0,
                        rhs@.n > 0,
                ;
            }
            reduce_pair(n, d)
        } else {
            let n = -((self.num as i128) * (rhs.den as i128));
            let d = -((self.den as i128) * (rhs.num as i128));
            proof {
                assert(d > 0) by (nonlinear_arith)
                    requires
                        d == -((self@.d) * (rhs@.n)),
                        self@.d > 0,
                        rhs@.n < 0,
                ;
            }
            reduce_pair(n, d)
        }
    }

    /// Exact negation.
    pub fn neg(self) -> (r: Scalar)
        ensures
            r@ == qneg(self@),
    {
        proof {
            use_type_invariant(&self);
        }
        Scalar { num: -self.num, den: self.den }
    }

    /// Exact absolute value.
    pub fn abs(self) -> (r: Scalar)
        ensures
            r@ == qabs(self@),
    {
        proof {
            use_type_invariant(&self);
        }
        if self.num < 0 {
            Scalar { num: -self.num, den: self.den }
        } else {
            self
        }
    }

    /// Exact strict order.
    pub fn lt(self, rhs: Scalar) -> (r: bool)
        ensures
            r == rat_lt(self@, rhs@),
    {
        proof {
            use_type_invariant(&self);
            use_type_invariant(&rhs);
            lemma_part_bounds(self@, rhs@);
        }
        (self.num as i128) * (rhs.den as i128) < (rhs.num as i128) * (self.den as i128)
    }

    /// Exact non-strict order.
    pub fn le(self, rhs: Scalar) -> (r: bool)
        ensures
            r == rat_le(self@, rhs@),
    {
        proof {
            use_type_invariant(&self);
            use_type_invariant(&rhs);
            lemma_part_bounds(self@, rhs@);
        }
        (self.num as i128) * (rhs.den as i128) <= (rhs.num as i128) * (self.den as i128)
    }

    /// The larger of the two values.
    pub fn max(self, rhs: Scalar) -> (r: Scalar)
        ensures
            r@ == qmax(self@, rhs@),
    {
        if self.lt(rhs) {
            rhs
        } else {
            self
        }
    }

    /// The smaller of the two values.
    pub fn min(self, rhs: Scalar) -> (r: Scalar)
        ensures
            r@ == qmin(self@, rhs@),
    {
        if rhs.lt(self) {
            rhs
        } else {
            self
        }
    }

    /// The canonical numerator and denominator, for the comparison layer.
    pub(crate) fn parts(self) -> (r: (i64, i64))
        ensures
            r.0 as int == self@.n,
            r.1 as int == self@.d,
    {
        (self.num, self.den)
    }

    /// A square-root approximation from below: the result `r` is nonnegative,
    /// `r * r` never exceeds the argument, and falls short of it by at most
    /// `sqrt_err()` times the larger of one and the argument.
    pub fn sqrt_approx(self) -> (r: Scalar)
        requires
            0 <= self@.n,
        ensures
            0 <= r@.n,
            rat_le(qmul(r@, r@), self@),
            rat_le(qsub(self@, qmul(r@, r@)), qmul(crate::rat::sqrt_err(), qmax(rat_one(), self@))),
    {
        proof {
            use_type_invariant(&self);
        }
        let (n64, d64) = self.parts();
        if n64 == 0 {
            let z = Scalar::zero();
            proof {
                lemma_sqrt_zero_case(self@, z@);
            }
            return z;
        }
        let n = n64 as u128;
        let d = d64 as u128;
        proof {
            assert(1 <= n * d < 0x4000_0000_0000_0000_0000_0000_0000_0000u128) by (nonlinear_arith)
                requires
                    1 <= n < 0x8000_0000_0000_0000u128,
                    1 <= d < 0x8000_0000_0000_0000u128,
            ;
        }
        let mut m: u128 = d;
        let mut t_in: u128 = n * d;
        proof {
            assert((n * d) * d == n * (d * d)) by (nonlinear_arith);
        }
        while m <= 0x2000_0000_0000_0000 && t_in <= 0x0400_0000_0000_0000_0000_0000_0000_0000
            invariant
                1 <= n,
                1 <= d,
                1 <= m < 0x8000_0000_0000_0000u128,
                1 <= t_in < 0x4000_0000_0000_0000_0000_0000_0000_0000u128,
                t_in * d == n * (m * m),
            decreases 0x4000_0000_0000_0000_0000_0000_0000_0000u128 - t_in,
        {
            proof {
                assert((t_in * 4) * d == n * ((m * 2) * (m * 2)) && t_in * 4 > t_in)
                    by (nonlinear_arith)
                    requires
                        t_in * d == n * (m * m),
                        t_in >= 1,
                ;
            }
            m = m * 2;
            t_in = t_in * 4;
        }
        let p = isqrt_u128(t_in);
        proof {
            assert(p < 0x8000_0000_0000_0000u128) by (nonlinear_arith)
                requires
                    p * p < 0x4000_0000_0000_0000_0000_0000_0000_0000u128,
            ;
            lemma_canon(p as int, m as int);
            assert(fits(canon(p as int, m as int)));
        }
        let r = reduce_pair(p as i128, m as i128);
        proof {
            let c = canon(p as int, m as int);
            lemma_sqrt_bounds(
                self@,
                c,
                p as int,
                m as int,
                n as int,
                d as int,
                t_in as int,
            );
        }
        r
    }

    /// Whether the value is exactly zero.
    pub fn is_zero(self) -> (r: bool)
        ensures
            r == (self@.n == 0),
    {
        self.num == 0
    }
}

impl PartialEq for Scalar {
    /// Exact value equality, by cross multiplication.
    fn eq(&self, other: &Scalar) -> (r: bool) {
        let a = self.num as i128;
        let b = other.den as i128;
        let c = other.num as i128;
        let d = self.den as i128;
        proof {
            assert(iabs(a as int * b as int) <= 0x8000_0000_0000_0000 * 0x8000_0000_0000_0000
                && iabs(c as int * d as int) <= 0x8000_0000_0000_0000 * 0x8000_0000_0000_0000)
                by (nonlinear_arith)
                requires
                    iabs(a as int) <= 0x8000_0000_0000_0000,
                    iabs(b as int) <= 0x8000_0000_0000_0000,
                    iabs(c as int) <= 0x8000_0000_0000_0000,
                    iabs(d as int) <= 0x8000_0000_0000_0000,
            ;
        }
        a * b == c * d
    }
}

impl vstd::std_specs::cmp::PartialEqSpecImpl for Scalar {
    open spec fn obeys_eq_spec() -> bool {
        true
    }

    open spec fn eq_spec(&self, other: &Scalar) -> bool {
        rat_eq(self@, other@)
    }
}

/// gcd of anything with one is one.
proof fn lemma_gcd_one(a: nat)
    ensures
        gcd_nat(a, 1) == 1,
{
    lemma_fundamental_div_mod(a as int, 1);
    assert(a % 1 == 0);
    assert(gcd_nat(1, 0) == 1);
}

/// Bounds on the 128-bit intermediate products of two well-formed scalars.
pub(crate) proof fn lemma_part_bounds(a: Rat, b: Rat)
    requires
        fits(a),
        fits(b),
    ensures
        iabs(a.n * b.d) <= i64::MAX * i64::MAX,
        iabs(b.n * a.d) <= i64::MAX * i64::MAX,
        iabs(a.n * b.n) <= i64::MAX * i64::MAX,
        1 <= a.d * b.d <= i64::MAX * i64::MAX,
{
    assert(iabs(a.n * b.d) <= i64::MAX * i64::MAX && iabs(b.n * a.d) <= i64::MAX * i64::MAX
        && iabs(a.n * b.n) <= i64::MAX * i64::MAX && 1 <= a.d * b.d <= i64::MAX * i64::MAX)
        by (nonlinear_arith)
        requires
            iabs(a.n) <= i64::MAX,
            iabs(b.n) <= i64::MAX,
            1 <= a.d <= i64::MAX,
            1 <= b.d <= i64::MAX,
    ;
}

/// The square-root contract in the degenerate case of a zero argument.
proof fn lemma_sqrt_zero_case(v: Rat, z: Rat)
    requires
        v.d > 0,
        v.n == 0,
        z == rat_zero(),
    ensures
        0 <= z.n,
        rat_le(qmul(z, z), v),
        rat_le(qsub(v, qmul(z, z)), qmul(crate::rat::sqrt_err(), qmax(rat_one(), v))),
{
    let zz = qmul(z, z);
    let shortfall = qsub(v, zz);
    let bound = qmul(crate::rat::sqrt_err(), qmax(rat_one(), v));
    assert(zz.n == 0 && zz.d == 1 && rat_le(zz, v) && !rat_lt(rat_one(), v) && shortfall.n == 0
        && shortfall.d == v.d && bound.n == 1 && rat_le(shortfall, bound)) by (nonlinear_arith)
        requires
            v.d > 0,
            v.n == 0,
            z == rat_zero(),
            zz == qmul(z, z),
            shortfall == qsub(v, zz),
            bound == qmul(crate::rat::sqrt_err(), qmax(rat_one(), v)),
    ;
}

/// Transfers the integer bracketing `p * p <= t < (p + 1) * (p + 1)` of the
/// scaled argument to the rational square-root contract.
proof fn lemma_sqrt_bounds(v: Rat, c: Rat, p: int, m: int, n: int, d: int, t: int)
    requires
        v.n == n,
        v.d == d,
        n >= 1,
        d >= 1,
        1 <= m < 0x8000_0000_0000_0000,
        t >= 1,
        t * d == n * (m * m),
        p >= 0,
        p * p <= t,
        t < (p + 1) * (p + 1),
        m > 0x2000_0000_0000_0000 || t > 0x0400_0000_0000_0000_0000_0000_0000_0000,
        c.d > 0,
        c.n * m == p * c.d,
    ensures
        0 <= c.n,
        rat_le(qmul(c, c), v),
        rat_le(qsub(v, qmul(c, c)), qmul(crate::rat::sqrt_err(), qmax(rat_one(), v))),
{
    let cn = c.n;
    let cd = c.d;
    assert(0 <= cn) by (nonlinear_arith)
        requires
            cn * m == p * cd,
            p >= 0,
            m > 0,
            cd > 0,
    ;
    // Square of the value identity, and the algebraic core of both bounds.
    assert(cn * cn * (m * m) == p * p * (cd * cd)) by (nonlinear_arith)
        requires
            cn * m == p * cd,
    ;
    assert(p * p * d <= n * (m * m)) by (nonlinear_arith)
        requires
            p * p <= t,
            t * d == n * (m * m),
            d >= 1,
    ;
    // Lower bound: (cn/cd)^2 <= n/d.
    assert(cn * cn * d <= n * (cd * cd)) by (nonlinear_arith)
        requires
            cn * cn * (m * m) == p * p * (cd * cd),
            p * p * d <= n * (m * m),
            t * d == n * (m * m),
            p * p <= t,
            m >= 1,
            cd >= 1,
            d >= 1,
    ;
    assert(rat_le(qmul(c, c), v));
    // The shortfall, pulled back to the scaled integers.
    assert((n * (cd * cd) - cn * cn * d) * (m * m) == (cd * cd) * d * (t - p * p))
        by (nonlinear_arith)
        requires
            cn * cn * (m * m) == p * p * (cd * cd),
            t * d == n * (m * m),
    ;
    assert(t - p * p <= 2 * p) by (nonlinear_arith)
        requires
            t < (p + 1) * (p + 1),
    ;
    // The precision claim on the scaled integers.
    let big = if n > d {
        n
    } else {
        d
    };
    if p >= 0x1000_0000_0000_0000 {
        assert(0x1000_0000_0000_0000 * p * d <= (m * m) * big) by (nonlinear_arith)
            requires
                p >= 0x1000_0000_0000_0000,
                p * p * d <= n * (m * m),
                t * d == n * (m * m),
                p * p <= t,
                d >= 1,
                n <= big,
                m >= 1,
        ;
    } else {
        assert(m > 0x2000_0000_0000_0000) by (nonlinear_arith)
            requires
                p < 0x1000_0000_0000_0000,
                p >= 0,
                m > 0x2000_0000_0000_0000 || t > 0x0400_0000_0000_0000_0000_0000_0000_0000,
                t < (p + 1) * (p + 1),
        ;
        assert(0x1000_0000_0000_0000 * p * d <= (m * m) * big) by (nonlinear_arith)
            requires
                0 <= p < 0x1000_0000_0000_0000,
                m > 0x2000_0000_0000_0000,
                d >= 1,
                d <= big,
        ;
    }
    // Put the pieces together, by cases on whether the argument exceeds one.
    let shortfall = qsub(v, qmul(c, c));
    let bound = qmul(crate::rat::sqrt_err(), qmax(rat_one(), v));
    if rat_lt(rat_one(), v) {
        assert(d < n);
        assert(big == n);
        assert(bound.n == n && bound.d == 0x0800_0000_0000_0000 * d);
        assert(shortfall.n * bound.d <= bound.n * shortfall.d) by (nonlinear_arith)
            requires
                shortfall.n == n * (cd * cd) - cn * cn * d,
                shortfall.d == d * (cd * cd),
                bound.n == n,
                bound.d == 0x0800_0000_0000_0000 * d,
                (n * (cd * cd) - cn * cn * d) * (m * m) == (cd * cd) * d * (t - p * p),
                t - p * p <= 2 * p,
                0x1000_0000_0000_0000 * p * d <= (m * m) * n,
                m >= 1,
                cd >= 1,
                d >= 1,
                p >= 0,
        ;
    } else {
        assert(n <= d);
        assert(big == d);
        assert(bound.n == 1 && bound.d == 0x0800_0000_0000_0000);
        assert(shortfall.n * bound.d <= bound.n * shortfall.d) by (nonlinear_arith)
            requires
                shortfall.n == n * (cd * cd) - cn * cn * d,
                shortfall.d == d * (cd * cd),
                bound.n == 1,
                bound.d == 0x0800_0000_0000_0000,
                (n * (cd * cd) - cn * cn * d) * (m * m) == (cd * cd) * d * (t - p * p),
                t - p * p <= 2 * p,
                0x1000_0000_0000_0000 * p * d <= (m * m) * d,
                m >= 1,
                cd >= 1,
                d >= 1,
                p >= 0,
        ;
    }
    assert(rat_le(shortfall, bound));
}

/// Reduces an exact 128-bit pair to the canonical 64-bit scalar.
pub(crate) fn reduce_pair(n: i128, d: i128) -> (r: Scalar)
    requires
        0 < d,
        n > i128::MIN,
        fits(canon(n as int, d as int)),
    ensures
        r@ == canon(n as int, d as int),
{
    let a: u128 = if n < 0 {
        (-n) as u128
    } else {
        n as u128
    };
    let g: u128 = gcd_u128(a, d as u128);
    proof {
        lemma_gcd_divides(a as nat, d as nat);
        lemma_canon(n as int, d as int);
        lemma_exact_div(n as int, g as int);
        lemma_exact_div(d as int, g as int);
        lemma_fundamental_div_mod(a as int, g as int);
        lemma_fundamental_div_mod(d as int, g as int);
    }
    let mag = a / g;
    let dd = (d as u128) / g;
    proof {
        let c = canon(n as int, d as int);
        assert(c.n == n as int / g as int && c.d == d as int / g as int);
        assert(iabs(c.n) == mag as int && c.d == dd as int);
        if n < 0 {
            assert(c.n < 0) by (nonlinear_arith)
                requires
                    n as int == (g as int) * c.n,
                    n < 0,
                    g > 0,
            ;
        } else {
            assert(c.n >= 0) by (nonlinear_arith)
                requires
                    n as int == (g as int) * c.n,
                    n >= 0,
                    g > 0,
            ;
        }
    }
    let rn: i64 = if n < 0 {
        -(mag as i64)
    } else {
        mag as i64
    };
    Scalar { num: rn, den: dd as i64 }
}

} // verus!

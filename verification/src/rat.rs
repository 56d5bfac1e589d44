//! The mathematical model of the library's numbers: rational values held as
//! ghost numerator/denominator pairs.  Executable scalars carry the canonical
//! (gcd-reduced, positive-denominator) form of such a pair; contracts speak
//! about the pair's exact value.

use crate::arith::{gcd_nat, lemma_gcd_reduced};
use vstd::arithmetic::div_mod::{lemma_fundamental_div_mod, lemma_mod_multiples_basic};
use vstd::prelude::*;

verus! {

/// A rational value: `n / d` with `d > 0`.
pub struct Rat {
    pub n: int,
    pub d: int,
}

/// Absolute value of a ghost integer.
pub open spec fn iabs(x: int) -> int {
    if x < 0 {
        -x
    } else {
        x
    }
}

/// The two rationals denote the same value (denominators positive).
pub open spec fn rat_eq(a: Rat, b: Rat) -> bool {
    a.n * b.d == b.n * a.d
}

/// `a < b` as rational values.
pub open spec fn rat_lt(a: Rat, b: Rat) -> bool {
    a.n * b.d < b.n * a.d
}

/// `a <= b` as rational values.
pub open spec fn rat_le(a: Rat, b: Rat) -> bool {
    a.n * b.d <= b.n * a.d
}

pub open spec fn qadd(a: Rat, b: Rat) -> Rat {
    Rat { n: a.n * b.d + b.n * a.d, d: a.d * b.d }
}

pub open spec fn qsub(a: Rat, b: Rat) -> Rat {
    Rat { n: a.n * b.d - b.n * a.d, d: a.d * b.d }
}

pub open spec fn qmul(a: Rat, b: Rat) -> Rat {
    Rat { n: a.n * b.n, d: a.d * b.d }
}

/// Raw quotient `a / b`; the sign moves into the numerator when `b < 0`.
pub open spec fn qdiv(a: Rat, b: Rat) -> Rat {
    if b.n >= 0 {
        Rat { n: a.n * b.d, d: a.d * b.n }
    } else {
        Rat { n: -(a.n * b.d), d: -(a.d * b.n) }
    }
}

pub open spec fn qneg(a: Rat) -> Rat {
    Rat { n: -a.n, d: a.d }
}

pub open spec fn qabs(a: Rat) -> Rat {
    Rat { n: iabs(a.n), d: a.d }
}

pub open spec fn qmax(a: Rat, b: Rat) -> Rat {
    if rat_lt(a, b) {
        b
    } else {
        a
    }
}

pub open spec fn qmin(a: Rat, b: Rat) -> Rat {
    if rat_lt(b, a) {
        b
    } else {
        a
    }
}

pub open spec fn rat_zero() -> Rat {
    Rat { n: 0, d: 1 }
}

pub open spec fn rat_one() -> Rat {
    Rat { n: 1, d: 1 }
}

pub open spec fn rat_int(k: int) -> Rat {
    Rat { n: k, d: 1 }
}

/// The pair is in canonical form: positive denominator, coprime parts.
pub open spec fn is_canon(a: Rat) -> bool {
    a.d > 0 && gcd_nat(iabs(a.n) as nat, a.d as nat) == 1
}

/// Canonical form of `n / d` for `d > 0`: both parts divided by their gcd.
pub open spec fn canon(n: int, d: int) -> Rat {
    let g = gcd_nat(iabs(n) as nat, d as nat) as int;
    Rat { n: n / g, d: d / g }
}

/// The canonical pair fits the 64-bit scalar representation.
pub open spec fn fits(a: Rat) -> bool {
    -(i64::MAX as int) <= a.n <= i64::MAX as int && 1 <= a.d <= i64::MAX as int
}

/// Canonical addition, subtraction, multiplication, division, negation.
pub open spec fn radd(a: Rat, b: Rat) -> Rat {
    canon(qadd(a, b).n, qadd(a, b).d)
}

pub open spec fn rsub(a: Rat, b: Rat) -> Rat {
    canon(qsub(a, b).n, qsub(a, b).d)
}

pub open spec fn rmul(a: Rat, b: Rat) -> Rat {
    canon(qmul(a, b).n, qmul(a, b).d)
}

pub open spec fn rdiv(a: Rat, b: Rat) -> Rat {
    canon(qdiv(a, b).n, qdiv(a, b).d)
}

/// An exactly divisible integer divides out: `x % g == 0` gives `x == g * (x / g)`.
pub proof fn lemma_exact_div(x: int, g: int)
    requires
        g > 0,
        iabs(x) % g == 0,
    ensures
        x == g * (x / g),
        iabs(x / g) == iabs(x) / g,
{
    lemma_fundamental_div_mod(x as int, g);
    lemma_fundamental_div_mod(iabs(x), g);
    if x >= 0 {
    } else {
        let q = iabs(x) / g;
        assert(iabs(x) == g * q);
        assert(x == g * (-q)) by (nonlinear_arith)
            requires
                x == -(g * q),
        ;
        lemma_mod_multiples_basic(-q, g);
        assert(x % g == 0);
        assert(x == g * (x / g));
        assert(g * (x / g) == g * (-q));
        assert(x / g == -q) by (nonlinear_arith)
            requires
                g > 0,
                g * (x / g) == g * (-q),
        ;
    }
}

/// What `canon` yields: a canonical pair of the same value, no larger than
/// the raw pair.
pub proof fn lemma_canon(n: int, d: int)
    requires
        d > 0,
    ensures
        is_canon(canon(n, d)),
        canon(n, d).n * d == n * canon(n, d).d,
        iabs(canon(n, d).n) <= iabs(n),
        0 < canon(n, d).d <= d,
        rat_eq(canon(n, d), Rat { n, d }),
{
    let a = iabs(n) as nat;
    let b = d as nat;
    lemma_gcd_reduced(a, b);
    let g = gcd_nat(a, b) as int;
    lemma_exact_div(n, g);
    lemma_exact_div(d, g);
    let cn = n / g;
    let cd = d / g;
    lemma_fundamental_div_mod(iabs(n), g);
    lemma_fundamental_div_mod(iabs(d), g);
    assert(iabs(cn) as nat == a / (g as nat));
    assert(cd as nat == b / (g as nat));
    assert(gcd_nat(iabs(cn) as nat, cd as nat) == 1);
    assert(cd > 0) by (nonlinear_arith)
        requires
            d == g * cd,
            d > 0,
            g > 0,
    ;
    assert(cn * d == n * cd) by (nonlinear_arith)
        requires
            n == g * cn,
            d == g * cd,
    ;
    assert(iabs(cn) <= iabs(n)) by (nonlinear_arith)
        requires
            iabs(n) == g * iabs(cn),
            g >= 1,
            iabs(cn) >= 0,
    ;
    assert(cd <= d) by (nonlinear_arith)
        requires
            d == g * cd,
            g >= 1,
            cd >= 0,
    ;
}

/// A canonical pair is its own canonical form.
pub proof fn lemma_canon_id(a: Rat)
    requires
        is_canon(a),
    ensures
        canon(a.n, a.d) == a,
{
    lemma_exact_div_one(a.n);
    lemma_exact_div_one(a.d);
}

proof fn lemma_exact_div_one(x: int)
    ensures
        x / 1 == x,
{
    lemma_fundamental_div_mod(x, 1);
}

/// Two canonical pairs of equal value have equal parts only when the values
/// agree trivially; value equality is what contracts use.  This lemma links
/// value equality through `canon` back to the raw pair.
pub proof fn lemma_canon_eq(n: int, d: int, m: Rat)
    requires
        d > 0,
        m.d > 0,
    ensures
        rat_eq(canon(n, d), m) == rat_eq(Rat { n, d }, m),
{
    lemma_canon(n, d);
    let c = canon(n, d);
    assert(rat_eq(c, m) == rat_eq(Rat { n, d }, m)) by (nonlinear_arith)
        requires
            c.n * d == n * c.d,
            c.d > 0,
            d > 0,
            m.d > 0,
    ;
}

/// Value comparisons are invariant under `canon`.
pub proof fn lemma_canon_cmp(n: int, d: int, m: Rat)
    requires
        d > 0,
        m.d > 0,
    ensures
        rat_lt(canon(n, d), m) == rat_lt(Rat { n, d }, m),
        rat_lt(m, canon(n, d)) == rat_lt(m, Rat { n, d }),
{
    lemma_canon(n, d);
    let c = canon(n, d);
    assert((rat_lt(c, m) == rat_lt(Rat { n, d }, m)) && (rat_lt(m, c) == rat_lt(
        m,
        Rat { n, d },
    ))) by (nonlinear_arith)
        requires
            c.n * d == n * c.d,
            c.d > 0,
            d > 0,
            m.d > 0,
    ;
}

/// The canonical sum of the two values fits the scalar representation.
pub open spec fn add_ok(a: Rat, b: Rat) -> bool {
    fits(radd(a, b))
}

/// The canonical difference fits.
pub open spec fn sub_ok(a: Rat, b: Rat) -> bool {
    fits(rsub(a, b))
}

/// The canonical product fits.
pub open spec fn mul_ok(a: Rat, b: Rat) -> bool {
    fits(rmul(a, b))
}

/// The divisor is nonzero and the canonical quotient fits.
pub open spec fn div_ok(a: Rat, b: Rat) -> bool {
    b.n != 0 && fits(rdiv(a, b))
}

/// The guaranteed precision of the scalar square root: the square of the
/// result is below the argument by at most this fraction of the argument's
/// magnitude (or of one, for small arguments).
pub open spec fn sqrt_err() -> Rat {
    Rat { n: 1, d: 0x0800_0000_0000_0000 }
}

/// Value equality is transitive across pairs with positive denominators.
pub proof fn lemma_rat_eq_trans(a: Rat, b: Rat, c: Rat)
    requires
        a.d > 0,
        b.d > 0,
        c.d > 0,
        rat_eq(a, b),
        rat_eq(b, c),
    ensures
        rat_eq(a, c),
{
    assert(rat_eq(a, c)) by (nonlinear_arith)
        requires
            a.d > 0,
            b.d > 0,
            c.d > 0,
            a.n * b.d == b.n * a.d,
            b.n * c.d == c.n * b.d,
    ;
}

/// Sums and products of equal values are equal.
#[verifier::rlimit(60)]
pub proof fn lemma_rat_eq_congruence(a: Rat, b: Rat, a2: Rat, b2: Rat)
    requires
        a.d > 0,
        b.d > 0,
        a2.d > 0,
        b2.d > 0,
        rat_eq(a, a2),
        rat_eq(b, b2),
    ensures
        rat_eq(qadd(a, b), qadd(a2, b2)),
        rat_eq(qsub(a, b), qsub(a2, b2)),
        rat_eq(qmul(a, b), qmul(a2, b2)),
{
    let an = a.n;
    let ad = a.d;
    let bn = b.n;
    let bd = b.d;
    let xn = a2.n;
    let xd = a2.d;
    let yn = b2.n;
    let yd = b2.d;
    vstd::arithmetic::mul::lemma_mul_is_distributive_add_other_way(
        xd * yd,
        an * bd,
        bn * ad,
    );
    vstd::arithmetic::mul::lemma_mul_is_distributive_sub_other_way(
        xd * yd,
        an * bd,
        bn * ad,
    );
    assert((an * bd) * (xd * yd) == (an * xd) * (bd * yd)) by (nonlinear_arith);
    assert((bn * ad) * (xd * yd) == (bn * yd) * (ad * xd)) by (nonlinear_arith);
    assert((an * xd) * (bd * yd) == (xn * ad) * (bd * yd));
    assert((bn * yd) * (ad * xd) == (yn * bd) * (ad * xd));
    assert((xn * ad) * (bd * yd) == (xn * yd) * (ad * bd)) by (nonlinear_arith);
    assert((yn * bd) * (ad * xd) == (yn * xd) * (ad * bd)) by (nonlinear_arith);
    vstd::arithmetic::mul::lemma_mul_is_distributive_add_other_way(
        ad * bd,
        xn * yd,
        yn * xd,
    );
    vstd::arithmetic::mul::lemma_mul_is_distributive_sub_other_way(
        ad * bd,
        xn * yd,
        yn * xd,
    );
    assert(rat_eq(qadd(a, b), qadd(a2, b2)));
    assert(rat_eq(qsub(a, b), qsub(a2, b2)));
    assert(rat_eq(qmul(a, b), qmul(a2, b2))) by (nonlinear_arith)
        requires
            a.d > 0,
            b.d > 0,
            a2.d > 0,
            b2.d > 0,
            a.n * a2.d == a2.n * a.d,
            b.n * b2.d == b2.n * b.d,
    ;
}

/// Order predicates see only the value, never the representation.
pub proof fn lemma_rat_eq_order(a: Rat, a2: Rat, b: Rat)
    requires
        a.d > 0,
        a2.d > 0,
        b.d > 0,
        rat_eq(a, a2),
    ensures
        rat_lt(a, b) == rat_lt(a2, b),
        rat_lt(b, a) == rat_lt(b, a2),
        rat_le(a, b) == rat_le(a2, b),
        rat_le(b, a) == rat_le(b, a2),
        rat_eq(a, b) == rat_eq(a2, b),
{
    assert((rat_lt(a, b) == rat_lt(a2, b)) && (rat_lt(b, a) == rat_lt(b, a2)) && (rat_le(a, b)
        == rat_le(a2, b)) && (rat_le(b, a) == rat_le(b, a2)) && (rat_eq(a, b) == rat_eq(a2, b)))
        by (nonlinear_arith)
        requires
            a.d > 0,
            a2.d > 0,
            b.d > 0,
            a.n * a2.d == a2.n * a.d,
    ;
}

/// Canonical binary operations denote the same values as the raw ones.
pub proof fn lemma_rop_values(a: Rat, b: Rat)
    requires
        a.d > 0,
        b.d > 0,
    ensures
        radd(a, b).d > 0,
        rsub(a, b).d > 0,
        rmul(a, b).d > 0,
        qadd(a, b).d > 0,
        qsub(a, b).d > 0,
        qmul(a, b).d > 0,
        rat_eq(radd(a, b), qadd(a, b)),
        rat_eq(rsub(a, b), qsub(a, b)),
        rat_eq(rmul(a, b), qmul(a, b)),
{
    assert(a.d * b.d > 0) by (nonlinear_arith)
        requires
            a.d > 0,
            b.d > 0,
    ;
    lemma_canon(qadd(a, b).n, qadd(a, b).d);
    lemma_canon(qsub(a, b).n, qsub(a, b).d);
    lemma_canon(qmul(a, b).n, qmul(a, b).d);
}

/// Transitivity of the value order across three fractions.
pub proof fn lemma_rat_trans(a: Rat, b: Rat, c: Rat)
    requires
        a.d > 0,
        b.d > 0,
        c.d > 0,
    ensures
        rat_lt(a, b) && rat_le(b, c) ==> rat_lt(a, c),
        rat_le(a, b) && rat_lt(b, c) ==> rat_lt(a, c),
        rat_le(a, b) && rat_le(b, c) ==> rat_le(a, c),
{
    assert((rat_lt(a, b) && rat_le(b, c) ==> rat_lt(a, c)) && (rat_le(a, b) && rat_lt(b, c)
        ==> rat_lt(a, c)) && (rat_le(a, b) && rat_le(b, c) ==> rat_le(a, c)))
        by (nonlinear_arith)
        requires
            a.d > 0,
            b.d > 0,
            c.d > 0,
    ;
}

/// Multiplying both sides by a nonnegative value keeps the order.
pub proof fn lemma_rat_mul_le(a: Rat, b: Rat, m: Rat)
    requires
        a.d > 0,
        b.d > 0,
        m.d > 0,
        rat_le(a, b),
        rat_le(rat_zero(), m),
    ensures
        rat_le(qmul(a, m), qmul(b, m)),
{
    assert(rat_le(qmul(a, m), qmul(b, m))) by (nonlinear_arith)
        requires
            a.d > 0,
            b.d > 0,
            m.d > 0,
            a.n * b.d <= b.n * a.d,
            0 <= m.n,
    ;
}

} // verus!

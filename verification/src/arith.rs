//! Integer helpers underneath the rational scalar type: greatest common
//! divisor, integer square root, and an overflow-free comparison of two
//! fractions held as 128-bit numerator/denominator pairs.

use vstd::arithmetic::div_mod::{
    lemma_add_mod_noop, lemma_fundamental_div_mod, lemma_mod_self_0, lemma_mul_mod_noop_right,
    lemma_sub_mod_noop,
};
use vstd::arithmetic::mul::lemma_mul_is_commutative;
use vstd::prelude::*;

verus! {

/// Greatest common divisor by Euclid's algorithm.
pub open spec fn gcd_nat(a: nat, b: nat) -> nat
    decreases b,
{
    if b == 0 {
        a
    } else {
        gcd_nat(b, a % b)
    }
}

/// `d` divides `x`.
pub open spec fn divides(d: nat, x: nat) -> bool {
    d != 0 && x % d == 0
}

/// A common divisor also divides `x + k * y`.
proof fn lemma_divides_combo(x: nat, y: nat, k: nat, d: nat)
    requires
        divides(d, x),
        divides(d, y),
    ensures
        (x + k * y) % d == 0,
{
    lemma_mul_mod_noop_right(k as int, y as int, d as int);
    assert(k as int * (y as int % d as int) == 0);
    lemma_mod_self_0(d as int);
    lemma_add_mod_noop(x as int, (k * y) as int, d as int);
}

/// The gcd divides both of its arguments.
pub proof fn lemma_gcd_divides(a: nat, b: nat)
    requires
        a > 0 || b > 0,
    ensures
        gcd_nat(a, b) > 0,
        a % gcd_nat(a, b) == 0,
        b % gcd_nat(a, b) == 0,
    decreases b,
{
    let g = gcd_nat(a, b);
    if b == 0 {
        lemma_mod_self_0(a as int);
    } else {
        let r = a % b;
        lemma_gcd_divides(b, r);
        lemma_fundamental_div_mod(a as int, b as int);
        if r == 0 {
            assert(g == gcd_nat(b, 0));
            assert(a == b * (a / b));
            lemma_mul_mod_noop_right((a / b) as int, b as int, g as int);
            lemma_mul_is_commutative((a / b) as int, b as int);
        } else {
            lemma_divides_combo(r, b, a / b, g);
            assert(r + (a / b) * b == a) by {
                lemma_mul_is_commutative((a / b) as int, b as int);
            }
        }
    }
}

/// Any common divisor of `a` and `b` divides their gcd.
pub proof fn lemma_gcd_greatest(a: nat, b: nat, d: nat)
    requires
        divides(d, a),
        divides(d, b),
    ensures
        gcd_nat(a, b) % d == 0,
    decreases b,
{
    if b == 0 {
    } else {
        let q = a / b;
        let r = a % b;
        lemma_fundamental_div_mod(a as int, b as int);
        assert((b * q) % d == 0) by {
            lemma_mul_mod_noop_right(q as int, b as int, d as int);
            lemma_mul_is_commutative(q as int, b as int);
        }
        assert(r % d == 0) by {
            lemma_sub_mod_noop(a as int, (b * q) as int, d as int);
        }
        lemma_gcd_greatest(b, r, d);
    }
}

/// Dividing two numbers by their gcd leaves a coprime pair.
pub proof fn lemma_gcd_reduced(a: nat, b: nat)
    requires
        a > 0 || b > 0,
    ensures
        gcd_nat(a, b) > 0,
        a % gcd_nat(a, b) == 0,
        b % gcd_nat(a, b) == 0,
        gcd_nat(a / gcd_nat(a, b), b / gcd_nat(a, b)) == 1,
{
    let g = gcd_nat(a, b);
    lemma_gcd_divides(a, b);
    let a1 = a / g;
    let b1 = b / g;
    lemma_fundamental_div_mod(a as int, g as int);
    lemma_fundamental_div_mod(b as int, g as int);
    assert(a == g * a1);
    assert(b == g * b1);
    if a1 > 0 || b1 > 0 {
        let k = gcd_nat(a1, b1);
        lemma_gcd_divides(a1, b1);
        lemma_fundamental_div_mod(a1 as int, k as int);
        lemma_fundamental_div_mod(b1 as int, k as int);
        let a2 = a1 / k;
        let b2 = b1 / k;
        assert(a1 == k * a2);
        assert(b1 == k * b2);
        // k * g divides both a and b, hence divides g; so k == 1.
        assert(a == (k * g) * a2) by (nonlinear_arith)
            requires
                a == g * a1,
                a1 == k * a2,
        ;
        assert(b == (k * g) * b2) by (nonlinear_arith)
            requires
                b == g * b1,
                b1 == k * b2,
        ;
        assert(k * g > 0) by (nonlinear_arith)
            requires
                k > 0,
                g > 0,
        ;
        lemma_mul_divides(k * g, a2, a);
        lemma_mul_divides(k * g, b2, b);
        lemma_gcd_greatest(a, b, k * g);
        lemma_divisor_le(k * g, g);
        assert(k == 1) by (nonlinear_arith)
            requires
                k * g <= g,
                k > 0,
                g > 0,
        ;
    } else {
        assert(a == 0) by (nonlinear_arith)
            requires
                a == g * a1,
                a1 == 0,
        ;
        assert(b == 0) by (nonlinear_arith)
            requires
                b == g * b1,
                b1 == 0,
        ;
        assert(false);
    }
}

proof fn lemma_mul_assoc_three(x: int, y: int, z: int)
    ensures
        x * (y * z) == (x * y) * z,
{
    vstd::arithmetic::mul::lemma_mul_is_associative(x, y, z);
}

/// If `x == d * q` with `d > 0`, then `d` divides `x`.
pub(crate) proof fn lemma_mul_divides(d: nat, q: nat, x: nat)
    requires
        d > 0,
        x == d * q,
    ensures
        x % d == 0,
    decreases q,
{
    vstd::arithmetic::div_mod::lemma_mod_multiples_basic(q as int, d as int);
    lemma_mul_is_commutative(d as int, q as int);
}

/// A positive divisor of a positive number is no larger than it.
proof fn lemma_divisor_le(d: nat, x: nat)
    requires
        d > 0,
        x > 0,
        x % d == 0,
    ensures
        d <= x,
{
    lemma_fundamental_div_mod(x as int, d as int);
    let q = x / d;
    assert(x == d * q);
    if q == 0 {
        assert(x == 0) by (nonlinear_arith)
            requires
                x == d * q,
                q == 0,
        ;
    } else {
        assert(d * q >= d) by (nonlinear_arith)
            requires
                q >= 1,
                d >= 0,
        ;
    }
}

/// `k >= 1` implies `k * g >= g` for `g >= 0`.
proof fn lemma_mul_ordering_general(k: int, g: int) by (nonlinear_arith)
    requires
        k >= 1,
        g >= 0,
    ensures
        k * g >= g,
{
}

/// Euclid's algorithm, executable.
pub fn gcd_u128(a: u128, b: u128) -> (g: u128)
    requires
        a > 0 || b > 0,
    ensures
        g == gcd_nat(a as nat, b as nat),
        g > 0,
{
    let mut x = a;
    let mut y = b;
    while y != 0
        invariant
            x > 0 || y > 0,
            gcd_nat(x as nat, y as nat) == gcd_nat(a as nat, b as nat),
        decreases y,
    {
        let r = x % y;
        x = y;
        y = r;
    }
    proof {
        lemma_gcd_divides(a as nat, b as nat);
    }
    x
}

/// Floor of the square root, executable, by bisection.
pub fn isqrt_u128(n: u128) -> (r: u128)
    ensures
        r * r <= n,
        n < (r + 1) * (r + 1),
{
    let mut lo: u128 = 0;
    let mut hi: u128 = 0xffff_ffff_ffff_ffff;
    if n < hi {
        hi = n;
    }
    proof {
        assert((hi + 1) * (hi + 1) > n) by (nonlinear_arith)
            requires
                hi == 0xffff_ffff_ffff_ffffu128 || hi == n,
                n >= hi,
                n <= 0xffff_ffff_ffff_ffff_ffff_ffff_ffff_ffffu128,
        ;
    }
    while lo < hi
        invariant
            lo <= hi,
            hi <= 0xffff_ffff_ffff_ffff,
            lo * lo <= n,
            n < (hi + 1) * (hi + 1),
        decreases hi - lo,
    {
        let mid = lo + (hi - lo + 1) / 2;
        assert(lo < mid <= hi);
        proof {
            assert(mid * mid <= 0xffff_ffff_ffff_ffffu128 * 0xffff_ffff_ffff_ffffu128)
                by (nonlinear_arith)
                requires
                    0 <= mid <= 0xffff_ffff_ffff_ffffu128,
            ;
        }
        if mid * mid <= n {
            lo = mid;
        } else {
            hi = mid - 1;
        }
    }
    lo
}

/// Compares `an / ad` against `bn / bd` for nonnegative fractions without
/// forming the cross products, Euclid style.
fn frac_lt_nonneg(an: u128, ad: u128, bn: u128, bd: u128) -> (r: bool)
    requires
        ad > 0,
        bd > 0,
    ensures
        r == (an * bd < bn * ad),
    decreases ad + bd,
{
    let qa = an / ad;
    let qb = bn / bd;
    let ra = an % ad;
    let rb = bn % bd;
    proof {
        lemma_fundamental_div_mod(an as int, ad as int);
        lemma_fundamental_div_mod(bn as int, bd as int);
        lemma_frac_cmp_step(qa as int, ra as int, ad as int, qb as int, rb as int, bd as int);
    }
    if qa != qb {
        qa < qb
    } else if rb == 0 {
        proof {
            assert(!(ra * bd < rb * ad)) by (nonlinear_arith)
                requires
                    ra >= 0,
                    bd > 0,
                    rb == 0,
            ;
        }
        false
    } else if ra == 0 {
        proof {
            assert(ra * bd < rb * ad) by (nonlinear_arith)
                requires
                    ra == 0,
                    rb > 0,
                    ad > 0,
            ;
        }
        true
    } else {
        let sub = frac_lt_nonneg(bd, rb, ad, ra);
        proof {
            assert((bd * ra < ad * rb) == (ra * bd < rb * ad)) by (nonlinear_arith);
        }
        sub
    }
}

proof fn lemma_frac_cmp_step(qa: int, ra: int, ad: int, qb: int, rb: int, bd: int) by (nonlinear_arith)
    requires
        ad > 0,
        bd > 0,
        0 <= ra < ad,
        0 <= rb < bd,
    ensures
        qa < qb ==> (ad * qa + ra) * bd < (bd * qb + rb) * ad,
        qa > qb ==> (ad * qa + ra) * bd > (bd * qb + rb) * ad,
        qa == qb ==> (((ad * qa + ra) * bd < (bd * qb + rb) * ad) <==> ra * bd < rb * ad),
{
}

/// Exact `an / ad < bn / bd` on signed 128-bit fractions.
pub fn frac_lt(an: i128, ad: i128, bn: i128, bd: i128) -> (r: bool)
    requires
        ad > 0,
        bd > 0,
        an > i128::MIN,
        bn > i128::MIN,
    ensures
        r == (an * bd < bn * ad),
{
    if an < 0 && bn >= 0 {
        proof {
            assert(an * bd < 0 && bn * ad >= 0) by (nonlinear_arith)
                requires
                    an < 0,
                    bn >= 0,
                    ad > 0,
                    bd > 0,
            ;
        }
        true
    } else if an >= 0 && bn < 0 {
        proof {
            assert(an * bd >= 0 && bn * ad < 0) by (nonlinear_arith)
                requires
                    an >= 0,
                    bn < 0,
                    ad > 0,
                    bd > 0,
            ;
        }
        false
    } else if an >= 0 {
        frac_lt_nonneg(an as u128, ad as u128, bn as u128, bd as u128)
    } else {
        let r = frac_lt_nonneg((-bn) as u128, bd as u128, (-an) as u128, ad as u128);
        proof {
            assert(((-bn) * ad < (-an) * bd) == (an * bd < bn * ad)) by (nonlinear_arith);
        }
        r
    }
}

/// Exact `an / ad <= bn / bd` on signed 128-bit fractions.
pub fn frac_le(an: i128, ad: i128, bn: i128, bd: i128) -> (r: bool)
    requires
        ad > 0,
        bd > 0,
        an > i128::MIN,
        bn > i128::MIN,
    ensures
        r == (an * bd <= bn * ad),
{
    !frac_lt(bn, bd, an, ad)
}

} // verus!

//! The tiered tolerance policy.  Two finite values compare equal when their
//! difference stays under a threshold: the tier's constant outright while the
//! larger magnitude is below one, and otherwise the larger of the constant
//! and the constant scaled by that magnitude.  A value that is not a number
//! never equals anything, and an infinite value never equals anything either
//! — infinity is a "no result" sentinel here, not a coordinate.

use crate::rat::{
    qabs, qmax, qmul, qsub, rat_eq, rat_le, rat_lt, rat_one, rat_zero, lemma_rat_mul_le,
    lemma_rat_trans, Rat,
};
use crate::scalar::{lemma_part_bounds, Scalar};
use crate::arith::frac_lt;
use vstd::prelude::*;

verus! {

/// The named precision levels, coarse to tight.
#[derive(Clone, Copy, Debug, PartialEq, Eq, Structural)]
pub enum EpsilonTier {
    /// Loose bounding checks: one part in a thousand.
    Coarse,
    /// Ray-surface intersection work, where error accumulates.
    Intersect,
    /// The default tier; value equality on every geometric type.
    Standard,
    /// High-precision comparisons and singularity tests.
    Tight,
}

/// The tier's threshold constant as a rational.
pub open spec fn tier_eps(t: EpsilonTier) -> Rat {
    match t {
        EpsilonTier::Coarse => Rat { n: 1, d: 1000 },
        EpsilonTier::Intersect => Rat { n: 1, d: 10000 },
        EpsilonTier::Standard => Rat { n: 1, d: 100000 },
        EpsilonTier::Tight => Rat { n: 1, d: 1000000000 },
    }
}

impl EpsilonTier {
    /// The threshold constant, executable.
    pub fn value(self) -> (e: Scalar)
        ensures
            e@ == tier_eps(self),
    {
        let d: i64 = match self {
            EpsilonTier::Coarse => 1000,
            EpsilonTier::Intersect => 10000,
            EpsilonTier::Standard => 100000,
            EpsilonTier::Tight => 1000000000,
        };
        let e = Scalar::from_ratio(1, d);
        proof {
            use_type_invariant(&e);
            lemma_unit_fraction(e@, d as int);
        }
        e
    }
}

/// A canonical pair equal in value to `1 / d` is exactly `1 / d`.
proof fn lemma_unit_fraction(a: Rat, d: int)
    requires
        d > 0,
        crate::rat::is_canon(a),
        a.n * d == 1 * a.d,
    ensures
        a == (Rat { n: 1, d }),
{
    assert(a.n * d == a.d);
    assert(a.n >= 1) by (nonlinear_arith)
        requires
            a.n * d == a.d,
            a.d > 0,
            d > 0,
    ;
    let nn = a.n as nat;
    vstd::arithmetic::div_mod::lemma_mod_self_0(a.n);
    crate::arith::lemma_mul_divides(nn, d as nat, a.d as nat);
    crate::arith::lemma_gcd_greatest(nn, a.d as nat, nn);
    assert(crate::rat::iabs(a.n) == a.n);
    assert(1nat % nn == 0);
    if nn > 1 {
        vstd::arithmetic::div_mod::lemma_small_mod(1nat, nn);
        assert(false);
    }
    assert(a.n == 1);
    assert(a.d == 1 * d) by (nonlinear_arith)
        requires
            a.n * d == a.d,
            a.n == 1,
    ;
}

/// The comparison policy on finite values, with an explicit threshold.
pub open spec fn approx_spec(a: Rat, b: Rat, eps: Rat) -> bool {
    rat_eq(a, b) || {
        let m = qmax(qabs(a), qabs(b));
        let diff = qabs(qsub(a, b));
        if rat_lt(m, rat_one()) {
            rat_lt(diff, eps)
        } else {
            rat_lt(diff, qmax(eps, qmul(eps, m)))
        }
    }
}

/// The comparison policy at a named tier.
pub open spec fn approx_at_spec(a: Rat, b: Rat, t: EpsilonTier) -> bool {
    approx_spec(a, b, tier_eps(t))
}

impl Scalar {
    /// Tolerant equality with an explicit threshold.
    pub fn approx_eq_epsilon(self, other: Scalar, eps: Scalar) -> (r: bool)
        ensures
            r == approx_spec(self@, other@, eps@),
    {
        proof {
            use_type_invariant(&self);
            use_type_invariant(&other);
            use_type_invariant(&eps);
            lemma_part_bounds(self@, other@);
        }
        let (an, ad) = self.parts();
        let (bn, bd) = other.parts();
        let cross_l = (an as i128) * (bd as i128);
        let cross_r = (bn as i128) * (ad as i128);
        if cross_l == cross_r {
            return true;
        }
        let diff_n = if cross_l >= cross_r {
            cross_l - cross_r
        } else {
            cross_r - cross_l
        };
        let diff_d = (ad as i128) * (bd as i128);
        let m = self.abs().max(other.abs());
        let one = Scalar::one();
        let (en, ed) = eps.parts();
        proof {
            lemma_part_bounds(eps@, m@);
        }
        if m.lt(one) {
            frac_lt(diff_n, diff_d, en as i128, ed as i128)
        } else {
            let (mn, md) = m.parts();
            let scaled_n = (en as i128) * (mn as i128);
            let scaled_d = (ed as i128) * (md as i128);
            if frac_lt(en as i128, ed as i128, scaled_n, scaled_d) {
                frac_lt(diff_n, diff_d, scaled_n, scaled_d)
            } else {
                frac_lt(diff_n, diff_d, en as i128, ed as i128)
            }
        }
    }

    /// Tolerant equality at a named tier.
    pub fn approx_eq_at(self, other: Scalar, tier: EpsilonTier) -> (r: bool)
        ensures
            r == approx_at_spec(self@, other@, tier),
    {
        self.approx_eq_epsilon(other, tier.value())
    }

    /// Tolerant equality at the default (standard) tier.
    pub fn approx_eq(self, other: Scalar) -> (r: bool)
        ensures
            r == approx_at_spec(self@, other@, EpsilonTier::Standard),
    {
        self.approx_eq_at(other, EpsilonTier::Standard)
    }

    /// Tolerant equality at the loose intersection tier.
    pub fn approx_eq_low_precision(self, other: Scalar) -> (r: bool)
        ensures
            r == approx_at_spec(self@, other@, EpsilonTier::Intersect),
    {
        self.approx_eq_at(other, EpsilonTier::Intersect)
    }
}

/// Finite values compare equal to themselves at every tier; the policy is
/// reflexive away from the non-finite sentinels.
pub proof fn lemma_approx_reflexive(a: Rat, t: EpsilonTier)
    requires
        a.d > 0,
    ensures
        approx_at_spec(a, a, t),
{
}

/// A wider threshold accepts everything a narrower one accepts.
pub proof fn lemma_approx_widen(a: Rat, b: Rat, e1: Rat, e2: Rat)
    requires
        a.d > 0,
        b.d > 0,
        e1.d > 0,
        e2.d > 0,
        rat_le(e1, e2),
        approx_spec(a, b, e1),
    ensures
        approx_spec(a, b, e2),
{
    if !rat_eq(a, b) {
        let m = qmax(qabs(a), qabs(b));
        let diff = qabs(qsub(a, b));
        assert(m.d > 0) by (nonlinear_arith)
            requires
                a.d > 0,
                b.d > 0,
                m == qmax(qabs(a), qabs(b)),
        ;
        assert(diff.d > 0) by (nonlinear_arith)
            requires
                a.d > 0,
                b.d > 0,
                diff == qabs(qsub(a, b)),
        ;
        if rat_lt(m, rat_one()) {
            lemma_rat_trans(diff, e1, e2);
        } else {
            assert(rat_le(rat_zero(), m)) by (nonlinear_arith)
                requires
                    m == qmax(qabs(a), qabs(b)),
                    a.d > 0,
                    b.d > 0,
            ;
            lemma_rat_mul_le(e1, e2, m);
            let t1 = qmax(e1, qmul(e1, m));
            let t2 = qmax(e2, qmul(e2, m));
            assert(qmul(e1, m).d > 0 && qmul(e2, m).d > 0) by (nonlinear_arith)
                requires
                    e1.d > 0,
                    e2.d > 0,
                    m.d > 0,
            ;
            assert(rat_le(t1, t2)) by {
                lemma_rat_trans(e1, e2, t2);
                lemma_rat_trans(qmul(e1, m), qmul(e2, m), t2);
                assert(rat_le(e2, t2) && rat_le(qmul(e2, m), t2)) by {
                    lemma_qmax_ge(e2, qmul(e2, m));
                }
            }
            assert(t1.d > 0 && t2.d > 0);
            lemma_rat_trans(diff, t1, t2);
        }
    }
}

/// The maximum is at least each of its arguments.
proof fn lemma_qmax_ge(a: Rat, b: Rat)
    requires
        a.d > 0,
        b.d > 0,
    ensures
        rat_le(a, qmax(a, b)),
        rat_le(b, qmax(a, b)),
{
}

/// Tier monotonicity: whatever the tight tier accepts the standard one
/// accepts, whatever the standard tier accepts the intersect one accepts,
/// and whatever the intersect tier accepts the coarse one accepts.
pub proof fn lemma_tier_monotone(a: Rat, b: Rat)
    requires
        a.d > 0,
        b.d > 0,
    ensures
        approx_at_spec(a, b, EpsilonTier::Tight) ==> approx_at_spec(a, b, EpsilonTier::Standard),
        approx_at_spec(a, b, EpsilonTier::Standard) ==> approx_at_spec(
            a,
            b,
            EpsilonTier::Intersect,
        ),
        approx_at_spec(a, b, EpsilonTier::Intersect) ==> approx_at_spec(a, b, EpsilonTier::Coarse),
{
    if approx_at_spec(a, b, EpsilonTier::Tight) {
        lemma_approx_widen(a, b, tier_eps(EpsilonTier::Tight), tier_eps(EpsilonTier::Standard));
    }
    if approx_at_spec(a, b, EpsilonTier::Standard) {
        lemma_approx_widen(
            a,
            b,
            tier_eps(EpsilonTier::Standard),
            tier_eps(EpsilonTier::Intersect),
        );
    }
    if approx_at_spec(a, b, EpsilonTier::Intersect) {
        lemma_approx_widen(
            a,
            b,
            tier_eps(EpsilonTier::Intersect),
            tier_eps(EpsilonTier::Coarse),
        );
    }
}

} // verus!

//! A real-line value as the comparison layer sees it: either a finite
//! rational, an infinity of either sign, or not a number.  The geometric
//! types never hold the non-finite variants — the safe operations cannot
//! produce them — but the tolerance policy is specified over all of them:
//! not-a-number equals nothing, and an infinity equals nothing, itself
//! included, because here it stands for "no result".

use crate::epsilon::{approx_spec, tier_eps, EpsilonTier};
use crate::rat::Rat;
use crate::scalar::Scalar;
use vstd::prelude::*;

verus! {

/// A value on the extended real line.
#[derive(Clone, Copy, Debug)]
pub enum Extended {
    /// Not a number.
    Nan,
    /// The negative-infinity sentinel.
    NegInfinite,
    /// The positive-infinity sentinel.
    PosInfinite,
    /// An ordinary finite value.
    Finite(Scalar),
}

/// The tolerance policy over extended values: only two finite values can
/// compare equal.
pub open spec fn ext_approx_spec(a: Extended, b: Extended, eps: Rat) -> bool {
    match (a, b) {
        (Extended::Finite(x), Extended::Finite(y)) => approx_spec(x@, y@, eps),
        _ => false,
    }
}

/// The policy at a named tier.
pub open spec fn ext_approx_at_spec(a: Extended, b: Extended, t: EpsilonTier) -> bool {
    ext_approx_spec(a, b, tier_eps(t))
}

impl Extended {
    /// A finite payload is a well-formed scalar.  Every executable value
    /// satisfies this; lemmas over ghost values take it as a hypothesis.
    pub open spec fn wf(self) -> bool {
        match self {
            Extended::Finite(s) => s.wf(),
            _ => true,
        }
    }

    /// Whether the value is not a number.
    pub fn is_nan(self) -> (r: bool)
        ensures
            r == (self is Nan),
    {
        matches!(self, Extended::Nan)
    }

    /// Whether the value is an infinity of either sign.
    pub fn is_infinite(self) -> (r: bool)
        ensures
            r == (self is NegInfinite || self is PosInfinite),
    {
        matches!(self, Extended::NegInfinite | Extended::PosInfinite)
    }

    /// Whether the value is finite.
    pub fn is_finite(self) -> (r: bool)
        ensures
            r == (self is Finite),
    {
        matches!(self, Extended::Finite(_))
    }

    /// Tolerant equality with an explicit threshold.  Not-a-number never
    /// equals anything; an infinity never equals anything, even an equal
    /// infinity.
    pub fn approx_eq_epsilon(self, other: Extended, eps: Scalar) -> (r: bool)
        ensures
            r == ext_approx_spec(self, other, eps@),
    {
        match (self, other) {
            (Extended::Finite(x), Extended::Finite(y)) => x.approx_eq_epsilon(y, eps),
            _ => false,
        }
    }

    /// Tolerant equality at a named tier.
    pub fn approx_eq_at(self, other: Extended, tier: EpsilonTier) -> (r: bool)
        ensures
            r == ext_approx_at_spec(self, other, tier),
    {
        self.approx_eq_epsilon(other, tier.value())
    }

    /// Tolerant equality at the default (standard) tier.
    pub fn approx_eq(self, other: Extended) -> (r: bool)
        ensures
            r == ext_approx_at_spec(self, other, EpsilonTier::Standard),
    {
        self.approx_eq_at(other, EpsilonTier::Standard)
    }

    /// Tolerant equality at the loose intersection tier.
    pub fn approx_eq_low_precision(self, other: Extended) -> (r: bool)
        ensures
            r == ext_approx_at_spec(self, other, EpsilonTier::Intersect),
    {
        self.approx_eq_at(other, EpsilonTier::Intersect)
    }
}

/// Reflexivity holds exactly on the finite values: a finite value equals
/// itself at every tier, while not-a-number and the infinities do not equal
/// even themselves.
pub proof fn lemma_ext_reflexive(a: Extended, t: EpsilonTier)
    requires
        a.wf(),
    ensures
        a is Finite ==> ext_approx_at_spec(a, a, t),
        !(a is Finite) ==> !ext_approx_at_spec(a, a, t),
{
}

/// Tier monotonicity on extended values: every tier's matches are a subset
/// of the next looser tier's.
pub proof fn lemma_ext_tier_monotone(a: Extended, b: Extended)
    requires
        a.wf(),
        b.wf(),
    ensures
        ext_approx_at_spec(a, b, EpsilonTier::Tight) ==> ext_approx_at_spec(
            a,
            b,
            EpsilonTier::Standard,
        ),
        ext_approx_at_spec(a, b, EpsilonTier::Standard) ==> ext_approx_at_spec(
            a,
            b,
            EpsilonTier::Intersect,
        ),
        ext_approx_at_spec(a, b, EpsilonTier::Intersect) ==> ext_approx_at_spec(
            a,
            b,
            EpsilonTier::Coarse,
        ),
{
    match (a, b) {
        (Extended::Finite(x), Extended::Finite(y)) => {
            crate::epsilon::lemma_tier_monotone(x@, y@);
        },
        _ => {},
    }
}

} // verus!

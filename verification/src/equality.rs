//! Tolerant equality as a trait, for callers that want one name across all
//! of the library's value types.

use crate::epsilon::{approx_at_spec, EpsilonTier};
use crate::extended::{ext_approx_at_spec, Extended};
use crate::scalar::Scalar;
use vstd::prelude::*;

verus! {

/// Approximate equality at the library's standard tier.
pub trait ApproxEqual {
    /// The receiver's validity condition.
    spec fn inv(&self) -> bool;

    /// What equality means for this type, as a mathematical statement.
    spec fn eq_val(&self, other: &Self) -> bool;

    /// Tolerant equality at the standard tier.
    fn is_equal(&self, other: &Self) -> (r: bool)
        requires
            self.inv(),
            other.inv(),
        ensures
            r == self.eq_val(other),
    ;
}

impl ApproxEqual for Scalar {
    open spec fn inv(&self) -> bool {
        true
    }

    open spec fn eq_val(&self, other: &Self) -> bool {
        approx_at_spec(self@, other@, EpsilonTier::Standard)
    }

    fn is_equal(&self, other: &Self) -> (r: bool) {
        (*self).approx_eq(*other)
    }
}

impl ApproxEqual for Extended {
    open spec fn inv(&self) -> bool {
        true
    }

    open spec fn eq_val(&self, other: &Self) -> bool {
        ext_approx_at_spec(*self, *other, EpsilonTier::Standard)
    }

    fn is_equal(&self, other: &Self) -> (r: bool) {
        (*self).approx_eq(*other)
    }
}

} // verus!

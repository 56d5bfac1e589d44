//! Homogeneous 4-component tuples.  The fourth component distinguishes a
//! point (`w` near one) from a vector (`w` near zero) by tolerant comparison,
//! not by tag; matrices apply to tuples as linear maps.

use crate::epsilon::{approx_at_spec, EpsilonTier};
use crate::point::Point3;
use crate::rat::{
    add_ok, div_ok, mul_ok, qneg, radd, rat_one, rat_zero, rdiv, rmul, rsub, sub_ok, Rat,
};
use crate::scalar::Scalar;
use crate::vector::Vec3;
use vstd::prelude::*;

verus! {

/// The ghost value of a 4-component tuple.
pub struct Quad {
    pub x: Rat,
    pub y: Rat,
    pub z: Rat,
    pub w: Rat,
}

pub open spec fn q4_add(a: Quad, b: Quad) -> Quad {
    Quad { x: radd(a.x, b.x), y: radd(a.y, b.y), z: radd(a.z, b.z), w: radd(a.w, b.w) }
}

pub open spec fn q4_add_ok(a: Quad, b: Quad) -> bool {
    add_ok(a.x, b.x) && add_ok(a.y, b.y) && add_ok(a.z, b.z) && add_ok(a.w, b.w)
}

pub open spec fn q4_sub(a: Quad, b: Quad) -> Quad {
    Quad { x: rsub(a.x, b.x), y: rsub(a.y, b.y), z: rsub(a.z, b.z), w: rsub(a.w, b.w) }
}

pub open spec fn q4_sub_ok(a: Quad, b: Quad) -> bool {
    sub_ok(a.x, b.x) && sub_ok(a.y, b.y) && sub_ok(a.z, b.z) && sub_ok(a.w, b.w)
}

pub open spec fn q4_neg(a: Quad) -> Quad {
    Quad { x: qneg(a.x), y: qneg(a.y), z: qneg(a.z), w: qneg(a.w) }
}

pub open spec fn q4_scale(a: Quad, s: Rat) -> Quad {
    Quad { x: rmul(a.x, s), y: rmul(a.y, s), z: rmul(a.z, s), w: rmul(a.w, s) }
}

pub open spec fn q4_scale_ok(a: Quad, s: Rat) -> bool {
    mul_ok(a.x, s) && mul_ok(a.y, s) && mul_ok(a.z, s) && mul_ok(a.w, s)
}

pub open spec fn q4_div(a: Quad, s: Rat) -> Quad {
    Quad { x: rdiv(a.x, s), y: rdiv(a.y, s), z: rdiv(a.z, s), w: rdiv(a.w, s) }
}

pub open spec fn q4_div_ok(a: Quad, s: Rat) -> bool {
    div_ok(a.x, s) && div_ok(a.y, s) && div_ok(a.z, s) && div_ok(a.w, s)
}

/// The four-component dot product, over all active components of a raw
/// tuple.
pub open spec fn q4_dot(a: Quad, b: Quad) -> Rat {
    radd(radd(radd(rmul(a.x, b.x), rmul(a.y, b.y)), rmul(a.z, b.z)), rmul(a.w, b.w))
}

pub open spec fn q4_dot_ok(a: Quad, b: Quad) -> bool {
    mul_ok(a.x, b.x) && mul_ok(a.y, b.y) && mul_ok(a.z, b.z) && mul_ok(a.w, b.w) && add_ok(
        rmul(a.x, b.x),
        rmul(a.y, b.y),
    ) && add_ok(radd(rmul(a.x, b.x), rmul(a.y, b.y)), rmul(a.z, b.z)) && add_ok(
        radd(radd(rmul(a.x, b.x), rmul(a.y, b.y)), rmul(a.z, b.z)),
        rmul(a.w, b.w),
    )
}

/// A 4-component homogeneous tuple.
#[derive(Clone, Copy, Debug)]
pub struct Tuple4 {
    pub x: Scalar,
    pub y: Scalar,
    pub z: Scalar,
    pub w: Scalar,
}

impl View for Tuple4 {
    type V = Quad;

    open spec fn view(&self) -> Quad {
        Quad { x: self.x@, y: self.y@, z: self.z@, w: self.w@ }
    }
}

/// Creates a 4-component tuple.
pub fn tuple(x: Scalar, y: Scalar, z: Scalar, w: Scalar) -> (r: Tuple4)
    ensures
        r@ == (Quad { x: x@, y: y@, z: z@, w: w@ }),
{
    Tuple4::new(x, y, z, w)
}

impl Tuple4 {
    /// Creates a new tuple.
    pub fn new(x: Scalar, y: Scalar, z: Scalar, w: Scalar) -> (r: Tuple4)
        ensures
            r@ == (Quad { x: x@, y: y@, z: z@, w: w@ }),
    {
        Tuple4 { x, y, z, w }
    }

    /// A tuple with all components set to the same value.
    pub fn splat(v: Scalar) -> (r: Tuple4)
        ensures
            r@ == (Quad { x: v@, y: v@, z: v@, w: v@ }),
    {
        Tuple4 { x: v, y: v, z: v, w: v }
    }

    /// A point as a homogeneous tuple: `w` is one.
    pub fn from_point(p: Point3) -> (r: Tuple4)
        ensures
            r@ == (Quad { x: p@.x, y: p@.y, z: p@.z, w: rat_one() }),
    {
        Tuple4 { x: p.x, y: p.y, z: p.z, w: Scalar::one() }
    }

    /// A vector as a homogeneous tuple: `w` is zero.
    pub fn from_vector(v: Vec3) -> (r: Tuple4)
        ensures
            r@ == (Quad { x: v@.x, y: v@.y, z: v@.z, w: rat_zero() }),
    {
        Tuple4 { x: v.x, y: v.y, z: v.z, w: Scalar::zero() }
    }

    /// Whether the tuple is a point: `w` tolerantly equals one.
    pub fn is_point(self) -> (r: bool)
        ensures
            r == approx_at_spec(self@.w, rat_one(), EpsilonTier::Standard),
    {
        self.w.approx_eq(Scalar::one())
    }

    /// Whether the tuple is a vector: `w` tolerantly equals zero.
    pub fn is_vector(self) -> (r: bool)
        ensures
            r == approx_at_spec(self@.w, rat_zero(), EpsilonTier::Standard),
    {
        self.w.approx_eq(Scalar::zero())
    }

    /// Componentwise sum.
    pub fn add(self, rhs: Tuple4) -> (r: Tuple4)
        requires
            q4_add_ok(self@, rhs@),
        ensures
            r@ == q4_add(self@, rhs@),
    {
        Tuple4 {
            x: self.x.add(rhs.x),
            y: self.y.add(rhs.y),
            z: self.z.add(rhs.z),
            w: self.w.add(rhs.w),
        }
    }

    /// Componentwise difference.
    pub fn sub(self, rhs: Tuple4) -> (r: Tuple4)
        requires
            q4_sub_ok(self@, rhs@),
        ensures
            r@ == q4_sub(self@, rhs@),
    {
        Tuple4 {
            x: self.x.sub(rhs.x),
            y: self.y.sub(rhs.y),
            z: self.z.sub(rhs.z),
            w: self.w.sub(rhs.w),
        }
    }

    /// Componentwise negation.
    pub fn neg(self) -> (r: Tuple4)
        ensures
            r@ == q4_neg(self@),
    {
        Tuple4 { x: self.x.neg(), y: self.y.neg(), z: self.z.neg(), w: self.w.neg() }
    }

    /// Scaling by a scalar.
    pub fn mul(self, s: Scalar) -> (r: Tuple4)
        requires
            q4_scale_ok(self@, s@),
        ensures
            r@ == q4_scale(self@, s@),
    {
        Tuple4 { x: self.x.mul(s), y: self.y.mul(s), z: self.z.mul(s), w: self.w.mul(s) }
    }

    /// Division by a nonzero scalar; exact, equal to scaling by the
    /// reciprocal.
    pub fn div(self, s: Scalar) -> (r: Tuple4)
        requires
            q4_div_ok(self@, s@),
        ensures
            r@ == q4_div(self@, s@),
    {
        Tuple4 { x: self.x.div(s), y: self.y.div(s), z: self.z.div(s), w: self.w.div(s) }
    }

    /// The four-component dot product.
    pub fn dot(self, rhs: Tuple4) -> (r: Scalar)
        requires
            q4_dot_ok(self@, rhs@),
        ensures
            r@ == q4_dot(self@, rhs@),
    {
        self.x.mul(rhs.x).add(self.y.mul(rhs.y)).add(self.z.mul(rhs.z)).add(self.w.mul(rhs.w))
    }
}

impl PartialEq for Tuple4 {
    /// Tolerant equality at the standard tier, component by component.
    fn eq(&self, other: &Tuple4) -> (r: bool) {
        self.x.approx_eq(other.x) && self.y.approx_eq(other.y) && self.z.approx_eq(other.z)
            && self.w.approx_eq(other.w)
    }
}

impl vstd::std_specs::cmp::PartialEqSpecImpl for Tuple4 {
    open spec fn obeys_eq_spec() -> bool {
        true
    }

    open spec fn eq_spec(&self, other: &Tuple4) -> bool {
        approx_at_spec(self@.x, other@.x, EpsilonTier::Standard) && approx_at_spec(
            self@.y,
            other@.y,
            EpsilonTier::Standard,
        ) && approx_at_spec(self@.z, other@.z, EpsilonTier::Standard) && approx_at_spec(
            self@.w,
            other@.w,
            EpsilonTier::Standard,
        )
    }
}

} // verus!

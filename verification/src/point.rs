//! Positions in space.  A point combines with vectors only: point plus
//! vector and point minus vector are points, point minus point is the vector
//! between them.

use crate::epsilon::{approx_at_spec, EpsilonTier};
use crate::rat::{rat_one, rat_zero};
use crate::tuple::Tuple4;
use crate::scalar::Scalar;
use crate::vector::{v3_add, v3_add_ok, v3_sub, v3_sub_ok, Triple, Vec3};
use vstd::prelude::*;

verus! {

/// A 3-dimensional point.
#[derive(Clone, Copy, Debug)]
pub struct Point3 {
    pub x: Scalar,
    pub y: Scalar,
    pub z: Scalar,
}

impl View for Point3 {
    type V = Triple;

    open spec fn view(&self) -> Triple {
        Triple { x: self.x@, y: self.y@, z: self.z@ }
    }
}

/// Creates a 3-dimensional point.
pub fn point(x: Scalar, y: Scalar, z: Scalar) -> (r: Point3)
    ensures
        r@ == (Triple { x: x@, y: y@, z: z@ }),
{
    Point3::new(x, y, z)
}

impl Point3 {
    /// Creates a new point.
    pub fn new(x: Scalar, y: Scalar, z: Scalar) -> (r: Point3)
        ensures
            r@ == (Triple { x: x@, y: y@, z: z@ }),
    {
        Point3 { x, y, z }
    }

    /// A point with all coordinates set to the same value.
    pub fn splat(v: Scalar) -> (r: Point3)
        ensures
            r@ == (Triple { x: v@, y: v@, z: v@ }),
    {
        Point3 { x: v, y: v, z: v }
    }

    /// The origin.
    pub fn origin() -> (r: Point3)
        ensures
            r@ == (Triple { x: rat_zero(), y: rat_zero(), z: rat_zero() }),
    {
        Point3::splat(Scalar::zero())
    }

    /// Point plus vector: the point displaced by the vector.
    pub fn add(self, rhs: Vec3) -> (r: Point3)
        requires
            v3_add_ok(self@, rhs@),
        ensures
            r@ == v3_add(self@, rhs@),
    {
        Point3 { x: self.x.add(rhs.x), y: self.y.add(rhs.y), z: self.z.add(rhs.z) }
    }

    /// Point minus point: the displacement from `rhs` to `self`.
    pub fn sub(self, rhs: Point3) -> (r: Vec3)
        requires
            v3_sub_ok(self@, rhs@),
        ensures
            r@ == v3_sub(self@, rhs@),
    {
        Vec3 { x: self.x.sub(rhs.x), y: self.y.sub(rhs.y), z: self.z.sub(rhs.z) }
    }

    /// A homogeneous tuple as a point: succeeds exactly when the tuple's
    /// `w` component tolerantly equals one at the standard tier.
    pub fn try_from_tuple(t: Tuple4) -> (r: Result<Point3, &'static str>)
        ensures
            r is Ok <==> approx_at_spec(t@.w, rat_one(), EpsilonTier::Standard),
            r matches Ok(p) ==> p@ == (Triple { x: t@.x, y: t@.y, z: t@.z }),
    {
        if t.is_point() {
            Ok(Point3::new(t.x, t.y, t.z))
        } else {
            Err("invalid w component for a point")
        }
    }

    /// Point minus vector: the point displaced against the vector.
    pub fn sub_vec(self, rhs: Vec3) -> (r: Point3)
        requires
            v3_sub_ok(self@, rhs@),
        ensures
            r@ == v3_sub(self@, rhs@),
    {
        Point3 { x: self.x.sub(rhs.x), y: self.y.sub(rhs.y), z: self.z.sub(rhs.z) }
    }
}

impl PartialEq for Point3 {
    /// Tolerant equality at the standard tier, coordinate by coordinate.
    fn eq(&self, other: &Point3) -> (r: bool) {
        self.x.approx_eq(other.x) && self.y.approx_eq(other.y) && self.z.approx_eq(other.z)
    }
}

impl vstd::std_specs::cmp::PartialEqSpecImpl for Point3 {
    open spec fn obeys_eq_spec() -> bool {
        true
    }

    open spec fn eq_spec(&self, other: &Point3) -> bool {
        approx_at_spec(self@.x, other@.x, EpsilonTier::Standard) && approx_at_spec(
            self@.y,
            other@.y,
            EpsilonTier::Standard,
        ) && approx_at_spec(self@.z, other@.z, EpsilonTier::Standard)
    }
}

} // verus!

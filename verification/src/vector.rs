//! Three-component direction/displacement vectors over exact scalars, with
//! dot and cross products, reflection, interpolation, and the checked
//! normalization family.

use crate::epsilon::{approx_at_spec, EpsilonTier};
use crate::rat::{
    add_ok, div_ok, fits, iabs, lemma_canon, lemma_rat_eq_congruence, lemma_rat_eq_order,
    lemma_rat_eq_trans, lemma_rop_values, mul_ok, qabs, qadd, qmax, qmul, qneg, qsub, radd, rat_eq,
    rat_le, rat_lt, rat_one, rat_zero, rdiv, rmul, rsub, sub_ok, Rat,
};
use crate::arith::isqrt_u128;
use crate::scalar::Scalar;
use vstd::prelude::*;

verus! {

/// The ghost value of a three-component vector.
pub struct Triple {
    pub x: Rat,
    pub y: Rat,
    pub z: Rat,
}

/// All three denominators are positive.
pub open spec fn v3_wf(t: Triple) -> bool {
    t.x.d > 0 && t.y.d > 0 && t.z.d > 0
}

pub open spec fn v3_add(a: Triple, b: Triple) -> Triple {
    Triple { x: radd(a.x, b.x), y: radd(a.y, b.y), z: radd(a.z, b.z) }
}

pub open spec fn v3_add_ok(a: Triple, b: Triple) -> bool {
    add_ok(a.x, b.x) && add_ok(a.y, b.y) && add_ok(a.z, b.z)
}

pub open spec fn v3_sub(a: Triple, b: Triple) -> Triple {
    Triple { x: rsub(a.x, b.x), y: rsub(a.y, b.y), z: rsub(a.z, b.z) }
}

pub open spec fn v3_sub_ok(a: Triple, b: Triple) -> bool {
    sub_ok(a.x, b.x) && sub_ok(a.y, b.y) && sub_ok(a.z, b.z)
}

pub open spec fn v3_neg(a: Triple) -> Triple {
    Triple { x: qneg(a.x), y: qneg(a.y), z: qneg(a.z) }
}

pub open spec fn v3_scale(a: Triple, s: Rat) -> Triple {
    Triple { x: rmul(a.x, s), y: rmul(a.y, s), z: rmul(a.z, s) }
}

pub open spec fn v3_scale_ok(a: Triple, s: Rat) -> bool {
    mul_ok(a.x, s) && mul_ok(a.y, s) && mul_ok(a.z, s)
}

pub open spec fn v3_div(a: Triple, s: Rat) -> Triple {
    Triple { x: rdiv(a.x, s), y: rdiv(a.y, s), z: rdiv(a.z, s) }
}

pub open spec fn v3_div_ok(a: Triple, s: Rat) -> bool {
    div_ok(a.x, s) && div_ok(a.y, s) && div_ok(a.z, s)
}

/// The dot product: the sum of the componentwise products.
pub open spec fn v3_dot(a: Triple, b: Triple) -> Rat {
    radd(radd(rmul(a.x, b.x), rmul(a.y, b.y)), rmul(a.z, b.z))
}

pub open spec fn v3_dot_ok(a: Triple, b: Triple) -> bool {
    mul_ok(a.x, b.x) && mul_ok(a.y, b.y) && mul_ok(a.z, b.z) && add_ok(
        rmul(a.x, b.x),
        rmul(a.y, b.y),
    ) && add_ok(radd(rmul(a.x, b.x), rmul(a.y, b.y)), rmul(a.z, b.z))
}

/// The cross product of two direction vectors.
pub open spec fn v3_cross(a: Triple, b: Triple) -> Triple {
    Triple {
        x: rsub(rmul(a.y, b.z), rmul(a.z, b.y)),
        y: rsub(rmul(a.z, b.x), rmul(a.x, b.z)),
        z: rsub(rmul(a.x, b.y), rmul(a.y, b.x)),
    }
}

pub open spec fn v3_cross_ok(a: Triple, b: Triple) -> bool {
    mul_ok(a.y, b.z) && mul_ok(a.z, b.y) && sub_ok(rmul(a.y, b.z), rmul(a.z, b.y)) && mul_ok(
        a.z,
        b.x,
    ) && mul_ok(a.x, b.z) && sub_ok(rmul(a.z, b.x), rmul(a.x, b.z)) && mul_ok(a.x, b.y) && mul_ok(
        a.y,
        b.x,
    ) && sub_ok(rmul(a.x, b.y), rmul(a.y, b.x))
}

pub open spec fn rat_two() -> Rat {
    Rat { n: 2, d: 1 }
}

/// Reflection of `v` about the unit normal `n`: `v - n * (2 * dot(v, n))`.
pub open spec fn v3_reflect(v: Triple, n: Triple) -> Triple {
    v3_sub(v, v3_scale(n, rmul(rat_two(), v3_dot(v, n))))
}

pub open spec fn v3_reflect_ok(v: Triple, n: Triple) -> bool {
    v3_dot_ok(v, n) && mul_ok(rat_two(), v3_dot(v, n)) && v3_scale_ok(
        n,
        rmul(rat_two(), v3_dot(v, n)),
    ) && v3_sub_ok(v, v3_scale(n, rmul(rat_two(), v3_dot(v, n))))
}

/// Linear interpolation `a * (1 - t) + b * t`, unrestricted in `t`.
pub open spec fn v3_lerp(a: Triple, b: Triple, t: Rat) -> Triple {
    v3_add(v3_scale(a, rsub(rat_one(), t)), v3_scale(b, t))
}

pub open spec fn v3_lerp_ok(a: Triple, b: Triple, t: Rat) -> bool {
    sub_ok(rat_one(), t) && v3_scale_ok(a, rsub(rat_one(), t)) && v3_scale_ok(b, t) && v3_add_ok(
        v3_scale(a, rsub(rat_one(), t)),
        v3_scale(b, t),
    )
}

/// A 3-dimensional vector.
#[derive(Clone, Copy, Debug)]
pub struct Vec3 {
    pub x: Scalar,
    pub y: Scalar,
    pub z: Scalar,
}

impl View for Vec3 {
    type V = Triple;

    open spec fn view(&self) -> Triple {
        Triple { x: self.x@, y: self.y@, z: self.z@ }
    }
}

/// Creates a 3-dimensional vector.
pub fn vector(x: Scalar, y: Scalar, z: Scalar) -> (r: Vec3)
    ensures
        r@ == (Triple { x: x@, y: y@, z: z@ }),
{
    Vec3::new(x, y, z)
}

impl Vec3 {
    /// Creates a new vector.
    pub fn new(x: Scalar, y: Scalar, z: Scalar) -> (r: Vec3)
        ensures
            r@ == (Triple { x: x@, y: y@, z: z@ }),
    {
        Vec3 { x, y, z }
    }

    /// A vector with all components set to the same value.
    pub fn splat(v: Scalar) -> (r: Vec3)
        ensures
            r@ == (Triple { x: v@, y: v@, z: v@ }),
    {
        Vec3 { x: v, y: v, z: v }
    }

    /// The zero vector.
    pub fn zero() -> (r: Vec3)
        ensures
            r@ == (Triple { x: rat_zero(), y: rat_zero(), z: rat_zero() }),
    {
        Vec3::splat(Scalar::zero())
    }

    /// The unit vector along the positive x axis.
    pub fn unit_x() -> (r: Vec3)
        ensures
            r@ == (Triple { x: rat_one(), y: rat_zero(), z: rat_zero() }),
    {
        Vec3::new(Scalar::one(), Scalar::zero(), Scalar::zero())
    }

    /// The unit vector along the positive y axis.
    pub fn unit_y() -> (r: Vec3)
        ensures
            r@ == (Triple { x: rat_zero(), y: rat_one(), z: rat_zero() }),
    {
        Vec3::new(Scalar::zero(), Scalar::one(), Scalar::zero())
    }

    /// The unit vector along the positive z axis.
    pub fn unit_z() -> (r: Vec3)
        ensures
            r@ == (Triple { x: rat_zero(), y: rat_zero(), z: rat_one() }),
    {
        Vec3::new(Scalar::zero(), Scalar::zero(), Scalar::one())
    }

    /// Componentwise sum.
    pub fn add(self, rhs: Vec3) -> (r: Vec3)
        requires
            v3_add_ok(self@, rhs@),
        ensures
            r@ == v3_add(self@, rhs@),
    {
        Vec3 { x: self.x.add(rhs.x), y: self.y.add(rhs.y), z: self.z.add(rhs.z) }
    }

    /// Componentwise difference.
    pub fn sub(self, rhs: Vec3) -> (r: Vec3)
        requires
            v3_sub_ok(self@, rhs@),
        ensures
            r@ == v3_sub(self@, rhs@),
    {
        Vec3 { x: self.x.sub(rhs.x), y: self.y.sub(rhs.y), z: self.z.sub(rhs.z) }
    }

    /// Componentwise negation.
    pub fn neg(self) -> (r: Vec3)
        ensures
            r@ == v3_neg(self@),
    {
        Vec3 { x: self.x.neg(), y: self.y.neg(), z: self.z.neg() }
    }

    /// Scaling by a scalar.
    pub fn mul(self, s: Scalar) -> (r: Vec3)
        requires
            v3_scale_ok(self@, s@),
        ensures
            r@ == v3_scale(self@, s@),
    {
        Vec3 { x: self.x.mul(s), y: self.y.mul(s), z: self.z.mul(s) }
    }

    /// Division by a nonzero scalar; exact, equal to scaling by the
    /// reciprocal.
    pub fn div(self, s: Scalar) -> (r: Vec3)
        requires
            v3_div_ok(self@, s@),
        ensures
            r@ == v3_div(self@, s@),
    {
        Vec3 { x: self.x.div(s), y: self.y.div(s), z: self.z.div(s) }
    }

    /// The dot product.
    pub fn dot(self, rhs: Vec3) -> (r: Scalar)
        requires
            v3_dot_ok(self@, rhs@),
        ensures
            r@ == v3_dot(self@, rhs@),
    {
        self.x.mul(rhs.x).add(self.y.mul(rhs.y)).add(self.z.mul(rhs.z))
    }

    /// The cross product.
    pub fn cross(self, rhs: Vec3) -> (r: Vec3)
        requires
            v3_cross_ok(self@, rhs@),
        ensures
            r@ == v3_cross(self@, rhs@),
    {
        Vec3 {
            x: self.y.mul(rhs.z).sub(self.z.mul(rhs.y)),
            y: self.z.mul(rhs.x).sub(self.x.mul(rhs.z)),
            z: self.x.mul(rhs.y).sub(self.y.mul(rhs.x)),
        }
    }

    /// The squared Euclidean length; avoids any square root.
    pub fn length_squared(self) -> (r: Scalar)
        requires
            v3_dot_ok(self@, self@),
        ensures
            r@ == v3_dot(self@, self@),
    {
        self.dot(self)
    }

    /// The squared length under its traditional name.
    pub fn magnitude_sqrd(self) -> (r: Scalar)
        requires
            v3_dot_ok(self@, self@),
        ensures
            r@ == v3_dot(self@, self@),
    {
        self.length_squared()
    }

    /// The Euclidean length, to the library's square-root precision: the
    /// result is nonnegative, its square never exceeds the squared length,
    /// and the shortfall is bounded by `sqrt_err()`.
    pub fn length(self) -> (r: Scalar)
        requires
            v3_dot_ok(self@, self@),
        ensures
            0 <= r@.n,
            rat_le(qmul(r@, r@), v3_dot(self@, self@)),
            rat_le(
                qsub(v3_dot(self@, self@), qmul(r@, r@)),
                qmul(crate::rat::sqrt_err(), crate::rat::qmax(rat_one(), v3_dot(self@, self@))),
            ),
    {
        let ls = self.length_squared();
        proof {
            use_type_invariant(&self.x);
            use_type_invariant(&self.y);
            use_type_invariant(&self.z);
            lemma_dot_self_nonneg(self@);
        }
        ls.sqrt_approx()
    }

    /// The length under its traditional name.
    pub fn magnitude(self) -> (r: Scalar)
        requires
            v3_dot_ok(self@, self@),
        ensures
            0 <= r@.n,
            rat_le(qmul(r@, r@), v3_dot(self@, self@)),
            rat_le(
                qsub(v3_dot(self@, self@), qmul(r@, r@)),
                qmul(crate::rat::sqrt_err(), crate::rat::qmax(rat_one(), v3_dot(self@, self@))),
            ),
    {
        self.length()
    }

    /// The reflection of `self` about the normal `normal`, which must be of
    /// unit length for a geometrically meaningful result.
    pub fn reflect(self, normal: Vec3) -> (r: Vec3)
        requires
            v3_reflect_ok(self@, normal@),
        ensures
            r@ == v3_reflect(self@, normal@),
    {
        let two = Scalar::from_int(2);
        let d = self.dot(normal);
        proof {
            use_type_invariant(&d);
        }
        self.sub(normal.mul(two.mul(d)))
    }

    /// Linear interpolation from `self` at zero to `rhs` at one;
    /// extrapolates outside that range.
    pub fn lerp(self, rhs: Vec3, t: Scalar) -> (r: Vec3)
        requires
            v3_lerp_ok(self@, rhs@, t@),
        ensures
            r@ == v3_lerp(self@, rhs@, t@),
    {
        let one = Scalar::one();
        self.mul(one.sub(t)).add(rhs.mul(t))
    }
}

impl PartialEq for Vec3 {
    /// Tolerant equality at the standard tier, component by component.
    fn eq(&self, other: &Vec3) -> (r: bool) {
        self.x.approx_eq(other.x) && self.y.approx_eq(other.y) && self.z.approx_eq(other.z)
    }
}

impl vstd::std_specs::cmp::PartialEqSpecImpl for Vec3 {
    open spec fn obeys_eq_spec() -> bool {
        true
    }

    open spec fn eq_spec(&self, other: &Vec3) -> bool {
        approx_at_spec(self@.x, other@.x, EpsilonTier::Standard) && approx_at_spec(
            self@.y,
            other@.y,
            EpsilonTier::Standard,
        ) && approx_at_spec(self@.z, other@.z, EpsilonTier::Standard)
    }
}

/// The product of the three denominators: the common denominator that the
/// normalization routine works over.
pub open spec fn v3_den_prod(t: Triple) -> int {
    t.x.d * (t.y.d * t.z.d)
}

/// The numerators lifted to the common denominator.
pub open spec fn v3_lifted_x(t: Triple) -> int {
    t.x.n * (t.y.d * t.z.d)
}

pub open spec fn v3_lifted_y(t: Triple) -> int {
    t.y.n * (t.x.d * t.z.d)
}

pub open spec fn v3_lifted_z(t: Triple) -> int {
    t.z.n * (t.x.d * t.y.d)
}

/// The squared length over the common denominator: the vector's squared
/// length is exactly `v3_sq_sum(t) / v3_den_prod(t)^2`.
pub open spec fn v3_sq_sum(t: Triple) -> int {
    v3_lifted_x(t) * v3_lifted_x(t) + v3_lifted_y(t) * v3_lifted_y(t) + v3_lifted_z(t)
        * v3_lifted_z(t)
}

/// The machine bound under which a vector can be normalized: the common
/// denominator and the lifted numerators stay within 62 bits.
pub open spec fn v3_norm_ok(t: Triple) -> bool {
    v3_den_prod(t) <= 0x4000_0000_0000_0000 && iabs(v3_lifted_x(t)) <= 0x4000_0000_0000_0000
        && iabs(v3_lifted_y(t)) <= 0x4000_0000_0000_0000 && iabs(v3_lifted_z(t))
        <= 0x4000_0000_0000_0000
}

/// The square of the standard tier's threshold: the squared-length cutoff
/// below which normalization reports a degenerate vector.
pub open spec fn eps_std_sq() -> Rat {
    Rat { n: 1, d: 10000000000 }
}

/// How far the squared length of a normalized vector may sit from one.
pub open spec fn unit_err() -> Rat {
    Rat { n: 1, d: 1099511627776 }
}

/// `u` scaled by the positive factor `s` gives back `v` exactly.
pub open spec fn v3_scaled_of(u: Triple, s: Rat, v: Triple) -> bool {
    s.d > 0 && s.n > 0 && rat_eq(qmul(u.x, s), v.x) && rat_eq(qmul(u.y, s), v.y) && rat_eq(
        qmul(u.z, s),
        v.z,
    )
}

/// What a successful normalization returns: the input was long enough, the
/// result's exact squared length sits within `unit_err()` above one, and the
/// result is the input scaled by a positive factor.
pub open spec fn v3_unit_result(u: Triple, v: Triple) -> bool {
    rat_le(eps_std_sq(), v3_dot(v, v)) && rat_le(rat_one(), v3_dot(u, u)) && rat_le(
        qabs(qsub(v3_dot(u, u), rat_one())),
        unit_err(),
    ) && (exists |s: Rat| v3_scaled_of(u, s, v))
}

impl Vec3 {
    /// Normalizes to unit length.  Returns the absent value exactly when the
    /// squared length lies below the square of the standard threshold, so a
    /// zero or near-zero vector never turns into undefined components.  A
    /// returned vector is the input scaled by a positive factor, and its
    /// exact squared length is within `unit_err()` of one.
    #[verifier::rlimit(40)]
    #[verifier::spinoff_prover]
    pub fn normalize(self) -> (r: Option<Vec3>)
        requires
            v3_norm_ok(self@),
        ensures
            r is None <==> rat_lt(v3_dot(self@, self@), eps_std_sq()),
            r matches Option::Some(u) ==> v3_unit_result(u@, self@),
    {
        proof {
            use_type_invariant(&self.x);
            use_type_invariant(&self.y);
            use_type_invariant(&self.z);
        }
        let (xn, xd) = self.x.parts();
        let (yn, yd) = self.y.parts();
        let (zn, zd) = self.z.parts();
        proof {
            lemma_lifted_bounds(self@);
        }
        let yz = (yd as i128) * (zd as i128);
        let xz = (xd as i128) * (zd as i128);
        let xy = (xd as i128) * (yd as i128);
        let dd = (xd as i128) * yz;
        let ax = (xn as i128) * yz;
        let ay = (yn as i128) * xz;
        let az = (zn as i128) * xy;
        proof {
            lemma_sq_sum_bounds(ax as int, ay as int, az as int);
            assert(1 <= dd * dd <= 0x1000_0000_0000_0000_0000_0000_0000_0000) by (nonlinear_arith)
                requires
                    1 <= dd <= 0x4000_0000_0000_0000,
            ;
        }
        let s_sum = ax * ax + ay * ay + az * az;
        let dd2 = dd * dd;
        proof {
            lemma_dot_self_value(self@);
        }
        if crate::arith::frac_lt(s_sum, dd2, 1, 10000000000) {
            proof {
                lemma_rat_eq_order(
                    v3_dot(self@, self@),
                    Rat { n: s_sum as int, d: dd2 as int },
                    eps_std_sq(),
                );
            }
            return None;
        }
        proof {
            lemma_rat_eq_order(
                v3_dot(self@, self@),
                Rat { n: s_sum as int, d: dd2 as int },
                eps_std_sq(),
            );
            assert(s_sum >= 1) by (nonlinear_arith)
                requires
                    s_sum * 10000000000 >= dd2,
                    dd2 >= 1,
            ;
        }
        let mut m: u128 = dd as u128;
        let mut t_in: u128 = s_sum as u128;
        let mut sc: i128 = 1;
        proof {
            assert(t_in as int * 1 == s_sum as int * (1 * 1));
        }
        while m <= 0x2000_0000_0000_0000 && t_in <= 0x0400_0000_0000_0000_0000_0000_0000_0000
            invariant
                1 <= s_sum <= 0x3000_0000_0000_0000_0000_0000_0000_0000i128,
                1 <= dd <= 0x4000_0000_0000_0000i128,
                s_sum * 10000000000 >= dd * dd,
                1 <= sc,
                sc as int <= m as int,
                m as int == dd as int * sc as int,
                t_in as int * 1 == s_sum as int * (sc as int * sc as int),
                1 <= m < 0x8000_0000_0000_0000u128,
                1 <= t_in < 0x4000_0000_0000_0000_0000_0000_0000_0000u128,
                sc == 1 || t_in <= 0x1000_0000_0000_0000_0000_0000_0000_0000u128,
            decreases 0x4000_0000_0000_0000_0000_0000_0000_0000u128 - t_in,
        {
            proof {
                assert((m as int * 2 == dd as int * (sc as int * 2)) && ((t_in as int * 4) * 1
                    == s_sum as int * ((sc as int * 2) * (sc as int * 2))) && t_in * 4 > t_in
                    && sc * 2 >= 1 && sc as int * 2 <= m as int * 2) by (nonlinear_arith)
                    requires
                        m as int == dd as int * sc as int,
                        t_in as int * 1 == s_sum as int * (sc as int * sc as int),
                        t_in >= 1,
                        sc >= 1,
                        sc as int <= m as int,
                        dd >= 1,
                ;
            }
            m = m * 2;
            t_in = t_in * 4;
            sc = sc * 2;
        }
        let p = isqrt_u128(t_in);
        proof {
            assert(1 <= p < 0x8000_0000_0000_0000u128) by (nonlinear_arith)
                requires
                    p * p <= t_in,
                    t_in < (p + 1) * (p + 1),
                    1 <= t_in < 0x4000_0000_0000_0000_0000_0000_0000_0000u128,
            ;
            lemma_component_fits(ax as int, sc as int, s_sum as int, t_in as int, p as int);
            lemma_component_fits(ay as int, sc as int, s_sum as int, t_in as int, p as int);
            lemma_component_fits(az as int, sc as int, s_sum as int, t_in as int, p as int);
        }
        let ux = scaled_component(ax, sc, p);
        let uy = scaled_component(ay, sc, p);
        let uz = scaled_component(az, sc, p);
        let u = Vec3 { x: ux, y: uy, z: uz };
        proof {
            use_type_invariant(&ux);
            use_type_invariant(&uy);
            use_type_invariant(&uz);
            lemma_dot_self_scaled(
                u@,
                ax as int * sc as int,
                ay as int * sc as int,
                az as int * sc as int,
                p as int,
            );
            assert((ax as int * sc as int) * (ax as int * sc as int) == (ax as int * ax as int)
                * (sc as int * sc as int)) by (nonlinear_arith);
            assert((ay as int * sc as int) * (ay as int * sc as int) == (ay as int * ay as int)
                * (sc as int * sc as int)) by (nonlinear_arith);
            assert((az as int * sc as int) * (az as int * sc as int) == (az as int * az as int)
                * (sc as int * sc as int)) by (nonlinear_arith);
            vstd::arithmetic::mul::lemma_mul_is_distributive_add_other_way(
                sc as int * sc as int,
                ax as int * ax as int + ay as int * ay as int,
                az as int * az as int,
            );
            vstd::arithmetic::mul::lemma_mul_is_distributive_add_other_way(
                sc as int * sc as int,
                ax as int * ax as int,
                ay as int * ay as int,
            );
            assert((ax as int * sc as int) * (ax as int * sc as int) + (ay as int * sc as int) * (
            ay as int * sc as int) + (az as int * sc as int) * (az as int * sc as int) == t_in);
            // The scaled squared length sits in [1, 1 + 2^-40] of one.
            lemma_unit_window(t_in as int, p as int, m as int, dd as int, sc as int, s_sum as int);
            lemma_near_one_transfer(
                v3_dot(u@, u@),
                Rat { n: t_in as int, d: p as int * p as int },
            );
            // The witness scale factor.
            let s = Rat { n: p as int, d: m as int };
            assert(v3_scaled_of(u@, s, self@)) by {
                assert(m as int == (self@.x.d * (self@.y.d * self@.z.d)) * sc as int
                    && m as int == (self@.y.d * (self@.x.d * self@.z.d)) * sc as int && m as int
                    == (self@.z.d * (self@.x.d * self@.y.d)) * sc as int) by (nonlinear_arith)
                    requires
                        m as int == dd as int * sc as int,
                        dd as int == self@.x.d * (self@.y.d * self@.z.d),
                ;
                lemma_scaled_witness(
                    ux@,
                    ax as int,
                    sc as int,
                    p as int,
                    m as int,
                    self@.x.n,
                    self@.x.d,
                    self@.y.d * self@.z.d,
                );
                lemma_scaled_witness(
                    uy@,
                    ay as int,
                    sc as int,
                    p as int,
                    m as int,
                    self@.y.n,
                    self@.y.d,
                    self@.x.d * self@.z.d,
                );
                lemma_scaled_witness(
                    uz@,
                    az as int,
                    sc as int,
                    p as int,
                    m as int,
                    self@.z.n,
                    self@.z.d,
                    self@.x.d * self@.y.d,
                );
            }
            assert(v3_unit_result(u@, self@));
        }
        Some(u)
    }
}

/// The lifted numerators and partial denominator products stay within
/// 62 bits under `v3_norm_ok`.
proof fn lemma_lifted_bounds(t: Triple)
    requires
        v3_wf(t),
        v3_norm_ok(t),
    ensures
        1 <= t.y.d * t.z.d <= 0x4000_0000_0000_0000,
        1 <= t.x.d * t.z.d <= 0x4000_0000_0000_0000,
        1 <= t.x.d * t.y.d <= 0x4000_0000_0000_0000,
        1 <= v3_den_prod(t) <= 0x4000_0000_0000_0000,
{
    assert((1 <= t.y.d * t.z.d) && (1 <= t.x.d * t.z.d) && (1 <= t.x.d * t.y.d) && (1
        <= v3_den_prod(t)) && (t.y.d * t.z.d <= v3_den_prod(t)) && (t.x.d * t.z.d <= v3_den_prod(
        t,
    )) && (t.x.d * t.y.d <= v3_den_prod(t))) by (nonlinear_arith)
        requires
            t.x.d > 0,
            t.y.d > 0,
            t.z.d > 0,
            v3_den_prod(t) == t.x.d * (t.y.d * t.z.d),
    ;
}

/// The sum of three squares of 62-bit numbers stays within 126 bits.
proof fn lemma_sq_sum_bounds(ax: int, ay: int, az: int)
    requires
        iabs(ax) <= 0x4000_0000_0000_0000,
        iabs(ay) <= 0x4000_0000_0000_0000,
        iabs(az) <= 0x4000_0000_0000_0000,
    ensures
        ax * ax <= 0x1000_0000_0000_0000_0000_0000_0000_0000,
        ay * ay <= 0x1000_0000_0000_0000_0000_0000_0000_0000,
        az * az <= 0x1000_0000_0000_0000_0000_0000_0000_0000,
        0 <= ax * ax,
        0 <= ay * ay,
        0 <= az * az,
{
    assert((ax * ax <= 0x1000_0000_0000_0000_0000_0000_0000_0000) && (ay * ay
        <= 0x1000_0000_0000_0000_0000_0000_0000_0000) && (az * az
        <= 0x1000_0000_0000_0000_0000_0000_0000_0000) && 0 <= ax * ax && 0 <= ay * ay && 0 <= az
        * az) by (nonlinear_arith)
        requires
            iabs(ax) <= 0x4000_0000_0000_0000,
            iabs(ay) <= 0x4000_0000_0000_0000,
            iabs(az) <= 0x4000_0000_0000_0000,
    ;
}

/// A scaled numerator fits 62 bits because its square is bounded by the
/// scaled squared sum.
proof fn lemma_component_fits(a: int, sc: int, s_sum: int, t_in: int, p: int)
    requires
        sc >= 1,
        a * a <= s_sum,
        0 <= a * a,
        iabs(a) <= 0x4000_0000_0000_0000,
        t_in * 1 == s_sum * (sc * sc),
        sc == 1 || t_in <= 0x1000_0000_0000_0000_0000_0000_0000_0000,
        p >= 1,
    ensures
        iabs(a * sc) <= 0x4000_0000_0000_0000,
        (a * sc) * (a * sc) <= t_in,
{
    assert((a * sc) * (a * sc) == (a * a) * (sc * sc)) by (nonlinear_arith);
    assert((a * a) * (sc * sc) <= s_sum * (sc * sc)) by (nonlinear_arith)
        requires
            a * a <= s_sum,
            sc >= 1,
    ;
    if sc == 1 {
        assert(iabs(a * sc) <= 0x4000_0000_0000_0000) by (nonlinear_arith)
            requires
                sc == 1,
                iabs(a) <= 0x4000_0000_0000_0000,
        ;
    } else {
        assert(iabs(a * sc) <= 0x4000_0000_0000_0000) by (nonlinear_arith)
            requires
                (a * sc) * (a * sc) <= t_in,
                t_in <= 0x1000_0000_0000_0000_0000_0000_0000_0000,
        ;
    }
}

/// Builds one normalized component `a * sc / p` as a canonical scalar.
fn scaled_component(a: i128, sc: i128, p: u128) -> (r: Scalar)
    requires
        1 <= p < 0x8000_0000_0000_0000u128,
        1 <= sc,
        iabs(a as int * sc as int) <= 0x4000_0000_0000_0000,
    ensures
        rat_eq(r@, Rat { n: a as int * sc as int, d: p as int }),
        r@.d > 0,
{
    proof {
        lemma_canon(a as int * sc as int, p as int);
    }
    let num = a * sc;
    let r = crate::scalar::reduce_pair(num, p as i128);
    proof {
        use_type_invariant(&r);
    }
    r
}


/// The dot product of a vector with itself is nonnegative.
pub proof fn lemma_dot_self_nonneg(a: Triple)
    requires
        v3_wf(a),
    ensures
        v3_dot(a, a).d > 0,
        0 <= v3_dot(a, a).n,
{
    let px = rmul(a.x, a.x);
    let py = rmul(a.y, a.y);
    let pz = rmul(a.z, a.z);
    lemma_sq_nonneg(a.x);
    lemma_sq_nonneg(a.y);
    lemma_sq_nonneg(a.z);
    let sxy = radd(px, py);
    assert(qadd(px, py).n >= 0 && qadd(px, py).d > 0) by (nonlinear_arith)
        requires
            px.n >= 0,
            py.n >= 0,
            px.d > 0,
            py.d > 0,
    ;
    lemma_canon(qadd(px, py).n, qadd(px, py).d);
    assert(sxy.n >= 0) by (nonlinear_arith)
        requires
            sxy.n * qadd(px, py).d == qadd(px, py).n * sxy.d,
            qadd(px, py).n >= 0,
            qadd(px, py).d > 0,
            sxy.d > 0,
    ;
    assert(qadd(sxy, pz).n >= 0 && qadd(sxy, pz).d > 0) by (nonlinear_arith)
        requires
            sxy.n >= 0,
            pz.n >= 0,
            sxy.d > 0,
            pz.d > 0,
    ;
    lemma_canon(qadd(sxy, pz).n, qadd(sxy, pz).d);
    let s = radd(sxy, pz);
    assert(s.n >= 0) by (nonlinear_arith)
        requires
            s.n * qadd(sxy, pz).d == qadd(sxy, pz).n * s.d,
            qadd(sxy, pz).n >= 0,
            qadd(sxy, pz).d > 0,
            s.d > 0,
    ;
}

/// The canonical square of a value is nonnegative.
proof fn lemma_sq_nonneg(a: Rat)
    requires
        a.d > 0,
    ensures
        rmul(a, a).d > 0,
        0 <= rmul(a, a).n,
{
    let c = rmul(a, a);
    assert(qmul(a, a).n >= 0 && qmul(a, a).d > 0) by (nonlinear_arith)
        requires
            a.d > 0,
    ;
    lemma_canon(qmul(a, a).n, qmul(a, a).d);
    assert(c.n >= 0) by (nonlinear_arith)
        requires
            c.n * qmul(a, a).d == qmul(a, a).n * c.d,
            qmul(a, a).n >= 0,
            qmul(a, a).d > 0,
            c.d > 0,
    ;
}


/// The squared length of a vector, written over the common denominator: the
/// canonical dot product of `t` with itself equals `v3_sq_sum / den_prod^2`.
proof fn lemma_dot_self_value(t: Triple)
    requires
        v3_wf(t),
    ensures
        v3_dot(t, t).d > 0,
        v3_den_prod(t) * v3_den_prod(t) > 0,
        rat_eq(v3_dot(t, t), Rat { n: v3_sq_sum(t), d: v3_den_prod(t) * v3_den_prod(t) }),
{
    let x = t.x;
    let y = t.y;
    let z = t.z;
    lemma_rop_values(x, x);
    lemma_rop_values(y, y);
    lemma_rop_values(z, z);
    let c1 = rmul(x, x);
    let c2 = rmul(y, y);
    let c3 = rmul(z, z);
    lemma_rop_values(c1, c2);
    lemma_rop_values(qmul(x, x), qmul(y, y));
    let s12 = radd(c1, c2);
    lemma_rat_eq_congruence(c1, c2, qmul(x, x), qmul(y, y));
    let q12 = qadd(qmul(x, x), qmul(y, y));
    lemma_rat_eq_trans(s12, qadd(c1, c2), q12);
    lemma_rop_values(s12, c3);
    lemma_rop_values(q12, qmul(z, z));
    lemma_rat_eq_congruence(s12, c3, q12, qmul(z, z));
    let s = radd(s12, c3);
    let qq = qadd(q12, qmul(z, z));
    lemma_rat_eq_trans(s, qadd(s12, c3), qq);
    // The raw chain equals the common-denominator form structurally.
    let nx = x.n;
    let dx = x.d;
    let ny = y.n;
    let dy = y.d;
    let nz = z.n;
    let dz = z.d;
    vstd::arithmetic::mul::lemma_mul_is_distributive_add_other_way(
        dz * dz,
        (nx * nx) * (dy * dy),
        (ny * ny) * (dx * dx),
    );
    assert(((nx * nx) * (dy * dy)) * (dz * dz) == (nx * (dy * dz)) * (nx * (dy * dz)))
        by (nonlinear_arith);
    assert(((ny * ny) * (dx * dx)) * (dz * dz) == (ny * (dx * dz)) * (ny * (dx * dz)))
        by (nonlinear_arith);
    assert((nz * nz) * ((dx * dx) * (dy * dy)) == (nz * (dx * dy)) * (nz * (dx * dy)))
        by (nonlinear_arith);
    assert(((dx * dx) * (dy * dy)) * (dz * dz) == (dx * (dy * dz)) * (dx * (dy * dz)))
        by (nonlinear_arith);
    let tgt = Rat { n: v3_sq_sum(t), d: v3_den_prod(t) * v3_den_prod(t) };
    assert(qq.n == tgt.n && qq.d == tgt.d);
    assert(tgt.d > 0) by (nonlinear_arith)
        requires
            dx > 0,
            dy > 0,
            dz > 0,
            tgt.d == (dx * (dy * dz)) * (dx * (dy * dz)),
    ;
    lemma_rat_eq_trans(s, qq, tgt);
}

/// The dot product of a vector whose components all equal fractions over one
/// common denominator `p`.
proof fn lemma_dot_self_scaled(u: Triple, a1: int, a2: int, a3: int, p: int)
    requires
        v3_wf(u),
        p >= 1,
        rat_eq(u.x, Rat { n: a1, d: p }),
        rat_eq(u.y, Rat { n: a2, d: p }),
        rat_eq(u.z, Rat { n: a3, d: p }),
    ensures
        v3_dot(u, u).d > 0,
        rat_eq(v3_dot(u, u), Rat { n: a1 * a1 + a2 * a2 + a3 * a3, d: p * p }),
{
    let w1 = Rat { n: a1, d: p };
    let w2 = Rat { n: a2, d: p };
    let w3 = Rat { n: a3, d: p };
    lemma_rop_values(u.x, u.x);
    lemma_rop_values(u.y, u.y);
    lemma_rop_values(u.z, u.z);
    lemma_rat_eq_congruence(u.x, u.x, w1, w1);
    lemma_rat_eq_congruence(u.y, u.y, w2, w2);
    lemma_rat_eq_congruence(u.z, u.z, w3, w3);
    let c1 = rmul(u.x, u.x);
    let c2 = rmul(u.y, u.y);
    let c3 = rmul(u.z, u.z);
    assert(p * p > 0) by (nonlinear_arith)
        requires
            p >= 1,
    ;
    lemma_rat_eq_trans(c1, qmul(u.x, u.x), qmul(w1, w1));
    lemma_rat_eq_trans(c2, qmul(u.y, u.y), qmul(w2, w2));
    lemma_rat_eq_trans(c3, qmul(u.z, u.z), qmul(w3, w3));
    let b12 = Rat { n: a1 * a1 + a2 * a2, d: p * p };
    let b = Rat { n: a1 * a1 + a2 * a2 + a3 * a3, d: p * p };
    let s12 = radd(c1, c2);
    lemma_rop_values(c1, c2);
    lemma_rat_eq_congruence(c1, c2, qmul(w1, w1), qmul(w2, w2));
    assert(rat_eq(qadd(qmul(w1, w1), qmul(w2, w2)), b12)) by {
        vstd::arithmetic::mul::lemma_mul_is_distributive_add_other_way(
            (p * p) * (p * p),
            a1 * a1,
            a2 * a2,
        );
        vstd::arithmetic::mul::lemma_mul_is_distributive_add_other_way(
            p * p,
            (a1 * a1) * (p * p),
            (a2 * a2) * (p * p),
        );
        vstd::arithmetic::mul::lemma_mul_is_associative(a1 * a1, p * p, p * p);
        vstd::arithmetic::mul::lemma_mul_is_associative(a2 * a2, p * p, p * p);
    }
    lemma_rop_values(qmul(w1, w1), qmul(w2, w2));
    lemma_rat_eq_trans(s12, qadd(c1, c2), qadd(qmul(w1, w1), qmul(w2, w2)));
    lemma_rat_eq_trans(s12, qadd(qmul(w1, w1), qmul(w2, w2)), b12);
    let s = radd(s12, c3);
    lemma_rop_values(s12, c3);
    lemma_rat_eq_congruence(s12, c3, b12, qmul(w3, w3));
    assert(rat_eq(qadd(b12, qmul(w3, w3)), b)) by {
        vstd::arithmetic::mul::lemma_mul_is_distributive_add_other_way(
            (p * p) * (p * p),
            a1 * a1 + a2 * a2,
            a3 * a3,
        );
        vstd::arithmetic::mul::lemma_mul_is_distributive_add_other_way(
            p * p,
            (a1 * a1 + a2 * a2) * (p * p),
            (a3 * a3) * (p * p),
        );
        vstd::arithmetic::mul::lemma_mul_is_associative(a1 * a1 + a2 * a2, p * p, p * p);
        vstd::arithmetic::mul::lemma_mul_is_associative(a3 * a3, p * p, p * p);
    }
    lemma_rop_values(b12, qmul(w3, w3));
    lemma_rat_eq_trans(s, qadd(s12, c3), qadd(b12, qmul(w3, w3)));
    lemma_rat_eq_trans(s, qadd(b12, qmul(w3, w3)), b);
}

/// After the scaling loop stops, the bracketing fraction `t_in / p^2` sits in
/// the window `[1, 1 + unit_err()]`.
proof fn lemma_unit_window(t_in: int, p: int, m: int, dd: int, sc: int, s_sum: int)
    requires
        1 <= sc,
        m == dd * sc,
        t_in * 1 == s_sum * (sc * sc),
        dd >= 1,
        s_sum >= 1,
        s_sum * 10000000000 >= dd * dd,
        m > 0x2000_0000_0000_0000 || t_in > 0x0400_0000_0000_0000_0000_0000_0000_0000,
        p >= 1,
        p * p <= t_in,
        t_in < (p + 1) * (p + 1),
    ensures
        rat_le(rat_one(), Rat { n: t_in, d: p * p }),
        rat_le(qabs(qsub(Rat { n: t_in, d: p * p }, rat_one())), unit_err()),
        p * p > 0,
{
    assert(p * p > 0) by (nonlinear_arith)
        requires
            p >= 1,
    ;
    if t_in > 0x0400_0000_0000_0000_0000_0000_0000_0000 {
        assert(p >= 0x200_0000_0000) by (nonlinear_arith)
            requires
                t_in < (p + 1) * (p + 1),
                t_in > 0x0400_0000_0000_0000_0000_0000_0000_0000,
                p >= 1,
        ;
    } else {
        assert(t_in * 10000000000 >= m * m) by (nonlinear_arith)
            requires
                t_in * 1 == s_sum * (sc * sc),
                s_sum * 10000000000 >= dd * dd,
                m == dd * sc,
        ;
        assert(p >= 0x200_0000_0000) by (nonlinear_arith)
            requires
                t_in * 10000000000 >= m * m,
                m > 0x2000_0000_0000_0000,
                t_in < (p + 1) * (p + 1),
                p >= 1,
        ;
    }
    assert(rat_le(rat_one(), Rat { n: t_in, d: p * p }));
    assert(t_in - p * p <= 2 * p) by (nonlinear_arith)
        requires
            t_in < (p + 1) * (p + 1),
    ;
    let shortfall = qsub(Rat { n: t_in, d: p * p }, rat_one());
    assert(shortfall.n == t_in * 1 - 1 * (p * p) && shortfall.d == (p * p) * 1);
    assert(qabs(shortfall).n * unit_err().d <= unit_err().n * qabs(shortfall).d)
        by (nonlinear_arith)
        requires
            qabs(shortfall).n == t_in * 1 - 1 * (p * p),
            qabs(shortfall).d == (p * p) * 1,
            t_in - p * p <= 2 * p,
            p * p <= t_in,
            p >= 0x200_0000_0000,
    ;
}

/// Carries the near-one window across value equality.
proof fn lemma_near_one_transfer(a: Rat, b: Rat)
    requires
        a.d > 0,
        b.d > 0,
        rat_eq(a, b),
        rat_le(rat_one(), b),
        rat_le(qabs(qsub(b, rat_one())), unit_err()),
    ensures
        rat_le(rat_one(), a),
        rat_le(qabs(qsub(a, rat_one())), unit_err()),
{
    lemma_rat_eq_order(a, b, rat_one());
    lemma_rat_eq_congruence(a, rat_one(), b, rat_one());
    let sa = qsub(a, rat_one());
    let sb = qsub(b, rat_one());
    assert(sa.n >= 0 && sa.d > 0 && sb.n >= 0 && sb.d > 0) by (nonlinear_arith)
        requires
            a.d > 0,
            b.d > 0,
            rat_le(rat_one(), a),
            rat_le(rat_one(), b),
            sa == qsub(a, rat_one()),
            sb == qsub(b, rat_one()),
    ;
    assert(qabs(sa) == sa && qabs(sb) == sb);
    lemma_rat_eq_order(sa, sb, unit_err());
}

/// One normalized component, scaled back by `p / m`, reproduces the original
/// component exactly.
proof fn lemma_scaled_witness(
    u: Rat,
    a: int,
    sc: int,
    p: int,
    m: int,
    xn: int,
    xd: int,
    other: int,
)
    requires
        u.d > 0,
        p >= 1,
        rat_eq(u, Rat { n: a * sc, d: p }),
        a == xn * other,
        m == (xd * other) * sc,
    ensures
        rat_eq(qmul(u, Rat { n: p, d: m }), Rat { n: xn, d: xd }),
{
    assert((u.n * p) * xd == xn * (u.d * m)) by (nonlinear_arith)
        requires
            u.n * p == (a * sc) * u.d,
            a == xn * other,
            m == (xd * other) * sc,
    ;
}


impl Vec3 {
    /// Checked normalization under its alternative name.
    pub fn try_normalize(self) -> (r: Option<Vec3>)
        requires
            v3_norm_ok(self@),
        ensures
            r is None <==> rat_lt(v3_dot(self@, self@), eps_std_sq()),
            r matches Option::Some(u) ==> v3_unit_result(u@, self@),
    {
        self.normalize()
    }

    /// Normalizes, substituting the caller's fallback for a degenerate
    /// vector.
    pub fn normalize_or(self, fallback: Vec3) -> (r: Vec3)
        requires
            v3_norm_ok(self@),
        ensures
            rat_lt(v3_dot(self@, self@), eps_std_sq()) ==> r == fallback,
            !rat_lt(v3_dot(self@, self@), eps_std_sq()) ==> v3_unit_result(r@, self@),
    {
        match self.normalize() {
            Some(u) => u,
            None => fallback,
        }
    }

    /// Normalizes, substituting the zero vector for a degenerate input.
    pub fn normalize_or_zero(self) -> (r: Vec3)
        requires
            v3_norm_ok(self@),
        ensures
            rat_lt(v3_dot(self@, self@), eps_std_sq()) ==> r@ == (Triple {
                x: rat_zero(),
                y: rat_zero(),
                z: rat_zero(),
            }),
            !rat_lt(v3_dot(self@, self@), eps_std_sq()) ==> v3_unit_result(r@, self@),
    {
        match self.normalize() {
            Some(u) => u,
            None => Vec3::zero(),
        }
    }

    /// The unchecked fast path: normalization for callers who have already
    /// shown the vector long enough.  The guard lives in the precondition,
    /// so no runtime check and no fallible result remain.
    pub fn normalize_unchecked(self) -> (r: Vec3)
        requires
            v3_norm_ok(self@),
            rat_le(eps_std_sq(), v3_dot(self@, self@)),
        ensures
            v3_unit_result(r@, self@),
    {
        match self.normalize() {
            Some(u) => u,
            None => unreached(),
        }
    }

    /// A homogeneous tuple as a vector: succeeds exactly when the tuple's
    /// `w` component tolerantly equals zero at the standard tier.
    pub fn try_from_tuple(t: crate::tuple::Tuple4) -> (r: Result<Vec3, &'static str>)
        ensures
            r is Ok <==> approx_at_spec(t@.w, rat_zero(), EpsilonTier::Standard),
            r matches Ok(v) ==> v@ == (Triple { x: t@.x, y: t@.y, z: t@.z }),
    {
        if t.is_vector() {
            Ok(Vec3::new(t.x, t.y, t.z))
        } else {
            Err("invalid w component for a vector")
        }
    }

    /// Whether the squared length sits within the standard threshold of one.
    pub fn is_normalized(self) -> (r: bool)
        requires
            v3_dot_ok(self@, self@),
        ensures
            r == rat_le(
                qabs(qsub(v3_dot(self@, self@), rat_one())),
                crate::epsilon::tier_eps(EpsilonTier::Standard),
            ),
    {
        let ls = self.length_squared();
        proof {
            use_type_invariant(&ls);
        }
        let (ln, ld) = ls.parts();
        let diff: i128 = if ln >= ld {
            (ln as i128) - (ld as i128)
        } else {
            (ld as i128) - (ln as i128)
        };
        crate::arith::frac_le(diff, ld as i128, 1, 100000)
    }
}

/// A value known to sit within `unit_err()` above one compares equal to one
/// at the standard tier: what normalization promises is enough for the
/// tolerance policy.
pub proof fn lemma_near_one_is_approx_one(a: Rat)
    requires
        a.d > 0,
        rat_le(rat_one(), a),
        rat_le(qabs(qsub(a, rat_one())), unit_err()),
    ensures
        approx_at_spec(a, rat_one(), EpsilonTier::Standard),
{
    if !crate::rat::rat_eq(a, rat_one()) {
        let nn = a.n;
        let dd = a.d;
        assert(1 * dd <= nn * 1 && nn * 1 != 1 * dd);
        assert(nn > dd) by (nonlinear_arith)
            requires
                1 * dd <= nn * 1,
                nn * 1 != 1 * dd,
        ;
        assert(qsub(a, rat_one()).n == nn * 1 - 1 * dd && qsub(a, rat_one()).d == dd * 1);
        assert(qabs(qsub(a, rat_one())).n == nn * 1 - 1 * dd) by (nonlinear_arith)
            requires
                qsub(a, rat_one()).n == nn * 1 - 1 * dd,
                qabs(qsub(a, rat_one())).n == iabs(qsub(a, rat_one()).n),
                nn > dd,
        ;
        assert((nn * 1 - 1 * dd) * 1099511627776 <= 1 * (dd * 1));
        let m = qmax(qabs(a), qabs(rat_one()));
        assert(m == a) by (nonlinear_arith)
            requires
                nn > dd,
                dd > 0,
                m == qmax(qabs(a), qabs(rat_one())),
                a == (Rat { n: nn, d: dd }),
        ;
        assert(!rat_lt(m, rat_one())) by (nonlinear_arith)
            requires
                m == a,
                a == (Rat { n: nn, d: dd }),
                nn > dd,
                dd > 0,
        ;
        let diff = qabs(qsub(a, rat_one()));
        let thr = qmax(
            crate::epsilon::tier_eps(EpsilonTier::Standard),
            qmul(crate::epsilon::tier_eps(EpsilonTier::Standard), m),
        );
        assert(rat_lt(diff, thr)) by (nonlinear_arith)
            requires
                diff.n == nn * 1 - 1 * dd,
                diff.d == dd * 1,
                thr == qmax(
                    (Rat { n: 1, d: 100000 }),
                    qmul((Rat { n: 1, d: 100000 }), (Rat { n: nn, d: dd })),
                ),
                (nn * 1 - 1 * dd) * 1099511627776 <= 1 * (dd * 1),
                nn > dd,
                dd > 0,
        ;
    }
}



/// The measured length of a normalization result compares equal to one at
/// the standard tier: the near-one window of the exact squared length,
/// combined with the square root's shortfall bound, pins the root itself
/// next to one.
pub proof fn lemma_unit_length(ls: Rat, s: Rat)
    requires
        ls.d > 0,
        s.d > 0,
        rat_le(rat_one(), ls),
        rat_le(qabs(qsub(ls, rat_one())), unit_err()),
        0 <= s.n,
        rat_le(qmul(s, s), ls),
        rat_le(qsub(ls, qmul(s, s)), qmul(crate::rat::sqrt_err(), qmax(rat_one(), ls))),
    ensures
        approx_at_spec(s, rat_one(), EpsilonTier::Standard),
{
    let a = s.n;
    let b = s.d;
    let ln = ls.n;
    let ld = ls.d;
    assert(ld <= ln);
    // The window above one, in integers.
    assert(qsub(ls, rat_one()).n == ln * 1 - 1 * ld && qsub(ls, rat_one()).d == ld * 1);
    assert(qabs(qsub(ls, rat_one())).n == ln * 1 - 1 * ld);
    assert((ln * 1 - 1 * ld) * 1099511627776 <= 1 * (ld * 1));
    assert((ln - ld) * 1099511627776 <= ld) by (nonlinear_arith)
        requires
            (ln * 1 - 1 * ld) * 1099511627776 <= 1 * (ld * 1),
    ;
    // The root from above: a * K <= (K + 1) * b for K = 2^40.
    assert((a * a) * ld <= ln * (b * b));
    assert(ln * 1099511627776 <= ld * (1099511627776 + 1)) by (nonlinear_arith)
        requires
            (ln - ld) * 1099511627776 <= ld,
    ;
    assert((a * a) * 1099511627776 <= (1099511627776 + 1) * (b * b)) by (nonlinear_arith)
        requires
            (a * a) * ld <= ln * (b * b),
            ln * 1099511627776 <= ld * (1099511627776 + 1),
            ld > 0,
            b > 0,
    ;
    assert(a * 1099511627776 <= (1099511627776 + 1) * b) by (nonlinear_arith)
        requires
            (a * a) * 1099511627776 <= (1099511627776 + 1) * (b * b),
            0 <= a,
            0 < b,
    ;
    // The root from below: a * K >= (K - 2) * b for K = 2^59.
    let shortfall = qsub(ls, qmul(s, s));
    assert(shortfall.n == ln * (b * b) - (a * a) * ld && shortfall.d == ld * (b * b));
    if rat_lt(rat_one(), ls) {
        assert(qmax(rat_one(), ls) == ls);
        assert((ln * (b * b) - (a * a) * ld) * (576460752303423488 * ld) <= ln * (ld * (b
            * b)));
        assert((ln * (b * b) - (a * a) * ld) * 576460752303423488 <= ln * (b * b))
            by (nonlinear_arith)
            requires
                (ln * (b * b) - (a * a) * ld) * (576460752303423488 * ld) <= ln * (ld * (b * b)),
                ld > 0,
        ;
    } else {
        assert(ln == ld);
        assert(qmax(rat_one(), ls) == rat_one());
        assert((ln * (b * b) - (a * a) * ld) * 576460752303423488 <= 1 * (ld * (b * b)));
        assert((ln * (b * b) - (a * a) * ld) * 576460752303423488 <= ln * (b * b))
            by (nonlinear_arith)
            requires
                (ln * (b * b) - (a * a) * ld) * 576460752303423488 <= 1 * (ld * (b * b)),
                ln == ld,
                ld > 0,
    ;
    }
    assert((a * a) * 576460752303423488 >= (576460752303423488 - 1) * (b * b))
        by (nonlinear_arith)
        requires
            (ln * (b * b) - (a * a) * ld) * 576460752303423488 <= ln * (b * b),
            ld <= ln,
            (a * a) * ld <= ln * (b * b),
            ld > 0,
            b > 0,
    ;
    assert(a * 576460752303423488 >= (576460752303423488 - 2) * b) by (nonlinear_arith)
        requires
            (a * a) * 576460752303423488 >= (576460752303423488 - 1) * (b * b),
            0 <= a,
            0 < b,
    ;
    // Assemble the tolerant comparison.
    if !rat_eq(s, rat_one()) {
        let m = qmax(qabs(s), qabs(rat_one()));
        let diff = qabs(qsub(s, rat_one()));
        if a < b {
            assert(m == rat_one());
            assert(!rat_lt(m, rat_one()));
            assert(diff.n == b - a && diff.d == b * 1) by (nonlinear_arith)
                requires
                    diff == qabs(qsub(s, rat_one())),
                    s == (Rat { n: a, d: b }),
                    a < b,
            ;
            assert((b - a) * 100000 < 1 * (b * 1)) by (nonlinear_arith)
                requires
                    a * 576460752303423488 >= (576460752303423488 - 2) * b,
                    a < b,
                    0 < b,
            ;
            assert(rat_lt(diff, qmax(tier_eps_view(), qmul(tier_eps_view(), m))))
                by (nonlinear_arith)
                requires
                    diff.n == b - a,
                    diff.d == b * 1,
                    (b - a) * 100000 < 1 * (b * 1),
                    m == rat_one(),
                    0 < b,
            ;
        } else {
            assert(b < a) by (nonlinear_arith)
                requires
                    !(a * 1 == 1 * b),
                    !(a < b),
            ;
            assert(m == s) by (nonlinear_arith)
                requires
                    b < a,
                    b > 0,
                    m == qmax(qabs(s), qabs(rat_one())),
                    s == (Rat { n: a, d: b }),
            ;
            assert(!rat_lt(m, rat_one())) by (nonlinear_arith)
                requires
                    m == s,
                    s == (Rat { n: a, d: b }),
                    b < a,
                    b > 0,
            ;
            assert(diff.n == a - b && diff.d == b * 1) by (nonlinear_arith)
                requires
                    diff == qabs(qsub(s, rat_one())),
                    s == (Rat { n: a, d: b }),
                    b < a,
            ;
            assert((a - b) * 100000 < 1 * b) by (nonlinear_arith)
                requires
                    a * 1099511627776 <= (1099511627776 + 1) * b,
                    b < a,
                    0 < b,
            ;
            assert(rat_lt(diff, qmax(tier_eps_view(), qmul(tier_eps_view(), m))))
                by (nonlinear_arith)
                requires
                    diff.n == a - b,
                    diff.d == b * 1,
                    (a - b) * 100000 < 1 * b,
                    m == s,
                    s == (Rat { n: a, d: b }),
                    b < a,
                    0 < b,
            ;
        }
    }
}

/// The standard tier's threshold, under a short name for the proof above.
spec fn tier_eps_view() -> Rat {
    crate::epsilon::tier_eps(EpsilonTier::Standard)
}

} // verus!

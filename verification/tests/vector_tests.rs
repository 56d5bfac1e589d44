//! Vectors, points and homogeneous tuples.

use raytracer::point::{point, Point3};
use raytracer::scalar::Scalar;
use raytracer::tuple::Tuple4;
use raytracer::vector::{vector, Vec3};

fn ratio(n: i64, d: i64) -> Scalar {
    Scalar::from_ratio(n, d)
}

fn whole(n: i64) -> Scalar {
    Scalar::from_int(n)
}

fn vec_i(x: i64, y: i64, z: i64) -> Vec3 {
    vector(whole(x), whole(y), whole(z))
}

#[test]
fn test_equality_is_exact() {
    let t1 = Vec3::new(whole(1), whole(2), whole(3));
    let t2 = Vec3::new(whole(1), whole(2), whole(3));
    assert_eq!(t1, t2);
}

#[test]
fn test_equality_is_inside_epsilon_range() {
    let t1 = vec_i(1, 2, 3);
    let t2 = Vec3::new(
        ratio(10000005, 10000000),
        ratio(20000001, 10000000),
        ratio(29999999, 10000000),
    );
    assert_eq!(t1, t2);
}

#[test]
fn test_inequality_is_outside_epsilon_range() {
    let t1 = vec_i(1, 2, 3);
    let t2 = Vec3::new(ratio(10001, 10000), whole(2), whole(3));
    assert_ne!(t1, t2);
}

#[test]
fn test_equality_with_epsilon_edge_case() {
    // One tolerance below, one tolerance above the standard threshold.
    let t1 = vec_i(1, 2, 3);
    let t2 = Vec3::new(ratio(1000009, 1000000), whole(2), whole(3));
    assert_eq!(t1, t2);

    let t3 = Vec3::new(ratio(1000011, 1000000), whole(2), whole(3));
    assert_ne!(t1, t3);
}

#[test]
fn vec3_equality_is_exact() {
    let t1 = vec_i(1, 2, 3);
    let t2 = vec_i(1, 2, 3);
    assert_eq!(t1, t2);
}

#[test]
fn vec3_equality_is_inside_epsilon_range() {
    let t1 = vec_i(1, 2, 3);
    let t2 = Vec3::new(
        ratio(10000005, 10000000),
        ratio(20000001, 10000000),
        ratio(29999999, 10000000),
    );
    assert_eq!(t1, t2);
}

#[test]
fn vec3_inequality_is_outside_epsilon_range() {
    let t1 = vec_i(1, 2, 3);
    let t2 = Vec3::new(ratio(10001, 10000), whole(2), whole(3));
    assert_ne!(t1, t2);
}

#[test]
fn vec3_equality_with_epsilon_edge_case() {
    let t1 = vec_i(1, 2, 3);
    let t2 = Vec3::new(ratio(1000009, 1000000), whole(2), whole(3));
    assert_eq!(t1, t2);
    let t3 = Vec3::new(ratio(1000011, 1000000), whole(2), whole(3));
    assert_ne!(t1, t3);
}

#[test]
fn test_magnitude_positive_nonunit() {
    let t1 = vec_i(1, 2, 3);
    let sqrt14 = ratio(37416573867739413, 10000000000000000);
    assert!(t1.length().approx_eq(sqrt14));
}

#[test]
fn test_magnitude_negative_nonunit() {
    let t1 = vec_i(-1, -2, -3);
    let sqrt14 = ratio(37416573867739413, 10000000000000000);
    assert!(t1.magnitude().approx_eq(sqrt14));
}

#[test]
fn test_magnitude_squared_avoids_sqrt() {
    let v = vec_i(3, 4, 0);
    assert!(v.length_squared() == whole(25));
}

#[test]
fn vec3_magnitude_squared_avoids_sqrt() {
    let v = vec_i(3, 4, 0);
    assert!(v.magnitude_sqrd() == whole(25));
}

#[test]
fn test_zero_magnitude_is_zero() {
    let v = vec_i(0, 0, 0);
    assert!(v.length() == whole(0));
}

#[test]
fn vec3_zero_magnitude_iz_zero() {
    let v = Vec3::zero();
    assert!(v.magnitude() == whole(0));
}

#[test]
fn test_normalize_simple_vector() {
    let t1 = vec_i(4, 0, 0);
    assert_eq!(t1.normalize().unwrap(), vec_i(1, 0, 0));
}

#[test]
fn test_normalize_non_simple_vector() {
    let t1 = vec_i(1, 2, 3);
    let inv_sqrt14 = ratio(2672612419124244, 10000000000000000);
    let expected = Vec3::new(
        inv_sqrt14,
        inv_sqrt14.mul(whole(2)),
        inv_sqrt14.mul(whole(3)),
    );
    assert_eq!(t1.try_normalize(), Some(expected));
}

#[test]
fn vec3_normalize_zero_vector_returns_none() {
    let zero = Vec3::zero();
    assert!(zero.normalize().is_none());
}

#[test]
fn test_try_normalize_zero_vector_is_none() {
    assert!(Vec3::zero().try_normalize().is_none());
}

#[test]
fn test_try_normalize_tiny_vector_is_none() {
    // A nonzero but far-below-threshold vector normalizes to the absent
    // value rather than to meaningless components.
    let t1 = Vec3::splat(ratio(1, 1000000000000000000));
    assert!(t1.try_normalize().is_none());
}

#[test]
fn test_try_normalize_unit_vector_is_some() {
    let t1 = vec_i(1, 1, 1);
    assert!(t1.try_normalize().is_some());
}

#[test]
fn test_normalize_or_with_nonzero_vector() {
    let t1 = vec_i(3, 4, 0);
    let normalized = t1.normalize_or(Vec3::zero());
    assert!(normalized.length().approx_eq(whole(1)));
}

#[test]
fn test_normalize_or_with_zero_vector_returns_fallback() {
    let fallback = vec_i(1, 0, 0);
    assert_eq!(Vec3::zero().normalize_or(fallback), fallback);
}

#[test]
fn test_normalize_or_with_tiny_vector_returns_fallback() {
    let t1 = Vec3::splat(ratio(1, 1000000000000000000));
    let fallback = vec_i(0, 1, 0);
    assert_eq!(t1.normalize_or(fallback), fallback);
}

#[test]
fn test_normalize_produces_unit_direction() {
    // Each normalization result matches the unit vector along its input.
    let u = vec_i(1, 2, 3).normalize().unwrap();
    let expected = Vec3::new(
        ratio(267261241912424, 1000000000000000),
        ratio(534522483824849, 1000000000000000),
        ratio(801783725737273, 1000000000000000),
    );
    assert_eq!(u, expected);

    // A Pythagorean direction normalizes to exact small rationals.
    let w = vec_i(-5, 12, 0).normalize().unwrap();
    assert_eq!(w, Vec3::new(ratio(-5, 13), ratio(12, 13), whole(0)));

    // A tiny vector right at the threshold still normalizes.
    let t = Vec3::splat(ratio(1, 100000)).normalize().unwrap();
    let third = ratio(577350269189626, 1000000000000000);
    assert_eq!(t, Vec3::new(third, third, third));
}

#[test]
fn test_dot_product_of_two_vectors() {
    let t1 = vec_i(1, 2, 3);
    let t2 = vec_i(2, 3, 4);
    assert!(t1.dot(t2) == whole(20));
}

#[test]
fn test_cross_product_of_two_vectors() {
    let t1 = vec_i(1, 2, 3);
    let t2 = vec_i(2, 3, 4);
    assert_eq!(t1.cross(t2), vec_i(-1, 2, -1));
    assert_eq!(t2.cross(t1), vec_i(1, -2, 1));
}

#[test]
fn vec3_reflection_approaching_at_45_degrees() {
    let v = vec_i(1, -1, 0);
    let n = vec_i(0, 1, 0);
    assert_eq!(v.reflect(n), vec_i(1, 1, 0));
}

#[test]
fn test_reflecting_at_45_degrees() {
    let v = vec_i(1, -1, 0);
    let normal = vec_i(0, 1, 0);
    assert_eq!(v.reflect(normal), vec_i(1, 1, 0));
}

#[test]
fn test_reflecting_off_slanted_surface() {
    let v = vec_i(0, -1, 0);
    let sqrt2_div2 = ratio(70710678, 100000000);
    let normal = vector(sqrt2_div2, sqrt2_div2, whole(0));
    assert_eq!(v.reflect(normal), vec_i(1, 0, 0));
}

#[test]
fn vec3_reflection_off_slanted_surface() {
    let v = vec_i(0, -1, 0);
    let sqrt2_div2 = ratio(70710678, 100000000);
    let n = vector(sqrt2_div2, sqrt2_div2, whole(0));
    assert_eq!(v.reflect(n), vec_i(1, 0, 0));
}

#[test]
fn test_lerp_endpoints_and_midpoint() {
    let a = vec_i(0, 0, 0);
    let b = vec_i(10, 20, 30);
    assert_eq!(a.lerp(b, whole(0)), a);
    assert_eq!(a.lerp(b, whole(1)), b);
    assert_eq!(a.lerp(b, ratio(1, 2)), vec_i(5, 10, 15));
    // Extrapolation outside the unit range is meaningful.
    assert_eq!(a.lerp(b, whole(2)), vec_i(20, 40, 60));
}

#[test]
fn test_point_vector_combinations() {
    // Point + vector is a point; point - point is a vector;
    // point - vector is a point.
    let p = point(whole(3), whole(-2), whole(5));
    let v = vec_i(-2, 3, 1);
    let moved = p.add(v);
    assert_eq!(moved, point(whole(1), whole(1), whole(6)));
    let back = moved.sub(p);
    assert_eq!(back, v);
    assert_eq!(moved.sub_vec(v), p);
}

#[test]
fn test_tuple_point_and_vector_flags() {
    let p = Tuple4::new(whole(4), whole(-4), whole(3), whole(1));
    assert!(p.is_point());
    assert!(!p.is_vector());
    let v = Tuple4::new(whole(4), whole(-4), whole(3), whole(0));
    assert!(v.is_vector());
    assert!(!v.is_point());
}

#[test]
fn test_tuple_arithmetic() {
    let a = Tuple4::new(whole(3), whole(-2), whole(5), whole(1));
    let b = Tuple4::new(whole(-2), whole(3), whole(1), whole(0));
    assert_eq!(a.add(b), Tuple4::new(whole(1), whole(1), whole(6), whole(1)));
    let c = Tuple4::new(whole(1), whole(-2), whole(3), whole(-4));
    assert_eq!(c.neg(), Tuple4::new(whole(-1), whole(2), whole(-3), whole(4)));
    assert_eq!(
        c.mul(ratio(7, 2)),
        Tuple4::new(ratio(7, 2), whole(-7), ratio(21, 2), whole(-14))
    );
    assert_eq!(
        c.div(whole(2)),
        Tuple4::new(ratio(1, 2), whole(-1), ratio(3, 2), whole(-2))
    );
}

#[test]
fn test_tuple_conversions_check_w() {
    let pt = Tuple4::new(whole(4), whole(-4), whole(3), whole(1));
    let p = Point3::try_from_tuple(pt).unwrap();
    assert_eq!(p, point(whole(4), whole(-4), whole(3)));
    assert!(Vec3::try_from_tuple(pt).is_err());

    let vt = Tuple4::new(whole(4), whole(-4), whole(3), whole(0));
    let v = Vec3::try_from_tuple(vt).unwrap();
    assert_eq!(v, vec_i(4, -4, 3));
    assert!(Point3::try_from_tuple(vt).is_err());

    // A slightly off w still passes the tolerant test.
    let near = Tuple4::new(whole(1), whole(2), whole(3), ratio(1000001, 1000000));
    assert!(Point3::try_from_tuple(near).is_ok());
}

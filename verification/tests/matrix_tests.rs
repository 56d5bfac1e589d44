//! Matrices, colors and the canvas serialization.

use raytracer::canvas::Canvas;
use raytracer::color::{bytes_to_color, color, color_to_bytes, Color3};
use raytracer::matrix::Matrix;
use raytracer::tuple::Tuple4;
use raytracer::scalar::Scalar;

fn ratio(n: i64, d: i64) -> Scalar {
    Scalar::from_ratio(n, d)
}

fn whole(n: i64) -> Scalar {
    Scalar::from_int(n)
}

fn mat_i(dim: usize, entries: &[i64]) -> Matrix {
    let mut buf = Vec::new();
    for &e in entries {
        buf.push(whole(e));
    }
    Matrix::new(dim, buf).unwrap()
}

#[test]
fn test_matrix_creation() {
    let mut buf = Vec::new();
    for e in [
        (1, 1),
        (2, 1),
        (3, 1),
        (4, 1),
        (11, 2),
        (13, 2),
        (15, 2),
        (17, 2),
        (9, 1),
        (10, 1),
        (11, 1),
        (12, 1),
        (27, 2),
        (29, 2),
        (31, 2),
        (33, 2),
    ] {
        buf.push(ratio(e.0, e.1));
    }
    let m = Matrix::new(4, buf).unwrap();
    assert!(m.get(0, 0) == whole(1));
    assert!(m.get(0, 3) == whole(4));
    assert!(m.get(1, 0) == ratio(11, 2));
    assert!(m.get(1, 2) == ratio(15, 2));
    assert!(m.get(2, 2) == whole(11));
    assert!(m.get(3, 0) == ratio(27, 2));
    assert!(m.get(3, 2) == ratio(31, 2));
}

#[test]
fn test_matrix_dimension_mismatch_is_error() {
    let mut buf = Vec::new();
    for k in 0..5i64 {
        buf.push(whole(k));
    }
    assert!(Matrix::new(2, buf).is_err());
}

#[test]
fn test_matrix_equality() {
    let entries = [1, 2, 3, 4, 5, 6, 7, 8, 9, 8, 7, 6, 5, 4, 3, 2];
    let a = mat_i(4, &entries);
    let b = mat_i(4, &entries);
    assert_eq!(a, b);
}

#[test]
fn test_matrix_inequality_across_dimensions() {
    let a = mat_i(2, &[1, 2, 3, 4]);
    let b = mat_i(3, &[1, 2, 3, 4, 5, 6, 7, 8, 9]);
    assert_ne!(a, b);
}

#[test]
fn test_matrix_addition() {
    let a = mat_i(2, &[7, 3, -4, 2]);
    let b = mat_i(2, &[1, 4, 6, -5]);
    let actual = a.add(&b);
    let expected = mat_i(2, &[8, 7, 2, -3]);
    assert_eq!(actual, expected);
}

#[test]
fn test_matrix_subtraction() {
    let a = mat_i(2, &[2, -4, 3, 1]);
    let b = mat_i(2, &[1, 4, -2, 3]);
    let actual = a.sub(&b);
    let expected = mat_i(2, &[1, -8, 5, -2]);
    assert_eq!(actual, expected);
}

#[test]
fn test_matrix_multiplication() {
    let a = mat_i(4, &[1, 2, 3, 4, 5, 6, 7, 8, 9, 8, 7, 6, 5, 4, 3, 2]);
    let b = mat_i(4, &[-2, 1, 2, 3, 3, 2, 1, -1, 4, 3, 6, 5, 1, 2, 7, 8]);
    let expected = mat_i(
        4,
        &[20, 22, 50, 48, 44, 54, 114, 108, 40, 58, 110, 102, 16, 26, 46, 42],
    );
    assert_eq!(a.mul(&b), expected);
}

#[test]
fn test_matrix_times_identity_is_matrix() {
    let a = mat_i(4, &[0, 1, 2, 4, 1, 2, 4, 8, 2, 4, 8, 16, 4, 8, 16, 32]);
    let id = Matrix::identity(4);
    assert_eq!(a.mul(&id), a);
}

#[test]
fn test_matrix_transpose() {
    let a = mat_i(4, &[0, 9, 3, 0, 9, 8, 0, 8, 1, 8, 5, 3, 0, 0, 5, 8]);
    let expected = mat_i(4, &[0, 9, 1, 0, 9, 8, 8, 0, 3, 0, 5, 5, 0, 8, 3, 8]);
    assert_eq!(a.transpose(), expected);
    let id = Matrix::identity(4);
    assert_eq!(id.transpose(), Matrix::identity(4));
}

#[test]
fn test_matrix_times_tuple() {
    let a = mat_i(4, &[1, 2, 3, 4, 2, 4, 4, 2, 8, 6, 4, 1, 0, 0, 0, 1]);
    let t = Tuple4::new(whole(1), whole(2), whole(3), whole(1));
    let r = a.mul_tuple(&t);
    assert_eq!(r, Tuple4::new(whole(18), whole(24), whole(33), whole(1)));
}

#[test]
fn test_determinant_two_by_two() {
    let a = mat_i(2, &[1, 5, -3, 2]);
    assert!(a.determinant() == whole(17));
}

#[test]
fn test_determinant_three_by_three() {
    let a = mat_i(3, &[1, 2, 6, -5, 8, -4, 2, 6, 4]);
    assert!(a.cofactor(0, 0) == whole(56));
    assert!(a.cofactor(0, 1) == whole(12));
    assert!(a.cofactor(0, 2) == whole(-46));
    assert!(a.determinant() == whole(-196));
}

#[test]
fn test_determinant_four_by_four() {
    let a = mat_i(4, &[-2, -8, 3, 5, -3, 1, 7, 3, 1, 2, -9, 6, -6, 7, 7, -9]);
    assert!(a.cofactor(0, 0) == whole(690));
    assert!(a.cofactor(0, 1) == whole(447));
    assert!(a.cofactor(0, 2) == whole(210));
    assert!(a.cofactor(0, 3) == whole(51));
    assert!(a.determinant() == whole(-4071));
}

#[test]
fn test_submatrix_and_minor() {
    let a = mat_i(3, &[3, 5, 0, 2, -1, -7, 6, -1, 5]);
    let sub = a.submatrix(1, 0);
    assert_eq!(sub, mat_i(2, &[5, 0, -1, 5]));
    assert!(a.minor(1, 0) == whole(25));
    assert!(a.cofactor(1, 0) == whole(-25));
}

#[test]
fn test_singular_matrix_reports_not_invertible() {
    // Determinant zero: no inverse, and the absent value comes back.
    let a = mat_i(4, &[-4, 2, -2, -3, 9, 6, 2, 6, 0, -5, 1, -5, 0, 0, 0, 0]);
    assert!(a.determinant() == whole(0));
    assert!(!a.invertible());
    assert!(a.inverse().is_none());
}

#[test]
fn test_invertible_matrix_reports_invertible() {
    let a = mat_i(4, &[6, 4, 4, 4, 5, 5, 7, 6, 4, -9, 3, -7, 9, 1, 7, -6]);
    assert!(a.determinant() == whole(-2120));
    assert!(a.invertible());
    assert!(a.inverse().is_some());
}

#[test]
fn test_inverse_times_matrix_is_identity() {
    let a = mat_i(4, &[-5, 2, 6, -8, 1, -5, 1, 8, 7, 7, -6, -7, 1, -3, 7, 4]);
    let inv = a.inverse().unwrap();
    assert_eq!(a.mul(&inv), Matrix::identity(4));
    assert_eq!(inv.mul(&a), Matrix::identity(4));

    let b = mat_i(2, &[3, 5, 1, 2]);
    let binv = b.inverse().unwrap();
    assert_eq!(b.mul(&binv), Matrix::identity(2));
}

#[test]
fn test_inverse_known_entries() {
    let a = mat_i(4, &[-5, 2, 6, -8, 1, -5, 1, 8, 7, 7, -6, -7, 1, -3, 7, 4]);
    let inv = a.inverse().unwrap();
    assert!(a.determinant() == whole(532));
    // inverse[3][2] is the cofactor at (2, 3) over the determinant.
    assert!(inv.get(3, 2) == ratio(-160, 532));
    assert!(inv.get(2, 3) == ratio(105, 532));
}

#[test]
fn test_from_diagonal() {
    let mut values = Vec::new();
    values.push(whole(2));
    values.push(whole(3));
    values.push(whole(4));
    let m = Matrix::from_diagonal(&values);
    assert!(m.get(0, 0) == whole(2));
    assert!(m.get(1, 1) == whole(3));
    assert!(m.get(2, 2) == whole(4));
    assert!(m.get(0, 1) == whole(0));
}

#[test]
fn test_color_constructor() {
    let c1 = color(ratio(-1, 2), ratio(4, 10), ratio(17, 10));
    assert!(c1.r == ratio(-1, 2));
    assert!(c1.g == ratio(4, 10));
    assert!(c1.b == ratio(17, 10));
}

#[test]
fn test_can_be_muliplied_by_a_scalar() {
    let c1 = color(ratio(2, 10), ratio(3, 10), ratio(4, 10));
    let actual = c1.mul(whole(2));
    let expected = color(ratio(4, 10), ratio(6, 10), ratio(8, 10));
    assert_eq!(actual, expected);
}

#[test]
fn test_can_be_muliplied_with_each_other() {
    let c1 = color(whole(1), ratio(2, 10), ratio(4, 10));
    let c2 = color(ratio(9, 10), whole(1), ratio(2, 10));
    let actual = c1.hadamard(c2);
    let expected = color(ratio(9, 10), ratio(2, 10), ratio(8, 100));
    assert_eq!(actual, expected);
}

#[test]
fn test_color_addition_and_subtraction() {
    let c1 = color(ratio(9, 10), ratio(6, 10), ratio(75, 100));
    let c2 = color(ratio(7, 10), ratio(1, 10), ratio(25, 100));
    assert_eq!(c1.add(c2), color(ratio(16, 10), ratio(7, 10), whole(1)));
    assert_eq!(c1.sub(c2), color(ratio(2, 10), ratio(5, 10), ratio(5, 10)));
}

#[test]
fn test_round_trip_rgb_conversion() {
    for r in 0..=255u8 {
        for g in [0, 64, 128, 192, 255] {
            for b in [0, 127, 255] {
                let c = bytes_to_color(r, g, b);
                let out = color_to_bytes(c);
                assert_eq!(out, (r, g, b), "round trip failed for {:?}", (r, g, b));
            }
        }
    }
}

#[test]
fn test_byte_conversion_clamps() {
    // Channels outside the unit interval clamp before scaling.
    let c = color(ratio(15, 10), ratio(-3, 10), ratio(1, 2));
    assert_eq!(color_to_bytes(c), (255, 0, 128));
}

#[test]
fn test_canvas_constructor_sets_height_and_width() {
    let canvas1 = Canvas::new(10, 20);
    assert_eq!(canvas1.width(), 10);
    assert_eq!(canvas1.height(), 20);
}

#[test]
fn test_canvas_constructor_sets_all_pixels_to_black() {
    let canvas1 = Canvas::new(4, 6);
    for x in 0..3 {
        for y in 0..5 {
            assert_eq!(canvas1.pixel_at(x, y), color(whole(0), whole(0), whole(0)));
        }
    }
}

#[test]
fn test_pixels_can_be_written_to_a_canvas() {
    let mut canvas1 = Canvas::new(10, 20);
    let color1 = color(whole(1), whole(0), whole(0));
    canvas1.write_pixel(2, 3, color1);
    assert_eq!(canvas1.pixel_at(2, 3), color(whole(1), whole(0), whole(0)));
}

#[test]
fn test_ppm_header_and_single_pixel() {
    let canvas1 = Canvas::new(1, 1);
    assert_eq!(canvas1.to_ppm(), "P3\n1 1\n255\n0 0 0\n");
}

#[test]
fn test_ppm_lines_wrap_at_seventy_characters() {
    let mut canvas1 = Canvas::new(10, 2);
    let c = color(whole(1), ratio(8, 10), ratio(6, 10));
    for y in 0..2 {
        for x in 0..10 {
            canvas1.write_pixel(x, y, c);
        }
    }
    let ppm = canvas1.to_ppm();
    assert!(ppm.starts_with("P3\n10 2\n255\n"));
    // Every line stays within seventy characters, wrapping between values.
    for line in ppm.lines() {
        assert!(line.len() <= 70);
    }
    // The text ends with a newline.
    assert!(ppm.ends_with('\n'));
    // The wrapped body matches the fixture layout.
    let body: Vec<&str> = ppm.lines().skip(3).collect();
    assert_eq!(body.len(), 4);
    assert_eq!(
        body[0],
        "255 204 153 255 204 153 255 204 153 255 204 153 255 204 153 255 204"
    );
    assert_eq!(body[1], "153 255 204 153 255 204 153 255 204 153 255 204 153");
    assert_eq!(body[2], body[0]);
    assert_eq!(body[3], body[1]);
}

#[test]
fn test_from_fn_builds_by_position() {
    let m = Matrix::from_fn(3, |i: usize, j: usize| {
        Scalar::from_int(i as i64 * 10 + j as i64)
    });
    assert!(m.dim() == 3);
    assert!(m.get(0, 0) == whole(0));
    assert!(m.get(1, 2) == whole(12));
    assert!(m.get(2, 1) == whole(21));
}

//! The tolerance policy on scalars and on extended (non-finite) values.

use raytracer::epsilon::EpsilonTier;
use raytracer::equality::ApproxEqual;
use raytracer::error::{ConfigError, IoError, WorldError};
use raytracer::extended::Extended;
use raytracer::scalar::Scalar;

fn ratio(n: i64, d: i64) -> Scalar {
    Scalar::from_ratio(n, d)
}

fn whole(n: i64) -> Scalar {
    Scalar::from_int(n)
}

#[test]
fn test_low_precision_comparisons() {
    // Should pass with the loose (intersect) tier.
    assert!(whole(1).approx_eq_low_precision(ratio(10001, 10000)));
    assert!(whole(0).approx_eq_low_precision(ratio(1, 100000)));
    assert!(ratio(1, 10).add(ratio(2, 10)).approx_eq_low_precision(ratio(3, 10)));

    // Geometric calculation scenarios.
    let pi = ratio(3141592653589793, 1000000000000000);
    let value = ratio(314159, 100000);
    assert!(pi.approx_eq_low_precision(value));
    let e = ratio(2718281828459045, 1000000000000000);
    let value = ratio(271828, 100000);
    assert!(e.approx_eq_low_precision(value));

    // Should still fail for significant differences.
    assert!(!whole(1).approx_eq_low_precision(ratio(1001, 1000)));
    assert!(!whole(0).approx_eq_low_precision(ratio(1, 1000)));
}

#[test]
fn test_tight_precision_comparisons() {
    // Should pass with the tight tier.
    assert!(whole(1).approx_eq_at(whole(1), EpsilonTier::Tight));
    assert!(whole(0).approx_eq_at(whole(0), EpsilonTier::Tight));
    assert!(whole(1).approx_eq_at(ratio(10000000001, 10000000000), EpsilonTier::Tight));
    assert!(whole(-1).approx_eq_at(ratio(-9999999999, 10000000000), EpsilonTier::Tight));

    // Should fail with the tight tier.
    assert!(!whole(1).approx_eq_at(ratio(100000001, 100000000), EpsilonTier::Tight));
    assert!(!whole(0).approx_eq_at(ratio(1, 100000000), EpsilonTier::Tight));
    assert!(!whole(1).approx_eq_at(ratio(11, 10), EpsilonTier::Tight));
}

#[test]
fn test_custom_epsilon() {
    // Very strict.
    assert!(whole(1).approx_eq_epsilon(
        ratio(1000000000001, 1000000000000),
        ratio(1, 100000000000)
    ));
    assert!(!whole(1).approx_eq_epsilon(
        ratio(10000000001, 10000000000),
        ratio(1, 100000000000)
    ));

    // Very loose.
    assert!(whole(1).approx_eq_epsilon(ratio(3, 2), whole(1)));
    let pi = ratio(3141592653589793, 1000000000000000);
    assert!(pi.approx_eq_epsilon(ratio(22, 7), ratio(1, 100)));

    // Zero epsilon: exact equality only.
    assert!(whole(1).approx_eq_epsilon(whole(1), whole(0)));
    assert!(!whole(1).approx_eq_epsilon(ratio(1000000000000001, 1000000000000000), whole(0)));
}

#[test]
fn test_special_float_values() {
    let std_eps = EpsilonTier::Standard.value();
    // Infinities never compare equal, even to themselves.
    assert!(!Extended::PosInfinite.approx_eq_epsilon(Extended::PosInfinite, std_eps));
    assert!(!Extended::PosInfinite.approx_eq_epsilon(Extended::NegInfinite, std_eps));
    assert!(!Extended::NegInfinite.approx_eq_epsilon(Extended::NegInfinite, std_eps));
    assert!(!Extended::PosInfinite.approx_eq_epsilon(Extended::Finite(whole(1)), std_eps));

    // Not-a-number never equals anything.
    assert!(!Extended::Nan.approx_eq(Extended::Nan));
    assert!(!Extended::Nan.approx_eq_low_precision(Extended::Nan));
    assert!(!Extended::Nan.approx_eq_epsilon(Extended::Nan, whole(1)));
    assert!(!Extended::Nan.approx_eq_epsilon(Extended::Finite(whole(1)), whole(1)));

    // A finite value equals itself.
    assert!(Extended::Finite(whole(0)).approx_eq(Extended::Finite(whole(0))));
    assert!(Extended::Finite(whole(0)).approx_eq(Extended::Finite(ratio(0, -5))));
}

#[test]
fn test_tier_monotonicity_on_values() {
    // A pair inside the tight window is inside every looser window.
    let a = whole(1);
    let b = ratio(10000000001, 10000000000);
    assert!(a.approx_eq_at(b, EpsilonTier::Tight));
    assert!(a.approx_eq_at(b, EpsilonTier::Standard));
    assert!(a.approx_eq_at(b, EpsilonTier::Intersect));
    assert!(a.approx_eq_at(b, EpsilonTier::Coarse));

    // A pair inside only the loose windows.
    let c = ratio(100005, 1000000);
    let d = ratio(100006, 1000000);
    assert!(!c.approx_eq_at(d, EpsilonTier::Tight));
    assert!(c.approx_eq_at(d, EpsilonTier::Standard));
}

#[test]
fn test_is_equal_trait() {
    let a = ratio(1, 10).add(ratio(2, 10));
    let b = ratio(3, 10);
    assert!(a.is_equal(&b));
    let c = Extended::Finite(a);
    let d = Extended::Finite(b);
    assert!(c.is_equal(&d));
    assert!(!Extended::Nan.is_equal(&Extended::Nan));
}

#[test]
fn test_scalar_arithmetic_is_exact() {
    // A tenth added to two tenths is exactly three tenths.
    let s = ratio(1, 10).add(ratio(2, 10));
    assert!(s == ratio(3, 10));
    // Division multiplies by the reciprocal, exactly.
    let q = ratio(3, 10).div(ratio(3, 1));
    assert!(q == ratio(1, 10));
    // Square root comes from below, within its stated error.
    let r = whole(2).sqrt_approx();
    assert!(r.le(ratio(14142135623730951, 10000000000000000)));
    assert!(ratio(14142135623730949, 10000000000000000).le(r));
}

#[test]
fn test_error_messages() {
    assert_eq!(WorldError::EmptyScene.message(), "scene contains no objects to render");
    let io = IoError::FileOperation {
        operation: String::from("open"),
        filename: String::from("scene.ppm"),
        source: String::from("missing"),
    };
    assert_eq!(io.message(), "file operation failed");
    let cfg = ConfigError::MissingConfig {
        key: String::from("width"),
        file: String::from("render.toml"),
    };
    assert_eq!(cfg.message(), "missing configuration entry");
}

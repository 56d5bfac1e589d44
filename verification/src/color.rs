//! Three-channel colors.  Channels are unconstrained reals until the
//! explicit byte conversion, which clamps each channel to the unit interval
//! before scaling to the 0..=255 range and rounding to the nearest integer.
//! The byte round trip is exact for every triple.

use crate::epsilon::{approx_at_spec, EpsilonTier};
use crate::rat::{
    add_ok, mul_ok, radd, rat_lt, rat_one, rat_zero, rmul, rsub, sub_ok, Rat,
};
use crate::scalar::Scalar;
use vstd::arithmetic::div_mod::{
    lemma_fundamental_div_mod, lemma_fundamental_div_mod_converse,
};
use vstd::prelude::*;

verus! {

/// The ghost value of a color.
pub struct ColorVal {
    pub r: Rat,
    pub g: Rat,
    pub b: Rat,
}

pub open spec fn c3_add(a: ColorVal, b: ColorVal) -> ColorVal {
    ColorVal { r: radd(a.r, b.r), g: radd(a.g, b.g), b: radd(a.b, b.b) }
}

pub open spec fn c3_add_ok(a: ColorVal, b: ColorVal) -> bool {
    add_ok(a.r, b.r) && add_ok(a.g, b.g) && add_ok(a.b, b.b)
}

pub open spec fn c3_sub(a: ColorVal, b: ColorVal) -> ColorVal {
    ColorVal { r: rsub(a.r, b.r), g: rsub(a.g, b.g), b: rsub(a.b, b.b) }
}

pub open spec fn c3_sub_ok(a: ColorVal, b: ColorVal) -> bool {
    sub_ok(a.r, b.r) && sub_ok(a.g, b.g) && sub_ok(a.b, b.b)
}

pub open spec fn c3_scale(a: ColorVal, s: Rat) -> ColorVal {
    ColorVal { r: rmul(a.r, s), g: rmul(a.g, s), b: rmul(a.b, s) }
}

pub open spec fn c3_scale_ok(a: ColorVal, s: Rat) -> bool {
    mul_ok(a.r, s) && mul_ok(a.g, s) && mul_ok(a.b, s)
}

/// The Hadamard (componentwise) product — how a light color filters through
/// a surface color.  Not a dot product: the result is a color.
pub open spec fn c3_hadamard(a: ColorVal, b: ColorVal) -> ColorVal {
    ColorVal { r: rmul(a.r, b.r), g: rmul(a.g, b.g), b: rmul(a.b, b.b) }
}

pub open spec fn c3_hadamard_ok(a: ColorVal, b: ColorVal) -> bool {
    mul_ok(a.r, b.r) && mul_ok(a.g, b.g) && mul_ok(a.b, b.b)
}

/// A channel clamped to the unit interval.
pub open spec fn rclamp01(c: Rat) -> Rat {
    if rat_lt(c, rat_zero()) {
        rat_zero()
    } else if rat_lt(rat_one(), c) {
        rat_one()
    } else {
        c
    }
}

/// The byte a channel converts to: clamp to the unit interval, scale by 255,
/// round to the nearest integer.
pub open spec fn byte_of(c: Rat) -> int {
    let q = rclamp01(c);
    (510 * q.n + q.d) / (2 * q.d)
}

/// An RGB color with exact rational channels.
#[derive(Clone, Copy, Debug)]
pub struct Color3 {
    pub r: Scalar,
    pub g: Scalar,
    pub b: Scalar,
}

impl View for Color3 {
    type V = ColorVal;

    open spec fn view(&self) -> ColorVal {
        ColorVal { r: self.r@, g: self.g@, b: self.b@ }
    }
}

/// Creates a color.
pub fn color(r: Scalar, g: Scalar, b: Scalar) -> (c: Color3)
    ensures
        c@ == (ColorVal { r: r@, g: g@, b: b@ }),
{
    Color3::new(r, g, b)
}

impl Color3 {
    /// Creates a new color.
    pub fn new(r: Scalar, g: Scalar, b: Scalar) -> (c: Color3)
        ensures
            c@ == (ColorVal { r: r@, g: g@, b: b@ }),
    {
        Color3 { r, g, b }
    }

    /// A color with all channels set to the same value.
    pub fn splat(v: Scalar) -> (c: Color3)
        ensures
            c@ == (ColorVal { r: v@, g: v@, b: v@ }),
    {
        Color3 { r: v, g: v, b: v }
    }

    /// Black: all channels zero.
    pub fn black() -> (c: Color3)
        ensures
            c@ == (ColorVal { r: rat_zero(), g: rat_zero(), b: rat_zero() }),
    {
        Color3::splat(Scalar::zero())
    }

    /// White: all channels one.
    pub fn white() -> (c: Color3)
        ensures
            c@ == (ColorVal { r: rat_one(), g: rat_one(), b: rat_one() }),
    {
        Color3::splat(Scalar::one())
    }

    /// Channelwise sum.
    pub fn add(self, rhs: Color3) -> (c: Color3)
        requires
            c3_add_ok(self@, rhs@),
        ensures
            c@ == c3_add(self@, rhs@),
    {
        Color3 { r: self.r.add(rhs.r), g: self.g.add(rhs.g), b: self.b.add(rhs.b) }
    }

    /// Channelwise difference.
    pub fn sub(self, rhs: Color3) -> (c: Color3)
        requires
            c3_sub_ok(self@, rhs@),
        ensures
            c@ == c3_sub(self@, rhs@),
    {
        Color3 { r: self.r.sub(rhs.r), g: self.g.sub(rhs.g), b: self.b.sub(rhs.b) }
    }

    /// Scaling by a scalar.
    pub fn mul(self, s: Scalar) -> (c: Color3)
        requires
            c3_scale_ok(self@, s@),
        ensures
            c@ == c3_scale(self@, s@),
    {
        Color3 { r: self.r.mul(s), g: self.g.mul(s), b: self.b.mul(s) }
    }

    /// The Hadamard (componentwise) product with another color.
    pub fn hadamard(self, rhs: Color3) -> (c: Color3)
        requires
            c3_hadamard_ok(self@, rhs@),
        ensures
            c@ == c3_hadamard(self@, rhs@),
    {
        Color3 { r: self.r.mul(rhs.r), g: self.g.mul(rhs.g), b: self.b.mul(rhs.b) }
    }

    /// The 8-bit channels of this color.
    pub fn to_bytes(self) -> (r: (u8, u8, u8))
        ensures
            r.0 as int == byte_of(self@.r),
            r.1 as int == byte_of(self@.g),
            r.2 as int == byte_of(self@.b),
    {
        (channel_to_byte(self.r), channel_to_byte(self.g), channel_to_byte(self.b))
    }
}

/// A color from 8-bit channels, each scaled by one over 255.
pub fn bytes_to_color(r: u8, g: u8, b: u8) -> (c: Color3)
    ensures
        c@.r.n * 255 == r as int * c@.r.d,
        c@.g.n * 255 == g as int * c@.g.d,
        c@.b.n * 255 == b as int * c@.b.d,
{
    Color3 {
        r: Scalar::from_ratio(r as i64, 255),
        g: Scalar::from_ratio(g as i64, 255),
        b: Scalar::from_ratio(b as i64, 255),
    }
}

/// The 8-bit channels of a color: clamped, scaled and rounded.
pub fn color_to_bytes(c: Color3) -> (r: (u8, u8, u8))
    ensures
        r.0 as int == byte_of(c@.r),
        r.1 as int == byte_of(c@.g),
        r.2 as int == byte_of(c@.b),
{
    c.to_bytes()
}

/// One channel's byte.
fn channel_to_byte(c: Scalar) -> (r: u8)
    ensures
        r as int == byte_of(c@),
{
    proof {
        use_type_invariant(&c);
    }
    let zero = Scalar::zero();
    let one = Scalar::one();
    if c.lt(zero) {
        proof {
            lemma_fundamental_div_mod_converse(510int * 0 + 1, 2int * 1, 0, 1);
        }
        0
    } else if one.lt(c) {
        proof {
            lemma_fundamental_div_mod_converse(510int * 1 + 1, 2int * 1, 255, 1);
        }
        255
    } else {
        let (n, d) = c.parts();
        let num: u128 = 510 * (n as u128) + (d as u128);
        let den: u128 = 2 * (d as u128);
        let q = num / den;
        proof {
            assert(0 <= n && n <= d) by (nonlinear_arith)
                requires
                    !(c@.n * 1 < 0 * c@.d),
                    !(1 * c@.d < c@.n * 1),
                    c@.d > 0,
                    n as int == c@.n,
                    d as int == c@.d,
            ;
            lemma_fundamental_div_mod(num as int, den as int);
            assert(q <= 255) by (nonlinear_arith)
                requires
                    num as int == den as int * (q as int) + (num as int % den as int),
                    0 <= num as int % den as int,
                    num as int == 510 * n as int + d as int,
                    den as int == 2 * d as int,
                    0 <= n as int <= d as int,
                    1 <= d as int,
            ;
        }
        q as u8
    }
}

/// Byte-to-color-to-byte is the identity on every channel value: converting
/// a byte to a unit-interval channel and back returns the byte.
pub proof fn lemma_byte_round_trip(v: int, c: Rat)
    requires
        0 <= v <= 255,
        c.d > 0,
        c.n * 255 == v * c.d,
    ensures
        byte_of(c) == v,
{
    assert(0 <= c.n && c.n <= c.d) by (nonlinear_arith)
        requires
            c.d > 0,
            c.n * 255 == v * c.d,
            0 <= v <= 255,
    ;
    assert(!rat_lt(c, rat_zero()) && !rat_lt(rat_one(), c)) by (nonlinear_arith)
        requires
            c.d > 0,
            0 <= c.n,
            c.n <= c.d,
    ;
    assert(rclamp01(c) == c);
    assert(510 * c.n + c.d == v * (2 * c.d) + c.d) by (nonlinear_arith)
        requires
            c.n * 255 == v * c.d,
    ;
    lemma_fundamental_div_mod_converse(510 * c.n + c.d, 2 * c.d, v, c.d);
}

impl PartialEq for Color3 {
    /// Tolerant equality at the standard tier, channel by channel.
    fn eq(&self, other: &Color3) -> (r: bool) {
        self.r.approx_eq(other.r) && self.g.approx_eq(other.g) && self.b.approx_eq(other.b)
    }
}

impl vstd::std_specs::cmp::PartialEqSpecImpl for Color3 {
    open spec fn obeys_eq_spec() -> bool {
        true
    }

    open spec fn eq_spec(&self, other: &Color3) -> bool {
        approx_at_spec(self@.r, other@.r, EpsilonTier::Standard) && approx_at_spec(
            self@.g,
            other@.g,
            EpsilonTier::Standard,
        ) && approx_at_spec(self@.b, other@.b, EpsilonTier::Standard)
    }
}

} // verus!

//! Linear RGB colour in integer milli-units: the channel value 255 of an
//! eight-bit image is stored as 255_000. Blending factors are per-mille:
//! 0 stands for 0.0 and 1000 for 1.0.

use vstd::prelude::*;

verus! {

/// Channel ceiling (milli-units) under which all blending arithmetic is
/// free of overflow.
pub const CHANNEL_LIMIT: i64 = 1_000_000_000;

/// One thousand: a blending factor of `FACTOR_ONE` means "entirely the
/// other colour".
pub const FACTOR_ONE: i64 = 1000;

#[derive(Clone, Copy, Debug, PartialEq, Eq, Structural)]
pub struct Color {
    pub r: i64,
    pub g: i64,
    pub b: i64,
}

/// One channel of a linear interpolation: `a` weighted `1000 - f`,
/// `b` weighted `f`, in per-mille.
pub open spec fn lerp_channel(a: int, b: int, f: int) -> int {
    (a * (1000 - f) + b * f) / 1000
}

impl Color {
    /// Channels stay in `[0, CHANNEL_LIMIT]`.
    pub open spec fn wf(self) -> bool {
        &&& 0 <= self.r <= CHANNEL_LIMIT
        &&& 0 <= self.g <= CHANNEL_LIMIT
        &&& 0 <= self.b <= CHANNEL_LIMIT
    }

    /// The colour `blend` returns: each channel linearly interpolated.
    pub open spec fn spec_blend(self, other: Color, factor: int) -> Color {
        Color {
            r: lerp_channel(self.r as int, other.r as int, factor) as i64,
            g: lerp_channel(self.g as int, other.g as int, factor) as i64,
            b: lerp_channel(self.b as int, other.b as int, factor) as i64,
        }
    }

    pub fn new(r: i64, g: i64, b: i64) -> (c: Color)
        ensures
            c == (Color { r, g, b }),
    {
        Color { r, g, b }
    }

    /// Linear interpolation towards `other`: factor 0 keeps `self`,
    /// factor 1000 gives `other`.
    pub fn blend(&self, other: &Color, factor: i64) -> (c: Color)
        requires
            self.wf(),
            other.wf(),
            0 <= factor <= FACTOR_ONE,
        ensures
            c == self.spec_blend(*other, factor as int),
            c.wf(),
    {
        let c = Color {
            r: blend_channel(self.r, other.r, factor),
            g: blend_channel(self.g, other.g, factor),
            b: blend_channel(self.b, other.b, factor),
        };
        c
    }

    /// Componentwise sum, for accumulating reflection samples.
    pub fn add(&self, other: &Color) -> (c: Color)
        requires
            self.r + other.r <= i64::MAX,
            self.g + other.g <= i64::MAX,
            self.b + other.b <= i64::MAX,
            i64::MIN <= self.r + other.r,
            i64::MIN <= self.g + other.g,
            i64::MIN <= self.b + other.b,
        ensures
            c.r == self.r + other.r,
            c.g == self.g + other.g,
            c.b == self.b + other.b,
    {
        Color { r: self.r + other.r, g: self.g + other.g, b: self.b + other.b }
    }

    /// The colour `scale` returns: each channel multiplied by the
    /// per-mille factor.
    pub open spec fn spec_scale(self, factor: int) -> Color {
        Color {
            r: (self.r * factor / 1000) as i64,
            g: (self.g * factor / 1000) as i64,
            b: (self.b * factor / 1000) as i64,
        }
    }

    /// Scale every channel by a per-mille factor (used for the Fresnel
    /// darkening of the sea).
    pub fn scale(&self, factor: i64) -> (c: Color)
        requires
            0 <= factor <= FACTOR_ONE,
            self.wf(),
        ensures
            c == self.spec_scale(factor as int),
            c.wf(),
    {
        proof {
            lemma_scale_channel(self.r as int, factor as int);
            lemma_scale_channel(self.g as int, factor as int);
            lemma_scale_channel(self.b as int, factor as int);
        }
        Color { r: self.r * factor / 1000, g: self.g * factor / 1000, b: self.b * factor / 1000 }
    }

    /// Divide every channel by a positive count, for averaging
    /// accumulated samples.
    pub fn scale_down(&self, divisor: i64) -> (c: Color)
        requires
            divisor >= 1,
            self.r >= 0,
            self.g >= 0,
            self.b >= 0,
        ensures
            c.r == self.r / divisor,
            c.g == self.g / divisor,
            c.b == self.b / divisor,
    {
        Color { r: self.r / divisor, g: self.g / divisor, b: self.b / divisor }
    }

    /// Eight-bit channels for the output raster: milli-units scaled down
    /// and clamped to `[0, 255]`.
    pub fn as_u8_array(&self) -> (a: [u8; 3])
        requires
            self.r >= 0,
            self.g >= 0,
            self.b >= 0,
        ensures
            a[0] == clamp_255(self.r as int),
            a[1] == clamp_255(self.g as int),
            a[2] == clamp_255(self.b as int),
    {
        [channel_to_u8(self.r), channel_to_u8(self.g), channel_to_u8(self.b)]
    }
}

/// Scaling a channel by a per-mille factor keeps it within its bounds.
proof fn lemma_scale_channel(ch: int, f: int)
    requires
        0 <= ch <= CHANNEL_LIMIT,
        0 <= f <= 1000,
    ensures
        0 <= ch * f / 1000 <= CHANNEL_LIMIT,
        ch * f <= 1000 * CHANNEL_LIMIT,
        0 <= ch * f,
{
    assert(0 <= ch * f <= 1000 * CHANNEL_LIMIT) by (nonlinear_arith)
        requires
            0 <= ch <= CHANNEL_LIMIT,
            0 <= f <= 1000,
    ;
    assert(0 <= ch * f / 1000 <= CHANNEL_LIMIT) by (nonlinear_arith)
        requires
            0 <= ch * f <= 1000 * CHANNEL_LIMIT,
    ;
}

/// The eight-bit value of a non-negative milli-unit channel.
pub open spec fn clamp_255(ch: int) -> u8 {
    if ch / 1000 > 255 {
        255u8
    } else {
        (ch / 1000) as u8
    }
}

fn channel_to_u8(ch: i64) -> (v: u8)
    requires
        ch >= 0,
    ensures
        v == clamp_255(ch as int),
{
    let d = ch / 1000;
    if d > 255 {
        255
    } else {
        d as u8
    }
}

fn blend_channel(a: i64, b: i64, f: i64) -> (c: i64)
    requires
        0 <= a <= CHANNEL_LIMIT,
        0 <= b <= CHANNEL_LIMIT,
        0 <= f <= FACTOR_ONE,
    ensures
        c == lerp_channel(a as int, b as int, f as int),
        0 <= c <= CHANNEL_LIMIT,
{
    proof {
        lemma_lerp_channel_bounds(a as int, b as int, f as int);
    }
    (a * (1000 - f) + b * f) / 1000
}

proof fn lemma_lerp_channel_bounds(a: int, b: int, f: int)
    requires
        0 <= a <= CHANNEL_LIMIT,
        0 <= b <= CHANNEL_LIMIT,
        0 <= f <= 1000,
    ensures
        0 <= a * (1000 - f) + b * f,
        a * (1000 - f) + b * f <= 1000 * CHANNEL_LIMIT,
        0 <= lerp_channel(a, b, f) <= CHANNEL_LIMIT,
{
    assert(0 <= a * (1000 - f) <= (1000 - f) * CHANNEL_LIMIT) by (nonlinear_arith)
        requires
            0 <= a <= CHANNEL_LIMIT,
            0 <= f <= 1000,
    ;
    assert(0 <= b * f <= f * CHANNEL_LIMIT) by (nonlinear_arith)
        requires
            0 <= b <= CHANNEL_LIMIT,
            0 <= f <= 1000,
    ;
    assert((1000 - f) * CHANNEL_LIMIT + f * CHANNEL_LIMIT == 1000 * CHANNEL_LIMIT) by (nonlinear_arith);
    assert(0 <= (a * (1000 - f) + b * f) / 1000 <= CHANNEL_LIMIT) by (nonlinear_arith)
        requires
            0 <= a * (1000 - f) + b * f <= 1000 * CHANNEL_LIMIT,
    ;
}

/// Blending by factor 0 keeps the first colour unchanged.
pub proof fn lemma_blend_zero(a: Color, b: Color)
    requires
        a.wf(),
        b.wf(),
    ensures
        a.spec_blend(b, 0) == a,
{
    assert(a.r * 1000 / 1000 == a.r) by (nonlinear_arith);
    assert(a.g * 1000 / 1000 == a.g) by (nonlinear_arith);
    assert(a.b * 1000 / 1000 == a.b) by (nonlinear_arith);
}

/// Blending by factor 1000 gives the second colour.
pub proof fn lemma_blend_one(a: Color, b: Color)
    requires
        a.wf(),
        b.wf(),
    ensures
        a.spec_blend(b, 1000) == b,
{
    assert(b.r * 1000 / 1000 == b.r) by (nonlinear_arith);
    assert(b.g * 1000 / 1000 == b.g) by (nonlinear_arith);
    assert(b.b * 1000 / 1000 == b.b) by (nonlinear_arith);
}

/// Blending a colour with itself changes nothing, whatever the factor.
pub proof fn lemma_blend_self(a: Color, f: int)
    requires
        a.wf(),
        0 <= f <= 1000,
    ensures
        a.spec_blend(a, f) == a,
{
    assert(a.r * (1000 - f) + a.r * f == a.r * 1000) by (nonlinear_arith);
    assert(a.g * (1000 - f) + a.g * f == a.g * 1000) by (nonlinear_arith);
    assert(a.b * (1000 - f) + a.b * f == a.b * 1000) by (nonlinear_arith);
    assert(a.r * 1000 / 1000 == a.r) by (nonlinear_arith);
    assert(a.g * 1000 / 1000 == a.g) by (nonlinear_arith);
    assert(a.b * 1000 / 1000 == a.b) by (nonlinear_arith);
}

/// The palette.
pub open spec fn spec_snow() -> Color {
    Color { r: 255_000, g: 255_000, b: 255_000 }
}

#[verifier::when_used_as_spec(spec_snow)]
pub fn snow() -> (c: Color)
    ensures
        c == spec_snow(),
        c.wf(),
{
    Color { r: 255_000, g: 255_000, b: 255_000 }
}

pub open spec fn spec_snow_dark() -> Color {
    Color { r: 10_000, g: 60_000, b: 80_000 }
}

#[verifier::when_used_as_spec(spec_snow_dark)]
pub fn snow_dark() -> (c: Color)
    ensures
        c == spec_snow_dark(),
        c.wf(),
{
    Color { r: 10_000, g: 60_000, b: 80_000 }
}

pub open spec fn spec_land_dark() -> Color {
    Color { r: 0, g: 0, b: 0 }
}

#[verifier::when_used_as_spec(spec_land_dark)]
pub fn land_dark() -> (c: Color)
    ensures
        c == spec_land_dark(),
        c.wf(),
{
    Color { r: 0, g: 0, b: 0 }
}

pub open spec fn spec_rock() -> Color {
    Color { r: 134_000, g: 138_000, b: 103_000 }
}

#[verifier::when_used_as_spec(spec_rock)]
pub fn rock() -> (c: Color)
    ensures
        c == spec_rock(),
        c.wf(),
{
    Color { r: 134_000, g: 138_000, b: 103_000 }
}

pub open spec fn spec_forest() -> Color {
    Color { r: 122_000, g: 132_000, b: 0 }
}

#[verifier::when_used_as_spec(spec_forest)]
pub fn forest() -> (c: Color)
    ensures
        c == spec_forest(),
        c.wf(),
{
    Color { r: 122_000, g: 132_000, b: 0 }
}

pub open spec fn spec_sea() -> Color {
    Color { r: 0, g: 42_000, b: 72_000 }
}

#[verifier::when_used_as_spec(spec_sea)]
pub fn sea() -> (c: Color)
    ensures
        c == spec_sea(),
        c.wf(),
{
    Color { r: 0, g: 42_000, b: 72_000 }
}

pub open spec fn spec_land_blue() -> Color {
    Color { r: 176_000, g: 215_000, b: 253_000 }
}

#[verifier::when_used_as_spec(spec_land_blue)]
pub fn land_blue() -> (c: Color)
    ensures
        c == spec_land_blue(),
        c.wf(),
{
    Color { r: 176_000, g: 215_000, b: 253_000 }
}

pub open spec fn spec_black() -> Color {
    Color { r: 0, g: 0, b: 0 }
}

#[verifier::when_used_as_spec(spec_black)]
pub fn black() -> (c: Color)
    ensures
        c == spec_black(),
        c.wf(),
{
    Color { r: 0, g: 0, b: 0 }
}

pub open spec fn spec_white() -> Color {
    Color { r: 255_000, g: 255_000, b: 255_000 }
}

#[verifier::when_used_as_spec(spec_white)]
pub fn white() -> (c: Color)
    ensures
        c == spec_white(),
        c.wf(),
{
    Color { r: 255_000, g: 255_000, b: 255_000 }
}

pub open spec fn spec_dark_sky_blue() -> Color {
    Color { r: 119_000, g: 181_000, b: 254_000 }
}

#[verifier::when_used_as_spec(spec_dark_sky_blue)]
pub fn dark_sky_blue() -> (c: Color)
    ensures
        c == spec_dark_sky_blue(),
        c.wf(),
{
    Color { r: 119_000, g: 181_000, b: 254_000 }
}

pub open spec fn spec_light_sky_blue() -> Color {
    Color { r: 233_000, g: 249_000, b: 255_000 }
}

#[verifier::when_used_as_spec(spec_light_sky_blue)]
pub fn light_sky_blue() -> (c: Color)
    ensures
        c == spec_light_sky_blue(),
        c.wf(),
{
    Color { r: 233_000, g: 249_000, b: 255_000 }
}

} // verus!

//! Shading arithmetic: terrain classification from height and slope, and
//! the blending pipelines for land, water and sky.
//!
//! The transcendental factors — sun light from the surface normal, the
//! atmospheric exponentials, the Fresnel reflectance — depend on floating
//! point and are computed by the program around the library; they arrive
//! here as per-mille integers, and everything from there on is exact.

use vstd::prelude::*;
use crate::color::{Color, black, dark_sky_blue, forest, land_blue, land_dark, light_sky_blue, rock, sea, snow, snow_dark, white};

verus! {

/// Slope components are accepted up to a thousand-to-one grade
/// (per-mille), which keeps their squares far from overflow.
pub const SLOPE_LIMIT: i64 = 1_000_000;

/// What the ground at a hit is shaded as.
#[derive(Clone, Copy, Debug, PartialEq, Eq, Structural)]
pub enum Surface {
    Water,
    Snow,
    Rock,
    Forest,
}

/// The squared slope in per-mille units: one million times the
/// dimensionless squared gradient.
pub open spec fn spec_grad(dhe: int, dhn: int) -> int {
    dhe * dhe + dhn * dhn
}

/// The classification rule. Heights and limits are centimetres; the
/// squared-gradient corrections of minus two hundred and plus one hundred
/// metres per unit of squared gradient become `- grad/50 cm` and
/// `+ grad/100 cm` in per-mille units.
pub open spec fn spec_classify(
    h: int,
    dhe: int,
    dhn: int,
    water_level: int,
    snow_limit: int,
    green_limit: int,
) -> Surface {
    let grad = spec_grad(dhe, dhn);
    if h <= water_level {
        Surface::Water
    } else if h - grad / 50 > snow_limit {
        Surface::Snow
    } else if h + grad / 100 > green_limit {
        Surface::Rock
    } else if grad > 800_000 {
        Surface::Rock
    } else {
        Surface::Forest
    }
}

/// Classify the ground at a hit: water below the configured level, then
/// snow, rock or forest by height corrected with the squared slope.
pub fn classify_terrain(
    height: i64,
    dhe: i64,
    dhn: i64,
    water_level: i64,
    snow_limit: i64,
    green_limit: i64,
) -> (s: Surface)
    requires
        -SLOPE_LIMIT <= dhe <= SLOPE_LIMIT,
        -SLOPE_LIMIT <= dhn <= SLOPE_LIMIT,
        -1_000_000_000_000 <= height <= 1_000_000_000_000,
    ensures
        s == spec_classify(
            height as int,
            dhe as int,
            dhn as int,
            water_level as int,
            snow_limit as int,
            green_limit as int,
        ),
{
    proof {
        assert(0 <= dhe * dhe <= 1_000_000_000_000 && 0 <= dhn * dhn
            <= 1_000_000_000_000) by (nonlinear_arith)
            requires
                -SLOPE_LIMIT <= dhe <= SLOPE_LIMIT,
                -SLOPE_LIMIT <= dhn <= SLOPE_LIMIT,
        ;
    }
    let grad = dhe * dhe + dhn * dhn;
    if height <= water_level {
        Surface::Water
    } else if height - grad / 50 > snow_limit {
        Surface::Snow
    } else if height + grad / 100 > green_limit {
        Surface::Rock
    } else if grad > 800_000 {
        Surface::Rock
    } else {
        Surface::Forest
    }
}

/// The base colour of lit land: the surface's dark tone blended towards
/// its lit colour by the sun factor.
pub fn land_base(surface: Surface, light_pm: i64) -> (c: Color)
    requires
        !(surface is Water),
        0 <= light_pm <= 1000,
    ensures
        surface is Snow ==> c == snow_dark().spec_blend(snow(), light_pm as int),
        surface is Rock ==> c == land_dark().spec_blend(rock(), light_pm as int),
        surface is Forest ==> c == land_dark().spec_blend(forest(), light_pm as int),
        c.wf(),
{
    match surface {
        Surface::Snow => snow_dark().blend(&snow(), light_pm),
        Surface::Rock => land_dark().blend(&rock(), light_pm),
        Surface::Forest => land_dark().blend(&forest(), light_pm),
        Surface::Water => black(),
    }
}

/// Distance haze: blend towards the distant blue, then towards white.
/// A blueness and whiteness of 1000 leave the colour untouched; 0 washes
/// it out entirely.
pub fn atmosphere(c: Color, blueness_pm: i64, whiteness_pm: i64) -> (r: Color)
    requires
        c.wf(),
        0 <= blueness_pm <= 1000,
        0 <= whiteness_pm <= 1000,
    ensures
        r == white().spec_blend(
            land_blue().spec_blend(c, blueness_pm as int),
            whiteness_pm as int,
        ),
        r.wf(),
{
    let blued = land_blue().blend(&c, blueness_pm);
    white().blend(&blued, whiteness_pm)
}

/// The colour of a water hit: flat sea blended towards the averaged
/// reflection by the shininess, then darkened by the Fresnel factor.
pub fn water_mix(reflection: Option<Color>, shininess_pm: i64, fresnel_pm: i64) -> (r: Color)
    requires
        reflection matches Some(rc) ==> rc.wf(),
        0 <= shininess_pm <= 1000,
        0 <= fresnel_pm <= 1000,
    ensures
        reflection matches Some(rc) ==> r == sea().spec_blend(
            rc,
            shininess_pm as int,
        ).spec_scale(fresnel_pm as int),
        reflection is None ==> r == sea().spec_scale(fresnel_pm as int),
        r.wf(),
{
    let seamix = match reflection {
        Some(rc) => sea().blend(&rc, shininess_pm),
        None => sea(),
    };
    seamix.scale(fresnel_pm)
}

/// The sky gradient: light blue blended towards dark blue by the
/// luminance factor, then towards white by the haze factor.
pub fn sky_mix(lum_pm: i64, haze_pm: i64) -> (r: Color)
    requires
        0 <= lum_pm <= 1000,
        0 <= haze_pm <= 1000,
    ensures
        r == white().spec_blend(
            light_sky_blue().spec_blend(dark_sky_blue(), lum_pm as int),
            haze_pm as int,
        ),
        r.wf(),
{
    let blended_blue = light_sky_blue().blend(&dark_sky_blue(), lum_pm);
    white().blend(&blended_blue, haze_pm)
}

} // verus!

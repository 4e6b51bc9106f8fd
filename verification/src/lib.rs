//! Core of a terrain panorama renderer: a spatial index over digital
//! elevation tiles, a curved-earth ray marcher with dual-resolution
//! promotion, the shading arithmetic, and the on-disk index codec.
//!
//! All geometry is modelled in integer centimetres on a single projected
//! Cartesian grid; colours are modelled in integer milli-units. The parts
//! of the surrounding program that need floating point (camera trig, sun
//! astronomy, atmospheric exponentials) hand this library plain integer
//! values and receive plain values back.

pub mod atlas;
pub mod color;
pub mod coord;
pub mod errors;
pub mod index;
pub mod intmath;
pub mod march;
pub mod shade;
pub mod tile;
pub mod zipmount;

//! The error kinds that tile and atlas queries and the renderer report.

use vstd::prelude::*;
use crate::coord::Coord;

verus! {

/// What can go wrong in the core. Tile names travel as raw bytes, the
/// form in which the index file stores them.
#[derive(Clone, Debug)]
pub enum Error {
    /// The coordinate is outside the named tile's coverage.
    LookupError(Coord, Vec<u8>),
    /// No tile of the atlas covers the coordinate.
    MapNotFound(Coord),
    /// The named tile's pixel body has not been materialized yet.
    MapNotLoaded(Vec<u8>),
    /// No ray of the horizon scan hit the ground.
    HorizonNotFound,
    /// A timestamp could not be understood.
    InvalidTimestamp(Vec<u8>),
    /// Anything else.
    Generic,
}

} // verus!

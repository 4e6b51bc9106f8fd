//! Two-dimensional world coordinates in integer centimetres.

use vstd::prelude::*;

verus! {

/// Largest coordinate magnitude, in centimetres, that the geometry works
/// with: 20 000 km, comfortably past any projected easting or northing.
pub const COORD_LIMIT: i64 = 2_000_000_000;

/// A point of the projected (Cartesian) grid: `e` grows to the east,
/// `n` to the north, both in centimetres.
#[derive(Clone, Copy, Debug, PartialEq, Eq, Structural, Hash)]
pub struct Coord {
    pub e: i64,
    pub n: i64,
}

impl Coord {
    /// The coordinate lies inside the world the library models.
    pub open spec fn wf(self) -> bool {
        &&& -COORD_LIMIT <= self.e <= COORD_LIMIT
        &&& -COORD_LIMIT <= self.n <= COORD_LIMIT
    }

    pub fn new(e: i64, n: i64) -> (c: Coord)
        ensures
            c.e == e,
            c.n == n,
    {
        Coord { e, n }
    }

    /// Componentwise sum.
    pub fn add(self, other: Coord) -> (c: Coord)
        requires
            i64::MIN <= self.e + other.e <= i64::MAX,
            i64::MIN <= self.n + other.n <= i64::MAX,
        ensures
            c.e == self.e + other.e,
            c.n == self.n + other.n,
    {
        Coord { e: self.e + other.e, n: self.n + other.n }
    }

    /// Componentwise difference.
    pub fn sub(self, other: Coord) -> (c: Coord)
        requires
            i64::MIN <= self.e - other.e <= i64::MAX,
            i64::MIN <= self.n - other.n <= i64::MAX,
        ensures
            c.e == self.e - other.e,
            c.n == self.n - other.n,
    {
        Coord { e: self.e - other.e, n: self.n - other.n }
    }
}

} // verus!

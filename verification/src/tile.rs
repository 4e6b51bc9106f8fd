//! A single elevation tile: a rectangular raster of ground heights with an
//! affine placement on the world grid, plus the coarse-cell hashing that
//! the atlas uses to bucket tiles.
//!
//! Units: world coordinates and heights are integer centimetres; gradients
//! are per-mille (centimetre rise per centimetre run, times 1000).

use vstd::prelude::*;
use vstd::arithmetic::div_mod::{lemma_div_is_ordered, lemma_fundamental_div_mod, lemma_mod_bound, lemma_div_pos_is_pos, lemma_div_by_multiple, lemma_div_multiples_vanish};
use crate::coord::{Coord, COORD_LIMIT};
use crate::errors::Error;
use crate::intmath::floor_div;
use vstd::slice::slice_to_vec;

verus! {

/// Side of a coarse hash cell: 10 km in centimetres.
pub const CELL_SIZE: i64 = 1_000_000;

/// Cell indices are shifted by this offset before packing, so that every
/// world coordinate within `COORD_LIMIT` lands on a non-negative index.
pub const CELL_OFFSET: i64 = 2048;

/// Row of the packed cell hash: one full range of shifted indices.
pub const CELL_SPAN: i64 = 4096;

/// Largest raster dimension, in samples.
pub const MAX_TILE_DIM: usize = 40_000;

/// Largest sample spacing: 1 km in centimetres.
pub const PIXEL_SIZE_LIMIT: i64 = 100_000;

/// Largest height magnitude a tile may store: 100 km in centimetres.
pub const HEIGHT_LIMIT: i64 = 10_000_000;

/// Longest tile name the index stores, in bytes.
pub const FNAME_LIMIT: usize = 4096;

/// Tile names are printable one-byte characters without quote or
/// backslash, so the index file stores them verbatim.
pub open spec fn fname_ok(s: Seq<u8>) -> bool {
    &&& s.len() <= FNAME_LIMIT
    &&& forall|i: int| 0 <= i < s.len()
        ==> 0x20 <= #[trigger] s[i] <= 0x7e && s[i] != 0x22 && s[i] != 0x5c
}

/// Check a tile name byte by byte.
pub fn fname_check(v: &Vec<u8>) -> (b: bool)
    ensures
        b == fname_ok(v@),
{
    if v.len() > FNAME_LIMIT {
        return false;
    }
    let mut i: usize = 0;
    while i < v.len()
        invariant
            i <= v@.len(),
            v@.len() <= FNAME_LIMIT,
            forall|j: int| 0 <= j < i
                ==> 0x20 <= #[trigger] v@[j] <= 0x7e && v@[j] != 0x22 && v@[j] != 0x5c,
        decreases v@.len() - i,
    {
        let c = v[i];
        if c < 0x20 || c > 0x7e || c == 0x22 || c == 0x5c {
            return false;
        }
        i = i + 1;
    }
    true
}

/// The coarse cell that a world position falls in, along one axis.
pub open spec fn cell_of(x: int) -> int {
    x / (CELL_SIZE as int)
}

/// The packed hash of a cell index pair. On the cell indices that
/// `COORD_LIMIT` admits the packing is injective, though the atlas never
/// relies on that: candidate lists are re-filtered by tile coverage.
pub open spec fn spec_hash_cell(ce: int, cn: int) -> u64 {
    ((ce + CELL_OFFSET) * CELL_SPAN + (cn + CELL_OFFSET)) as u64
}

/// The hash of the cell containing a coordinate.
pub open spec fn spec_coord_hash(c: Coord) -> u64 {
    spec_hash_cell(cell_of(c.e as int), cell_of(c.n as int))
}

/// The cell index of a coordinate component.
pub fn cell_floor(x: i64) -> (q: i64)
    requires
        -COORD_LIMIT <= x <= COORD_LIMIT,
    ensures
        q == cell_of(x as int),
{
    floor_div(x, CELL_SIZE)
}

/// Cell indices of coordinates within `COORD_LIMIT` are within the packing
/// range.
proof fn lemma_cell_bounds(x: int)
    requires
        -COORD_LIMIT <= x <= COORD_LIMIT,
    ensures
        -2000 <= cell_of(x) <= 2000,
{
    lemma_div_is_ordered(-COORD_LIMIT as int, x, CELL_SIZE as int);
    lemma_div_is_ordered(x, COORD_LIMIT as int, CELL_SIZE as int);
    lemma_fundamental_div_mod(-COORD_LIMIT as int, CELL_SIZE as int);
    lemma_mod_bound(-COORD_LIMIT as int, CELL_SIZE as int);
    lemma_fundamental_div_mod(COORD_LIMIT as int, CELL_SIZE as int);
    lemma_mod_bound(COORD_LIMIT as int, CELL_SIZE as int);
}

/// Pack a pair of in-range cell indices.
fn hash_cell(ce: i64, cn: i64) -> (h: u64)
    requires
        -CELL_OFFSET <= ce < CELL_OFFSET,
        -CELL_OFFSET <= cn < CELL_OFFSET,
    ensures
        h == spec_hash_cell(ce as int, cn as int),
{
    ((ce + CELL_OFFSET) * CELL_SPAN + (cn + CELL_OFFSET)) as u64
}

/// Equal coordinates always yield the same cell hash: the hash is a
/// mathematical function of the easting and northing alone, stable across
/// runs and processes.
pub proof fn lemma_cell_hash_stable(c1: Coord, c2: Coord)
    requires
        c1.e == c2.e,
        c1.n == c2.n,
    ensures
        spec_coord_hash(c1) == spec_coord_hash(c2),
{
}

/// Supplies tile pixel bodies on demand. The renderer's surroundings
/// implement this with the actual raster decoder; the core only assumes
/// that the call returns some samples or some error.
pub trait TileLoader {
    /// Produce the row-major elevation samples, in centimetres, of the
    /// named tile; the tile expects exactly `width * height` of them, each
    /// within `HEIGHT_LIMIT`.
    fn load_tile(&self, fname: &Vec<u8>, width: usize, height: usize) -> Result<Vec<i64>, Error>;
}

/// One elevation raster. Row 0 is the northern edge; sample `(i, j)` sits
/// at easting `origin_e + i * pixel_size` and northing
/// `origin_n - j * pixel_size`.
pub struct Tile {
    /// Name of the raster file the samples come from; raw bytes, as the
    /// index file stores them.
    pub fname: Vec<u8>,
    /// Samples per row.
    pub width: usize,
    /// Number of rows.
    pub height: usize,
    /// Easting of the first sample column, centimetres.
    pub origin_e: i64,
    /// Northing of the first sample row, centimetres.
    pub origin_n: i64,
    /// Sample spacing, centimetres.
    pub pixel_size: i64,
    /// The lazily materialized sample body, row-major, centimetres.
    pub image: Option<Vec<i64>>,
}

impl Tile {
    /// Easting of the last sample column.
    pub open spec fn e_max(self) -> int {
        self.origin_e + (self.width - 1) * self.pixel_size
    }

    /// Northing of the last sample row.
    pub open spec fn n_min(self) -> int {
        self.origin_n - (self.height - 1) * self.pixel_size
    }

    /// The header fields are within the world model's bounds, and the
    /// name is storable.
    pub open spec fn header_wf(self) -> bool {
        &&& fname_ok(self.fname@)
        &&& 1 <= self.width <= MAX_TILE_DIM
        &&& 1 <= self.height <= MAX_TILE_DIM
        &&& 1 <= self.pixel_size <= PIXEL_SIZE_LIMIT
        &&& -COORD_LIMIT <= self.origin_e
        &&& self.origin_e + self.width * self.pixel_size <= COORD_LIMIT
        &&& self.origin_n <= COORD_LIMIT
        &&& -COORD_LIMIT <= self.origin_n - self.height * self.pixel_size
    }

    /// A materialized body has exactly one sample per grid point, each
    /// within `HEIGHT_LIMIT`.
    pub open spec fn image_wf(self) -> bool {
        match self.image {
            Some(img) => {
                &&& img@.len() == self.width * self.height
                &&& forall|k: int| 0 <= k < img@.len() ==> -HEIGHT_LIMIT <= #[trigger] img@[k] <= HEIGHT_LIMIT
            },
            None => true,
        }
    }

    pub open spec fn wf(self) -> bool {
        self.header_wf() && self.image_wf()
    }

    /// Two tiles share every header field and carry equal bodies.
    pub open spec fn same_content(self, other: Tile) -> bool {
        &&& self.same_header(other)
        &&& match (self.image, other.image) {
            (Some(a), Some(b)) => a@ == b@,
            (None, None) => true,
            _ => false,
        }
    }

    /// Two tiles share every header field (the body may differ).
    pub open spec fn same_header(self, other: Tile) -> bool {
        &&& self.fname@ == other.fname@
        &&& self.width == other.width
        &&& self.height == other.height
        &&& self.origin_e == other.origin_e
        &&& self.origin_n == other.origin_n
        &&& self.pixel_size == other.pixel_size
    }

    /// The coordinate lies within the sample hull of the raster, where
    /// interpolation is defined.
    pub open spec fn covers(self, c: Coord) -> bool {
        &&& self.origin_e <= c.e <= self.e_max()
        &&& self.n_min() <= c.n <= self.origin_n
    }

    /// Build a tile header with no body. Succeeds exactly when the header
    /// fits the world model's bounds.
    pub fn new(
        fname: Vec<u8>,
        width: usize,
        height: usize,
        origin_e: i64,
        origin_n: i64,
        pixel_size: i64,
    ) -> (r: Result<Tile, Error>)
        ensures
            ({
                let t = Tile { fname, width, height, origin_e, origin_n, pixel_size, image: None };
                &&& (r matches Ok(t2) ==> t2 == t && t.wf())
                &&& (r is Ok <==> t.header_wf())
            }),
    {
        if !fname_check(&fname) {
            return Err(Error::Generic);
        }
        if width < 1 || width > MAX_TILE_DIM || height < 1 || height > MAX_TILE_DIM {
            return Err(Error::Generic);
        }
        if pixel_size < 1 || pixel_size > PIXEL_SIZE_LIMIT {
            return Err(Error::Generic);
        }
        let w = width as i64;
        let h = height as i64;
        proof {
            assert(1 <= w * pixel_size <= 4_000_000_000_000) by (nonlinear_arith)
                requires
                    1 <= w <= 40_000,
                    1 <= pixel_size <= PIXEL_SIZE_LIMIT,
            ;
            assert(1 <= h * pixel_size <= 4_000_000_000_000) by (nonlinear_arith)
                requires
                    1 <= h <= 40_000,
                    1 <= pixel_size <= PIXEL_SIZE_LIMIT,
            ;
        }
        if origin_e < -COORD_LIMIT || origin_e > COORD_LIMIT - w * pixel_size {
            return Err(Error::Generic);
        }
        if origin_n > COORD_LIMIT || origin_n < -COORD_LIMIT + h * pixel_size {
            return Err(Error::Generic);
        }
        Ok(Tile { fname, width, height, origin_e, origin_n, pixel_size, image: None })
    }

    /// Whether the pixel body has been materialized.
    pub fn is_loaded(&self) -> (b: bool)
        ensures
            b == (self.image is Some),
    {
        self.image.is_some()
    }

    /// The sample spacing, which names the tile's nominal resolution.
    pub fn resolution(&self) -> (r: i64)
        ensures
            r == self.pixel_size,
    {
        self.pixel_size
    }

    /// The hash of the coarse cell containing a coordinate.
    pub fn coord_to_hash(coord: &Coord) -> (h: u64)
        requires
            coord.wf(),
        ensures
            h == spec_coord_hash(*coord),
    {
        let ce = cell_floor(coord.e);
        let cn = cell_floor(coord.n);
        proof {
            lemma_cell_bounds(coord.e as int);
            lemma_cell_bounds(coord.n as int);
        }
        hash_cell(ce, cn)
    }

    /// Materialize the pixel body through the loader. Idempotent: a loaded
    /// tile is left untouched. On failure the tile is unchanged.
    pub fn load_image<L: TileLoader>(&mut self, loader: &L) -> (r: Result<(), Error>)
        requires
            old(self).wf(),
        ensures
            final(self).wf(),
            final(self).same_header(*old(self)),
            old(self).image is Some ==> r is Ok && *final(self) == *old(self),
            r is Ok ==> final(self).image is Some,
            r is Err ==> *final(self) == *old(self),
    {
        if self.image.is_some() {
            return Ok(());
        }
        proof {
            let ghost w = self.width;
            let ghost h = self.height;
            assert(w * h <= 1_600_000_000) by (nonlinear_arith)
                requires
                    1 <= w <= MAX_TILE_DIM,
                    1 <= h <= MAX_TILE_DIM,
            ;
        }
        let expected = self.width * self.height;
        match loader.load_tile(&self.fname, self.width, self.height) {
            Ok(data) => {
                if data.len() != expected {
                    return Err(Error::Generic);
                }
                if !samples_within_limit(&data) {
                    return Err(Error::Generic);
                }
                self.image = Some(data);
                Ok(())
            },
            Err(e) => Err(e),
        }
    }

    /// The cell index pair lies within the rectangle of cells the tile's
    /// coverage overlaps.
    pub open spec fn cell_in_rect(self, ce: int, cn: int) -> bool {
        &&& cell_of(self.origin_e as int) <= ce <= cell_of(self.e_max())
        &&& cell_of(self.n_min()) <= cn <= cell_of(self.origin_n as int)
    }

    /// The hash names some cell within the tile's cell rectangle.
    pub open spec fn hash_in_tile_rect(self, h: u64) -> bool {
        exists|a: int, b: int| self.cell_in_rect(a, b) && h == spec_hash_cell(a, b)
    }

    /// The hashes of every coarse cell the tile's coverage overlaps: the
    /// cells the atlas must list this tile under.
    pub fn hashes(&self) -> (r: Vec<u64>)
        requires
            self.header_wf(),
        ensures
            forall|ce: int, cn: int| self.cell_in_rect(ce, cn) ==> r@.contains(spec_hash_cell(ce, cn)),
            forall|k: int| #![trigger r@[k]] 0 <= k < r@.len() ==> self.hash_in_tile_rect(r@[k]),
    {
        proof {
            lemma_tile_extents(*self);
            lemma_cell_bounds(self.origin_e as int);
            lemma_cell_bounds(self.e_max());
            lemma_cell_bounds(self.n_min());
            lemma_cell_bounds(self.origin_n as int);
            lemma_div_is_ordered(self.origin_e as int, self.e_max(), CELL_SIZE as int);
            lemma_div_is_ordered(self.n_min(), self.origin_n as int, CELL_SIZE as int);
        }
        let w = self.width as i64;
        let h = self.height as i64;
        let e_hi = self.origin_e + (w - 1) * self.pixel_size;
        let n_lo = self.origin_n - (h - 1) * self.pixel_size;
        let ce0 = cell_floor(self.origin_e);
        let ce1 = cell_floor(e_hi);
        let cn0 = cell_floor(n_lo);
        let cn1 = cell_floor(self.origin_n);
        let mut r: Vec<u64> = Vec::new();
        let mut ce = ce0;
        while ce <= ce1
            invariant
                ce0 == cell_of(self.origin_e as int),
                ce1 == cell_of(self.e_max()),
                cn0 == cell_of(self.n_min()),
                cn1 == cell_of(self.origin_n as int),
                -2000 <= ce0 <= ce <= ce1 + 1,
                ce1 <= 2000,
                -2000 <= cn0 <= cn1 <= 2000,
                forall|a: int, b: int| ce0 <= a < ce && cn0 <= b <= cn1
                    ==> r@.contains(spec_hash_cell(a, b)),
                forall|k: int| #![trigger r@[k]] 0 <= k < r@.len() ==> self.hash_in_tile_rect(r@[k]),
            decreases ce1 - ce + 1,
        {
            let mut cn = cn0;
            while cn <= cn1
                invariant
                    ce0 == cell_of(self.origin_e as int),
                    ce1 == cell_of(self.e_max()),
                    cn0 == cell_of(self.n_min()),
                    cn1 == cell_of(self.origin_n as int),
                    -2000 <= ce0 <= ce <= ce1,
                    ce1 <= 2000,
                    -2000 <= cn0 <= cn <= cn1 + 1,
                    cn1 <= 2000,
                    forall|a: int, b: int| ce0 <= a < ce && cn0 <= b <= cn1
                        ==> r@.contains(spec_hash_cell(a, b)),
                    forall|b: int| cn0 <= b < cn ==> r@.contains(spec_hash_cell(ce as int, b)),
                    forall|k: int| #![trigger r@[k]] 0 <= k < r@.len() ==> self.hash_in_tile_rect(r@[k]),
                decreases cn1 - cn + 1,
            {
                let ghost r_before = r@;
                r.push(hash_cell(ce, cn));
                proof {
                    assert(r@ == r_before.push(spec_hash_cell(ce as int, cn as int)));
                    assert forall|a: int, b: int| ce0 <= a < ce && cn0 <= b <= cn1
                        implies r@.contains(spec_hash_cell(a, b)) by {
                        assert(r_before.contains(spec_hash_cell(a, b)));
                        let i = choose|i: int| 0 <= i < r_before.len() && r_before[i] == spec_hash_cell(a, b);
                        assert(r@[i] == spec_hash_cell(a, b));
                    }
                    assert forall|b: int| cn0 <= b <= cn
                        implies r@.contains(spec_hash_cell(ce as int, b)) by {
                        if b < cn {
                            assert(r_before.contains(spec_hash_cell(ce as int, b)));
                            let i = choose|i: int| 0 <= i < r_before.len()
                                && r_before[i] == spec_hash_cell(ce as int, b);
                            assert(r@[i] == spec_hash_cell(ce as int, b));
                        } else {
                            assert(r@[r_before.len() as int] == spec_hash_cell(ce as int, b));
                        }
                    }
                    assert(self.cell_in_rect(ce as int, cn as int));
                    assert forall|k: int| #![trigger r@[k]] 0 <= k < r@.len()
                        implies self.hash_in_tile_rect(r@[k]) by {
                        if k < r_before.len() {
                            assert(r@[k] == r_before[k]);
                        } else {
                            assert(self.cell_in_rect(ce as int, cn as int)
                                && r@[k] == spec_hash_cell(ce as int, cn as int));
                        }
                    }
                }
                cn = cn + 1;
            }
            ce = ce + 1;
        }
        r
    }
}

/// Whether every sample magnitude stays within `HEIGHT_LIMIT`.
fn samples_within_limit(data: &Vec<i64>) -> (b: bool)
    ensures
        b == (forall|i: int| 0 <= i < data@.len()
            ==> -HEIGHT_LIMIT <= #[trigger] data@[i] <= HEIGHT_LIMIT),
{
    let mut k: usize = 0;
    while k < data.len()
        invariant
            k <= data@.len(),
            forall|i: int| 0 <= i < k ==> -HEIGHT_LIMIT <= #[trigger] data@[i] <= HEIGHT_LIMIT,
        decreases data@.len() - k,
    {
        if data[k] < -HEIGHT_LIMIT || data[k] > HEIGHT_LIMIT {
            return false;
        }
        k = k + 1;
    }
    true
}

/// The sample-hull corner positions stay within `COORD_LIMIT`, and the
/// corner products stay small.
proof fn lemma_tile_extents(t: Tile)
    requires
        t.header_wf(),
    ensures
        0 <= (t.width - 1) * t.pixel_size <= t.width * t.pixel_size,
        0 <= (t.height - 1) * t.pixel_size <= t.height * t.pixel_size,
        t.width * t.pixel_size <= 4_000_000_000_000,
        t.height * t.pixel_size <= 4_000_000_000_000,
        -COORD_LIMIT <= t.e_max() <= COORD_LIMIT,
        -COORD_LIMIT <= t.n_min() <= COORD_LIMIT,
{
    assert((t.width - 1) * t.pixel_size == t.width * t.pixel_size - t.pixel_size) by (nonlinear_arith);
    assert((t.height - 1) * t.pixel_size == t.height * t.pixel_size - t.pixel_size) by (nonlinear_arith);
    assert(t.width * t.pixel_size <= 4_000_000_000_000 && t.width * t.pixel_size >= t.width) by (nonlinear_arith)
        requires
            1 <= t.width <= MAX_TILE_DIM,
            1 <= t.pixel_size <= PIXEL_SIZE_LIMIT,
    ;
    assert(t.height * t.pixel_size <= 4_000_000_000_000 && t.height * t.pixel_size >= t.height) by (nonlinear_arith)
        requires
            1 <= t.height <= MAX_TILE_DIM,
            1 <= t.pixel_size <= PIXEL_SIZE_LIMIT,
    ;
}

/// Copy a byte string.
pub fn clone_bytes(v: &Vec<u8>) -> (r: Vec<u8>)
    ensures
        r@ == v@,
{
    slice_to_vec(v.as_slice())
}

impl Tile {
    /// The materialized samples, row-major; empty while unloaded.
    pub open spec fn body(self) -> Seq<i64> {
        match self.image {
            Some(img) => img@,
            None => Seq::empty(),
        }
    }

    /// The stored height at grid point `(i, j)`.
    pub open spec fn sample(self, i: int, j: int) -> int {
        self.body()[j * self.width + i] as int
    }

    /// Index of the sample column at or west of the coordinate.
    pub open spec fn spec_i0(self, c: Coord) -> int {
        (c.e - self.origin_e) / (self.pixel_size as int)
    }

    /// Index of the sample row at or north of the coordinate.
    pub open spec fn spec_j0(self, c: Coord) -> int {
        (self.origin_n - c.n) / (self.pixel_size as int)
    }

    /// Eastward remainder within the grid square, in centimetres.
    pub open spec fn spec_fu(self, c: Coord) -> int {
        (c.e - self.origin_e) % (self.pixel_size as int)
    }

    /// Southward remainder within the grid square, in centimetres.
    pub open spec fn spec_fv(self, c: Coord) -> int {
        (self.origin_n - c.n) % (self.pixel_size as int)
    }

    /// The column east of `spec_i0`, clamped to the raster.
    pub open spec fn spec_i1(self, c: Coord) -> int {
        if self.spec_i0(c) + 1 < self.width {
            self.spec_i0(c) + 1
        } else {
            self.spec_i0(c)
        }
    }

    /// The row south of `spec_j0`, clamped to the raster.
    pub open spec fn spec_j1(self, c: Coord) -> int {
        if self.spec_j0(c) + 1 < self.height {
            self.spec_j0(c) + 1
        } else {
            self.spec_j0(c)
        }
    }

    /// The interpolated height at a covered coordinate of a loaded tile:
    /// bilinear weighting of the four surrounding samples, floored to a
    /// centimetre.
    pub open spec fn spec_lookup(self, c: Coord) -> int {
        let ps = self.pixel_size as int;
        let fu = self.spec_fu(c);
        let fv = self.spec_fv(c);
        let a = self.sample(self.spec_i0(c), self.spec_j0(c)) * (ps - fu)
            + self.sample(self.spec_i1(c), self.spec_j0(c)) * fu;
        let b = self.sample(self.spec_i0(c), self.spec_j1(c)) * (ps - fu)
            + self.sample(self.spec_i1(c), self.spec_j1(c)) * fu;
        (a * (ps - fv) + b * fv) / (ps * ps)
    }

    /// Eastward slope at the coordinate, per-mille: central difference of
    /// the neighbouring columns, clamped at the raster edge.
    pub open spec fn spec_dhe(self, c: Coord) -> int {
        let ps = self.pixel_size as int;
        let i0 = self.spec_i0(c);
        let j0 = self.spec_j0(c);
        let ilo = if i0 >= 1 { i0 - 1 } else { 0 };
        let ihi = if i0 + 1 < self.width { i0 + 1 } else { i0 };
        if ihi == ilo {
            0
        } else {
            (self.sample(ihi, j0) - self.sample(ilo, j0)) * 1000 / ((ihi - ilo) * ps)
        }
    }

    /// Northward slope at the coordinate, per-mille. Row indices grow
    /// southward, so the northern neighbour is the lower row index.
    pub open spec fn spec_dhn(self, c: Coord) -> int {
        let ps = self.pixel_size as int;
        let i0 = self.spec_i0(c);
        let j0 = self.spec_j0(c);
        let jlo = if j0 >= 1 { j0 - 1 } else { 0 };
        let jhi = if j0 + 1 < self.height { j0 + 1 } else { j0 };
        if jhi == jlo {
            0
        } else {
            (self.sample(i0, jlo) - self.sample(i0, jhi)) * 1000 / ((jhi - jlo) * ps)
        }
    }

    /// Whether the coordinate lies within the tile's coverage.
    pub fn covers_point(&self, c: &Coord) -> (b: bool)
        requires
            self.header_wf(),
        ensures
            b == self.covers(*c),
    {
        proof {
            lemma_tile_extents(*self);
        }
        let w = self.width as i64;
        let h = self.height as i64;
        let e_hi = self.origin_e + (w - 1) * self.pixel_size;
        let n_lo = self.origin_n - (h - 1) * self.pixel_size;
        c.e >= self.origin_e && c.e <= e_hi && c.n >= n_lo && c.n <= self.origin_n
    }

    /// The interpolated ground height at a coordinate. Fails with the
    /// coverage error outside the tile, and with the not-loaded error when
    /// the body is still unmaterialized.
    pub fn lookup(&self, coord: &Coord) -> (r: Result<i64, Error>)
        requires
            self.wf(),
        ensures
            !self.covers(*coord) ==> (r matches Err(e) && e matches Error::LookupError(c2, f)
                && c2 == *coord && f@ == self.fname@),
            self.covers(*coord) && self.image is None ==> (r matches Err(e)
                && e matches Error::MapNotLoaded(f) && f@ == self.fname@),
            self.covers(*coord) && self.image is Some ==> (r matches Ok(v)
                && v == self.spec_lookup(*coord)),
    {
        if !self.covers_point(coord) {
            return Err(Error::LookupError(*coord, clone_bytes(&self.fname)));
        }
        if self.image.is_none() {
            return Err(Error::MapNotLoaded(clone_bytes(&self.fname)));
        }
        let g = self.grid_cell(coord);
        let ps = self.pixel_size;
        let s00 = self.sample_at(g.i0, g.j0);
        let s10 = self.sample_at(g.i1, g.j0);
        let s01 = self.sample_at(g.i0, g.j1);
        let s11 = self.sample_at(g.i1, g.j1);
        proof {
            lemma_weight_bounds(s00 as int, s10 as int, g.fu as int, ps as int);
            lemma_weight_bounds(s01 as int, s11 as int, g.fu as int, ps as int);
        }
        let a = s00 * (ps - g.fu) + s10 * g.fu;
        let b = s01 * (ps - g.fu) + s11 * g.fu;
        proof {
            lemma_outer_bounds(a as int, b as int, g.fv as int, ps as int);
        }
        let num = a * (ps - g.fv) + b * g.fv;
        let den = ps * ps;
        Ok(floor_div(num, den))
    }

    /// The ground height and the two slopes at a coordinate, with the same
    /// coverage semantics as `lookup`.
    pub fn lookup_with_gradient(&self, coord: &Coord) -> (r: Result<(i64, i64, i64), Error>)
        requires
            self.wf(),
        ensures
            !self.covers(*coord) ==> (r matches Err(e) && e matches Error::LookupError(c2, f)
                && c2 == *coord && f@ == self.fname@),
            self.covers(*coord) && self.image is None ==> (r matches Err(e)
                && e matches Error::MapNotLoaded(f) && f@ == self.fname@),
            self.covers(*coord) && self.image is Some ==> (r matches Ok(v)
                && v.0 == self.spec_lookup(*coord)
                && v.1 == self.spec_dhe(*coord)
                && v.2 == self.spec_dhn(*coord)),
    {
        let h = match self.lookup(coord) {
            Ok(h) => h,
            Err(e) => {
                return Err(e);
            },
        };
        let g = self.grid_cell(coord);
        let ps = self.pixel_size;
        let ilo = if g.i0 >= 1 { g.i0 - 1 } else { 0 };
        let ihi = g.i1;
        let jlo = if g.j0 >= 1 { g.j0 - 1 } else { 0 };
        let jhi = g.j1;
        proof {
            assert(ilo <= g.i0 <= ihi && ihi - ilo <= 2);
            assert(jlo <= g.j0 <= jhi && jhi - jlo <= 2);
        }
        let dhe = if ihi == ilo {
            0
        } else {
            let diff = self.sample_at(ihi, g.j0) - self.sample_at(ilo, g.j0);
            let span = ihi - ilo;
            proof {
                assert(span == 1 || span == 2);
                assert(1 <= span * ps <= 2 * PIXEL_SIZE_LIMIT);
            }
            floor_div(diff * 1000, span * ps)
        };
        let dhn = if jhi == jlo {
            0
        } else {
            let diff = self.sample_at(g.i0, jlo) - self.sample_at(g.i0, jhi);
            let span = jhi - jlo;
            proof {
                assert(span == 1 || span == 2);
                assert(1 <= span * ps <= 2 * PIXEL_SIZE_LIMIT);
            }
            floor_div(diff * 1000, span * ps)
        };
        Ok((h, dhe, dhn))
    }

    /// The grid square containing a covered coordinate: floor indices, the
    /// clamped next indices, and the remainders.
    fn grid_cell(&self, coord: &Coord) -> (g: GridCell)
        requires
            self.wf(),
            self.covers(*coord),
        ensures
            g.i0 == self.spec_i0(*coord),
            g.j0 == self.spec_j0(*coord),
            g.i1 == self.spec_i1(*coord),
            g.j1 == self.spec_j1(*coord),
            g.fu == self.spec_fu(*coord),
            g.fv == self.spec_fv(*coord),
            0 <= g.i0 <= g.i1 <= self.width - 1,
            0 <= g.j0 <= g.j1 <= self.height - 1,
            g.i1 <= g.i0 + 1,
            g.j1 <= g.j0 + 1,
            0 <= g.fu < self.pixel_size,
            0 <= g.fv < self.pixel_size,
    {
        proof {
            lemma_tile_extents(*self);
        }
        let w = self.width as i64;
        let h = self.height as i64;
        let ps = self.pixel_size;
        let un = coord.e - self.origin_e;
        let vn = self.origin_n - coord.n;
        let i0 = un / ps;
        let fu = un % ps;
        let j0 = vn / ps;
        let fv = vn % ps;
        proof {
            lemma_div_pos_is_pos(un as int, ps as int);
            lemma_div_pos_is_pos(vn as int, ps as int);
            lemma_div_is_ordered(un as int, (w - 1) * ps, ps as int);
            lemma_div_is_ordered(vn as int, (h - 1) * ps, ps as int);
            lemma_div_by_multiple((w - 1) as int, ps as int);
            lemma_div_by_multiple((h - 1) as int, ps as int);
            lemma_mod_bound(un as int, ps as int);
            lemma_mod_bound(vn as int, ps as int);
        }
        let i1 = if i0 + 1 <= w - 1 { i0 + 1 } else { i0 };
        let j1 = if j0 + 1 <= h - 1 { j0 + 1 } else { j0 };
        GridCell { i0, j0, i1, j1, fu, fv }
    }

    /// Read one sample of a loaded raster.
    fn sample_at(&self, i: i64, j: i64) -> (s: i64)
        requires
            self.wf(),
            self.image is Some,
            0 <= i <= self.width - 1,
            0 <= j <= self.height - 1,
        ensures
            s == self.sample(i as int, j as int),
            -HEIGHT_LIMIT <= s <= HEIGHT_LIMIT,
    {
        proof {
            let ghost w = self.width as int;
            let ghost h = self.height as int;
            assert(j * w + i < h * w && 0 <= j * w + i) by (nonlinear_arith)
                requires
                    0 <= i <= w - 1,
                    0 <= j <= h - 1,
                    1 <= w,
                    1 <= h,
            ;
            assert(h * w <= 1_600_000_000) by (nonlinear_arith)
                requires
                    1 <= w <= MAX_TILE_DIM,
                    1 <= h <= MAX_TILE_DIM,
            ;
        }
        match &self.image {
            Some(img) => img[(j as usize) * self.width + (i as usize)],
            None => 0,
        }
    }
}

/// The indices and remainders of one interpolation square.
struct GridCell {
    i0: i64,
    j0: i64,
    i1: i64,
    j1: i64,
    fu: i64,
    fv: i64,
}

/// The interpolation indices of a covered coordinate lie on the raster,
/// and the remainders within the grid square.
pub proof fn lemma_grid_bounds(t: Tile, c: Coord)
    requires
        t.header_wf(),
        t.covers(c),
    ensures
        0 <= t.spec_i0(c) <= t.spec_i1(c) <= t.width - 1,
        0 <= t.spec_j0(c) <= t.spec_j1(c) <= t.height - 1,
        t.spec_i1(c) <= t.spec_i0(c) + 1,
        t.spec_j1(c) <= t.spec_j0(c) + 1,
        0 <= t.spec_fu(c) < t.pixel_size,
        0 <= t.spec_fv(c) < t.pixel_size,
{
    lemma_tile_extents(t);
    let ps = t.pixel_size as int;
    let un = c.e - t.origin_e;
    let vn = t.origin_n - c.n;
    lemma_div_pos_is_pos(un, ps);
    lemma_div_pos_is_pos(vn, ps);
    lemma_div_is_ordered(un, (t.width - 1) * ps, ps);
    lemma_div_is_ordered(vn, (t.height - 1) * ps, ps);
    lemma_div_by_multiple((t.width - 1) as int, ps);
    lemma_div_by_multiple((t.height - 1) as int, ps);
    lemma_mod_bound(un, ps);
    lemma_mod_bound(vn, ps);
}

/// The interpolated height of a covered coordinate of a loaded,
/// well-formed tile never leaves the height range of its samples.
pub proof fn lemma_spec_lookup_bounds(t: Tile, c: Coord)
    requires
        t.wf(),
        t.image is Some,
        t.covers(c),
    ensures
        -HEIGHT_LIMIT <= t.spec_lookup(c) <= HEIGHT_LIMIT,
{
    lemma_grid_bounds(t, c);
    let ps = t.pixel_size as int;
    let fu = t.spec_fu(c);
    let fv = t.spec_fv(c);
    let w = t.width as int;
    let h = t.height as int;
    let i0 = t.spec_i0(c);
    let i1 = t.spec_i1(c);
    let j0 = t.spec_j0(c);
    let j1 = t.spec_j1(c);
    assert forall|i: int, j: int| 0 <= i < w && 0 <= j < h
        implies -HEIGHT_LIMIT <= #[trigger] t.sample(i, j) <= HEIGHT_LIMIT by {
        assert(0 <= j * w + i < h * w) by (nonlinear_arith)
            requires
                0 <= i < w,
                0 <= j < h,
        ;
        assert(-HEIGHT_LIMIT <= t.body()[j * t.width + i] <= HEIGHT_LIMIT);
    }
    let a = t.sample(i0, j0) * (ps - fu) + t.sample(i1, j0) * fu;
    let b = t.sample(i0, j1) * (ps - fu) + t.sample(i1, j1) * fu;
    lemma_weight_bounds(t.sample(i0, j0), t.sample(i1, j0), fu, ps);
    lemma_weight_bounds(t.sample(i0, j1), t.sample(i1, j1), fu, ps);
    let num = a * (ps - fv) + b * fv;
    assert(a * (ps - fv) <= (HEIGHT_LIMIT * ps) * (ps - fv)
        && (-(HEIGHT_LIMIT * ps)) * (ps - fv) <= a * (ps - fv)) by (nonlinear_arith)
        requires
            -(HEIGHT_LIMIT * ps) <= a <= HEIGHT_LIMIT * ps,
            0 <= fv < ps,
    ;
    assert(b * fv <= (HEIGHT_LIMIT * ps) * fv && (-(HEIGHT_LIMIT * ps)) * fv <= b * fv)
        by (nonlinear_arith)
        requires
            -(HEIGHT_LIMIT * ps) <= b <= HEIGHT_LIMIT * ps,
            0 <= fv,
    ;
    assert((HEIGHT_LIMIT * ps) * (ps - fv) + (HEIGHT_LIMIT * ps) * fv == HEIGHT_LIMIT * (ps
        * ps) && (-(HEIGHT_LIMIT * ps)) * (ps - fv) + (-(HEIGHT_LIMIT * ps)) * fv
        == (-HEIGHT_LIMIT) * (ps * ps)) by (nonlinear_arith);
    assert((-HEIGHT_LIMIT) * (ps * ps) <= num <= HEIGHT_LIMIT * (ps * ps));
    assert(1 <= ps * ps) by (nonlinear_arith)
        requires
            1 <= ps,
    ;
    lemma_div_is_ordered((-HEIGHT_LIMIT) * (ps * ps), num, ps * ps);
    lemma_div_is_ordered(num, HEIGHT_LIMIT * (ps * ps), ps * ps);
    lemma_div_multiples_vanish(HEIGHT_LIMIT as int, ps * ps);
    lemma_div_multiples_vanish(-HEIGHT_LIMIT as int, ps * ps);
    assert((ps * ps) * HEIGHT_LIMIT == HEIGHT_LIMIT * (ps * ps) && (ps * ps) * (-HEIGHT_LIMIT)
        == (-HEIGHT_LIMIT) * (ps * ps)) by (nonlinear_arith);
}

/// The slopes of a covered coordinate of a loaded, well-formed tile are
/// machine-representable: central differences of bounded samples.
pub proof fn lemma_spec_grad_bounds(t: Tile, c: Coord)
    requires
        t.wf(),
        t.image is Some,
        t.covers(c),
    ensures
        -20_000_000_000 <= t.spec_dhe(c) <= 20_000_000_000,
        -20_000_000_000 <= t.spec_dhn(c) <= 20_000_000_000,
{
    lemma_grid_bounds(t, c);
    let ps = t.pixel_size as int;
    let w = t.width as int;
    let h = t.height as int;
    assert forall|i: int, j: int| 0 <= i < w && 0 <= j < h
        implies -HEIGHT_LIMIT <= #[trigger] t.sample(i, j) <= HEIGHT_LIMIT by {
        assert(0 <= j * w + i < h * w) by (nonlinear_arith)
            requires
                0 <= i < w,
                0 <= j < h,
        ;
        assert(-HEIGHT_LIMIT <= t.body()[j * t.width + i] <= HEIGHT_LIMIT);
    }
    let i0 = t.spec_i0(c);
    let j0 = t.spec_j0(c);
    let ilo: int = if i0 >= 1 { i0 - 1 } else { 0 };
    let ihi: int = if i0 + 1 < t.width { i0 + 1 } else { i0 };
    let jlo: int = if j0 >= 1 { j0 - 1 } else { 0 };
    let jhi: int = if j0 + 1 < t.height { j0 + 1 } else { j0 };
    if ihi != ilo {
        assert(ihi - ilo == 1 || ihi - ilo == 2);
        assert(1 <= (ihi - ilo) * ps) by (nonlinear_arith)
            requires
                1 <= ihi - ilo,
                1 <= ps,
        ;
        assert(-HEIGHT_LIMIT <= t.sample(ihi, j0) <= HEIGHT_LIMIT);
        assert(-HEIGHT_LIMIT <= t.sample(ilo, j0) <= HEIGHT_LIMIT);
        lemma_diff_quotient_bound(
            t.sample(ihi, j0) - t.sample(ilo, j0),
            (ihi - ilo) * ps,
        );
    }
    if jhi != jlo {
        assert(jhi - jlo == 1 || jhi - jlo == 2);
        assert(1 <= (jhi - jlo) * ps) by (nonlinear_arith)
            requires
                1 <= jhi - jlo,
                1 <= ps,
        ;
        assert(-HEIGHT_LIMIT <= t.sample(i0, jlo) <= HEIGHT_LIMIT);
        assert(-HEIGHT_LIMIT <= t.sample(i0, jhi) <= HEIGHT_LIMIT);
        lemma_diff_quotient_bound(
            t.sample(i0, jlo) - t.sample(i0, jhi),
            (jhi - jlo) * ps,
        );
    }
}

/// A thousandfold height difference divided by a positive run stays
/// within a fixed range.
proof fn lemma_diff_quotient_bound(diff: int, den: int)
    requires
        -2 * HEIGHT_LIMIT <= diff <= 2 * HEIGHT_LIMIT,
        1 <= den,
    ensures
        -20_000_000_000 <= diff * 1000 / den <= 20_000_000_000,
{
    assert(diff * 1000 <= 20_000_000_000 && -20_000_000_000 <= diff * 1000);
    assert(diff * 1000 <= 20_000_000_000 * den && (-20_000_000_000) * den <= diff * 1000)
        by (nonlinear_arith)
        requires
            -20_000_000_000 <= diff * 1000 <= 20_000_000_000,
            1 <= den,
    ;
    lemma_div_is_ordered(diff * 1000, 20_000_000_000 * den, den);
    lemma_div_is_ordered((-20_000_000_000) * den, diff * 1000, den);
    lemma_div_multiples_vanish(20_000_000_000, den);
    lemma_div_multiples_vanish(-20_000_000_000, den);
    assert(den * 20_000_000_000 == 20_000_000_000 * den && den * (-20_000_000_000)
        == (-20_000_000_000) * den) by (nonlinear_arith);
}

/// A convex per-mille-style weighting of two bounded samples stays within
/// the sample bound times the spacing.
proof fn lemma_weight_bounds(s0: int, s1: int, fu: int, ps: int)
    requires
        -HEIGHT_LIMIT <= s0 <= HEIGHT_LIMIT,
        -HEIGHT_LIMIT <= s1 <= HEIGHT_LIMIT,
        0 <= fu < ps,
        1 <= ps <= PIXEL_SIZE_LIMIT,
    ensures
        -HEIGHT_LIMIT * ps <= s0 * (ps - fu) + s1 * fu <= HEIGHT_LIMIT * ps,
        -1_000_000_000_000 <= s0 * (ps - fu) <= 1_000_000_000_000,
        -1_000_000_000_000 <= s1 * fu <= 1_000_000_000_000,
        -1_000_000_000_000 <= s0 * (ps - fu) + s1 * fu <= 1_000_000_000_000,
{
    assert(-HEIGHT_LIMIT * ps <= s0 * (ps - fu) + s1 * fu <= HEIGHT_LIMIT * ps) by (nonlinear_arith)
        requires
            -HEIGHT_LIMIT <= s0 <= HEIGHT_LIMIT,
            -HEIGHT_LIMIT <= s1 <= HEIGHT_LIMIT,
            0 <= fu < ps,
            1 <= ps,
    ;
    assert(0 <= HEIGHT_LIMIT * ps <= 1_000_000_000_000) by (nonlinear_arith)
        requires
            1 <= ps <= PIXEL_SIZE_LIMIT,
    ;
    lemma_abs_mul_le(s0, ps - fu, HEIGHT_LIMIT as int, PIXEL_SIZE_LIMIT as int);
    lemma_abs_mul_le(s1, fu, HEIGHT_LIMIT as int, PIXEL_SIZE_LIMIT as int);
    assert(-1_000_000_000_000 <= s0 * (ps - fu) + s1 * fu <= 1_000_000_000_000) by (nonlinear_arith)
        requires
            -HEIGHT_LIMIT <= s0 <= HEIGHT_LIMIT,
            -HEIGHT_LIMIT <= s1 <= HEIGHT_LIMIT,
            0 <= fu < ps,
            1 <= ps <= PIXEL_SIZE_LIMIT,
    ;
}

/// A product of a bounded factor and a bounded non-negative factor is
/// bounded by the product of the bounds.
proof fn lemma_abs_mul_le(x: int, y: int, bx: int, by0: int)
    requires
        -bx <= x <= bx,
        0 <= y <= by0,
        0 <= bx,
    ensures
        -bx * by0 <= x * y <= bx * by0,
{
    assert(-bx * by0 <= x * y <= bx * by0) by (nonlinear_arith)
        requires
            -bx <= x <= bx,
            0 <= y <= by0,
            0 <= bx,
    ;
}

/// The outer bilinear combination stays within the range `floor_div`
/// accepts.
proof fn lemma_outer_bounds(a: int, b: int, fv: int, ps: int)
    requires
        -1_000_000_000_000 <= a <= 1_000_000_000_000,
        -1_000_000_000_000 <= b <= 1_000_000_000_000,
        0 <= fv < ps,
        1 <= ps <= PIXEL_SIZE_LIMIT,
    ensures
        -1_000_000_000_000_000_000 <= a * (ps - fv) <= 1_000_000_000_000_000_000,
        -1_000_000_000_000_000_000 <= b * fv <= 1_000_000_000_000_000_000,
        -1_000_000_000_000_000_000 <= a * (ps - fv) + b * fv <= 1_000_000_000_000_000_000,
        1 <= ps * ps <= 100_000_000_000,
{
    assert(-1_000_000_000_000 * ps <= a * (ps - fv) + b * fv <= 1_000_000_000_000 * ps)
        by (nonlinear_arith)
        requires
            -1_000_000_000_000 <= a <= 1_000_000_000_000,
            -1_000_000_000_000 <= b <= 1_000_000_000_000,
            0 <= fv < ps,
            1 <= ps,
    ;
    assert(0 <= 1_000_000_000_000 * ps <= 1_000_000_000_000_000_000 && 1 <= ps * ps
        <= 100_000_000_000) by (nonlinear_arith)
        requires
            1 <= ps <= PIXEL_SIZE_LIMIT,
    ;
    lemma_abs_mul_le(a, ps - fv, 1_000_000_000_000, PIXEL_SIZE_LIMIT as int);
    lemma_abs_mul_le(b, fv, 1_000_000_000_000, PIXEL_SIZE_LIMIT as int);
}

/// The cells of a covered coordinate lie within the tile's cell rectangle:
/// whoever covers a coordinate is listed under that coordinate's hash.
pub proof fn lemma_covers_cell_in_rect(t: Tile, c: Coord)
    requires
        t.header_wf(),
        t.covers(c),
    ensures
        t.cell_in_rect(cell_of(c.e as int), cell_of(c.n as int)),
{
    lemma_div_is_ordered(t.origin_e as int, c.e as int, CELL_SIZE as int);
    lemma_div_is_ordered(c.e as int, t.e_max(), CELL_SIZE as int);
    lemma_div_is_ordered(t.n_min(), c.n as int, CELL_SIZE as int);
    lemma_div_is_ordered(c.n as int, t.origin_n as int, CELL_SIZE as int);
}

/// A coordinate covered by a well-formed tile is itself within the world
/// bounds.
pub proof fn lemma_covered_coord_wf(t: Tile, c: Coord)
    requires
        t.header_wf(),
        t.covers(c),
    ensures
        c.wf(),
{
    lemma_tile_extents(t);
}

} // verus!

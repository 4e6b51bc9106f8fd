//! The atlas: a spatial hash from coarse grid cells to the tiles that may
//! cover coordinates in them. Candidate lists are re-filtered by exact
//! tile coverage on every query, so a tile listed in a cell need not cover
//! every coordinate hashing there; but every tile is listed in every cell
//! its coverage overlaps, which makes a miss authoritative.

use vstd::prelude::*;
use vstd::pervasive::VecAdditionalExecFns;
use crate::coord::Coord;
use crate::errors::Error;
use crate::tile::{Tile, TileLoader, spec_coord_hash, lemma_covers_cell_in_rect};

verus! {

/// No two tiles of the list share a file name: the table is the
/// deduplicated set that serialization emits.
pub open spec fn names_unique(ts: Seq<Tile>) -> bool {
    forall|i: int, j: int| 0 <= i < j < ts.len()
        ==> (#[trigger] ts[i]).fname@ != (#[trigger] ts[j]).fname@
}

/// `a` is an initial segment of `b`.
pub open spec fn seq_prefix(a: Seq<usize>, b: Seq<usize>) -> bool {
    a.len() <= b.len() && forall|i: int| 0 <= i < a.len() ==> a[i] == b[i]
}

/// One bucket of the spatial hash.
pub struct CellEntry {
    /// The packed cell hash.
    pub hash: u64,
    /// Indices into the atlas tile table, in insertion order.
    pub tile_ids: Vec<usize>,
}

/// A collection of tiles with a coarse spatial index.
pub struct Atlas {
    /// Every tile of the atlas, in insertion order.
    pub tiles: Vec<Tile>,
    /// The buckets; their hashes are pairwise distinct.
    pub cells: Vec<CellEntry>,
}

impl Atlas {
    /// Every listed tile id points into the tile table, and bucket hashes
    /// are pairwise distinct.
    pub open spec fn cells_wf(self) -> bool {
        &&& forall|e: int, k: int|
            0 <= e < self.cells.len() && 0 <= k < self.cells[e].tile_ids.len()
                ==> #[trigger] self.cells[e].tile_ids[k] < self.tiles.len()
        &&& forall|e1: int, e2: int|
            0 <= e1 < e2 < self.cells.len() ==> self.cells[e1].hash != self.cells[e2].hash
    }

    /// Every tile is well-formed.
    pub open spec fn tiles_wf(self) -> bool {
        forall|t: int| 0 <= t < self.tiles.len() ==> (#[trigger] self.tiles[t]).wf()
    }

    /// Some bucket carries this hash.
    pub open spec fn has_cell(self, h: u64) -> bool {
        exists|e: int| 0 <= e < self.cells.len() && self.cells[e].hash == h
    }

    /// Tile `tid` is listed in the bucket of hash `h`.
    pub open spec fn listed(self, h: u64, tid: usize) -> bool {
        exists|e: int|
            0 <= e < self.cells.len() && self.cells[e].hash == h
                && self.cells[e].tile_ids@.contains(tid)
    }

    /// Completeness of the index: every tile is listed under every cell
    /// hash of the cell rectangle its coverage overlaps.
    pub open spec fn indexed(self) -> bool {
        forall|t: int, h: u64|
            0 <= t < self.tiles.len() && #[trigger] self.tiles[t].hash_in_tile_rect(h)
                ==> self.listed(h, t as usize)
    }

    /// Every listing is justified: a tile appears only in buckets whose
    /// cell its coverage overlaps.
    pub open spec fn tight(self) -> bool {
        forall|e: int, k: int|
            0 <= e < self.cells.len() && 0 <= k < self.cells[e].tile_ids.len()
                ==> (#[trigger] self.tiles[self.cells[e].tile_ids[k] as int]).hash_in_tile_rect(
                self.cells[e].hash)
    }

    /// A tile of this name is in the table.
    pub open spec fn has_name(self, n: Seq<u8>) -> bool {
        exists|i: int| 0 <= i < self.tiles.len() && self.tiles[i].fname@ == n
    }

    pub open spec fn wf(self) -> bool {
        self.tiles_wf() && self.cells_wf() && self.indexed() && self.tight()
            && names_unique(self.tiles@)
    }

    /// Whether the bucket of the coordinate's cell exists.
    pub open spec fn spec_has_maps(self, c: Coord) -> bool {
        self.has_cell(spec_coord_hash(c))
    }

    /// Whether the coordinate's bucket exists and every candidate in it is
    /// materialized.
    pub open spec fn spec_has_images(self, c: Coord) -> bool {
        &&& self.spec_has_maps(c)
        &&& forall|e: int, k: int|
            0 <= e < self.cells.len() && self.cells[e].hash == spec_coord_hash(c)
                && 0 <= k < self.cells[e].tile_ids.len()
                ==> (#[trigger] self.tiles[self.cells[e].tile_ids[k] as int]).image is Some
    }

    /// The other atlas has the same tiles up to pixel bodies, and the very
    /// same buckets; bodies may only have been added.
    pub open spec fn same_shape(self, other: Atlas) -> bool {
        &&& self.tiles.len() == other.tiles.len()
        &&& forall|t: int| 0 <= t < self.tiles.len()
            ==> (#[trigger] self.tiles[t]).same_header(other.tiles[t])
        &&& forall|t: int| 0 <= t < self.tiles.len()
            ==> ((#[trigger] other.tiles[t]).image is Some ==> self.tiles[t].image is Some)
        &&& self.cells == other.cells
    }

    /// Every tile that was materialized in `pre` is exactly the same tile
    /// here: loading never touches an already loaded tile.
    pub open spec fn untouched_loaded(self, pre: Atlas) -> bool {
        forall|t: int| 0 <= t < pre.tiles.len()
            ==> ((#[trigger] pre.tiles[t]).image is Some ==> self.tiles[t] == pre.tiles[t])
    }

    /// The bucket entry `(e, k)` holds the first covering candidate of
    /// the coordinate, materialized, interpolating to `v`.
    pub open spec fn found_first_at(self, c: Coord, v: i64, e: int, k: int) -> bool {
        &&& 0 <= e < self.cells.len()
        &&& self.cells[e].hash == spec_coord_hash(c)
        &&& 0 <= k < self.cells[e].tile_ids.len()
        &&& (forall|j: int| 0 <= j < k ==> !(#[trigger] self.tiles[
            self.cells[e].tile_ids[j] as int]).covers(c))
        &&& self.tiles[self.cells[e].tile_ids[k] as int].covers(c)
        &&& self.tiles[self.cells[e].tile_ids[k] as int].image is Some
        &&& v == self.tiles[self.cells[e].tile_ids[k] as int].spec_lookup(c)
    }

    /// The value is the interpolation of the first covering candidate of
    /// the coordinate's bucket, which is materialized; the candidates
    /// before it do not cover the coordinate.
    pub open spec fn found_first(self, c: Coord, v: i64) -> bool {
        exists|e: int, k: int| self.found_first_at(c, v, e, k)
    }

    /// As `found_first_at`, with the two slopes as well.
    pub open spec fn found_first_grad_at(
        self,
        c: Coord,
        v: (i64, i64, i64),
        e: int,
        k: int,
    ) -> bool {
        &&& 0 <= e < self.cells.len()
        &&& self.cells[e].hash == spec_coord_hash(c)
        &&& 0 <= k < self.cells[e].tile_ids.len()
        &&& (forall|j: int| 0 <= j < k ==> !(#[trigger] self.tiles[
            self.cells[e].tile_ids[j] as int]).covers(c))
        &&& self.tiles[self.cells[e].tile_ids[k] as int].covers(c)
        &&& self.tiles[self.cells[e].tile_ids[k] as int].image is Some
        &&& v.0 == self.tiles[self.cells[e].tile_ids[k] as int].spec_lookup(c)
        &&& v.1 == self.tiles[self.cells[e].tile_ids[k] as int].spec_dhe(c)
        &&& v.2 == self.tiles[self.cells[e].tile_ids[k] as int].spec_dhn(c)
    }

    /// As `found_first`, with the two slopes as well.
    pub open spec fn found_first_grad(self, c: Coord, v: (i64, i64, i64)) -> bool {
        exists|e: int, k: int| self.found_first_grad_at(c, v, e, k)
    }

    /// An atlas with no tiles and no buckets.
    pub fn new_empty() -> (a: Atlas)
        ensures
            a.wf(),
            a.tiles.len() == 0,
            a.cells.len() == 0,
    {
        Atlas { tiles: Vec::new(), cells: Vec::new() }
    }

    /// Whether the atlas has no buckets at all (and hence no tiles, as
    /// every tile overlaps at least one cell).
    pub fn is_empty(&self) -> (b: bool)
        ensures
            b == (self.cells.len() == 0),
    {
        self.cells.len() == 0
    }

    /// The nominal resolution of the atlas: the sample spacing of its
    /// first tile, or zero when there is none.
    pub fn resolution(&self) -> (r: i64)
        ensures
            self.tiles.len() > 0 ==> r == self.tiles[0].pixel_size,
            self.tiles.len() == 0 ==> r == 0,
    {
        if self.tiles.len() > 0 {
            self.tiles[0].pixel_size
        } else {
            0
        }
    }

    /// Find the bucket of a hash by scanning.
    fn find_cell(&self, h: u64) -> (r: Option<usize>)
        ensures
            match r {
                Some(e) => e < self.cells.len() && self.cells[e as int].hash == h,
                None => !self.has_cell(h),
            },
            r is Some <==> self.has_cell(h),
    {
        let mut e: usize = 0;
        while e < self.cells.len()
            invariant
                e <= self.cells.len(),
                forall|i: int| 0 <= i < e ==> self.cells[i].hash != h,
            decreases self.cells.len() - e,
        {
            if self.cells[e].hash == h {
                return Some(e);
            }
            e = e + 1;
        }
        None
    }

    /// Whether a tile of this name is already in the table.
    fn contains_name(&self, n: &Vec<u8>) -> (b: bool)
        ensures
            b == self.has_name(n@),
    {
        let mut i: usize = 0;
        while i < self.tiles.len()
            invariant
                i <= self.tiles@.len(),
                forall|j: int| 0 <= j < i ==> (#[trigger] self.tiles@[j]).fname@ != n@,
            decreases self.tiles@.len() - i,
        {
            if names_equal(&self.tiles[i].fname, n) {
                return true;
            }
            i = i + 1;
        }
        false
    }

    /// Add one tile to the table and list it in every cell its coverage
    /// overlaps. A tile whose name the table already holds is not added
    /// again: the table stays deduplicated by file name, as the index
    /// file demands.
    pub fn insert_tile(&mut self, tile: Tile)
        requires
            old(self).wf(),
            tile.wf(),
        ensures
            final(self).wf(),
            final(self).has_name(tile.fname@),
            old(self).has_name(tile.fname@) ==> final(self).same_state(*old(self)),
            !old(self).has_name(tile.fname@) ==> final(self).tiles@ == old(self).tiles@.push(
                tile),
            final(self).tiles@.len() >= old(self).tiles@.len(),
            forall|i: int| 0 <= i < old(self).tiles@.len()
                ==> final(self).tiles@[i] == old(self).tiles@[i],
            forall|h: u64, tid: usize| old(self).listed(h, tid) ==> final(self).listed(h, tid),
            forall|h: u64, tid: usize| final(self).listed(h, tid) ==> old(self).listed(h, tid)
                || tid == old(self).tiles@.len(),
            final(self).cells@.len() >= old(self).cells@.len(),
            forall|e: int| 0 <= e < old(self).cells@.len()
                ==> (#[trigger] final(self).cells@[e]).hash == old(self).cells@[e].hash
                    && seq_prefix(
                    old(self).cells@[e].tile_ids@,
                    final(self).cells@[e].tile_ids@,
                ),
    {
        if self.contains_name(&tile.fname) {
            return;
        }
        let new_id = self.tiles.len();
        let hs = tile.hashes();
        self.tiles.push(tile);
        proof {
            lemma_listed_same_cells(*old(self), *self);
            assert forall|t: int, h: u64|
                0 <= t < self.tiles.len() && #[trigger] self.tiles[t].hash_in_tile_rect(h)
                    && t < new_id implies self.listed(h, t as usize) by {
                assert(self.tiles[t] == old(self).tiles[t]);
                assert(old(self).tiles[t].hash_in_tile_rect(h));
                assert(old(self).listed(h, t as usize));
            }
            assert forall|i: int, j: int| 0 <= i < j < self.tiles@.len()
                implies (#[trigger] self.tiles@[i]).fname@ != (#[trigger] self.tiles@[
                j]).fname@ by {
                if j == new_id {
                    assert(self.tiles@[i] == old(self).tiles@[i]);
                }
            }
        }
        let mut k: usize = 0;
        while k < hs.len()
            invariant
                self.tiles@ == old(self).tiles@.push(tile),
                self.cells_wf(),
                self.tiles_wf(),
                self.tight(),
                names_unique(self.tiles@),
                k <= hs@.len(),
                new_id == self.tiles.len() - 1,
                forall|j: int| 0 <= j < hs@.len()
                    ==> self.tiles@[new_id as int].hash_in_tile_rect(#[trigger] hs@[j]),
                forall|h: u64, tid: usize| old(self).listed(h, tid) ==> self.listed(h, tid),
                forall|h: u64, tid: usize| self.listed(h, tid) ==> old(self).listed(h, tid)
                    || tid == new_id,
                self.cells@.len() >= old(self).cells@.len(),
                forall|e: int| 0 <= e < old(self).cells@.len()
                    ==> (#[trigger] self.cells@[e]).hash == old(self).cells@[e].hash
                        && seq_prefix(
                        old(self).cells@[e].tile_ids@,
                        self.cells@[e].tile_ids@,
                    ),
                forall|t: int, h: u64|
                    0 <= t < new_id && #[trigger] self.tiles[t].hash_in_tile_rect(h)
                        ==> self.listed(h, t as usize),
                forall|j: int| 0 <= j < k ==> self.listed(hs@[j], new_id as usize),
            decreases hs@.len() - k,
        {
            let hv = hs[k];
            let ghost pre = *self;
            match self.find_cell(hv) {
                Some(e) => {
                    let mut ids = clone_ids(&self.cells[e].tile_ids);
                    ids.push(new_id);
                    let entry_hash = self.cells[e].hash;
                    self.cells.set(e, CellEntry { hash: entry_hash, tile_ids: ids });
                    proof {
                        lemma_listed_after_update(pre, *self, e as int, new_id);
                    }
                },
                None => {
                    let mut ids: Vec<usize> = Vec::new();
                    ids.push(new_id);
                    self.cells.push(CellEntry { hash: hv, tile_ids: ids });
                    proof {
                        lemma_listed_after_push(pre, *self, hv, new_id);
                    }
                },
            }
            proof {
                assert forall|j: int| 0 <= j <= k implies self.listed(hs@[j], new_id as usize) by {
                    if j < k {
                        assert(pre.listed(hs@[j], new_id as usize));
                    }
                }
                assert forall|e: int| 0 <= e < old(self).cells@.len()
                    implies (#[trigger] self.cells@[e]).hash == old(self).cells@[e].hash
                        && seq_prefix(
                        old(self).cells@[e].tile_ids@,
                        self.cells@[e].tile_ids@,
                    ) by {
                    assert(pre.cells@[e].hash == old(self).cells@[e].hash);
                    assert(seq_prefix(old(self).cells@[e].tile_ids@, pre.cells@[e].tile_ids@));
                }
            }
            k = k + 1;
        }
        proof {
            assert forall|t: int, h: u64|
                0 <= t < self.tiles.len() && #[trigger] self.tiles[t].hash_in_tile_rect(h)
                    implies self.listed(h, t as usize) by {
                if t == new_id {
                    let (a, b) = choose|a: int, b: int|
                        tile.cell_in_rect(a, b) && h == crate::tile::spec_hash_cell(a, b);
                    assert(hs@.contains(h));
                    let j = choose|j: int| 0 <= j < hs@.len() && hs@[j] == h;
                    assert(self.listed(hs@[j], new_id as usize));
                }
            }
            assert(self.tiles@[new_id as int].fname@ == tile.fname@);
            assert(self.has_name(tile.fname@));
        }
    }
}

impl Atlas {
    /// The tiles and buckets are the very same (the strongest sense in
    /// which a call left the atlas untouched).
    pub open spec fn same_state(self, other: Atlas) -> bool {
        self.tiles@ == other.tiles@ && self.cells == other.cells
    }

    /// Whether the coordinate's cell has a bucket.
    pub fn has_maps(&self, coord: &Coord) -> (b: bool)
        requires
            coord.wf(),
        ensures
            b == self.spec_has_maps(*coord),
    {
        let h = Tile::coord_to_hash(coord);
        self.find_cell(h).is_some()
    }

    /// Whether the coordinate's bucket exists and every candidate in it
    /// is materialized.
    pub fn has_images(&self, coord: &Coord) -> (b: bool)
        requires
            self.wf(),
            coord.wf(),
        ensures
            b == self.spec_has_images(*coord),
    {
        let h = Tile::coord_to_hash(coord);
        let e = match self.find_cell(h) {
            None => {
                return false;
            },
            Some(e) => e,
        };
        let n = self.cells[e].tile_ids.len();
        let mut k: usize = 0;
        while k < n
            invariant
                self.wf(),
                e < self.cells.len(),
                self.cells[e as int].hash == h,
                n == self.cells[e as int].tile_ids.len(),
                k <= n,
                h == spec_coord_hash(*coord),
                self.has_cell(h),
                forall|j: int| 0 <= j < k
                    ==> (#[trigger] self.tiles[self.cells[e as int].tile_ids[j] as int]).image
                        is Some,
            decreases n - k,
        {
            let id = self.cells[e].tile_ids[k];
            if !self.tiles[id].is_loaded() {
                proof {
                    assert(!self.spec_has_images(*coord));
                }
                return false;
            }
            k = k + 1;
        }
        proof {
            assert forall|e2: int, k2: int|
                0 <= e2 < self.cells.len() && self.cells[e2].hash == spec_coord_hash(*coord)
                    && 0 <= k2 < self.cells[e2].tile_ids.len()
                    implies (#[trigger] self.tiles[self.cells[e2].tile_ids[k2] as int]).image
                        is Some by {
                if e2 != e {
                    if e2 < e {
                        assert(self.cells[e2].hash != self.cells[e as int].hash);
                    } else {
                        assert(self.cells[e as int].hash != self.cells[e2].hash);
                    }
                }
            }
        }
        true
    }

    /// The candidate list for a coordinate: the indices of the tiles its
    /// bucket lists, in insertion order. Fails when the cell has no
    /// bucket.
    pub fn lookup_maps(&self, coord: &Coord) -> (r: Result<Vec<usize>, Error>)
        requires
            self.wf(),
            coord.wf(),
        ensures
            r is Ok <==> self.spec_has_maps(*coord),
            r matches Ok(ids) ==> exists|e: int|
                0 <= e < self.cells.len() && self.cells[e].hash == spec_coord_hash(*coord)
                    && ids@ == self.cells[e].tile_ids@,
            r matches Err(er) ==> er matches Error::MapNotFound(c2) && c2 == *coord,
    {
        let h = Tile::coord_to_hash(coord);
        match self.find_cell(h) {
            None => Err(Error::MapNotFound(*coord)),
            Some(e) => Ok(clone_ids(&self.cells[e].tile_ids)),
        }
    }

    /// Materialize the tile at one table index through the loader; a
    /// loaded tile is left alone.
    fn load_tile_at<L: TileLoader>(&mut self, id: usize, loader: &L) -> (r: Result<(), Error>)
        requires
            old(self).wf(),
            id < old(self).tiles.len(),
        ensures
            final(self).wf(),
            final(self).same_shape(*old(self)),
            final(self).cells == old(self).cells,
            final(self).tiles.len() == old(self).tiles.len(),
            forall|j: int| 0 <= j < final(self).tiles.len() && j != id
                ==> final(self).tiles[j] == old(self).tiles[j],
            final(self).untouched_loaded(*old(self)),
            r is Ok ==> final(self).tiles[id as int].image is Some,
            r is Err ==> final(self).same_state(*old(self)),
            old(self).tiles[id as int].image is Some ==> r is Ok
                && final(self).same_state(*old(self)),
            final(self).unloaded_count() <= old(self).unloaded_count(),
            r is Ok && old(self).tiles[id as int].image is None
                ==> final(self).unloaded_count() < old(self).unloaded_count(),
    {
        if self.tiles[id].is_loaded() {
            proof {
                lemma_unloaded_monotonic(
                    old(self).tiles@,
                    self.tiles@,
                    old(self).tiles@.len() as int,
                );
            }
            return Ok(());
        }
        let mut t = placeholder_tile();
        self.tiles.set_and_swap(id, &mut t);
        let res = t.load_image(loader);
        self.tiles.set_and_swap(id, &mut t);
        proof {
            assert(self.tiles@ =~= old(self).tiles@.update(
                id as int,
                self.tiles@[id as int],
            ));
            lemma_wf_after_body_update(
                *old(self),
                *self,
                id as int,
                self.tiles@[id as int],
            );
            if res is Err {
                assert(self.tiles@ =~= old(self).tiles@);
            }
            lemma_unloaded_monotonic(
                old(self).tiles@,
                self.tiles@,
                old(self).tiles@.len() as int,
            );
        }
        res
    }

    /// Materialize every candidate of the coordinate's bucket. Does
    /// nothing when the cell has no bucket, nothing again when all
    /// candidates are already loaded, and stops at the first loader
    /// failure.
    pub fn load_images<L: TileLoader>(&mut self, coord: &Coord, loader: &L) -> (r: Result<
        (),
        Error,
    >)
        requires
            old(self).wf(),
            coord.wf(),
        ensures
            final(self).wf(),
            final(self).same_shape(*old(self)),
            final(self).untouched_loaded(*old(self)),
            final(self).unloaded_count() <= old(self).unloaded_count(),
            r is Ok && old(self).spec_has_maps(*coord) ==> final(self).spec_has_images(*coord),
            !old(self).spec_has_maps(*coord) ==> r is Ok && final(self).same_state(*old(self)),
            old(self).spec_has_images(*coord) ==> r is Ok && final(self).same_state(*old(self)),
            r is Ok && old(self).spec_has_maps(*coord) && !old(self).spec_has_images(*coord)
                ==> final(self).unloaded_count() < old(self).unloaded_count(),
            r is Err ==> old(self).spec_has_maps(*coord) && !final(self).spec_has_images(
                *coord),
    {
        let h = Tile::coord_to_hash(coord);
        let e = match self.find_cell(h) {
            None => {
                return Ok(());
            },
            Some(e) => e,
        };
        let n = self.cells[e].tile_ids.len();
        let mut k: usize = 0;
        while k < n
            invariant
                self.wf(),
                coord.wf(),
                self.same_shape(*old(self)),
                self.untouched_loaded(*old(self)),
                self.cells == old(self).cells,
                self.unloaded_count() <= old(self).unloaded_count(),
                forall|i: int| 0 <= i < self.tiles.len()
                    ==> ((#[trigger] old(self).tiles[i]).image is Some
                        ==> self.tiles[i].image is Some),
                old(self).spec_has_images(*coord) ==> self.same_state(*old(self)),
                e < self.cells.len(),
                self.cells[e as int].hash == h,
                h == spec_coord_hash(*coord),
                n == self.cells[e as int].tile_ids.len(),
                k <= n,
                forall|j: int| 0 <= j < k
                    ==> (#[trigger] self.tiles[self.cells[e as int].tile_ids[j] as int]).image
                        is Some,
            decreases n - k,
        {
            let id = self.cells[e].tile_ids[k];
            let ghost pre = *self;
            if !self.tiles[id].is_loaded() {
                proof {
                    assert(!old(self).spec_has_images(*coord));
                }
                match self.load_tile_at(id, loader) {
                    Ok(()) => {},
                    Err(er) => {
                        proof {
                            assert(self.tiles[id as int].image is None);
                            assert(!self.spec_has_images(*coord));
                        }
                        return Err(er);
                    },
                }
                proof {
                    lemma_shape_untouched_trans(*self, pre, *old(self));
                }
            }
            k = k + 1;
        }
        proof {
            assert forall|e2: int, k2: int|
                0 <= e2 < self.cells.len() && self.cells[e2].hash == spec_coord_hash(*coord)
                    && 0 <= k2 < self.cells[e2].tile_ids.len()
                    implies (#[trigger] self.tiles[self.cells[e2].tile_ids[k2] as int]).image
                        is Some by {
                if e2 != e {
                    if e2 < e {
                        assert(self.cells[e2].hash != self.cells[e as int].hash);
                    } else {
                        assert(self.cells[e as int].hash != self.cells[e2].hash);
                    }
                }
            }
            if old(self).spec_has_maps(*coord) && !old(self).spec_has_images(*coord) {
                let (e2, k2) = choose|e2: int, k2: int|
                    0 <= e2 < old(self).cells.len()
                        && old(self).cells[e2].hash == spec_coord_hash(*coord)
                        && 0 <= k2 < old(self).cells[e2].tile_ids.len()
                        && !(old(self).tiles[old(self).cells[e2].tile_ids[k2] as int].image
                            is Some);
                let w = old(self).cells[e2].tile_ids[k2] as int;
                assert(self.tiles[w].image is Some);
                lemma_unloaded_monotonic(
                    old(self).tiles@,
                    self.tiles@,
                    old(self).tiles@.len() as int,
                );
            }
        }
        Ok(())
    }

    /// The ground height at a coordinate: scan the candidates in order,
    /// materialize a candidate on demand, and return the first covering
    /// candidate's interpolation. A miss is authoritative: when the
    /// result is the no-tile error, no tile of the atlas covers the
    /// coordinate. The not-loaded error never surfaces.
    pub fn lookup<L: TileLoader>(&mut self, coord: &Coord, loader: &L) -> (r: Result<i64, Error>)
        requires
            old(self).wf(),
            coord.wf(),
        ensures
            final(self).wf(),
            final(self).same_shape(*old(self)),
            final(self).unloaded_count() <= old(self).unloaded_count(),
            !(r matches Err(er) && er is MapNotLoaded),
            final(self).untouched_loaded(*old(self)),
            r is Err ==> final(self).same_state(*old(self)),
            (r matches Err(er) && er is MapNotFound) ==> (forall|t: int|
                0 <= t < final(self).tiles.len()
                    ==> !(#[trigger] final(self).tiles[t]).covers(*coord)),
            r matches Err(er) ==> (er matches Error::MapNotFound(c2) ==> c2 == *coord),
            (forall|t: int| 0 <= t < old(self).tiles.len()
                ==> !(#[trigger] old(self).tiles[t]).covers(*coord)) ==> (r matches Err(er)
                && er matches Error::MapNotFound(c2) && c2 == *coord),
            old(self).spec_has_images(*coord) && (exists|t: int| 0 <= t < old(self).tiles.len()
                && (#[trigger] old(self).tiles[t]).covers(*coord)) ==> r is Ok,
            forall|v: i64| old(self).found_first(*coord, v) ==> r == Ok::<i64, Error>(v),
            r matches Ok(v) ==> final(self).found_first(*coord, v),
    {
        let ghost hyp_b = exists|v: i64| old(self).found_first(*coord, v);
        let ghost gv = choose|v: i64| old(self).found_first(*coord, v);
        let ghost (ge, gk) = choose|e2: int, k2: int|
            old(self).found_first_at(*coord, gv, e2, k2);
        proof {
            if old(self).spec_has_images(*coord) && (exists|t: int|
                0 <= t < old(self).tiles.len() && (#[trigger] old(self).tiles[t]).covers(
                *coord)) {
                self.lemma_loaded_cover_found(*coord);
                assert(hyp_b);
            }
            if hyp_b {
                assert(old(self).found_first_at(*coord, gv, ge, gk));
            }
        }
        let h = Tile::coord_to_hash(coord);
        let e = match self.find_cell(h) {
            None => {
                proof {
                    self.lemma_miss_is_authoritative(*coord);
                    if hyp_b {
                        assert(self.cells[ge].hash == h);
                        assert(false);
                    }
                }
                return Err(Error::MapNotFound(*coord));
            },
            Some(e) => e,
        };
        proof {
            if hyp_b && ge != e as int {
                if ge < e as int {
                    assert(self.cells[ge].hash != self.cells[e as int].hash);
                } else {
                    assert(self.cells[e as int].hash != self.cells[ge].hash);
                }
            }
        }
        let n = self.cells[e].tile_ids.len();
        let mut k: usize = 0;
        while k < n
            invariant
                self.wf(),
                coord.wf(),
                self.same_shape(*old(self)),
                self.untouched_loaded(*old(self)),
                self.cells == old(self).cells,
                self.tiles@ == old(self).tiles@,
                self.unloaded_count() <= old(self).unloaded_count(),
                e < self.cells.len(),
                self.cells[e as int].hash == h,
                h == spec_coord_hash(*coord),
                n == self.cells[e as int].tile_ids.len(),
                k <= n,
                hyp_b == (exists|v: i64| old(self).found_first(*coord, v)),
                hyp_b ==> old(self).found_first_at(*coord, gv, ge, gk),
                hyp_b ==> ge == e as int && 0 <= gk < n && k <= gk,
                forall|j: int| 0 <= j < k
                    ==> !(#[trigger] self.tiles[self.cells[e as int].tile_ids[j] as int]).covers(
                        *coord),
            decreases n - k,
        {
            let id = self.cells[e].tile_ids[k];
            let ghost pre = *self;
            if self.tiles[id].covers_point(coord) {
                proof {
                    assert(old(self).tiles[id as int].covers(*coord));
                    if hyp_b && (k as int) < gk {
                        assert(!old(self).tiles[old(self).cells[ge].tile_ids[
                            k as int] as int].covers(*coord));
                        assert(false);
                    }
                }
                if !self.tiles[id].is_loaded() {
                    proof {
                        if hyp_b {
                            assert(old(self).tiles[id as int].image is Some);
                            assert(false);
                        }
                    }
                    match self.load_tile_at(id, loader) {
                        Ok(()) => {},
                        Err(er) => {
                            return Err(strip_not_loaded(er));
                        },
                    }
                    proof {
                        lemma_shape_untouched_trans(*self, pre, *old(self));
                        assert(self.tiles[id as int].same_header(pre.tiles[id as int]));
                    }
                }
                match self.tiles[id].lookup(coord) {
                    Ok(v) => {
                        proof {
                            assert(self.found_first_at(*coord, v, e as int, k as int));
                            if hyp_b {
                                assert(self.tiles@ == old(self).tiles@);
                                assert(v == gv);
                            }
                            assert forall|v2: i64| old(self).found_first(*coord, v2)
                                implies v2 == v by {
                                assert(hyp_b);
                                lemma_atlas_found_first_unique(*old(self), *coord, v2, gv);
                            }
                        }
                        return Ok(v);
                    },
                    Err(er) => {
                        proof {
                            assert(false);
                        }
                        return Err(strip_not_loaded(er));
                    },
                }
            }
            k = k + 1;
        }
        proof {
            self.lemma_miss_is_authoritative(*coord);
            if hyp_b {
                assert(false);
            }
        }
        Err(Error::MapNotFound(*coord))
    }

    /// The ground height and slopes at a coordinate, with the same scan,
    /// on-demand loading and miss semantics as `lookup`.
    pub fn lookup_with_gradient<L: TileLoader>(&mut self, coord: &Coord, loader: &L) -> (r: Result<
        (i64, i64, i64),
        Error,
    >)
        requires
            old(self).wf(),
            coord.wf(),
        ensures
            final(self).wf(),
            final(self).same_shape(*old(self)),
            final(self).unloaded_count() <= old(self).unloaded_count(),
            !(r matches Err(er) && er is MapNotLoaded),
            final(self).untouched_loaded(*old(self)),
            r is Err ==> final(self).same_state(*old(self)),
            (r matches Err(er) && er is MapNotFound) ==> (forall|t: int|
                0 <= t < final(self).tiles.len()
                    ==> !(#[trigger] final(self).tiles[t]).covers(*coord)),
            r matches Err(er) ==> (er matches Error::MapNotFound(c2) ==> c2 == *coord),
            (forall|t: int| 0 <= t < old(self).tiles.len()
                ==> !(#[trigger] old(self).tiles[t]).covers(*coord)) ==> (r matches Err(er)
                && er matches Error::MapNotFound(c2) && c2 == *coord),
            old(self).spec_has_images(*coord) && (exists|t: int| 0 <= t < old(self).tiles.len()
                && (#[trigger] old(self).tiles[t]).covers(*coord)) ==> r is Ok,
            forall|v: (i64, i64, i64)| old(self).found_first_grad(*coord, v) ==> r == Ok::<
                (i64, i64, i64),
                Error,
            >(v),
            r matches Ok(v) ==> final(self).found_first_grad(*coord, v),
    {
        let ghost hyp_b = exists|v: (i64, i64, i64)| old(self).found_first_grad(*coord, v);
        let ghost gv = choose|v: (i64, i64, i64)| old(self).found_first_grad(*coord, v);
        let ghost (ge, gk) = choose|e2: int, k2: int|
            old(self).found_first_grad_at(*coord, gv, e2, k2);
        proof {
            if old(self).spec_has_images(*coord) && (exists|t: int|
                0 <= t < old(self).tiles.len() && (#[trigger] old(self).tiles[t]).covers(
                *coord)) {
                self.lemma_loaded_cover_found(*coord);
                assert(hyp_b);
            }
            if hyp_b {
                assert(old(self).found_first_grad_at(*coord, gv, ge, gk));
            }
        }
        let h = Tile::coord_to_hash(coord);
        let e = match self.find_cell(h) {
            None => {
                proof {
                    self.lemma_miss_is_authoritative(*coord);
                    if hyp_b {
                        assert(self.cells[ge].hash == h);
                        assert(false);
                    }
                }
                return Err(Error::MapNotFound(*coord));
            },
            Some(e) => e,
        };
        proof {
            if hyp_b && ge != e as int {
                if ge < e as int {
                    assert(self.cells[ge].hash != self.cells[e as int].hash);
                } else {
                    assert(self.cells[e as int].hash != self.cells[ge].hash);
                }
            }
        }
        let n = self.cells[e].tile_ids.len();
        let mut k: usize = 0;
        while k < n
            invariant
                self.wf(),
                coord.wf(),
                self.same_shape(*old(self)),
                self.untouched_loaded(*old(self)),
                self.cells == old(self).cells,
                self.tiles@ == old(self).tiles@,
                self.unloaded_count() <= old(self).unloaded_count(),
                e < self.cells.len(),
                self.cells[e as int].hash == h,
                h == spec_coord_hash(*coord),
                n == self.cells[e as int].tile_ids.len(),
                k <= n,
                hyp_b == (exists|v: (i64, i64, i64)| old(self).found_first_grad(*coord, v)),
                hyp_b ==> old(self).found_first_grad_at(*coord, gv, ge, gk),
                hyp_b ==> ge == e as int && 0 <= gk < n && k <= gk,
                forall|j: int| 0 <= j < k
                    ==> !(#[trigger] self.tiles[self.cells[e as int].tile_ids[j] as int]).covers(
                        *coord),
            decreases n - k,
        {
            let id = self.cells[e].tile_ids[k];
            let ghost pre = *self;
            if self.tiles[id].covers_point(coord) {
                proof {
                    assert(old(self).tiles[id as int].covers(*coord));
                    if hyp_b && (k as int) < gk {
                        assert(!old(self).tiles[old(self).cells[ge].tile_ids[
                            k as int] as int].covers(*coord));
                        assert(false);
                    }
                }
                if !self.tiles[id].is_loaded() {
                    proof {
                        if hyp_b {
                            assert(old(self).tiles[id as int].image is Some);
                            assert(false);
                        }
                    }
                    match self.load_tile_at(id, loader) {
                        Ok(()) => {},
                        Err(er) => {
                            return Err(strip_not_loaded(er));
                        },
                    }
                    proof {
                        lemma_shape_untouched_trans(*self, pre, *old(self));
                        assert(self.tiles[id as int].same_header(pre.tiles[id as int]));
                    }
                }
                match self.tiles[id].lookup_with_gradient(coord) {
                    Ok(v) => {
                        proof {
                            assert(self.found_first_grad_at(*coord, v, e as int, k as int));
                            if hyp_b {
                                assert(self.tiles@ == old(self).tiles@);
                                assert(v == gv);
                            }
                            assert forall|v2: (i64, i64, i64)| old(self).found_first_grad(
                                *coord,
                                v2,
                            ) implies v2 == v by {
                                assert(hyp_b);
                                lemma_atlas_found_first_grad_unique(*old(self), *coord, v2, gv);
                            }
                        }
                        return Ok(v);
                    },
                    Err(er) => {
                        proof {
                            assert(false);
                        }
                        return Err(strip_not_loaded(er));
                    },
                }
            }
            k = k + 1;
        }
        proof {
            self.lemma_miss_is_authoritative(*coord);
            if hyp_b {
                assert(false);
            }
        }
        Err(Error::MapNotFound(*coord))
    }

    /// Ahead of any covering candidate stands a first covering candidate.
    proof fn lemma_first_covering(self, e: int, c: Coord, k1: int)
        requires
            self.cells_wf(),
            0 <= e < self.cells.len(),
            0 <= k1 < self.cells[e].tile_ids.len(),
            self.tiles[self.cells[e].tile_ids[k1] as int].covers(c),
        ensures
            exists|k0: int|
                {
                    &&& 0 <= k0 <= k1
                    &&& (#[trigger] self.tiles[self.cells[e].tile_ids[k0] as int]).covers(c)
                    &&& forall|j: int| 0 <= j < k0 ==> !(#[trigger] self.tiles[
                        self.cells[e].tile_ids[j] as int]).covers(c)
                },
        decreases k1,
    {
        if exists|j: int| 0 <= j < k1 && (#[trigger] self.tiles[
            self.cells[e].tile_ids[j] as int]).covers(c) {
            let j = choose|j: int|
                0 <= j < k1 && (#[trigger] self.tiles[self.cells[e].tile_ids[j] as int]).covers(
                c);
            self.lemma_first_covering(e, c, j);
        } else {
            assert(0 <= k1 <= k1 && self.tiles[self.cells[e].tile_ids[k1] as int].covers(c)
                && forall|j: int| 0 <= j < k1 ==> !(#[trigger] self.tiles[
                self.cells[e].tile_ids[j] as int]).covers(c));
        }
    }

    /// When the coordinate's bucket is fully materialized and some tile
    /// covers the coordinate, a first covering candidate exists, loaded,
    /// with an interpolated height the machine can hold.
    proof fn lemma_loaded_cover_found(self, c: Coord)
        requires
            self.wf(),
            c.wf(),
            self.spec_has_images(c),
            exists|t: int| 0 <= t < self.tiles.len() && (#[trigger] self.tiles[t]).covers(c),
        ensures
            exists|v: i64| self.found_first(c, v),
            exists|v: (i64, i64, i64)| self.found_first_grad(c, v),
    {
        let t0 = choose|t: int|
            0 <= t < self.tiles.len() && (#[trigger] self.tiles[t]).covers(c);
        lemma_covers_cell_in_rect(self.tiles[t0], c);
        assert(self.tiles[t0].cell_in_rect(
            crate::tile::cell_of(c.e as int),
            crate::tile::cell_of(c.n as int),
        ));
        assert(self.tiles[t0].hash_in_tile_rect(spec_coord_hash(c)));
        assert(self.listed(spec_coord_hash(c), t0 as usize));
        let e1 = choose|e2: int|
            0 <= e2 < self.cells.len() && self.cells[e2].hash == spec_coord_hash(c)
                && self.cells[e2].tile_ids@.contains(t0 as usize);
        let k1 = choose|k2: int|
            0 <= k2 < self.cells[e1].tile_ids@.len() && self.cells[e1].tile_ids@[k2] == t0
                as usize;
        assert(self.tiles[self.cells[e1].tile_ids[k1] as int].covers(c));
        self.lemma_first_covering(e1, c, k1);
        let k0 = choose|k0: int|
            {
                &&& 0 <= k0 <= k1
                &&& (#[trigger] self.tiles[self.cells[e1].tile_ids[k0] as int]).covers(c)
                &&& forall|j: int| 0 <= j < k0 ==> !(#[trigger] self.tiles[
                    self.cells[e1].tile_ids[j] as int]).covers(c)
            };
        let wid = self.cells[e1].tile_ids[k0] as int;
        assert(self.tiles[wid].image is Some);
        crate::tile::lemma_spec_lookup_bounds(self.tiles[wid], c);
        let v0 = self.tiles[wid].spec_lookup(c) as i64;
        assert(v0 == self.tiles[wid].spec_lookup(c));
        assert(self.found_first_at(c, v0, e1, k0));
        assert(self.found_first(c, v0));
        crate::tile::lemma_spec_grad_bounds(self.tiles[wid], c);
        let g0 = (
            v0,
            self.tiles[wid].spec_dhe(c) as i64,
            self.tiles[wid].spec_dhn(c) as i64,
        );
        assert(g0.1 == self.tiles[wid].spec_dhe(c) && g0.2 == self.tiles[wid].spec_dhn(c));
        assert(self.found_first_grad_at(c, g0, e1, k0));
        assert(self.found_first_grad(c, g0));
    }

    /// When no covering candidate exists in the coordinate's bucket (or
    /// the bucket is missing), no tile of the whole atlas covers the
    /// coordinate: the index lists every tile in every cell it overlaps.
    proof fn lemma_miss_is_authoritative(self, c: Coord)
        requires
            self.wf(),
            c.wf(),
            forall|e: int, k: int|
                0 <= e < self.cells.len() && self.cells[e].hash == spec_coord_hash(c)
                    && 0 <= k < self.cells[e].tile_ids.len()
                    ==> !(#[trigger] self.tiles[self.cells[e].tile_ids[k] as int]).covers(c),
        ensures
            forall|t: int| 0 <= t < self.tiles.len()
                ==> !(#[trigger] self.tiles[t]).covers(c),
    {
        assert forall|t: int| 0 <= t < self.tiles.len()
            implies !(#[trigger] self.tiles[t]).covers(c) by {
            if self.tiles[t].covers(c) {
                lemma_covers_cell_in_rect(self.tiles[t], c);
                assert(self.tiles[t].hash_in_tile_rect(spec_coord_hash(c)));
                assert(self.listed(spec_coord_hash(c), t as usize));
                let e = choose|e: int|
                    0 <= e < self.cells.len() && self.cells[e].hash == spec_coord_hash(c)
                        && self.cells[e].tile_ids@.contains(t as usize);
                let k = choose|k: int|
                    0 <= k < self.cells[e].tile_ids@.len()
                        && self.cells[e].tile_ids@[k] == t as usize;
                assert(!self.tiles[self.cells[e].tile_ids[k] as int].covers(c));
            }
        }
    }

    /// Merge another atlas into this one: every tile of the other is
    /// copied and indexed here, after the existing tiles. A name already
    /// present is not added again, so overlapping persisted indices merge
    /// into a table that is still deduplicated by file name.
    pub fn append(&mut self, other: &Atlas)
        requires
            old(self).wf(),
            other.wf(),
        ensures
            final(self).wf(),
            final(self).tiles@.len() >= old(self).tiles@.len(),
            forall|i: int| 0 <= i < old(self).tiles@.len()
                ==> final(self).tiles@[i] == old(self).tiles@[i],
            forall|h: u64, tid: usize| old(self).listed(h, tid) ==> final(self).listed(h, tid),
            forall|i: int| 0 <= i < other.tiles@.len()
                ==> final(self).has_name((#[trigger] other.tiles@[i]).fname@),
            forall|n: Seq<u8>| final(self).has_name(n) ==> old(self).has_name(n)
                || other.has_name(n),
            final(self).cells@.len() >= old(self).cells@.len(),
            forall|e: int| 0 <= e < old(self).cells@.len()
                ==> (#[trigger] final(self).cells@[e]).hash == old(self).cells@[e].hash
                    && seq_prefix(
                    old(self).cells@[e].tile_ids@,
                    final(self).cells@[e].tile_ids@,
                ),
    {
        let mut t: usize = 0;
        while t < other.tiles.len()
            invariant
                self.wf(),
                other.wf(),
                t <= other.tiles@.len(),
                self.tiles@.len() >= old(self).tiles@.len(),
                forall|i: int| 0 <= i < old(self).tiles@.len()
                    ==> self.tiles@[i] == old(self).tiles@[i],
                forall|h: u64, tid: usize| old(self).listed(h, tid) ==> self.listed(h, tid),
                forall|i: int| 0 <= i < t
                    ==> self.has_name((#[trigger] other.tiles@[i]).fname@),
                forall|n: Seq<u8>| self.has_name(n) ==> old(self).has_name(n)
                    || other.has_name(n),
                self.cells@.len() >= old(self).cells@.len(),
                forall|e: int| 0 <= e < old(self).cells@.len()
                    ==> (#[trigger] self.cells@[e]).hash == old(self).cells@[e].hash
                        && seq_prefix(
                        old(self).cells@[e].tile_ids@,
                        self.cells@[e].tile_ids@,
                    ),
            decreases other.tiles@.len() - t,
        {
            let copy = clone_tile(&other.tiles[t]);
            let ghost pre = *self;
            self.insert_tile(copy);
            proof {
                assert(copy.fname@ == other.tiles@[t as int].fname@);
                assert forall|i: int| 0 <= i <= t
                    implies self.has_name((#[trigger] other.tiles@[i]).fname@) by {
                    if i < t {
                        let w = choose|w: int|
                            0 <= w < pre.tiles.len() && pre.tiles[w].fname@ == other.tiles@[
                            i].fname@;
                        assert(self.tiles@[w] == pre.tiles@[w]);
                    } else {
                        assert(self.has_name(copy.fname@));
                    }
                }
                assert forall|n: Seq<u8>| self.has_name(n)
                    implies old(self).has_name(n) || other.has_name(n) by {
                    let w = choose|w: int|
                        0 <= w < self.tiles.len() && self.tiles[w].fname@ == n;
                    if w < pre.tiles@.len() {
                        assert(pre.tiles@[w] == self.tiles@[w]);
                        assert(pre.has_name(n));
                    } else {
                        assert(self.tiles@ == pre.tiles@.push(copy));
                        assert(self.tiles@[w].fname@ == copy.fname@);
                        assert(other.tiles@[t as int].fname@ == n);
                    }
                }
                assert forall|e: int| 0 <= e < old(self).cells@.len()
                    implies (#[trigger] self.cells@[e]).hash == old(self).cells@[e].hash
                        && seq_prefix(
                        old(self).cells@[e].tile_ids@,
                        self.cells@[e].tile_ids@,
                    ) by {
                    assert(pre.cells@[e].hash == old(self).cells@[e].hash);
                    assert(seq_prefix(old(self).cells@[e].tile_ids@, pre.cells@[e].tile_ids@));
                    assert(seq_prefix(pre.cells@[e].tile_ids@, self.cells@[e].tile_ids@));
                }
            }
            t = t + 1;
        }
    }
}

/// The gradient lookup and the plain lookup agree on the height: what
/// the first covering candidate answers with slopes, it answers without
/// them. With the lookups' value clauses this pins the pair of calls: a
/// successful gradient lookup's height is exactly what the plain lookup
/// then returns.
pub proof fn lemma_found_first_grad_height(a: Atlas, c: Coord, v: (i64, i64, i64))
    requires
        a.found_first_grad(c, v),
    ensures
        a.found_first(c, v.0),
{
    let (e, k) = choose|e: int, k: int| a.found_first_grad_at(c, v, e, k);
    assert(a.found_first_at(c, v.0, e, k));
}

/// Equal tile tables and buckets find the same first heights.
pub proof fn lemma_found_first_same_state(a: Atlas, b: Atlas, c: Coord)
    requires
        a.same_state(b),
    ensures
        forall|v: i64| a.found_first(c, v) == b.found_first(c, v),
{
    assert forall|v: i64| a.found_first(c, v) == b.found_first(c, v) by {
        if a.found_first(c, v) {
            let (e, k) = choose|e: int, k: int| a.found_first_at(c, v, e, k);
            assert(b.found_first_at(c, v, e, k));
        }
        if b.found_first(c, v) {
            let (e, k) = choose|e: int, k: int| b.found_first_at(c, v, e, k);
            assert(a.found_first_at(c, v, e, k));
        }
    }
}

/// The first covering candidate's interpolation is one value: two
/// heights found first are the same height.
proof fn lemma_atlas_found_first_unique(a: Atlas, c: Coord, v1: i64, v2: i64)
    requires
        a.cells_wf(),
        a.found_first(c, v1),
        a.found_first(c, v2),
    ensures
        v1 == v2,
{
    let (e1, k1) = choose|e: int, k: int| a.found_first_at(c, v1, e, k);
    let (e2, k2) = choose|e: int, k: int| a.found_first_at(c, v2, e, k);
    if e1 != e2 {
        if e1 < e2 {
            assert(a.cells[e1].hash != a.cells[e2].hash);
        } else {
            assert(a.cells[e2].hash != a.cells[e1].hash);
        }
    }
    if k1 < k2 {
        assert(!a.tiles[a.cells[e2].tile_ids[k1] as int].covers(c));
    }
    if k2 < k1 {
        assert(!a.tiles[a.cells[e1].tile_ids[k2] as int].covers(c));
    }
}

/// As the height uniqueness, for the gradient triple.
proof fn lemma_atlas_found_first_grad_unique(a: Atlas, c: Coord, v1: (i64, i64, i64), v2: (
    i64,
    i64,
    i64,
))
    requires
        a.cells_wf(),
        a.found_first_grad(c, v1),
        a.found_first_grad(c, v2),
    ensures
        v1 == v2,
{
    let (e1, k1) = choose|e: int, k: int| a.found_first_grad_at(c, v1, e, k);
    let (e2, k2) = choose|e: int, k: int| a.found_first_grad_at(c, v2, e, k);
    if e1 != e2 {
        if e1 < e2 {
            assert(a.cells[e1].hash != a.cells[e2].hash);
        } else {
            assert(a.cells[e2].hash != a.cells[e1].hash);
        }
    }
    if k1 < k2 {
        assert(!a.tiles[a.cells[e2].tile_ids[k1] as int].covers(c));
    }
    if k2 < k1 {
        assert(!a.tiles[a.cells[e1].tile_ids[k2] as int].covers(c));
    }
}

/// The not-loaded and no-tile kinds are the atlas's own vocabulary; a
/// loader failure that reuses them is renamed to the generic error before
/// it surfaces.
fn strip_not_loaded(e: Error) -> (r: Error)
    ensures
        !(r is MapNotLoaded),
        !(r is MapNotFound),
        !(e is MapNotLoaded) && !(e is MapNotFound) ==> r == e,
{
    match e {
        Error::MapNotLoaded(_) => Error::Generic,
        Error::MapNotFound(_) => Error::Generic,
        other => other,
    }
}

/// Some tile of the atlas covers the coordinate, is materialized, and
/// interpolates to exactly this height there.
pub open spec fn ground_at(a: Atlas, c: Coord, g: int) -> bool {
    exists|t: int|
        0 <= t < a.tiles.len() && (#[trigger] a.tiles[t]).covers(c) && a.tiles[t].image is Some
            && g == a.tiles[t].spec_lookup(c)
}

/// The unloaded count of a prefix is between zero and the prefix length.
pub proof fn lemma_unloaded_bounds(s: Seq<Tile>, n: int)
    requires
        0 <= n <= s.len(),
    ensures
        0 <= unloaded_in(s, n) <= n,
    decreases n,
{
    if n > 0 {
        lemma_unloaded_bounds(s, n - 1);
    }
}

/// What the first covering candidate interpolates is a ground height of
/// the atlas.
pub proof fn lemma_found_ground(a: Atlas, c: Coord, v: i64)
    requires
        a.cells_wf(),
        a.found_first(c, v),
    ensures
        ground_at(a, c, v as int),
{
    let (e, k) = choose|e: int, k: int|
        {
            &&& 0 <= e < a.cells.len()
            &&& a.cells[e].hash == spec_coord_hash(c)
            &&& 0 <= k < a.cells[e].tile_ids.len()
            &&& (forall|j: int| 0 <= j < k ==> !(#[trigger] a.tiles[
                a.cells[e].tile_ids[j] as int]).covers(c))
            &&& a.tiles[a.cells[e].tile_ids[k] as int].covers(c)
            &&& a.tiles[a.cells[e].tile_ids[k] as int].image is Some
            &&& v == a.tiles[a.cells[e].tile_ids[k] as int].spec_lookup(c)
        };
    let t = a.cells[e].tile_ids[k] as int;
    assert(0 <= t < a.tiles.len());
    assert(a.tiles[t].covers(c) && a.tiles[t].image is Some
        && v as int == a.tiles[t].spec_lookup(c));
}

/// A ground height survives any evolution that only adds bodies and
/// never touches a loaded tile.
pub proof fn lemma_ground_persists(a1: Atlas, a2: Atlas, c: Coord, g: int)
    requires
        ground_at(a1, c, g),
        a2.tiles.len() == a1.tiles.len(),
        a2.untouched_loaded(a1),
    ensures
        ground_at(a2, c, g),
{
    let t = choose|t: int|
        0 <= t < a1.tiles.len() && (#[trigger] a1.tiles[t]).covers(c) && a1.tiles[t].image
            is Some && g == a1.tiles[t].spec_lookup(c);
    assert(a2.tiles[t] == a1.tiles[t]);
    assert(a2.tiles[t].covers(c) && a2.tiles[t].image is Some
        && g == a2.tiles[t].spec_lookup(c));
}

/// Same-shape and untouched-loaded compose.
pub proof fn lemma_shape_untouched_trans(c: Atlas, b: Atlas, a: Atlas)
    requires
        c.same_shape(b),
        c.untouched_loaded(b),
        b.same_shape(a),
        b.untouched_loaded(a),
    ensures
        c.same_shape(a),
        c.untouched_loaded(a),
{
    lemma_same_shape_trans(c, b, a);
    assert forall|t: int| 0 <= t < a.tiles.len()
        implies ((#[trigger] a.tiles[t]).image is Some ==> c.tiles[t] == a.tiles[t]) by {
        if a.tiles[t].image is Some {
            assert(b.tiles[t] == a.tiles[t]);
            assert(b.tiles[t].image is Some);
        }
    }
}

/// Same-shape composes.
proof fn lemma_same_shape_trans(a: Atlas, b: Atlas, c: Atlas)
    requires
        a.same_shape(b),
        b.same_shape(c),
    ensures
        a.same_shape(c),
{
    assert forall|t: int| 0 <= t < a.tiles.len()
        implies (#[trigger] a.tiles[t]).same_header(c.tiles[t]) by {
        assert(a.tiles[t].same_header(b.tiles[t]));
        assert(b.tiles[t].same_header(c.tiles[t]));
    }
    assert forall|t: int| 0 <= t < a.tiles.len()
        implies ((#[trigger] c.tiles[t]).image is Some ==> a.tiles[t].image is Some) by {
        if c.tiles[t].image is Some {
            assert(b.tiles[t].image is Some);
        }
    }
}

/// A deep copy of a tile: same header, an equal body.
fn clone_tile(t: &Tile) -> (r: Tile)
    ensures
        t.same_content(r),
        r.same_content(*t),
        t.wf() ==> r.wf(),
{
    let image = match &t.image {
        Some(img) => Some(vstd::slice::slice_to_vec(img.as_slice())),
        None => None,
    };
    Tile {
        fname: crate::tile::clone_bytes(&t.fname),
        width: t.width,
        height: t.height,
        origin_e: t.origin_e,
        origin_n: t.origin_n,
        pixel_size: t.pixel_size,
        image,
    }
}

/// How many tiles of a prefix of the table still lack their pixel body.
pub open spec fn unloaded_in(s: Seq<Tile>, n: int) -> int
    decreases n,
{
    if n <= 0 {
        0
    } else {
        unloaded_in(s, n - 1) + if s[n - 1].image is None {
            1int
        } else {
            0int
        }
    }
}

impl Atlas {
    /// How many tiles of the atlas still lack their pixel body: the
    /// measure that every on-demand load strictly decreases.
    pub open spec fn unloaded_count(self) -> int {
        unloaded_in(self.tiles@, self.tiles@.len() as int)
    }
}

/// If bodies only appear (never disappear), the unloaded count cannot
/// grow; and if some body appeared, it strictly shrinks.
pub proof fn lemma_unloaded_monotonic(a: Seq<Tile>, b: Seq<Tile>, n: int)
    requires
        a.len() == b.len(),
        0 <= n <= a.len(),
        forall|i: int| 0 <= i < a.len()
            ==> ((#[trigger] a[i]).image is Some ==> b[i].image is Some),
    ensures
        unloaded_in(b, n) <= unloaded_in(a, n),
        forall|w: int| 0 <= w < n && a[w].image is None && (#[trigger] b[w]).image is Some
            ==> unloaded_in(b, n) < unloaded_in(a, n),
    decreases n,
{
    if n > 0 {
        lemma_unloaded_monotonic(a, b, n - 1);
        assert forall|w: int|
            0 <= w < n && a[w].image is None && (#[trigger] b[w]).image is Some
                implies unloaded_in(b, n) < unloaded_in(a, n) by {
            if w < n - 1 {
                assert(unloaded_in(b, n - 1) < unloaded_in(a, n - 1));
            }
        }
    }
}

/// The unloaded count only looks at the bodies, pointwise.
pub proof fn lemma_unloaded_same(a: Seq<Tile>, b: Seq<Tile>, n: int)
    requires
        a.len() == b.len(),
        0 <= n <= a.len(),
        forall|i: int| 0 <= i < a.len()
            ==> ((#[trigger] a[i]).image is Some <==> b[i].image is Some),
    ensures
        unloaded_in(b, n) == unloaded_in(a, n),
    decreases n,
{
    if n > 0 {
        lemma_unloaded_same(a, b, n - 1);
    }
}

/// Replacing one tile by one with the same header and a body keeps the
/// whole atlas well-formed.
proof fn lemma_wf_after_body_update(pre: Atlas, post: Atlas, id: int, t2: Tile)
    requires
        pre.wf(),
        0 <= id < pre.tiles.len(),
        t2.wf(),
        t2.same_header(pre.tiles[id]),
        post.cells == pre.cells,
        post.tiles@ == pre.tiles@.update(id, t2),
    ensures
        post.wf(),
{
    lemma_listed_same_cells(pre, post);
    assert forall|t: int, h: u64|
        0 <= t < post.tiles.len() && #[trigger] post.tiles[t].hash_in_tile_rect(h)
            implies post.listed(h, t as usize) by {
        if t == id {
            lemma_rect_same_header(post.tiles[t], pre.tiles[t]);
            assert(pre.tiles[t].hash_in_tile_rect(h));
        } else {
            assert(post.tiles[t] == pre.tiles[t]);
        }
        assert(pre.listed(h, t as usize));
    }
    assert forall|ee: int, k: int|
        0 <= ee < post.cells.len() && 0 <= k < post.cells[ee].tile_ids.len()
            implies (#[trigger] post.tiles[post.cells[ee].tile_ids[k] as int]).hash_in_tile_rect(
            post.cells[ee].hash) by {
        let tid = post.cells[ee].tile_ids[k] as int;
        assert(pre.tiles[tid].hash_in_tile_rect(pre.cells[ee].hash));
        if tid == id {
            lemma_rect_same_header(post.tiles[tid], pre.tiles[tid]);
        } else {
            assert(post.tiles[tid] == pre.tiles[tid]);
        }
    }
    assert forall|i: int, j: int| 0 <= i < j < post.tiles@.len()
        implies (#[trigger] post.tiles@[i]).fname@ != (#[trigger] post.tiles@[j]).fname@ by {
        assert(post.tiles@[i].fname@ == pre.tiles@[i].fname@);
        assert(post.tiles@[j].fname@ == pre.tiles@[j].fname@);
    }
}

/// Tiles with the same header overlap the same cells.
proof fn lemma_rect_same_header(t1: Tile, t2: Tile)
    requires
        t1.same_header(t2),
    ensures
        forall|h: u64| t1.hash_in_tile_rect(h) == t2.hash_in_tile_rect(h),
{
    assert forall|h: u64| t1.hash_in_tile_rect(h) == t2.hash_in_tile_rect(h) by {
        assert(forall|a: int, b: int|
            t1.cell_in_rect(a, b) == t2.cell_in_rect(a, b));
        if t1.hash_in_tile_rect(h) {
            let (a, b) = choose|a: int, b: int|
                t1.cell_in_rect(a, b) && h == crate::tile::spec_hash_cell(a, b);
            assert(t2.cell_in_rect(a, b) && h == crate::tile::spec_hash_cell(a, b));
        }
        if t2.hash_in_tile_rect(h) {
            let (a, b) = choose|a: int, b: int|
                t2.cell_in_rect(a, b) && h == crate::tile::spec_hash_cell(a, b);
            assert(t1.cell_in_rect(a, b) && h == crate::tile::spec_hash_cell(a, b));
        }
    }
}

/// A placeholder tile swapped into the table while the real one is being
/// loaded.
fn placeholder_tile() -> (t: Tile)
    ensures
        t.wf(),
{
    Tile {
        fname: Vec::new(),
        width: 1,
        height: 1,
        origin_e: 0,
        origin_n: 0,
        pixel_size: 1,
        image: None,
    }
}

/// Two atlases with the very same buckets list the very same tiles.
proof fn lemma_listed_same_cells(a: Atlas, b: Atlas)
    requires
        a.cells == b.cells,
    ensures
        forall|h: u64, tid: usize| a.listed(h, tid) ==> b.listed(h, tid),
{
    assert forall|h: u64, tid: usize| a.listed(h, tid) implies b.listed(h, tid) by {
        let e = choose|e: int|
            0 <= e < a.cells.len() && a.cells[e].hash == h && a.cells[e].tile_ids@.contains(tid);
        assert(0 <= e < b.cells.len() && b.cells[e].hash == h
            && b.cells[e].tile_ids@.contains(tid));
    }
}

/// Byte-for-byte equality of two names.
fn names_equal(a: &Vec<u8>, b: &Vec<u8>) -> (r: bool)
    ensures
        r == (a@ == b@),
{
    if a.len() != b.len() {
        proof {
            assert(a@.len() != b@.len());
        }
        return false;
    }
    let mut i: usize = 0;
    while i < a.len()
        invariant
            a@.len() == b@.len(),
            i <= a@.len(),
            forall|j: int| 0 <= j < i ==> a@[j] == b@[j],
        decreases a@.len() - i,
    {
        if a[i] != b[i] {
            return false;
        }
        i = i + 1;
    }
    proof {
        assert(a@ =~= b@);
    }
    true
}

/// Copy a candidate list.
fn clone_ids(v: &Vec<usize>) -> (r: Vec<usize>)
    ensures
        r@ == v@,
{
    vstd::slice::slice_to_vec(v.as_slice())
}

/// Appending a tile id to one bucket preserves everything listed and
/// lists the new id under that bucket's hash; bucket well-formedness is
/// kept.
proof fn lemma_listed_after_update(pre: Atlas, post: Atlas, e: int, new_id: usize)
    requires
        pre.cells_wf(),
        pre.tight(),
        new_id < pre.tiles.len(),
        0 <= e < pre.cells.len(),
        post.tiles == pre.tiles,
        post.tiles@[new_id as int].hash_in_tile_rect(pre.cells[e].hash),
        post.cells@ == pre.cells@.update(
            e,
            CellEntry {
                hash: pre.cells[e].hash,
                tile_ids: post.cells[e].tile_ids,
            },
        ),
        post.cells[e].tile_ids@ == pre.cells[e].tile_ids@.push(new_id),
    ensures
        post.cells_wf(),
        post.tight(),
        forall|h: u64, tid: usize| pre.listed(h, tid) ==> post.listed(h, tid),
        forall|h: u64, tid: usize| post.listed(h, tid) ==> pre.listed(h, tid) || tid == new_id,
        post.listed(pre.cells[e].hash, new_id),
        post.cells@.len() == pre.cells@.len(),
        forall|e2: int| 0 <= e2 < pre.cells@.len()
            ==> (#[trigger] post.cells@[e2]).hash == pre.cells@[e2].hash
                && seq_prefix(pre.cells@[e2].tile_ids@, post.cells@[e2].tile_ids@),
{
    assert forall|ee: int, k: int|
        0 <= ee < post.cells.len() && 0 <= k < post.cells[ee].tile_ids.len()
            implies (#[trigger] post.tiles[post.cells[ee].tile_ids[k] as int]).hash_in_tile_rect(
            post.cells[ee].hash) by {
        if ee == e {
            if k < pre.cells[e].tile_ids@.len() {
                assert(post.cells[e].tile_ids@[k] == pre.cells[e].tile_ids@[k]);
                assert(pre.tiles[pre.cells[e].tile_ids[k] as int].hash_in_tile_rect(
                    pre.cells[e].hash));
            } else {
                assert(post.cells[e].tile_ids@[k] == new_id);
            }
        } else {
            assert(post.cells[ee] == pre.cells[ee]);
        }
    }
    assert forall|h: u64, tid: usize| post.listed(h, tid)
        implies pre.listed(h, tid) || tid == new_id by {
        let e2 = choose|e2: int|
            0 <= e2 < post.cells.len() && post.cells[e2].hash == h
                && post.cells[e2].tile_ids@.contains(tid);
        if e2 == e {
            let i = choose|i: int|
                0 <= i < post.cells[e].tile_ids@.len() && post.cells[e].tile_ids@[i] == tid;
            if i < pre.cells[e].tile_ids@.len() {
                assert(pre.cells[e].tile_ids@[i] == tid);
                assert(pre.cells[e].tile_ids@.contains(tid));
            }
        } else {
            assert(post.cells[e2] == pre.cells[e2]);
        }
    }
    assert forall|h: u64, tid: usize| pre.listed(h, tid) implies post.listed(h, tid) by {
        let e2 = choose|e2: int|
            0 <= e2 < pre.cells.len() && pre.cells[e2].hash == h
                && pre.cells[e2].tile_ids@.contains(tid);
        if e2 == e {
            let i = choose|i: int|
                0 <= i < pre.cells[e].tile_ids@.len() && pre.cells[e].tile_ids@[i] == tid;
            assert(post.cells[e].tile_ids@[i] == tid);
            assert(post.cells[e].tile_ids@.contains(tid));
        } else {
            assert(post.cells[e2] == pre.cells[e2]);
        }
    }
    assert(post.cells[e].tile_ids@[pre.cells[e].tile_ids@.len() as int] == new_id);
    assert(post.cells[e].tile_ids@.contains(new_id));
    assert forall|ee: int, k: int|
        0 <= ee < post.cells.len() && 0 <= k < post.cells[ee].tile_ids.len()
            implies #[trigger] post.cells[ee].tile_ids[k] < post.tiles.len() by {
        if ee == e {
            if k < pre.cells[e].tile_ids@.len() {
                assert(post.cells[e].tile_ids@[k] == pre.cells[e].tile_ids@[k]);
            }
        } else {
            assert(post.cells[ee] == pre.cells[ee]);
        }
    }
}

/// Adding a fresh bucket preserves everything listed and lists the new id
/// under the fresh hash; bucket well-formedness is kept when the hash was
/// absent.
proof fn lemma_listed_after_push(pre: Atlas, post: Atlas, h: u64, new_id: usize)
    requires
        pre.cells_wf(),
        pre.tight(),
        new_id < pre.tiles.len(),
        !pre.has_cell(h),
        post.tiles == pre.tiles,
        post.tiles@[new_id as int].hash_in_tile_rect(h),
        post.cells@ == pre.cells@.push(
            CellEntry { hash: h, tile_ids: post.cells[pre.cells.len() as int].tile_ids },
        ),
        post.cells[pre.cells.len() as int].tile_ids@ == seq![new_id],
    ensures
        post.cells_wf(),
        post.tight(),
        forall|h2: u64, tid: usize| pre.listed(h2, tid) ==> post.listed(h2, tid),
        forall|h2: u64, tid: usize| post.listed(h2, tid) ==> pre.listed(h2, tid)
            || tid == new_id,
        post.listed(h, new_id),
        post.cells@.len() == pre.cells@.len() + 1,
        forall|e2: int| 0 <= e2 < pre.cells@.len()
            ==> (#[trigger] post.cells@[e2]).hash == pre.cells@[e2].hash
                && seq_prefix(pre.cells@[e2].tile_ids@, post.cells@[e2].tile_ids@),
{
    let n = pre.cells.len() as int;
    assert forall|ee: int, k: int|
        0 <= ee < post.cells.len() && 0 <= k < post.cells[ee].tile_ids.len()
            implies (#[trigger] post.tiles[post.cells[ee].tile_ids[k] as int]).hash_in_tile_rect(
            post.cells[ee].hash) by {
        if ee < n {
            assert(post.cells[ee] == pre.cells[ee]);
            assert(pre.tiles[pre.cells[ee].tile_ids[k] as int].hash_in_tile_rect(
                pre.cells[ee].hash));
        } else {
            assert(post.cells[ee].tile_ids@[k] == new_id);
        }
    }
    assert forall|h2: u64, tid: usize| post.listed(h2, tid)
        implies pre.listed(h2, tid) || tid == new_id by {
        let e2 = choose|e2: int|
            0 <= e2 < post.cells.len() && post.cells[e2].hash == h2
                && post.cells[e2].tile_ids@.contains(tid);
        if e2 < n {
            assert(post.cells[e2] == pre.cells[e2]);
        } else {
            let i = choose|i: int|
                0 <= i < post.cells[e2].tile_ids@.len() && post.cells[e2].tile_ids@[i] == tid;
            assert(post.cells[e2].tile_ids@[i] == new_id);
        }
    }
    assert forall|h2: u64, tid: usize| pre.listed(h2, tid) implies post.listed(h2, tid) by {
        let e2 = choose|e2: int|
            0 <= e2 < pre.cells.len() && pre.cells[e2].hash == h2
                && pre.cells[e2].tile_ids@.contains(tid);
        assert(post.cells[e2] == pre.cells[e2]);
    }
    assert(post.cells[n].tile_ids@[0] == new_id);
    assert(post.cells[n].tile_ids@.contains(new_id));
    assert(post.cells[n].hash == h);
    assert forall|e1: int, e2: int| 0 <= e1 < e2 < post.cells.len()
        implies post.cells[e1].hash != post.cells[e2].hash by {
        if e2 == n {
            if post.cells[e1].hash == h {
                assert(pre.cells[e1].hash == h);
                assert(pre.has_cell(h));
            }
        } else {
            assert(post.cells[e1] == pre.cells[e1]);
            assert(post.cells[e2] == pre.cells[e2]);
        }
    }
    assert forall|ee: int, k: int|
        0 <= ee < post.cells.len() && 0 <= k < post.cells[ee].tile_ids.len()
            implies #[trigger] post.cells[ee].tile_ids[k] < post.tiles.len() by {
        if ee < n {
            assert(post.cells[ee] == pre.cells[ee]);
        }
    }
}

} // verus!

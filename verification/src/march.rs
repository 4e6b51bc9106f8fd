//! The curved-earth ray marcher: distance-adaptive stepping along a ray,
//! dual-resolution terrain sampling with on-demand promotion to the fine
//! atlas, and a proved bound on the number of steps.
//!
//! The height of the curved ray above mean sea level at a given distance
//! is trigonometry over the pitch; it reaches the marcher through the
//! `RayHeight` oracle, whose every possible answer the proofs cover. The
//! marcher decides everything else itself: where the sample point lies,
//! which atlas answers, when to promote, rewind, advance, hit or give up.

use vstd::prelude::*;
use vstd::arithmetic::div_mod::{lemma_div_is_ordered, lemma_div_multiples_vanish, lemma_div_pos_is_pos};
use crate::atlas::{Atlas, ground_at, lemma_unloaded_bounds};
use crate::coord::Coord;
use crate::errors::Error;
use crate::intmath::floor_div;
use crate::tile::TileLoader;

verus! {

/// The smallest forward step: 0.9 m in centimetres.
pub const DR_MIN: i64 = 90;

/// The largest forward step: 30 m in centimetres.
pub const DR_MAX: i64 = 3000;

/// How far the ray rewinds after promoting the fine atlas: 50 m.
pub const REWIND: i64 = 5000;

/// Rays above this height never strike terrain again (above the highest
/// mainland peaks): 2600 m.
pub const SKY_LIMIT: i64 = 260_000;

/// Largest ray depth the marcher accepts: 10 000 km in centimetres.
pub const DEPTH_LIMIT: i64 = 1_000_000_000;

/// Largest `dr_factor` the marcher accepts.
pub const DR_FACTOR_LIMIT: i64 = 1_000_000_000;

/// Largest fine-atlas tile count the step counter is sized for.
pub const MARCH_TILE_LIMIT: usize = 1_000_000_000;

/// The height of the curved-earth ray above mean sea level at a given
/// distance, for a given ray of the frame (pitch row). The surroundings
/// compute it from the pitch with floating point trigonometry; the
/// marcher is verified for every answer the oracle may give.
pub trait RayHeight {
    fn height_at(&self, row: usize, r: i64) -> i64;
}

/// The precomputed stepping parameters of a frame, in centimetres.
pub struct MarchParams {
    /// Initial ray distance.
    pub min_depth: i64,
    /// Ray distance at which the march gives up.
    pub max_depth: i64,
    /// Total distance under which the fine atlas is preferred.
    pub r10: i64,
    /// Divisor of the distance-proportional middle step.
    pub dr_factor: i64,
    /// Below this total distance the step is `DR_MIN`.
    pub dr_min_range: i64,
    /// Above this total distance the step is `DR_MAX`.
    pub dr_max_range: i64,
}

impl MarchParams {
    pub open spec fn wf(self) -> bool {
        &&& 0 <= self.min_depth <= self.max_depth <= DEPTH_LIMIT
        &&& 1 <= self.max_depth
        &&& 1 <= self.dr_factor <= DR_FACTOR_LIMIT
        &&& 0 <= self.r10 <= DEPTH_LIMIT
        &&& self.dr_min_range == DR_MIN * self.dr_factor
        &&& self.dr_max_range == DR_MAX * self.dr_factor
    }

    /// Assemble the stepping parameters; the two range thresholds are the
    /// step sizes scaled by the factor. Succeeds exactly on arguments
    /// within the marcher's limits.
    pub fn new(min_depth: i64, max_depth: i64, r10: i64, dr_factor: i64) -> (r: Result<
        MarchParams,
        Error,
    >)
        ensures
            r matches Ok(p) ==> p.wf() && p.min_depth == min_depth && p.max_depth == max_depth
                && p.r10 == r10 && p.dr_factor == dr_factor,
            r is Ok <==> (0 <= min_depth <= max_depth <= DEPTH_LIMIT && 1 <= max_depth
                && 1 <= dr_factor <= DR_FACTOR_LIMIT && 0 <= r10 <= DEPTH_LIMIT),
    {
        if min_depth < 0 || max_depth < min_depth || max_depth > DEPTH_LIMIT || max_depth < 1 {
            return Err(Error::Generic);
        }
        if dr_factor < 1 || dr_factor > DR_FACTOR_LIMIT {
            return Err(Error::Generic);
        }
        if r10 < 0 || r10 > DEPTH_LIMIT {
            return Err(Error::Generic);
        }
        Ok(MarchParams {
            min_depth,
            max_depth,
            r10,
            dr_factor,
            dr_min_range: DR_MIN * dr_factor,
            dr_max_range: DR_MAX * dr_factor,
        })
    }
}

/// The point of the ray segment at distance `r` of `max_depth`, by
/// similar triangles on each axis, floored to the centimetre grid.
pub open spec fn spec_ray_point(origin: Coord, ray_end: Coord, r: int, max_depth: int) -> Coord {
    Coord {
        e: (origin.e + (ray_end.e - origin.e) * r / max_depth) as i64,
        n: (origin.n + (ray_end.n - origin.n) * r / max_depth) as i64,
    }
}

/// One axis of the ray point stays between its endpoints.
proof fn lemma_ray_axis(o: int, d: int, r: int, max_depth: int)
    requires
        0 <= r <= max_depth,
        1 <= max_depth,
    ensures
        d >= 0 ==> 0 <= d * r / max_depth <= d,
        d < 0 ==> d <= d * r / max_depth <= 0,
{
    if d >= 0 {
        assert(0 <= d * r <= d * max_depth) by (nonlinear_arith)
            requires
                0 <= r <= max_depth,
                d >= 0,
        ;
        lemma_div_pos_is_pos(d * r, max_depth);
        lemma_div_is_ordered(d * r, d * max_depth, max_depth);
        lemma_div_multiples_vanish(d, max_depth);
        assert(max_depth * d == d * max_depth) by (nonlinear_arith);
    } else {
        assert(d * max_depth <= d * r <= 0) by (nonlinear_arith)
            requires
                0 <= r <= max_depth,
                d < 0,
        ;
        lemma_div_is_ordered(d * max_depth, d * r, max_depth);
        lemma_div_is_ordered(d * r, 0, max_depth);
        lemma_div_multiples_vanish(d, max_depth);
        assert(max_depth * d == d * max_depth) by (nonlinear_arith);
        assert(0int / max_depth == 0);
    }
}

/// Compute the ray point. The result stays within the bounding box of
/// the two endpoints, hence within the world.
fn ray_point(origin: Coord, ray_end: Coord, r: i64, max_depth: i64) -> (c: Coord)
    requires
        origin.wf(),
        ray_end.wf(),
        0 <= r <= max_depth,
        1 <= max_depth <= DEPTH_LIMIT,
    ensures
        c == spec_ray_point(origin, ray_end, r as int, max_depth as int),
        c.wf(),
{
    let de = ray_end.e - origin.e;
    let dn = ray_end.n - origin.n;
    proof {
        assert(-4_000_000_000_000_000_000 <= de * r <= 4_000_000_000_000_000_000
            && -4_000_000_000_000_000_000 <= dn * r <= 4_000_000_000_000_000_000)
            by (nonlinear_arith)
            requires
                -4_000_000_000 <= de <= 4_000_000_000,
                -4_000_000_000 <= dn <= 4_000_000_000,
                0 <= r <= 1_000_000_000,
        ;
        lemma_ray_axis(origin.e as int, de as int, r as int, max_depth as int);
        lemma_ray_axis(origin.n as int, dn as int, r as int, max_depth as int);
    }
    let qe = floor_div(de * r, max_depth);
    let qn = floor_div(dn * r, max_depth);
    Coord { e: origin.e + qe, n: origin.n + qn }
}

/// A terrain hit of the march.
pub struct MarchHit {
    /// The sample point that struck ground (or open sea).
    pub coord: Coord,
    /// The ray distance of the hit, from this ray's origin.
    pub dist: i64,
    /// What the oracle reported for the ray height at the hit.
    pub ray_height: i64,
    /// The terrain height the atlases reported, or nothing for a hit on
    /// open sea outside every tile.
    pub ground: Option<i64>,
    /// Whether a fine bucket at the hit still held unmaterialized tiles
    /// that the loader failed to supply: the one case in which a hit in
    /// fine range is returned over an unsettled fine bucket.
    pub fine_pending: bool,
}

/// The ray marcher: the two atlases and the stepping parameters of a
/// frame.
pub struct Marcher {
    /// The fine (nominal 1 m) atlas.
    pub atlas1: Atlas,
    /// The coarse (nominal 10 m) atlas.
    pub atlas10: Atlas,
    pub params: MarchParams,
}

impl Marcher {
    pub open spec fn wf(self) -> bool {
        self.atlas1.wf() && self.atlas10.wf() && self.params.wf()
    }

    /// Both atlases keep their structure; bodies only appear; loaded
    /// tiles are never touched.
    pub open spec fn evolves_to(self, post: Marcher) -> bool {
        &&& post.params == self.params
        &&& post.atlas1.same_shape(self.atlas1)
        &&& post.atlas10.same_shape(self.atlas10)
        &&& post.atlas1.untouched_loaded(self.atlas1)
        &&& post.atlas10.untouched_loaded(self.atlas10)
        &&& post.atlas1.unloaded_count() <= self.atlas1.unloaded_count()
        &&& post.atlas10.unloaded_count() <= self.atlas10.unloaded_count()
    }

    pub fn new(atlas1: Atlas, atlas10: Atlas, params: MarchParams) -> (m: Marcher)
        ensures
            m.atlas1 == atlas1,
            m.atlas10 == atlas10,
            m.params == params,
    {
        Marcher { atlas1, atlas10, params }
    }

    /// March one ray and report the number of loop iterations taken.
    ///
    /// The step bound: every iteration either advances the ray by at
    /// least `DR_MIN` or rewinds by at most `REWIND` after materializing
    /// fine tiles, and each rewind permanently shrinks the fine atlas's
    /// stock of unmaterialized tiles. So the iteration count is at most
    /// `(max_depth - min_depth + DR_MIN) / DR_MIN` plus
    /// `(REWIND + DR_MIN) / DR_MIN` per tile the fine atlas had yet to
    /// load.
    pub fn render_ray_counted<O: RayHeight, L: TileLoader>(
        &mut self,
        oracle: &O,
        loader: &L,
        row: usize,
        passed_dist: i64,
        origin: Coord,
        ray_end: Coord,
    ) -> (res: (Option<MarchHit>, u64))
        requires
            old(self).wf(),
            origin.wf(),
            ray_end.wf(),
            0 <= passed_dist <= DEPTH_LIMIT,
            old(self).atlas1.tiles@.len() <= MARCH_TILE_LIMIT,
        ensures
            final(self).wf(),
            old(self).evolves_to(*final(self)),
            DR_MIN * res.1 <= (old(self).params.max_depth - old(self).params.min_depth)
                + old(self).atlas1.unloaded_count() * (REWIND + DR_MIN) + DR_MIN,
            res.0 matches Some(hit) ==> {
                &&& old(self).params.min_depth <= hit.dist < old(self).params.max_depth
                &&& hit.coord == spec_ray_point(
                    origin,
                    ray_end,
                    hit.dist as int,
                    old(self).params.max_depth as int,
                )
                &&& hit.coord.wf()
                &&& (hit.ground matches Some(g) ==> hit.ray_height < g
                    && (ground_at(final(self).atlas1, hit.coord, g as int)
                        || ground_at(final(self).atlas10, hit.coord, g as int)))
                &&& (hit.ground is None ==> hit.ray_height < 0 && (forall|v: i64|
                    !final(self).atlas10.found_first(hit.coord, v)) && (passed_dist + hit.dist
                    < old(self).params.r10 ==> forall|v: i64| !final(self).atlas1.found_first(
                    hit.coord,
                    v,
                )))
                &&& (hit.ground is Some && passed_dist + hit.dist < old(self).params.r10
                    && !hit.fine_pending ==> final(self).atlas1.spec_has_images(hit.coord)
                    || !final(self).atlas1.spec_has_maps(hit.coord))
                &&& (hit.fine_pending ==> hit.ground is Some
                    && final(self).atlas1.spec_has_maps(hit.coord)
                    && !final(self).atlas1.spec_has_images(hit.coord))
            },
    {
        let p_min = self.params.min_depth;
        let p_max = self.params.max_depth;
        let p_r10 = self.params.r10;
        let mut r = p_min;
        let mut steps: u64 = 0;
        let ghost mut promos: int = 0;
        let ghost u0 = self.atlas1.unloaded_count();
        proof {
            lemma_unloaded_bounds(self.atlas1.tiles@, self.atlas1.tiles@.len() as int);
        }
        while r < p_max
            invariant
                self.wf(),
                origin.wf(),
                ray_end.wf(),
                0 <= passed_dist <= DEPTH_LIMIT,
                p_min == self.params.min_depth,
                p_max == self.params.max_depth,
                p_r10 == self.params.r10,
                old(self).evolves_to(*self),
                p_min <= r,
                r <= p_max + 2 * DEPTH_LIMIT,
                0 <= promos,
                0 <= self.atlas1.unloaded_count(),
                promos + self.atlas1.unloaded_count() <= u0,
                u0 == old(self).atlas1.unloaded_count(),
                0 <= u0 <= MARCH_TILE_LIMIT,
                DR_MIN * steps <= (if r <= p_max {
                    r - p_min
                } else {
                    p_max - p_min + DR_MIN
                }) + promos * (REWIND + DR_MIN),
            decreases self.atlas1.unloaded_count(), p_max + 2 * DEPTH_LIMIT - r,
        {
            proof {
                lemma_unloaded_bounds(self.atlas1.tiles@, self.atlas1.tiles@.len() as int);
                lemma_promo_budget(promos, u0);
            }
            steps = steps + 1;
            let c = ray_point(origin, ray_end, r, p_max);
            let total = passed_dist + r;
            let h = oracle.height_at(row, r);
            if h > SKY_LIMIT {
                return (None, steps);
            }
            let ghost pre_iter = *self;
            let mut ret: Result<i64, Error> = Err(Error::Generic);
            let ghost pre1 = self.atlas1;
            if total < p_r10 {
                ret = self.atlas1.lookup(&c, loader);
            }
            let ghost fine_err = total < p_r10 && !(ret is Ok);
            let fine_hit = ret.is_ok();
            let ghost pre10 = self.atlas10;
            if !fine_hit {
                ret = self.atlas10.lookup(&c, loader);
            }
            let ghost s_dec = *self;
            proof {
                lemma_evolves_chain(*old(self), pre_iter, *self);
            }
            let mut rewound = false;
            match ret {
                Ok(land_height) => {
                    if h < land_height {
                        let mut promoted = false;
                        let mut fine_pending = false;
                        if total < p_r10 && self.atlas1.has_maps(&c) && !self.atlas1.has_images(
                            &c,
                        ) {
                            let ghost pre_load = *self;
                            match self.atlas1.load_images(&c, loader) {
                                Ok(()) => {
                                    promoted = true;
                                },
                                Err(_) => {
                                    fine_pending = true;
                                },
                            }
                            proof {
                                lemma_evolves_chain(*old(self), pre_load, *self);
                            }
                        }
                        if promoted {
                            proof {
                                assert((promos + 1) * (REWIND + DR_MIN) == promos * (REWIND
                                    + DR_MIN) + (REWIND + DR_MIN)) by (nonlinear_arith);
                                promos = promos + 1;
                            }
                            r = if r - REWIND > p_min {
                                r - REWIND
                            } else {
                                p_min
                            };
                            rewound = true;
                        } else {
                            proof {
                                lemma_hit_ground(
                                    s_dec,
                                    *self,
                                    c,
                                    land_height as int,
                                    fine_hit,
                                );
                            }
                            return (
                                Some(
                                    MarchHit {
                                        coord: c,
                                        dist: r,
                                        ray_height: h,
                                        ground: Some(land_height),
                                        fine_pending,
                                    },
                                ),
                                steps,
                            );
                        }
                    }
                },
                Err(_) => {
                    if h < 0 {
                        proof {
                            crate::atlas::lemma_found_first_same_state(
                                self.atlas10,
                                pre10,
                                c,
                            );
                            if fine_err {
                                crate::atlas::lemma_found_first_same_state(
                                    self.atlas1,
                                    pre1,
                                    c,
                                );
                            }
                        }
                        return (
                            Some(
                                MarchHit {
                                    coord: c,
                                    dist: r,
                                    ray_height: h,
                                    ground: None,
                                    fine_pending: false,
                                },
                            ),
                            steps,
                        );
                    }
                },
            }
            if !rewound {
                if total < self.params.dr_min_range {
                    r = r + DR_MIN;
                } else if total > self.params.dr_max_range {
                    r = r + DR_MAX;
                } else {
                    proof {
                        lemma_mid_step(total as int, self.params.dr_factor as int);
                    }
                    let step = total / self.params.dr_factor;
                    r = r + step;
                }
            }
            proof {
                lemma_unloaded_bounds(self.atlas1.tiles@, self.atlas1.tiles@.len() as int);
            }
        }
        (None, steps)
    }

    /// March one ray: the first ground or open-sea hit along it, or
    /// nothing for sky.
    pub fn render_ray<O: RayHeight, L: TileLoader>(
        &mut self,
        oracle: &O,
        loader: &L,
        row: usize,
        passed_dist: i64,
        origin: Coord,
        ray_end: Coord,
    ) -> (res: Option<MarchHit>)
        requires
            old(self).wf(),
            origin.wf(),
            ray_end.wf(),
            0 <= passed_dist <= DEPTH_LIMIT,
            old(self).atlas1.tiles@.len() <= MARCH_TILE_LIMIT,
        ensures
            final(self).wf(),
            old(self).evolves_to(*final(self)),
            res matches Some(hit) ==> {
                &&& old(self).params.min_depth <= hit.dist < old(self).params.max_depth
                &&& hit.coord == spec_ray_point(
                    origin,
                    ray_end,
                    hit.dist as int,
                    old(self).params.max_depth as int,
                )
                &&& hit.coord.wf()
                &&& (hit.ground matches Some(g) ==> hit.ray_height < g
                    && (ground_at(final(self).atlas1, hit.coord, g as int)
                        || ground_at(final(self).atlas10, hit.coord, g as int)))
                &&& (hit.ground is None ==> hit.ray_height < 0 && (forall|v: i64|
                    !final(self).atlas10.found_first(hit.coord, v)) && (passed_dist + hit.dist
                    < old(self).params.r10 ==> forall|v: i64| !final(self).atlas1.found_first(
                    hit.coord,
                    v,
                )))
                &&& (hit.ground is Some && passed_dist + hit.dist < old(self).params.r10
                    && !hit.fine_pending ==> final(self).atlas1.spec_has_images(hit.coord)
                    || !final(self).atlas1.spec_has_maps(hit.coord))
                &&& (hit.fine_pending ==> hit.ground is Some
                    && final(self).atlas1.spec_has_maps(hit.coord)
                    && !final(self).atlas1.spec_has_images(hit.coord))
            },
    {
        let (res, _steps) = self.render_ray_counted(
            oracle,
            loader,
            row,
            passed_dist,
            origin,
            ray_end,
        );
        res
    }

    /// Horizon mode: march the central bearing once per pitch row, top
    /// down, and report the sample point of the first ray that strikes
    /// ground. Fails with the horizon error when every row is sky.
    pub fn find_horizon<O: RayHeight, L: TileLoader>(
        &mut self,
        oracle: &O,
        loader: &L,
        rows: usize,
        origin: Coord,
        ray_end: Coord,
    ) -> (res: Result<Coord, Error>)
        requires
            old(self).wf(),
            origin.wf(),
            ray_end.wf(),
            old(self).atlas1.tiles@.len() <= MARCH_TILE_LIMIT,
        ensures
            final(self).wf(),
            old(self).evolves_to(*final(self)),
            res matches Err(e) ==> e is HorizonNotFound,
            res matches Ok(c) ==> c.wf() && exists|d: int|
                old(self).params.min_depth <= d < old(self).params.max_depth && c
                    == spec_ray_point(origin, ray_end, d, old(self).params.max_depth as int),
    {
        let mut row: usize = 0;
        while row < rows
            invariant
                self.wf(),
                origin.wf(),
                ray_end.wf(),
                old(self).evolves_to(*self),
                self.params == old(self).params,
                self.atlas1.tiles@.len() <= MARCH_TILE_LIMIT,
            decreases rows - row,
        {
            let ghost pre = *self;
            let hit = self.render_ray(oracle, loader, row, 0, origin, ray_end);
            proof {
                lemma_evolves_chain(*old(self), pre, *self);
            }
            if let Some(hit) = hit {
                return Ok(hit.coord);
            }
            row = row + 1;
        }
        Err(Error::HorizonNotFound)
    }
}

/// The promotion budget: what the rewinds can cost in steps, bounded by
/// the fine atlas's initial stock of unmaterialized tiles.
proof fn lemma_promo_budget(promos: int, u0: int)
    requires
        0 <= promos <= u0 <= MARCH_TILE_LIMIT,
    ensures
        0 <= promos * (REWIND + DR_MIN) <= u0 * (REWIND + DR_MIN),
        u0 * (REWIND + DR_MIN) <= 5_090_000_000_000,
{
    assert(0 <= promos * (REWIND + DR_MIN) <= u0 * (REWIND + DR_MIN) && u0 * (REWIND + DR_MIN)
        <= 5_090_000_000_000) by (nonlinear_arith)
        requires
            0 <= promos <= u0 <= MARCH_TILE_LIMIT,
    ;
}

/// The middle step `total / dr_factor` is at least `DR_MIN` whenever the
/// total distance has reached `dr_min_range`, and never overflows.
proof fn lemma_mid_step(total: int, f: int)
    requires
        1 <= f <= DR_FACTOR_LIMIT,
        0 <= total <= 2 * DEPTH_LIMIT,
        DR_MIN * f <= total,
    ensures
        DR_MIN <= total / f <= 2 * DEPTH_LIMIT,
{
    lemma_div_is_ordered(DR_MIN * f, total, f);
    lemma_div_multiples_vanish(DR_MIN as int, f);
    assert(f * DR_MIN == DR_MIN * f) by (nonlinear_arith);
    lemma_div_is_ordered(total, 2 * DEPTH_LIMIT * f, f);
    lemma_div_multiples_vanish(2 * DEPTH_LIMIT as int, f);
    assert(f * (2 * DEPTH_LIMIT) == 2 * DEPTH_LIMIT * f) by (nonlinear_arith)
        requires true,
    ;
    assert(2 * DEPTH_LIMIT * f >= total) by (nonlinear_arith)
        requires
            1 <= f,
            total <= 2 * DEPTH_LIMIT,
    ;
}

/// Evolution composes.
proof fn lemma_evolves_chain(a: Marcher, b: Marcher, c: Marcher)
    requires
        a.evolves_to(b),
        b.evolves_to(c),
    ensures
        a.evolves_to(c),
{
    crate::atlas::lemma_shape_untouched_trans(c.atlas1, b.atlas1, a.atlas1);
    crate::atlas::lemma_shape_untouched_trans(c.atlas10, b.atlas10, a.atlas10);
}

/// A height that one atlas reported at the moment of decision is still
/// interpolated by a covering, materialized tile in the final state: the
/// march only adds bodies and never touches a loaded tile.
proof fn lemma_hit_ground(s_dec: Marcher, s_fin: Marcher, c: Coord, g: int, fine: bool)
    requires
        s_dec.wf(),
        s_dec.evolves_to(s_fin),
        fine ==> ground_at(s_dec.atlas1, c, g),
        !fine ==> ground_at(s_dec.atlas10, c, g),
    ensures
        ground_at(s_fin.atlas1, c, g) || ground_at(s_fin.atlas10, c, g),
{
    if fine {
        crate::atlas::lemma_ground_persists(s_dec.atlas1, s_fin.atlas1, c, g);
    } else {
        crate::atlas::lemma_ground_persists(s_dec.atlas10, s_fin.atlas10, c, g);
    }
}

} // verus!

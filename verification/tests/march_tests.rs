use gamlenorge::atlas::Atlas;
use gamlenorge::coord::Coord;
use gamlenorge::errors::Error;
use gamlenorge::march::{MarchParams, Marcher, RayHeight, DR_MIN, REWIND};
use gamlenorge::shade::{classify_terrain, sky_mix, Surface};
use gamlenorge::tile::{Tile, TileLoader};

const R_EARTH_M: f64 = 6_371_000.0;

/// The curved-earth ray height of the renderer's geometry, computed with
/// double precision and floored to centimetres.
struct PitchOracle {
    h0_m: f64,
    v_angle: f64,
}

impl RayHeight for PitchOracle {
    fn height_at(&self, _row: usize, r_cm: i64) -> i64 {
        curved_height(self.h0_m, self.v_angle, r_cm)
    }
}

/// One pitch per row, stepping downward.
struct RowOracle {
    h0_m: f64,
    v_top: f64,
    v_step: f64,
}

impl RayHeight for RowOracle {
    fn height_at(&self, row: usize, r_cm: i64) -> i64 {
        curved_height(self.h0_m, self.v_top - row as f64 * self.v_step, r_cm)
    }
}

fn curved_height(h0_m: f64, v_angle: f64, r_cm: i64) -> i64 {
    let r = r_cm as f64 / 100.0;
    let beta = r / R_EARTH_M;
    let alpha = beta + v_angle;
    let h = (R_EARTH_M + h0_m) * (beta.cos() + beta.sin() * alpha.tan()) - R_EARTH_M;
    (h * 100.0).floor() as i64
}

struct FlatLoader(i64);

impl TileLoader for FlatLoader {
    fn load_tile(&self, _fname: &Vec<u8>, width: usize, height: usize) -> Result<Vec<i64>, Error> {
        Ok(vec![self.0; width * height])
    }
}

struct CountingLoader {
    height: i64,
    calls: std::cell::RefCell<Vec<Vec<u8>>>,
}

impl TileLoader for CountingLoader {
    fn load_tile(&self, fname: &Vec<u8>, width: usize, height: usize) -> Result<Vec<i64>, Error> {
        self.calls.borrow_mut().push(fname.clone());
        Ok(vec![self.height; width * height])
    }
}

fn params(max_depth_cm: i64, r10_cm: i64) -> MarchParams {
    MarchParams::new(0, max_depth_cm, r10_cm, 1000).unwrap()
}

/// A strip along the positive easting axis, in metre resolution.
fn strip_tile(name: &str, e_from_cm: i64, e_to_cm: i64, half_width_cm: i64) -> Tile {
    let w = ((e_to_cm - e_from_cm) / 100) as usize + 1;
    let h = (2 * half_width_cm / 100) as usize + 1;
    Tile::new(name.as_bytes().to_vec(), w, h, e_from_cm, half_width_cm, 100).unwrap()
}

/// Flat sea and an empty atlas: the central ray reports sky, and the sky
/// pipeline paints it.
#[test]
fn empty_world_is_sky() {
    let mut m = Marcher::new(Atlas::new_empty(), Atlas::new_empty(), params(100_000, 0));
    let oracle = PitchOracle { h0_m: 0.0, v_angle: 0.0 };
    let hit = m.render_ray(&oracle, &FlatLoader(0), 0, 0, Coord::new(0, 0), Coord::new(100_000, 0));
    assert!(hit.is_none());
    // With observer height zero the horizon-dip correction vanishes and
    // both exponentials underflow to zero: the horizon sky is white haze.
    let sky = sky_mix(0, 0);
    assert_eq!(sky.as_u8_array(), [255, 255, 255]);
}

/// A flat tile at sea level: a slightly downward ray strikes it where the
/// ray height crosses the surface, and the hit classifies as water.
#[test]
fn flat_tile_water_hit() {
    let mut fine = Atlas::new_empty();
    fine.insert_tile(strip_tile("flat.tif", 0, 300_000, 10_000));
    let mut m = Marcher::new(fine, Atlas::new_empty(), params(300_000, 300_000));
    let oracle = PitchOracle { h0_m: 10.0, v_angle: -0.01 };
    let origin = Coord::new(0, 0);
    let ray_end = Coord::new(300_000, 0);
    let hit1 = m.render_ray(&oracle, &FlatLoader(0), 0, 0, origin, ray_end).unwrap();
    let hit2 = m.render_ray(&oracle, &FlatLoader(0), 0, 0, origin, ray_end).unwrap();
    // The surface is at 0; the ray leaves 10 m and falls ~1 cm per metre.
    assert_eq!(hit1.ground, Some(0));
    assert!(hit1.ray_height < 0);
    assert!(90_000 < hit1.dist && hit1.dist < 110_000);
    // The same ray marched twice lands on the same spot.
    assert_eq!(hit1.dist, hit2.dist);
    assert_eq!(hit1.coord, hit2.coord);
    let s = classify_terrain(0, 0, 0, 0, 220_000, 80_000);
    assert!(matches!(s, Surface::Water));
}

/// The same geometry over a 500 m plateau: the observer ray starts below
/// the ground, the hit is immediate and classifies as land (forest).
#[test]
fn flat_tile_land_hit() {
    let mut fine = Atlas::new_empty();
    fine.insert_tile(strip_tile("plateau.tif", 0, 300_000, 10_000));
    let mut m = Marcher::new(fine, Atlas::new_empty(), params(300_000, 300_000));
    let oracle = PitchOracle { h0_m: 10.0, v_angle: -0.01 };
    let origin = Coord::new(0, 0);
    let ray_end = Coord::new(300_000, 0);
    let hit1 = m.render_ray(&oracle, &FlatLoader(50_000), 0, 0, origin, ray_end).unwrap();
    let hit2 = m.render_ray(&oracle, &FlatLoader(50_000), 0, 0, origin, ray_end).unwrap();
    assert_eq!(hit1.ground, Some(50_000));
    assert_eq!(hit1.dist, hit2.dist);
    let s = classify_terrain(50_000, 0, 0, 0, 220_000, 80_000);
    assert!(matches!(s, Surface::Forest));
    // The land path and the water path of the previous scenario truly
    // differ.
    let w = classify_terrain(0, 0, 0, 0, 220_000, 80_000);
    assert!(s != w);
}

/// Open sea off the map: where no tile covers the ray and its height goes
/// negative, the march reports a sea hit with no ground height.
#[test]
fn off_map_sea_hit() {
    let mut m = Marcher::new(Atlas::new_empty(), Atlas::new_empty(), params(300_000, 0));
    let oracle = PitchOracle { h0_m: 10.0, v_angle: -0.01 };
    let hit = m
        .render_ray(&oracle, &FlatLoader(0), 0, 0, Coord::new(0, 0), Coord::new(300_000, 0))
        .unwrap();
    assert!(hit.ground.is_none());
    assert!(hit.ray_height < 0);
}

/// Curvature hiding: an island beyond the geometric horizon is invisible
/// from 10 m (the ray passes high above it) and visible from 1000 m.
#[test]
fn curvature_hides_distant_island() {
    // The island: 50 m high, 95 km to 110 km out.
    let island = || {
        let mut coarse = Atlas::new_empty();
        coarse.insert_tile(
            Tile::new(b"island.tif".to_vec(), 1501, 21, 9_500_000, 10_000, 1000).unwrap(),
        );
        coarse
    };
    let p = MarchParams::new(0, 12_000_000, 0, 1000).unwrap();
    let origin = Coord::new(0, 0);
    let ray_end = Coord::new(12_000_000, 0);
    // From 10 m, aim at the geometric horizon: the ray grazes sea level
    // at ~11 km and rises ~700 m above it by the island.
    let mut low = Marcher::new(Atlas::new_empty(), island(), p);
    // Slightly above the tangent to the geometric horizon (whose dip from
    // 10 m is 0.00177 rad), so the ray grazes but never crosses the sea.
    let low_hit = low.render_ray(
        &PitchOracle { h0_m: 10.0, v_angle: -0.0017 },
        &FlatLoader(5000),
        0,
        0,
        origin,
        ray_end,
    );
    assert!(low_hit.is_none());
    // From 1000 m, aim down at the island: the ray meets its surface.
    let p2 = MarchParams::new(0, 12_000_000, 0, 1000).unwrap();
    let mut high = Marcher::new(Atlas::new_empty(), island(), p2);
    // Steep enough to dip under the island's surface just past 95 km,
    // yet staying above the open sea on the way out.
    let high_hit = high
        .render_ray(
            &PitchOracle { h0_m: 1000.0, v_angle: -0.0175 },
            &FlatLoader(5000),
            0,
            0,
            origin,
            ray_end,
        )
        .unwrap();
    assert_eq!(high_hit.ground, Some(5000));
    assert!(9_500_000 <= high_hit.coord.e && high_hit.coord.e <= 11_000_000);
}

/// Dual-resolution promotion: a hit within the fine range with a fine
/// bucket that still has an unmaterialized tile loads the bucket exactly
/// once, rewinds at most fifty metres, and lands on fine data.
#[test]
fn promotion_loads_fine_bucket_once() {
    let mut fine = Atlas::new_empty();
    // The covering strip, and a second tile in the same coarse cell that
    // does not cover the ray.
    fine.insert_tile(strip_tile("cover.tif", 0, 300_000, 10_000));
    fine.insert_tile(
        Tile::new(b"bystander.tif".to_vec(), 101, 101, 500_000, 200_000, 100).unwrap(),
    );
    let mut coarse = Atlas::new_empty();
    coarse.insert_tile(strip_tile("coarse.tif", 0, 300_000, 10_000));
    let mut m = Marcher::new(fine, coarse, params(300_000, 300_000));
    let loader = CountingLoader { height: 100, calls: std::cell::RefCell::new(Vec::new()) };
    let oracle = PitchOracle { h0_m: 10.0, v_angle: -0.01 };
    let hit = m
        .render_ray(&oracle, &loader, 0, 0, Coord::new(0, 0), Coord::new(300_000, 0))
        .unwrap();
    // The fine surface is at 1 m: the ray crosses it ~9 m of fall later.
    assert_eq!(hit.ground, Some(100));
    // Both fine tiles were materialized, each exactly once.
    let calls = loader.calls.borrow();
    assert_eq!(calls.iter().filter(|f| f.as_slice() == b"cover.tif").count(), 1);
    assert_eq!(calls.iter().filter(|f| f.as_slice() == b"bystander.tif").count(), 1);
    assert!(m.atlas1.has_images(&hit.coord));
    // The rewind re-entered at most fifty metres behind the detection.
    assert!(80_000 < hit.dist && hit.dist < 110_000);
    // The fine bucket was settled: nothing left pending.
    assert!(!hit.fine_pending);
}

/// When the fine bucket cannot be materialized, the hit is still
/// returned — on the coarse data — and says so.
#[test]
fn failed_fine_promotion_is_reported() {
    struct NoFine;
    impl TileLoader for NoFine {
        fn load_tile(&self, fname: &Vec<u8>, width: usize, height: usize) -> Result<Vec<i64>, Error> {
            if fname.as_slice() == b"fine.tif" {
                Err(Error::Generic)
            } else {
                Ok(vec![0; width * height])
            }
        }
    }
    let mut fine = Atlas::new_empty();
    fine.insert_tile(strip_tile("fine.tif", 0, 300_000, 10_000));
    let mut coarse = Atlas::new_empty();
    coarse.insert_tile(strip_tile("coarse.tif", 0, 300_000, 10_000));
    let mut m = Marcher::new(fine, coarse, params(300_000, 300_000));
    let oracle = PitchOracle { h0_m: 10.0, v_angle: -0.01 };
    let hit = m
        .render_ray(&oracle, &NoFine, 0, 0, Coord::new(0, 0), Coord::new(300_000, 0))
        .unwrap();
    assert_eq!(hit.ground, Some(0));
    assert!(hit.fine_pending);
    assert!(!m.atlas1.has_images(&hit.coord));
}

/// The proved step bound, on a concrete march: iterations stay within
/// the budget of the depth range plus one rewind allowance per fine tile.
#[test]
fn step_count_is_bounded() {
    let mut fine = Atlas::new_empty();
    fine.insert_tile(strip_tile("cover.tif", 0, 300_000, 10_000));
    let mut m = Marcher::new(fine, Atlas::new_empty(), params(300_000, 300_000));
    let oracle = PitchOracle { h0_m: 1000.0, v_angle: 0.0 };
    let (hit, steps) = m.render_ray_counted(
        &oracle,
        &FlatLoader(0),
        0,
        0,
        Coord::new(0, 0),
        Coord::new(300_000, 0),
    );
    assert!(hit.is_none());
    let budget = (300_000 - 0 + DR_MIN + 1 * (REWIND + DR_MIN)) / DR_MIN;
    assert!((steps as i64) <= budget);
}

/// Horizon mode: scanning pitch rows downward returns the first ground
/// strike, here on the island's face.
#[test]
fn find_horizon_returns_island_coordinate() {
    let mut coarse = Atlas::new_empty();
    // 50 m island between 10 km and 20 km.
    coarse.insert_tile(
        Tile::new(b"island.tif".to_vec(), 1001, 21, 1_000_000, 10_000, 1000).unwrap(),
    );
    let mut m = Marcher::new(
        Atlas::new_empty(),
        coarse,
        MarchParams::new(0, 3_000_000, 0, 1000).unwrap(),
    );
    let oracle = RowOracle { h0_m: 1000.0, v_top: -0.01, v_step: 0.0533 };
    let res = m
        .find_horizon(&oracle, &FlatLoader(5_000), 3, Coord::new(0, 0), Coord::new(3_000_000, 0))
        .unwrap();
    assert!(1_000_000 <= res.e && res.e <= 2_000_000);
    // With only sky rows the scan fails.
    let mut empty = Marcher::new(
        Atlas::new_empty(),
        Atlas::new_empty(),
        MarchParams::new(0, 100_000, 0, 1000).unwrap(),
    );
    let up = PitchOracle { h0_m: 1000.0, v_angle: 0.1 };
    match empty.find_horizon(&up, &FlatLoader(0), 2, Coord::new(0, 0), Coord::new(100_000, 0)) {
        Err(Error::HorizonNotFound) => {},
        other => panic!("expected no horizon, got {:?}", other),
    }
}

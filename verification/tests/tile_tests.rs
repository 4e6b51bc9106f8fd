use gamlenorge::coord::Coord;
use gamlenorge::errors::Error;
use gamlenorge::tile::{Tile, TileLoader, CELL_SIZE};

/// Hands out a constant height everywhere.
struct FlatLoader(i64);

impl TileLoader for FlatLoader {
    fn load_tile(&self, _fname: &Vec<u8>, width: usize, height: usize) -> Result<Vec<i64>, Error> {
        Ok(vec![self.0; width * height])
    }
}

/// Hands out explicit samples.
struct GridLoader(Vec<i64>);

impl TileLoader for GridLoader {
    fn load_tile(&self, _fname: &Vec<u8>, _width: usize, _height: usize) -> Result<Vec<i64>, Error> {
        Ok(self.0.clone())
    }
}

fn metre_tile(name: &str, w: usize, h: usize, oe: i64, on: i64) -> Tile {
    Tile::new(name.as_bytes().to_vec(), w, h, oe, on, 100).unwrap()
}

#[test]
fn new_rejects_bad_headers() {
    assert!(Tile::new(b"a.tif".to_vec(), 0, 5, 0, 0, 100).is_err());
    assert!(Tile::new(b"a.tif".to_vec(), 5, 5, 0, 0, 0).is_err());
    assert!(Tile::new(b"a\"b.tif".to_vec(), 5, 5, 0, 0, 100).is_err());
    assert!(Tile::new(b"ok.tif".to_vec(), 5, 5, 0, 0, 100).is_ok());
}

#[test]
fn hash_is_stable_across_calls() {
    let c = Coord::new(123_456_789, -987_654_321);
    let h1 = Tile::coord_to_hash(&c);
    let h2 = Tile::coord_to_hash(&Coord::new(123_456_789, -987_654_321));
    assert_eq!(h1, h2);
    // Another coordinate in the same 10 km cell hashes identically.
    let d = Coord::new(123_000_001, -987_000_001);
    assert_eq!(
        Tile::coord_to_hash(&d),
        Tile::coord_to_hash(&Coord::new(123_999_999, -987_999_999))
    );
}

#[test]
fn hashes_cover_the_tile() {
    // 20 km x 20 km tile spanning several cells.
    let t = Tile::new(b"big.tif".to_vec(), 2000, 2000, 500_000, 500_000, 1000).unwrap();
    let hs = t.hashes();
    // The tile spans eastings [500000, 2499000] and northings
    // [-1499000, 500000]: cells 0..2 in east, -2..0 in north.
    assert_eq!(hs.len(), 9);
    assert!(hs.contains(&Tile::coord_to_hash(&Coord::new(600_000, 400_000))));
    assert!(hs.contains(&Tile::coord_to_hash(&Coord::new(2_400_000, -1_400_000))));
}

#[test]
fn lookup_outside_coverage_fails() {
    let mut t = metre_tile("t.tif", 10, 10, 0, 0);
    t.load_image(&FlatLoader(1000)).unwrap();
    // Coverage is eastings [0, 900], northings [-900, 0].
    let outside = Coord::new(901, 0);
    match t.lookup(&outside) {
        Err(Error::LookupError(c, f)) => {
            assert_eq!(c.e, 901);
            assert_eq!(f, b"t.tif".to_vec());
        },
        other => panic!("expected coverage error, got {:?}", other),
    }
}

#[test]
fn lookup_unloaded_reports_not_loaded() {
    let t = metre_tile("t.tif", 10, 10, 0, 0);
    match t.lookup(&Coord::new(50, -50)) {
        Err(Error::MapNotLoaded(f)) => assert_eq!(f, b"t.tif".to_vec()),
        other => panic!("expected not-loaded, got {:?}", other),
    }
}

#[test]
fn load_is_idempotent() {
    let mut t = metre_tile("t.tif", 4, 4, 0, 0);
    assert!(!t.is_loaded());
    t.load_image(&FlatLoader(123)).unwrap();
    assert!(t.is_loaded());
    // A second load through a loader with other data changes nothing.
    t.load_image(&FlatLoader(456)).unwrap();
    assert_eq!(t.lookup(&Coord::new(0, 0)).unwrap(), 123);
}

#[test]
fn bilinear_interpolates_exactly() {
    // 2 x 2 tile, 1 m spacing: samples 0, 400 on the north row and
    // 800, 1200 on the south row (centimetres).
    let mut t = metre_tile("g.tif", 2, 2, 0, 0);
    t.load_image(&GridLoader(vec![0, 400, 800, 1200])).unwrap();
    assert_eq!(t.lookup(&Coord::new(0, 0)).unwrap(), 0);
    assert_eq!(t.lookup(&Coord::new(100, 0)).unwrap(), 400);
    assert_eq!(t.lookup(&Coord::new(0, -100)).unwrap(), 800);
    assert_eq!(t.lookup(&Coord::new(100, -100)).unwrap(), 1200);
    // Quarter of the way east, half south: 0.75*(0.25*0 + ... ) exactly:
    // ((0*(100-25) + 400*25)*(100-50) + (800*75 + 1200*25)*50) / 10000
    assert_eq!(t.lookup(&Coord::new(25, -50)).unwrap(), 500);
}

#[test]
fn gradient_uses_central_differences() {
    // 3 x 3 tile rising 100 cm per metre eastwards, flat northwards.
    let mut t = metre_tile("g.tif", 3, 3, 0, 0);
    t.load_image(&GridLoader(vec![0, 100, 200, 0, 100, 200, 0, 100, 200])).unwrap();
    let (h, dhe, dhn) = t.lookup_with_gradient(&Coord::new(100, -100)).unwrap();
    assert_eq!(h, 100);
    // (200 - 0) * 1000 / (2 * 100) = 1000 per-mille: a 1:1 slope.
    assert_eq!(dhe, 1000);
    assert_eq!(dhn, 0);
}

#[test]
fn border_lookup_clamps() {
    let mut t = metre_tile("g.tif", 2, 2, 0, 0);
    t.load_image(&GridLoader(vec![10, 20, 30, 40])).unwrap();
    // The exact east border uses the last column alone.
    assert_eq!(t.lookup(&Coord::new(100, 0)).unwrap(), 20);
    assert_eq!(t.lookup(&Coord::new(100, -100)).unwrap(), 40);
}

#[test]
fn loader_data_is_validated() {
    let mut t = metre_tile("t.tif", 4, 4, 0, 0);
    struct ShortLoader;
    impl TileLoader for ShortLoader {
        fn load_tile(&self, _f: &Vec<u8>, _w: usize, _h: usize) -> Result<Vec<i64>, Error> {
            Ok(vec![1, 2, 3])
        }
    }
    assert!(t.load_image(&ShortLoader).is_err());
    assert!(!t.is_loaded());
    let _ = CELL_SIZE;
}

use std::cell::RefCell;

use gamlenorge::atlas::Atlas;
use gamlenorge::coord::Coord;
use gamlenorge::errors::Error;
use gamlenorge::tile::{Tile, TileLoader};

/// Hands out a constant height everywhere.
struct FlatLoader(i64);

impl TileLoader for FlatLoader {
    fn load_tile(&self, _fname: &Vec<u8>, width: usize, height: usize) -> Result<Vec<i64>, Error> {
        Ok(vec![self.0; width * height])
    }
}

/// Fails every load.
struct BrokenLoader;

impl TileLoader for BrokenLoader {
    fn load_tile(&self, _fname: &Vec<u8>, _w: usize, _h: usize) -> Result<Vec<i64>, Error> {
        Err(Error::Generic)
    }
}

/// Counts the loads per tile name.
struct CountingLoader {
    height: i64,
    calls: RefCell<Vec<Vec<u8>>>,
}

impl TileLoader for CountingLoader {
    fn load_tile(&self, fname: &Vec<u8>, width: usize, height: usize) -> Result<Vec<i64>, Error> {
        self.calls.borrow_mut().push(fname.clone());
        Ok(vec![self.height; width * height])
    }
}

fn metre_tile(name: &str, w: usize, h: usize, oe: i64, on: i64) -> Tile {
    Tile::new(name.as_bytes().to_vec(), w, h, oe, on, 100).unwrap()
}

#[test]
fn empty_atlas_finds_nothing() {
    let mut a = Atlas::new_empty();
    assert!(a.is_empty());
    let c = Coord::new(0, 0);
    assert!(!a.has_maps(&c));
    assert!(!a.has_images(&c));
    match a.lookup(&c, &FlatLoader(0)) {
        Err(Error::MapNotFound(c2)) => assert_eq!(c2.e, 0),
        other => panic!("expected no-tile, got {:?}", other),
    }
}

#[test]
fn load_images_makes_has_images_true_and_is_idempotent() {
    let mut a = Atlas::new_empty();
    a.insert_tile(metre_tile("a.tif", 10, 10, 0, 0));
    a.insert_tile(metre_tile("b.tif", 10, 10, 500, -500));
    let c = Coord::new(50, -50);
    assert!(a.has_maps(&c));
    assert!(!a.has_images(&c));
    let loader = CountingLoader { height: 100, calls: RefCell::new(Vec::new()) };
    a.load_images(&c, &loader).unwrap();
    assert!(a.has_images(&c));
    assert_eq!(loader.calls.borrow().len(), 2);
    // Repeating the call loads nothing more.
    a.load_images(&c, &loader).unwrap();
    assert!(a.has_images(&c));
    assert_eq!(loader.calls.borrow().len(), 2);
    // A cell with no bucket succeeds and changes nothing.
    a.load_images(&Coord::new(900_000_000, 900_000_000), &loader).unwrap();
    assert_eq!(loader.calls.borrow().len(), 2);
}

#[test]
fn lookup_loads_on_demand_and_never_reports_not_loaded() {
    let mut a = Atlas::new_empty();
    a.insert_tile(metre_tile("a.tif", 10, 10, 0, 0));
    let c = Coord::new(100, -100);
    // First lookup materializes the tile and succeeds directly.
    assert_eq!(a.lookup(&c, &FlatLoader(4200)).unwrap(), 4200);
    assert!(a.has_images(&c));
    // With a broken loader nothing was loaded, and the error is the
    // loader's, never the internal not-loaded kind.
    let mut b = Atlas::new_empty();
    b.insert_tile(metre_tile("a.tif", 10, 10, 0, 0));
    match b.lookup(&c, &BrokenLoader) {
        Err(Error::MapNotLoaded(_)) => panic!("not-loaded may never surface"),
        Err(Error::MapNotFound(_)) => panic!("a covering tile exists"),
        Err(_) => {},
        Ok(_) => panic!("loader is broken"),
    }
    // After the failure a working loader recovers.
    assert_eq!(b.lookup(&c, &FlatLoader(7)).unwrap(), 7);
}

#[test]
fn first_covering_candidate_wins() {
    let mut a = Atlas::new_empty();
    a.insert_tile(metre_tile("first.tif", 10, 10, 0, 0));
    a.insert_tile(metre_tile("second.tif", 10, 10, 0, 0));
    let c = Coord::new(50, -50);
    // Materialize them with different heights, in insertion order.
    let ids = a.lookup_maps(&c).unwrap();
    assert_eq!(ids, vec![0, 1]);
    a.load_images(&c, &FlatLoader(1111)).unwrap();
    // Overwrite the second tile's body out of band to tell them apart.
    a.tiles[1].image = Some(vec![2222; 100]);
    assert_eq!(a.lookup(&c, &BrokenLoader).unwrap(), 1111);
}

#[test]
fn lookup_maps_fails_off_the_map() {
    let a = Atlas::new_empty();
    match a.lookup_maps(&Coord::new(1, 2)) {
        Err(Error::MapNotFound(c)) => assert_eq!((c.e, c.n), (1, 2)),
        other => panic!("expected no-tile, got {:?}", other),
    }
}

#[test]
fn gradient_lookup_dispatches_like_lookup() {
    let mut a = Atlas::new_empty();
    a.insert_tile(metre_tile("a.tif", 10, 10, 0, 0));
    let c = Coord::new(300, -300);
    let (h, dhe, dhn) = a.lookup_with_gradient(&c, &FlatLoader(250)).unwrap();
    assert_eq!((h, dhe, dhn), (250, 0, 0));
}

#[test]
fn append_concatenates_tiles() {
    let mut a = Atlas::new_empty();
    a.insert_tile(metre_tile("a.tif", 10, 10, 0, 0));
    let mut b = Atlas::new_empty();
    b.insert_tile(metre_tile("b.tif", 10, 10, 2_000_000, 0));
    a.append(&b);
    assert_eq!(a.tiles.len(), 2);
    assert!(a.has_maps(&Coord::new(2_000_050, -50)));
    assert!(a.has_maps(&Coord::new(50, -50)));
    assert_eq!(a.resolution(), 100);
}

#[test]
fn insert_deduplicates_by_name() {
    let mut a = Atlas::new_empty();
    a.insert_tile(metre_tile("a.tif", 10, 10, 0, 0));
    a.insert_tile(metre_tile("a.tif", 20, 20, 500_000, 500_000));
    // The second header of the same name is not added again.
    assert_eq!(a.tiles.len(), 1);
    assert_eq!(a.tiles[0].width, 10);
    let mut b = Atlas::new_empty();
    b.insert_tile(metre_tile("a.tif", 10, 10, 0, 0));
    b.insert_tile(metre_tile("b.tif", 10, 10, 0, 0));
    a.append(&b);
    // "a.tif" was already present: only "b.tif" joins.
    assert_eq!(a.tiles.len(), 2);
}

#[test]
fn serialization_emits_each_name_once() {
    // Two overlapping persisted indices share a tile; their merge writes
    // the shared name once.
    let mut x = Atlas::new_empty();
    x.insert_tile(metre_tile("shared.tif", 10, 10, 0, 0));
    x.insert_tile(metre_tile("x.tif", 10, 10, 2_000_000, 0));
    let mut y = Atlas::new_empty();
    y.insert_tile(metre_tile("shared.tif", 10, 10, 0, 0));
    y.insert_tile(metre_tile("y.tif", 10, 10, 4_000_000, 0));
    let mut merged = Atlas::new_empty();
    merged.append(&x);
    merged.append(&y);
    assert_eq!(merged.tiles.len(), 3);
    let text = String::from_utf8(merged.write_atlas()).unwrap();
    assert_eq!(text.matches("shared.tif").count(), 1);
}

#[test]
fn lookup_succeeds_on_materialized_cover_and_repeats() {
    let mut a = Atlas::new_empty();
    a.insert_tile(metre_tile("a.tif", 10, 10, 0, 0));
    let c = Coord::new(250, -250);
    a.load_images(&c, &FlatLoader(321)).unwrap();
    // Every candidate is materialized and one covers the coordinate:
    // success is owed, and no loader call can interfere.
    let h1 = a.lookup(&c, &BrokenLoader).unwrap();
    let h2 = a.lookup(&c, &BrokenLoader).unwrap();
    assert_eq!(h1, 321);
    assert_eq!(h1, h2);
    // The gradient lookup agrees on the height.
    let (h3, dhe, dhn) = a.lookup_with_gradient(&c, &BrokenLoader).unwrap();
    assert_eq!((h3, dhe, dhn), (h1, 0, 0));
}

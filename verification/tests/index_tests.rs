use gamlenorge::atlas::Atlas;
use gamlenorge::coord::Coord;
use gamlenorge::errors::Error;
use gamlenorge::tile::{Tile, TileLoader};

struct FlatLoader(i64);

impl TileLoader for FlatLoader {
    fn load_tile(&self, _fname: &Vec<u8>, width: usize, height: usize) -> Result<Vec<i64>, Error> {
        Ok(vec![self.0; width * height])
    }
}

#[test]
fn empty_atlas_serializes_to_empty_array() {
    let a = Atlas::new_empty();
    assert_eq!(a.write_atlas(), b"[]".to_vec());
    let back = Atlas::read_atlas(&b"[]".to_vec()).unwrap();
    assert!(back.is_empty());
}

#[test]
fn single_tile_bytes_are_canonical() {
    let mut a = Atlas::new_empty();
    a.insert_tile(Tile::new(b"oslo.tif".to_vec(), 3, 2, -150, 275, 100).unwrap());
    let bytes = a.write_atlas();
    let expected = "[{\"fname\":\"oslo.tif\",\"width\":3,\"height\":2,\"transform\":{\"origin_e\":-150,\"origin_n\":275,\"pixel_size\":100}}]";
    assert_eq!(String::from_utf8(bytes).unwrap(), expected);
}

#[test]
fn round_trip_recovers_headers_and_buckets() {
    let mut a = Atlas::new_empty();
    a.insert_tile(Tile::new(b"a.tif".to_vec(), 10, 10, 0, 0, 100).unwrap());
    a.insert_tile(Tile::new(b"b.tif".to_vec(), 20, 30, 2_000_000, -5_000_000, 1000).unwrap());
    // A loaded body is not serialized.
    a.load_images(&Coord::new(50, -50), &FlatLoader(77)).unwrap();
    let bytes = a.write_atlas();
    let b = Atlas::read_atlas(&bytes).unwrap();
    assert_eq!(b.tiles.len(), 2);
    for i in 0..2 {
        assert_eq!(b.tiles[i].fname, a.tiles[i].fname);
        assert_eq!(b.tiles[i].width, a.tiles[i].width);
        assert_eq!(b.tiles[i].height, a.tiles[i].height);
        assert_eq!(b.tiles[i].origin_e, a.tiles[i].origin_e);
        assert_eq!(b.tiles[i].origin_n, a.tiles[i].origin_n);
        assert_eq!(b.tiles[i].pixel_size, a.tiles[i].pixel_size);
        assert!(b.tiles[i].image.is_none());
    }
    // The buckets were replayed: the same cells answer queries.
    assert!(b.has_maps(&Coord::new(50, -50)));
    assert!(b.has_maps(&Coord::new(2_000_050, -5_000_050)));
    assert!(!b.has_maps(&Coord::new(900_000_000, 900_000_000)));
    // Writing the reread atlas reproduces the file byte for byte.
    assert_eq!(b.write_atlas(), bytes);
}

#[test]
fn read_rejects_malformed_input() {
    assert!(Atlas::read_atlas(&b"".to_vec()).is_err());
    assert!(Atlas::read_atlas(&b"[".to_vec()).is_err());
    assert!(Atlas::read_atlas(&b"{}".to_vec()).is_err());
    assert!(Atlas::read_atlas(&b"[]x".to_vec()).is_err());
    let mangled = "[{\"fname\":\"a.tif\",\"width\":0,\"height\":2,\"transform\":{\"origin_e\":0,\"origin_n\":0,\"pixel_size\":100}}]";
    assert!(Atlas::read_atlas(&mangled.as_bytes().to_vec()).is_err());
}

#[test]
fn read_accepts_only_the_canonical_form() {
    let spaced = "[ {\"fname\":\"a.tif\",\"width\":3,\"height\":2,\"transform\":{\"origin_e\":0,\"origin_n\":0,\"pixel_size\":100}} ]";
    assert!(Atlas::read_atlas(&spaced.as_bytes().to_vec()).is_err());
}

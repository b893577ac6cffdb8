use atelier::tile::{Tile, TileError, TileMap, TILE_BYTES, TILE_SIZE};

#[test]
fn absent_tiles_read_transparent() {
    let map = TileMap::new();
    assert_eq!(map.pixel(0, 0), [0; 4]);
    assert_eq!(map.pixel(-1000, 12345), [0; 4]);
    assert!(map.is_empty());
}

#[test]
fn set_then_get_round_trips_across_tile_borders() {
    let mut map = TileMap::new();
    for &(x, y) in &[(0, 0), (255, 255), (256, 256), (-1, -1), (511, 0)] {
        map.set_pixel(x, y, [1, 2, 3, 4]);
        assert_eq!(map.pixel(x, y), [1, 2, 3, 4], "at ({x},{y})");
    }
    // (-1,-1) lands in tile (-1,-1), not (0,0).
    assert!(map.tile_at((-1, -1)).is_some());
    assert_eq!(map.tile_count(), 4); // (0,0) holds both (0,0) and (255,255)
}

#[test]
fn fill_rect_spans_tiles_and_prune_drops_blank() {
    let mut map = TileMap::new();
    map.fill_rect(250, 250, 260, 260, [9, 9, 9, 255]);
    assert_eq!(map.tile_count(), 4); // rect crosses the 256 boundary both axes
    assert_eq!(map.pixel(259, 259), [9, 9, 9, 255]);
    assert_eq!(map.pixel(260, 260), [0; 4]);

    map.fill_rect(250, 250, 260, 260, [0, 0, 0, 0]);
    map.prune_blank();
    assert!(map.is_empty());
}

#[test]
fn pixel_bounds_is_exact_vs_tile_granular() {
    let mut map = TileMap::new();
    map.fill_rect(10, 20, 35, 50, [1, 2, 3, 255]);
    assert_eq!(map.pixel_bounds(), Some([10, 20, 35, 50]), "exact content extent");
    assert_eq!(map.bounds(), Some([0, 0, 256, 256]), "tile-granular differs");
    assert_eq!(TileMap::new().pixel_bounds(), None);
}

#[test]
fn from_bytes_validates_length() {
    assert!(Tile::from_bytes(vec![0; TILE_BYTES]).is_ok());
    assert_eq!(Tile::from_bytes(vec![0; 3]).unwrap_err(), TileError::BadLength(3));
}

#[test]
fn tile_set_pixel_reads_back_and_blank_detects_alpha() {
    let mut t = Tile::default();
    assert!(t.is_blank());
    t.set_pixel(TILE_SIZE - 1, 3, [5, 6, 7, 8]);
    assert_eq!(t.pixel(TILE_SIZE - 1, 3), [5, 6, 7, 8]);
    assert_eq!(t.alpha(TILE_SIZE - 1, 3), 8);
    assert!(!t.is_blank());
    assert_eq!(t.bytes().len(), TILE_BYTES);
}

#[test]
fn color_without_alpha_still_counts_as_blank() {
    let mut t = Tile::default();
    t.set_pixel(0, 0, [255, 255, 255, 0]);
    assert!(t.is_blank());
}

#[test]
fn remove_tile_and_insert_tile_update_count() {
    let mut map = TileMap::default();
    map.insert_tile((2, -3), Tile::blank());
    assert_eq!(map.tile_count(), 1);
    assert!(map.tile_at((2, -3)).is_some());
    map.remove_tile((2, -3));
    assert!(map.is_empty());
    assert_eq!(map.bounds(), None);
}

#[test]
fn fill_rect_with_inverted_corners_is_empty() {
    let mut map = TileMap::new();
    map.fill_rect(10, 10, 5, 20, [1, 1, 1, 255]);
    assert!(map.is_empty());
}

#[test]
fn coords_come_in_increasing_order() {
    let mut map = TileMap::new();
    map.set_pixel(600, 0, [1, 1, 1, 1]);
    map.set_pixel(-300, 5, [1, 1, 1, 1]);
    map.set_pixel(0, -1, [1, 1, 1, 1]);
    assert_eq!(map.coords(), vec![(-2, 0), (0, -1), (2, 0)]);
    let tiles = map.tiles();
    assert_eq!(tiles.len(), 3);
    assert_eq!(tiles[0].0, (-2, 0));
}

#[test]
fn extract_shifted_moves_content_by_offset() {
    let mut map = TileMap::new();
    map.set_pixel(3, 4, [9, 8, 7, 255]);
    // Document tile (0,0) with the layer placed at offset (10, 20).
    let t = map.extract_shifted(0, 0, [10, 20]).expect("content lands in doc tile (0,0)");
    assert_eq!(t.pixel(13, 24), [9, 8, 7, 255]);
    assert_eq!(t.pixel(3, 4), [0; 4]);
    assert!(map.extract_shifted(5, 5, [10, 20]).is_none());
}

#[test]
fn extract_shifted_is_none_when_no_stored_tile_meets_the_region() {
    let mut map = TileMap::new();
    map.set_pixel(300, 300, [1, 2, 3, 255]);
    // The region [0, 256) x [0, 256) touches no stored tile.
    assert!(map.extract_shifted(0, 0, [0, 0]).is_none());
    let t = map.extract_shifted(1, 1, [0, 0]).expect("tile (1,1) is stored");
    assert_eq!(t.pixel(44, 44), [1, 2, 3, 255]);
    // A one-pixel shift makes the region reach into tile (1,1).
    let t = map.extract_shifted(0, 0, [-1, -1]).expect("the region now meets tile (1,1)");
    assert_eq!(t.pixel(0, 0), [0; 4]);
    assert!(map.extract_shifted(0, 0, [-45, -45]).unwrap().pixel(255, 255) == [1, 2, 3, 255]);
}

#[test]
fn pixel_bounds_lie_inside_tile_bounds() {
    let mut map = TileMap::new();
    map.set_pixel(300, 20, [1, 1, 1, 255]);
    map.set_pixel(-3, 600, [1, 1, 1, 9]);
    let t = map.bounds().unwrap();
    let p = map.pixel_bounds().unwrap();
    assert_eq!(t, [-256, 0, 512, 768]);
    assert_eq!(p, [-3, 20, 301, 601]);
    assert!(t[0] <= p[0] && t[1] <= p[1] && p[2] <= t[2] && p[3] <= t[3]);
}

#[test]
fn duplicate_keeps_every_pixel() {
    let mut map = TileMap::new();
    map.fill_rect(-5, -5, 5, 5, [4, 4, 4, 4]);
    let copy = map.duplicate();
    assert_eq!(copy, map);
    assert_eq!(copy.pixel(-5, -5), [4, 4, 4, 4]);
}

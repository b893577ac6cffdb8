use atelier::adjust::target_tiles;
use atelier::tile::TileMap;

#[test]
fn target_tiles_filters_by_bounds() {
    let mut tiles = TileMap::new();
    tiles.set_pixel(10, 10, [1, 2, 3, 255]); // tile (0,0)
    tiles.set_pixel(300, 300, [1, 2, 3, 255]); // tile (1,1)
    let all = target_tiles(&tiles, None, [0, 0]);
    assert_eq!(all.len(), 2);
    let clipped = target_tiles(&tiles, Some([0, 0, 64, 64]), [0, 0]);
    assert_eq!(clipped, vec![(0, 0)]);
}

#[test]
fn target_tiles_accounts_for_layer_offset() {
    let mut tiles = TileMap::new();
    tiles.set_pixel(10, 10, [1, 2, 3, 255]); // layer tile (0,0)
    // Placed at (1000, 0), the tile covers document x 1000..1256.
    assert!(target_tiles(&tiles, Some([0, 0, 64, 64]), [1000, 0]).is_empty());
    assert_eq!(target_tiles(&tiles, Some([1000, 0, 1001, 1]), [1000, 0]), vec![(0, 0)]);
}

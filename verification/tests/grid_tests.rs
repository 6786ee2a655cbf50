use tilemap::{TileMap, TileMapError};

#[test]
fn test_tile_map_new() {
    let tile_map = TileMap::new((20, 10), 2, 2);
    assert_eq!(tile_map.layer_count(), 2);
    assert_eq!(tile_map.size(), (20, 10));
    // Both layers hold 20 * 10 tiles: every in-bounds cell is present and the
    // first out-of-bounds coordinate in each direction is absent.
    for y in 0..10 {
        for x in 0..20 {
            // Make sure first layer is fill with 2
            assert_eq!(tile_map.get_tile((x, y), 0), Some(2));
            assert_eq!(tile_map.get_tile((x, y), 1), Some(0));
        }
    }
    assert_eq!(tile_map.get_tile((20, 0), 0), None);
    assert_eq!(tile_map.get_tile((0, 10), 0), None);
}

#[test]
fn new_with_zero_layers_is_empty() {
    let m = TileMap::new((4, 4), 0, 9);
    assert_eq!(m.layer_count(), 0);
    assert_eq!(m.size(), (4, 4));
    assert_eq!(m.get_tile((0, 0), 0), None);
}

#[test]
fn example_two_layer_grid() {
    let mut m = TileMap::new((20, 10), 2, 2);
    assert_eq!(m.layer_count(), 2);
    assert_eq!(m.get_tile((5, 5), 0), Some(2));
    assert_eq!(m.get_tile((20, 5), 0), None);
    assert_eq!(m.set_tile((5, 5), 1, 7), Ok(()));
    assert_eq!(m.get_tile((5, 5), 1), Some(7));
}

#[test]
fn get_tile_out_of_bounds_is_absent() {
    let m = TileMap::new((3, 2), 1, 1);
    assert_eq!(m.get_tile((2, 1), 0), Some(1));
    assert_eq!(m.get_tile((3, 0), 0), None);
    assert_eq!(m.get_tile((0, 2), 0), None);
    assert_eq!(m.get_tile((0, 0), 1), None);
}

#[test]
fn set_tile_then_get_tile() {
    let mut m = TileMap::new((3, 3), 2, 0);
    assert_eq!(m.set_tile((1, 2), 0, 42), Ok(()));
    assert_eq!(m.get_tile((1, 2), 0), Some(42));
    // every other cell of every layer is untouched
    for layer in 0..2 {
        for y in 0..3 {
            for x in 0..3 {
                if (x, y, layer) != (1, 2, 0) {
                    assert_eq!(m.get_tile((x, y), layer), Some(0));
                }
            }
        }
    }
}

#[test]
fn set_tile_invalid_position() {
    let mut m = TileMap::new((3, 2), 1, 5);
    assert_eq!(m.set_tile((3, 0), 0, 7), Err(TileMapError::InvalidPosition));
    assert_eq!(m.set_tile((0, 2), 0, 7), Err(TileMapError::InvalidPosition));
    // the grid is unmodified
    for y in 0..2 {
        for x in 0..3 {
            assert_eq!(m.get_tile((x, y), 0), Some(5));
        }
    }
}

#[test]
fn set_tile_invalid_layer() {
    let mut m = TileMap::new((3, 2), 1, 5);
    assert_eq!(m.set_tile((1, 1), 1, 7), Err(TileMapError::InvalidLayer));
    for y in 0..2 {
        for x in 0..3 {
            assert_eq!(m.get_tile((x, y), 0), Some(5));
        }
    }
}

#[test]
fn position_out_of_bounds_reported_before_layer() {
    let mut m = TileMap::new((2, 2), 1, 0);
    assert_eq!(m.set_tile((9, 9), 9, 1), Err(TileMapError::InvalidPosition));
}

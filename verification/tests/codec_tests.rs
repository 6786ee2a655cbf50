use tilemap::{TileMap, TileMapError};

fn round_trip(m: &TileMap) -> TileMap {
    let bytes = m.write();
    TileMap::read(&bytes).expect("a written grid must read back")
}

#[test]
fn round_trip_plain_grid() {
    let mut m = TileMap::new((4, 3), 2, 7);
    m.set_tile((0, 0), 0, 1).unwrap();
    m.set_tile((3, 2), 1, 250_000).unwrap();
    assert_eq!(round_trip(&m), m);
}

#[test]
fn round_trip_zero_layers() {
    let m = TileMap::new((5, 5), 0, 3);
    let back = round_trip(&m);
    assert_eq!(back, m);
    assert_eq!(back.layer_count(), 0);
    assert_eq!(back.size(), (5, 5));
}

#[test]
fn round_trip_zero_width() {
    let m = TileMap::new((0, 7), 3, 2);
    let back = round_trip(&m);
    assert_eq!(back, m);
    assert_eq!(back.size(), (0, 7));
    assert_eq!(back.layer_count(), 3);
}

#[test]
fn round_trip_zero_height() {
    let m = TileMap::new((7, 0), 1, 2);
    assert_eq!(round_trip(&m), m);
}

#[test]
fn round_trip_single_cell() {
    let mut m = TileMap::new((1, 1), 1, u32::MAX);
    assert_eq!(round_trip(&m), m);
    m.set_tile((0, 0), 0, 0).unwrap();
    assert_eq!(round_trip(&m), m);
}

#[test]
fn encoding_is_the_documented_layout() {
    let m = TileMap::new((2, 1), 1, 5);
    let expected: Vec<u8> = vec![
        1, 0, 0, 0, 0, 0, 0, 0, // one layer, 64-bit little endian
        2, 0, 0, 0, 0, 0, 0, 0, // its tile count, 64-bit little endian
        5, 0, 0, 0, // tile at (0, 0)
        5, 0, 0, 0, // tile at (1, 0)
        2, 0, 0, 0, // width
        1, 0, 0, 0, // height
        1, 0, 0, 0, // layer count
    ];
    assert_eq!(m.write(), expected);
}

#[test]
fn read_rejects_truncations() {
    let mut m = TileMap::new((3, 2), 2, 9);
    m.set_tile((2, 1), 1, 11).unwrap();
    let bytes = m.write();
    for cut in 0..bytes.len() {
        let truncated: Vec<u8> = bytes[..cut].to_vec();
        assert_eq!(TileMap::read(&truncated), Err(TileMapError::ReadError));
    }
}

#[test]
fn read_rejects_trailing_bytes() {
    let m = TileMap::new((2, 2), 1, 1);
    let mut bytes = m.write();
    bytes.push(0);
    assert_eq!(TileMap::read(&bytes), Err(TileMapError::ReadError));
}

#[test]
fn read_rejects_empty_input() {
    let bytes: Vec<u8> = Vec::new();
    assert_eq!(TileMap::read(&bytes), Err(TileMapError::ReadError));
}

#[test]
fn read_rejects_contradictory_layer_counts() {
    let m = TileMap::new((2, 1), 1, 5);
    let mut bytes = m.write();
    // the trailing 32-bit layer count no longer matches the leading one
    let last = bytes.len() - 4;
    bytes[last] = 2;
    assert_eq!(TileMap::read(&bytes), Err(TileMapError::ReadError));
}

#[test]
fn read_rejects_wrong_tile_count() {
    // one layer of three tiles, but a 2 x 2 size: 3 != 4
    let mut bytes: Vec<u8> = Vec::new();
    bytes.extend_from_slice(&[1, 0, 0, 0, 0, 0, 0, 0]);
    bytes.extend_from_slice(&[3, 0, 0, 0, 0, 0, 0, 0]);
    for _ in 0..3 {
        bytes.extend_from_slice(&[0, 0, 0, 0]);
    }
    bytes.extend_from_slice(&[2, 0, 0, 0]); // width
    bytes.extend_from_slice(&[2, 0, 0, 0]); // height
    bytes.extend_from_slice(&[1, 0, 0, 0]); // layer count
    assert_eq!(TileMap::read(&bytes), Err(TileMapError::ReadError));
}

#[test]
fn read_accepts_a_hand_written_encoding() {
    let mut bytes: Vec<u8> = Vec::new();
    bytes.extend_from_slice(&[2, 0, 0, 0, 0, 0, 0, 0]); // two layers
    bytes.extend_from_slice(&[1, 0, 0, 0, 0, 0, 0, 0]); // one tile
    bytes.extend_from_slice(&[7, 0, 0, 0]);
    bytes.extend_from_slice(&[1, 0, 0, 0, 0, 0, 0, 0]); // one tile
    bytes.extend_from_slice(&[8, 0, 0, 0]);
    bytes.extend_from_slice(&[1, 0, 0, 0]); // width
    bytes.extend_from_slice(&[1, 0, 0, 0]); // height
    bytes.extend_from_slice(&[2, 0, 0, 0]); // layer count
    let m = TileMap::read(&bytes).expect("a complete encoding must read");
    assert_eq!(m.size(), (1, 1));
    assert_eq!(m.layer_count(), 2);
    assert_eq!(m.get_tile((0, 0), 0), Some(7));
    assert_eq!(m.get_tile((0, 0), 1), Some(8));
}

use torn_territories::tiles::{
    load_map_segment, load_map_x4, tile_store_from_tiffs, Tile, TileError, TileStore,
    GRID_COLS, GRID_ROWS, MAP_X4_HEIGHT, MAP_X4_WIDTH, TILE_HEIGHT, TILE_WIDTH,
};
use torn_territories::viewport::{MAP_HEIGHT, MAP_WIDTH};

/// The synthetic map pattern: a value that differs between neighbouring
/// pixels, so off-by-one stitching mistakes change bytes.
fn pattern(gx: u32, gy: u32) -> u8 {
    ((gx.wrapping_mul(31).wrapping_add(gy.wrapping_mul(17))) % 251) as u8
}

fn col_width(c: u32) -> u32 {
    if (c + 1) * TILE_WIDTH <= MAP_WIDTH { TILE_WIDTH } else { MAP_WIDTH - c * TILE_WIDTH }
}

fn row_height(r: u32) -> u32 {
    if (r + 1) * TILE_HEIGHT <= MAP_HEIGHT { TILE_HEIGHT } else { MAP_HEIGHT - r * TILE_HEIGHT }
}

fn synthetic_tiles() -> Vec<Tile> {
    let mut tiles = Vec::new();
    for r in 0..GRID_ROWS {
        for c in 0..GRID_COLS {
            let w = col_width(c);
            let h = row_height(r);
            let mut pixels = Vec::with_capacity((w * h) as usize);
            for py in 0..h {
                for px in 0..w {
                    pixels.push(pattern(c * TILE_WIDTH + px, r * TILE_HEIGHT + py));
                }
            }
            tiles.push(Tile { width: w, height: h, pixels });
        }
    }
    tiles
}

fn synthetic_x4() -> Tile {
    let mut pixels = Vec::with_capacity((MAP_X4_WIDTH * MAP_X4_HEIGHT) as usize);
    for py in 0..MAP_X4_HEIGHT {
        for px in 0..MAP_X4_WIDTH {
            pixels.push(pattern(px.wrapping_mul(4), py.wrapping_mul(4)));
        }
    }
    pixels[0] = 77;
    Tile { width: MAP_X4_WIDTH, height: MAP_X4_HEIGHT, pixels }
}

fn synthetic_store() -> TileStore {
    TileStore::new(synthetic_tiles(), synthetic_x4()).unwrap()
}

#[test]
fn store_rejects_wrong_tile_count() {
    let mut tiles = synthetic_tiles();
    tiles.pop();
    let r = TileStore::new(tiles, synthetic_x4());
    assert!(matches!(r, Err(TileError::WrongCount)));
}

#[test]
fn store_rejects_wrong_tile_size() {
    let mut tiles = synthetic_tiles();
    tiles[3].pixels.pop();
    let r = TileStore::new(tiles, synthetic_x4());
    assert!(matches!(r, Err(TileError::WrongSize)));
}

#[test]
fn first_tile_is_returned_unmodified() {
    let store = synthetic_store();
    let img = load_map_segment(&store, 0, 0, TILE_WIDTH, TILE_HEIGHT);
    assert_eq!(&img, &store.tile(1, 1).pixels);
}

#[test]
fn horizontal_seam_is_exact() {
    let store = synthetic_store();
    // A rectangle straddling the column boundary at x = 600.
    let img = load_map_segment(&store, 595, 0, 20, 10);
    assert_eq!(img[4], pattern(599, 0));
    assert_eq!(img[5], pattern(600, 0));
    for j in 0..20u32 {
        for i in 0..10u32 {
            assert_eq!(img[(i * 20 + j) as usize], pattern(595 + j, i));
        }
    }
}

#[test]
fn vertical_seam_is_exact() {
    let store = synthetic_store();
    // A rectangle straddling the row boundary at y = 400.
    let img = load_map_segment(&store, 0, 395, 10, 20);
    assert_eq!(img[(4 * 10) as usize], pattern(0, 399));
    assert_eq!(img[(5 * 10) as usize], pattern(0, 400));
    for j in 0..10u32 {
        for i in 0..20u32 {
            assert_eq!(img[(i * 10 + j) as usize], pattern(j, 395 + i));
        }
    }
}

#[test]
fn four_tile_corner_is_exact() {
    let store = synthetic_store();
    // A rectangle covering the 2-by-2 tile corner at (600, 400).
    let img = load_map_segment(&store, 595, 395, 10, 10);
    for j in 0..10u32 {
        for i in 0..10u32 {
            assert_eq!(img[(i * 10 + j) as usize], pattern(595 + j, 395 + i));
        }
    }
}

#[test]
fn map_edges_are_reachable() {
    let store = synthetic_store();
    let img = load_map_segment(&store, MAP_WIDTH - 7, MAP_HEIGHT - 5, 7, 5);
    for j in 0..7u32 {
        for i in 0..5u32 {
            assert_eq!(
                img[(i * 7 + j) as usize],
                pattern(MAP_WIDTH - 7 + j, MAP_HEIGHT - 5 + i)
            );
        }
    }
}

#[test]
fn loading_twice_gives_identical_bytes() {
    let store = synthetic_store();
    let a = load_map_segment(&store, 123, 456, 700, 500);
    let b = load_map_segment(&store, 123, 456, 700, 500);
    assert_eq!(a, b);
}

#[test]
fn x4_tile_is_served_as_stored() {
    let store = synthetic_store();
    let x4 = load_map_x4(&store);
    assert_eq!(x4.width, MAP_X4_WIDTH);
    assert_eq!(x4.height, MAP_X4_HEIGHT);
    assert_eq!(x4.pixels[0], 77);
}

fn encode_tiff(tile: &Tile) -> Vec<u8> {
    let img = image::GrayImage::from_raw(tile.width, tile.height, tile.pixels.clone()).unwrap();
    let mut buf = std::io::Cursor::new(Vec::new());
    img.write_to(&mut buf, image::ImageFormat::Tiff).unwrap();
    buf.into_inner()
}

#[test]
fn tiff_store_round_trips_pixels() {
    let tiles = synthetic_tiles();
    let encoded: Vec<Vec<u8>> = tiles.iter().map(encode_tiff).collect();
    let x4_encoded = encode_tiff(&synthetic_x4());
    let store = tile_store_from_tiffs(&encoded, &x4_encoded).unwrap();
    let img = load_map_segment(&store, 595, 395, 10, 10);
    for j in 0..10u32 {
        for i in 0..10u32 {
            assert_eq!(img[(i * 10 + j) as usize], pattern(595 + j, 395 + i));
        }
    }
}

#[test]
fn tiff_store_rejects_undecodable_tiles() {
    let tiles = synthetic_tiles();
    let mut encoded: Vec<Vec<u8>> = tiles.iter().map(encode_tiff).collect();
    encoded[5] = vec![1, 2, 3, 4];
    let x4_encoded = encode_tiff(&synthetic_x4());
    let r = tile_store_from_tiffs(&encoded, &x4_encoded);
    assert!(matches!(r, Err(TileError::Undecodable)));
}

#[test]
fn tiff_store_rejects_misplaced_tiles() {
    let tiles = synthetic_tiles();
    let mut encoded: Vec<Vec<u8>> = tiles.iter().map(encode_tiff).collect();
    // Swap a full tile into the last column, whose tiles are narrower.
    encoded.swap(0, 10);
    let x4_encoded = encode_tiff(&synthetic_x4());
    let r = tile_store_from_tiffs(&encoded, &x4_encoded);
    assert!(matches!(r, Err(TileError::WrongSize)));
}

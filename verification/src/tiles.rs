//! The tile store and the tile stitcher: the map is shipped as a fixed grid
//! of pre-rendered grayscale tiles, and an arbitrary in-bounds rectangle of
//! the map is materialised as one contiguous buffer by copying sub-regions
//! across tile boundaries.

use vstd::prelude::*;
use vstd::arithmetic::div_mod::{lemma_fundamental_div_mod, lemma_fundamental_div_mod_converse};

use image::ImageDecoder;

use crate::viewport::{MAP_HEIGHT, MAP_WIDTH};

verus! {

/// Width of a full tile, in pixels.
pub const TILE_WIDTH: u32 = 600;

/// Height of a full tile, in pixels.
pub const TILE_HEIGHT: u32 = 400;

/// Number of tile columns: the last column is 256 pixels wide.
pub const GRID_COLS: u32 = 11;

/// Number of tile rows: the last row is 48 pixels high.
pub const GRID_ROWS: u32 = 10;

/// Number of tiles in the grid.
pub const TILE_COUNT: u32 = 110;

/// Width of the pre-downscaled whole-map tile (a quarter of the map).
pub const MAP_X4_WIDTH: u32 = 1564;

/// Height of the pre-downscaled whole-map tile.
pub const MAP_X4_HEIGHT: u32 = 912;

/// Width of the tile in grid column `c` (0-based): a full tile except in
/// the last column, which only reaches the map edge.
pub open spec fn col_width(c: int) -> int {
    if (c + 1) * TILE_WIDTH <= MAP_WIDTH {
        TILE_WIDTH as int
    } else {
        MAP_WIDTH - c * TILE_WIDTH
    }
}

/// Height of the tile in grid row `r` (0-based).
pub open spec fn row_height(r: int) -> int {
    if (r + 1) * TILE_HEIGHT <= MAP_HEIGHT {
        TILE_HEIGHT as int
    } else {
        MAP_HEIGHT - r * TILE_HEIGHT
    }
}

/// One decoded tile: single-channel 8-bit pixels, row-major.
#[derive(Debug, Clone)]
pub struct Tile {
    pub width: u32,
    pub height: u32,
    pub pixels: Vec<u8>,
}

impl Tile {
    pub open spec fn wf(self) -> bool {
        self.pixels@.len() == self.width * self.height
    }

    /// The pixel at `(px, py)` of the tile.
    pub open spec fn spec_pixel(self, px: int, py: int) -> u8 {
        self.pixels@[py * self.width + px]
    }
}

/// The read-only store of decoded map tiles: one tile per grid cell, in
/// row-major order, plus the pre-downscaled whole-map tile. Tiles are named
/// by 1-indexed row and column in the shipped artifact; the store addresses
/// the same grid 0-based.
pub struct TileStore {
    tiles: Vec<Tile>,
    x4: Tile,
}

impl TileStore {
    pub closed spec fn tiles_seq(self) -> Seq<Tile> {
        self.tiles@
    }

    pub closed spec fn x4_tile(self) -> Tile {
        self.x4
    }

    /// The tile of grid cell `(c, r)`, 0-based.
    pub open spec fn spec_tile(self, c: int, r: int) -> Tile {
        self.tiles_seq()[r * (GRID_COLS as int) + c]
    }

    pub open spec fn wf(self) -> bool {
        &&& self.tiles_seq().len() == TILE_COUNT
        &&& forall|c: int, r: int|
            0 <= c < GRID_COLS && 0 <= r < GRID_ROWS ==> {
                let t = #[trigger] self.spec_tile(c, r);
                t.width == col_width(c) && t.height == row_height(r) && t.wf()
            }
        &&& self.x4_tile().width == MAP_X4_WIDTH
        &&& self.x4_tile().height == MAP_X4_HEIGHT
        &&& self.x4_tile().wf()
    }

    /// The tile of grid cell (`col`, `row`), 1-indexed as in the tile
    /// naming scheme.
    pub fn tile(&self, col: u32, row: u32) -> (t: &Tile)
        requires
            self.wf(),
            1 <= col <= GRID_COLS,
            1 <= row <= GRID_ROWS,
        ensures
            *t == self.spec_tile(col - 1, row - 1),
            t.wf(),
            t.width == col_width(col - 1),
            t.height == row_height(row - 1),
    {
        let t = &self.tiles[((row - 1) * GRID_COLS + (col - 1)) as usize];
        proof {
            assert(self.spec_tile(col - 1, row - 1).wf());
        }
        t
    }
}

/// Why a tile set was rejected: tile coverage and tile dimensions are fixed
/// at build time, so a mismatch is a fatal configuration error, not bad
/// input.
#[derive(Debug, Clone, PartialEq, Eq, Structural)]
pub enum TileError {
    WrongCount,
    WrongSize,
    Undecodable,
}

/// The tile list covers the grid exactly: one tile per cell in row-major
/// order, each of its cell's dimensions, plus the whole-map tile at a
/// quarter of the map size.
pub open spec fn store_dims_ok(tiles: Seq<Tile>, x4: Tile) -> bool {
    &&& tiles.len() == TILE_COUNT
    &&& forall|idx: int|
        0 <= idx < tiles.len() ==> {
            let t = #[trigger] tiles[idx];
            &&& t.width == col_width(idx % (GRID_COLS as int))
            &&& t.height == row_height(idx / (GRID_COLS as int))
            &&& t.wf()
        }
    &&& x4.width == MAP_X4_WIDTH
    &&& x4.height == MAP_X4_HEIGHT
    &&& x4.wf()
}

impl TileStore {
    /// Build the store from decoded tiles, in row-major grid order,
    /// validating the fixed tile coverage and dimensions.
    pub fn new(tiles: Vec<Tile>, x4: Tile) -> (r: Result<TileStore, TileError>)
        ensures
            r is Ok <==> store_dims_ok(tiles@, x4),
            r matches Ok(s) ==> s.tiles_seq() == tiles@ && s.x4_tile() == x4 && s.wf(),
            r == Err::<TileStore, TileError>(TileError::WrongCount) <==> tiles@.len()
                != TILE_COUNT,
            r == Err::<TileStore, TileError>(TileError::WrongSize) <==> tiles@.len()
                == TILE_COUNT && !store_dims_ok(tiles@, x4),
    {
        if tiles.len() != TILE_COUNT as usize {
            return Err(TileError::WrongCount);
        }
        if x4.width != MAP_X4_WIDTH || x4.height != MAP_X4_HEIGHT || x4.pixels.len()
            != (MAP_X4_WIDTH as usize) * (MAP_X4_HEIGHT as usize) {
            return Err(TileError::WrongSize);
        }
        let mut idx: usize = 0;
        while idx < TILE_COUNT as usize
            invariant
                0 <= idx <= TILE_COUNT,
                tiles@.len() == TILE_COUNT,
                forall|jdx: int|
                    0 <= jdx < idx ==> {
                        let t = #[trigger] tiles@[jdx];
                        &&& t.width == col_width(jdx % (GRID_COLS as int))
                        &&& t.height == row_height(jdx / (GRID_COLS as int))
                        &&& t.wf()
                    },
            decreases TILE_COUNT - idx,
        {
            let c: u32 = (idx as u32) % GRID_COLS;
            let r: u32 = (idx as u32) / GRID_COLS;
            let ew: u32 = if (c + 1) * TILE_WIDTH <= MAP_WIDTH {
                TILE_WIDTH
            } else {
                MAP_WIDTH - c * TILE_WIDTH
            };
            let eh: u32 = if (r + 1) * TILE_HEIGHT <= MAP_HEIGHT {
                TILE_HEIGHT
            } else {
                MAP_HEIGHT - r * TILE_HEIGHT
            };
            let t = &tiles[idx];
            proof {
                assert(ew * eh <= 240000) by (nonlinear_arith)
                    requires
                        0 <= ew <= 600,
                        0 <= eh <= 400,
                ;
            }
            if t.width != ew || t.height != eh || t.pixels.len() != (ew as usize) * (
            eh as usize) {
                return Err(TileError::WrongSize);
            }
            idx += 1;
        }
        let store = TileStore { tiles, x4 };
        proof {
            assert forall|c: int, r: int| 0 <= c < GRID_COLS && 0 <= r < GRID_ROWS implies {
                let t = #[trigger] store.spec_tile(c, r);
                t.width == col_width(c) && t.height == row_height(r) && t.wf()
            } by {
                lemma_row_col(GRID_COLS as int, r, c);
                assert(store.tiles_seq()[r * (GRID_COLS as int) + c].wf());
            }
        }
        Ok(store)
    }
}

/// What decoding a buffer as an 8-bit grayscale TIFF yields: the image's
/// width, height and row-major pixel bytes, or nothing when the buffer is
/// not such an image. Decoding depends on the bytes alone.
pub uninterp spec fn gray_tiff_decode(data: Seq<u8>) -> Option<(u32, u32, Seq<u8>)>;

/// Relies on `image::codecs::tiff::TiffDecoder` and
/// `image::ImageDecoder::read_image`: decoding is a pure function of the
/// encoded bytes, and an 8-bit grayscale (`L8`) image decodes to one byte
/// per pixel, row-major, `width * height` bytes in all.
#[verifier::external_body]
fn decode_gray_tiff(data: &Vec<u8>) -> (r: Option<(u32, u32, Vec<u8>)>)
    ensures
        match r {
            Some(t) => gray_tiff_decode(data@) == Some((t.0, t.1, t.2@)) && t.2@.len() == t.0
                * t.1,
            None => gray_tiff_decode(data@) is None,
        },
{
    let decoder = image::codecs::tiff::TiffDecoder::new(std::io::Cursor::new(data.as_slice()))
        .ok()?;
    if decoder.color_type() != image::ColorType::L8 {
        return None;
    }
    let (w, h) = decoder.dimensions();
    let mut buf = vec![0u8; decoder.total_bytes() as usize];
    decoder.read_image(&mut buf).ok()?;
    Some((w, h, buf))
}

/// Every buffer in the list decodes as an 8-bit grayscale TIFF.
pub open spec fn tiff_grid_decodes(encoded: Seq<Vec<u8>>) -> bool {
    forall|idx: int| 0 <= idx < encoded.len() ==> gray_tiff_decode(#[trigger] encoded[idx]@) is Some
}

/// Every decoded tile has the dimensions of its grid cell.
pub open spec fn tiff_grid_sized(encoded: Seq<Vec<u8>>) -> bool {
    forall|idx: int|
        0 <= idx < encoded.len() ==> {
            let t = gray_tiff_decode(#[trigger] encoded[idx]@)->Some_0;
            t.0 == col_width(idx % (GRID_COLS as int)) && t.1 == row_height(
                idx / (GRID_COLS as int),
            )
        }
}

/// The whole-map buffer decodes to a quarter-of-the-map grayscale image.
pub open spec fn tiff_x4_sized(x4: Seq<u8>) -> bool {
    &&& gray_tiff_decode(x4) is Some
    &&& gray_tiff_decode(x4)->Some_0.0 == MAP_X4_WIDTH
    &&& gray_tiff_decode(x4)->Some_0.1 == MAP_X4_HEIGHT
}

/// Build the tile store from the shipped encoded TIFF tiles, in row-major
/// grid order, plus the encoded whole-map tile. The count is checked
/// first; then every buffer must decode as 8-bit grayscale; then every
/// decoded image must have its cell's fixed dimensions. The store holds
/// exactly the decoded pixel bytes.
pub fn tile_store_from_tiffs(encoded: &Vec<Vec<u8>>, x4_encoded: &Vec<u8>) -> (r: Result<
    TileStore,
    TileError,
>)
    ensures
        r == Err::<TileStore, TileError>(TileError::WrongCount) <==> encoded@.len()
            != TILE_COUNT,
        r == Err::<TileStore, TileError>(TileError::Undecodable) <==> encoded@.len()
            == TILE_COUNT && !(tiff_grid_decodes(encoded@) && gray_tiff_decode(
            x4_encoded@,
        ) is Some),
        r == Err::<TileStore, TileError>(TileError::WrongSize) <==> encoded@.len() == TILE_COUNT
            && tiff_grid_decodes(encoded@) && gray_tiff_decode(x4_encoded@) is Some && !(
        tiff_grid_sized(encoded@) && tiff_x4_sized(x4_encoded@)),
        r is Ok <==> encoded@.len() == TILE_COUNT && tiff_grid_decodes(encoded@)
            && tiff_grid_sized(encoded@) && tiff_x4_sized(x4_encoded@),
        r matches Ok(s) ==> {
            &&& s.wf()
            &&& forall|idx: int|
                0 <= idx < TILE_COUNT ==> s.tiles_seq()[idx].pixels@ == gray_tiff_decode(
                    #[trigger] encoded@[idx]@,
                )->Some_0.2
            &&& s.x4_tile().pixels@ == gray_tiff_decode(x4_encoded@)->Some_0.2
        },
{
    if encoded.len() != TILE_COUNT as usize {
        return Err(TileError::WrongCount);
    }
    let mut tiles: Vec<Tile> = Vec::new();
    let mut i: usize = 0;
    while i < TILE_COUNT as usize
        invariant
            0 <= i <= TILE_COUNT,
            encoded@.len() == TILE_COUNT,
            tiles@.len() == i,
            forall|jdx: int|
                0 <= jdx < i ==> gray_tiff_decode(#[trigger] encoded@[jdx]@) is Some,
            forall|jdx: int|
                0 <= jdx < i ==> {
                    let t = gray_tiff_decode(#[trigger] encoded@[jdx]@)->Some_0;
                    let tl = tiles@[jdx];
                    tl.width == t.0 && tl.height == t.1 && tl.pixels@ == t.2 && tl.wf()
                },
        decreases TILE_COUNT - i,
    {
        match decode_gray_tiff(&encoded[i]) {
            Some((w, h, pixels)) => {
                tiles.push(Tile { width: w, height: h, pixels });
            },
            None => {
                return Err(TileError::Undecodable);
            },
        }
        i += 1;
    }
    let x4_tile: Tile = match decode_gray_tiff(x4_encoded) {
        Some((w, h, pixels)) => Tile { width: w, height: h, pixels },
        None => {
            return Err(TileError::Undecodable);
        },
    };
    let ghost tiles_snapshot = tiles@;
    match TileStore::new(tiles, x4_tile) {
        Ok(store) => {
            proof {
                assert(store_dims_ok(tiles_snapshot, x4_tile));
                assert forall|idx: int|
                    0 <= idx < TILE_COUNT implies {
                    let t = gray_tiff_decode(#[trigger] encoded@[idx]@)->Some_0;
                    t.0 == col_width(idx % (GRID_COLS as int)) && t.1 == row_height(
                        idx / (GRID_COLS as int),
                    )
                } by {
                    assert(tiles_snapshot[idx].width == col_width(idx % (GRID_COLS as int)));
                }
            }
            Ok(store)
        },
        Err(e) => {
            proof {
                assert(e != TileError::WrongCount);
                assert(e == TileError::WrongSize);
                assert(!store_dims_ok(tiles_snapshot, x4_tile));
                if tiff_grid_sized(encoded@) && tiff_x4_sized(x4_encoded@) {
                    assert forall|idx: int|
                        0 <= idx < tiles_snapshot.len() implies {
                        let t = #[trigger] tiles_snapshot[idx];
                        t.width == col_width(idx % (GRID_COLS as int)) && t.height == row_height(
                            idx / (GRID_COLS as int),
                        ) && t.wf()
                    } by {
                        assert(gray_tiff_decode(encoded@[idx]@) is Some);
                    }
                    assert(store_dims_ok(tiles_snapshot, x4_tile));
                }
            }
            Err(TileError::WrongSize)
        },
    }
}

/// Pixel `k` of a crop of `tile` at `(cx, cy)` with row length `cw` holds
/// the tile pixel at `(cx + k % cw, cy + k / cw)`.
pub open spec fn cropped_pixel_ok(
    out: Seq<u8>,
    tile: Tile,
    cx: int,
    cy: int,
    cw: int,
    k: int,
) -> bool {
    out[k] == tile.spec_pixel(cx + k % cw, cy + k / cw)
}

/// The row-major `cw` by `ch` sub-region of a tile at offset `(cx, cy)`.
pub open spec fn crop_spec(tile: Tile, cx: int, cy: int, cw: int, ch: int) -> Seq<u8> {
    Seq::new((cw * ch) as nat, |k: int| tile.spec_pixel(cx + k % cw, cy + k / cw))
}

/// Extract the `cw` by `ch` sub-region of a tile at offset `(cx, cy)` as a
/// contiguous row-major buffer.
pub fn crop_tile(tile: &Tile, cx: u32, cy: u32, cw: u32, ch: u32) -> (out: Vec<u8>)
    requires
        tile.wf(),
        cx + cw <= tile.width,
        cy + ch <= tile.height,
        tile.width * tile.height <= usize::MAX,
        1 <= cw,
    ensures
        out@ == crop_spec(*tile, cx as int, cy as int, cw as int, ch as int),
{
    let mut out: Vec<u8> = Vec::new();
    let mut i: u32 = 0;
    while i < ch
        invariant
            0 <= i <= ch,
            tile.wf(),
            cx + cw <= tile.width,
            cy + ch <= tile.height,
            tile.width * tile.height <= usize::MAX,
            1 <= cw,
            out@.len() == i * cw,
            forall|k: int|
                0 <= k < i * cw ==> #[trigger] cropped_pixel_ok(
                    out@,
                    *tile,
                    cx as int,
                    cy as int,
                    cw as int,
                    k,
                ),
        decreases ch - i,
    {
        let mut j: u32 = 0;
        while j < cw
            invariant
                0 <= j <= cw,
                0 <= i < ch,
                tile.wf(),
                cx + cw <= tile.width,
                cy + ch <= tile.height,
                tile.width * tile.height <= usize::MAX,
                1 <= cw,
                out@.len() == i * cw + j,
                forall|k: int|
                    0 <= k < i * cw + j ==> #[trigger] cropped_pixel_ok(
                        out@,
                        *tile,
                        cx as int,
                        cy as int,
                        cw as int,
                        k,
                    ),
            decreases cw - j,
        {
            proof {
                assert((cy + i) * tile.width + (cx + j) < tile.width * tile.height)
                    by (nonlinear_arith)
                    requires
                        0 <= cy + i < tile.height,
                        0 <= cx + j < tile.width,
                        tile.width >= 1,
                ;
                assert(i * cw + j < ch * cw) by (nonlinear_arith)
                    requires
                        0 <= i < ch,
                        0 <= j < cw,
                        1 <= cw,
                ;
            }
            let src: usize = (cy + i) as usize * (tile.width as usize) + (cx + j) as usize;
            let v: u8 = tile.pixels[src];
            let ghost pre = out@;
            out.push(v);
            proof {
                lemma_row_col(cw as int, i as int, j as int);
                assert forall|k: int|
                    0 <= k < i * cw + j + 1 implies #[trigger] cropped_pixel_ok(
                    out@,
                    *tile,
                    cx as int,
                    cy as int,
                    cw as int,
                    k,
                ) by {
                    if k < i * cw + j {
                        assert(cropped_pixel_ok(pre, *tile, cx as int, cy as int, cw as int, k));
                        assert(out@[k] == pre[k]);
                    } else {
                        assert(k == i * cw + j);
                        assert(out@[k] == v);
                        assert(k / (cw as int) == i && k % (cw as int) == j);
                    }
                }
            }
            j += 1;
        }
        proof {
            assert((i + 1) * cw == i * cw + cw) by (nonlinear_arith);
        }
        i += 1;
    }
    proof {
        assert(ch * cw == cw * ch) by (nonlinear_arith);
        assert forall|k: int|
            0 <= k < cw * ch implies out@[k] == crop_spec(
            *tile,
            cx as int,
            cy as int,
            cw as int,
            ch as int,
        )[k] by {
            assert(cropped_pixel_ok(out@, *tile, cx as int, cy as int, cw as int, k));
        }
        assert(out@ =~= crop_spec(*tile, cx as int, cy as int, cw as int, ch as int));
    }
    out
}

/// The grayscale value of the map at pixel `(gx, gy)`, read through the
/// tile grid: the pixel of the covering tile at the offset within it.
pub open spec fn map_pixel(store: TileStore, gx: int, gy: int) -> u8 {
    let c = gx / (TILE_WIDTH as int);
    let r = gy / (TILE_HEIGHT as int);
    store.spec_tile(c, r).spec_pixel(gx % (TILE_WIDTH as int), gy % (TILE_HEIGHT as int))
}

/// The contiguous, row-major buffer holding the map rectangle at `(x, y)`
/// of size `w` by `h`: pixel `k` is the map pixel at
/// `(x + k % w, y + k / w)`.
pub open spec fn segment_spec(store: TileStore, x: int, y: int, w: int, h: int) -> Seq<u8> {
    Seq::new((w * h) as nat, |k: int| map_pixel(store, x + k % w, y + k / w))
}

/// Pixel `(j, i)` of the output buffer holds the map pixel at
/// `(x + j, y + i)`.
pub open spec fn stitched_pixel_ok(
    img: Seq<u8>,
    store: TileStore,
    x: int,
    y: int,
    w: int,
    i: int,
    j: int,
) -> bool {
    img[i * w + j] == map_pixel(store, x + j, y + i)
}

/// Pixel `(j, i)` of the destination block at `(dx, dy)` holds the tile
/// pixel at `(xo + j, yo + i)`.
pub open spec fn dest_block_ok(
    img: Seq<u8>,
    tile: Tile,
    w: int,
    dx: int,
    dy: int,
    xo: int,
    yo: int,
    i: int,
    j: int,
) -> bool {
    img[(dy + i) * w + (dx + j)] == tile.spec_pixel(xo + j, yo + i)
}

/// Row and column are recovered from a row-major index.
proof fn lemma_row_col(w: int, i: int, j: int)
    requires
        w >= 1,
        0 <= j < w,
        0 <= i,
    ensures
        (i * w + j) / w == i,
        (i * w + j) % w == j,
{
    lemma_fundamental_div_mod_converse(i * w + j, w, i, j);
}

/// Height of the band of rows the scan cursor copies at height `cy`: up to
/// the requested rectangle's bottom edge `yend` or the current tile's
/// bottom edge, whichever is nearer.
pub open spec fn band_height(cy: int, yend: int) -> int {
    let t = TILE_HEIGHT - cy % (TILE_HEIGHT as int);
    if yend - cy < t {
        yend - cy
    } else {
        t
    }
}

/// Copy a `cw` by `ch` block out of `tile` (from offset `(xo, yo)`) into
/// the row-major buffer `img` of row length `w`, at position `(dx, dy)`.
/// Everything outside the destination block is untouched.
fn copy_block(
    img: &mut Vec<u8>,
    w: u32,
    dx: u32,
    dy: u32,
    cw: u32,
    ch: u32,
    tile: &Tile,
    xo: u32,
    yo: u32,
)
    requires
        tile.wf(),
        w >= 1,
        dx + cw <= w,
        dy + ch <= u32::MAX,
        (dy + ch) * w <= old(img)@.len(),
        old(img)@.len() <= usize::MAX,
        tile.width * tile.height <= usize::MAX,
        xo + cw <= tile.width,
        yo + ch <= tile.height,
    ensures
        final(img)@.len() == old(img)@.len(),
        forall|i: int, j: int|
            0 <= i < ch && 0 <= j < cw ==> #[trigger] dest_block_ok(
                final(img)@,
                *tile,
                w as int,
                dx as int,
                dy as int,
                xo as int,
                yo as int,
                i,
                j,
            ),
        forall|k: int|
            0 <= k < old(img)@.len() && !(dy <= k / (w as int) < dy + ch && dx <= k % (
            w as int) < dx + cw) ==> #[trigger] final(img)@[k] == old(img)@[k],
{
    let mut i: u32 = 0;
    while i < ch
        invariant
            0 <= i <= ch,
            tile.wf(),
            w >= 1,
            dx + cw <= w,
            dy + ch <= u32::MAX,
            (dy + ch) * w <= old(img)@.len(),
            old(img)@.len() <= usize::MAX,
            tile.width * tile.height <= usize::MAX,
            xo + cw <= tile.width,
            yo + ch <= tile.height,
            img@.len() == old(img)@.len(),
            forall|ii: int, jj: int|
                0 <= ii < i && 0 <= jj < cw ==> #[trigger] dest_block_ok(
                    img@,
                    *tile,
                    w as int,
                    dx as int,
                    dy as int,
                    xo as int,
                    yo as int,
                    ii,
                    jj,
                ),
            forall|k: int|
                0 <= k < old(img)@.len() && !(dy <= k / (w as int) < dy + ch && dx <= k % (
                w as int) < dx + cw) ==> #[trigger] img@[k] == old(img)@[k],
        decreases ch - i,
    {
        let mut j: u32 = 0;
        while j < cw
            invariant
                0 <= j <= cw,
                0 <= i < ch,
                tile.wf(),
                w >= 1,
                dx + cw <= w,
                dy + ch <= u32::MAX,
                (dy + ch) * w <= old(img)@.len(),
                old(img)@.len() <= usize::MAX,
                tile.width * tile.height <= usize::MAX,
                xo + cw <= tile.width,
                yo + ch <= tile.height,
                img@.len() == old(img)@.len(),
                forall|ii: int, jj: int|
                    (0 <= ii < i && 0 <= jj < cw) || (ii == i && 0 <= jj < j)
                        ==> #[trigger] dest_block_ok(
                        img@,
                        *tile,
                        w as int,
                        dx as int,
                        dy as int,
                        xo as int,
                        yo as int,
                        ii,
                        jj,
                    ),
                forall|k: int|
                    0 <= k < old(img)@.len() && !(dy <= k / (w as int) < dy + ch && dx <= k
                        % (w as int) < dx + cw) ==> #[trigger] img@[k] == old(img)@[k],
            decreases cw - j,
        {
            proof {
                assert((yo + i) * tile.width + (xo + j) < tile.width * tile.height)
                    by (nonlinear_arith)
                    requires
                        0 <= yo + i < tile.height,
                        0 <= xo + j < tile.width,
                        tile.width >= 1,
                ;
            }
            let src: usize = (yo + i) as usize * (tile.width as usize) + (xo + j) as usize;
            let v: u8 = tile.pixels[src];
            proof {
                assert((dy + i) * w + (dx + j) < (dy + ch) * w) by (nonlinear_arith)
                    requires
                        0 <= dy + i < dy + ch,
                        0 <= dx + j < w,
                        w >= 1,
                ;
            }
            let dst: usize = (dy + i) as usize * (w as usize) + (dx + j) as usize;
            let ghost pre = img@;
            img.set(dst, v);
            proof {
                lemma_row_col(w as int, dy + i, dx + j);
                assert forall|ii: int, jj: int|
                    (0 <= ii < i && 0 <= jj < cw) || (ii == i && 0 <= jj < j + 1)
                        implies #[trigger] dest_block_ok(
                    img@,
                    *tile,
                    w as int,
                    dx as int,
                    dy as int,
                    xo as int,
                    yo as int,
                    ii,
                    jj,
                ) by {
                    if ii == i && jj == j {
                        assert(img@[dst as int] == v);
                        assert(img@[(dy + i) * (w as int) + (dx + j)] == tile.spec_pixel(
                            xo + j,
                            yo + i,
                        ));
                    } else {
                        lemma_row_col(w as int, dy + ii, dx + jj);
                        assert((dy + ii) * w + (dx + jj) < (dy + ch) * w) by (nonlinear_arith)
                            requires
                                0 <= dy + ii < dy + ch,
                                0 <= dx + jj < w,
                                w >= 1,
                        ;
                        assert((dy + ii) * w + (dx + jj) != dst);
                        assert(dest_block_ok(
                            pre,
                            *tile,
                            w as int,
                            dx as int,
                            dy as int,
                            xo as int,
                            yo as int,
                            ii,
                            jj,
                        ));
                        assert(img@[(dy + ii) * (w as int) + (dx + jj)] == pre[(dy + ii) * (
                        w as int) + (dx + jj)]);
                    }
                }
                assert forall|k: int|
                    0 <= k < old(img)@.len() && !(dy <= k / (w as int) < dy + ch && dx <= k
                        % (w as int) < dx + cw) implies #[trigger] img@[k] == old(img)@[k] by {
                    assert(k != dst);
                    assert(pre[k] == old(img)@[k]);
                }
            }
            j += 1;
        }
        i += 1;
    }
}

/// Materialise the map rectangle at `(x, y)` of size `w` by `h` as one
/// contiguous row-major grayscale buffer, by walking a scan cursor over the
/// rectangle and copying the largest block available from each covering
/// tile: the copy extent is bounded by the rectangle's right and bottom
/// edges and by the current tile's right and bottom edges, the cursor
/// advances by the copied width, and wraps to the rectangle's left edge and
/// down by the copied height when it reaches the right edge. Every output
/// pixel equals the map pixel under it: the result has no seams, duplicated
/// or missing pixels at tile boundaries, and is a pure function of the
/// store's contents.
pub fn load_map_segment(store: &TileStore, x: u32, y: u32, w: u32, h: u32) -> (img: Vec<u8>)
    requires
        store.wf(),
        x + w <= MAP_WIDTH,
        y + h <= MAP_HEIGHT,
    ensures
        img@ == segment_spec(*store, x as int, y as int, w as int, h as int),
{
    proof {
        assert(w * h <= 6256 * 3648) by (nonlinear_arith)
            requires
                0 <= w <= 6256,
                0 <= h <= 3648,
        ;
    }
    let n: usize = (w as usize) * (h as usize);
    let mut img: Vec<u8> = Vec::new();
    while img.len() < n
        invariant
            img@.len() <= n,
        decreases n - img@.len(),
    {
        img.push(0);
    }
    if w == 0 || h == 0 {
        proof {
            assert(w * h == 0);
            assert(img@ =~= segment_spec(*store, x as int, y as int, w as int, h as int));
        }
        return img;
    }
    let ghost gx = x as int;
    let ghost gy = y as int;
    let ghost gw = w as int;
    let mut cx: u32 = x;
    let mut cy: u32 = y;
    while cy < y + h
        invariant
            store.wf(),
            x + w <= MAP_WIDTH,
            y + h <= MAP_HEIGHT,
            1 <= w,
            1 <= h,
            gx == x as int,
            gy == y as int,
            gw == w as int,
            img@.len() == w * h,
            x <= cx < x + w,
            y <= cy <= y + h,
            forall|i: int, j: int|
                0 <= i < cy - y && 0 <= j < w ==> #[trigger] stitched_pixel_ok(
                    img@,
                    *store,
                    gx,
                    gy,
                    gw,
                    i,
                    j,
                ),
            forall|i: int, j: int|
                cy - y <= i < cy - y + band_height(cy as int, (y + h) as int) && 0 <= j < cx
                    - x ==> #[trigger] stitched_pixel_ok(img@, *store, gx, gy, gw, i, j),
        decreases (y + h - cy), (x + w - cx),
    {
        let c: u32 = cx / TILE_WIDTH;
        let r: u32 = cy / TILE_HEIGHT;
        let xo: u32 = cx % TILE_WIDTH;
        let yo: u32 = cy % TILE_HEIGHT;
        let rem_w: u32 = (x + w) - cx;
        let trem_w: u32 = TILE_WIDTH - xo;
        let cw: u32 = if rem_w < trem_w {
            rem_w
        } else {
            trem_w
        };
        let rem_h: u32 = (y + h) - cy;
        let trem_h: u32 = TILE_HEIGHT - yo;
        let ch: u32 = if rem_h < trem_h {
            rem_h
        } else {
            trem_h
        };
        proof {
            lemma_fundamental_div_mod(cx as int, TILE_WIDTH as int);
            lemma_fundamental_div_mod(cy as int, TILE_HEIGHT as int);
            assert(0 <= c < GRID_COLS && 0 <= r < GRID_ROWS);
            assert(store.spec_tile(c as int, r as int).wf());
        }
        let idx: usize = (r * GRID_COLS + c) as usize;
        let tile = &store.tiles[idx];
        let dx: u32 = cx - x;
        let dy: u32 = cy - y;
        proof {
            assert(*tile == store.spec_tile(c as int, r as int));
            // The copy region stays within the tile: a full tile is 600 by
            // 400, and an edge tile still covers the map up to its edge.
            assert(xo + cw <= tile.width && yo + ch <= tile.height);
            assert(tile.width * tile.height <= 600 * 400) by (nonlinear_arith)
                requires
                    0 <= tile.width <= 600,
                    0 <= tile.height <= 400,
            ;
            assert((dy + ch) * w <= h * w) by (nonlinear_arith)
                requires
                    0 <= dy + ch <= h,
                    0 <= w,
            ;
            assert(h * w == w * h) by (nonlinear_arith);
            assert(w * h <= 6256 * 3648) by (nonlinear_arith)
                requires
                    0 <= w <= 6256,
                    0 <= h <= 3648,
            ;
        }
        let ghost pre = img@;
        copy_block(&mut img, w, dx, dy, cw, ch, tile, xo, yo);
        proof {
            // Freshly copied block pixels now hold the map pixels under
            // them: the tile offset arithmetic inverts exactly.
            assert forall|i: int, j: int|
                dy <= i < dy + ch && dx <= j < dx + cw implies #[trigger] stitched_pixel_ok(
                img@,
                *store,
                gx,
                gy,
                gw,
                i,
                j,
            ) by {
                let ii = i - dy;
                let jj = j - dx;
                assert(dest_block_ok(
                    img@,
                    *tile,
                    w as int,
                    dx as int,
                    dy as int,
                    xo as int,
                    yo as int,
                    ii,
                    jj,
                ));
                lemma_fundamental_div_mod_converse(
                    cx + jj,
                    TILE_WIDTH as int,
                    c as int,
                    xo + jj,
                );
                lemma_fundamental_div_mod_converse(
                    cy + ii,
                    TILE_HEIGHT as int,
                    r as int,
                    yo + ii,
                );
                assert(map_pixel(*store, gx + j, gy + i) == tile.spec_pixel(xo + jj, yo + ii));
            }
            // Everything outside the block is untouched, so earlier rows
            // and the earlier part of the current band stay correct.
            assert forall|i: int, j: int|
                ((0 <= i < dy && 0 <= j < w) || (dy <= i < dy + ch && 0 <= j < dx))
                    implies #[trigger] stitched_pixel_ok(img@, *store, gx, gy, gw, i, j) by {
                assert(stitched_pixel_ok(pre, *store, gx, gy, gw, i, j));
                lemma_row_col(w as int, i, j);
                assert(i < h);
                assert(0 <= i * gw + j < w * h) by (nonlinear_arith)
                    requires
                        0 <= i < h,
                        0 <= j < w,
                        gw == w,
                        1 <= w,
                ;
                assert(img@[i * gw + j] == pre[i * gw + j]);
            }
        }
        if cx + cw >= x + w {
            cx = x;
            cy = cy + ch;
            proof {
                assert(dx + cw == w);
                assert forall|i: int, j: int|
                    0 <= i < cy - y && 0 <= j < w implies #[trigger] stitched_pixel_ok(
                    img@,
                    *store,
                    gx,
                    gy,
                    gw,
                    i,
                    j,
                ) by {
                    if i < dy {
                    } else if j < dx {
                    } else {
                    }
                }
            }
        } else {
            cx = cx + cw;
            proof {
                assert(band_height(cy as int, (y + h) as int) == ch);
                assert forall|i: int, j: int|
                    cy - y <= i < cy - y + band_height(cy as int, (y + h) as int) && 0 <= j
                        < cx - x implies #[trigger] stitched_pixel_ok(
                    img@,
                    *store,
                    gx,
                    gy,
                    gw,
                    i,
                    j,
                ) by {
                    if j < dx {
                    } else {
                    }
                }
            }
        }
    }
    proof {
        let spec = segment_spec(*store, x as int, y as int, w as int, h as int);
        assert forall|k: int| 0 <= k < w * h implies img@[k] == spec[k] by {
            lemma_fundamental_div_mod(k, w as int);
            let i = k / (w as int);
            let j = k % (w as int);
            assert(i < h) by (nonlinear_arith)
                requires
                    k < w * h,
                    k == (w as int) * i + j,
                    0 <= j < w,
                    1 <= w,
            ;
            assert(stitched_pixel_ok(img@, *store, gx, gy, gw, i, j));
            assert(i * gw + j == k) by (nonlinear_arith)
                requires
                    k == gw * i + j,
            ;
        }
        assert(img@ =~= segment_spec(*store, x as int, y as int, w as int, h as int));
    }
    img
}

/// The pre-downscaled whole-map tile, for cheap low-detail full-map views.
pub fn load_map_x4(store: &TileStore) -> (t: &Tile)
    requires
        store.wf(),
    ensures
        *t == store.x4_tile(),
        t.width == MAP_X4_WIDTH,
        t.height == MAP_X4_HEIGHT,
        t.wf(),
{
    &store.x4
}

/// Stitching is seam-correct: for any requested rectangle — whether or
/// not it spans tile boundaries — the output pixel at local `(j, i)` is
/// the map pixel at global `(x + j, y + i)`, with no off-by-one at any
/// boundary and no duplicated or missing pixels.
pub proof fn lemma_segment_seam_correct(
    store: TileStore,
    x: int,
    y: int,
    w: int,
    h: int,
    i: int,
    j: int,
)
    requires
        w >= 1,
        0 <= i < h,
        0 <= j < w,
    ensures
        segment_spec(store, x, y, w, h)[i * w + j] == map_pixel(store, x + j, y + i),
{
    lemma_row_col(w, i, j);
    assert(i * w + j < w * h) by (nonlinear_arith)
        requires
            0 <= i < h,
            0 <= j < w,
            w >= 1,
    ;
}

/// Loading a segment is idempotent: the output is a pure function of the
/// store's contents and the requested rectangle, so two calls with
/// identical arguments yield byte-identical buffers.
pub proof fn lemma_load_segment_idempotent(
    a: Seq<u8>,
    b: Seq<u8>,
    store: TileStore,
    x: int,
    y: int,
    w: int,
    h: int,
)
    requires
        a == segment_spec(store, x, y, w, h),
        b == segment_spec(store, x, y, w, h),
    ensures
        a == b,
{
}

} // verus!

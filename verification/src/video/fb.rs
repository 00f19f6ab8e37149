//! Frame buffer rendering target, as the bookkeeping of its tiles.
//!
//! A frame is drawn in tiles of up to 32x32 pixels into one of two buffers
//! while the other is shown. Tiles are numbered through all frames: tile
//! `id` belongs to frame `id / tcount`, where `tcount` is the number of tiles
//! of a frame.

use vstd::prelude::*;
use crate::dma::{to_dma, translated, visible};

verus! {

/// Maximum width or height of a tile.
pub const TILE_DIM_MAX: usize = 32;

/// Frame buffer.
pub struct FrameBuffer {
    /// Address of the first frame buffer.
    fb0: u64,
    /// Address of the second frame buffer.
    fb1: u64,
    /// Image width.
    width: usize,
    /// Image height.
    height: usize,
    /// Tile width.
    twidth: usize,
    /// Tile height.
    theight: usize,
    /// Tile count.
    tcount: usize,
    /// Id of the next tile to draw.
    tnext: u64,
    /// Finished tile counter.
    tfinished: u64,
}

/// Frame buffer iterator.
pub struct FrameBufferIterator {
    /// Frame being iterated.
    frame: u64,
}

/// Frame buffer tile.
#[derive(Clone, Copy, Debug, PartialEq, Eq, Structural)]
pub struct Tile {
    /// Origin column for this tile.
    pub col: usize,
    /// Origin row for this tile.
    pub row: usize,
    /// Width of this tile.
    pub width: usize,
    /// Height of this tile.
    pub height: usize,
}

/// The side of the tiles along a side of `len` pixels: the largest multiple
/// of eight up to the maximum that divides it, or zero if there is none.
pub open spec fn tile_side(len: int) -> int {
    if len % 32 == 0 {
        32
    } else if len % 24 == 0 {
        24
    } else if len % 16 == 0 {
        16
    } else if len % 8 == 0 {
        8
    } else {
        0
    }
}

/// Whether frames of the given size can be drawn in tiles: the image is not
/// empty, both sides can be tiled, and the number of its pixels is a number
/// of the machine.
pub open spec fn size_ok(width: int, height: int) -> bool {
    &&& width > 0
    &&& height > 0
    &&& tile_side(width) > 0
    &&& tile_side(height) > 0
    &&& width * height <= usize::MAX
}

/// The number of tiles of a frame.
pub open spec fn tiles_of(width: int, height: int) -> int {
    (width * height) / (tile_side(width) * tile_side(height))
}

/// The column at which tile `pos` of a frame starts.
pub open spec fn tile_col(width: int, pos: int) -> int {
    (pos * tile_side(width)) % width
}

/// The row at which tile `pos` of a frame starts.
pub open spec fn tile_row(width: int, height: int, pos: int) -> int {
    (pos * tile_side(width)) / width * tile_side(height)
}

/// A frame has at least one tile; its tiles fill it row by row, so that each
/// tile lies inside the image.
#[verifier::rlimit(30)]
pub proof fn lemma_tiles(width: int, height: int, pos: int)
    requires
        size_ok(width, height),
        0 <= pos,
    ensures
        tiles_of(width, height) > 0,
        tile_side(width) * tile_side(height) > 0,
        pos < tiles_of(width, height) ==> {
            &&& 0 <= pos * tile_side(width) <= width * height
            &&& 0 <= tile_col(width, pos)
            &&& tile_col(width, pos) + tile_side(width) <= width
            &&& 0 <= tile_row(width, height, pos)
            &&& tile_row(width, height, pos) + tile_side(height) <= height
        },
{
    let tw = tile_side(width);
    let th = tile_side(height);
    let k = width / tw;
    let m = height / th;
    assert(width == k * tw && height == m * th) by {
        vstd::arithmetic::div_mod::lemma_fundamental_div_mod(width, tw);
        vstd::arithmetic::div_mod::lemma_fundamental_div_mod(height, th);
        assert(width % tw == 0);
        assert(height % th == 0);
        assert(tw * k == k * tw) by (nonlinear_arith);
        assert(th * m == m * th) by (nonlinear_arith);
    }
    assert(k >= 1 && m >= 1);
    assert(width * height == (k * m) * (tw * th)) by (nonlinear_arith)
        requires
            width == k * tw,
            height == m * th,
    ;
    assert(tw * th > 0) by (nonlinear_arith)
        requires
            tw > 0,
            th > 0,
    ;
    assert(tiles_of(width, height) == k * m) by {
        vstd::arithmetic::div_mod::lemma_div_multiples_vanish(k * m, tw * th);
    }
    assert(k * m >= 1) by (nonlinear_arith)
        requires
            k >= 1,
            m >= 1,
    ;
    if pos < k * m {
        // tile `pos` is tile `c` of row `r` of tiles
        let r = pos / k;
        let c = pos % k;
        vstd::arithmetic::div_mod::lemma_fundamental_div_mod(pos, k);
        assert(pos == k * r + c);
        assert(0 <= r < m) by (nonlinear_arith)
            requires
                pos == k * r + c,
                0 <= c < k,
                0 <= pos < k * m,
        ;
        assert(pos * tw == r * width + c * tw) by (nonlinear_arith)
            requires
                pos == k * r + c,
                width == k * tw,
        ;
        assert(0 <= c * tw && c * tw + tw <= width) by (nonlinear_arith)
            requires
                0 <= c < k,
                width == k * tw,
                tw > 0,
        ;
        assert((pos * tw) % width == c * tw && (pos * tw) / width == r) by {
            vstd::arithmetic::div_mod::lemma_fundamental_div_mod_converse(
                pos * tw,
                width,
                r,
                c * tw,
            );
        }
        assert(0 <= r * th && r * th + th <= height) by (nonlinear_arith)
            requires
                0 <= r < m,
                height == m * th,
                th > 0,
        ;
        assert(0 <= pos * tw <= width * height) by (nonlinear_arith)
            requires
                pos * tw == r * width + c * tw,
                0 <= r < m,
                0 <= c * tw,
                c * tw + tw <= width,
                height == m * th,
                th >= 1,
                width > 0,
                tw > 0,
        ;
    }
}

/// Finds the side of the tiles along a side of `len` pixels.
pub fn side_of(len: usize) -> (side: usize)
    ensures
        side == tile_side(len as int),
{
    let mut side: usize = 0;
    if len % 8 == 0 {
        side = 8;
    }
    if len % 16 == 0 {
        side = 16;
    }
    if len % 24 == 0 {
        side = 24;
    }
    if len % 32 == 0 {
        side = 32;
    }
    side
}

impl FrameBuffer {
    /// Image width.
    pub closed spec fn image_width(&self) -> int {
        self.width as int
    }

    /// Image height.
    pub closed spec fn image_height(&self) -> int {
        self.height as int
    }

    /// Addresses of the two frame buffers.
    pub closed spec fn buffers(&self) -> (u64, u64) {
        (self.fb0, self.fb1)
    }

    /// Id of the next tile to draw.
    pub closed spec fn next_tile(&self) -> u64 {
        self.tnext
    }

    /// Number of tiles that were finished.
    pub closed spec fn finished(&self) -> u64 {
        self.tfinished
    }

    /// Number of tiles of a frame.
    pub open spec fn tile_count(&self) -> int {
        tiles_of(self.image_width(), self.image_height())
    }

    /// Whether the frame buffer is in a valid state.
    pub closed spec fn wf(&self) -> bool {
        &&& size_ok(self.width as int, self.height as int)
        &&& self.twidth == tile_side(self.width as int)
        &&& self.theight == tile_side(self.height as int)
        &&& self.tcount == tiles_of(self.width as int, self.height as int)
        &&& self.tcount > 0
        &&& visible(self.fb0)
        &&& visible(self.fb1)
    }

    /// Creates and initializes a new frame buffer.
    ///
    /// * `width`: Image width.
    /// * `height`: Image height.
    /// * `fb0`: Address of the first buffer, which the DMA controller can
    ///   access.
    /// * `fb1`: Address of the second buffer, likewise.
    pub fn new(width: usize, height: usize, fb0: u64, fb1: u64) -> (fb: FrameBuffer)
        requires
            size_ok(width as int, height as int),
            visible(fb0),
            visible(fb1),
        ensures
            fb.wf(),
            fb.image_width() == width,
            fb.image_height() == height,
            fb.buffers() == (fb0, fb1),
            fb.next_tile() == 0,
            fb.finished() == 0,
    {
        let twidth: usize = side_of(width);
        let theight: usize = side_of(height);
        proof {
            lemma_tiles(width as int, height as int, 0);
            assert(twidth * theight <= 1024) by (nonlinear_arith)
                requires
                    0 <= twidth <= 32,
                    0 <= theight <= 32,
            ;
        }
        let tcount: usize = width * height / (twidth * theight);
        FrameBuffer {
            fb0,
            fb1,
            width,
            height,
            twidth,
            theight,
            tcount,
            tnext: 0,
            tfinished: 0,
        }
    }

    /// Tells whether frames of the given size can be drawn in tiles.
    pub fn valid_size(width: usize, height: usize) -> (ok: bool)
        ensures
            ok == size_ok(width as int, height as int),
    {
        if width == 0 || height == 0 || side_of(width) == 0 || side_of(height) == 0 {
            return false;
        }
        match width.checked_mul(height) {
            Some(_) => true,
            None => false,
        }
    }

    /// Returns the current frame ID: the number of frames whose tiles were
    /// all finished.
    pub fn frame(&self) -> (id: u64)
        requires
            self.wf(),
        ensures
            id == self.finished() as int / self.tile_count(),
    {
        self.tfinished / self.tcount as u64
    }

    /// Creates an iterator of tiles awaiting to be drawn in the current
    /// frame.
    pub fn tiles(&self) -> (iter: FrameBufferIterator)
        requires
            self.wf(),
        ensures
            iter.frame_id() == self.finished() as int / self.tile_count(),
    {
        FrameBufferIterator::new(self)
    }

    /// Returns the DMA address of the frame buffer not currently being
    /// drawn: the first during frames with an even ID, the second during the
    /// others.
    pub fn vsync(&self) -> (addr: u64)
        requires
            self.wf(),
        ensures
            addr == translated(
                if (self.finished() as int / self.tile_count()) % 2 == 0 {
                    self.buffers().0
                } else {
                    self.buffers().1
                },
            ),
    {
        let frame: u64 = self.frame();
        if frame % 2 == 0 {
            return to_dma(self.fb0);
        }
        to_dma(self.fb1)
    }

    /// Returns the address of the frame buffer that is being drawn: the
    /// second during frames with an even ID, the first during the others.
    pub fn drawn(&self) -> (addr: u64)
        requires
            self.wf(),
        ensures
            addr == if (self.finished() as int / self.tile_count()) % 2 == 0 {
                self.buffers().1
            } else {
                self.buffers().0
            },
    {
        let frame: u64 = self.frame();
        if frame % 2 == 1 {
            return self.fb0;
        }
        self.fb1
    }

    /// Notes that a tile was finished.
    pub fn finish(&mut self)
        requires
            old(self).wf(),
            old(self).finished() < u64::MAX,
        ensures
            final(self).wf(),
            final(self).finished() == old(self).finished() + 1,
            final(self).next_tile() == old(self).next_tile(),
            final(self).image_width() == old(self).image_width(),
            final(self).image_height() == old(self).image_height(),
            final(self).buffers() == old(self).buffers(),
    {
        self.tfinished = self.tfinished + 1;
    }
}

impl FrameBufferIterator {
    /// Frame being iterated.
    pub closed spec fn frame_id(&self) -> u64 {
        self.frame
    }

    /// Creates and initializes a new iterator over the tiles of a frame
    /// buffer.
    ///
    /// * `fb`: Frame buffer that this iterator takes tiles from.
    pub fn new(fb: &FrameBuffer) -> (iter: FrameBufferIterator)
        requires
            fb.wf(),
        ensures
            iter.frame_id() == fb.finished() as int / fb.tile_count(),
    {
        FrameBufferIterator { frame: fb.frame() }
    }

    /// Takes the next tile to draw, if it belongs to the frame being
    /// iterated.
    #[verifier::rlimit(30)]
    pub fn next(&mut self, fb: &mut FrameBuffer) -> (tile: Option<Tile>)
        requires
            old(fb).wf(),
            old(fb).next_tile() < u64::MAX,
            old(fb).next_tile() <= usize::MAX,
        ensures
            final(fb).wf(),
            final(self).frame_id() == old(self).frame_id(),
            final(fb).finished() == old(fb).finished(),
            final(fb).image_width() == old(fb).image_width(),
            final(fb).image_height() == old(fb).image_height(),
            final(fb).buffers() == old(fb).buffers(),
            tile is Some <==> old(fb).next_tile() as int / old(fb).tile_count() == old(
                self,
            ).frame_id(),
            tile matches Some(t) ==> final(fb).next_tile() == old(fb).next_tile() + 1 && t
                == placed(
                old(fb).image_width(),
                old(fb).image_height(),
                old(fb).next_tile() as int,
            ),
            tile is None ==> final(fb).next_tile() == old(fb).next_tile(),
    {
        let tnext: u64 = fb.tnext;
        if tnext / fb.tcount as u64 != self.frame {
            return None;
        }
        fb.tnext = tnext + 1;
        Some(Tile::new(fb, tnext))
    }
}

/// The tile with the given ID in frames of the given size.
pub open spec fn placed(width: int, height: int, id: int) -> Tile {
    let pos = id % tiles_of(width, height);
    Tile {
        col: tile_col(width, pos) as usize,
        row: tile_row(width, height, pos) as usize,
        width: tile_side(width) as usize,
        height: tile_side(height) as usize,
    }
}

/// Index in the color buffer of a tile, which is `twidth` pixels wide, of
/// the pixel in row `r` and column `c` of the tile.
///
/// The buffer holds the pixels in quads: the rows in pairs, and of each pair
/// two pixels of the upper row, then the two pixels below them.
pub open spec fn quad_index(twidth: int, r: int, c: int) -> int {
    2 * twidth * (r / 2) + 4 * (c / 2) + 2 * (r % 2) + c % 2
}

/// The color at an index of a color buffer, black outside of it.
pub open spec fn color_at(cb: Seq<u16>, index: int) -> u16 {
    if 0 <= index < cb.len() {
        cb[index]
    } else {
        0
    }
}

/// Whether a pixel of the image lies in the tile.
pub open spec fn in_tile(tile: Tile, x: int, y: int) -> bool {
    tile.col <= x < tile.col + tile.width && tile.row <= y < tile.row + tile.height
}

/// The image after the tile was written to it: the pixels of the tile come
/// from its color buffer, the others stay.
pub open spec fn flushed(image: Seq<u16>, width: int, tile: Tile, cb: Seq<u16>) -> Seq<u16> {
    Seq::new(
        image.len(),
        |i: int|
            if in_tile(tile, i % width, i / width) {
                color_at(cb, quad_index(tile.width as int, i / width - tile.row, i % width - tile.col))
            } else {
                image[i]
            },
    )
}

/// A pixel that is given by its row and column is given by its index in the
/// image as well.
pub proof fn lemma_pixel(width: int, x: int, y: int)
    requires
        0 <= x < width,
        0 <= y,
    ensures
        (y * width + x) % width == x,
        (y * width + x) / width == y,
        y * width + x >= 0,
{
    vstd::arithmetic::div_mod::lemma_fundamental_div_mod_converse(y * width + x, width, y, x);
    assert(y * width >= 0) by (nonlinear_arith)
        requires
            y >= 0,
            width > 0,
    ;
}

/// The color that the tile gives the pixel at index `i` of an image.
pub open spec fn pixel_of(tile: Tile, width: int, cb: Seq<u16>, i: int) -> u16 {
    color_at(cb, quad_index(tile.width as int, i / width - tile.row, i % width - tile.col))
}

/// Whether the pixel at index `i` of an image lies in the `r` first rows of
/// the tile or in the `c` first columns of the row after them.
pub open spec fn written(tile: Tile, width: int, i: int, r: int, c: int) -> bool {
    in_tile(tile, i % width, i / width) && (i / width < tile.row + r || (i / width == tile.row + r
        && i % width < tile.col + c))
}

impl Tile {
    /// Writes the tile to an image of the given width, pixel by pixel from
    /// its color buffer.
    ///
    /// * `cb`: Color buffer of the tile, in quads.
    /// * `image`: The image, row by row.
    /// * `width`: Image width.
    #[verifier::loop_isolation(false)]
    #[verifier::rlimit(30)]
    pub fn flush(&self, cb: &Vec<u16>, image: &mut Vec<u16>, width: usize)
        requires
            width > 0,
            self.col + self.width <= width,
            (self.row + self.height) * width <= old(image)@.len(),
            self.width <= TILE_DIM_MAX,
            self.height <= TILE_DIM_MAX,
        ensures
            final(image)@ == flushed(old(image)@, width as int, *self, cb@),
    {
        let ghost before = image@;
        let ghost w = width as int;
        let total: usize = image.len();
        proof {
            assert(self.row + self.height <= (self.row + self.height) * width) by (nonlinear_arith)
                requires
                    width >= 1,
            ;
        }
        let mut r: usize = 0;
        while r < self.height
            invariant
                0 <= r <= self.height,
                total == before.len(),
                image@.len() == before.len(),
                forall|i: int|
                    0 <= i < before.len() ==> #[trigger] image@[i] == if written(*self, w, i, r as int, 0) {
                        pixel_of(*self, w, cb@, i)
                    } else {
                        before[i]
                    },
            decreases self.height - r,
        {
            proof {
                assert((self.row + r) * width + width <= (self.row + self.height) * width)
                    by (nonlinear_arith)
                    requires
                        r < self.height,
                ;
                assert((self.row + r) * width >= 0) by (nonlinear_arith);
            }
            let line: usize = (self.row + r) * width;
            let mut c: usize = 0;
            while c < self.width
                invariant
                    0 <= c <= self.width,
                    r < self.height,
                    line == (self.row + r) * width,
                    line + width <= before.len(),
                    image@.len() == before.len(),
                    forall|i: int|
                        0 <= i < before.len() ==> #[trigger] image@[i] == if written(
                            *self,
                            w,
                            i,
                            r as int,
                            c as int,
                        ) {
                            pixel_of(*self, w, cb@, i)
                        } else {
                            before[i]
                        },
                decreases self.width - c,
            {
                proof {
                    assert(2 * self.width * (r / 2) <= 2 * 32 * 16) by (nonlinear_arith)
                        requires
                            0 <= self.width <= 32,
                            0 <= r / 2 <= 16,
                    ;
                    assert(2 * self.width * (r / 2) >= 0) by (nonlinear_arith)
                        requires
                            0 <= self.width,
                            0 <= r / 2,
                    ;
                }
                let index: usize = 2 * self.width * (r / 2) + 4 * (c / 2) + 2 * (r % 2) + c % 2;
                let color: u16 = if index < cb.len() {
                    cb[index]
                } else {
                    0
                };
                let at: usize = line + self.col + c;
                let ghost earlier = image@;
                image[at] = color;
                proof {
                    lemma_pixel(w, (self.col + c) as int, (self.row + r) as int);
                    assert forall|i: int| 0 <= i < before.len() implies #[trigger] image@[i] == if written(
                        *self,
                        w,
                        i,
                        r as int,
                        c + 1,
                    ) {
                        pixel_of(*self, w, cb@, i)
                    } else {
                        before[i]
                    } by {
                        vstd::arithmetic::div_mod::lemma_fundamental_div_mod(i, w);
                        if i != at {
                            assert(image@[i] == earlier[i]);
                            assert(written(*self, w, i, r as int, c + 1) == written(
                                *self,
                                w,
                                i,
                                r as int,
                                c as int,
                            )) by {
                                if i / w == self.row + r && i % w == self.col + c {
                                    assert(w * (i / w) == (self.row + r) * w) by (nonlinear_arith)
                                        requires
                                            i / w == self.row + r,
                                    ;
                                }
                            }
                        }
                    }
                }
                c = c + 1;
            }
            proof {
                assert forall|i: int| 0 <= i < before.len() implies written(
                    *self,
                    w,
                    i,
                    r as int,
                    self.width as int,
                ) == written(*self, w, i, r + 1, 0) by {}
            }
            r = r + 1;
        }
        assert(image@ =~= flushed(before, w, *self, cb@));
    }

    /// Creates and initializes a new tile.
    ///
    /// * `fb`: Frame buffer that this tile represents.
    /// * `id`: ID of the tile.
    #[verifier::rlimit(30)]
    pub fn new(fb: &FrameBuffer, id: u64) -> (tile: Tile)
        requires
            fb.wf(),
            id <= usize::MAX,
        ensures
            tile == placed(fb.image_width(), fb.image_height(), id as int),
            tile.col + tile.width <= fb.image_width(),
            tile.row + tile.height <= fb.image_height(),
    {
        let pos: usize = id as usize % fb.tcount;
        proof {
            lemma_tiles(fb.width as int, fb.height as int, pos as int);
        }
        let col: usize = pos * fb.twidth % fb.width;
        let row: usize = pos * fb.twidth / fb.width * fb.theight;
        Tile { col, row, width: fb.twidth, height: fb.theight }
    }

    /// Index of the pixel at which the tile starts in a frame buffer of the
    /// given width.
    pub fn offset(&self, width: usize) -> (at: usize)
        requires
            self.row * width + self.col <= usize::MAX,
        ensures
            at == self.row * width + self.col,
    {
        proof {
            assert(self.row * width >= 0) by (nonlinear_arith)
                requires
                    self.row >= 0,
                    width >= 0,
            ;
        }
        self.row * width + self.col
    }
}

} // verus!

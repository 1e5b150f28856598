//! The decoded image: a grid of RGBA pixels, eight bits per channel, stored
//! row by row in one buffer of bytes.

use vstd::prelude::*;
use vstd::slice::slice_to_vec;
use crate::partition::RowRange;

verus! {

/// One pixel: red, green, blue and alpha.
#[derive(Clone, Copy, Debug, PartialEq, Eq, Structural)]
pub struct Pixel {
    pub r: u8,
    pub g: u8,
    pub b: u8,
    pub a: u8,
}

impl Pixel {
    /// A pixel is opaque unless its alpha channel is exactly zero.
    pub open spec fn opaque(self) -> bool {
        self.a != 0
    }

    /// Whether the pixel counts as opaque: any alpha but zero.
    pub fn is_opaque(&self) -> (b: bool)
        ensures
            b == self.opaque(),
    {
        self.a != 0
    }
}

/// The most pixels a grid may hold. With no more than this many pixels the
/// sum of one channel over all of them fits in 64 bits.
pub const MAX_PIXELS: u64 = 0x0101_0101_0101_0101;

/// The pixel whose four bytes start at byte `4 * k` of `bytes`.
pub open spec fn pixel_at(bytes: Seq<u8>, k: int) -> Pixel {
    Pixel { r: bytes[4 * k], g: bytes[4 * k + 1], b: bytes[4 * k + 2], a: bytes[4 * k + 3] }
}

/// `bytes` with the four bytes of pixel `k` replaced by the channels of `p`.
pub open spec fn with_pixel(bytes: Seq<u8>, k: int, p: Pixel) -> Seq<u8> {
    bytes.update(4 * k, p.r).update(4 * k + 1, p.g).update(4 * k + 2, p.b).update(4 * k + 3, p.a)
}

/// What a grid is: its dimensions and its bytes, four per pixel, the rows
/// one after another from the top.
pub struct GridModel {
    pub width: int,
    pub height: int,
    pub pixels: Seq<u8>,
}

impl GridModel {
    /// How many pixels the grid has.
    pub open spec fn pixel_count(self) -> int {
        self.width * self.height
    }

    /// The buffer holds exactly four bytes for each pixel, and the grid is
    /// no larger than `MAX_PIXELS`.
    pub open spec fn wf(self) -> bool {
        &&& 0 <= self.width <= u32::MAX
        &&& 0 <= self.height <= u32::MAX
        &&& self.pixel_count() <= MAX_PIXELS
        &&& self.pixels.len() == self.pixel_count() * 4
    }

    /// Whether `(x, y)` names a pixel of the grid.
    pub open spec fn in_bounds(self, x: int, y: int) -> bool {
        0 <= x < self.width && 0 <= y < self.height
    }

    /// The place of pixel `(x, y)` when the pixels are counted row by row.
    pub open spec fn index_of(self, x: int, y: int) -> int {
        y * self.width + x
    }

    /// The pixel at `(x, y)`.
    pub open spec fn pixel(self, x: int, y: int) -> Pixel {
        pixel_at(self.pixels, self.index_of(x, y))
    }
}

/// A pixel inside the grid has its four bytes inside the buffer.
pub proof fn lemma_index_in_buffer(g: GridModel, x: int, y: int)
    requires
        g.wf(),
        g.in_bounds(x, y),
    ensures
        0 <= g.index_of(x, y) < g.pixel_count(),
        4 * g.index_of(x, y) + 3 < g.pixels.len(),
{
    assert(0 <= y * g.width + x < g.width * g.height) by (nonlinear_arith)
        requires
            0 <= x < g.width,
            0 <= y < g.height,
    ;
}

/// Whole rows of a grid lie inside its buffer: `4 * width * y` is no more
/// than the length of the buffer for every `y` up to `height`, and grows
/// with `y`.
pub proof fn lemma_row_offsets(g: GridModel, y0: int, y1: int)
    requires
        g.wf(),
        0 <= y0 <= y1 <= g.height,
    ensures
        0 <= y0 * g.width <= y1 * g.width <= g.pixel_count(),
        0 <= y0 * g.width * 4 <= y1 * g.width * 4 <= g.pixels.len(),
{
    assert(0 <= y0 * g.width <= y1 * g.width <= g.width * g.height) by (nonlinear_arith)
        requires
            0 <= g.width,
            0 <= y0 <= y1 <= g.height,
    ;
}

/// An image in memory.
#[derive(Debug)]
pub struct PixelGrid {
    width: u32,
    height: u32,
    pixels: Vec<u8>,
}

impl View for PixelGrid {
    type V = GridModel;

    closed spec fn view(&self) -> GridModel {
        GridModel { width: self.width as int, height: self.height as int, pixels: self.pixels@ }
    }
}

impl Clone for PixelGrid {
    fn clone(&self) -> (copy: Self)
        ensures
            copy@ == self@,
    {
        PixelGrid {
            width: self.width,
            height: self.height,
            pixels: slice_to_vec(self.pixels.as_slice()),
        }
    }
}

impl PartialEq for PixelGrid {
    fn eq(&self, other: &PixelGrid) -> (equal: bool) {
        let equal = self.width == other.width && self.height == other.height && self.pixels
            == other.pixels;
        proof {
            if equal {
                assert(self.pixels@ =~= other.pixels@);
            }
        }
        equal
    }
}

impl Eq for PixelGrid {

}

impl vstd::std_specs::cmp::PartialEqSpecImpl for PixelGrid {
    open spec fn obeys_eq_spec() -> bool {
        true
    }

    /// Two grids are equal if they have the same dimensions and the same
    /// bytes.
    open spec fn eq_spec(&self, other: &PixelGrid) -> bool {
        self@ == other@
    }
}

impl PixelGrid {
    /// Whether the grid is well formed; every grid that this module hands
    /// out is.
    pub open spec fn wf(&self) -> bool {
        self@.wf()
    }

    /// Makes a grid of `width` by `height` pixels out of a buffer of bytes.
    ///
    /// The buffer must hold exactly four bytes per pixel, and there may be
    /// no more than `MAX_PIXELS` pixels; else there is no such grid.
    pub fn from_raw(width: u32, height: u32, pixels: Vec<u8>) -> (grid: Option<PixelGrid>)
        ensures
            grid.is_some() <==> (GridModel {
                width: width as int,
                height: height as int,
                pixels: pixels@,
            }).wf(),
            grid matches Some(g) ==> g@ == (GridModel {
                width: width as int,
                height: height as int,
                pixels: pixels@,
            }),
    {
        assert(width * height <= u64::MAX) by (nonlinear_arith)
            requires
                width <= u32::MAX,
                height <= u32::MAX,
        ;
        let count: u64 = (width as u64) * (height as u64);
        if count > MAX_PIXELS {
            return None;
        }
        if pixels.len() as u64 != count * 4 {
            return None;
        }
        Some(PixelGrid { width, height, pixels })
    }

    /// The number of pixels in a row.
    pub fn width(&self) -> (w: u32)
        ensures
            w == self@.width,
    {
        self.width
    }

    /// The number of rows.
    pub fn height(&self) -> (h: u32)
        ensures
            h == self@.height,
    {
        self.height
    }

    /// The number of pixels.
    pub fn pixel_count(&self) -> (n: u64)
        ensures
            n == self@.pixel_count(),
    {
        assert(self.width * self.height <= u64::MAX) by (nonlinear_arith)
            requires
                self.width <= u32::MAX,
                self.height <= u32::MAX,
        ;
        (self.width as u64) * (self.height as u64)
    }

    /// The bytes of the grid, four per pixel, row by row.
    pub fn as_bytes(&self) -> (bytes: &[u8])
        ensures
            bytes@ == self@.pixels,
    {
        self.pixels.as_slice()
    }

    /// Gives up the grid for its buffer.
    pub fn into_raw(self) -> (bytes: Vec<u8>)
        ensures
            bytes@ == self@.pixels,
    {
        self.pixels
    }

    /// Reads the pixel at `(x, y)`, if the grid has one there.
    pub fn get_pixel(&self, x: u32, y: u32) -> (p: Option<Pixel>)
        requires
            self.wf(),
        ensures
            p == if self@.in_bounds(x as int, y as int) {
                Some(self@.pixel(x as int, y as int))
            } else {
                None::<Pixel>
            },
    {
        if x >= self.width || y >= self.height {
            return None;
        }
        proof {
            assert(self.pixels@.len() == self.pixels.len());
            lemma_index_in_buffer(self@, x as int, y as int);
            lemma_row_offsets(self@, y as int, y as int);
        }
        let k: usize = ((y as usize) * (self.width as usize) + (x as usize)) * 4;
        Some(
            Pixel {
                r: self.pixels[k],
                g: self.pixels[k + 1],
                b: self.pixels[k + 2],
                a: self.pixels[k + 3],
            },
        )
    }

    /// Writes `pixel` at `(x, y)` and says whether the grid has a pixel
    /// there; if it has none, nothing is written.
    pub fn put_pixel(&mut self, x: u32, y: u32, pixel: Pixel) -> (written: bool)
        requires
            old(self).wf(),
        ensures
            final(self).wf(),
            written == old(self)@.in_bounds(x as int, y as int),
            final(self)@.width == old(self)@.width,
            final(self)@.height == old(self)@.height,
            final(self)@.pixels == if written {
                with_pixel(old(self)@.pixels, old(self)@.index_of(x as int, y as int), pixel)
            } else {
                old(self)@.pixels
            },
    {
        if x >= self.width || y >= self.height {
            return false;
        }
        proof {
            assert(self.pixels@.len() == self.pixels.len());
            lemma_index_in_buffer(self@, x as int, y as int);
            lemma_row_offsets(self@, y as int, y as int);
        }
        let k: usize = ((y as usize) * (self.width as usize) + (x as usize)) * 4;
        self.pixels[k] = pixel.r;
        self.pixels[k + 1] = pixel.g;
        self.pixels[k + 2] = pixel.b;
        self.pixels[k + 3] = pixel.a;
        true
    }

    /// Where the rows of `range` lie in the buffer: the offset of the first
    /// byte of row `range.start` and the offset just past the last byte of
    /// row `range.end - 1`. There are none if the range runs backwards or
    /// past the last row.
    pub fn band_bounds(&self, range: RowRange) -> (bounds: Option<(usize, usize)>)
        requires
            self.wf(),
        ensures
            bounds.is_some() <==> range.start <= range.end <= self@.height,
            bounds matches Some((lo, hi)) ==> lo == range.start * self@.width * 4 && hi == range.end
                * self@.width * 4 && lo <= hi <= self@.pixels.len(),
    {
        if range.start > range.end || range.end > self.height {
            return None;
        }
        proof {
            assert(self.pixels@.len() == self.pixels.len());
            lemma_row_offsets(self@, range.start as int, range.end as int);
        }
        let lo: usize = (range.start as usize) * (self.width as usize) * 4;
        let hi: usize = (range.end as usize) * (self.width as usize) * 4;
        Some((lo, hi))
    }
}

} // verus!

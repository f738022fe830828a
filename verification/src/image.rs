//! Fixed-point pixel grids.
//!
//! Pixels carry three linear-luminance channels.  A channel value `v` stands
//! for the luminance `v / CHANNEL_ONE`, so `0` is black and `CHANNEL_ONE` is
//! full brightness; values are always clamped into that range.  Rendering
//! kernels quantise their floating-point output into this representation at
//! the library boundary, and everything the library proves about images is
//! exact arithmetic over these integers.

use vstd::prelude::*;

verus! {

/// Channel value that stands for luminance `1.0`.
pub const CHANNEL_ONE: u32 = 65536;

/// One pixel: red, green and blue channels, each in `0 ..= CHANNEL_ONE`.
#[derive(Debug, Clone, Copy, PartialEq, Eq, Structural)]
pub struct Pixel {
    pub r: u32,
    pub g: u32,
    pub b: u32,
}

impl Pixel {
    /// All channels within the unit range.
    pub open spec fn wf(self) -> bool {
        self.r <= CHANNEL_ONE && self.g <= CHANNEL_ONE && self.b <= CHANNEL_ONE
    }

    /// The channel-wise clamp of `self` into the unit range.
    pub open spec fn spec_clamped(self) -> Pixel {
        Pixel {
            r: if self.r <= CHANNEL_ONE { self.r } else { CHANNEL_ONE },
            g: if self.g <= CHANNEL_ONE { self.g } else { CHANNEL_ONE },
            b: if self.b <= CHANNEL_ONE { self.b } else { CHANNEL_ONE },
        }
    }

    /// Clamp every channel into the unit range.
    pub fn clamped(self) -> (p: Pixel)
        ensures
            p == self.spec_clamped(),
            p.wf(),
    {
        Pixel {
            r: if self.r <= CHANNEL_ONE { self.r } else { CHANNEL_ONE },
            g: if self.g <= CHANNEL_ONE { self.g } else { CHANNEL_ONE },
            b: if self.b <= CHANNEL_ONE { self.b } else { CHANNEL_ONE },
        }
    }
}

/// A rectangular grid of pixels, stored row-major.
#[derive(Debug, Clone)]
pub struct Image {
    width: usize,
    height: usize,
    data: Vec<Pixel>,
}

/// A tile is a small image rendered by one worker and spliced into the
/// accumulator by the scheduler.
pub type Tile = Image;

impl Image {
    /// Structural invariant: a non-empty grid whose buffer matches its
    /// extent and whose pixels are all in range.
    pub closed spec fn wf(self) -> bool {
        &&& 1 <= self.width
        &&& 1 <= self.height
        &&& self.data@.len() == self.width * self.height
        &&& forall|i: int| 0 <= i < self.data@.len() ==> (#[trigger] self.data@[i]).wf()
    }

    /// The pixel at column `x`, row `y`.
    pub closed spec fn spec_at(self, x: int, y: int) -> Pixel {
        self.data@[y * self.width + x]
    }

    pub closed spec fn spec_width(self) -> int {
        self.width as int
    }

    pub closed spec fn spec_height(self) -> int {
        self.height as int
    }

    /// A black image of the given extent.
    pub fn new(extent: (usize, usize)) -> (img: Image)
        requires
            1 <= extent.0,
            1 <= extent.1,
            extent.0 * extent.1 <= usize::MAX,
        ensures
            img.wf(),
            img.spec_width() == extent.0,
            img.spec_height() == extent.1,
            forall|x: int, y: int|
                0 <= x < extent.0 && 0 <= y < extent.1 ==> img.spec_at(x, y) == (Pixel {
                    r: 0,
                    g: 0,
                    b: 0,
                }),
    {
        let n: usize = extent.0 * extent.1;
        let mut data: Vec<Pixel> = Vec::new();
        let mut i: usize = 0;
        while i < n
            invariant
                data@.len() == i,
                i <= n,
                forall|j: int| 0 <= j < i ==> data@[j] == (Pixel { r: 0, g: 0, b: 0 }),
            decreases n - i,
        {
            data.push(Pixel { r: 0, g: 0, b: 0 });
            i = i + 1;
        }
        let img = Image { width: extent.0, height: extent.1, data };
        proof {
            assert forall|x: int, y: int|
                0 <= x < extent.0 && 0 <= y < extent.1 implies img.spec_at(x, y) == (Pixel {
                r: 0,
                g: 0,
                b: 0,
            }) by {
                lemma_row_major_index_in_range(extent.0 as int, extent.1 as int, x, y);
            }
        }
        img
    }

    /// Width and height in pixels.
    pub fn size(&self) -> (s: (usize, usize))
        ensures
            s.0 as int == self.spec_width(),
            s.1 as int == self.spec_height(),
    {
        (self.width, self.height)
    }

    pub fn width(&self) -> (w: usize)
        ensures
            w as int == self.spec_width(),
    {
        self.width
    }

    pub fn height(&self) -> (h: usize)
        ensures
            h as int == self.spec_height(),
    {
        self.height
    }

    /// Read the pixel at `(x, y)`.
    pub fn get(&self, x: usize, y: usize) -> (p: Pixel)
        requires
            self.wf(),
            x < self.spec_width(),
            y < self.spec_height(),
        ensures
            p == self.spec_at(x as int, y as int),
            p.wf(),
    {
        proof {
            lemma_row_major_index_in_range(
                self.spec_width(),
                self.spec_height(),
                x as int,
                y as int,
            );
        }
        let _buffer_len: usize = self.data.len();
        self.data[y * self.width + x]
    }

    /// Write the pixel at `(x, y)`, clamping every channel into the unit
    /// range.  No other pixel changes.
    pub fn set(&mut self, x: usize, y: usize, value: Pixel)
        requires
            old(self).wf(),
            x < old(self).spec_width(),
            y < old(self).spec_height(),
        ensures
            final(self).wf(),
            final(self).spec_width() == old(self).spec_width(),
            final(self).spec_height() == old(self).spec_height(),
            final(self).spec_at(x as int, y as int) == value.spec_clamped(),
            forall|i: int, j: int|
                0 <= i < old(self).spec_width() && 0 <= j < old(self).spec_height() && !(i == x
                    && j == y) ==> final(self).spec_at(i, j) == old(self).spec_at(i, j),
    {
        proof {
            lemma_row_major_index_in_range(
                self.spec_width(),
                self.spec_height(),
                x as int,
                y as int,
            );
        }
        let _buffer_len: usize = self.data.len();
        let idx: usize = y * self.width + x;
        self.data[idx] = value.clamped();
        proof {
            assert forall|i: int, j: int|
                0 <= i < old(self).spec_width() && 0 <= j < old(self).spec_height() && !(i == x
                    && j == y) implies self.spec_at(i, j) == old(self).spec_at(i, j) by {
                lemma_row_major_index_in_range(
                    old(self).spec_width(),
                    old(self).spec_height(),
                    i,
                    j,
                );
                if j * old(self).spec_width() + i == y * old(self).spec_width() + x {
                    lemma_row_major_index_injective(
                        old(self).spec_width(),
                        old(self).spec_height(),
                        i,
                        j,
                        x as int,
                        y as int,
                    );
                }
            }
        }
    }
}

impl Image {
    /// Overwrite the rectangle starting at `pos` with the pixels of
    /// `tile`, which must fit inside this image.  Pixels outside the
    /// rectangle do not change.
    pub fn insert_tile(&mut self, tile: &Tile, pos: (usize, usize))
        requires
            old(self).wf(),
            tile.wf(),
            pos.0 + tile.spec_width() <= old(self).spec_width(),
            pos.1 + tile.spec_height() <= old(self).spec_height(),
        ensures
            final(self).wf(),
            final(self).spec_width() == old(self).spec_width(),
            final(self).spec_height() == old(self).spec_height(),
            forall|x: int, y: int|
                pos.0 <= x < pos.0 + tile.spec_width() && pos.1 <= y < pos.1 + tile.spec_height()
                    ==> final(self).spec_at(x, y) == tile.spec_at(x - pos.0, y - pos.1),
            forall|x: int, y: int|
                0 <= x < old(self).spec_width() && 0 <= y < old(self).spec_height() && !(pos.0 <= x
                    < pos.0 + tile.spec_width() && pos.1 <= y < pos.1 + tile.spec_height())
                    ==> final(self).spec_at(x, y) == old(self).spec_at(x, y),
    {
        let tw = tile.width();
        let th = tile.height();
        let mut ty: usize = 0;
        while ty < th
            invariant
                self.wf(),
                tile.wf(),
                tw as int == tile.spec_width(),
                th as int == tile.spec_height(),
                ty <= th,
                self.spec_width() == old(self).spec_width(),
                self.spec_height() == old(self).spec_height(),
                pos.0 + tw <= self.spec_width(),
                pos.1 + th <= self.spec_height(),
                forall|x: int, y: int|
                    pos.0 <= x < pos.0 + tw && pos.1 <= y < pos.1 + ty
                        ==> #[trigger] self.spec_at(x, y) == tile.spec_at(x - pos.0, y - pos.1),
                forall|x: int, y: int|
                    0 <= x < self.spec_width() && 0 <= y < self.spec_height() && !(pos.0 <= x
                        < pos.0 + tw && pos.1 <= y < pos.1 + ty) ==> #[trigger] self.spec_at(x, y)
                        == old(self).spec_at(x, y),
            decreases th - ty,
        {
            let mut tx: usize = 0;
            while tx < tw
                invariant
                    self.wf(),
                    tile.wf(),
                    tw as int == tile.spec_width(),
                    th as int == tile.spec_height(),
                    ty < th,
                    tx <= tw,
                    self.spec_width() == old(self).spec_width(),
                    self.spec_height() == old(self).spec_height(),
                    pos.0 + tw <= self.spec_width(),
                    pos.1 + th <= self.spec_height(),
                    forall|x: int, y: int|
                        (pos.0 <= x < pos.0 + tw && pos.1 <= y < pos.1 + ty) || (pos.0 <= x < pos.0
                            + tx && y == pos.1 + ty) ==> #[trigger] self.spec_at(x, y)
                            == tile.spec_at(x - pos.0, y - pos.1),
                    forall|x: int, y: int|
                        0 <= x < self.spec_width() && 0 <= y < self.spec_height() && !((pos.0 <= x
                            < pos.0 + tw && pos.1 <= y < pos.1 + ty) || (pos.0 <= x < pos.0 + tx
                            && y == pos.1 + ty)) ==> #[trigger] self.spec_at(x, y) == old(
                            self,
                        ).spec_at(x, y),
                decreases tw - tx,
            {
                let p = tile.get(tx, ty);
                proof {
                    assert(p.spec_clamped() == p);
                }
                self.set(pos.0 + tx, pos.1 + ty, p);
                tx = tx + 1;
            }
            ty = ty + 1;
        }
    }

    /// The pixel contents as one row-major sequence.
    pub closed spec fn spec_pixels(self) -> Seq<Pixel> {
        self.data@
    }

    /// Read a pixel by its row-major buffer index.
    pub fn pixel_row_major(&self, i: usize) -> (p: Pixel)
        requires
            self.wf(),
            i < self.spec_width() * self.spec_height(),
        ensures
            p == self.spec_pixels()[i as int],
            p.wf(),
    {
        let _buffer_len: usize = self.data.len();
        self.data[i]
    }

    /// Assemble an image directly from its extent and row-major pixels.
    pub fn from_pixels(extent: (usize, usize), pixels: Vec<Pixel>) -> (img: Image)
        requires
            1 <= extent.0,
            1 <= extent.1,
            pixels@.len() == extent.0 * extent.1,
            forall|i: int| 0 <= i < pixels@.len() ==> (#[trigger] pixels@[i]).wf(),
        ensures
            img.wf(),
            img.spec_width() == extent.0,
            img.spec_height() == extent.1,
            img.spec_pixels() == pixels@,
    {
        Image { width: extent.0, height: extent.1, data: pixels }
    }
}

/// The row-major pixel sequence of a well-formed image, related to its
/// per-coordinate contents.
pub proof fn lemma_image_pixels(img: Image)
    requires
        img.wf(),
    ensures
        img.spec_pixels().len() == img.spec_width() * img.spec_height(),
        img.spec_width() * img.spec_height() <= usize::MAX,
        forall|i: int|
            0 <= i < img.spec_pixels().len() ==> (#[trigger] img.spec_pixels()[i]).wf(),
        forall|x: int, y: int|
            0 <= x < img.spec_width() && 0 <= y < img.spec_height() ==> #[trigger] img.spec_at(x, y)
                == img.spec_pixels()[y * img.spec_width() + x],
{
    vstd::std_specs::vec::axiom_spec_len(&img.data);
    assert forall|x: int, y: int|
        0 <= x < img.spec_width() && 0 <= y < img.spec_height() implies #[trigger] img.spec_at(
        x,
        y,
    ) == img.spec_pixels()[y * img.spec_width() + x] by {
        lemma_row_major_index_in_range(img.spec_width(), img.spec_height(), x, y);
    }
}

/// Every pixel of a well-formed image has its channels in the unit range.
pub proof fn lemma_image_pixel_wf(img: Image, x: int, y: int)
    requires
        img.wf(),
        0 <= x < img.spec_width(),
        0 <= y < img.spec_height(),
    ensures
        img.spec_at(x, y).wf(),
{
    lemma_row_major_index_in_range(img.spec_width(), img.spec_height(), x, y);
}

/// In a `w`-wide row-major grid the cell `(x, y)` lies inside the buffer.
pub proof fn lemma_row_major_index_in_range(w: int, h: int, x: int, y: int)
    requires
        1 <= w,
        1 <= h,
        0 <= x < w,
        0 <= y < h,
    ensures
        0 <= y * w + x < w * h,
{
    assert(0 <= y * w + x < w * h) by (nonlinear_arith)
        requires
            1 <= w,
            1 <= h,
            0 <= x < w,
            0 <= y < h,
    ;
}

/// Distinct cells of a row-major grid have distinct buffer indices.
pub proof fn lemma_row_major_index_injective(w: int, h: int, x1: int, y1: int, x2: int, y2: int)
    requires
        1 <= w,
        1 <= h,
        0 <= x1 < w,
        0 <= y1 < h,
        0 <= x2 < w,
        0 <= y2 < h,
        y1 * w + x1 == y2 * w + x2,
    ensures
        x1 == x2 && y1 == y2,
{
    assert(x1 == x2 && y1 == y2) by (nonlinear_arith)
        requires
            1 <= w,
            0 <= x1 < w,
            0 <= x2 < w,
            y1 * w + x1 == y2 * w + x2,
    ;
}

} // verus!

//! The progressive accumulator.
//!
//! Each pixel of the accumulator represents the average luminance of every
//! sample that has ever been folded into it.  Rather than storing that
//! average (which would force rounding on every pass), the accumulator
//! stores, per channel, the exact *sum* of the accumulated per-sample
//! values, together with the shared sample count `times_sampled`.  The
//! represented average of a channel with sum `m` is the exact rational
//!
//! ```text
//!     m / (max(times_sampled, 1) * CHANNEL_ONE)
//! ```
//!
//! A tile rendered with `s` samples per pixel carries per-pixel *averages*
//! in `0 ..= CHANNEL_ONE`; splicing it adds `s` times those averages to the
//! sums.  When `times_sampled` is zero the pixel instead holds a plain
//! display colour (set by `clear`) which the first splice discards, so the
//! cleared colour never biases a later render.
//!
//! With this representation the progressive weighted average of the
//! scheduler, `out = current·P/(P+S) + new·S/(P+S)`, holds exactly, with no
//! floating-point error term; see `lemma_splice_is_weighted_average` in the
//! scheduler module.

use vstd::prelude::*;

use crate::image::CHANNEL_ONE;
use crate::image::Pixel;
use crate::image::Tile;
use crate::image::lemma_row_major_index_in_range;
use crate::image::lemma_row_major_index_injective;
use crate::math::is_sqrt_floor;
use crate::math::isqrt_small;

verus! {

/// Largest sample count the accumulator accepts.  Keeps every channel sum
/// below `2^46`, far from overflowing its 64-bit word.
pub const TIMES_SAMPLED_LIMIT: usize = 0x40000000;

/// Accumulated channel sums of one pixel.
#[derive(Debug, Clone, Copy, PartialEq, Eq, Structural)]
pub struct SampleSum {
    pub r: u64,
    pub g: u64,
    pub b: u64,
}

impl SampleSum {
    /// Every channel bounded by `bound`.
    pub open spec fn bounded(self, bound: int) -> bool {
        self.r <= bound && self.g <= bound && self.b <= bound
    }
}

/// Image accumulator: a pixel grid of exact channel sums plus the number of
/// samples that have been averaged into every pixel so far.
#[derive(Debug, Clone)]
pub struct AccumulatedImage {
    width: usize,
    height: usize,
    times_sampled: usize,
    sums: Vec<SampleSum>,
}

impl AccumulatedImage {
    /// Structural invariant: a non-empty grid whose buffer matches its
    /// extent, small enough that three bytes per pixel still fit in a
    /// vector, with the sample count below the fixed limit.
    pub closed spec fn wf(self) -> bool {
        &&& 1 <= self.width
        &&& 1 <= self.height
        &&& self.sums@.len() == self.width * self.height
        &&& self.width * self.height * 3 <= usize::MAX
        &&& self.times_sampled <= TIMES_SAMPLED_LIMIT
    }

    /// The denominator of the represented averages: one `CHANNEL_ONE` per
    /// accumulated sample, or a single `CHANNEL_ONE` while no sample has
    /// been accumulated (then the sums hold a plain display colour).
    pub open spec fn spec_denom(self) -> int {
        if self.spec_times_sampled() == 0 {
            CHANNEL_ONE as int
        } else {
            self.spec_times_sampled() * CHANNEL_ONE
        }
    }

    /// Every channel sum is at most the denominator, i.e. every represented
    /// average lies in the unit range.  Holds between renders; a splice
    /// raises sums above it until `advance_times_sampled` restores it.
    pub open spec fn calibrated(self) -> bool {
        forall|x: int, y: int|
            0 <= x < self.spec_width() && 0 <= y < self.spec_height() ==> (
            #[trigger] self.spec_sum_at(x, y)).bounded(self.spec_denom())
    }

    pub closed spec fn spec_width(self) -> int {
        self.width as int
    }

    pub closed spec fn spec_height(self) -> int {
        self.height as int
    }

    pub closed spec fn spec_times_sampled(self) -> int {
        self.times_sampled as int
    }

    /// The channel sums of the pixel at `(x, y)`.
    pub closed spec fn spec_sum_at(self, x: int, y: int) -> SampleSum {
        self.sums@[y * self.width + x]
    }

    /// A fresh accumulator: black pixels, nothing sampled yet.
    pub fn new(extent: (usize, usize)) -> (img: AccumulatedImage)
        requires
            1 <= extent.0,
            1 <= extent.1,
            extent.0 * extent.1 * 3 <= usize::MAX,
        ensures
            img.wf(),
            img.calibrated(),
            img.spec_width() == extent.0,
            img.spec_height() == extent.1,
            img.spec_times_sampled() == 0,
            forall|x: int, y: int|
                0 <= x < extent.0 && 0 <= y < extent.1 ==> #[trigger] img.spec_sum_at(x, y)
                    == (SampleSum { r: 0, g: 0, b: 0 }),
    {
        let n: usize = extent.0 * extent.1;
        let mut sums: Vec<SampleSum> = Vec::new();
        let mut i: usize = 0;
        while i < n
            invariant
                sums@.len() == i,
                i <= n,
                forall|j: int| 0 <= j < i ==> sums@[j] == (SampleSum { r: 0, g: 0, b: 0 }),
            decreases n - i,
        {
            sums.push(SampleSum { r: 0, g: 0, b: 0 });
            i = i + 1;
        }
        let img = AccumulatedImage { width: extent.0, height: extent.1, times_sampled: 0, sums };
        proof {
            assert forall|x: int, y: int|
                0 <= x < extent.0 && 0 <= y < extent.1 implies #[trigger] img.spec_sum_at(x, y)
                == (SampleSum { r: 0, g: 0, b: 0 }) by {
                lemma_row_major_index_in_range(extent.0 as int, extent.1 as int, x, y);
            }
        }
        img
    }

    /// Width and height in pixels.
    pub fn size(&self) -> (s: (usize, usize))
        ensures
            s.0 as int == self.spec_width(),
            s.1 as int == self.spec_height(),
    {
        (self.width, self.height)
    }

    pub fn width(&self) -> (w: usize)
        ensures
            w as int == self.spec_width(),
    {
        self.width
    }

    pub fn height(&self) -> (h: usize)
        ensures
            h as int == self.spec_height(),
    {
        self.height
    }

    /// How many samples have been averaged into every pixel.
    pub fn times_sampled(&self) -> (t: usize)
        ensures
            t as int == self.spec_times_sampled(),
    {
        self.times_sampled
    }

    /// Throw the contents away and start over with a black framebuffer of
    /// the given extent.
    pub fn resize(&mut self, extent: (usize, usize))
        requires
            1 <= extent.0,
            1 <= extent.1,
            extent.0 * extent.1 * 3 <= usize::MAX,
        ensures
            final(self).wf(),
            final(self).calibrated(),
            final(self).spec_width() == extent.0,
            final(self).spec_height() == extent.1,
            final(self).spec_times_sampled() == 0,
            forall|x: int, y: int|
                0 <= x < extent.0 && 0 <= y < extent.1 ==> #[trigger] final(self).spec_sum_at(x, y)
                    == (SampleSum { r: 0, g: 0, b: 0 }),
    {
        *self = AccumulatedImage::new(extent);
    }

    /// Fill every pixel with the display colour `c` (clamped) and reset the
    /// sample count to zero.
    pub fn clear(&mut self, c: Pixel)
        requires
            old(self).wf(),
        ensures
            final(self).wf(),
            final(self).calibrated(),
            final(self).spec_width() == old(self).spec_width(),
            final(self).spec_height() == old(self).spec_height(),
            final(self).spec_times_sampled() == 0,
            forall|x: int, y: int|
                0 <= x < old(self).spec_width() && 0 <= y < old(self).spec_height()
                    ==> #[trigger] final(self).spec_sum_at(x, y) == (SampleSum {
                    r: c.spec_clamped().r as u64,
                    g: c.spec_clamped().g as u64,
                    b: c.spec_clamped().b as u64,
                }),
    {
        let cc = c.clamped();
        let fill = SampleSum { r: cc.r as u64, g: cc.g as u64, b: cc.b as u64 };
        let n: usize = self.sums.len();
        let mut sums: Vec<SampleSum> = Vec::new();
        let mut i: usize = 0;
        while i < n
            invariant
                sums@.len() == i,
                i <= n,
                forall|j: int| 0 <= j < i ==> sums@[j] == fill,
            decreases n - i,
        {
            sums.push(fill);
            i = i + 1;
        }
        self.sums = sums;
        self.times_sampled = 0;
        proof {
            assert forall|x: int, y: int|
                0 <= x < old(self).spec_width() && 0 <= y < old(self).spec_height()
                    implies #[trigger] self.spec_sum_at(x, y) == fill by {
                lemma_row_major_index_in_range(self.spec_width(), self.spec_height(), x, y);
            }
        }
    }

    /// The accumulated channel sums of the pixel at `(x, y)`.
    pub fn get(&self, x: usize, y: usize) -> (s: SampleSum)
        requires
            self.wf(),
            x < self.spec_width(),
            y < self.spec_height(),
        ensures
            s == self.spec_sum_at(x as int, y as int),
    {
        proof {
            lemma_row_major_index_in_range(
                self.spec_width(),
                self.spec_height(),
                x as int,
                y as int,
            );
        }
        let _buffer_len: usize = self.sums.len();
        self.sums[y * self.width + x]
    }

    /// Overwrite the represented average of the pixel at `(x, y)` with the
    /// colour `c` (clamped): its sums become `c`'s channels times the
    /// current per-sample denominator.  No other pixel changes.
    pub fn set(&mut self, x: usize, y: usize, c: Pixel)
        requires
            old(self).wf(),
            x < old(self).spec_width(),
            y < old(self).spec_height(),
        ensures
            final(self).wf(),
            final(self).spec_width() == old(self).spec_width(),
            final(self).spec_height() == old(self).spec_height(),
            final(self).spec_times_sampled() == old(self).spec_times_sampled(),
            final(self).spec_sum_at(x as int, y as int) == (SampleSum {
                r: (c.spec_clamped().r * (old(self).spec_denom() / CHANNEL_ONE as int)) as u64,
                g: (c.spec_clamped().g * (old(self).spec_denom() / CHANNEL_ONE as int)) as u64,
                b: (c.spec_clamped().b * (old(self).spec_denom() / CHANNEL_ONE as int)) as u64,
            }),
            forall|i: int, j: int|
                0 <= i < old(self).spec_width() && 0 <= j < old(self).spec_height() && !(i == x
                    && j == y) ==> #[trigger] final(self).spec_sum_at(i, j) == old(self).spec_sum_at(
                    i,
                    j,
                ),
    {
        proof {
            lemma_row_major_index_in_range(
                self.spec_width(),
                self.spec_height(),
                x as int,
                y as int,
            );
        }
        let cc = c.clamped();
        let count: u64 = if self.times_sampled == 0 {
            1
        } else {
            self.times_sampled as u64
        };
        proof {
            assert(self.spec_denom() / CHANNEL_ONE as int == count as int) by {
                if self.spec_times_sampled() != 0 {
                    vstd::arithmetic::div_mod::lemma_div_by_multiple(
                        self.spec_times_sampled(),
                        CHANNEL_ONE as int,
                    );
                }
            }
            assert(cc.r as int * count as int <= 65536 * 0x40000000) by (nonlinear_arith)
                requires
                    cc.r <= 65536,
                    count <= 0x40000000,
            ;
            assert(cc.g as int * count as int <= 65536 * 0x40000000) by (nonlinear_arith)
                requires
                    cc.g <= 65536,
                    count <= 0x40000000,
            ;
            assert(cc.b as int * count as int <= 65536 * 0x40000000) by (nonlinear_arith)
                requires
                    cc.b <= 65536,
                    count <= 0x40000000,
            ;
        }
        let _buffer_len: usize = self.sums.len();
        let idx: usize = y * self.width + x;
        self.sums[idx] = SampleSum {
            r: (cc.r as u64) * count,
            g: (cc.g as u64) * count,
            b: (cc.b as u64) * count,
        };
        proof {
            assert forall|i: int, j: int|
                0 <= i < old(self).spec_width() && 0 <= j < old(self).spec_height() && !(i == x
                    && j == y) implies #[trigger] self.spec_sum_at(i, j) == old(self).spec_sum_at(
                i,
                j,
            ) by {
                lemma_row_major_index_in_range(old(self).spec_width(), old(self).spec_height(), i, j);
                if j * old(self).spec_width() + i == y * old(self).spec_width() + x {
                    lemma_row_major_index_injective(
                        old(self).spec_width(),
                        old(self).spec_height(),
                        i,
                        j,
                        x as int,
                        y as int,
                    );
                }
            }
        }
    }

    /// Splice a rendered tile: for every pixel covered by `tile`, add
    /// `samples` times the tile's per-pixel average to the accumulated
    /// sums — except that while `times_sampled` is zero the old contents
    /// (a display colour, not an accumulated sample) are discarded first.
    /// Pixels outside the tile and the sample count itself do not change.
    pub fn insert_tile_by(&mut self, tile: &Tile, pos: (usize, usize), samples: usize)
        requires
            old(self).wf(),
            tile.wf(),
            1 <= samples,
            old(self).spec_times_sampled() + samples <= TIMES_SAMPLED_LIMIT,
            pos.0 + tile.spec_width() <= old(self).spec_width(),
            pos.1 + tile.spec_height() <= old(self).spec_height(),
            forall|x: int, y: int|
                pos.0 <= x < pos.0 + tile.spec_width() && pos.1 <= y < pos.1 + tile.spec_height()
                    ==> (#[trigger] old(self).spec_sum_at(x, y)).bounded(old(self).spec_denom()),
        ensures
            final(self).wf(),
            final(self).spec_width() == old(self).spec_width(),
            final(self).spec_height() == old(self).spec_height(),
            final(self).spec_times_sampled() == old(self).spec_times_sampled(),
            forall|x: int, y: int|
                pos.0 <= x < pos.0 + tile.spec_width() && pos.1 <= y < pos.1 + tile.spec_height()
                    ==> #[trigger] final(self).spec_sum_at(x, y) == spliced_sum(
                    old(self).spec_times_sampled(),
                    old(self).spec_sum_at(x, y),
                    tile.spec_at(x - pos.0, y - pos.1),
                    samples as int,
                ),
            forall|x: int, y: int|
                0 <= x < old(self).spec_width() && 0 <= y < old(self).spec_height() && !(pos.0 <= x
                    < pos.0 + tile.spec_width() && pos.1 <= y < pos.1 + tile.spec_height())
                    ==> #[trigger] final(self).spec_sum_at(x, y) == old(self).spec_sum_at(x, y),
    {
        let tw = tile.width();
        let th = tile.height();
        let mut ty: usize = 0;
        while ty < th
            invariant
                self.wf(),
                tile.wf(),
                tw as int == tile.spec_width(),
                th as int == tile.spec_height(),
                1 <= samples,
                ty <= th,
                self.spec_width() == old(self).spec_width(),
                self.spec_height() == old(self).spec_height(),
                self.spec_times_sampled() == old(self).spec_times_sampled(),
                old(self).spec_times_sampled() + samples <= TIMES_SAMPLED_LIMIT,
                pos.0 + tw <= self.spec_width(),
                pos.1 + th <= self.spec_height(),
                forall|x: int, y: int|
                    pos.0 <= x < pos.0 + tw && pos.1 <= y < pos.1 + th ==> (
                    #[trigger] old(self).spec_sum_at(x, y)).bounded(old(self).spec_denom()),
                forall|x: int, y: int|
                    pos.0 <= x < pos.0 + tw && pos.1 <= y < pos.1 + ty
                        ==> #[trigger] self.spec_sum_at(x, y) == spliced_sum(
                        old(self).spec_times_sampled(),
                        old(self).spec_sum_at(x, y),
                        tile.spec_at(x - pos.0, y - pos.1),
                        samples as int,
                    ),
                forall|x: int, y: int|
                    0 <= x < self.spec_width() && 0 <= y < self.spec_height() && !(pos.0 <= x
                        < pos.0 + tw && pos.1 <= y < pos.1 + ty)
                        ==> #[trigger] self.spec_sum_at(x, y) == old(self).spec_sum_at(x, y),
            decreases th - ty,
        {
            let mut tx: usize = 0;
            while tx < tw
                invariant
                    self.wf(),
                    tile.wf(),
                    tw as int == tile.spec_width(),
                    th as int == tile.spec_height(),
                    1 <= samples,
                    ty < th,
                    tx <= tw,
                    self.spec_width() == old(self).spec_width(),
                    self.spec_height() == old(self).spec_height(),
                    self.spec_times_sampled() == old(self).spec_times_sampled(),
                    old(self).spec_times_sampled() + samples <= TIMES_SAMPLED_LIMIT,
                    pos.0 + tw <= self.spec_width(),
                    pos.1 + th <= self.spec_height(),
                    forall|x: int, y: int|
                        pos.0 <= x < pos.0 + tw && pos.1 <= y < pos.1 + th ==> (
                        #[trigger] old(self).spec_sum_at(x, y)).bounded(old(self).spec_denom()),
                    forall|x: int, y: int|
                        (pos.0 <= x < pos.0 + tw && pos.1 <= y < pos.1 + ty) || (pos.0 <= x < pos.0
                            + tx && y == pos.1 + ty) ==> #[trigger] self.spec_sum_at(x, y)
                            == spliced_sum(
                            old(self).spec_times_sampled(),
                            old(self).spec_sum_at(x, y),
                            tile.spec_at(x - pos.0, y - pos.1),
                            samples as int,
                        ),
                    forall|x: int, y: int|
                        0 <= x < self.spec_width() && 0 <= y < self.spec_height() && !((pos.0 <= x
                            < pos.0 + tw && pos.1 <= y < pos.1 + ty) || (pos.0 <= x < pos.0 + tx
                            && y == pos.1 + ty)) ==> #[trigger] self.spec_sum_at(x, y) == old(
                            self,
                        ).spec_sum_at(x, y),
                decreases tw - tx,
            {
                let t = tile.get(tx, ty);
                let ax: usize = pos.0 + tx;
                let ay: usize = pos.1 + ty;
                proof {
                    assert(self.spec_sum_at(ax as int, ay as int) == old(self).spec_sum_at(
                        ax as int,
                        ay as int,
                    ));
                    lemma_row_major_index_in_range(
                        self.spec_width(),
                        self.spec_height(),
                        ax as int,
                        ay as int,
                    );
                    lemma_splice_channel_bounds(
                        old(self).spec_times_sampled(),
                        old(self).spec_sum_at(ax as int, ay as int),
                        t,
                        samples as int,
                    );
                }
                let base: SampleSum = if self.times_sampled == 0 {
                    SampleSum { r: 0, g: 0, b: 0 }
                } else {
                    let _buffer_len: usize = self.sums.len();
                    self.sums[ay * self.width + ax]
                };
                let merged = SampleSum {
                    r: base.r + (samples as u64) * (t.r as u64),
                    g: base.g + (samples as u64) * (t.g as u64),
                    b: base.b + (samples as u64) * (t.b as u64),
                };
                let _buffer_len: usize = self.sums.len();
                let idx: usize = ay * self.width + ax;
                let ghost prev = *self;
                self.sums[idx] = merged;
                proof {
                    assert forall|x: int, y: int|
                        0 <= x < self.spec_width() && 0 <= y < self.spec_height() && !(x == ax
                            && y == ay) implies #[trigger] self.spec_sum_at(x, y)
                        == prev.spec_sum_at(x, y) by {
                        lemma_row_major_index_in_range(
                            self.spec_width(),
                            self.spec_height(),
                            x,
                            y,
                        );
                        if y * self.spec_width() + x == ay * self.spec_width() + ax {
                            lemma_row_major_index_injective(
                                self.spec_width(),
                                self.spec_height(),
                                x,
                                y,
                                ax as int,
                                ay as int,
                            );
                        }
                    }
                }
                tx = tx + 1;
            }
            ty = ty + 1;
        }
    }

    /// Record that a pass of `samples` samples has been folded into every
    /// pixel.  The scheduler calls this once after all tiles of the pass
    /// are spliced.
    pub fn advance_times_sampled(&mut self, samples: usize)
        requires
            old(self).wf(),
            old(self).spec_times_sampled() + samples <= TIMES_SAMPLED_LIMIT,
        ensures
            final(self).wf(),
            final(self).spec_width() == old(self).spec_width(),
            final(self).spec_height() == old(self).spec_height(),
            final(self).spec_times_sampled() == old(self).spec_times_sampled() + samples,
            forall|x: int, y: int|
                0 <= x < old(self).spec_width() && 0 <= y < old(self).spec_height()
                    ==> #[trigger] final(self).spec_sum_at(x, y) == old(self).spec_sum_at(x, y),
    {
        self.times_sampled = self.times_sampled + samples;
    }

    /// Gamma-encode the framebuffer for display: each channel becomes the
    /// byte `floor(255 * sqrt(v))` where `v` is the represented average in
    /// `[0, 1]`.  Exactly: the byte is the integer square root of
    /// `floor(255² · m / denom)` for channel sum `m`.
    pub fn to_bytes(&self) -> (bytes: Vec<u8>)
        requires
            self.wf(),
            self.calibrated(),
        ensures
            bytes@.len() == self.spec_width() * self.spec_height() * 3,
            forall|x: int, y: int|
                0 <= x < self.spec_width() && 0 <= y < self.spec_height() ==> {
                    let s = #[trigger] self.spec_sum_at(x, y);
                    let base = (y * self.spec_width() + x) * 3;
                    &&& is_sqrt_floor(65025 * s.r / self.spec_denom(), bytes@[base] as int)
                    &&& is_sqrt_floor(65025 * s.g / self.spec_denom(), bytes@[base + 1] as int)
                    &&& is_sqrt_floor(65025 * s.b / self.spec_denom(), bytes@[base + 2] as int)
                },
    {
        let denom: u64 = if self.times_sampled == 0 {
            CHANNEL_ONE as u64
        } else {
            (self.times_sampled as u64) * (CHANNEL_ONE as u64)
        };
        proof {
            if self.spec_times_sampled() != 0 {
                assert(self.spec_times_sampled() * CHANNEL_ONE <= 0x40000000 * 65536)
                    by (nonlinear_arith)
                    requires
                        0 < self.spec_times_sampled() <= 0x40000000,
                ;
            }
        }
        let n: usize = self.sums.len();
        let mut bytes: Vec<u8> = Vec::new();
        let mut i: usize = 0;
        while i < n
            invariant
                self.wf(),
                self.calibrated(),
                n == self.sums@.len(),
                denom as int == self.spec_denom(),
                i <= n,
                bytes@.len() == 3 * i,
                forall|j: int|
                    0 <= j < i ==> {
                        let s = #[trigger] self.sums@[j];
                        &&& is_sqrt_floor(65025 * s.r / denom as int, bytes@[3 * j] as int)
                        &&& is_sqrt_floor(65025 * s.g / denom as int, bytes@[3 * j + 1] as int)
                        &&& is_sqrt_floor(65025 * s.b / denom as int, bytes@[3 * j + 2] as int)
                    },
            decreases n - i,
        {
            let s = self.sums[i];
            proof {
                lemma_sum_index_is_pixel(*self, i as int);
            }
            bytes.push(gamma_channel(s.r, denom));
            bytes.push(gamma_channel(s.g, denom));
            bytes.push(gamma_channel(s.b, denom));
            i = i + 1;
        }
        proof {
            assert forall|x: int, y: int|
                0 <= x < self.spec_width() && 0 <= y < self.spec_height() implies {
                let s = #[trigger] self.spec_sum_at(x, y);
                let base = (y * self.spec_width() + x) * 3;
                &&& is_sqrt_floor(65025 * s.r / self.spec_denom(), bytes@[base] as int)
                &&& is_sqrt_floor(65025 * s.g / self.spec_denom(), bytes@[base + 1] as int)
                &&& is_sqrt_floor(65025 * s.b / self.spec_denom(), bytes@[base + 2] as int)
            } by {
                lemma_row_major_index_in_range(self.spec_width(), self.spec_height(), x, y);
            }
        }
        bytes
    }
}

/// What a splice leaves in a pixel: `samples` times the tile's average on
/// top of the previous sums, or on top of zero when nothing had been
/// accumulated yet (the previous contents were only a display colour).
pub open spec fn spliced_sum(prior_count: int, prev: SampleSum, t: Pixel, samples: int) -> SampleSum {
    let base = if prior_count == 0 {
        SampleSum { r: 0, g: 0, b: 0 }
    } else {
        prev
    };
    SampleSum {
        r: (base.r + samples * t.r) as u64,
        g: (base.g + samples * t.g) as u64,
        b: (base.b + samples * t.b) as u64,
    }
}

/// The spliced channels stay below `2^46`, so the 64-bit additions in a
/// splice cannot overflow.
proof fn lemma_splice_channel_bounds(prior_count: int, prev: SampleSum, t: Pixel, samples: int)
    requires
        0 <= prior_count,
        1 <= samples,
        prior_count + samples <= TIMES_SAMPLED_LIMIT,
        t.wf(),
        prior_count != 0 ==> prev.bounded(prior_count * CHANNEL_ONE),
    ensures
        (if prior_count == 0 {
            0
        } else {
            prev.r as int
        }) + samples * t.r <= (prior_count + samples) * CHANNEL_ONE,
        (if prior_count == 0 {
            0
        } else {
            prev.g as int
        }) + samples * t.g <= (prior_count + samples) * CHANNEL_ONE,
        (if prior_count == 0 {
            0
        } else {
            prev.b as int
        }) + samples * t.b <= (prior_count + samples) * CHANNEL_ONE,
        (prior_count + samples) * CHANNEL_ONE <= 0x400000000000,
{
    assert(samples * t.r <= samples * CHANNEL_ONE && samples * t.g <= samples * CHANNEL_ONE
        && samples * t.b <= samples * CHANNEL_ONE) by (nonlinear_arith)
        requires
            1 <= samples,
            t.wf(),
    ;
    assert((prior_count + samples) * CHANNEL_ONE == prior_count * CHANNEL_ONE + samples
        * CHANNEL_ONE) by (nonlinear_arith);
    assert((prior_count + samples) * CHANNEL_ONE <= 0x400000000000)
        by (nonlinear_arith)
        requires
            0 <= prior_count + samples <= TIMES_SAMPLED_LIMIT,
    ;
}

/// Flat buffer index `i` addresses the pixel `(i % w, i / w)`.
proof fn lemma_sum_index_is_pixel(img: AccumulatedImage, i: int)
    requires
        img.wf(),
        0 <= i < img.spec_width() * img.spec_height(),
    ensures
        img.spec_sum_at(i % img.spec_width(), i / img.spec_width()) == img.sums_view()[i],
        0 <= i % img.spec_width() < img.spec_width(),
        0 <= i / img.spec_width() < img.spec_height(),
{
    let w = img.spec_width();
    let h = img.spec_height();
    vstd::arithmetic::div_mod::lemma_fundamental_div_mod(i, w);
    assert(0 <= i % w < w) by (nonlinear_arith)
        requires
            1 <= w,
            0 <= i,
    ;
    assert(0 <= i / w < h) by (nonlinear_arith)
        requires
            1 <= w,
            1 <= h,
            0 <= i < w * h,
    ;
}

impl AccumulatedImage {
    /// The raw buffer of channel sums, row-major.
    pub closed spec fn sums_view(self) -> Seq<SampleSum> {
        self.sums@
    }
}

/// One gamma-encoded display byte: the integer square root of
/// `floor(255² · m / denom)`, which equals `floor(255 · sqrt(m / denom))`
/// for any channel sum `m <= denom`.
fn gamma_channel(m: u64, denom: u64) -> (b: u8)
    requires
        1 <= denom,
        m <= denom,
        denom <= 0x400000000000,
    ensures
        is_sqrt_floor(65025 * m / denom as int, b as int),
{
    proof {
        assert(65025 * m <= 65025 * denom) by (nonlinear_arith)
            requires
                m <= denom,
        ;
        assert(65025 * denom <= 65025 * (0x400000000000)) by (nonlinear_arith)
            requires
                denom <= 0x400000000000,
        ;
        vstd::arithmetic::div_mod::lemma_div_is_ordered(
            65025 * m as int,
            65025 * denom as int,
            denom as int,
        );
        vstd::arithmetic::div_mod::lemma_div_by_multiple(65025, denom as int);
        assert(denom * 65025 == 65025 * denom) by (nonlinear_arith);
    }
    let q: u64 = (65025u64 * m) / denom;
    isqrt_small(q as u32) as u8
}

} // verus!

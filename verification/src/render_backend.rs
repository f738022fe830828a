//! Tile scheduling and render bookkeeping.
//!
//! A render pass partitions the framebuffer into tiles of at most 64x64
//! pixels, queues one work descriptor per tile, and lets local and remote
//! workers drain the queue concurrently.  This module holds the partition
//! and its disjoint-cover law, the rule that turns worker results into
//! accumulator updates, the worker-count rule, the remote worker's batching
//! state, and the per-render timing record.

use vstd::prelude::*;

use vstd::arithmetic::div_mod::lemma_div_decreases;
use vstd::arithmetic::div_mod::lemma_div_is_ordered;
use vstd::arithmetic::div_mod::lemma_fundamental_div_mod;
use vstd::arithmetic::div_mod::lemma_fundamental_div_mod_converse_div;
use vstd::arithmetic::div_mod::lemma_fundamental_div_mod_converse_mod;

use crate::accum_image::AccumulatedImage;
use crate::accum_image::SampleSum;
use crate::accum_image::TIMES_SAMPLED_LIMIT;
use crate::accum_image::spliced_sum;
use crate::image::CHANNEL_ONE;
use crate::image::Pixel;
use crate::image::Tile;
use crate::image::lemma_image_pixel_wf;
use crate::image::lemma_row_major_index_in_range;

verus! {

/// Largest tile edge, in pixels.  Border tiles are truncated to fit.
pub const TILE_MAX_SIZE: usize = 64;

/// Descriptor for one unit of render work: a tile given by its top-left
/// corner and its size, both in pixels.
#[derive(Debug, Clone, Copy)]
pub struct TileRenderWork {
    pub begin_pos: (usize, usize),
    pub tile_size: (usize, usize),
}

impl PartialEq for TileRenderWork {
    fn eq(&self, o: &TileRenderWork) -> (r: bool) {
        self.begin_pos.0 == o.begin_pos.0 && self.begin_pos.1 == o.begin_pos.1
            && self.tile_size.0 == o.tile_size.0 && self.tile_size.1 == o.tile_size.1
    }
}

impl Eq for TileRenderWork {}

impl vstd::std_specs::cmp::PartialEqSpecImpl for TileRenderWork {
    open spec fn obeys_eq_spec() -> bool {
        true
    }

    open spec fn eq_spec(&self, o: &TileRenderWork) -> bool {
        self.begin_pos == o.begin_pos && self.tile_size == o.tile_size
    }
}

/// How many tiles cover an axis of `len` pixels: `ceil(len / 64)`.
pub open spec fn spec_tiles_along(len: int) -> int {
    len / 64 + if len % 64 != 0 {
        1int
    } else {
        0int
    }
}

/// Total number of tiles of a `w` by `h` frame.
pub open spec fn spec_num_tiles(w: int, h: int) -> int {
    spec_tiles_along(w) * spec_tiles_along(h)
}

/// Edge length of the tile at axis position `t`: 64, truncated at the
/// border.
pub open spec fn spec_axis_tile_size(len: int, t: int) -> int {
    if len - t * 64 < 64 {
        len - t * 64
    } else {
        64int
    }
}

/// The `k`-th tile of the partition of a `w` by `h` frame, tiles numbered
/// row by row.
pub open spec fn spec_tile_at(w: int, h: int, k: int) -> TileRenderWork {
    let nw = spec_tiles_along(w);
    let tx = k % nw;
    let ty = k / nw;
    TileRenderWork {
        begin_pos: ((tx * 64) as usize, (ty * 64) as usize),
        tile_size: (spec_axis_tile_size(w, tx) as usize, spec_axis_tile_size(h, ty) as usize),
    }
}

/// Whether the pixel `(x, y)` lies inside tile `t`.
pub open spec fn spec_tile_contains(t: TileRenderWork, x: int, y: int) -> bool {
    &&& t.begin_pos.0 <= x < t.begin_pos.0 + t.tile_size.0
    &&& t.begin_pos.1 <= y < t.begin_pos.1 + t.tile_size.1
}

/// Index of the partition tile that covers the pixel `(x, y)`.
pub open spec fn spec_cover_index(w: int, x: int, y: int) -> int {
    (y / 64) * spec_tiles_along(w) + x / 64
}

/// Any coordinate of an axis falls into an existing axis tile, namely the
/// one at position `x / 64`, and strictly inside it.
proof fn lemma_axis_coord(len: int, x: int)
    requires
        64 <= len,
        0 <= x < len,
    ensures
        0 <= x / 64 < spec_tiles_along(len),
        (x / 64) * 64 <= x < (x / 64) * 64 + spec_axis_tile_size(len, x / 64),
{
    lemma_fundamental_div_mod(x, 64);
    lemma_fundamental_div_mod(len, 64);
    let q = len / 64;
    let r = len % 64;
    lemma_div_is_ordered(x, len - 1, 64);
    if r == 0 {
        lemma_fundamental_div_mod_converse_div(len - 1, 64, q - 1, 63);
    } else {
        lemma_fundamental_div_mod_converse_div(len - 1, 64, q, r - 1);
    }
}

/// Every axis tile position addresses a non-empty stretch of the axis that
/// ends within it.
proof fn lemma_axis_tile_bounds(len: int, t: int)
    requires
        64 <= len,
        0 <= t < spec_tiles_along(len),
    ensures
        0 <= t * 64 < len,
        1 <= spec_axis_tile_size(len, t) <= 64,
        t * 64 + spec_axis_tile_size(len, t) <= len,
{
    lemma_fundamental_div_mod(len, 64);
}

/// A coordinate lies in the axis tile at position `t` exactly when `t` is
/// the coordinate's own tile position `x / 64`.
proof fn lemma_axis_unique(len: int, t: int, x: int)
    requires
        64 <= len,
        0 <= t < spec_tiles_along(len),
        0 <= x < len,
    ensures
        (t * 64 <= x < t * 64 + spec_axis_tile_size(len, t)) <==> t == x / 64,
{
    lemma_axis_coord(len, x);
    lemma_axis_tile_bounds(len, t);
    if t * 64 <= x < t * 64 + spec_axis_tile_size(len, t) {
        lemma_fundamental_div_mod_converse_div(x, 64, t, x - t * 64);
    }
}

/// The covering tile of a pixel exists, contains the pixel, and decomposes
/// into the pixel's per-axis tile positions.
proof fn lemma_cover_index(w: int, h: int, x: int, y: int)
    requires
        64 <= w <= usize::MAX,
        64 <= h <= usize::MAX,
        0 <= x < w,
        0 <= y < h,
    ensures
        0 <= spec_cover_index(w, x, y) < spec_num_tiles(w, h),
        spec_cover_index(w, x, y) % spec_tiles_along(w) == x / 64,
        spec_cover_index(w, x, y) / spec_tiles_along(w) == y / 64,
        spec_tile_contains(spec_tile_at(w, h, spec_cover_index(w, x, y)), x, y),
{
    let nw = spec_tiles_along(w);
    let nh = spec_tiles_along(h);
    lemma_axis_coord(w, x);
    lemma_axis_coord(h, y);
    lemma_row_major_index_in_range(nw, nh, x / 64, y / 64);
    let k = spec_cover_index(w, x, y);
    lemma_fundamental_div_mod_converse_div(k, nw, y / 64, x / 64);
    lemma_fundamental_div_mod_converse_mod(k, nw, y / 64, x / 64);
    lemma_axis_tile_bounds(w, x / 64);
    lemma_axis_tile_bounds(h, y / 64);
}

/// Decomposing a valid tile index into its axis positions.
proof fn lemma_tile_index_decompose(w: int, h: int, k: int)
    requires
        64 <= w <= usize::MAX,
        64 <= h <= usize::MAX,
        0 <= k < spec_num_tiles(w, h),
    ensures
        0 <= k % spec_tiles_along(w) < spec_tiles_along(w),
        0 <= k / spec_tiles_along(w) < spec_tiles_along(h),
{
    let nw = spec_tiles_along(w);
    let nh = spec_tiles_along(h);
    lemma_fundamental_div_mod(k, nw);
    lemma_fundamental_div_mod(w, 64);
    lemma_fundamental_div_mod(h, 64);
    if k / nw >= nh {
        assert((k / nw) * nw >= nh * nw) by (nonlinear_arith)
            requires
                k / nw >= nh,
                nw >= 1,
        ;
        assert(nw * nh == nh * nw) by (nonlinear_arith);
    }
}

/// A tile other than a pixel's covering tile does not contain the pixel.
proof fn lemma_other_tile_misses(w: int, h: int, k: int, x: int, y: int)
    requires
        64 <= w <= usize::MAX,
        64 <= h <= usize::MAX,
        0 <= x < w,
        0 <= y < h,
        0 <= k < spec_num_tiles(w, h),
        k != spec_cover_index(w, x, y),
    ensures
        !spec_tile_contains(spec_tile_at(w, h, k), x, y),
{
    let nw = spec_tiles_along(w);
    let tx = k % nw;
    let ty = k / nw;
    lemma_tile_index_decompose(w, h, k);
    lemma_axis_tile_bounds(w, tx);
    lemma_axis_tile_bounds(h, ty);
    lemma_cover_index(w, h, x, y);
    if spec_tile_contains(spec_tile_at(w, h, k), x, y) {
        lemma_axis_unique(w, tx, x);
        lemma_axis_unique(h, ty, y);
        lemma_fundamental_div_mod(k, nw);
        assert(nw * ty == ty * nw) by (nonlinear_arith);
        assert(k == ty * nw + tx);
    }
}

/// Geometry of every tile of the partition: non-empty, at most 64 pixels
/// an edge, and contained in the frame.
pub proof fn lemma_partition_tile_bounds(w: int, h: int, k: int)
    requires
        64 <= w <= usize::MAX,
        64 <= h <= usize::MAX,
        0 <= k < spec_num_tiles(w, h),
    ensures
        1 <= spec_tile_at(w, h, k).tile_size.0 <= 64,
        1 <= spec_tile_at(w, h, k).tile_size.1 <= 64,
        spec_tile_at(w, h, k).begin_pos.0 + spec_tile_at(w, h, k).tile_size.0 <= w,
        spec_tile_at(w, h, k).begin_pos.1 + spec_tile_at(w, h, k).tile_size.1 <= h,
        spec_tile_at(w, h, k).begin_pos.0 == (k % spec_tiles_along(w)) * 64,
        spec_tile_at(w, h, k).begin_pos.1 == (k / spec_tiles_along(w)) * 64,
{
    let nw = spec_tiles_along(w);
    lemma_tile_index_decompose(w, h, k);
    lemma_axis_tile_bounds(w, k % nw);
    lemma_axis_tile_bounds(h, k / nw);
}

/// The partition of a frame of `w` by `h` pixels (both at least 64) into
/// `ceil(w/64) * ceil(h/64)` tiles is a disjoint cover of the frame: every
/// pixel lies in exactly one tile, namely the one at its cover index, and
/// every tile is non-empty and within bounds.
pub proof fn lemma_partition_disjoint_cover(w: int, h: int)
    requires
        64 <= w <= usize::MAX,
        64 <= h <= usize::MAX,
    ensures
        forall|x: int, y: int|
            0 <= x < w && 0 <= y < h ==> {
                let k = #[trigger] spec_cover_index(w, x, y);
                0 <= k < spec_num_tiles(w, h) && spec_tile_contains(spec_tile_at(w, h, k), x, y)
            },
        forall|k: int, x: int, y: int|
            0 <= x < w && 0 <= y < h && 0 <= k < spec_num_tiles(w, h) && #[trigger]
            spec_tile_contains(spec_tile_at(w, h, k), x, y) ==> k == spec_cover_index(w, x, y),
        forall|k: int|
            0 <= k < spec_num_tiles(w, h) ==> {
                let t = #[trigger] spec_tile_at(w, h, k);
                1 <= t.tile_size.0 <= 64 && 1 <= t.tile_size.1 <= 64 && t.begin_pos.0
                    + t.tile_size.0 <= w && t.begin_pos.1 + t.tile_size.1 <= h
            },
{
    assert forall|x: int, y: int| 0 <= x < w && 0 <= y < h implies {
        let k = #[trigger] spec_cover_index(w, x, y);
        0 <= k < spec_num_tiles(w, h) && spec_tile_contains(spec_tile_at(w, h, k), x, y)
    } by {
        lemma_cover_index(w, h, x, y);
    }
    assert forall|k: int, x: int, y: int|
        0 <= x < w && 0 <= y < h && 0 <= k < spec_num_tiles(w, h) && #[trigger]
        spec_tile_contains(spec_tile_at(w, h, k), x, y) implies k == spec_cover_index(
        w,
        x,
        y,
    ) by {
        if k != spec_cover_index(w, x, y) {
            lemma_other_tile_misses(w, h, k, x, y);
        }
    }
    assert forall|k: int| 0 <= k < spec_num_tiles(w, h) implies {
        let t = #[trigger] spec_tile_at(w, h, k);
        1 <= t.tile_size.0 <= 64 && 1 <= t.tile_size.1 <= 64 && t.begin_pos.0 + t.tile_size.0
            <= w && t.begin_pos.1 + t.tile_size.1 <= h
    } by {
        lemma_partition_tile_bounds(w, h, k);
    }
}

/// Whether a frame is large enough to schedule: the scheduler requires at
/// least one full tile along each axis, so a framebuffer under 64 pixels
/// on either axis is rejected before any work is queued.
pub fn frame_large_enough(image_size: (usize, usize)) -> (r: bool)
    ensures
        r == (64 <= image_size.0 && 64 <= image_size.1),
{
    TILE_MAX_SIZE <= image_size.0 && TILE_MAX_SIZE <= image_size.1
}

/// Split the frame into the tiles of the partition, row by row.  Border
/// tiles are truncated to fit the frame exactly.
pub fn partition_tiles(image_size: (usize, usize)) -> (tiles: Vec<TileRenderWork>)
    requires
        64 <= image_size.0,
        64 <= image_size.1,
        image_size.0 * image_size.1 * 3 <= usize::MAX,
    ensures
        tiles@.len() == spec_num_tiles(image_size.0 as int, image_size.1 as int),
        forall|k: int|
            0 <= k < tiles@.len() ==> #[trigger] tiles@[k] == spec_tile_at(
                image_size.0 as int,
                image_size.1 as int,
                k,
            ),
{
    let w = image_size.0;
    let h = image_size.1;
    let mut nw: usize = w / 64;
    if w % 64 != 0 {
        nw = nw + 1;
    }
    let mut nh: usize = h / 64;
    if h % 64 != 0 {
        nh = nh + 1;
    }
    proof {
        lemma_div_decreases(w as int, 64);
        lemma_div_decreases(h as int, 64);
        assert(nw as int * nh as int <= w as int * h as int) by (nonlinear_arith)
            requires
                1 <= nw <= w,
                1 <= nh <= h,
        ;
        assert(w as int * h as int <= usize::MAX) by (nonlinear_arith)
            requires
                w as int * h as int * 3 <= usize::MAX,
                1 <= w,
                1 <= h,
        ;
    }
    let mut tiles: Vec<TileRenderWork> = Vec::new();
    let mut ty: usize = 0;
    while ty < nh
        invariant
            64 <= w,
            64 <= h,
            nw as int == spec_tiles_along(w as int),
            nh as int == spec_tiles_along(h as int),
            nw as int * nh as int <= usize::MAX,
            ty <= nh,
            tiles@.len() == ty * nw,
            forall|k: int|
                0 <= k < tiles@.len() ==> #[trigger] tiles@[k] == spec_tile_at(
                    w as int,
                    h as int,
                    k,
                ),
        decreases nh - ty,
    {
        proof {
            lemma_axis_tile_bounds(h as int, ty as int);
        }
        let begin_h: usize = ty * 64;
        let tile_h: usize = if h - begin_h < 64 {
            h - begin_h
        } else {
            64
        };
        let mut tx: usize = 0;
        while tx < nw
            invariant
                64 <= w,
                64 <= h,
                nw as int == spec_tiles_along(w as int),
                nh as int == spec_tiles_along(h as int),
                nw as int * nh as int <= usize::MAX,
                ty < nh,
                tx <= nw,
                begin_h == ty * 64,
                tile_h as int == spec_axis_tile_size(h as int, ty as int),
                tiles@.len() == ty * nw + tx,
                forall|k: int|
                    0 <= k < tiles@.len() ==> #[trigger] tiles@[k] == spec_tile_at(
                        w as int,
                        h as int,
                        k,
                    ),
            decreases nw - tx,
        {
            proof {
                lemma_axis_tile_bounds(w as int, tx as int);
                lemma_row_major_index_in_range(nw as int, nh as int, tx as int, ty as int);
                lemma_fundamental_div_mod_converse_div(
                    ty as int * nw as int + tx as int,
                    nw as int,
                    ty as int,
                    tx as int,
                );
                lemma_fundamental_div_mod_converse_mod(
                    ty as int * nw as int + tx as int,
                    nw as int,
                    ty as int,
                    tx as int,
                );
            }
            let begin_w: usize = tx * 64;
            let tile_w: usize = if w - begin_w < 64 {
                w - begin_w
            } else {
                64
            };
            tiles.push(
                TileRenderWork { begin_pos: (begin_w, begin_h), tile_size: (tile_w, tile_h) },
            );
            tx = tx + 1;
        }
        proof {
            assert((ty as int + 1) * nw as int == ty as int * nw as int + nw as int)
                by (nonlinear_arith);
        }
        ty = ty + 1;
    }
    proof {
        assert(nh as int * nw as int == nw as int * nh as int) by (nonlinear_arith);
    }
    tiles
}

/// The sums a completed pass leaves at the pixel `(x, y)`: the splice of
/// the one partition tile that covers the pixel into the previous
/// accumulator contents.
pub open spec fn spec_render_result(
    prev: AccumulatedImage,
    tiles: Seq<Tile>,
    samples: int,
    x: int,
    y: int,
) -> SampleSum {
    let k = spec_cover_index(prev.spec_width(), x, y);
    let t = spec_tile_at(prev.spec_width(), prev.spec_height(), k);
    spliced_sum(
        prev.spec_times_sampled(),
        prev.spec_sum_at(x, y),
        tiles[k].spec_at(x - t.begin_pos.0, y - t.begin_pos.1),
        samples,
    )
}

/// A spliced pixel stays within the unit range of the raised sample count.
proof fn lemma_spliced_bounded(p: int, prev: SampleSum, t: Pixel, s: int)
    requires
        0 <= p,
        1 <= s,
        p + s <= TIMES_SAMPLED_LIMIT,
        t.wf(),
        prev.bounded(
            if p == 0 {
                CHANNEL_ONE as int
            } else {
                p * CHANNEL_ONE
            },
        ),
    ensures
        spliced_sum(p, prev, t, s).bounded((p + s) * CHANNEL_ONE),
{
    assert(s * t.r <= s * CHANNEL_ONE && s * t.g <= s * CHANNEL_ONE && s * t.b <= s
        * CHANNEL_ONE) by (nonlinear_arith)
        requires
            1 <= s,
            t.wf(),
    ;
    assert((p + s) * CHANNEL_ONE == p * CHANNEL_ONE + s * CHANNEL_ONE) by (nonlinear_arith);
    assert((p + s) * CHANNEL_ONE <= 0x400000000000) by (nonlinear_arith)
        requires
            0 <= p + s <= TIMES_SAMPLED_LIMIT,
    ;
}

/// Splice the results of one completed pass into the accumulator and raise
/// its sample count: tile `k` of `tiles` holds the per-pixel averages that
/// the pass rendered for partition tile `k`.
///
/// The postcondition is the heart of the render pipeline: every pixel of
/// the frame receives the contribution of *exactly one* tile — the unique
/// partition tile that covers it — and ends at the exact progressive
/// average of all `P + S` samples (see `lemma_splice_is_weighted_average`),
/// while
/// `times_sampled` moves from `P` to `P + S`.
pub fn apply_render_results(img: &mut AccumulatedImage, tiles: &Vec<Tile>, samples: usize)
    requires
        old(img).wf(),
        old(img).calibrated(),
        64 <= old(img).spec_width(),
        64 <= old(img).spec_height(),
        1 <= samples,
        old(img).spec_times_sampled() + samples <= TIMES_SAMPLED_LIMIT,
        tiles@.len() == spec_num_tiles(old(img).spec_width(), old(img).spec_height()),
        forall|k: int|
            0 <= k < tiles@.len() ==> {
                let t = spec_tile_at(old(img).spec_width(), old(img).spec_height(), k);
                &&& (#[trigger] tiles@[k]).wf()
                &&& tiles@[k].spec_width() == t.tile_size.0
                &&& tiles@[k].spec_height() == t.tile_size.1
            },
    ensures
        final(img).wf(),
        final(img).calibrated(),
        final(img).spec_width() == old(img).spec_width(),
        final(img).spec_height() == old(img).spec_height(),
        final(img).spec_times_sampled() == old(img).spec_times_sampled() + samples,
        forall|x: int, y: int|
            0 <= x < old(img).spec_width() && 0 <= y < old(img).spec_height()
                ==> #[trigger] final(img).spec_sum_at(x, y) == spec_render_result(
                *old(img),
                tiles@,
                samples as int,
                x,
                y,
            ),
{
    let ghost w_g = old(img).spec_width();
    let ghost h_g = old(img).spec_height();
    let ghost p_g = old(img).spec_times_sampled();
    let w = img.width();
    let h = img.height();
    proof {
        lemma_partition_disjoint_cover(w_g, h_g);
    }
    let mut nw: usize = w / 64;
    if w % 64 != 0 {
        nw = nw + 1;
    }
    let total = tiles.len();
    let mut k: usize = 0;
    while k < total
        invariant
            img.wf(),
            old(img).wf(),
            old(img).calibrated(),
            old(img).spec_width() == w_g,
            old(img).spec_height() == h_g,
            old(img).spec_times_sampled() == p_g,
            img.spec_width() == w_g,
            img.spec_height() == h_g,
            img.spec_times_sampled() == p_g,
            w as int == w_g,
            h as int == h_g,
            nw as int == spec_tiles_along(w_g),
            64 <= w_g,
            64 <= h_g,
            1 <= samples,
            p_g + samples <= TIMES_SAMPLED_LIMIT,
            tiles@.len() == spec_num_tiles(w_g, h_g),
            total == tiles@.len(),
            k <= total,
            forall|j: int|
                0 <= j < tiles@.len() ==> {
                    let t = spec_tile_at(w_g, h_g, j);
                    &&& (#[trigger] tiles@[j]).wf()
                    &&& tiles@[j].spec_width() == t.tile_size.0
                    &&& tiles@[j].spec_height() == t.tile_size.1
                },
            forall|x: int, y: int|
                0 <= x < w_g && 0 <= y < h_g ==> #[trigger] img.spec_sum_at(x, y) == if
                    spec_cover_index(w_g, x, y) < k {
                    spec_render_result(*old(img), tiles@, samples as int, x, y)
                } else {
                    old(img).spec_sum_at(x, y)
                },
            forall|x: int, y: int|
                0 <= x < w_g && 0 <= y < h_g ==> {
                    let c = #[trigger] spec_cover_index(w_g, x, y);
                    0 <= c < spec_num_tiles(w_g, h_g)
                },
        decreases total - k,
    {
        proof {
            lemma_partition_disjoint_cover(w_g, h_g);
            lemma_partition_tile_bounds(w_g, h_g, k as int);
            lemma_tile_index_decompose(w_g, h_g, k as int);
            lemma_axis_tile_bounds(w_g, k as int % spec_tiles_along(w_g));
            lemma_axis_tile_bounds(h_g, k as int / spec_tiles_along(w_g));
        }
        let tx: usize = k % nw;
        let ty: usize = k / nw;
        let pos: (usize, usize) = (tx * 64, ty * 64);
        let tile: &Tile = &tiles[k];
        let ghost t_spec = spec_tile_at(w_g, h_g, k as int);
        proof {
            assert(pos.0 == t_spec.begin_pos.0 && pos.1 == t_spec.begin_pos.1);
            assert(*tile == tiles@[k as int]);
            assert(tile.spec_width() == t_spec.tile_size.0);
            assert(tile.spec_height() == t_spec.tile_size.1);
            assert(pos.0 + tile.spec_width() <= w_g && pos.1 + tile.spec_height() <= h_g);
            assert forall|x: int, y: int|
                pos.0 <= x < pos.0 + tile.spec_width() && pos.1 <= y < pos.1
                    + tile.spec_height() implies (#[trigger] img.spec_sum_at(x, y)).bounded(
                img.spec_denom(),
            ) by {
                assert(0 <= x < w_g && 0 <= y < h_g);
                assert(spec_tile_contains(spec_tile_at(w_g, h_g, k as int), x, y));
                assert(k as int == spec_cover_index(w_g, x, y));
                assert(img.spec_sum_at(x, y) == old(img).spec_sum_at(x, y));
                assert(old(img).spec_sum_at(x, y).bounded(old(img).spec_denom()));
                assert(img.spec_denom() == old(img).spec_denom());
            }
        }
        let ghost img_before = *img;
        img.insert_tile_by(tile, pos, samples);
        proof {
            assert forall|x: int, y: int| 0 <= x < w_g && 0 <= y < h_g implies #[trigger]
                img.spec_sum_at(x, y) == if spec_cover_index(w_g, x, y) < k + 1 {
                spec_render_result(*old(img), tiles@, samples as int, x, y)
            } else {
                old(img).spec_sum_at(x, y)
            } by {
                let c = spec_cover_index(w_g, x, y);
                if spec_tile_contains(spec_tile_at(w_g, h_g, k as int), x, y) {
                    assert(c == k as int);
                    assert(img.spec_sum_at(x, y) == spliced_sum(
                        p_g,
                        img_before.spec_sum_at(x, y),
                        tile.spec_at(x - pos.0, y - pos.1),
                        samples as int,
                    ));
                    assert(img_before.spec_sum_at(x, y) == old(img).spec_sum_at(x, y));
                } else {
                    assert(img.spec_sum_at(x, y) == img_before.spec_sum_at(x, y));
                    if c == k as int {
                        assert(spec_tile_contains(spec_tile_at(w_g, h_g, c), x, y));
                    }
                }
            }
        }
        k = k + 1;
    }
    img.advance_times_sampled(samples);
    proof {
        assert forall|x: int, y: int| 0 <= x < w_g && 0 <= y < h_g implies (
        #[trigger] img.spec_sum_at(x, y)).bounded(img.spec_denom()) by {
            let c = spec_cover_index(w_g, x, y);
            let t = spec_tile_at(w_g, h_g, c);
            lemma_partition_tile_bounds(w_g, h_g, c);
            lemma_image_pixel_wf(tiles@[c], x - t.begin_pos.0, y - t.begin_pos.1);
            lemma_spliced_bounded(
                p_g,
                old(img).spec_sum_at(x, y),
                tiles@[c].spec_at(x - t.begin_pos.0, y - t.begin_pos.1),
                samples as int,
            );
        }
    }
}

/// Two fractions `n1 / d1` and `n2 / d2` denote the same rational.
pub open spec fn frac_eq(n1: int, d1: int, n2: int, d2: int) -> bool {
    n1 * d2 == n2 * d1
}

/// Scalar core of `lemma_splice_is_weighted_average`: the cross-multiplied
/// identity behind the weighted average, one channel at a time.
proof fn lemma_weighted_average(p: int, s: int, prev: int, t: int)
    requires
        1 <= p,
        1 <= s,
        0 <= prev,
        0 <= t,
    ensures
        frac_eq(prev + s * t, (p + s) * CHANNEL_ONE, p * prev + p * (s * t), (p + s) * (p
            * CHANNEL_ONE)),
{
    assert((prev + s * t) * ((p + s) * (p * CHANNEL_ONE)) == (p * prev + p * (s * t)) * ((p + s)
        * CHANNEL_ONE)) by (nonlinear_arith);
}

/// Splicing is the progressive weighted average, exactly.  For a pixel
/// that holds `p >= 1` accumulated samples with channel sums `prev` and a
/// tile pixel `t` rendered from `s` samples, the value the splice leaves,
/// `spliced_sum(p, prev, t, s)` over `(p+s) * CHANNEL_ONE`, is the same
/// rational as
///
/// ```text
///     p/(p+s) * prev/(p*CHANNEL_ONE)  +  s/(p+s) * t/CHANNEL_ONE
/// ```
///
/// written as the single fraction `p*(prev + s*t) / ((p+s)*p*CHANNEL_ONE)`,
/// channel by channel.  No rounding term appears anywhere.
pub proof fn lemma_splice_is_weighted_average(p: int, prev: SampleSum, t: Pixel, s: int)
    requires
        1 <= p,
        1 <= s,
        p + s <= TIMES_SAMPLED_LIMIT,
        t.wf(),
        prev.bounded(p * CHANNEL_ONE),
    ensures
        ({
            let ns = spliced_sum(p, prev, t, s);
            &&& frac_eq(
                ns.r as int,
                (p + s) * CHANNEL_ONE,
                p * (prev.r + s * t.r),
                (p + s) * (p * CHANNEL_ONE),
            )
            &&& frac_eq(
                ns.g as int,
                (p + s) * CHANNEL_ONE,
                p * (prev.g + s * t.g),
                (p + s) * (p * CHANNEL_ONE),
            )
            &&& frac_eq(
                ns.b as int,
                (p + s) * CHANNEL_ONE,
                p * (prev.b + s * t.b),
                (p + s) * (p * CHANNEL_ONE),
            )
        }),
{
    assert(0 <= s * t.r <= s * CHANNEL_ONE && 0 <= s * t.g <= s * CHANNEL_ONE && 0 <= s * t.b <= s
        * CHANNEL_ONE) by (nonlinear_arith)
        requires
            1 <= s,
            t.wf(),
    ;
    assert((p + s) * CHANNEL_ONE == p * CHANNEL_ONE + s * CHANNEL_ONE) by (nonlinear_arith);
    assert((p + s) * CHANNEL_ONE <= 0x400000000000) by (nonlinear_arith)
        requires
            0 <= p + s <= TIMES_SAMPLED_LIMIT,
    ;
    let ns = spliced_sum(p, prev, t, s);
    assert(ns.r == prev.r + s * t.r && ns.g == prev.g + s * t.g && ns.b == prev.b + s * t.b);
    lemma_weighted_average(p, s, prev.r as int, t.r as int);
    lemma_weighted_average(p, s, prev.g as int, t.g as int);
    lemma_weighted_average(p, s, prev.b as int, t.b as int);
    assert(p * prev.r + p * (s * t.r) == p * (prev.r + s * t.r)) by (nonlinear_arith);
    assert(p * prev.g + p * (s * t.g) == p * (prev.g + s * t.g)) by (nonlinear_arith);
    assert(p * prev.b + p * (s * t.b) == p * (prev.b + s * t.b)) by (nonlinear_arith);
}

/// The first pass after a `clear` replaces the display colour outright:
/// with no accumulated samples the new value `s*t / (s*CHANNEL_ONE)` is the
/// pass average `t / CHANNEL_ONE` itself.
pub proof fn lemma_first_pass_average(s: int, t: int)
    requires
        1 <= s,
        0 <= t,
    ensures
        frac_eq(s * t, s * CHANNEL_ONE, t, CHANNEL_ONE as int),
{
    assert((s * t) * CHANNEL_ONE == t * (s * CHANNEL_ONE)) by (nonlinear_arith);
}

/// How many of `num_processors` cores render locally while `num_remote`
/// peers render remotely: at most half the cores are ceded to remote
/// dispatch, and at least one local worker always runs.
pub open spec fn spec_num_local_workers(procs: int, remotes: int) -> int {
    let reserved = if remotes < procs / 2 {
        remotes
    } else {
        procs / 2
    };
    if procs - reserved >= 1 {
        procs - reserved
    } else {
        1int
    }
}

pub fn num_local_workers(num_processors: usize, num_remote: usize) -> (n: usize)
    ensures
        n as int == spec_num_local_workers(num_processors as int, num_remote as int),
        1 <= n,
{
    let half = num_processors / 2;
    let reserved = if num_remote < half {
        num_remote
    } else {
        half
    };
    let base = num_processors - reserved;
    if base >= 1 {
        base
    } else {
        1
    }
}

/// A worker that has just accounted for `completed` work units closes the
/// shared work queue exactly when the remaining-counter it read (the value
/// before its decrement) is consumed by them; only the final worker sees
/// that, so the queue closes exactly once.
pub fn should_close_work_queue(remaining_before: usize, completed: usize) -> (close: bool)
    ensures
        close == (remaining_before <= completed),
{
    remaining_before <= completed
}

/// Most work a remote worker sends a peer in one request.
pub const RENDER_BATCH_SIZE: usize = 8;

/// Batching state of the worker that feeds one remote peer: the work items
/// of the request in flight, and the tiles already rendered and paired.
pub struct RemoteWorker {
    batch: Vec<TileRenderWork>,
    rendered: Vec<((usize, usize), Tile)>,
}

impl RemoteWorker {
    /// The work items of the batch being assembled or awaiting a reply.
    pub closed spec fn spec_batch(self) -> Seq<TileRenderWork> {
        self.batch@
    }

    /// Completed work: rendered tiles, each with the frame position it
    /// must be spliced at.
    pub closed spec fn spec_rendered(self) -> Seq<((usize, usize), Tile)> {
        self.rendered@
    }

    pub fn new() -> (w: RemoteWorker)
        ensures
            w.spec_batch().len() == 0,
            w.spec_rendered().len() == 0,
    {
        RemoteWorker { batch: Vec::new(), rendered: Vec::new() }
    }

    pub fn batch_len(&self) -> (n: usize)
        ensures
            n == self.spec_batch().len(),
    {
        self.batch.len()
    }

    pub fn batch_is_full(&self) -> (full: bool)
        ensures
            full == (self.spec_batch().len() >= RENDER_BATCH_SIZE),
    {
        self.batch.len() >= RENDER_BATCH_SIZE
    }

    /// Take one received work item into the pending batch.
    pub fn push_work(&mut self, work: TileRenderWork)
        requires
            old(self).spec_batch().len() < RENDER_BATCH_SIZE,
        ensures
            final(self).spec_batch() == old(self).spec_batch().push(work),
            final(self).spec_rendered() == old(self).spec_rendered(),
    {
        self.batch.push(work);
    }

    /// The batch in flight, for building the request packet.
    pub fn batch(&self) -> (b: &Vec<TileRenderWork>)
        ensures
            b@ == self.spec_batch(),
    {
        &self.batch
    }

    /// Hand the completed `(position, tile)` pairs to the splice step.
    pub fn into_results(self) -> (r: Vec<((usize, usize), Tile)>)
        ensures
            r@ == self.spec_rendered(),
    {
        self.rendered
    }

    /// The peer failed or disappeared: hand the whole pending batch back so
    /// the caller can requeue it on the shared work channel — no tile is
    /// lost — and forget it here.
    pub fn take_failed_batch(&mut self) -> (requeue: Vec<TileRenderWork>)
        ensures
            requeue@ == old(self).spec_batch(),
            final(self).spec_batch().len() == 0,
            final(self).spec_rendered() == old(self).spec_rendered(),
    {
        let mut out: Vec<TileRenderWork> = Vec::new();
        core::mem::swap(&mut out, &mut self.batch);
        out
    }

    /// Record the peer's reply to the request in flight.  The reply's
    /// tiles are aligned positionally with the request's work items: tile
    /// `i` is the render of batch entry `i` and is paired with that
    /// entry's frame position.  Returns how many work units were
    /// completed, for the caller's remaining-counter decrement.
    pub fn accept_response(&mut self, tiles: Vec<Tile>) -> (n: usize)
        requires
            tiles@.len() == old(self).spec_batch().len(),
        ensures
            n == old(self).spec_batch().len(),
            final(self).spec_batch().len() == 0,
            final(self).spec_rendered().len() == old(self).spec_rendered().len() + n,
            forall|i: int|
                0 <= i < old(self).spec_rendered().len()
                    ==> #[trigger] final(self).spec_rendered()[i] == old(self).spec_rendered()[i],
            forall|i: int|
                0 <= i < old(self).spec_batch().len() ==> #[trigger] final(self).spec_rendered()[
                    old(self).spec_rendered().len() + i] == (
                old(self).spec_batch()[i].begin_pos,
                tiles@[i],
                ),
    {
        let ghost tiles0 = tiles@;
        let mut tiles = tiles;
        let n = self.batch.len();
        let mut i: usize = 0;
        while i < n
            invariant
                n == old(self).spec_batch().len(),
                self.spec_batch() == old(self).spec_batch(),
                tiles0.len() == n,
                i <= n,
                tiles@ =~= tiles0.skip(i as int),
                self.spec_rendered().len() == old(self).spec_rendered().len() + i,
                forall|j: int|
                    0 <= j < old(self).spec_rendered().len()
                        ==> #[trigger] self.spec_rendered()[j] == old(self).spec_rendered()[j],
                forall|j: int|
                    0 <= j < i ==> #[trigger] self.spec_rendered()[old(self).spec_rendered().len()
                        + j] == (old(self).spec_batch()[j].begin_pos, tiles0[j]),
            decreases n - i,
        {
            let t = tiles.remove(0);
            let work = self.batch[i];
            self.rendered.push((work.begin_pos, t));
            proof {
                assert(tiles0.skip(i as int).remove(0) =~= tiles0.skip(i as int + 1));
                assert(t == tiles0[i as int]);
            }
            i = i + 1;
        }
        self.batch.clear();
        n
    }
}

/// Timing and sample statistics of one or more render passes.  Every time
/// value is measured in milliseconds.
#[derive(Debug, Clone, Copy, PartialEq, Eq, Structural)]
pub struct RenderInfo {
    pub total_samples: usize,
    pub total_time: u128,
    pub last_samples: usize,
    pub last_time: u128,
    pub total_avg_time_per_sample: u128,
    pub last_avg_time_per_sample: u128,
}

impl RenderInfo {
    /// Record for a single completed pass of `samples` samples that took
    /// `time` milliseconds.
    pub fn from_pass(samples: usize, time: u128) -> (r: RenderInfo)
        requires
            samples >= 1,
        ensures
            r.total_samples == samples,
            r.total_time == time,
            r.last_samples == samples,
            r.last_time == time,
            r.total_avg_time_per_sample == time / samples as u128,
            r.last_avg_time_per_sample == time / samples as u128,
    {
        let avg: u128 = time / (samples as u128);
        RenderInfo {
            total_samples: samples,
            total_time: time,
            last_samples: samples,
            last_time: time,
            total_avg_time_per_sample: avg,
            last_avg_time_per_sample: avg,
        }
    }

    /// Fold the record of a newly finished pass into this running total:
    /// total counters accumulate and the total average is recomputed from
    /// the accumulated sums, while the `last_*` fields are overwritten with
    /// the new pass's values.
    pub fn merge(&mut self, new: &RenderInfo)
        requires
            old(self).total_samples + new.total_samples >= 1,
            old(self).total_samples + new.total_samples <= usize::MAX,
            old(self).total_time + new.total_time <= u128::MAX,
        ensures
            final(self).total_samples == old(self).total_samples + new.total_samples,
            final(self).total_time == old(self).total_time + new.total_time,
            final(self).total_avg_time_per_sample == (old(self).total_time + new.total_time) as int
                / (old(self).total_samples + new.total_samples) as int,
            final(self).last_samples == new.last_samples,
            final(self).last_time == new.last_time,
            final(self).last_avg_time_per_sample == new.last_avg_time_per_sample,
    {
        self.total_samples = self.total_samples + new.total_samples;
        self.total_time = self.total_time + new.total_time;
        self.total_avg_time_per_sample = self.total_time / (self.total_samples as u128);
        self.last_samples = new.last_samples;
        self.last_time = new.last_time;
        self.last_avg_time_per_sample = new.last_avg_time_per_sample;
    }
}

impl Default for RenderInfo {
    /// The empty record: no samples rendered yet.
    fn default() -> (r: RenderInfo)
        ensures
            r.total_samples == 0,
            r.total_time == 0,
            r.last_samples == 0,
            r.last_time == 0,
            r.total_avg_time_per_sample == 0,
            r.last_avg_time_per_sample == 0,
    {
        RenderInfo {
            total_samples: 0,
            total_time: 0,
            last_samples: 0,
            last_time: 0,
            total_avg_time_per_sample: 0,
            last_avg_time_per_sample: 0,
        }
    }
}

} // verus!

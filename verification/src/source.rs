//! The frame canvas: one BGR image buffer together with its block geometry,
//! and the per-block pixel primitives the codec is built from.
//!
//! A canvas of nominal size `width x height` stores `width * height` pixels
//! of three bytes each (blue, green, red), row-major. The codec only touches
//! the *active area*: the largest sub-rectangle anchored at the origin whose
//! dimensions are multiples of the block side length.

use vstd::prelude::*;
use vstd::arithmetic::div_mod::{
    lemma_fundamental_div_mod, lemma_fundamental_div_mod_converse, lemma_div_by_multiple,
    lemma_div_is_ordered,
};
use vstd::arithmetic::mul::{
    lemma_mul_inequality, lemma_mul_is_commutative, lemma_mul_is_distributive_sub,
    lemma_mul_is_distributive_sub_other_way, lemma_mul_strictly_positive,
};

use crate::error::EtchError;

verus! {

/// Index into the flat BGR buffer of the byte holding channel `c` (0 = blue,
/// 1 = green, 2 = red) of the pixel at column `x`, row `y`, for row width `w`.
pub open spec fn pix_idx(w: int, x: int, y: int, c: int) -> int {
    3 * (y * w + x) + c
}

/// Column of the pixel that buffer index `q` falls in.
pub open spec fn px_col(q: int, w: int) -> int {
    (q / 3) % w
}

/// Row of the pixel that buffer index `q` falls in.
pub open spec fn px_row(q: int, w: int) -> int {
    (q / 3) / w
}

/// Channel (0 = blue, 1 = green, 2 = red) of buffer index `q`.
pub open spec fn px_chan(q: int) -> int {
    q % 3
}

/// Whether buffer index `q` belongs to the `size x size` pixel block whose
/// top-left pixel is at `(x0, y0)`.
pub open spec fn in_block(q: int, w: int, size: int, x0: int, y0: int) -> bool {
    &&& x0 <= px_col(q, w) < x0 + size
    &&& y0 <= px_row(q, w) < y0 + size
}

/// Selects the blue, green or red component of a triple by channel number.
pub open spec fn bgr_chan(b: u8, g: u8, r: u8, c: int) -> u8 {
    if c == 0 {
        b
    } else if c == 1 {
        g
    } else {
        r
    }
}

/// Every pixel of the given block holds exactly the triple `(b, g, r)`.
pub open spec fn block_uniform(
    im: Seq<u8>,
    w: int,
    size: int,
    x0: int,
    y0: int,
    b: u8,
    g: u8,
    r: u8,
) -> bool {
    forall|q: int|
        0 <= q < im.len() && #[trigger] in_block(q, w, size, x0, y0) ==> im[q] == bgr_chan(
            b,
            g,
            r,
            px_chan(q),
        )
}

/// Channel `c` of every pixel of the given block lies between `lo` and `hi`.
pub open spec fn block_chan_bounded(
    im: Seq<u8>,
    w: int,
    size: int,
    x0: int,
    y0: int,
    c: int,
    lo: int,
    hi: int,
) -> bool {
    forall|q: int|
        0 <= q < im.len() && #[trigger] in_block(q, w, size, x0, y0) && px_chan(q) == c ==> lo
            <= im[q] <= hi
}

/// Sum of channel `c` over the first `n` pixels of the row `y` segment that
/// starts at column `x0`.
pub open spec fn row_chan_sum(im: Seq<u8>, w: int, y: int, x0: int, n: int, c: int) -> int
    decreases n,
{
    if n <= 0 {
        0
    } else {
        row_chan_sum(im, w, y, x0, n - 1, c) + im[pix_idx(w, x0 + n - 1, y, c)]
    }
}

/// Sum of channel `c` over the first `nrows` rows of the `size`-wide block at
/// `(x0, y0)`.
pub open spec fn block_chan_sum(
    im: Seq<u8>,
    w: int,
    x0: int,
    y0: int,
    size: int,
    nrows: int,
    c: int,
) -> int
    decreases nrows,
{
    if nrows <= 0 {
        0
    } else {
        block_chan_sum(im, w, x0, y0, size, nrows - 1, c) + row_chan_sum(
            im,
            w,
            y0 + nrows - 1,
            x0,
            size,
            c,
        )
    }
}

/// The integer mean of channel `c` over the whole block at `(x0, y0)`:
/// the channel sum divided by the pixel count, truncating.
pub open spec fn block_avg(im: Seq<u8>, w: int, x0: int, y0: int, size: int, c: int) -> int {
    block_chan_sum(im, w, x0, y0, size, size, c) / (size * size)
}

/// A constructed pixel index decomposes back into its column, row and
/// channel, and lies inside a buffer of `h` rows.
pub proof fn lemma_pix_idx(w: int, h: int, x: int, y: int, c: int)
    requires
        0 <= x < w,
        0 <= y < h,
        0 <= c < 3,
    ensures
        px_col(pix_idx(w, x, y, c), w) == x,
        px_row(pix_idx(w, x, y, c), w) == y,
        px_chan(pix_idx(w, x, y, c)) == c,
        0 <= pix_idx(w, x, y, c),
        pix_idx(w, x, y, c) + (2 - c) < 3 * (w * h),
{
    let p = y * w + x;
    lemma_fundamental_div_mod_converse(pix_idx(w, x, y, c), 3, p, c);
    lemma_fundamental_div_mod_converse(p, w, y, x);
    assert(y * w >= 0) by {
        vstd::arithmetic::mul::lemma_mul_nonnegative(y, w);
    }
    assert(y * w <= (h - 1) * w) by {
        lemma_mul_inequality(y, h - 1, w);
    }
    assert((h - 1) * w == h * w - w) by {
        lemma_mul_is_distributive_sub(w, h, 1);
        lemma_mul_is_commutative(w, h);
        lemma_mul_is_commutative(w, h - 1);
    }
}

/// Any in-range buffer index is the pixel index built from its own column,
/// row and channel, which lie inside the frame.
pub proof fn lemma_pix_decompose(w: int, h: int, q: int)
    requires
        0 < w,
        0 < h,
        0 <= q < 3 * (w * h),
    ensures
        0 <= px_col(q, w) < w,
        0 <= px_row(q, w) < h,
        0 <= px_chan(q) < 3,
        pix_idx(w, px_col(q, w), px_row(q, w), px_chan(q)) == q,
{
    let p = q / 3;
    lemma_fundamental_div_mod(q, 3);
    assert(0 <= p < w * h) by {
        assert((3 * (w * h) - 1) / 3 == w * h - 1) by {
            lemma_fundamental_div_mod_converse(3 * (w * h) - 1, 3, w * h - 1, 2);
        }
        lemma_div_is_ordered(q, 3 * (w * h) - 1, 3);
        vstd::arithmetic::div_mod::lemma_div_pos_is_pos(q, 3);
    }
    lemma_fundamental_div_mod(p, w);
    assert(0 <= p % w < w) by {
        vstd::arithmetic::div_mod::lemma_mod_division_less_than_divisor(p, w);
    }
    assert(0 <= p / w < h) by {
        assert((w * h - 1) / w == h - 1) by {
            assert((h - 1) * w + (w - 1) == w * h - 1) by {
                lemma_mul_is_distributive_sub(w, h, 1);
                lemma_mul_is_commutative(w, h);
                lemma_mul_is_commutative(w, h - 1);
            }
            lemma_fundamental_div_mod_converse(w * h - 1, w, h - 1, w - 1);
        }
        lemma_div_is_ordered(p, w * h - 1, w);
        vstd::arithmetic::div_mod::lemma_div_pos_is_pos(p, w);
    }
    assert(pix_idx(w, px_col(q, w), px_row(q, w), px_chan(q)) == q) by {
        lemma_mul_is_commutative(p / w, w);
        assert(p == w * (p / w) + p % w);
        assert(q == 3 * p + q % 3);
    }
}

/// In a uniform block, the pixel at `(x, y)` holds the written triple.
pub proof fn lemma_block_uniform_pixel(
    im: Seq<u8>,
    w: int,
    h: int,
    size: int,
    x0: int,
    y0: int,
    b: u8,
    g: u8,
    r: u8,
    x: int,
    y: int,
    c: int,
)
    requires
        block_uniform(im, w, size, x0, y0, b, g, r),
        im.len() == 3 * (w * h),
        0 <= x0,
        0 <= y0,
        x0 + size <= w,
        y0 + size <= h,
        x0 <= x < x0 + size,
        y0 <= y < y0 + size,
        0 <= c < 3,
    ensures
        0 <= pix_idx(w, x, y, c) < im.len(),
        im[pix_idx(w, x, y, c)] == bgr_chan(b, g, r, c),
{
    lemma_pix_idx(w, h, x, y, c);
    assert(in_block(pix_idx(w, x, y, c), w, size, x0, y0));
}

/// A channel sum over part of a row is bounded by 255 per pixel.
pub proof fn lemma_row_sum_bounds(im: Seq<u8>, w: int, y: int, x0: int, n: int, c: int)
    requires
        0 <= n,
    ensures
        0 <= row_chan_sum(im, w, y, x0, n, c) <= 255 * n,
    decreases n,
{
    if n > 0 {
        lemma_row_sum_bounds(im, w, y, x0, n - 1, c);
    }
}

/// A channel sum over part of a block is bounded by 255 per pixel.
pub proof fn lemma_block_sum_bounds(
    im: Seq<u8>,
    w: int,
    x0: int,
    y0: int,
    size: int,
    nrows: int,
    c: int,
)
    requires
        0 <= size,
        0 <= nrows,
    ensures
        0 <= block_chan_sum(im, w, x0, y0, size, nrows, c) <= 255 * (nrows * size),
    decreases nrows,
{
    if nrows > 0 {
        lemma_block_sum_bounds(im, w, x0, y0, size, nrows - 1, c);
        lemma_row_sum_bounds(im, w, y0 + nrows - 1, x0, size, c);
        assert(255 * (nrows * size) == 255 * ((nrows - 1) * size) + 255 * size) by {
            lemma_mul_is_distributive_sub(size, nrows, 1);
            lemma_mul_is_commutative(size, nrows);
            lemma_mul_is_commutative(size, nrows - 1);
        }
    }
}

/// Over a uniform block, a row segment's channel sum is the pixel count times
/// the channel value.
proof fn lemma_row_sum_uniform(
    im: Seq<u8>,
    w: int,
    h: int,
    size: int,
    x0: int,
    y0: int,
    b: u8,
    g: u8,
    r: u8,
    y: int,
    n: int,
    c: int,
)
    requires
        block_uniform(im, w, size, x0, y0, b, g, r),
        im.len() == 3 * (w * h),
        0 <= x0,
        0 <= y0,
        x0 + size <= w,
        y0 + size <= h,
        y0 <= y < y0 + size,
        0 <= n <= size,
        0 <= c < 3,
    ensures
        row_chan_sum(im, w, y, x0, n, c) == n * (bgr_chan(b, g, r, c) as int),
    decreases n,
{
    if n > 0 {
        lemma_row_sum_uniform(im, w, h, size, x0, y0, b, g, r, y, n - 1, c);
        lemma_block_uniform_pixel(im, w, h, size, x0, y0, b, g, r, x0 + n - 1, y, c);
        let v = bgr_chan(b, g, r, c) as int;
        assert(row_chan_sum(im, w, y, x0, n, c) == row_chan_sum(im, w, y, x0, n - 1, c)
            + im[pix_idx(w, x0 + n - 1, y, c)]);
        assert(n * v == (n - 1) * v + v) by {
            lemma_mul_is_distributive_sub(v, n, 1);
            lemma_mul_is_commutative(v, n);
            lemma_mul_is_commutative(v, n - 1);
        }
    } else {
        assert(n * (bgr_chan(b, g, r, c) as int) == 0) by {
            vstd::arithmetic::mul::lemma_mul_by_zero_is_zero(bgr_chan(b, g, r, c) as int);
        }
    }
}

/// Over a uniform block, the channel sum of the first `nrows` rows is the
/// pixel count times the channel value.
pub proof fn lemma_block_sum_uniform(
    im: Seq<u8>,
    w: int,
    h: int,
    size: int,
    x0: int,
    y0: int,
    b: u8,
    g: u8,
    r: u8,
    nrows: int,
    c: int,
)
    requires
        block_uniform(im, w, size, x0, y0, b, g, r),
        im.len() == 3 * (w * h),
        0 <= x0,
        0 <= y0,
        x0 + size <= w,
        y0 + size <= h,
        0 <= nrows <= size,
        0 <= c < 3,
    ensures
        block_chan_sum(im, w, x0, y0, size, nrows, c) == (nrows * size) * (
        bgr_chan(b, g, r, c) as int),
    decreases nrows,
{
    let v = bgr_chan(b, g, r, c) as int;
    if nrows <= 0 {
        assert((nrows * size) * v == 0) by {
            vstd::arithmetic::mul::lemma_mul_by_zero_is_zero(size);
            vstd::arithmetic::mul::lemma_mul_by_zero_is_zero(v);
        }
    } else {
        lemma_block_sum_uniform(im, w, h, size, x0, y0, b, g, r, nrows - 1, c);
        lemma_row_sum_uniform(im, w, h, size, x0, y0, b, g, r, y0 + nrows - 1, size, c);
        assert((nrows * size) * v == ((nrows - 1) * size) * v + size * v) by {
            lemma_mul_is_distributive_sub(size, nrows, 1);
            lemma_mul_is_commutative(size, nrows);
            lemma_mul_is_commutative(size, nrows - 1);
            lemma_mul_is_distributive_sub_other_way(v, nrows * size, (nrows - 1) * size);
            assert((nrows * size - (nrows - 1) * size) * v == nrows * size * v - (nrows - 1)
                * size * v);
        }
    }
}

/// Reading a uniform block returns exactly the written triple: the mean of a
/// constant is that constant.
pub proof fn lemma_block_avg_uniform(
    im: Seq<u8>,
    w: int,
    h: int,
    size: int,
    x0: int,
    y0: int,
    b: u8,
    g: u8,
    r: u8,
    c: int,
)
    requires
        block_uniform(im, w, size, x0, y0, b, g, r),
        im.len() == 3 * (w * h),
        0 <= x0,
        0 <= y0,
        1 <= size,
        x0 + size <= w,
        y0 + size <= h,
        0 <= c < 3,
    ensures
        block_avg(im, w, x0, y0, size, c) == bgr_chan(b, g, r, c) as int,
{
    let v = bgr_chan(b, g, r, c) as int;
    lemma_block_sum_uniform(im, w, h, size, x0, y0, b, g, r, size, c);
    lemma_mul_strictly_positive(size, size);
    assert(((size * size) * v) / (size * size) == v) by {
        lemma_mul_is_commutative(size * size, v);
        lemma_div_by_multiple(v, size * size);
    }
}

/// Over a block whose channel `c` lies between `lo` and `hi` in every pixel,
/// a row segment's channel sum lies between `n * lo` and `n * hi`.
proof fn lemma_row_sum_bounded(
    im: Seq<u8>,
    w: int,
    h: int,
    size: int,
    x0: int,
    y0: int,
    lo: int,
    hi: int,
    y: int,
    n: int,
    c: int,
)
    requires
        block_chan_bounded(im, w, size, x0, y0, c, lo, hi),
        im.len() == 3 * (w * h),
        0 <= x0,
        0 <= y0,
        x0 + size <= w,
        y0 + size <= h,
        y0 <= y < y0 + size,
        0 <= n <= size,
        0 <= c < 3,
    ensures
        n * lo <= row_chan_sum(im, w, y, x0, n, c) <= n * hi,
    decreases n,
{
    if n > 0 {
        lemma_row_sum_bounded(im, w, h, size, x0, y0, lo, hi, y, n - 1, c);
        lemma_pix_idx(w, h, x0 + n - 1, y, c);
        assert(in_block(pix_idx(w, x0 + n - 1, y, c), w, size, x0, y0));
        assert(lo <= im[pix_idx(w, x0 + n - 1, y, c)] <= hi);
        assert(n * lo == (n - 1) * lo + lo && n * hi == (n - 1) * hi + hi) by {
            lemma_mul_is_distributive_sub(lo, n, 1);
            lemma_mul_is_commutative(lo, n);
            lemma_mul_is_commutative(lo, n - 1);
            lemma_mul_is_distributive_sub(hi, n, 1);
            lemma_mul_is_commutative(hi, n);
            lemma_mul_is_commutative(hi, n - 1);
        }
    } else {
        assert(n * lo == 0 && n * hi == 0) by {
            vstd::arithmetic::mul::lemma_mul_by_zero_is_zero(lo);
            vstd::arithmetic::mul::lemma_mul_by_zero_is_zero(hi);
        }
    }
}

/// Over a block whose channel `c` lies between `lo` and `hi` in every pixel,
/// the channel mean lies between `lo` and `hi` as well.
pub proof fn lemma_block_avg_bounded(
    im: Seq<u8>,
    w: int,
    h: int,
    size: int,
    x0: int,
    y0: int,
    lo: int,
    hi: int,
    c: int,
)
    requires
        block_chan_bounded(im, w, size, x0, y0, c, lo, hi),
        im.len() == 3 * (w * h),
        0 <= x0,
        0 <= y0,
        1 <= size,
        x0 + size <= w,
        y0 + size <= h,
        0 <= lo <= hi,
        0 <= c < 3,
    ensures
        lo <= block_avg(im, w, x0, y0, size, c) <= hi,
{
    lemma_block_sum_within(im, w, h, size, x0, y0, lo, hi, size, c);
    let s = block_chan_sum(im, w, x0, y0, size, size, c);
    let n = size * size;
    lemma_mul_strictly_positive(size, size);
    assert((n * lo) / n == lo && (n * hi) / n == hi) by {
        lemma_mul_is_commutative(n, lo);
        lemma_div_by_multiple(lo, n);
        lemma_mul_is_commutative(n, hi);
        lemma_div_by_multiple(hi, n);
    }
    lemma_div_is_ordered(n * lo, s, n);
    lemma_div_is_ordered(s, n * hi, n);
}

/// Over a bounded block, the channel sum of the first `nrows` rows lies
/// between the pixel count times `lo` and times `hi`.
proof fn lemma_block_sum_within(
    im: Seq<u8>,
    w: int,
    h: int,
    size: int,
    x0: int,
    y0: int,
    lo: int,
    hi: int,
    nrows: int,
    c: int,
)
    requires
        block_chan_bounded(im, w, size, x0, y0, c, lo, hi),
        im.len() == 3 * (w * h),
        0 <= x0,
        0 <= y0,
        x0 + size <= w,
        y0 + size <= h,
        0 <= nrows <= size,
        0 <= c < 3,
    ensures
        (nrows * size) * lo <= block_chan_sum(im, w, x0, y0, size, nrows, c) <= (nrows * size)
            * hi,
    decreases nrows,
{
    if nrows <= 0 {
        assert((nrows * size) * lo == 0 && (nrows * size) * hi == 0) by {
            vstd::arithmetic::mul::lemma_mul_by_zero_is_zero(size);
            vstd::arithmetic::mul::lemma_mul_by_zero_is_zero(lo);
            vstd::arithmetic::mul::lemma_mul_by_zero_is_zero(hi);
        }
    } else {
        lemma_block_sum_within(im, w, h, size, x0, y0, lo, hi, nrows - 1, c);
        lemma_row_sum_bounded(im, w, h, size, x0, y0, lo, hi, y0 + nrows - 1, size, c);
        assert forall|v: int| #[trigger] ((nrows * size) * v) == ((nrows - 1) * size) * v + size
            * v by {
            lemma_mul_is_distributive_sub(size, nrows, 1);
            lemma_mul_is_commutative(size, nrows);
            lemma_mul_is_commutative(size, nrows - 1);
            lemma_mul_is_distributive_sub_other_way(v, nrows * size, (nrows - 1) * size);
        }
        assert((nrows * size) * lo == ((nrows - 1) * size) * lo + size * lo);
        assert((nrows * size) * hi == ((nrows - 1) * size) * hi + size * hi);
    }
}

/// Pixel dimensions of a frame.
#[derive(Clone, Copy, PartialEq, Eq, Structural, Debug)]
pub struct FrameSize {
    pub width: usize,
    pub height: usize,
}

/// One image buffer plus its block geometry. `frame_size` is the nominal
/// frame; `actual_size` is the active area, each dimension rounded down to a
/// multiple of the block side `size`.
pub struct EmbedSource {
    pub image: Vec<u8>,
    pub size: usize,
    pub frame_size: FrameSize,
    pub actual_size: FrameSize,
}

impl EmbedSource {
    /// Well-formedness: a positive block side, an active area derived from
    /// the nominal size, and a buffer of exactly three bytes per pixel.
    pub open spec fn wf(self) -> bool {
        &&& 1 <= self.size
        &&& self.actual_size.width == self.frame_size.width - self.frame_size.width
            % self.size
        &&& self.actual_size.height == self.frame_size.height - self.frame_size.height
            % self.size
        &&& self.image@.len() == 3 * (self.frame_size.width * self.frame_size.height)
    }

    /// Number of block columns in the active area.
    pub open spec fn cols(self) -> int {
        self.actual_size.width as int / self.size as int
    }

    /// Number of block rows in the active area.
    pub open spec fn rows(self) -> int {
        self.actual_size.height as int / self.size as int
    }

    /// A fresh zero-initialized (black) canvas of the given geometry.
    pub fn new(size: usize, width: usize, height: usize) -> (s: EmbedSource)
        requires
            1 <= size,
            width * height * 3 <= usize::MAX,
        ensures
            s.wf(),
            s.size == size,
            s.frame_size == (FrameSize { width, height }),
            s.image@ == Seq::new(3 * (width * height) as nat, |q: int| 0u8),
    {
        proof {
            lemma_mul_is_commutative(width as int, height as int);
            assert(width * height * 3 == 3 * (width * height));
        }
        let total: usize = 3 * (width * height);
        let mut image: Vec<u8> = Vec::new();
        let mut q: usize = 0;
        while q < total
            invariant
                q <= total,
                image@.len() == q,
                forall|j: int| 0 <= j < q ==> image@[j] == 0u8,
            decreases total - q,
        {
            image.push(0u8);
            q += 1;
        }
        proof {
            vstd::arithmetic::div_mod::lemma_mod_decreases(width as nat, size as nat);
            vstd::arithmetic::div_mod::lemma_mod_decreases(height as nat, size as nat);
        }
        let actual_width = width - (width % size);
        let actual_height = height - (height % size);
        let s = EmbedSource {
            image,
            size,
            frame_size: FrameSize { width, height },
            actual_size: FrameSize { width: actual_width, height: actual_height },
        };
        proof {
            assert(s.image@ =~= Seq::new(3 * (width * height) as nat, |j: int| 0u8));
        }
        s
    }

    /// Adopts an existing decoded image of the given nominal size. Rejects a
    /// buffer that does not match the dimensions, and a frame height that the
    /// block does not divide -- unless the caller declares the frame to be an
    /// instruction frame, whose fixed block of five need not divide incoming
    /// heights.
    pub fn from(image: Vec<u8>, size: usize, width: usize, height: usize, instruction: bool) -> (r:
        Result<EmbedSource, EtchError>)
        requires
            1 <= size,
            width * height * 3 <= usize::MAX,
        ensures
            r is Ok <==> image@.len() == 3 * (width * height) && (instruction || height % size
                == 0),
            r is Ok ==> {
                let s = r->Ok_0;
                &&& s.wf()
                &&& s.size == size
                &&& s.frame_size == (FrameSize { width, height })
                &&& s.image@ == image@
            },
            r is Err ==> r->Err_0 == EtchError::Geometry,
    {
        proof {
            lemma_mul_is_commutative(width as int, height as int);
            assert(width * height * 3 == 3 * (width * height));
        }
        let total: usize = 3 * (width * height);
        if image.len() != total {
            return Err(EtchError::Geometry);
        }
        if height % size != 0 && !instruction {
            return Err(EtchError::Geometry);
        }
        proof {
            vstd::arithmetic::div_mod::lemma_mod_decreases(width as nat, size as nat);
            vstd::arithmetic::div_mod::lemma_mod_decreases(height as nat, size as nat);
        }
        let actual_width = width - (width % size);
        let actual_height = height - (height % size);
        Ok(
            EmbedSource {
                image,
                size,
                frame_size: FrameSize { width, height },
                actual_size: FrameSize { width: actual_width, height: actual_height },
            },
        )
    }
}

} // verus!

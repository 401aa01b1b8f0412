//! The block grid of a frame and the canonical image a filled frame has.
//!
//! A frame of nominal size `w x h` with block side `size` carries a grid of
//! `(h / size)` block rows by `(w / size)` block columns, scanned row-major.
//! Filling a frame from a payload position paints a prefix of that grid with
//! uniform blocks and leaves every other pixel at zero; `frame_image` is the
//! resulting buffer, stated as a function of the payload alone.

use vstd::prelude::*;
use vstd::arithmetic::div_mod::{
    lemma_fundamental_div_mod, lemma_fundamental_div_mod_converse, lemma_div_is_ordered,
    lemma_div_pos_is_pos, lemma_mod_division_less_than_divisor,
};
use vstd::arithmetic::mul::{
    lemma_mul_inequality, lemma_mul_is_commutative, lemma_mul_is_distributive_add_other_way,
    lemma_mul_nonnegative,
};

use crate::source::{
    bgr_chan, block_avg, block_uniform, in_block, lemma_block_avg_uniform, lemma_pix_decompose,
    px_chan, px_col, px_row, EmbedSource,
};

verus! {

/// Ceiling division, for a positive divisor.
pub open spec fn ceil_div(a: int, b: int) -> int {
    (a + b - 1) / b
}

/// Number of block columns in a frame of nominal width `w`.
pub open spec fn grid_cols(w: int, size: int) -> int {
    w / size
}

/// Number of block rows in a frame of nominal height `h`.
pub open spec fn grid_rows(h: int, size: int) -> int {
    h / size
}

/// Number of blocks in the frame's grid.
pub open spec fn nblocks(w: int, h: int, size: int) -> int {
    grid_rows(h, size) * grid_cols(w, size)
}

/// Pixel column of the left edge of block `k` (row-major block index).
pub open spec fn blk_x(cols: int, size: int, k: int) -> int {
    (k % cols) * size
}

/// Pixel row of the top edge of block `k`.
pub open spec fn blk_y(cols: int, size: int, k: int) -> int {
    (k / cols) * size
}

/// Block index that buffer index `q` falls in.
pub open spec fn blk_of(q: int, w: int, size: int) -> int {
    (px_row(q, w) / size) * grid_cols(w, size) + px_col(q, w) / size
}

/// The byte at payload position `u`, zero once the payload is exhausted (the
/// trailing channels of a final partial block are padded with zeros).
pub open spec fn color_byte(d: Seq<u8>, u: int) -> u8 {
    if 0 <= u < d.len() {
        d[u]
    } else {
        0
    }
}

/// The bit at payload position `u`; positions past the end read as zero.
pub open spec fn bit_at(bits: Seq<bool>, u: int) -> bool {
    0 <= u < bits.len() && bits[u]
}

/// The `(blue, green, red)` triple block `k` carries in color mode when the
/// frame is filled starting at payload position `i0`: three consecutive
/// payload bytes in the order red, green, blue.
pub open spec fn color_vals(d: Seq<u8>, i0: int) -> spec_fn(int) -> (u8, u8, u8) {
    |k: int| (color_byte(d, i0 + 3 * k + 2), color_byte(d, i0 + 3 * k + 1), color_byte(d, i0 + 3 * k))
}

/// The triple block `k` carries in binary mode: all-white for a one bit,
/// all-black for a zero bit.
pub open spec fn bw_vals(bits: Seq<bool>, i0: int) -> spec_fn(int) -> (u8, u8, u8) {
    |k: int| if bit_at(bits, i0 + k) {
        (255u8, 255u8, 255u8)
    } else {
        (0u8, 0u8, 0u8)
    }
}

/// How many blocks a color fill starting at `i0` paints: one block per three
/// remaining bytes (the last block may carry only one or two), capped by the
/// grid size.
pub open spec fn color_blocks_written(len: int, i0: int, nb: int) -> int {
    if ceil_div(len - i0, 3) <= nb {
        ceil_div(len - i0, 3)
    } else {
        nb
    }
}

/// How many blocks a binary fill starting at `i0` paints: one per remaining
/// bit, capped by the grid size.
pub open spec fn bw_blocks_written(len: int, i0: int, nb: int) -> int {
    if len - i0 <= nb {
        len - i0
    } else {
        nb
    }
}

/// The value of buffer index `q` in a frame whose first `m` grid blocks were
/// painted with the triples `vals` and whose other pixels are still zero.
pub open spec fn frame_px(
    w: int,
    h: int,
    size: int,
    m: int,
    vals: spec_fn(int) -> (u8, u8, u8),
    q: int,
) -> u8 {
    let cols = grid_cols(w, size);
    let rows = grid_rows(h, size);
    let x = px_col(q, w);
    let y = px_row(q, w);
    let k = blk_of(q, w, size);
    if x < cols * size && y < rows * size && k < m {
        bgr_chan(vals(k).0, vals(k).1, vals(k).2, px_chan(q))
    } else {
        0
    }
}

/// The whole canonical buffer of such a frame.
pub open spec fn frame_image(
    w: int,
    h: int,
    size: int,
    m: int,
    vals: spec_fn(int) -> (u8, u8, u8),
) -> Seq<u8> {
    Seq::new((3 * (w * h)) as nat, |q: int| frame_px(w, h, size, m, vals, q))
}

/// The canonical buffer of a color-mode frame filled from payload position
/// `i0`.
pub open spec fn color_frame_image(d: Seq<u8>, i0: int, size: int, w: int, h: int) -> Seq<u8> {
    frame_image(
        w,
        h,
        size,
        color_blocks_written(d.len() as int, i0, nblocks(w, h, size)),
        color_vals(d, i0),
    )
}

/// The canonical buffer of a binary-mode frame filled from bit position `i0`.
pub open spec fn bw_frame_image(bits: Seq<bool>, i0: int, size: int, w: int, h: int) -> Seq<u8> {
    frame_image(
        w,
        h,
        size,
        bw_blocks_written(bits.len() as int, i0, nblocks(w, h, size)),
        bw_vals(bits, i0),
    )
}

/// A well-formed canvas's active area is exactly its block grid.
pub proof fn lemma_grid(s: EmbedSource)
    requires
        s.wf(),
    ensures
        grid_cols(s.frame_size.width as int, s.size as int) * s.size
            == s.actual_size.width as int,
        grid_rows(s.frame_size.height as int, s.size as int) * s.size
            == s.actual_size.height as int,
        0 <= grid_cols(s.frame_size.width as int, s.size as int),
        0 <= grid_rows(s.frame_size.height as int, s.size as int),
        s.actual_size.width <= s.frame_size.width,
        s.actual_size.height <= s.frame_size.height,
{
    let w = s.frame_size.width as int;
    let h = s.frame_size.height as int;
    let size = s.size as int;
    lemma_fundamental_div_mod(w, size);
    lemma_fundamental_div_mod(h, size);
    lemma_div_pos_is_pos(w, size);
    lemma_div_pos_is_pos(h, size);
    lemma_mul_is_commutative(size, w / size);
    lemma_mul_is_commutative(size, h / size);
}

/// Bounds of block `k`'s pixel rectangle inside the active area.
pub proof fn lemma_blk_coords(w: int, h: int, size: int, k: int)
    requires
        1 <= size,
        0 <= w,
        0 <= h,
        0 <= k < nblocks(w, h, size),
    ensures
        0 < grid_cols(w, size),
        0 < grid_rows(h, size),
        0 <= k % grid_cols(w, size) < grid_cols(w, size),
        0 <= k / grid_cols(w, size) < grid_rows(h, size),
        0 <= blk_x(grid_cols(w, size), size, k),
        blk_x(grid_cols(w, size), size, k) + size <= grid_cols(w, size) * size,
        0 <= blk_y(grid_cols(w, size), size, k),
        blk_y(grid_cols(w, size), size, k) + size <= grid_rows(h, size) * size,
{
    let cols = grid_cols(w, size);
    let rows = grid_rows(h, size);
    lemma_div_pos_is_pos(w, size);
    lemma_div_pos_is_pos(h, size);
    assert(0 < cols && 0 < rows) by {
        if cols <= 0 || rows <= 0 {
            assert(rows * cols <= 0) by (nonlinear_arith)
                requires
                    (cols <= 0 || rows <= 0) && cols >= 0 && rows >= 0,
            ;
        }
    }
    lemma_mod_division_less_than_divisor(k, cols);
    lemma_div_pos_is_pos(k, cols);
    assert(k / cols < rows) by {
        assert((rows * cols - 1) / cols == rows - 1) by {
            assert((rows - 1) * cols + (cols - 1) == rows * cols - 1) by {
                lemma_mul_is_distributive_add_other_way(cols, rows - 1, 1);
            }
            lemma_fundamental_div_mod_converse(rows * cols - 1, cols, rows - 1, cols - 1);
        }
        lemma_div_is_ordered(k, rows * cols - 1, cols);
    }
    assert(blk_x(cols, size, k) + size <= cols * size) by {
        lemma_mul_inequality(k % cols + 1, cols, size);
        lemma_mul_is_distributive_add_other_way(size, k % cols, 1);
    }
    assert(blk_y(cols, size, k) + size <= rows * size) by {
        lemma_mul_inequality(k / cols + 1, rows, size);
        lemma_mul_is_distributive_add_other_way(size, k / cols, 1);
    }
    assert(0 <= blk_x(cols, size, k)) by {
        lemma_mul_nonnegative(k % cols, size);
    }
    assert(0 <= blk_y(cols, size, k)) by {
        lemma_mul_nonnegative(k / cols, size);
    }
}

/// A pixel position lies in at most one grid block.
pub proof fn lemma_block_index_unique(w: int, size: int, k1: int, k2: int, q: int)
    requires
        1 <= size,
        0 < grid_cols(w, size),
        0 <= k1,
        0 <= k2,
        in_block(q, w, size, blk_x(grid_cols(w, size), size, k1), blk_y(grid_cols(w, size), size, k1)),
        in_block(q, w, size, blk_x(grid_cols(w, size), size, k2), blk_y(grid_cols(w, size), size, k2)),
    ensures
        k1 == k2,
{
    let cols = grid_cols(w, size);
    let x = px_col(q, w);
    let y = px_row(q, w);
    lemma_fundamental_div_mod_converse(x, size, k1 % cols, x - (k1 % cols) * size);
    lemma_fundamental_div_mod_converse(x, size, k2 % cols, x - (k2 % cols) * size);
    lemma_fundamental_div_mod_converse(y, size, k1 / cols, y - (k1 / cols) * size);
    lemma_fundamental_div_mod_converse(y, size, k2 / cols, y - (k2 / cols) * size);
    assert(k1 % cols == k2 % cols && k1 / cols == k2 / cols);
    lemma_fundamental_div_mod(k1, cols);
    lemma_fundamental_div_mod(k2, cols);
}

/// The buffer index `q` lies in grid block `blk_of(q)`, and that block is a
/// real block of the grid, whenever `q`'s pixel is inside the active area.
pub proof fn lemma_blk_of(w: int, h: int, size: int, q: int)
    requires
        1 <= size,
        0 < w,
        0 < h,
        0 <= q < 3 * (w * h),
        px_col(q, w) < grid_cols(w, size) * size,
        px_row(q, w) < grid_rows(h, size) * size,
    ensures
        0 <= blk_of(q, w, size) < nblocks(w, h, size),
        blk_of(q, w, size) % grid_cols(w, size) == px_col(q, w) / size,
        blk_of(q, w, size) / grid_cols(w, size) == px_row(q, w) / size,
        in_block(
            q,
            w,
            size,
            blk_x(grid_cols(w, size), size, blk_of(q, w, size)),
            blk_y(grid_cols(w, size), size, blk_of(q, w, size)),
        ),
{
    let cols = grid_cols(w, size);
    let rows = grid_rows(h, size);
    let x = px_col(q, w);
    let y = px_row(q, w);
    lemma_pix_decompose(w, h, q);
    let bj = x / size;
    let bi = y / size;
    lemma_div_pos_is_pos(x, size);
    lemma_div_pos_is_pos(y, size);
    assert(bj < cols) by {
        assert((cols * size - 1) / size == cols - 1) by {
            assert((cols - 1) * size + (size - 1) == cols * size - 1) by {
                lemma_mul_is_distributive_add_other_way(size, cols - 1, 1);
            }
            lemma_fundamental_div_mod_converse(cols * size - 1, size, cols - 1, size - 1);
        }
        lemma_div_is_ordered(x, cols * size - 1, size);
    }
    assert(bi < rows) by {
        assert((rows * size - 1) / size == rows - 1) by {
            assert((rows - 1) * size + (size - 1) == rows * size - 1) by {
                lemma_mul_is_distributive_add_other_way(size, rows - 1, 1);
            }
            lemma_fundamental_div_mod_converse(rows * size - 1, size, rows - 1, size - 1);
        }
        lemma_div_is_ordered(y, rows * size - 1, size);
    }
    let k = bi * cols + bj;
    assert(k % cols == bj && k / cols == bi) by {
        lemma_fundamental_div_mod_converse(k, cols, bi, bj);
    }
    assert(k < rows * cols) by {
        lemma_mul_inequality(bi, rows - 1, cols);
        lemma_mul_is_distributive_add_other_way(cols, rows - 1, 1);
    }
    assert(0 <= k) by {
        lemma_mul_nonnegative(bi, cols);
    }
    assert(in_block(q, w, size, blk_x(cols, size, k), blk_y(cols, size, k))) by {
        lemma_fundamental_div_mod(x, size);
        lemma_fundamental_div_mod(y, size);
        vstd::arithmetic::div_mod::lemma_mod_division_less_than_divisor(x, size);
        vstd::arithmetic::div_mod::lemma_mod_division_less_than_divisor(y, size);
        lemma_mul_is_commutative(size, bj);
        lemma_mul_is_commutative(size, bi);
    }
}

/// A buffer whose first `m` grid blocks are uniform with the triples `vals`
/// and whose every other pixel is zero is exactly the canonical frame image.
pub proof fn lemma_frame_pixels(
    im: Seq<u8>,
    w: int,
    h: int,
    size: int,
    m: int,
    vals: spec_fn(int) -> (u8, u8, u8),
)
    requires
        1 <= size,
        0 < w,
        0 < h,
        im.len() == 3 * (w * h),
        0 <= m <= nblocks(w, h, size),
        forall|k: int|
            0 <= k < m ==> block_uniform(
                im,
                w,
                size,
                #[trigger] blk_x(grid_cols(w, size), size, k),
                blk_y(grid_cols(w, size), size, k),
                vals(k).0,
                vals(k).1,
                vals(k).2,
            ),
        forall|q: int|
            0 <= q < im.len() && (forall|k: int|
                0 <= k < m ==> !in_block(
                    q,
                    w,
                    size,
                    #[trigger] blk_x(grid_cols(w, size), size, k),
                    blk_y(grid_cols(w, size), size, k),
                )) ==> #[trigger] im[q] == 0,
    ensures
        im == frame_image(w, h, size, m, vals),
{
    let cols = grid_cols(w, size);
    let rows = grid_rows(h, size);
    assert forall|q: int| 0 <= q < im.len() implies im[q] == frame_px(w, h, size, m, vals, q) by {
        lemma_pix_decompose(w, h, q);
        let x = px_col(q, w);
        let y = px_row(q, w);
        if x < cols * size && y < rows * size {
            lemma_blk_of(w, h, size, q);
            let k = blk_of(q, w, size);
            if k < m {
                assert(block_uniform(
                    im,
                    w,
                    size,
                    blk_x(cols, size, k),
                    blk_y(cols, size, k),
                    vals(k).0,
                    vals(k).1,
                    vals(k).2,
                ));
                assert(im[q] == bgr_chan(vals(k).0, vals(k).1, vals(k).2, px_chan(q)));
            } else {
                assert forall|k2: int| 0 <= k2 < m implies !in_block(
                    q,
                    w,
                    size,
                    blk_x(cols, size, k2),
                    blk_y(cols, size, k2),
                ) by {
                    if in_block(q, w, size, blk_x(cols, size, k2), blk_y(cols, size, k2)) {
                        lemma_block_index_unique(w, size, k, k2, q);
                    }
                }
                assert(im[q] == 0);
            }
        } else {
            assert forall|k2: int| 0 <= k2 < m implies !in_block(
                q,
                w,
                size,
                blk_x(cols, size, k2),
                blk_y(cols, size, k2),
            ) by {
                lemma_blk_coords(w, h, size, k2);
            }
            assert(im[q] == 0);
        }
    }
    assert(im =~= frame_image(w, h, size, m, vals));
}

/// Inside the canonical frame image, each painted block is uniform with its
/// triple.
pub proof fn lemma_frame_image_block_uniform(
    w: int,
    h: int,
    size: int,
    m: int,
    vals: spec_fn(int) -> (u8, u8, u8),
    k: int,
)
    requires
        1 <= size,
        0 < w,
        0 < h,
        0 <= m <= nblocks(w, h, size),
        0 <= k < m,
    ensures
        block_uniform(
            frame_image(w, h, size, m, vals),
            w,
            size,
            blk_x(grid_cols(w, size), size, k),
            blk_y(grid_cols(w, size), size, k),
            vals(k).0,
            vals(k).1,
            vals(k).2,
        ),
{
    let im = frame_image(w, h, size, m, vals);
    let cols = grid_cols(w, size);
    lemma_blk_coords(w, h, size, k);
    assert forall|q: int|
        0 <= q < im.len() && #[trigger] in_block(q, w, size, blk_x(cols, size, k), blk_y(cols, size, k))
        implies im[q] == bgr_chan(vals(k).0, vals(k).1, vals(k).2, px_chan(q)) by {
        lemma_blk_of(w, h, size, q);
        lemma_block_index_unique(w, size, blk_of(q, w, size), k, q);
    }
}


/// Channel read order of color mode: red, then green, then blue.
pub open spec fn chan_for_read(j: int) -> int {
    if j == 0 {
        2
    } else if j == 1 {
        1
    } else {
        0
    }
}

/// The byte sequence a color read of a whole frame collects: for each grid
/// block in row-major order, the red, green and blue channel means.
pub open spec fn frame_color_reads(im: Seq<u8>, w: int, h: int, size: int) -> Seq<u8> {
    Seq::new(
        (3 * nblocks(w, h, size)) as nat,
        |u: int| crate::source::block_avg(
            im,
            w,
            blk_x(grid_cols(w, size), size, u / 3),
            blk_y(grid_cols(w, size), size, u / 3),
            size,
            chan_for_read(u % 3),
        ) as u8,
    )
}

/// The bit sequence a binary read of a whole frame collects: one bit per grid
/// block, true when the block's red channel mean reaches the threshold 127.
pub open spec fn frame_bits(im: Seq<u8>, w: int, h: int, size: int) -> Seq<bool> {
    Seq::new(
        nblocks(w, h, size) as nat,
        |k: int| crate::source::block_avg(
            im,
            w,
            blk_x(grid_cols(w, size), size, k),
            blk_y(grid_cols(w, size), size, k),
            size,
            2,
        ) >= 127,
    )
}

/// The executable grid counts (active dimension over block side) agree with
/// the nominal-dimension spec counts.
pub proof fn lemma_grid_counts(s: EmbedSource)
    requires
        s.wf(),
    ensures
        s.actual_size.width as int / s.size as int == grid_cols(
            s.frame_size.width as int,
            s.size as int,
        ),
        s.actual_size.height as int / s.size as int == grid_rows(
            s.frame_size.height as int,
            s.size as int,
        ),
{
    lemma_grid(s);
    let size = s.size as int;
    let cols = grid_cols(s.frame_size.width as int, size);
    let rows = grid_rows(s.frame_size.height as int, size);
    assert((cols * size) / size == cols) by {
        lemma_div_pos_is_pos(s.frame_size.width as int, size);
        vstd::arithmetic::div_mod::lemma_div_by_multiple(cols, size);
    }
    assert((rows * size) / size == rows) by {
        lemma_div_pos_is_pos(s.frame_size.height as int, size);
        vstd::arithmetic::div_mod::lemma_div_by_multiple(rows, size);
    }
}

/// Row-major index and pixel rectangle of the block in block-row `bi`,
/// block-column `bj`.
pub proof fn lemma_blk_index(w: int, h: int, size: int, bi: int, bj: int)
    requires
        1 <= size,
        0 <= bj < grid_cols(w, size),
        0 <= bi < grid_rows(h, size),
    ensures
        ({
            let cols = grid_cols(w, size);
            let k = bi * cols + bj;
            &&& 0 <= k < nblocks(w, h, size)
            &&& k % cols == bj
            &&& k / cols == bi
            &&& blk_x(cols, size, k) == bj * size
            &&& blk_y(cols, size, k) == bi * size
            &&& bj * size + size <= cols * size
            &&& bi * size + size <= grid_rows(h, size) * size
        }),
{
    let cols = grid_cols(w, size);
    let rows = grid_rows(h, size);
    let k = bi * cols + bj;
    lemma_fundamental_div_mod_converse(k, cols, bi, bj);
    assert(0 <= k) by {
        lemma_mul_nonnegative(bi, cols);
    }
    assert(k < rows * cols) by {
        lemma_mul_inequality(bi, rows - 1, cols);
        lemma_mul_is_distributive_add_other_way(cols, rows - 1, 1);
    }
    assert(bj * size + size <= cols * size) by {
        lemma_mul_inequality(bj + 1, cols, size);
        lemma_mul_is_distributive_add_other_way(size, bj, 1);
    }
    assert(bi * size + size <= rows * size) by {
        lemma_mul_inequality(bi + 1, rows, size);
        lemma_mul_is_distributive_add_other_way(size, bi, 1);
    }
}

/// The canonical frame depends only on the triples of the blocks it paints.
pub proof fn lemma_frame_image_congruence(
    w: int,
    h: int,
    size: int,
    m: int,
    vals1: spec_fn(int) -> (u8, u8, u8),
    vals2: spec_fn(int) -> (u8, u8, u8),
)
    requires
        1 <= size,
        0 < w,
        0 < h,
        forall|k: int| 0 <= k < m ==> #[trigger] vals1(k) == vals2(k),
    ensures
        frame_image(w, h, size, m, vals1) == frame_image(w, h, size, m, vals2),
{
    let im1 = frame_image(w, h, size, m, vals1);
    let im2 = frame_image(w, h, size, m, vals2);
    assert forall|q: int| 0 <= q < im1.len() implies im1[q] == im2[q] by {
        let k = blk_of(q, w, size);
        if px_col(q, w) < grid_cols(w, size) * size && px_row(q, w) < grid_rows(h, size) * size
            && k < m {
            assert(0 <= q / 3) by {
                lemma_div_pos_is_pos(q, 3);
            }
            assert(0 <= px_row(q, w) && 0 <= px_col(q, w)) by {
                lemma_div_pos_is_pos(q / 3, w);
                lemma_mod_division_less_than_divisor(q / 3, w);
            }
            assert(0 <= px_row(q, w) / size && 0 <= px_col(q, w) / size) by {
                lemma_div_pos_is_pos(px_row(q, w), size);
                lemma_div_pos_is_pos(px_col(q, w), size);
            }
            assert(0 <= k) by {
                lemma_mul_nonnegative(px_row(q, w) / size, grid_cols(w, size));
            }
            assert(vals1(k) == vals2(k));
        }
    }
    assert(im1 =~= im2);
}

/// Filling a frame from a chunk of the payload paints the same frame as
/// filling it from the whole payload at the corresponding offset, provided
/// the chunk either reaches the payload's end or still holds a whole frame's
/// worth of bytes past the start position.
pub proof fn lemma_color_frame_slice(
    d: Seq<u8>,
    a: int,
    b: int,
    i0: int,
    size: int,
    w: int,
    h: int,
)
    requires
        1 <= size,
        0 < w,
        0 < h,
        0 <= a <= b <= d.len(),
        0 <= i0,
        b == d.len() || b - a - i0 >= 3 * nblocks(w, h, size),
        0 <= nblocks(w, h, size),
    ensures
        color_frame_image(d.subrange(a, b), i0, size, w, h) == color_frame_image(
            d,
            a + i0,
            size,
            w,
            h,
        ),
{
    let ch = d.subrange(a, b);
    let nb = nblocks(w, h, size);
    let m1 = color_blocks_written(b - a, i0, nb);
    let m2 = color_blocks_written(d.len() as int, a + i0, nb);
    assert(m1 == m2) by {
        if b == d.len() {
            assert(b - a - i0 == d.len() - (a + i0));
        } else {
            assert(ceil_div(b - a - i0, 3) >= nb) by {
                lemma_div_is_ordered(3 * nb + 2, b - a - i0 + 2, 3);
                lemma_fundamental_div_mod_converse(3 * nb + 2, 3, nb, 2);
            }
            assert(ceil_div(d.len() - (a + i0), 3) >= nb) by {
                lemma_div_is_ordered(3 * nb + 2, d.len() - (a + i0) + 2, 3);
                lemma_fundamental_div_mod_converse(3 * nb + 2, 3, nb, 2);
            }
        }
    }
    assert forall|k: int| 0 <= k < m1 implies #[trigger] color_vals(ch, i0)(k) == color_vals(
        d,
        a + i0,
    )(k) by {
        assert forall|u: int| i0 <= u < i0 + 3 * k + 3 implies color_byte(ch, u) == color_byte(
            d,
            a + u,
        ) by {
            if 0 <= u < ch.len() {
                assert(ch[u] == d[a + u]);
            } else {
                if b != d.len() {
                    assert(3 * k + 3 <= 3 * m1 <= 3 * nb) by {
                        lemma_mul_inequality(k + 1, m1, 3);
                        lemma_mul_inequality(m1, nb, 3);
                        lemma_mul_is_commutative(k + 1, 3);
                        lemma_mul_is_commutative(m1, 3);
                        lemma_mul_is_commutative(nb, 3);
                    }
                    assert(u < i0 + 3 * nb <= b - a);
                    assert(false);
                }
            }
        }
        assert(color_byte(ch, i0 + 3 * k) == color_byte(d, a + i0 + 3 * k));
        assert(color_byte(ch, i0 + 3 * k + 1) == color_byte(d, a + i0 + 3 * k + 1));
        assert(color_byte(ch, i0 + 3 * k + 2) == color_byte(d, a + i0 + 3 * k + 2));
    }
    lemma_frame_image_congruence(w, h, size, m1, color_vals(ch, i0), color_vals(d, a + i0));
}

/// The binary-mode analogue of the chunk/whole agreement.
pub proof fn lemma_bw_frame_slice(
    bits: Seq<bool>,
    a: int,
    b: int,
    i0: int,
    size: int,
    w: int,
    h: int,
)
    requires
        1 <= size,
        0 < w,
        0 < h,
        0 <= a <= b <= bits.len(),
        0 <= i0,
        b == bits.len() || b - a - i0 >= nblocks(w, h, size),
        0 <= nblocks(w, h, size),
    ensures
        bw_frame_image(bits.subrange(a, b), i0, size, w, h) == bw_frame_image(
            bits,
            a + i0,
            size,
            w,
            h,
        ),
{
    let ch = bits.subrange(a, b);
    let nb = nblocks(w, h, size);
    let m1 = bw_blocks_written(b - a, i0, nb);
    let m2 = bw_blocks_written(bits.len() as int, a + i0, nb);
    assert(m1 == m2);
    assert forall|k: int| 0 <= k < m1 implies #[trigger] bw_vals(ch, i0)(k) == bw_vals(
        bits,
        a + i0,
    )(k) by {
        let u = i0 + k;
        if 0 <= u < ch.len() {
            assert(ch[u] == bits[a + u]);
        } else {
            assert(u >= ch.len());
            if b != bits.len() {
                assert(u < i0 + nb <= b - a);
                assert(false);
            }
        }
        assert(bit_at(ch, u) == bit_at(bits, a + u));
    }
    lemma_frame_image_congruence(w, h, size, m1, bw_vals(ch, i0), bw_vals(bits, a + i0));
}


/// Inside the canonical frame image, each grid block past the painted prefix
/// is still black.
pub proof fn lemma_frame_image_block_zero(
    w: int,
    h: int,
    size: int,
    m: int,
    vals: spec_fn(int) -> (u8, u8, u8),
    k: int,
)
    requires
        1 <= size,
        0 < w,
        0 < h,
        0 <= m,
        m <= k < nblocks(w, h, size),
    ensures
        block_uniform(
            frame_image(w, h, size, m, vals),
            w,
            size,
            blk_x(grid_cols(w, size), size, k),
            blk_y(grid_cols(w, size), size, k),
            0u8,
            0u8,
            0u8,
        ),
{
    let im = frame_image(w, h, size, m, vals);
    let cols = grid_cols(w, size);
    lemma_blk_coords(w, h, size, k);
    assert forall|q: int|
        0 <= q < im.len() && #[trigger] in_block(q, w, size, blk_x(cols, size, k), blk_y(cols, size, k))
        implies im[q] == bgr_chan(0u8, 0u8, 0u8, px_chan(q)) by {
        lemma_blk_of(w, h, size, q);
        lemma_block_index_unique(w, size, blk_of(q, w, size), k, q);
    }
}

/// Geometry facts shared by the read lemmas below.
proof fn lemma_grid_fits(w: int, h: int, size: int)
    requires
        1 <= size,
        0 < w,
        0 < h,
    ensures
        grid_cols(w, size) * size <= w,
        grid_rows(h, size) * size <= h,
        0 <= grid_cols(w, size),
        0 <= grid_rows(h, size),
        0 <= nblocks(w, h, size),
{
    lemma_fundamental_div_mod(w, size);
    lemma_fundamental_div_mod(h, size);
    lemma_div_pos_is_pos(w, size);
    lemma_div_pos_is_pos(h, size);
    lemma_mul_is_commutative(size, w / size);
    lemma_mul_is_commutative(size, h / size);
    lemma_mod_division_less_than_divisor(w, size);
    lemma_mod_division_less_than_divisor(h, size);
    lemma_mul_nonnegative(grid_rows(h, size), grid_cols(w, size));
}

/// Reading the canonical color frame gives back exactly the payload bytes the
/// frame carries; positions past the written blocks read as zero.
pub proof fn lemma_frame_read_color_at(d: Seq<u8>, i0: int, size: int, w: int, h: int, u: int)
    requires
        1 <= size,
        0 < w,
        0 < h,
        0 <= i0 <= d.len(),
        0 <= u < 3 * nblocks(w, h, size),
    ensures
        frame_color_reads(color_frame_image(d, i0, size, w, h), w, h, size)[u] == (
        if u / 3 < color_blocks_written(d.len() as int, i0, nblocks(w, h, size)) {
            color_byte(d, i0 + u)
        } else {
            0u8
        }),
{
    let nb = nblocks(w, h, size);
    let m = color_blocks_written(d.len() as int, i0, nb);
    let im = color_frame_image(d, i0, size, w, h);
    let cols = grid_cols(w, size);
    let k = u / 3;
    let j = u % 3;
    lemma_grid_fits(w, h, size);
    assert(0 <= k < nb) by {
        lemma_div_pos_is_pos(u, 3);
        assert((3 * nb - 1) / 3 == nb - 1) by {
            lemma_fundamental_div_mod_converse(3 * nb - 1, 3, nb - 1, 2);
        }
        lemma_div_is_ordered(u, 3 * nb - 1, 3);
    }
    lemma_blk_coords(w, h, size, k);
    assert(0 <= m <= nb) by {
        lemma_div_pos_is_pos(d.len() - i0 + 2, 3);
    }
    let x0 = blk_x(cols, size, k);
    let y0 = blk_y(cols, size, k);
    lemma_fundamental_div_mod(u, 3);
    lemma_mod_division_less_than_divisor(u, 3);
    if k < m {
        lemma_frame_image_block_uniform(w, h, size, m, color_vals(d, i0), k);
        let v = color_vals(d, i0)(k);
        lemma_block_avg_uniform(im, w, h, size, x0, y0, v.0, v.1, v.2, chan_for_read(j));
        assert(block_avg(im, w, x0, y0, size, chan_for_read(j)) == bgr_chan(
            v.0,
            v.1,
            v.2,
            chan_for_read(j),
        ) as int);
    } else {
        lemma_frame_image_block_zero(w, h, size, m, color_vals(d, i0), k);
        lemma_block_avg_uniform(im, w, h, size, x0, y0, 0u8, 0u8, 0u8, chan_for_read(j));
    }
}

/// Reading the canonical binary frame gives back exactly the payload bits the
/// frame carries; blocks past the written prefix read as zero bits.
pub proof fn lemma_frame_read_bw_at(bits: Seq<bool>, i0: int, size: int, w: int, h: int, k: int)
    requires
        1 <= size,
        0 < w,
        0 < h,
        0 <= i0 <= bits.len(),
        0 <= k < nblocks(w, h, size),
    ensures
        frame_bits(bw_frame_image(bits, i0, size, w, h), w, h, size)[k] == (k < bw_blocks_written(
            bits.len() as int,
            i0,
            nblocks(w, h, size),
        ) && bit_at(bits, i0 + k)),
{
    let nb = nblocks(w, h, size);
    let m = bw_blocks_written(bits.len() as int, i0, nb);
    let im = bw_frame_image(bits, i0, size, w, h);
    let cols = grid_cols(w, size);
    lemma_grid_fits(w, h, size);
    lemma_blk_coords(w, h, size, k);
    let x0 = blk_x(cols, size, k);
    let y0 = blk_y(cols, size, k);
    if k < m {
        lemma_frame_image_block_uniform(w, h, size, m, bw_vals(bits, i0), k);
        let v = bw_vals(bits, i0)(k);
        lemma_block_avg_uniform(im, w, h, size, x0, y0, v.0, v.1, v.2, 2);
    } else {
        lemma_frame_image_block_zero(w, h, size, m, bw_vals(bits, i0), k);
        lemma_block_avg_uniform(im, w, h, size, x0, y0, 0u8, 0u8, 0u8, 2);
    }
}


} // verus!

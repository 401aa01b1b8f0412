//! The codec itself: writing payload units into pixel blocks, filling and
//! reading whole frames, the instruction frame, the partitioned encoder and
//! the sequential decoder.

use vstd::prelude::*;
use vstd::arithmetic::div_mod::{
    lemma_div_by_multiple, lemma_div_is_ordered, lemma_fundamental_div_mod_converse,
};
use vstd::arithmetic::mul::{
    lemma_mul_inequality, lemma_mul_is_commutative, lemma_mul_strictly_positive,
};

use crate::error::EtchError;
use crate::settings::{Data, OutputMode, Settings};
use crate::pack::{bits_to_bytes, bits_to_u32s, rip_binary_u32, translate_u32, translate_u8, u32s_to_bits};
use crate::grid::{
    blk_x, blk_y, bw_frame_image, ceil_div, color_blocks_written, color_byte, color_frame_image,
    color_vals, bw_blocks_written, bw_vals, bit_at, frame_bits, frame_color_reads, grid_cols,
    grid_rows, lemma_blk_index, lemma_block_index_unique, lemma_grid, lemma_grid_counts, nblocks,
};
use crate::source::{
    block_avg, block_chan_sum, block_uniform, bgr_chan, in_block, lemma_block_sum_bounds,
    lemma_pix_decompose, lemma_pix_idx, lemma_row_sum_bounds, pix_idx, px_chan, px_col, px_row,
    row_chan_sum, EmbedSource,
};

verus! {

/// Writes one pixel's three channels. The buffer changes exactly at the three
/// indices of the pixel at `(x, y)`.
fn put_px(frame: &mut EmbedSource, x: usize, y: usize, b: u8, g: u8, r: u8)
    requires
        old(frame).wf(),
        x < old(frame).frame_size.width,
        y < old(frame).frame_size.height,
    ensures
        final(frame).wf(),
        final(frame).size == old(frame).size,
        final(frame).frame_size == old(frame).frame_size,
        final(frame).actual_size == old(frame).actual_size,
        final(frame).image@ == old(frame).image@.update(
            pix_idx(old(frame).frame_size.width as int, x as int, y as int, 0),
            b,
        ).update(pix_idx(old(frame).frame_size.width as int, x as int, y as int, 1), g).update(
            pix_idx(old(frame).frame_size.width as int, x as int, y as int, 2),
            r,
        ),
{
    let w = frame.frame_size.width;
    let total = frame.image.len();
    proof {
        lemma_pix_idx(
            w as int,
            frame.frame_size.height as int,
            x as int,
            y as int,
            0,
        );
        assert(3 * ((y as int) * (w as int) + x as int) + 2 < total as int);
    }
    let q0: usize = 3 * (y * w + x);
    frame.image[q0] = b;
    frame.image[q0 + 1] = g;
    frame.image[q0 + 2] = r;
}

/// Reads one pixel's three channels `(blue, green, red)`.
fn get_px(frame: &EmbedSource, x: usize, y: usize) -> (bgr: (u8, u8, u8))
    requires
        frame.wf(),
        x < frame.frame_size.width,
        y < frame.frame_size.height,
    ensures
        bgr.0 == frame.image@[pix_idx(frame.frame_size.width as int, x as int, y as int, 0)],
        bgr.1 == frame.image@[pix_idx(frame.frame_size.width as int, x as int, y as int, 1)],
        bgr.2 == frame.image@[pix_idx(frame.frame_size.width as int, x as int, y as int, 2)],
{
    let w = frame.frame_size.width;
    let total = frame.image.len();
    proof {
        lemma_pix_idx(
            w as int,
            frame.frame_size.height as int,
            x as int,
            y as int,
            0,
        );
        assert(3 * ((y as int) * (w as int) + x as int) + 2 < total as int);
    }
    let q0: usize = 3 * (y * w + x);
    (frame.image[q0], frame.image[q0 + 1], frame.image[q0 + 2])
}

/// Overwrites every pixel of the block whose top-left corner is `(x, y)` with
/// the triple `rgb = [red, green, blue]`. Pixels outside the block keep their
/// value.
pub fn etch_pixel(frame: &mut EmbedSource, rgb: Vec<u8>, x: usize, y: usize)
    requires
        old(frame).wf(),
        rgb@.len() == 3,
        x + old(frame).size <= old(frame).actual_size.width,
        y + old(frame).size <= old(frame).actual_size.height,
    ensures
        final(frame).wf(),
        final(frame).size == old(frame).size,
        final(frame).frame_size == old(frame).frame_size,
        final(frame).actual_size == old(frame).actual_size,
        final(frame).image@.len() == old(frame).image@.len(),
        block_uniform(
            final(frame).image@,
            old(frame).frame_size.width as int,
            old(frame).size as int,
            x as int,
            y as int,
            rgb@[2],
            rgb@[1],
            rgb@[0],
        ),
        forall|q: int|
            0 <= q < old(frame).image@.len() && !in_block(
                q,
                old(frame).frame_size.width as int,
                old(frame).size as int,
                x as int,
                y as int,
            ) ==> final(frame).image@[q] == old(frame).image@[q],
{
    let size = frame.size;
    let w = frame.frame_size.width;
    let ghost wi = w as int;
    let ghost hi = frame.frame_size.height as int;
    let ghost im0 = frame.image@;
    let ghost len = frame.image@.len() as int;
    let rv = rgb[0];
    let gv = rgb[1];
    let bv = rgb[2];
    let mut i: usize = 0;
    while i < size
        invariant
            frame.wf(),
            frame.size == size,
            frame.frame_size.width == w,
            wi == w as int,
            hi == frame.frame_size.height as int,
            frame.actual_size == old(frame).actual_size,
            frame.frame_size == old(frame).frame_size,
            len == frame.image@.len() as int,
            len == im0.len() as int,
            i <= size,
            x + size <= frame.actual_size.width,
            y + size <= frame.actual_size.height,
            forall|q: int|
                0 <= q < len && !in_block(q, wi, size as int, x as int, y as int)
                    ==> frame.image@[q] == im0[q],
            forall|q: int|
                0 <= q < len && #[trigger] in_block(q, wi, size as int, x as int, y as int)
                    && px_row(q, wi) < y + i ==> frame.image@[q] == bgr_chan(
                    bv,
                    gv,
                    rv,
                    px_chan(q),
                ),
        decreases size - i,
    {
        let mut j: usize = 0;
        while j < size
            invariant
                frame.wf(),
                frame.size == size,
                frame.frame_size.width == w,
                wi == w as int,
                hi == frame.frame_size.height as int,
                frame.actual_size == old(frame).actual_size,
                frame.frame_size == old(frame).frame_size,
                len == frame.image@.len() as int,
                len == im0.len() as int,
                i < size,
                j <= size,
                x + size <= frame.actual_size.width,
                y + size <= frame.actual_size.height,
                forall|q: int|
                    0 <= q < len && !in_block(q, wi, size as int, x as int, y as int)
                        ==> frame.image@[q] == im0[q],
                forall|q: int|
                    0 <= q < len && #[trigger] in_block(q, wi, size as int, x as int, y as int)
                        && (px_row(q, wi) < y + i || (px_row(q, wi) == y + i && px_col(q, wi)
                        < x + j)) ==> frame.image@[q] == bgr_chan(bv, gv, rv, px_chan(q)),
            decreases size - j,
        {
            let ghost before = frame.image@;
            proof {
                lemma_pix_idx(wi, hi, (x + j) as int, (y + i) as int, 0);
                lemma_pix_idx(wi, hi, (x + j) as int, (y + i) as int, 1);
                lemma_pix_idx(wi, hi, (x + j) as int, (y + i) as int, 2);
            }
            put_px(frame, x + j, y + i, bv, gv, rv);
            proof {
                let q0 = pix_idx(wi, (x + j) as int, (y + i) as int, 0);
                let q1 = pix_idx(wi, (x + j) as int, (y + i) as int, 1);
                let q2 = pix_idx(wi, (x + j) as int, (y + i) as int, 2);
                assert(in_block(q0, wi, size as int, x as int, y as int));
                assert(in_block(q1, wi, size as int, x as int, y as int));
                assert(in_block(q2, wi, size as int, x as int, y as int));
                assert forall|q: int|
                    0 <= q < len && !in_block(q, wi, size as int, x as int, y as int)
                        implies frame.image@[q] == im0[q] by {
                    assert(q != q0 && q != q1 && q != q2);
                }
                assert forall|q: int|
                    0 <= q < len && #[trigger] in_block(q, wi, size as int, x as int, y as int)
                        && (px_row(q, wi) < y + i || (px_row(q, wi) == y + i && px_col(q, wi)
                        < x + j + 1)) implies frame.image@[q] == bgr_chan(
                    bv,
                    gv,
                    rv,
                    px_chan(q),
                ) by {
                    lemma_pix_decompose(wi, hi, q);
                    if q == q0 || q == q1 || q == q2 {
                    } else if px_row(q, wi) == y + i && px_col(q, wi) == x + j {
                        assert(q == pix_idx(wi, px_col(q, wi), px_row(q, wi), px_chan(q)));
                        assert(false);
                    } else {
                        assert(frame.image@[q] == before[q]);
                    }
                }
            }
            j += 1;
        }
        i += 1;
    }
}

/// Returns the per-channel integer means of the block at `(x, y)` in the
/// order `[red, green, blue]`.
pub fn get_pixel(frame: &EmbedSource, x: usize, y: usize) -> (r: Option<Vec<u8>>)
    requires
        frame.wf(),
        x + frame.size <= frame.actual_size.width,
        y + frame.size <= frame.actual_size.height,
    ensures
        r is Some,
        r->0@.len() == 3,
        r->0@[0] as int == block_avg(
            frame.image@,
            frame.frame_size.width as int,
            x as int,
            y as int,
            frame.size as int,
            2,
        ),
        r->0@[1] as int == block_avg(
            frame.image@,
            frame.frame_size.width as int,
            x as int,
            y as int,
            frame.size as int,
            1,
        ),
        r->0@[2] as int == block_avg(
            frame.image@,
            frame.frame_size.width as int,
            x as int,
            y as int,
            frame.size as int,
            0,
        ),
{
    let size = frame.size;
    let w = frame.frame_size.width;
    let ghost wi = w as int;
    let ghost hi = frame.frame_size.height as int;
    let ghost im = frame.image@;
    let total = frame.image.len();
    let mut sb: u128 = 0;
    let mut sg: u128 = 0;
    let mut sr: u128 = 0;
    proof {
        assert(im.len() <= usize::MAX);
        lemma_mul_inequality(size as int, frame.actual_size.width as int, size as int);
        lemma_mul_inequality(
            frame.actual_size.width as int,
            wi,
            size as int,
        );
        lemma_mul_inequality(size as int, hi, wi);
        lemma_mul_is_commutative(wi, size as int);
        lemma_mul_is_commutative(wi, hi);
        assert(size as int * size as int <= wi * hi);
    }
    let mut i: usize = 0;
    while i < size
        invariant
            frame.wf(),
            frame.size == size,
            frame.frame_size.width == w,
            wi == w as int,
            hi == frame.frame_size.height as int,
            im == frame.image@,
            x + size <= frame.actual_size.width,
            y + size <= frame.actual_size.height,
            i <= size,
            size as int * size as int <= wi * hi,
            im.len() <= usize::MAX,
            sb as int == block_chan_sum(im, wi, x as int, y as int, size as int, i as int, 0),
            sg as int == block_chan_sum(im, wi, x as int, y as int, size as int, i as int, 1),
            sr as int == block_chan_sum(im, wi, x as int, y as int, size as int, i as int, 2),
        decreases size - i,
    {
        let mut j: usize = 0;
        while j < size
            invariant
                frame.wf(),
                frame.size == size,
                frame.frame_size.width == w,
                wi == w as int,
                hi == frame.frame_size.height as int,
                im == frame.image@,
                x + size <= frame.actual_size.width,
                y + size <= frame.actual_size.height,
                i < size,
                j <= size,
                size as int * size as int <= wi * hi,
                im.len() <= usize::MAX,
                sb as int == block_chan_sum(im, wi, x as int, y as int, size as int, i as int, 0)
                    + row_chan_sum(im, wi, (y + i) as int, x as int, j as int, 0),
                sg as int == block_chan_sum(im, wi, x as int, y as int, size as int, i as int, 1)
                    + row_chan_sum(im, wi, (y + i) as int, x as int, j as int, 1),
                sr as int == block_chan_sum(im, wi, x as int, y as int, size as int, i as int, 2)
                    + row_chan_sum(im, wi, (y + i) as int, x as int, j as int, 2),
            decreases size - j,
        {
            proof {
                lemma_block_sum_bounds(im, wi, x as int, y as int, size as int, i as int, 0);
                lemma_block_sum_bounds(im, wi, x as int, y as int, size as int, i as int, 1);
                lemma_block_sum_bounds(im, wi, x as int, y as int, size as int, i as int, 2);
                lemma_row_sum_bounds(im, wi, (y + i) as int, x as int, j as int, 0);
                lemma_row_sum_bounds(im, wi, (y + i) as int, x as int, j as int, 1);
                lemma_row_sum_bounds(im, wi, (y + i) as int, x as int, j as int, 2);
                lemma_mul_inequality(i as int, size as int, size as int);
            }
            let (pb, pg, pr) = get_px(frame, x + j, y + i);
            sb = sb + pb as u128;
            sg = sg + pg as u128;
            sr = sr + pr as u128;
            j += 1;
        }
        i += 1;
    }
    proof {
        lemma_block_sum_bounds(im, wi, x as int, y as int, size as int, size as int, 0);
        lemma_block_sum_bounds(im, wi, x as int, y as int, size as int, size as int, 1);
        lemma_block_sum_bounds(im, wi, x as int, y as int, size as int, size as int, 2);
        lemma_mul_strictly_positive(size as int, size as int);
    }
    let count: u128 = (size as u128) * (size as u128);
    proof {
        let n = size as int * size as int;
        assert((255 * n) / n == 255) by {
            lemma_mul_is_commutative(n, 255);
            lemma_div_by_multiple(255, n);
        }
        lemma_div_is_ordered(sb as int, 255 * n, n);
        lemma_div_is_ordered(sg as int, 255 * n, n);
        lemma_div_is_ordered(sr as int, 255 * n, n);
        vstd::arithmetic::div_mod::lemma_div_pos_is_pos(sb as int, n);
        vstd::arithmetic::div_mod::lemma_div_pos_is_pos(sg as int, n);
        vstd::arithmetic::div_mod::lemma_div_pos_is_pos(sr as int, n);
    }
    let ra = (sr / count) as u8;
    let ga = (sg / count) as u8;
    let ba = (sb / count) as u8;
    let mut out: Vec<u8> = Vec::new();
    out.push(ra);
    out.push(ga);
    out.push(ba);
    Some(out)
}


/// Fills the frame's block grid row-major with RGB triples taken from `data`
/// starting at `*global_index`, advancing the index by three per block (a
/// final partial triple is padded with zero channels). Returns
/// `Err(Exhausted)` exactly when the payload ends within this frame, so the
/// caller learns that this was the final frame; blocks past the end of the
/// payload keep their prior pixels.
#[verifier::loop_isolation(false)]
pub fn etch_color(source: &mut EmbedSource, data: &Vec<u8>, global_index: &mut usize) -> (res:
    Result<(), EtchError>)
    requires
        old(source).wf(),
        *old(global_index) < data@.len(),
    ensures
        final(source).wf(),
        final(source).size == old(source).size,
        final(source).frame_size == old(source).frame_size,
        final(source).actual_size == old(source).actual_size,
        final(source).image@.len() == old(source).image@.len(),
        ({
            let w = old(source).frame_size.width as int;
            let h = old(source).frame_size.height as int;
            let sz = old(source).size as int;
            let cols = grid_cols(w, sz);
            let nb = nblocks(w, h, sz);
            let i0 = *old(global_index) as int;
            let dlen = data@.len() as int;
            let m = color_blocks_written(dlen, i0, nb);
            &&& (res is Err <==> dlen - i0 <= 3 * nb)
            &&& (res is Err ==> res->Err_0 == EtchError::Exhausted)
            &&& *final(global_index) as int == (if i0 + 3 * m <= dlen {
                i0 + 3 * m
            } else {
                dlen
            })
            &&& (forall|t: int|
                0 <= t < m ==> block_uniform(
                    final(source).image@,
                    w,
                    sz,
                    #[trigger] blk_x(cols, sz, t),
                    blk_y(cols, sz, t),
                    color_vals(data@, i0)(t).0,
                    color_vals(data@, i0)(t).1,
                    color_vals(data@, i0)(t).2,
                ))
            &&& (forall|q: int|
                0 <= q < final(source).image@.len() && (forall|t: int|
                    0 <= t < m ==> !in_block(
                        q,
                        w,
                        sz,
                        #[trigger] blk_x(cols, sz, t),
                        blk_y(cols, sz, t),
                    )) ==> #[trigger] final(source).image@[q] == old(source).image@[q])
        }),
{
    let ghost w = old(source).frame_size.width as int;
    let ghost h = old(source).frame_size.height as int;
    let ghost sz = old(source).size as int;
    let ghost i0 = *old(global_index) as int;
    let ghost im0 = source.image@;
    let ghost dlen = data@.len() as int;
    let ghost cols_g = grid_cols(w, sz);
    let ghost rows_g = grid_rows(h, sz);
    let ghost nb = nblocks(w, h, sz);
    let ghost vals = color_vals(data@, i0);

    let size = source.size;
    let cols = source.actual_size.width / size;
    let rows = source.actual_size.height / size;
    proof {
        lemma_grid(*source);
        lemma_grid_counts(*source);
        vstd::arithmetic::mul::lemma_mul_nonnegative(rows_g, cols_g);
    }
    let len = data.len();
    let mut i = *global_index;
    let mut bi: usize = 0;
    while bi < rows
        invariant
            source.wf(),
            source.size == old(source).size,
            source.frame_size == old(source).frame_size,
            source.actual_size == old(source).actual_size,
            source.image@.len() == im0.len(),
            w == source.frame_size.width as int,
            h == source.frame_size.height as int,
            sz == size as int,
            size == source.size,
            1 <= sz,
            cols as int == cols_g,
            rows as int == rows_g,
            cols_g * sz == source.actual_size.width as int,
            rows_g * sz == source.actual_size.height as int,
            nb == rows_g * cols_g,
            vals == color_vals(data@, i0),
            len == data@.len(),
            dlen == len as int,
            im0.len() == 3 * (w * h),
            bi <= rows,
            i as int == i0 + 3 * (bi as int * cols_g),
            dlen - i as int >= 1,
            forall|t: int|
                0 <= t < bi as int * cols_g ==> block_uniform(
                    source.image@,
                    w,
                    sz,
                    #[trigger] blk_x(cols_g, sz, t),
                    blk_y(cols_g, sz, t),
                    vals(t).0,
                    vals(t).1,
                    vals(t).2,
                ),
            forall|q: int|
                0 <= q < im0.len() && (forall|t: int|
                    0 <= t < bi as int * cols_g ==> !in_block(
                        q,
                        w,
                        sz,
                        #[trigger] blk_x(cols_g, sz, t),
                        blk_y(cols_g, sz, t),
                    )) ==> #[trigger] source.image@[q] == im0[q],
        decreases rows - bi,
    {
        let mut bj: usize = 0;
        while bj < cols
            invariant
                source.wf(),
                source.size == old(source).size,
                source.frame_size == old(source).frame_size,
                source.actual_size == old(source).actual_size,
                source.image@.len() == im0.len(),
                w == source.frame_size.width as int,
                h == source.frame_size.height as int,
                sz == size as int,
                size == source.size,
                1 <= sz,
                cols as int == cols_g,
                rows as int == rows_g,
                cols_g * sz == source.actual_size.width as int,
                rows_g * sz == source.actual_size.height as int,
                nb == rows_g * cols_g,
                vals == color_vals(data@, i0),
                len == data@.len(),
                dlen == len as int,
                im0.len() == 3 * (w * h),
                bi < rows,
                bj <= cols,
                i as int == i0 + 3 * (bi as int * cols_g + bj as int),
                dlen - i as int >= 1,
                forall|t: int|
                    0 <= t < bi as int * cols_g + bj as int ==> block_uniform(
                        source.image@,
                        w,
                        sz,
                        #[trigger] blk_x(cols_g, sz, t),
                        blk_y(cols_g, sz, t),
                        vals(t).0,
                        vals(t).1,
                        vals(t).2,
                    ),
                forall|q: int|
                    0 <= q < im0.len() && (forall|t: int|
                        0 <= t < bi as int * cols_g + bj as int ==> !in_block(
                            q,
                            w,
                            sz,
                            #[trigger] blk_x(cols_g, sz, t),
                            blk_y(cols_g, sz, t),
                        )) ==> #[trigger] source.image@[q] == im0[q],
            decreases cols - bj,
        {
            let ghost k = bi as int * cols_g + bj as int;
            proof {
                lemma_blk_index(w, h, sz, bi as int, bj as int);
            }
            let x = bj * size;
            let y = bi * size;
            let rv = data[i];
            let gv = if i + 1 < len {
                data[i + 1]
            } else {
                0
            };
            let bv = if len - i > 2 {
                data[i + 2]
            } else {
                0
            };
            let mut rgb: Vec<u8> = Vec::new();
            rgb.push(rv);
            rgb.push(gv);
            rgb.push(bv);
            let ghost before = source.image@;
            etch_pixel(source, rgb, x, y);
            proof {
                assert(rv == color_byte(data@, i0 + 3 * k));
                assert(gv == color_byte(data@, i0 + 3 * k + 1));
                assert(bv == color_byte(data@, i0 + 3 * k + 2));
                assert(vals(k) == (bv, gv, rv));
                assert(blk_x(cols_g, sz, k) == x as int && blk_y(cols_g, sz, k) == y as int);
                assert(block_uniform(source.image@, w, sz, x as int, y as int, bv, gv, rv));
                assert forall|t: int|
                    0 <= t < k + 1 implies block_uniform(
                    source.image@,
                    w,
                    sz,
                    #[trigger] blk_x(cols_g, sz, t),
                    blk_y(cols_g, sz, t),
                    vals(t).0,
                    vals(t).1,
                    vals(t).2,
                ) by {
                    if t < k {
                        assert forall|q: int|
                            0 <= q < source.image@.len() && #[trigger] in_block(
                                q,
                                w,
                                sz,
                                blk_x(cols_g, sz, t),
                                blk_y(cols_g, sz, t),
                            ) implies source.image@[q] == bgr_chan(
                            vals(t).0,
                            vals(t).1,
                            vals(t).2,
                            px_chan(q),
                        ) by {
                            if in_block(q, w, sz, blk_x(cols_g, sz, k), blk_y(cols_g, sz, k)) {
                                lemma_block_index_unique(w, sz, t, k, q);
                            }
                            assert(!in_block(q, w, sz, x as int, y as int));
                            assert(source.image@[q] == before[q]);
                            assert(block_uniform(
                                before,
                                w,
                                sz,
                                blk_x(cols_g, sz, t),
                                blk_y(cols_g, sz, t),
                                vals(t).0,
                                vals(t).1,
                                vals(t).2,
                            ));
                        }
                    }
                }
                assert forall|q: int|
                    0 <= q < im0.len() && (forall|t: int|
                        0 <= t < k + 1 ==> !in_block(
                            q,
                            w,
                            sz,
                            #[trigger] blk_x(cols_g, sz, t),
                            blk_y(cols_g, sz, t),
                        )) implies #[trigger] source.image@[q] == im0[q] by {
                    assert(!in_block(q, w, sz, blk_x(cols_g, sz, k), blk_y(cols_g, sz, k)));
                    assert(!in_block(q, w, sz, x as int, y as int));
                    assert(source.image@[q] == before[q]);
                    assert forall|t: int| 0 <= t < k implies !in_block(
                        q,
                        w,
                        sz,
                        #[trigger] blk_x(cols_g, sz, t),
                        blk_y(cols_g, sz, t),
                    ) by {}
                    assert(before[q] == im0[q]);
                }
            }
            if len - i > 3 {
                i += 3;
            } else {
                *global_index = len;
                proof {
                    assert(dlen - i0 >= 3 * k + 1 && dlen - i0 <= 3 * (k + 1));
                    assert(ceil_div(dlen - i0, 3) == k + 1) by {
                        lemma_fundamental_div_mod_converse(
                            dlen - i0 + 2,
                            3,
                            k + 1,
                            dlen - i0 + 2 - 3 * (k + 1),
                        );
                    }
                    assert(color_blocks_written(dlen, i0, nb) == k + 1);
                }
                return Err(EtchError::Exhausted);
            }
            bj += 1;
        }
        proof {
            vstd::arithmetic::mul::lemma_mul_is_distributive_add_other_way(
                cols_g,
                bi as int,
                1,
            );
            assert((bi as int + 1) * cols_g == bi as int * cols_g + cols_g);
        }
        bi += 1;
    }
    *global_index = i;
    proof {
        assert(dlen - i0 >= 3 * nb + 1);
        assert(ceil_div(dlen - i0, 3) > nb) by {
            lemma_div_is_ordered(3 * nb + 3, dlen - i0 + 2, 3);
            assert((3 * (nb + 1)) / 3 == nb + 1) by {
                lemma_mul_is_commutative(3, nb + 1);
                lemma_div_by_multiple(nb + 1, 3);
            }
        }
        assert(color_blocks_written(dlen, i0, nb) == nb);
    }
    Ok(())
}

/// Fills the frame's block grid row-major with black/white blocks taken one
/// bit at a time from `data` starting at `*global_index`: a one bit paints an
/// all-white block, a zero bit an all-black one. Returns `Err(Exhausted)`
/// exactly when the bit stream ends within this frame.
#[verifier::loop_isolation(false)]
pub fn etch_bw(source: &mut EmbedSource, data: &Vec<bool>, global_index: &mut usize) -> (res:
    Result<(), EtchError>)
    requires
        old(source).wf(),
        *old(global_index) < data@.len(),
    ensures
        final(source).wf(),
        final(source).size == old(source).size,
        final(source).frame_size == old(source).frame_size,
        final(source).actual_size == old(source).actual_size,
        final(source).image@.len() == old(source).image@.len(),
        ({
            let w = old(source).frame_size.width as int;
            let h = old(source).frame_size.height as int;
            let sz = old(source).size as int;
            let cols = grid_cols(w, sz);
            let nb = nblocks(w, h, sz);
            let i0 = *old(global_index) as int;
            let dlen = data@.len() as int;
            let m = bw_blocks_written(dlen, i0, nb);
            &&& (res is Err <==> dlen - i0 <= nb)
            &&& (res is Err ==> res->Err_0 == EtchError::Exhausted)
            &&& *final(global_index) as int == i0 + m
            &&& (forall|t: int|
                0 <= t < m ==> block_uniform(
                    final(source).image@,
                    w,
                    sz,
                    #[trigger] blk_x(cols, sz, t),
                    blk_y(cols, sz, t),
                    bw_vals(data@, i0)(t).0,
                    bw_vals(data@, i0)(t).1,
                    bw_vals(data@, i0)(t).2,
                ))
            &&& (forall|q: int|
                0 <= q < final(source).image@.len() && (forall|t: int|
                    0 <= t < m ==> !in_block(
                        q,
                        w,
                        sz,
                        #[trigger] blk_x(cols, sz, t),
                        blk_y(cols, sz, t),
                    )) ==> #[trigger] final(source).image@[q] == old(source).image@[q])
        }),
{
    let ghost w = old(source).frame_size.width as int;
    let ghost h = old(source).frame_size.height as int;
    let ghost sz = old(source).size as int;
    let ghost i0 = *old(global_index) as int;
    let ghost im0 = source.image@;
    let ghost dlen = data@.len() as int;
    let ghost cols_g = grid_cols(w, sz);
    let ghost rows_g = grid_rows(h, sz);
    let ghost nb = nblocks(w, h, sz);
    let ghost vals = bw_vals(data@, i0);

    let size = source.size;
    let cols = source.actual_size.width / size;
    let rows = source.actual_size.height / size;
    proof {
        lemma_grid(*source);
        lemma_grid_counts(*source);
        vstd::arithmetic::mul::lemma_mul_nonnegative(rows_g, cols_g);
    }
    let len = data.len();
    let mut i = *global_index;
    let mut bi: usize = 0;
    while bi < rows
        invariant
            source.wf(),
            source.size == old(source).size,
            source.frame_size == old(source).frame_size,
            source.actual_size == old(source).actual_size,
            source.image@.len() == im0.len(),
            bi <= rows,
            i as int == i0 + bi as int * cols_g,
            dlen - i as int >= 1,
            forall|t: int|
                0 <= t < bi as int * cols_g ==> block_uniform(
                    source.image@,
                    w,
                    sz,
                    #[trigger] blk_x(cols_g, sz, t),
                    blk_y(cols_g, sz, t),
                    vals(t).0,
                    vals(t).1,
                    vals(t).2,
                ),
            forall|q: int|
                0 <= q < im0.len() && (forall|t: int|
                    0 <= t < bi as int * cols_g ==> !in_block(
                        q,
                        w,
                        sz,
                        #[trigger] blk_x(cols_g, sz, t),
                        blk_y(cols_g, sz, t),
                    )) ==> #[trigger] source.image@[q] == im0[q],
        decreases rows - bi,
    {
        let mut bj: usize = 0;
        while bj < cols
            invariant
                source.wf(),
                source.size == old(source).size,
                source.frame_size == old(source).frame_size,
                source.actual_size == old(source).actual_size,
                source.image@.len() == im0.len(),
                bi < rows,
                bj <= cols,
                i as int == i0 + bi as int * cols_g + bj as int,
                dlen - i as int >= 1,
                forall|t: int|
                    0 <= t < bi as int * cols_g + bj as int ==> block_uniform(
                        source.image@,
                        w,
                        sz,
                        #[trigger] blk_x(cols_g, sz, t),
                        blk_y(cols_g, sz, t),
                        vals(t).0,
                        vals(t).1,
                        vals(t).2,
                    ),
                forall|q: int|
                    0 <= q < im0.len() && (forall|t: int|
                        0 <= t < bi as int * cols_g + bj as int ==> !in_block(
                            q,
                            w,
                            sz,
                            #[trigger] blk_x(cols_g, sz, t),
                            blk_y(cols_g, sz, t),
                        )) ==> #[trigger] source.image@[q] == im0[q],
            decreases cols - bj,
        {
            let ghost k = bi as int * cols_g + bj as int;
            proof {
                lemma_blk_index(w, h, sz, bi as int, bj as int);
            }
            let x = bj * size;
            let y = bi * size;
            let brightness: u8 = if data[i] {
                255
            } else {
                0
            };
            let mut rgb: Vec<u8> = Vec::new();
            rgb.push(brightness);
            rgb.push(brightness);
            rgb.push(brightness);
            let ghost before = source.image@;
            etch_pixel(source, rgb, x, y);
            proof {
                assert(bit_at(data@, i0 + k) == data@[i as int]);
                assert(vals(k) == (brightness, brightness, brightness));
                assert(blk_x(cols_g, sz, k) == x as int && blk_y(cols_g, sz, k) == y as int);
                assert forall|t: int|
                    0 <= t < k + 1 implies block_uniform(
                    source.image@,
                    w,
                    sz,
                    #[trigger] blk_x(cols_g, sz, t),
                    blk_y(cols_g, sz, t),
                    vals(t).0,
                    vals(t).1,
                    vals(t).2,
                ) by {
                    if t < k {
                        assert forall|q: int|
                            0 <= q < source.image@.len() && #[trigger] in_block(
                                q,
                                w,
                                sz,
                                blk_x(cols_g, sz, t),
                                blk_y(cols_g, sz, t),
                            ) implies source.image@[q] == bgr_chan(
                            vals(t).0,
                            vals(t).1,
                            vals(t).2,
                            px_chan(q),
                        ) by {
                            if in_block(q, w, sz, blk_x(cols_g, sz, k), blk_y(cols_g, sz, k)) {
                                lemma_block_index_unique(w, sz, t, k, q);
                            }
                            assert(!in_block(q, w, sz, x as int, y as int));
                            assert(source.image@[q] == before[q]);
                            assert(block_uniform(
                                before,
                                w,
                                sz,
                                blk_x(cols_g, sz, t),
                                blk_y(cols_g, sz, t),
                                vals(t).0,
                                vals(t).1,
                                vals(t).2,
                            ));
                        }
                    }
                }
                assert forall|q: int|
                    0 <= q < im0.len() && (forall|t: int|
                        0 <= t < k + 1 ==> !in_block(
                            q,
                            w,
                            sz,
                            #[trigger] blk_x(cols_g, sz, t),
                            blk_y(cols_g, sz, t),
                        )) implies #[trigger] source.image@[q] == im0[q] by {
                    assert(!in_block(q, w, sz, blk_x(cols_g, sz, k), blk_y(cols_g, sz, k)));
                    assert(!in_block(q, w, sz, x as int, y as int));
                    assert(source.image@[q] == before[q]);
                    assert forall|t: int| 0 <= t < k implies !in_block(
                        q,
                        w,
                        sz,
                        #[trigger] blk_x(cols_g, sz, t),
                        blk_y(cols_g, sz, t),
                    ) by {}
                    assert(before[q] == im0[q]);
                }
            }
            if len - i > 1 {
                i += 1;
            } else {
                *global_index = len;
                proof {
                    assert(dlen - i0 == k + 1);
                    assert(bw_blocks_written(dlen, i0, nb) == k + 1);
                }
                return Err(EtchError::Exhausted);
            }
            bj += 1;
        }
        proof {
            vstd::arithmetic::mul::lemma_mul_is_distributive_add_other_way(
                cols_g,
                bi as int,
                1,
            );
        }
        bi += 1;
    }
    *global_index = i;
    Ok(())
}

/// Collects the color observations of a whole frame: for each grid block in
/// row-major order, the red, green and blue channel means. On the final
/// frame (and when `final_byte` is not zero) the result is truncated to the
/// first `final_byte` bytes, the number that actually carries payload.
#[verifier::loop_isolation(false)]
pub fn read_color(
    source: &EmbedSource,
    current_frame: usize,
    final_frame: usize,
    final_byte: usize,
) -> (r: Vec<u8>)
    requires
        source.wf(),
        current_frame == final_frame && final_byte != 0 ==> final_byte as int <= 3 * nblocks(
            source.frame_size.width as int,
            source.frame_size.height as int,
            source.size as int,
        ),
    ensures
        ({
            let full = frame_color_reads(
                source.image@,
                source.frame_size.width as int,
                source.frame_size.height as int,
                source.size as int,
            );
            r@ == if current_frame == final_frame && final_byte != 0 {
                full.take(final_byte as int)
            } else {
                full
            }
        }),
{
    let ghost w = source.frame_size.width as int;
    let ghost h = source.frame_size.height as int;
    let ghost sz = source.size as int;
    let ghost cols_g = grid_cols(w, sz);
    let ghost rows_g = grid_rows(h, sz);
    let ghost nb = nblocks(w, h, sz);
    let ghost full = frame_color_reads(source.image@, w, h, sz);

    let size = source.size;
    let cols = source.actual_size.width / size;
    let rows = source.actual_size.height / size;
    proof {
        lemma_grid(*source);
        lemma_grid_counts(*source);
        vstd::arithmetic::mul::lemma_mul_nonnegative(rows_g, cols_g);
    }
    let mut byte_data: Vec<u8> = Vec::new();
    let mut bi: usize = 0;
    while bi < rows
        invariant
            bi <= rows,
            byte_data@.len() == 3 * (bi as int * cols_g),
            forall|u: int| 0 <= u < byte_data@.len() ==> byte_data@[u] == full[u],
        decreases rows - bi,
    {
        let mut bj: usize = 0;
        while bj < cols
            invariant
                bi < rows,
                bj <= cols,
                byte_data@.len() == 3 * (bi as int * cols_g + bj as int),
                forall|u: int| 0 <= u < byte_data@.len() ==> byte_data@[u] == full[u],
            decreases cols - bj,
        {
            let ghost k = bi as int * cols_g + bj as int;
            proof {
                lemma_blk_index(w, h, sz, bi as int, bj as int);
                lemma_fundamental_div_mod_converse(3 * k, 3, k, 0);
                lemma_fundamental_div_mod_converse(3 * k + 1, 3, k, 1);
                lemma_fundamental_div_mod_converse(3 * k + 2, 3, k, 2);
            }
            let x = bj * size;
            let y = bi * size;
            let rgb = match get_pixel(source, x, y) {
                Some(v) => v,
                None => {
                    proof {
                        assert(false);
                    }
                    Vec::new()
                },
            };
            byte_data.push(rgb[0]);
            byte_data.push(rgb[1]);
            byte_data.push(rgb[2]);
            bj += 1;
        }
        proof {
            vstd::arithmetic::mul::lemma_mul_is_distributive_add_other_way(
                cols_g,
                bi as int,
                1,
            );
        }
        bi += 1;
    }
    proof {
        assert(byte_data@ =~= full);
    }
    if current_frame == final_frame && final_byte != 0 {
        byte_data.truncate(final_byte);
        proof {
            assert(byte_data@ =~= full.take(final_byte as int));
        }
    }
    byte_data
}

/// Collects the binary observations of a whole frame: one bit per grid block
/// in row-major order, true exactly when the block's red channel mean reaches
/// the threshold 127. On the final frame (and when `final_bit` is not zero)
/// the result is truncated to the first `final_bit` bits.
#[verifier::loop_isolation(false)]
pub fn read_bw(
    source: &EmbedSource,
    current_frame: usize,
    final_frame: usize,
    final_bit: usize,
) -> (r: Vec<bool>)
    requires
        source.wf(),
        current_frame == final_frame && final_bit != 0 ==> final_bit as int <= nblocks(
            source.frame_size.width as int,
            source.frame_size.height as int,
            source.size as int,
        ),
    ensures
        ({
            let full = frame_bits(
                source.image@,
                source.frame_size.width as int,
                source.frame_size.height as int,
                source.size as int,
            );
            r@ == if current_frame == final_frame && final_bit != 0 {
                full.take(final_bit as int)
            } else {
                full
            }
        }),
{
    let ghost w = source.frame_size.width as int;
    let ghost h = source.frame_size.height as int;
    let ghost sz = source.size as int;
    let ghost cols_g = grid_cols(w, sz);
    let ghost rows_g = grid_rows(h, sz);
    let ghost nb = nblocks(w, h, sz);
    let ghost full = frame_bits(source.image@, w, h, sz);

    let size = source.size;
    let cols = source.actual_size.width / size;
    let rows = source.actual_size.height / size;
    proof {
        lemma_grid(*source);
        lemma_grid_counts(*source);
        vstd::arithmetic::mul::lemma_mul_nonnegative(rows_g, cols_g);
    }
    let mut binary_data: Vec<bool> = Vec::new();
    let mut bi: usize = 0;
    while bi < rows
        invariant
            bi <= rows,
            binary_data@.len() == bi as int * cols_g,
            forall|t: int| 0 <= t < binary_data@.len() ==> binary_data@[t] == full[t],
        decreases rows - bi,
    {
        let mut bj: usize = 0;
        while bj < cols
            invariant
                bi < rows,
                bj <= cols,
                binary_data@.len() == bi as int * cols_g + bj as int,
                forall|t: int| 0 <= t < binary_data@.len() ==> binary_data@[t] == full[t],
            decreases cols - bj,
        {
            let ghost k = bi as int * cols_g + bj as int;
            proof {
                lemma_blk_index(w, h, sz, bi as int, bj as int);
            }
            let x = bj * size;
            let y = bi * size;
            let rgb = match get_pixel(source, x, y) {
                Some(v) => v,
                None => {
                    proof {
                        assert(false);
                    }
                    Vec::new()
                },
            };
            binary_data.push(rgb[0] >= 127);
            bj += 1;
        }
        proof {
            vstd::arithmetic::mul::lemma_mul_is_distributive_add_other_way(
                cols_g,
                bi as int,
                1,
            );
        }
        bi += 1;
    }
    proof {
        assert(binary_data@ =~= full);
    }
    if current_frame == final_frame && final_bit != 0 {
        binary_data.truncate(final_bit);
        proof {
            assert(binary_data@ =~= full.take(final_bit as int));
        }
    }
    binary_data
}

/// Pixel side length of the blocks of the instruction frame; part of the
/// wire format, hard-coded on both sides.
pub const INSTRUCTION_SIZE: usize = 5;

/// First word of the instruction record: all-ones for color mode, zero for
/// binary mode.
pub open spec fn mode_marker(mode: OutputMode) -> u32 {
    if mode == OutputMode::Color {
        0xFFFF_FFFFu32
    } else {
        0u32
    }
}

/// The five 32-bit words of the instruction record: mode marker, index of the
/// final payload frame, number of valid units in it, block side length, and
/// the all-ones terminator.
pub open spec fn instruction_words(
    mode: OutputMode,
    final_frame: u32,
    final_unit: u32,
    block: u32,
) -> Seq<u32> {
    seq![mode_marker(mode), final_frame, final_unit, block, 0xFFFF_FFFFu32]
}

/// Payload units one block carries: three bytes in color mode, one bit in
/// binary mode.
pub open spec fn units_per_block(mode: OutputMode) -> int {
    if mode == OutputMode::Color {
        3
    } else {
        1
    }
}

/// Payload units one frame carries.
pub open spec fn units_per_frame(mode: OutputMode, w: int, h: int, size: int) -> int {
    units_per_block(mode) * nblocks(w, h, size)
}

/// The payload unit count of a `Data` value: bytes in color mode, bits in
/// binary mode.
pub open spec fn unit_count(data: Data) -> int {
    if data.out_mode == OutputMode::Color {
        data.bytes@.len() as int
    } else {
        data.binary@.len() as int
    }
}

/// Number of payload frames an encode produces.
pub open spec fn enc_total_frames(data: Data, s: Settings) -> int {
    ceil_div(
        unit_count(data),
        units_per_frame(data.out_mode, s.width as int, s.height as int, s.size as int),
    )
}

/// Number of valid units in the last payload frame; zero means the last
/// frame is exactly full.
pub open spec fn enc_final_unit(data: Data, s: Settings) -> int {
    unit_count(data) % units_per_frame(
        data.out_mode,
        s.width as int,
        s.height as int,
        s.size as int,
    )
}

/// The canonical pixel buffer of the instruction frame: the record's 160
/// bits painted as black/white blocks of side five on a fresh canvas.
pub open spec fn instruction_image(
    mode: OutputMode,
    final_frame: u32,
    final_unit: u32,
    block: u32,
    w: int,
    h: int,
) -> Seq<u8> {
    bw_frame_image(
        u32s_to_bits(instruction_words(mode, final_frame, final_unit, block)),
        0,
        5,
        w,
        h,
    )
}

/// Ceiling division agrees with the quotient-plus-carry form.
pub proof fn lemma_ceil_div(a: int, b: int)
    requires
        0 <= a,
        0 < b,
    ensures
        ceil_div(a, b) == a / b + if a % b == 0 {
            0int
        } else {
            1int
        },
        0 <= ceil_div(a, b),
{
    vstd::arithmetic::div_mod::lemma_fundamental_div_mod(a, b);
    let q = a / b;
    let r = a % b;
    vstd::arithmetic::div_mod::lemma_mod_division_less_than_divisor(a, b);
    vstd::arithmetic::div_mod::lemma_div_pos_is_pos(a, b);
    vstd::arithmetic::mul::lemma_mul_is_commutative(b, q);
    if r == 0 {
        lemma_fundamental_div_mod_converse(a + b - 1, b, q, b - 1);
    } else {
        assert(a + b - 1 == (q + 1) * b + (r - 1)) by {
            vstd::arithmetic::mul::lemma_mul_is_distributive_add_other_way(b, q, 1);
            vstd::arithmetic::mul::lemma_mul_is_commutative(b, q);
            vstd::arithmetic::mul::lemma_mul_is_commutative(b, q + 1);
        }
        lemma_fundamental_div_mod_converse(a + b - 1, b, q + 1, r - 1);
    }
}

/// Builds the instruction frame for the given settings and payload: the five
/// words of the record, unfolded to 160 bits and painted with block side
/// five onto a fresh full-size canvas. A canvas too small to carry all 160
/// bits is filled as far as it goes, as the nominal geometry demands.
#[verifier::loop_isolation(false)]
pub fn etch_instructions(settings: &Settings, data: &Data) -> (r: EmbedSource)
    requires
        settings.valid(),
        1 <= unit_count(*data),
        enc_total_frames(*data, *settings) <= u32::MAX,
        enc_final_unit(*data, *settings) <= u32::MAX,
        settings.size <= u32::MAX,
    ensures
        r.wf(),
        r.size == INSTRUCTION_SIZE,
        r.frame_size == (crate::source::FrameSize { width: settings.width, height: settings.height }),
        r.image@ == instruction_image(
            data.out_mode,
            enc_total_frames(*data, *settings) as u32,
            enc_final_unit(*data, *settings) as u32,
            settings.size as u32,
            settings.width as int,
            settings.height as int,
        ),
{
    let ghost w = settings.width as int;
    let ghost h = settings.height as int;
    let ghost sz = settings.size as int;
    let ghost mode = data.out_mode;
    let ghost upf = units_per_frame(mode, w, h, sz);

    let instruction_size: usize = INSTRUCTION_SIZE;
    let mut u32_instructions: Vec<u32> = Vec::new();

    let cols = settings.width / settings.size;
    let rows = settings.height / settings.size;
    proof {
        lemma_div_is_ordered(settings.size as int, w, sz);
        lemma_div_is_ordered(settings.size as int, h, sz);
        assert(sz / sz == 1) by {
            vstd::arithmetic::div_mod::lemma_div_by_self(sz);
        }
        assert(1 <= cols as int && 1 <= rows as int);
        assert(cols as int <= w && rows as int <= h) by {
            vstd::arithmetic::div_mod::lemma_div_is_ordered_by_denominator(w, 1, sz);
            vstd::arithmetic::div_mod::lemma_div_is_ordered_by_denominator(h, 1, sz);
            vstd::arithmetic::div_mod::lemma_div_basics_1(w);
            vstd::arithmetic::div_mod::lemma_div_basics_1(h);
        }
        assert(rows as int * cols as int <= h * w) by {
            lemma_mul_inequality(rows as int, h, cols as int);
            vstd::arithmetic::mul::lemma_mul_left_inequality(h, cols as int, w);
        }
        lemma_mul_is_commutative(h, w);
        assert(w * h * 3 <= usize::MAX);
        assert(3 * (w * h) == w * h * 3);
    }
    let nb: usize = rows * cols;
    let number_of_units: usize = match data.out_mode {
        OutputMode::Color => data.bytes.len(),
        OutputMode::Binary => data.binary.len(),
    };
    let frame_data_size: usize = match data.out_mode {
        OutputMode::Color => 3 * nb,
        OutputMode::Binary => nb,
    };
    proof {
        vstd::arithmetic::mul::lemma_mul_strictly_positive(rows as int, cols as int);
        assert(nb as int == nblocks(w, h, sz));
        assert(frame_data_size as int == upf);
        assert(1 <= upf);
        lemma_ceil_div(number_of_units as int, upf);
    }
    let final_frame: usize = number_of_units / frame_data_size + (
    if number_of_units % frame_data_size != 0 {
        1
    } else {
        0
    });
    let final_unit: usize = number_of_units % frame_data_size;
    proof {
        assert(final_frame as int == enc_total_frames(*data, *settings));
        assert(final_unit as int == enc_final_unit(*data, *settings));
    }
    match data.out_mode {
        OutputMode::Color => {
            u32_instructions.push(u32::MAX);
        },
        OutputMode::Binary => {
            u32_instructions.push(u32::MIN);
        },
    }
    u32_instructions.push(final_frame as u32);
    u32_instructions.push(final_unit as u32);
    u32_instructions.push(settings.size as u32);
    u32_instructions.push(u32::MAX);
    proof {
        assert(u32_instructions@ =~= instruction_words(
            mode,
            enc_total_frames(*data, *settings) as u32,
            enc_final_unit(*data, *settings) as u32,
            settings.size as u32,
        ));
    }
    let instruction_data = rip_binary_u32(u32_instructions);

    let mut source = EmbedSource::new(instruction_size, settings.width, settings.height);
    let ghost im0 = source.image@;
    let mut index: usize = 0;
    let _written = etch_bw(&mut source, &instruction_data, &mut index);
    proof {
        let bits = instruction_data@;
        let nb5 = nblocks(w, h, 5);
        let m = bw_blocks_written(bits.len() as int, 0, nb5);
        assert(0 <= m <= nb5);
        assert forall|q: int|
            0 <= q < source.image@.len() && (forall|t: int|
                0 <= t < m ==> !in_block(
                    q,
                    w,
                    5,
                    #[trigger] blk_x(grid_cols(w, 5), 5, t),
                    blk_y(grid_cols(w, 5), 5, t),
                )) implies #[trigger] source.image@[q] == 0 by {
            assert(source.image@[q] == im0[q]);
        }
        crate::grid::lemma_frame_pixels(source.image@, w, h, 5, m, bw_vals(bits, 0));
    }
    source
}

/// Whether a parsed instruction record passes validation: at least five
/// words were read, the mode marker is all-ones or zero, the terminator is
/// all-ones, and the block side is not zero.
pub open spec fn instr_ok(words: Seq<u32>) -> bool {
    &&& words.len() >= 5
    &&& (words[0] == 0xFFFF_FFFFu32 || words[0] == 0u32)
    &&& words[4] == 0xFFFF_FFFFu32
    &&& words[3] != 0u32
}

/// The words the decoder reads off an instruction frame buffer: the frame's
/// block observations at side five, regrouped into 32-bit words.
pub open spec fn decoded_words(im: Seq<u8>, w: int, h: int) -> Seq<u32> {
    bits_to_u32s(frame_bits(im, w, h, 5))
}

/// Parses the instruction frame: reads the frame's bits at block side five,
/// regroups them into words, validates the record and rebuilds the decode
/// settings from the parsed block side, the frame's own pixel dimensions and
/// the caller's thread count. Rejects a record whose mode marker is neither
/// all-ones nor zero, whose terminator is not all-ones, or whose block side
/// is zero.
pub fn read_instructions(source: &EmbedSource, threads: usize) -> (r: Result<
    (OutputMode, usize, usize, Settings),
    EtchError,
>)
    requires
        source.wf(),
        source.size == INSTRUCTION_SIZE,
    ensures
        ({
            let w = source.frame_size.width as int;
            let h = source.frame_size.height as int;
            let words = decoded_words(source.image@, w, h);
            &&& (r is Ok <==> instr_ok(words))
            &&& (r is Err ==> r->Err_0 == EtchError::InstructionCorrupt)
            &&& (r is Ok ==> {
                let (out_mode, final_frame, final_byte, settings) = r->Ok_0;
                &&& out_mode == (if words[0] == 0xFFFF_FFFFu32 {
                    OutputMode::Color
                } else {
                    OutputMode::Binary
                })
                &&& final_frame as int == words[1] as int
                &&& final_byte as int == words[2] as int
                &&& settings == (Settings {
                    size: words[3] as usize,
                    thread: threads,
                    fps: 1337,
                    width: source.frame_size.width,
                    height: source.frame_size.height,
                })
            })
        }),
{
    let binary_data = read_bw(source, 0, 1, 0);
    let u32_data = translate_u32(binary_data);
    if u32_data.len() < 5 {
        return Err(EtchError::InstructionCorrupt);
    }
    let marker = u32_data[0];
    if marker != u32::MAX && marker != 0 {
        return Err(EtchError::InstructionCorrupt);
    }
    if u32_data[4] != u32::MAX {
        return Err(EtchError::InstructionCorrupt);
    }
    if u32_data[3] == 0 {
        return Err(EtchError::InstructionCorrupt);
    }
    let out_mode = if marker == u32::MAX {
        OutputMode::Color
    } else {
        OutputMode::Binary
    };
    let final_frame = u32_data[1] as usize;
    let final_byte = u32_data[2] as usize;
    let size = u32_data[3] as usize;
    let height = source.frame_size.height;
    let width = source.frame_size.width;
    let settings = Settings::new(size, threads, 1337, width, height);
    Ok((out_mode, final_frame, final_byte, settings))
}

/// Copies the half-open range `[a, b)` of a vector.
fn subvec<T: Copy>(v: &Vec<T>, a: usize, b: usize) -> (r: Vec<T>)
    requires
        a <= b <= v@.len(),
    ensures
        r@ == v@.subrange(a as int, b as int),
{
    let mut r: Vec<T> = Vec::new();
    let mut i: usize = a;
    while i < b
        invariant
            a <= i <= b <= v@.len(),
            r@ == v@.subrange(a as int, i as int),
        decreases b - i,
    {
        r.push(v[i]);
        proof {
            assert(r@ =~= v@.subrange(a as int, i + 1));
        }
        i += 1;
    }
    r
}

/// Geometry facts every encoder loop needs: at least one block per frame.
pub proof fn lemma_valid_grid(s: Settings)
    requires
        s.valid(),
    ensures
        1 <= grid_cols(s.width as int, s.size as int),
        1 <= grid_rows(s.height as int, s.size as int),
        1 <= nblocks(s.width as int, s.height as int, s.size as int),
        nblocks(s.width as int, s.height as int, s.size as int) <= s.width as int
            * s.height as int,
        3 * (s.width as int * s.height as int) <= usize::MAX,
{
    let w = s.width as int;
    let h = s.height as int;
    let sz = s.size as int;
    lemma_div_is_ordered(sz, w, sz);
    lemma_div_is_ordered(sz, h, sz);
    assert(sz / sz == 1) by {
        vstd::arithmetic::div_mod::lemma_div_by_self(sz);
    }
    vstd::arithmetic::mul::lemma_mul_strictly_positive(grid_rows(h, sz), grid_cols(w, sz));
    assert(grid_cols(w, sz) <= w && grid_rows(h, sz) <= h) by {
        vstd::arithmetic::div_mod::lemma_div_is_ordered_by_denominator(w, 1, sz);
        vstd::arithmetic::div_mod::lemma_div_is_ordered_by_denominator(h, 1, sz);
        vstd::arithmetic::div_mod::lemma_div_basics_1(w);
        vstd::arithmetic::div_mod::lemma_div_basics_1(h);
    }
    assert(grid_rows(h, sz) * grid_cols(w, sz) <= w * h) by {
        lemma_mul_inequality(grid_rows(h, sz), h, grid_cols(w, sz));
        vstd::arithmetic::mul::lemma_mul_left_inequality(h, grid_cols(w, sz), w);
        lemma_mul_is_commutative(h, w);
    }
    lemma_mul_is_commutative(w, h);
}

/// One worker's job in color mode: encodes a contiguous payload chunk into
/// an ordered list of frames, filling fresh canvases one after another until
/// the chunk is exhausted.
#[verifier::loop_isolation(false)]
pub fn etch_color_frames(chunk: &Vec<u8>, settings: &Settings) -> (frames: Vec<EmbedSource>)
    requires
        settings.valid(),
        1 <= chunk@.len(),
    ensures
        ({
            let w = settings.width as int;
            let h = settings.height as int;
            let sz = settings.size as int;
            let upf = 3 * nblocks(w, h, sz);
            &&& frames@.len() == ceil_div(chunk@.len() as int, upf)
            &&& forall|f: int|
                0 <= f < frames@.len() ==> {
                    &&& (#[trigger] frames@[f]).wf()
                    &&& frames@[f].size == settings.size
                    &&& frames@[f].frame_size == (crate::source::FrameSize {
                        width: settings.width,
                        height: settings.height,
                    })
                    &&& frames@[f].image@ == color_frame_image(chunk@, upf * f, sz, w, h)
                }
        }),
{
    let ghost w = settings.width as int;
    let ghost h = settings.height as int;
    let ghost sz = settings.size as int;
    let ghost nb_g = nblocks(w, h, sz);
    let ghost upf = 3 * nb_g;
    let ghost dlen = chunk@.len() as int;
    proof {
        lemma_valid_grid(*settings);
        lemma_ceil_div(dlen, upf);
    }
    let len = chunk.len();
    let mut frames: Vec<EmbedSource> = Vec::new();
    let mut index: usize = 0;
    proof {
        assert(upf * frames@.len() == 0) by {
            vstd::arithmetic::mul::lemma_mul_by_zero_is_zero(upf);
        }
    }
    while index < len
        invariant
            index as int == upf * frames@.len() || (index as int == dlen && frames@.len()
                == ceil_div(dlen, upf)),
            index <= len,
            forall|f: int|
                0 <= f < frames@.len() ==> {
                    &&& (#[trigger] frames@[f]).wf()
                    &&& frames@[f].size == settings.size
                    &&& frames@[f].frame_size == (crate::source::FrameSize {
                        width: settings.width,
                        height: settings.height,
                    })
                    &&& frames@[f].image@ == color_frame_image(chunk@, upf * f, sz, w, h)
                },
        decreases len - index,
    {
        let ghost g = frames@.len() as int;
        proof {
            if index as int != upf * g {
                assert(index as int == dlen);
                assert(false);
            }
        }
        let mut source = EmbedSource::new(settings.size, settings.width, settings.height);
        let ghost im0 = source.image@;
        let res = etch_color(&mut source, chunk, &mut index);
        proof {
            let i0 = upf * g;
            let m = color_blocks_written(dlen, i0, nb_g);
            assert(0 <= m <= nb_g) by {
                lemma_ceil_div(dlen - i0, 3);
            }
            assert forall|q: int|
                0 <= q < source.image@.len() && (forall|t: int|
                    0 <= t < m ==> !in_block(
                        q,
                        w,
                        sz,
                        #[trigger] blk_x(grid_cols(w, sz), sz, t),
                        blk_y(grid_cols(w, sz), sz, t),
                    )) implies #[trigger] source.image@[q] == 0 by {
                assert(source.image@[q] == im0[q]);
            }
            crate::grid::lemma_frame_pixels(source.image@, w, h, sz, m, color_vals(chunk@, i0));
            assert(source.image@ == color_frame_image(chunk@, upf * g, sz, w, h));
        }
        frames.push(source);
        proof {
            if res is Ok {
                assert(dlen - upf * g > 3 * nb_g);
                assert(index as int == upf * g + 3 * color_blocks_written(dlen, upf * g, nb_g));
                assert(color_blocks_written(dlen, upf * g, nb_g) == nb_g) by {
                    lemma_div_is_ordered(3 * nb_g + 3, dlen - upf * g + 2, 3);
                    lemma_fundamental_div_mod_converse(3 * (nb_g + 1), 3, nb_g + 1, 0);
                }
                assert(index as int == upf * (g + 1)) by {
                    vstd::arithmetic::mul::lemma_mul_is_distributive_add(upf, g, 1);
                }
            } else {
                assert(index as int == dlen);
                assert(dlen - upf * g <= 3 * nb_g);
                assert(frames@.len() == ceil_div(dlen, upf)) by {
                    assert(dlen - upf * g >= 1);
                    assert(dlen + upf - 1 == upf * (g + 1) + (dlen - upf * g - 1)) by {
                        vstd::arithmetic::mul::lemma_mul_is_distributive_add(upf, g, 1);
                    }
                    vstd::arithmetic::mul::lemma_mul_is_commutative(g + 1, upf);
                    lemma_fundamental_div_mod_converse(
                        dlen + upf - 1,
                        upf,
                        g + 1,
                        dlen - upf * g - 1,
                    );
                }
            }
        }
    }
    proof {
        if frames@.len() != ceil_div(dlen, upf) {
            assert(index as int == upf * frames@.len());
            assert(index as int == dlen);
            assert(ceil_div(dlen, upf) == frames@.len()) by {
                assert(dlen + upf - 1 == upf * frames@.len() + (upf - 1));
                vstd::arithmetic::mul::lemma_mul_is_commutative(frames@.len() as int, upf);
                lemma_fundamental_div_mod_converse(
                    dlen + upf - 1,
                    upf,
                    frames@.len() as int,
                    upf - 1,
                );
            }
        }
    }
    frames
}

/// One worker's job in binary mode: encodes a contiguous chunk of the bit
/// stream into an ordered list of frames.
#[verifier::loop_isolation(false)]
pub fn etch_bw_frames(chunk: &Vec<bool>, settings: &Settings) -> (frames: Vec<EmbedSource>)
    requires
        settings.valid(),
        1 <= chunk@.len(),
    ensures
        ({
            let w = settings.width as int;
            let h = settings.height as int;
            let sz = settings.size as int;
            let upf = nblocks(w, h, sz);
            &&& frames@.len() == ceil_div(chunk@.len() as int, upf)
            &&& forall|f: int|
                0 <= f < frames@.len() ==> {
                    &&& (#[trigger] frames@[f]).wf()
                    &&& frames@[f].size == settings.size
                    &&& frames@[f].frame_size == (crate::source::FrameSize {
                        width: settings.width,
                        height: settings.height,
                    })
                    &&& frames@[f].image@ == bw_frame_image(chunk@, upf * f, sz, w, h)
                }
        }),
{
    let ghost w = settings.width as int;
    let ghost h = settings.height as int;
    let ghost sz = settings.size as int;
    let ghost nb_g = nblocks(w, h, sz);
    let ghost upf = nb_g;
    let ghost dlen = chunk@.len() as int;
    proof {
        lemma_valid_grid(*settings);
        lemma_ceil_div(dlen, upf);
    }
    let len = chunk.len();
    let mut frames: Vec<EmbedSource> = Vec::new();
    let mut index: usize = 0;
    proof {
        assert(upf * frames@.len() == 0) by {
            vstd::arithmetic::mul::lemma_mul_by_zero_is_zero(upf);
        }
    }
    while index < len
        invariant
            index as int == upf * frames@.len() || (index as int == dlen && frames@.len()
                == ceil_div(dlen, upf)),
            index <= len,
            forall|f: int|
                0 <= f < frames@.len() ==> {
                    &&& (#[trigger] frames@[f]).wf()
                    &&& frames@[f].size == settings.size
                    &&& frames@[f].frame_size == (crate::source::FrameSize {
                        width: settings.width,
                        height: settings.height,
                    })
                    &&& frames@[f].image@ == bw_frame_image(chunk@, upf * f, sz, w, h)
                },
        decreases len - index,
    {
        let ghost g = frames@.len() as int;
        proof {
            if index as int != upf * g {
                assert(index as int == dlen);
                assert(false);
            }
        }
        let mut source = EmbedSource::new(settings.size, settings.width, settings.height);
        let ghost im0 = source.image@;
        let res = etch_bw(&mut source, chunk, &mut index);
        proof {
            let i0 = upf * g;
            let m = bw_blocks_written(dlen, i0, nb_g);
            assert forall|q: int|
                0 <= q < source.image@.len() && (forall|t: int|
                    0 <= t < m ==> !in_block(
                        q,
                        w,
                        sz,
                        #[trigger] blk_x(grid_cols(w, sz), sz, t),
                        blk_y(grid_cols(w, sz), sz, t),
                    )) implies #[trigger] source.image@[q] == 0 by {
                assert(source.image@[q] == im0[q]);
            }
            crate::grid::lemma_frame_pixels(source.image@, w, h, sz, m, bw_vals(chunk@, i0));
            assert(source.image@ == bw_frame_image(chunk@, upf * g, sz, w, h));
        }
        frames.push(source);
        proof {
            if res is Ok {
                assert(dlen - upf * g > nb_g);
                assert(index as int == upf * g + nb_g);
                assert(index as int == upf * (g + 1)) by {
                    vstd::arithmetic::mul::lemma_mul_is_distributive_add(upf, g, 1);
                }
            } else {
                assert(index as int == dlen);
                assert(dlen - upf * g <= nb_g);
                assert(frames@.len() == ceil_div(dlen, upf)) by {
                    assert(dlen - upf * g >= 1);
                    assert(dlen + upf - 1 == upf * (g + 1) + (dlen - upf * g - 1)) by {
                        vstd::arithmetic::mul::lemma_mul_is_distributive_add(upf, g, 1);
                    }
                    vstd::arithmetic::mul::lemma_mul_is_commutative(g + 1, upf);
                    lemma_fundamental_div_mod_converse(
                        dlen + upf - 1,
                        upf,
                        g + 1,
                        dlen - upf * g - 1,
                    );
                }
            }
        }
    }
    proof {
        if frames@.len() != ceil_div(dlen, upf) {
            assert(index as int == upf * frames@.len());
            assert(index as int == dlen);
            assert(ceil_div(dlen, upf) == frames@.len()) by {
                assert(dlen + upf - 1 == upf * frames@.len() + (upf - 1));
                vstd::arithmetic::mul::lemma_mul_is_commutative(frames@.len() as int, upf);
                lemma_fundamental_div_mod_converse(
                    dlen + upf - 1,
                    upf,
                    frames@.len() as int,
                    upf - 1,
                );
            }
        }
    }
    frames
}

/// Relies on Vec::append: moves all of `other`'s elements to the end of `v`,
/// leaving `other` empty.
#[verifier::external_body]
fn vec_append<T>(v: &mut Vec<T>, other: &mut Vec<T>)
    ensures
        final(v)@ == old(v)@ + old(other)@,
        final(other)@ == Seq::<T>::empty(),
{
    v.append(other)
}

/// Splits the byte payload into contiguous chunks of a whole number of
/// frames each -- the partition the parallel encoder hands to its workers --
/// encodes every chunk in order, and concatenates the chunks' frame lists.
/// The resulting list does not depend on the worker count, because chunk
/// boundaries fall on frame boundaries.
#[verifier::loop_isolation(false)]
fn etch_payload_color(bytes: &Vec<u8>, settings: &Settings) -> (frames: Vec<EmbedSource>)
    requires
        settings.valid(),
        1 <= bytes@.len(),
    ensures
        ({
            let w = settings.width as int;
            let h = settings.height as int;
            let sz = settings.size as int;
            let upf = 3 * nblocks(w, h, sz);
            &&& frames@.len() == ceil_div(bytes@.len() as int, upf)
            &&& forall|f: int|
                0 <= f < frames@.len() ==> {
                    &&& (#[trigger] frames@[f]).wf()
                    &&& frames@[f].size == settings.size
                    &&& frames@[f].frame_size == (crate::source::FrameSize {
                        width: settings.width,
                        height: settings.height,
                    })
                    &&& frames@[f].image@ == color_frame_image(bytes@, upf * f, sz, w, h)
                }
        }),
{
    let ghost w = settings.width as int;
    let ghost h = settings.height as int;
    let ghost sz = settings.size as int;
    let ghost nb_g = nblocks(w, h, sz);
    let ghost upf_g = 3 * nb_g;
    let ghost dlen = bytes@.len() as int;
    proof {
        lemma_valid_grid(*settings);
    }
    let number_of_units = bytes.len();
    let cols = settings.width / settings.size;
    let rows = settings.height / settings.size;
    let nb: usize = rows * cols;
    let upf: usize = 3 * nb;
    proof {
        assert(nb as int == nb_g);
        assert(upf as int == upf_g);
        assert(3 <= upf_g);
        assert(dlen / upf_g <= dlen / 3) by {
            vstd::arithmetic::div_mod::lemma_div_is_ordered_by_denominator(dlen, 3, upf_g);
        }
    }
    let total: usize = number_of_units / upf + (
    if number_of_units % upf != 0 {
        1
    } else {
        0
    });
    proof {
        lemma_ceil_div(dlen, upf_g);
        assert(total as int == ceil_div(dlen, upf_g));
        assert(1 <= total) by {
            vstd::arithmetic::div_mod::lemma_fundamental_div_mod(dlen, upf_g);
            vstd::arithmetic::div_mod::lemma_div_pos_is_pos(dlen, upf_g);
        }
    }
    let workers = settings.thread;
    proof {
        vstd::arithmetic::div_mod::lemma_div_nonincreasing(total as int, workers as int);
    }
    let fpw: usize = total / workers + (
    if total % workers != 0 {
        1
    } else {
        0
    });
    proof {
        lemma_ceil_div(total as int, workers as int);
        assert(fpw as int == ceil_div(total as int, workers as int));
        assert(1 <= fpw) by {
            vstd::arithmetic::div_mod::lemma_fundamental_div_mod(total as int, workers as int);
            vstd::arithmetic::div_mod::lemma_div_pos_is_pos(total as int, workers as int);
            if total % workers == 0 && total / workers == 0 {
                vstd::arithmetic::mul::lemma_mul_by_zero_is_zero(workers as int);
            }
        }
    }
    let cu: usize = if fpw <= usize::MAX / upf {
        proof {
            vstd::arithmetic::div_mod::lemma_fundamental_div_mod(usize::MAX as int, upf as int);
            lemma_mul_inequality(fpw as int, usize::MAX as int / upf as int, upf as int);
            vstd::arithmetic::mul::lemma_mul_is_commutative(
                usize::MAX as int / upf as int,
                upf as int,
            );
        }
        fpw * upf
    } else {
        number_of_units
    };
    proof {
        assert(cu as int == fpw as int * upf_g || cu as int >= dlen);
        assert(1 <= cu) by {
            if cu as int == fpw as int * upf_g {
                vstd::arithmetic::mul::lemma_mul_strictly_positive(fpw as int, upf_g);
            }
        }
    }
    let mut frames: Vec<EmbedSource> = Vec::new();
    let mut start: usize = 0;
    proof {
        assert(upf_g * frames@.len() == 0) by {
            vstd::arithmetic::mul::lemma_mul_by_zero_is_zero(upf_g);
        }
    }
    while start < number_of_units
        invariant
            start <= number_of_units,
            start as int == upf_g * frames@.len() || (start as int == dlen && frames@.len()
                == ceil_div(dlen, upf_g)),
            cu as int == fpw as int * upf_g || cu as int >= dlen,
            1 <= cu,
            forall|f: int|
                0 <= f < frames@.len() ==> {
                    &&& (#[trigger] frames@[f]).wf()
                    &&& frames@[f].size == settings.size
                    &&& frames@[f].frame_size == (crate::source::FrameSize {
                        width: settings.width,
                        height: settings.height,
                    })
                    &&& frames@[f].image@ == color_frame_image(bytes@, upf_g * f, sz, w, h)
                },
        decreases number_of_units - start,
    {
        let ghost g = frames@.len() as int;
        proof {
            if start as int != upf_g * g {
                assert(false);
            }
        }
        let end = if number_of_units - start > cu {
            start + cu
        } else {
            number_of_units
        };
        proof {
            if (end as int) < dlen {
                assert(cu as int == fpw as int * upf_g);
            }
        }
        let chunk = subvec(bytes, start, end);
        let mut newf = etch_color_frames(&chunk, settings);
        let ghost nnew = newf@.len() as int;
        proof {
            assert(nnew == ceil_div(end - start, upf_g));
            assert forall|f2: int| 0 <= f2 < nnew implies #[trigger] newf@[f2].image@
                == color_frame_image(bytes@, upf_g * (g + f2), sz, w, h) by {
                assert(newf@[f2].image@ == color_frame_image(chunk@, upf_g * f2, sz, w, h));
                if (end as int) < dlen {
                    assert(end - start == fpw as int * upf_g);
                    assert(ceil_div(fpw as int * upf_g, upf_g) == fpw as int) by {
                        assert(fpw as int * upf_g + upf_g - 1 == fpw as int * upf_g + (upf_g
                            - 1));
                        vstd::arithmetic::mul::lemma_mul_is_commutative(fpw as int, upf_g);
                        lemma_fundamental_div_mod_converse(
                            fpw as int * upf_g + upf_g - 1,
                            upf_g,
                            fpw as int,
                            upf_g - 1,
                        );
                    }
                    assert(f2 < fpw as int);
                    assert(upf_g * f2 + 3 * nb_g <= end - start) by {
                        lemma_mul_inequality(f2 + 1, fpw as int, upf_g);
                        vstd::arithmetic::mul::lemma_mul_is_distributive_add_other_way(
                            upf_g,
                            f2,
                            1,
                        );
                        vstd::arithmetic::mul::lemma_mul_is_commutative(f2 + 1, upf_g);
                        vstd::arithmetic::mul::lemma_mul_is_commutative(f2, upf_g);
                    }
                }
                crate::grid::lemma_color_frame_slice(
                    bytes@,
                    start as int,
                    end as int,
                    upf_g * f2,
                    sz,
                    w,
                    h,
                );
                assert(upf_g * f2 >= 0) by {
                    vstd::arithmetic::mul::lemma_mul_nonnegative(upf_g, f2);
                }
                assert(start + upf_g * f2 == upf_g * (g + f2)) by {
                    vstd::arithmetic::mul::lemma_mul_is_distributive_add(upf_g, g, f2);
                }
            }
        }
        vec_append(&mut frames, &mut newf);
        start = end;
        proof {
            if (start as int) < dlen {
                assert(start as int == upf_g * g + fpw as int * upf_g);
                assert(nnew == fpw as int) by {
                    vstd::arithmetic::mul::lemma_mul_is_commutative(fpw as int, upf_g);
                    lemma_fundamental_div_mod_converse(
                        fpw as int * upf_g + upf_g - 1,
                        upf_g,
                        fpw as int,
                        upf_g - 1,
                    );
                }
                assert(start as int == upf_g * (g + nnew)) by {
                    vstd::arithmetic::mul::lemma_mul_is_distributive_add(upf_g, g, nnew);
                    vstd::arithmetic::mul::lemma_mul_is_commutative(fpw as int, upf_g);
                }
            } else {
                assert(start as int == dlen);
                assert(frames@.len() == ceil_div(dlen, upf_g)) by {
                    assert(nnew == ceil_div(dlen - upf_g * g, upf_g));
                    lemma_ceil_div(dlen - upf_g * g, upf_g);
                    lemma_ceil_div(dlen, upf_g);
                    assert(ceil_div(dlen, upf_g) == g + nnew) by {
                        vstd::arithmetic::div_mod::lemma_hoist_over_denominator(
                            dlen - upf_g * g + upf_g - 1,
                            g,
                            upf_g as nat,
                        );
                        vstd::arithmetic::mul::lemma_mul_is_commutative(g, upf_g);
                    }
                }
            }
        }
    }
    proof {
        if frames@.len() != ceil_div(dlen, upf_g) {
            assert(start as int == upf_g * frames@.len());
            assert(start as int == dlen);
            vstd::arithmetic::mul::lemma_mul_is_commutative(frames@.len() as int, upf_g);
            lemma_fundamental_div_mod_converse(
                dlen + upf_g - 1,
                upf_g,
                frames@.len() as int,
                upf_g - 1,
            );
        }
    }
    frames
}

/// The binary-mode analogue of the payload partition: splits the bit stream
/// into contiguous chunks of a whole number of frames each, encodes every
/// chunk in order, and concatenates the chunks' frame lists.
#[verifier::loop_isolation(false)]
fn etch_payload_bw(bits: &Vec<bool>, settings: &Settings) -> (frames: Vec<EmbedSource>)
    requires
        settings.valid(),
        1 <= bits@.len(),
    ensures
        ({
            let w = settings.width as int;
            let h = settings.height as int;
            let sz = settings.size as int;
            let upf = nblocks(w, h, sz);
            &&& frames@.len() == ceil_div(bits@.len() as int, upf)
            &&& forall|f: int|
                0 <= f < frames@.len() ==> {
                    &&& (#[trigger] frames@[f]).wf()
                    &&& frames@[f].size == settings.size
                    &&& frames@[f].frame_size == (crate::source::FrameSize {
                        width: settings.width,
                        height: settings.height,
                    })
                    &&& frames@[f].image@ == bw_frame_image(bits@, upf * f, sz, w, h)
                }
        }),
{
    let ghost w = settings.width as int;
    let ghost h = settings.height as int;
    let ghost sz = settings.size as int;
    let ghost nb_g = nblocks(w, h, sz);
    let ghost upf_g = nb_g;
    let ghost dlen = bits@.len() as int;
    proof {
        lemma_valid_grid(*settings);
    }
    let number_of_units = bits.len();
    let cols = settings.width / settings.size;
    let rows = settings.height / settings.size;
    let nb: usize = rows * cols;
    let upf: usize = nb;
    proof {
        assert(nb as int == nb_g);
        assert(upf as int == upf_g);
        assert(1 <= upf_g);
        assert(dlen % upf_g != 0 ==> dlen / upf_g < dlen) by {
            vstd::arithmetic::div_mod::lemma_fundamental_div_mod(dlen, upf_g);
            vstd::arithmetic::div_mod::lemma_div_pos_is_pos(dlen, upf_g);
            if dlen % upf_g != 0 {
                lemma_mul_inequality(1, upf_g, dlen / upf_g);
                vstd::arithmetic::mul::lemma_mul_is_commutative(upf_g, dlen / upf_g);
            }
        }
        assert(dlen % upf_g == 0 ==> dlen / upf_g <= dlen) by {
            vstd::arithmetic::div_mod::lemma_div_nonincreasing(dlen, upf_g);
        }
    }
    let total: usize = number_of_units / upf + (
    if number_of_units % upf != 0 {
        1
    } else {
        0
    });
    proof {
        lemma_ceil_div(dlen, upf_g);
        assert(total as int == ceil_div(dlen, upf_g));
        assert(1 <= total) by {
            vstd::arithmetic::div_mod::lemma_fundamental_div_mod(dlen, upf_g);
            vstd::arithmetic::div_mod::lemma_div_pos_is_pos(dlen, upf_g);
            if dlen % upf_g == 0 && dlen / upf_g == 0 {
                vstd::arithmetic::mul::lemma_mul_by_zero_is_zero(upf_g);
            }
        }
    }
    let workers = settings.thread;
    proof {
        vstd::arithmetic::div_mod::lemma_div_nonincreasing(total as int, workers as int);
        assert(total % workers != 0 ==> (total as int) / (workers as int) < total as int) by {
            vstd::arithmetic::div_mod::lemma_fundamental_div_mod(total as int, workers as int);
            vstd::arithmetic::div_mod::lemma_div_pos_is_pos(total as int, workers as int);
            if total % workers != 0 {
                lemma_mul_inequality(1, workers as int, (total as int) / (workers as int));
                vstd::arithmetic::mul::lemma_mul_is_commutative(
                    workers as int,
                    (total as int) / (workers as int),
                );
            }
        }
    }
    let fpw: usize = total / workers + (
    if total % workers != 0 {
        1
    } else {
        0
    });
    proof {
        lemma_ceil_div(total as int, workers as int);
        assert(fpw as int == ceil_div(total as int, workers as int));
        assert(1 <= fpw) by {
            vstd::arithmetic::div_mod::lemma_fundamental_div_mod(total as int, workers as int);
            vstd::arithmetic::div_mod::lemma_div_pos_is_pos(total as int, workers as int);
            if total % workers == 0 && total / workers == 0 {
                vstd::arithmetic::mul::lemma_mul_by_zero_is_zero(workers as int);
            }
        }
    }
    let cu: usize = if fpw <= usize::MAX / upf {
        proof {
            vstd::arithmetic::div_mod::lemma_fundamental_div_mod(usize::MAX as int, upf as int);
            lemma_mul_inequality(fpw as int, usize::MAX as int / upf as int, upf as int);
            vstd::arithmetic::mul::lemma_mul_is_commutative(
                usize::MAX as int / upf as int,
                upf as int,
            );
        }
        fpw * upf
    } else {
        number_of_units
    };
    proof {
        assert(cu as int == fpw as int * upf_g || cu as int >= dlen);
        assert(1 <= cu) by {
            if cu as int == fpw as int * upf_g {
                vstd::arithmetic::mul::lemma_mul_strictly_positive(fpw as int, upf_g);
            }
        }
    }
    let mut frames: Vec<EmbedSource> = Vec::new();
    let mut start: usize = 0;
    proof {
        assert(upf_g * frames@.len() == 0) by {
            vstd::arithmetic::mul::lemma_mul_by_zero_is_zero(upf_g);
        }
    }
    while start < number_of_units
        invariant
            start <= number_of_units,
            start as int == upf_g * frames@.len() || (start as int == dlen && frames@.len()
                == ceil_div(dlen, upf_g)),
            cu as int == fpw as int * upf_g || cu as int >= dlen,
            1 <= cu,
            forall|f: int|
                0 <= f < frames@.len() ==> {
                    &&& (#[trigger] frames@[f]).wf()
                    &&& frames@[f].size == settings.size
                    &&& frames@[f].frame_size == (crate::source::FrameSize {
                        width: settings.width,
                        height: settings.height,
                    })
                    &&& frames@[f].image@ == bw_frame_image(bits@, upf_g * f, sz, w, h)
                },
        decreases number_of_units - start,
    {
        let ghost g = frames@.len() as int;
        proof {
            if start as int != upf_g * g {
                assert(false);
            }
        }
        let end = if number_of_units - start > cu {
            start + cu
        } else {
            number_of_units
        };
        proof {
            if (end as int) < dlen {
                assert(cu as int == fpw as int * upf_g);
            }
        }
        let chunk = subvec(bits, start, end);
        let mut newf = etch_bw_frames(&chunk, settings);
        let ghost nnew = newf@.len() as int;
        proof {
            assert(nnew == ceil_div(end - start, upf_g));
            assert forall|f2: int| 0 <= f2 < nnew implies #[trigger] newf@[f2].image@
                == bw_frame_image(bits@, upf_g * (g + f2), sz, w, h) by {
                assert(newf@[f2].image@ == bw_frame_image(chunk@, upf_g * f2, sz, w, h));
                if (end as int) < dlen {
                    assert(end - start == fpw as int * upf_g);
                    assert(ceil_div(fpw as int * upf_g, upf_g) == fpw as int) by {
                        assert(fpw as int * upf_g + upf_g - 1 == fpw as int * upf_g + (upf_g
                            - 1));
                        vstd::arithmetic::mul::lemma_mul_is_commutative(fpw as int, upf_g);
                        lemma_fundamental_div_mod_converse(
                            fpw as int * upf_g + upf_g - 1,
                            upf_g,
                            fpw as int,
                            upf_g - 1,
                        );
                    }
                    assert(f2 < fpw as int);
                    assert(upf_g * f2 + nb_g <= end - start) by {
                        lemma_mul_inequality(f2 + 1, fpw as int, upf_g);
                        vstd::arithmetic::mul::lemma_mul_is_distributive_add_other_way(
                            upf_g,
                            f2,
                            1,
                        );
                        vstd::arithmetic::mul::lemma_mul_is_commutative(f2 + 1, upf_g);
                        vstd::arithmetic::mul::lemma_mul_is_commutative(f2, upf_g);
                    }
                }
                crate::grid::lemma_bw_frame_slice(
                    bits@,
                    start as int,
                    end as int,
                    upf_g * f2,
                    sz,
                    w,
                    h,
                );
                assert(upf_g * f2 >= 0) by {
                    vstd::arithmetic::mul::lemma_mul_nonnegative(upf_g, f2);
                }
                assert(start + upf_g * f2 == upf_g * (g + f2)) by {
                    vstd::arithmetic::mul::lemma_mul_is_distributive_add(upf_g, g, f2);
                }
            }
        }
        vec_append(&mut frames, &mut newf);
        start = end;
        proof {
            if (start as int) < dlen {
                assert(start as int == upf_g * g + fpw as int * upf_g);
                assert(nnew == fpw as int) by {
                    vstd::arithmetic::mul::lemma_mul_is_commutative(fpw as int, upf_g);
                    lemma_fundamental_div_mod_converse(
                        fpw as int * upf_g + upf_g - 1,
                        upf_g,
                        fpw as int,
                        upf_g - 1,
                    );
                }
                assert(start as int == upf_g * (g + nnew)) by {
                    vstd::arithmetic::mul::lemma_mul_is_distributive_add(upf_g, g, nnew);
                    vstd::arithmetic::mul::lemma_mul_is_commutative(fpw as int, upf_g);
                }
            } else {
                assert(start as int == dlen);
                assert(frames@.len() == ceil_div(dlen, upf_g)) by {
                    assert(nnew == ceil_div(dlen - upf_g * g, upf_g));
                    lemma_ceil_div(dlen - upf_g * g, upf_g);
                    lemma_ceil_div(dlen, upf_g);
                    assert(ceil_div(dlen, upf_g) == g + nnew) by {
                        vstd::arithmetic::div_mod::lemma_hoist_over_denominator(
                            dlen - upf_g * g + upf_g - 1,
                            g,
                            upf_g as nat,
                        );
                        vstd::arithmetic::mul::lemma_mul_is_commutative(g, upf_g);
                    }
                }
            }
        }
    }
    proof {
        if frames@.len() != ceil_div(dlen, upf_g) {
            assert(start as int == upf_g * frames@.len());
            assert(start as int == dlen);
            vstd::arithmetic::mul::lemma_mul_is_commutative(frames@.len() as int, upf_g);
            lemma_fundamental_div_mod_converse(
                dlen + upf_g - 1,
                upf_g,
                frames@.len() as int,
                upf_g - 1,
            );
        }
    }
    frames
}

/// Encodes a payload into the complete ordered frame list: the instruction
/// frame first, then the payload frames in payload order. The list is a
/// function of the payload, the mode and the geometry alone -- the worker
/// count only chooses the partition, whose boundaries fall on frame
/// boundaries. Rejects an empty payload.
pub fn etch(data: &Data, settings: &Settings) -> (r: Result<Vec<EmbedSource>, EtchError>)
    requires
        settings.valid(),
        enc_total_frames(*data, *settings) <= u32::MAX,
        enc_final_unit(*data, *settings) <= u32::MAX,
        settings.size <= u32::MAX,
    ensures
        (r is Err <==> unit_count(*data) == 0),
        (r is Err ==> r->Err_0 == EtchError::EmptyPayload),
        r is Ok ==> ({
            let frames = r->Ok_0@;
            let w = settings.width as int;
            let h = settings.height as int;
            let sz = settings.size as int;
            let upf = units_per_frame(data.out_mode, w, h, sz);
            let tf = enc_total_frames(*data, *settings);
            &&& frames.len() == 1 + tf
            &&& frames[0].wf()
            &&& frames[0].size == INSTRUCTION_SIZE
            &&& frames[0].frame_size == (crate::source::FrameSize {
                width: settings.width,
                height: settings.height,
            })
            &&& frames[0].image@ == instruction_image(
                data.out_mode,
                tf as u32,
                enc_final_unit(*data, *settings) as u32,
                settings.size as u32,
                w,
                h,
            )
            &&& forall|f: int|
                0 <= f < tf ==> {
                    &&& (#[trigger] frames[1 + f]).wf()
                    &&& frames[1 + f].size == settings.size
                    &&& frames[1 + f].frame_size == (crate::source::FrameSize {
                        width: settings.width,
                        height: settings.height,
                    })
                    &&& frames[1 + f].image@ == (if data.out_mode == OutputMode::Color {
                        color_frame_image(data.bytes@, upf * f, sz, w, h)
                    } else {
                        bw_frame_image(data.binary@, upf * f, sz, w, h)
                    })
                }
        }),
{
    let number_of_units = match data.out_mode {
        OutputMode::Color => data.bytes.len(),
        OutputMode::Binary => data.binary.len(),
    };
    if number_of_units == 0 {
        return Err(EtchError::EmptyPayload);
    }
    let instruction = etch_instructions(settings, data);
    let mut complete_frames: Vec<EmbedSource> = Vec::new();
    complete_frames.push(instruction);
    let mut payload_frames = match data.out_mode {
        OutputMode::Color => etch_payload_color(&data.bytes, settings),
        OutputMode::Binary => etch_payload_bw(&data.binary, settings),
    };
    proof {
        assert(payload_frames@.len() == enc_total_frames(*data, *settings));
    }
    vec_append(&mut complete_frames, &mut payload_frames);
    Ok(complete_frames)
}

/// The bytes one payload frame contributes to a color decode: all its block
/// reads, truncated to `fu` bytes on the final frame when `fu` is not zero.
pub open spec fn frame_units_color(im: Seq<u8>, w: int, h: int, block: int, is_final: bool, fu: int) -> Seq<u8> {
    let full = frame_color_reads(im, w, h, block);
    if is_final && fu != 0 {
        full.take(fu)
    } else {
        full
    }
}

/// The bits one payload frame contributes to a binary decode.
pub open spec fn frame_units_bw(im: Seq<u8>, w: int, h: int, block: int, is_final: bool, fu: int) -> Seq<bool> {
    let full = frame_bits(im, w, h, block);
    if is_final && fu != 0 {
        full.take(fu)
    } else {
        full
    }
}

/// Concatenation of the bytes contributed by payload frames 1 through `k` of
/// a color decode.
pub open spec fn color_payload_upto(
    images: Seq<Seq<u8>>,
    w: int,
    h: int,
    block: int,
    ff: int,
    fu: int,
    k: int,
) -> Seq<u8>
    decreases k,
{
    if k <= 0 {
        Seq::empty()
    } else {
        color_payload_upto(images, w, h, block, ff, fu, k - 1) + frame_units_color(
            images[k],
            w,
            h,
            block,
            k == ff,
            fu,
        )
    }
}

/// Concatenation of the bits contributed by payload frames 1 through `k` of
/// a binary decode.
pub open spec fn bw_payload_upto(
    images: Seq<Seq<u8>>,
    w: int,
    h: int,
    block: int,
    ff: int,
    fu: int,
    k: int,
) -> Seq<bool>
    decreases k,
{
    if k <= 0 {
        Seq::empty()
    } else {
        bw_payload_upto(images, w, h, block, ff, fu, k - 1) + frame_units_bw(
            images[k],
            w,
            h,
            block,
            k == ff,
            fu,
        )
    }
}

/// The decoder's walk over payload frames 1 through `ff`: each must be
/// present and must match the declared geometry (the block side has to
/// divide the frame height, and the buffer must hold three bytes per pixel).
pub open spec fn frames_check(
    images: Seq<Seq<u8>>,
    w: int,
    h: int,
    block: int,
    k: int,
    ff: int,
) -> Result<(), EtchError>
    decreases ff - k + 1,
{
    if k > ff {
        Ok(())
    } else if k >= images.len() {
        Err(EtchError::Truncated)
    } else if images[k].len() != 3 * (w * h) || h % block != 0 {
        Err(EtchError::Geometry)
    } else {
        frames_check(images, w, h, block, k + 1, ff)
    }
}

/// What decoding a frame stream yields: the parsed instruction record drives
/// a sequential walk over the payload frames, whose observations are
/// concatenated and, in binary mode, repacked into bytes. Frames past the
/// final payload frame are ignored.
pub open spec fn decode_spec(images: Seq<Seq<u8>>, w: int, h: int) -> Result<Seq<u8>, EtchError> {
    if images.len() == 0 {
        Err(EtchError::Truncated)
    } else if images[0].len() != 3 * (w * h) {
        Err(EtchError::Geometry)
    } else {
        let words = decoded_words(images[0], w, h);
        if !instr_ok(words) {
            Err(EtchError::InstructionCorrupt)
        } else {
            let mode = if words[0] == 0xFFFF_FFFFu32 {
                OutputMode::Color
            } else {
                OutputMode::Binary
            };
            let block = words[3] as int;
            let ff = words[1] as int;
            let fu = words[2] as int;
            if fu > units_per_frame(mode, w, h, block) {
                Err(EtchError::InstructionCorrupt)
            } else {
                match frames_check(images, w, h, block, 1, ff) {
                    Err(e) => Err(e),
                    Ok(()) => Ok(
                        if mode == OutputMode::Color {
                            color_payload_upto(images, w, h, block, ff, fu, ff)
                        } else {
                            bits_to_bytes(bw_payload_upto(images, w, h, block, ff, fu, ff))
                        },
                    ),
                }
            }
        }
    }
}

/// Decodes a demuxed frame stream (`frames[0]` is the instruction frame)
/// back into the payload bytes.
#[verifier::loop_isolation(false)]
pub fn read(frames: &Vec<Vec<u8>>, width: usize, height: usize, threads: usize) -> (r: Result<
    Vec<u8>,
    EtchError,
>)
    requires
        width * height * 3 <= usize::MAX,
    ensures
        ({
            let spec_r = decode_spec(frames.deep_view(), width as int, height as int);
            &&& (r is Ok <==> spec_r is Ok)
            &&& (r is Ok ==> r->Ok_0@ == spec_r->Ok_0)
            &&& (r is Err ==> r->Err_0 == spec_r->Err_0)
        }),
{
    let ghost w = width as int;
    let ghost h = height as int;
    let ghost images = frames.deep_view();
    proof {
        assert forall|j: int| 0 <= j < frames@.len() implies #[trigger] images[j] == frames@[j]@ by {
            assert(images[j] =~= frames@[j]@);
        }
    }
    if frames.len() == 0 {
        return Err(EtchError::Truncated);
    }
    let first = subvec(&frames[0], 0, frames[0].len());
    proof {
        assert(first@ =~= frames@[0]@);
    }
    let instruction_source = match EmbedSource::from(first, INSTRUCTION_SIZE, width, height, true) {
        Ok(s) => s,
        Err(e) => {
            return Err(e);
        },
    };
    let (out_mode, final_frame, final_byte, settings) = match read_instructions(
        &instruction_source,
        threads,
    ) {
        Ok(t) => t,
        Err(e) => {
            return Err(e);
        },
    };
    let ghost words = decoded_words(images[0], w, h);
    let block = settings.size;
    let ghost blk = block as int;
    let ghost ff = words[1] as int;
    let ghost fu = words[2] as int;
    proof {
        assert(blk == words[3] as int);
        assert(1 <= blk);
        assert(final_frame as int == ff);
        assert(final_byte as int == fu);
    }
    let cols = width / block;
    let rows = height / block;
    proof {
        assert(cols as int <= w && rows as int <= h) by {
            vstd::arithmetic::div_mod::lemma_div_is_ordered_by_denominator(w, 1, blk);
            vstd::arithmetic::div_mod::lemma_div_is_ordered_by_denominator(h, 1, blk);
            vstd::arithmetic::div_mod::lemma_div_basics_1(w);
            vstd::arithmetic::div_mod::lemma_div_basics_1(h);
            vstd::arithmetic::div_mod::lemma_div_pos_is_pos(w, blk);
            vstd::arithmetic::div_mod::lemma_div_pos_is_pos(h, blk);
        }
        assert(rows as int * cols as int <= w * h) by {
            lemma_mul_inequality(rows as int, h, cols as int);
            if 0 < h {
                vstd::arithmetic::mul::lemma_mul_left_inequality(h, cols as int, w);
            } else {
                vstd::arithmetic::mul::lemma_mul_by_zero_is_zero(cols as int);
                vstd::arithmetic::mul::lemma_mul_by_zero_is_zero(w);
                lemma_mul_is_commutative(h, cols as int);
                lemma_mul_is_commutative(h, w);
            }
            lemma_mul_is_commutative(h, w);
        }
        lemma_mul_is_commutative(w, h);
    }
    let nb: usize = rows * cols;
    let upfb: usize = match out_mode {
        OutputMode::Color => 3 * nb,
        OutputMode::Binary => nb,
    };
    proof {
        assert(upfb as int == units_per_frame(out_mode, w, h, blk));
    }
    if final_byte > upfb {
        return Err(EtchError::InstructionCorrupt);
    }
    let mut byte_data: Vec<u8> = Vec::new();
    let mut binary_data: Vec<bool> = Vec::new();
    let mut current_frame: usize = 1;
    while current_frame <= final_frame
        invariant
            1 <= current_frame,
            current_frame <= final_frame + 1,
            frames_check(images, w, h, blk, current_frame as int, ff) == frames_check(
                images,
                w,
                h,
                blk,
                1,
                ff,
            ),
            out_mode == OutputMode::Color ==> byte_data@ == color_payload_upto(
                images,
                w,
                h,
                blk,
                ff,
                fu,
                current_frame - 1,
            ),
            out_mode == OutputMode::Binary ==> binary_data@ == bw_payload_upto(
                images,
                w,
                h,
                blk,
                ff,
                fu,
                current_frame - 1,
            ),
            out_mode == OutputMode::Color ==> binary_data@.len() == 0,
            out_mode == OutputMode::Binary ==> byte_data@.len() == 0,
        decreases final_frame + 1 - current_frame,
    {
        if current_frame >= frames.len() {
            return Err(EtchError::Truncated);
        }
        let buf = subvec(&frames[current_frame], 0, frames[current_frame].len());
        proof {
            assert(buf@ =~= frames@[current_frame as int]@);
        }
        let source = match EmbedSource::from(buf, block, width, height, false) {
            Ok(s) => s,
            Err(e) => {
                return Err(e);
            },
        };
        match out_mode {
            OutputMode::Color => {
                let mut frame_data = read_color(&source, current_frame, final_frame, final_byte);
                proof {
                    assert(frame_data@ == frame_units_color(
                        images[current_frame as int],
                        w,
                        h,
                        blk,
                        current_frame as int == ff,
                        fu,
                    ));
                }
                vec_append(&mut byte_data, &mut frame_data);
            },
            OutputMode::Binary => {
                let mut frame_data = read_bw(&source, current_frame, final_frame, final_byte);
                proof {
                    assert(frame_data@ == frame_units_bw(
                        images[current_frame as int],
                        w,
                        h,
                        blk,
                        current_frame as int == ff,
                        fu,
                    ));
                }
                vec_append(&mut binary_data, &mut frame_data);
            },
        }
        current_frame += 1;
    }
    proof {
        assert(frames_check(images, w, h, blk, 1, ff) is Ok);
    }
    match out_mode {
        OutputMode::Color => Ok(byte_data),
        OutputMode::Binary => Ok(translate_u8(binary_data)),
    }
}

} // verus!

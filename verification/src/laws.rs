//! The codec's global guarantees, stated and proved once over the spec-level
//! models: what writing and rereading a block yields, how much perturbation a
//! binary block survives, that the instruction frame parses back to the
//! record it was built from, that the frame list does not depend on the
//! worker count, and that decoding inverts encoding.

use vstd::prelude::*;
use vstd::arithmetic::div_mod::{
    lemma_fundamental_div_mod, lemma_fundamental_div_mod_converse, lemma_div_is_ordered,
    lemma_div_pos_is_pos, lemma_mod_division_less_than_divisor,
};
use vstd::arithmetic::mul::{
    lemma_mul_inequality, lemma_mul_is_commutative, lemma_mul_is_distributive_add,
    lemma_mul_nonnegative,
};

use crate::error::EtchError;
use crate::settings::{Data, OutputMode, Settings};
use crate::pack::{bytes_to_bits, bits_to_u32s, u32s_to_bits, lemma_bitpack_involution, lemma_wordpack_involution};
use crate::source::{
    block_avg, block_chan_bounded, block_uniform, lemma_block_avg_bounded,
    lemma_block_avg_uniform, EmbedSource,
};
use crate::grid::{
    bw_frame_image, ceil_div, color_frame_image, frame_bits, frame_color_reads,
    lemma_frame_read_bw_at, lemma_frame_read_color_at, nblocks,
};
use crate::etcher::{
    decode_spec, decoded_words, enc_final_unit, enc_total_frames, frames_check, frame_units_bw,
    frame_units_color, bw_payload_upto, color_payload_upto, instr_ok, instruction_image,
    instruction_words, mode_marker, units_per_frame, lemma_valid_grid,
};

verus! {

/// Block idempotence: a block that was written uniformly with a triple reads
/// back as exactly that triple, channel by channel -- the integer mean of a
/// constant block is that constant.
pub proof fn lemma_block_idempotence(
    im: Seq<u8>,
    w: int,
    h: int,
    size: int,
    x0: int,
    y0: int,
    b: u8,
    g: u8,
    r: u8,
)
    requires
        block_uniform(im, w, size, x0, y0, b, g, r),
        im.len() == 3 * (w * h),
        1 <= size,
        0 <= x0,
        0 <= y0,
        x0 + size <= w,
        y0 + size <= h,
    ensures
        block_avg(im, w, x0, y0, size, 0) == b as int,
        block_avg(im, w, x0, y0, size, 1) == g as int,
        block_avg(im, w, x0, y0, size, 2) == r as int,
{
    lemma_block_avg_uniform(im, w, h, size, x0, y0, b, g, r, 0);
    lemma_block_avg_uniform(im, w, h, size, x0, y0, b, g, r, 1);
    lemma_block_avg_uniform(im, w, h, size, x0, y0, b, g, r, 2);
}

/// Binary threshold tolerance, white side: if every red channel of a written
/// white block is perturbed by at most `delta`, with `delta` up to 127, the
/// block's mean still reaches the threshold and the bit reads as one.
pub proof fn lemma_white_block_tolerance(
    im: Seq<u8>,
    w: int,
    h: int,
    size: int,
    x0: int,
    y0: int,
    delta: int,
)
    requires
        block_chan_bounded(im, w, size, x0, y0, 2, 255 - delta, 255),
        im.len() == 3 * (w * h),
        1 <= size,
        0 <= x0,
        0 <= y0,
        x0 + size <= w,
        y0 + size <= h,
        0 <= delta <= 127,
    ensures
        block_avg(im, w, x0, y0, size, 2) >= 127,
{
    lemma_block_avg_bounded(im, w, h, size, x0, y0, 255 - delta, 255, 2);
}

/// Binary threshold tolerance, black side: if every red channel of a written
/// black block is perturbed by at most `delta`, with `delta` up to 126, the
/// block's mean stays below the threshold and the bit reads as zero. (A
/// perturbation of 127 can lift the mean to exactly the threshold, which
/// reads as one, so the black side tolerates one unit less than the white.)
pub proof fn lemma_black_block_tolerance(
    im: Seq<u8>,
    w: int,
    h: int,
    size: int,
    x0: int,
    y0: int,
    delta: int,
)
    requires
        block_chan_bounded(im, w, size, x0, y0, 2, 0, delta),
        im.len() == 3 * (w * h),
        1 <= size,
        0 <= x0,
        0 <= y0,
        x0 + size <= w,
        y0 + size <= h,
        0 <= delta <= 126,
    ensures
        block_avg(im, w, x0, y0, size, 2) < 127,
{
    lemma_block_avg_bounded(im, w, h, size, x0, y0, 0, delta, 2);
}

/// The words the decoder reads off the canonical instruction frame are the
/// words the encoder put in, provided the frame's grid has room for all 160
/// record bits at block side five.
pub proof fn lemma_instruction_decode(
    mode: OutputMode,
    ff: u32,
    fu: u32,
    block: u32,
    w: int,
    h: int,
)
    requires
        0 < w,
        0 < h,
        160 <= nblocks(w, h, 5),
    ensures
        ({
            let words = decoded_words(instruction_image(mode, ff, fu, block, w, h), w, h);
            &&& words.len() >= 5
            &&& words[0] == mode_marker(mode)
            &&& words[1] == ff
            &&& words[2] == fu
            &&& words[3] == block
            &&& words[4] == 0xFFFF_FFFFu32
        }),
{
    let words0 = instruction_words(mode, ff, fu, block);
    let bits160 = u32s_to_bits(words0);
    assert(bits160.len() == 160);
    let im = instruction_image(mode, ff, fu, block, w, h);
    let fb = frame_bits(im, w, h, 5);
    let nb5 = nblocks(w, h, 5);
    assert(fb.len() == nb5);
    assert forall|t: int| 0 <= t < 160 implies fb[t] == bits160[t] by {
        lemma_frame_read_bw_at(bits160, 0, 5, w, h, t);
    }
    let words = bits_to_u32s(fb);
    assert(words.len() >= 5) by {
        lemma_div_is_ordered(160, nb5, 32);
    }
    lemma_wordpack_involution(words0);
    assert forall|j: int| 0 <= j < 5 implies words[j] == words0[j] by {
        assert(fb.subrange(32 * j, 32 * j + 32) =~= bits160.subrange(32 * j, 32 * j + 32));
        assert(bits_to_u32s(bits160)[j] == words0[j]);
    }
}

/// Instruction framing: for any mode and record fields with a nonzero block
/// side, parsing the frame the encoder builds passes validation and yields
/// exactly the mode, final frame, final unit and block that went in.
pub proof fn lemma_instruction_framing(
    mode: OutputMode,
    ff: u32,
    fu: u32,
    block: u32,
    w: int,
    h: int,
)
    requires
        0 < w,
        0 < h,
        160 <= nblocks(w, h, 5),
        block != 0,
    ensures
        ({
            let words = decoded_words(instruction_image(mode, ff, fu, block, w, h), w, h);
            &&& instr_ok(words)
            &&& (if words[0] == 0xFFFF_FFFFu32 {
                OutputMode::Color
            } else {
                OutputMode::Binary
            }) == mode
            &&& words[1] == ff
            &&& words[2] == fu
            &&& words[3] == block
        }),
{
    lemma_instruction_decode(mode, ff, fu, block, w, h);
}

/// Worker-count invariance: two encodes of the same payload with the same
/// block side and frame geometry produce identical frame lists, whatever
/// worker counts (and presentation rates) their settings carry. The frame
/// list is pinned by the canonical images, which mention neither.
pub proof fn lemma_worker_count_invariance(
    data: Data,
    s1: Settings,
    s2: Settings,
    frames1: Seq<EmbedSource>,
    frames2: Seq<EmbedSource>,
)
    requires
        s1.size == s2.size,
        s1.width == s2.width,
        s1.height == s2.height,
        ({
            let w = s1.width as int;
            let h = s1.height as int;
            let sz = s1.size as int;
            let upf = units_per_frame(data.out_mode, w, h, sz);
            let tf = enc_total_frames(data, s1);
            &&& frames1.len() == 1 + tf
            &&& frames1[0].image@ == instruction_image(
                data.out_mode,
                tf as u32,
                enc_final_unit(data, s1) as u32,
                s1.size as u32,
                w,
                h,
            )
            &&& (forall|f: int|
                0 <= f < tf ==> (#[trigger] frames1[1 + f]).image@ == (
                if data.out_mode == OutputMode::Color {
                    color_frame_image(data.bytes@, upf * f, sz, w, h)
                } else {
                    bw_frame_image(data.binary@, upf * f, sz, w, h)
                }))
        }),
        ({
            let w = s2.width as int;
            let h = s2.height as int;
            let sz = s2.size as int;
            let upf = units_per_frame(data.out_mode, w, h, sz);
            let tf = enc_total_frames(data, s2);
            &&& frames2.len() == 1 + tf
            &&& frames2[0].image@ == instruction_image(
                data.out_mode,
                tf as u32,
                enc_final_unit(data, s2) as u32,
                s2.size as u32,
                w,
                h,
            )
            &&& (forall|f: int|
                0 <= f < tf ==> (#[trigger] frames2[1 + f]).image@ == (
                if data.out_mode == OutputMode::Color {
                    color_frame_image(data.bytes@, upf * f, sz, w, h)
                } else {
                    bw_frame_image(data.binary@, upf * f, sz, w, h)
                }))
        }),
    ensures
        frames1.len() == frames2.len(),
        forall|i: int| 0 <= i < frames1.len() ==> (#[trigger] frames1[i]).image@
            == frames2[i].image@,
{
    assert(enc_total_frames(data, s1) == enc_total_frames(data, s2));
    assert(enc_final_unit(data, s1) == enc_final_unit(data, s2));
    let tf = enc_total_frames(data, s1);
    assert forall|i: int| 0 <= i < frames1.len() implies (#[trigger] frames1[i]).image@
        == frames2[i].image@ by {
        if 1 <= i {
            let f = i - 1;
            assert(frames1[1 + f].image@ == frames2[1 + f].image@);
        }
    }
}

/// For positive `a` and `b`, the ceiling quotient brackets `a` within one
/// multiple of `b`.
proof fn lemma_ceil_bounds(a: int, b: int)
    requires
        1 <= a,
        1 <= b,
    ensures
        b * (ceil_div(a, b) - 1) < a,
        a <= b * ceil_div(a, b),
        1 <= ceil_div(a, b),
{
    let q = ceil_div(a, b);
    let r = (a + b - 1) % b;
    lemma_fundamental_div_mod(a + b - 1, b);
    lemma_mod_division_less_than_divisor(a + b - 1, b);
    assert(a + b - 1 == b * q + r);
    assert(b * (q - 1) == b * q - b) by {
        vstd::arithmetic::mul::lemma_mul_is_distributive_sub(b, q, 1);
    }
    assert(1 <= q) by {
        lemma_div_pos_is_pos(a + b - 1, b);
        if q == 0 {
            vstd::arithmetic::mul::lemma_mul_by_zero_is_zero(b);
        }
    }
}

/// The decoder's frame walk accepts a stream whose payload frames are all
/// present with the declared geometry.
proof fn lemma_frames_check_ok(
    images: Seq<Seq<u8>>,
    w: int,
    h: int,
    block: int,
    k: int,
    ff: int,
)
    requires
        h % block == 0,
        ff < images.len(),
        forall|i: int| 1 <= i <= ff ==> (#[trigger] images[i]).len() == 3 * (w * h),
        1 <= k,
    ensures
        frames_check(images, w, h, block, k, ff) is Ok,
    decreases ff - k + 1,
{
    if k <= ff {
        lemma_frames_check_ok(images, w, h, block, k + 1, ff);
    }
}

/// Concatenating the color reads of the first `k` canonical payload frames
/// yields exactly the first `k` frames' worth of the payload; at the final
/// frame the truncation to the final unit count ends the copy exactly at the
/// payload's end.
proof fn lemma_color_payload_prefix(payload: Seq<u8>, s: Settings, images: Seq<Seq<u8>>, k: int)
    requires
        s.valid(),
        1 <= payload.len(),
        ({
            let w = s.width as int;
            let h = s.height as int;
            let sz = s.size as int;
            let upf = 3 * nblocks(w, h, sz);
            let tf = ceil_div(payload.len() as int, upf);
            &&& images.len() == 1 + tf
            &&& (forall|f: int|
                0 <= f < tf ==> #[trigger] images[1 + f] == color_frame_image(
                    payload,
                    upf * f,
                    sz,
                    w,
                    h,
                ))
            &&& 0 <= k <= tf
        }),
    ensures
        ({
            let w = s.width as int;
            let h = s.height as int;
            let sz = s.size as int;
            let upf = 3 * nblocks(w, h, sz);
            let tf = ceil_div(payload.len() as int, upf);
            let fu = payload.len() as int % upf;
            color_payload_upto(images, w, h, sz, tf, fu, k) == (if k == tf {
                payload
            } else {
                payload.take(upf * k)
            })
        }),
    decreases k,
{
    let w = s.width as int;
    let h = s.height as int;
    let sz = s.size as int;
    let nb = nblocks(w, h, sz);
    let upf = 3 * nb;
    let len = payload.len() as int;
    let tf = ceil_div(len, upf);
    let fu = len % upf;
    lemma_valid_grid(s);
    lemma_ceil_bounds(len, upf);
    if k == 0 {
        assert(color_payload_upto(images, w, h, sz, tf, fu, 0) =~= payload.take(0));
    } else {
        lemma_color_payload_prefix(payload, s, images, k - 1);
        let i0 = upf * (k - 1);
        assert(images[1 + (k - 1)] == color_frame_image(payload, upf * (k - 1), sz, w, h));
        assert(images[k] == color_frame_image(payload, i0, sz, w, h));
        assert(0 <= i0) by {
            lemma_mul_nonnegative(upf, k - 1);
        }
        assert(upf * (k - 1) + upf == upf * k) by {
            lemma_mul_is_distributive_add(upf, k - 1, 1);
        }
        assert(upf * k <= upf * tf) by {
            lemma_mul_inequality(k, tf, upf);
            lemma_mul_is_commutative(k, upf);
            lemma_mul_is_commutative(tf, upf);
        }
        let full = frame_color_reads(images[k], w, h, sz);
        assert(full.len() == 3 * nb);
        if k < tf {
            // this frame is completely full
            assert(upf * k < len) by {
                lemma_mul_inequality(k, tf - 1, upf);
                lemma_mul_is_commutative(k, upf);
                lemma_mul_is_commutative(tf - 1, upf);
            }
            assert(i0 + upf <= len);
            assert forall|u: int| 0 <= u < upf implies full[u] == payload[i0 + u] by {
                lemma_frame_read_color_at(payload, i0, sz, w, h, u);
                assert(u / 3 < nb) by {
                    lemma_div_pos_is_pos(u, 3);
                    assert((3 * nb - 1) / 3 == nb - 1) by {
                        lemma_fundamental_div_mod_converse(3 * nb - 1, 3, nb - 1, 2);
                    }
                    lemma_div_is_ordered(u, 3 * nb - 1, 3);
                }
                assert(ceil_div(len - i0, 3) > nb) by {
                    lemma_div_is_ordered(3 * nb + 3, len - i0 + 2, 3);
                    lemma_fundamental_div_mod_converse(3 * (nb + 1), 3, nb + 1, 0);
                }
            }
            assert(full =~= payload.subrange(i0, i0 + upf));
            assert(frame_units_color(images[k], w, h, sz, k == tf, fu) == full);
            assert(color_payload_upto(images, w, h, sz, tf, fu, k) =~= payload.take(upf * k));
        } else {
            // the final frame: the payload ends inside it
            let rem = len - i0;
            assert(1 <= rem && rem <= upf);
            if rem < upf {
                assert(fu == rem) by {
                    lemma_fundamental_div_mod_converse(len, upf, k - 1, rem);
                }
                assert forall|u: int| 0 <= u < rem implies full[u] == payload[i0 + u] by {
                    lemma_frame_read_color_at(payload, i0, sz, w, h, u);
                    assert(u / 3 < ceil_div(rem, 3)) by {
                        lemma_div_is_ordered(u, rem - 1, 3);
                        vstd::arithmetic::div_mod::lemma_hoist_over_denominator(rem - 1, 1, 3);
                        assert((rem - 1) / 3 + 1 == (rem + 2) / 3);
                    }
                    assert(ceil_div(len - i0, 3) <= nb) by {
                        lemma_div_is_ordered(rem + 2, 3 * nb + 2, 3);
                        lemma_fundamental_div_mod_converse(3 * nb + 2, 3, nb, 2);
                    }
                }
                assert(frame_units_color(images[k], w, h, sz, true, fu) == full.take(rem));
                assert(full.take(rem) =~= payload.subrange(i0, len));
                assert(color_payload_upto(images, w, h, sz, tf, fu, k) =~= payload);
            } else {
                assert(fu == 0) by {
                    lemma_fundamental_div_mod_converse(len, upf, k, 0);
                    lemma_mul_is_commutative(k, upf);
                }
                assert forall|u: int| 0 <= u < upf implies full[u] == payload[i0 + u] by {
                    lemma_frame_read_color_at(payload, i0, sz, w, h, u);
                    assert(u / 3 < nb) by {
                        lemma_div_pos_is_pos(u, 3);
                        assert((3 * nb - 1) / 3 == nb - 1) by {
                            lemma_fundamental_div_mod_converse(3 * nb - 1, 3, nb - 1, 2);
                        }
                        lemma_div_is_ordered(u, 3 * nb - 1, 3);
                    }
                    assert(ceil_div(len - i0, 3) >= nb) by {
                        lemma_div_is_ordered(3 * nb + 2, len - i0 + 2, 3);
                        lemma_fundamental_div_mod_converse(3 * nb + 2, 3, nb, 2);
                    }
                }
                assert(frame_units_color(images[k], w, h, sz, true, fu) == full);
                assert(full =~= payload.subrange(i0, len));
                assert(color_payload_upto(images, w, h, sz, tf, fu, k) =~= payload);
            }
        }
    }
}

/// Round trip, color mode: decoding the frame list the encoder produces for
/// a non-empty byte payload yields that payload back, for any geometry whose
/// block side divides the frame height and whose frame has room for the
/// instruction record. (A block side that does not divide the height is
/// rejected by the decoder's canvas adoption, and a frame whose grid cannot
/// hold the record's 160 bits yields an undecodable instruction frame.)
pub proof fn lemma_round_trip_color(payload: Seq<u8>, s: Settings, images: Seq<Seq<u8>>)
    requires
        s.valid(),
        s.height as int % s.size as int == 0,
        1 <= payload.len(),
        160 <= nblocks(s.width as int, s.height as int, 5),
        s.size <= u32::MAX,
        ({
            let w = s.width as int;
            let h = s.height as int;
            let sz = s.size as int;
            let upf = 3 * nblocks(w, h, sz);
            let tf = ceil_div(payload.len() as int, upf);
            let fu = payload.len() as int % upf;
            &&& tf <= u32::MAX
            &&& fu <= u32::MAX
            &&& images.len() == 1 + tf
            &&& images[0] == instruction_image(
                OutputMode::Color,
                tf as u32,
                fu as u32,
                s.size as u32,
                w,
                h,
            )
            &&& (forall|f: int|
                0 <= f < tf ==> #[trigger] images[1 + f] == color_frame_image(
                    payload,
                    upf * f,
                    sz,
                    w,
                    h,
                ))
        }),
    ensures
        decode_spec(images, s.width as int, s.height as int) == Ok::<Seq<u8>, EtchError>(payload),
{
    let w = s.width as int;
    let h = s.height as int;
    let sz = s.size as int;
    let nb = nblocks(w, h, sz);
    let upf = 3 * nb;
    let len = payload.len() as int;
    let tf = ceil_div(len, upf);
    let fu = len % upf;
    lemma_valid_grid(s);
    lemma_ceil_bounds(len, upf);
    lemma_instruction_framing(OutputMode::Color, tf as u32, fu as u32, s.size as u32, w, h);
    let words = decoded_words(images[0], w, h);
    assert(words[0] == mode_marker(OutputMode::Color));
    assert(words[1] as int == tf && words[2] as int == fu && words[3] as int == sz);
    assert(fu <= units_per_frame(OutputMode::Color, w, h, sz)) by {
        lemma_mod_division_less_than_divisor(len, upf);
    }
    assert forall|i: int| 1 <= i <= tf implies (#[trigger] images[i]).len() == 3 * (w * h) by {
        assert(images[1 + (i - 1)] == color_frame_image(payload, upf * (i - 1), sz, w, h));
    }
    lemma_frames_check_ok(images, w, h, sz, 1, tf);
    lemma_color_payload_prefix(payload, s, images, tf);
}

/// Binary analogue of the payload prefix: concatenating the bit reads of the
/// first `k` canonical payload frames yields the first `k` frames' worth of
/// the bit stream.
proof fn lemma_bw_payload_prefix(bits: Seq<bool>, s: Settings, images: Seq<Seq<u8>>, k: int)
    requires
        s.valid(),
        1 <= bits.len(),
        ({
            let w = s.width as int;
            let h = s.height as int;
            let sz = s.size as int;
            let upf = nblocks(w, h, sz);
            let tf = ceil_div(bits.len() as int, upf);
            &&& images.len() == 1 + tf
            &&& (forall|f: int|
                0 <= f < tf ==> #[trigger] images[1 + f] == bw_frame_image(
                    bits,
                    upf * f,
                    sz,
                    w,
                    h,
                ))
            &&& 0 <= k <= tf
        }),
    ensures
        ({
            let w = s.width as int;
            let h = s.height as int;
            let sz = s.size as int;
            let upf = nblocks(w, h, sz);
            let tf = ceil_div(bits.len() as int, upf);
            let fu = bits.len() as int % upf;
            bw_payload_upto(images, w, h, sz, tf, fu, k) == (if k == tf {
                bits
            } else {
                bits.take(upf * k)
            })
        }),
    decreases k,
{
    let w = s.width as int;
    let h = s.height as int;
    let sz = s.size as int;
    let nb = nblocks(w, h, sz);
    let upf = nb;
    let len = bits.len() as int;
    let tf = ceil_div(len, upf);
    let fu = len % upf;
    lemma_valid_grid(s);
    lemma_ceil_bounds(len, upf);
    if k == 0 {
        assert(bw_payload_upto(images, w, h, sz, tf, fu, 0) =~= bits.take(0));
    } else {
        lemma_bw_payload_prefix(bits, s, images, k - 1);
        let i0 = upf * (k - 1);
        assert(images[1 + (k - 1)] == bw_frame_image(bits, upf * (k - 1), sz, w, h));
        assert(images[k] == bw_frame_image(bits, i0, sz, w, h));
        assert(0 <= i0) by {
            lemma_mul_nonnegative(upf, k - 1);
        }
        assert(upf * (k - 1) + upf == upf * k) by {
            lemma_mul_is_distributive_add(upf, k - 1, 1);
        }
        assert(upf * k <= upf * tf) by {
            lemma_mul_inequality(k, tf, upf);
            lemma_mul_is_commutative(k, upf);
            lemma_mul_is_commutative(tf, upf);
        }
        let full = frame_bits(images[k], w, h, sz);
        assert(full.len() == nb);
        if k < tf {
            assert(upf * k < len) by {
                lemma_mul_inequality(k, tf - 1, upf);
                lemma_mul_is_commutative(k, upf);
                lemma_mul_is_commutative(tf - 1, upf);
            }
            assert(i0 + upf <= len);
            assert forall|t: int| 0 <= t < upf implies full[t] == bits[i0 + t] by {
                lemma_frame_read_bw_at(bits, i0, sz, w, h, t);
            }
            assert(full =~= bits.subrange(i0, i0 + upf));
            assert(frame_units_bw(images[k], w, h, sz, k == tf, fu) == full);
            assert(bw_payload_upto(images, w, h, sz, tf, fu, k) =~= bits.take(upf * k));
        } else {
            let rem = len - i0;
            assert(1 <= rem && rem <= upf);
            if rem < upf {
                assert(fu == rem) by {
                    lemma_fundamental_div_mod_converse(len, upf, k - 1, rem);
                }
                assert forall|t: int| 0 <= t < rem implies full[t] == bits[i0 + t] by {
                    lemma_frame_read_bw_at(bits, i0, sz, w, h, t);
                }
                assert(frame_units_bw(images[k], w, h, sz, true, fu) == full.take(rem));
                assert(full.take(rem) =~= bits.subrange(i0, len));
                assert(bw_payload_upto(images, w, h, sz, tf, fu, k) =~= bits);
            } else {
                assert(fu == 0) by {
                    lemma_fundamental_div_mod_converse(len, upf, k, 0);
                    lemma_mul_is_commutative(k, upf);
                }
                assert forall|t: int| 0 <= t < upf implies full[t] == bits[i0 + t] by {
                    lemma_frame_read_bw_at(bits, i0, sz, w, h, t);
                }
                assert(frame_units_bw(images[k], w, h, sz, true, fu) == full);
                assert(full =~= bits.subrange(i0, len));
                assert(bw_payload_upto(images, w, h, sz, tf, fu, k) =~= bits);
            }
        }
    }
}

/// Round trip, binary mode: decoding the frame list the encoder produces for
/// the bit stream of a non-empty byte payload yields that payload back,
/// under the same geometric conditions as the color round trip. The decoder
/// collects exactly the encoder's bit stream; regrouping it into bytes
/// inverts the byte-to-bit unfolding because the stream's length is a
/// multiple of eight.
pub proof fn lemma_round_trip_binary(payload: Seq<u8>, s: Settings, images: Seq<Seq<u8>>)
    requires
        s.valid(),
        s.height as int % s.size as int == 0,
        1 <= payload.len(),
        160 <= nblocks(s.width as int, s.height as int, 5),
        s.size <= u32::MAX,
        ({
            let w = s.width as int;
            let h = s.height as int;
            let sz = s.size as int;
            let bits = bytes_to_bits(payload);
            let upf = nblocks(w, h, sz);
            let tf = ceil_div(bits.len() as int, upf);
            let fu = bits.len() as int % upf;
            &&& tf <= u32::MAX
            &&& fu <= u32::MAX
            &&& images.len() == 1 + tf
            &&& images[0] == instruction_image(
                OutputMode::Binary,
                tf as u32,
                fu as u32,
                s.size as u32,
                w,
                h,
            )
            &&& (forall|f: int|
                0 <= f < tf ==> #[trigger] images[1 + f] == bw_frame_image(
                    bits,
                    upf * f,
                    sz,
                    w,
                    h,
                ))
        }),
    ensures
        decode_spec(images, s.width as int, s.height as int) == Ok::<Seq<u8>, EtchError>(payload),
{
    let w = s.width as int;
    let h = s.height as int;
    let sz = s.size as int;
    let nb = nblocks(w, h, sz);
    let upf = nb;
    let bits = bytes_to_bits(payload);
    let len = bits.len() as int;
    let tf = ceil_div(len, upf);
    let fu = len % upf;
    lemma_valid_grid(s);
    lemma_ceil_bounds(len, upf);
    lemma_instruction_framing(OutputMode::Binary, tf as u32, fu as u32, s.size as u32, w, h);
    let words = decoded_words(images[0], w, h);
    assert(words[0] == mode_marker(OutputMode::Binary));
    assert(words[1] as int == tf && words[2] as int == fu && words[3] as int == sz);
    assert(fu <= units_per_frame(OutputMode::Binary, w, h, sz)) by {
        lemma_mod_division_less_than_divisor(len, upf);
    }
    assert forall|i: int| 1 <= i <= tf implies (#[trigger] images[i]).len() == 3 * (w * h) by {
        assert(images[1 + (i - 1)] == bw_frame_image(bits, upf * (i - 1), sz, w, h));
    }
    lemma_frames_check_ok(images, w, h, sz, 1, tf);
    lemma_bw_payload_prefix(bits, s, images, tf);
    lemma_bitpack_involution(payload);
}

} // verus!

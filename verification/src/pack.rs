//! Conversions between byte streams, bit streams and 32-bit word streams.
//!
//! Every transform is endianness-fixed: within a byte or word, bits travel
//! most-significant first. Repacking consumes bits in groups of eight (or
//! thirty-two); a trailing tail shorter than one group is discarded, since the
//! instruction frame tells the decoder how many units are valid.

use vstd::prelude::*;
use vstd::arithmetic::power2::{pow2, lemma_pow2_unfold, lemma2_to64};
use vstd::arithmetic::div_mod::{
    lemma_div_denominator, lemma_fundamental_div_mod, lemma_fundamental_div_mod_converse,
    lemma_div_by_multiple,
};

verus! {

/// Bit `i` of `v`, counting from the least significant bit.
pub open spec fn nth_bit(v: nat, i: nat) -> bool {
    (v / pow2(i)) % 2 == 1
}

/// The bits of `v` as a width-`w` word, most significant first.
pub open spec fn word_bits(v: nat, w: nat) -> Seq<bool> {
    Seq::new(w, |k: int| nth_bit(v, (w - 1 - k) as nat))
}

/// The value of a bit sequence read most-significant-first.
pub open spec fn bits_val(s: Seq<bool>) -> nat
    decreases s.len(),
{
    if s.len() == 0 {
        0
    } else {
        2 * bits_val(s.drop_last()) + if s.last() { 1nat } else { 0nat }
    }
}

/// Each byte unfolded into eight bits, most significant first.
pub open spec fn bytes_to_bits(bs: Seq<u8>) -> Seq<bool> {
    Seq::new(bs.len() * 8, |i: int| nth_bit(bs[i / 8] as nat, (7 - i % 8) as nat))
}

/// Bits consumed in groups of eight, most significant first; a tail shorter
/// than eight bits is discarded.
pub open spec fn bits_to_bytes(bits: Seq<bool>) -> Seq<u8> {
    Seq::new(bits.len() / 8, |t: int| bits_val(bits.subrange(8 * t, 8 * t + 8)) as u8)
}

/// Each 32-bit word unfolded into thirty-two bits, most significant first.
pub open spec fn u32s_to_bits(ws: Seq<u32>) -> Seq<bool> {
    Seq::new(ws.len() * 32, |i: int| nth_bit(ws[i / 32] as nat, (31 - i % 32) as nat))
}

/// Bits consumed in groups of thirty-two, most significant first; a tail
/// shorter than thirty-two bits is discarded.
pub open spec fn bits_to_u32s(bits: Seq<bool>) -> Seq<u32> {
    Seq::new(bits.len() / 32, |t: int| bits_val(bits.subrange(32 * t, 32 * t + 32)) as u32)
}

/// Reading the most-significant-first bits of a word back as a value is the
/// identity, for any width that bounds the word.
pub proof fn lemma_word_bits_val(v: nat, w: nat)
    requires
        v < pow2(w),
    ensures
        bits_val(word_bits(v, w)) == v,
    decreases w,
{
    if w == 0 {
        assert(pow2(0) == 1) by { lemma2_to64(); }
        assert(word_bits(v, 0).len() == 0);
    } else {
        let s = word_bits(v, w);
        let t = word_bits(v / 2, (w - 1) as nat);
        assert forall|k: int| 0 <= k < w - 1 implies s.drop_last()[k] == t[k] by {
            let e = (w - 2 - k) as nat;
            lemma_pow2_unfold((e + 1) as nat);
            vstd::arithmetic::power2::lemma_pow2_pos(e);
            lemma_div_denominator(v as int, 2, pow2(e) as int);
            assert((v / 2) / pow2(e) == v / (2 * pow2(e)));
            assert(2 * pow2(e) == pow2((e + 1) as nat));
        }
        assert(s.drop_last() =~= t);
        lemma_pow2_unfold(w);
        assert(v / 2 < pow2((w - 1) as nat)) by {
            lemma_fundamental_div_mod(v as int, 2);
        }
        lemma_word_bits_val(v / 2, (w - 1) as nat);
        assert(pow2(0) == 1) by { lemma2_to64(); }
        assert(s.last() == nth_bit(v, 0));
        lemma_fundamental_div_mod(v as int, 2);
        assert(bits_val(s) == 2 * (v / 2) + v % 2);
    }
}

/// Regrouping the bit stream of a byte sequence yields the bytes back.
pub proof fn lemma_bitpack_involution(bs: Seq<u8>)
    ensures
        bits_to_bytes(bytes_to_bits(bs)) == bs,
{
    let bits = bytes_to_bits(bs);
    lemma_div_by_multiple(bs.len() as int, 8);
    assert(bits.len() / 8 == bs.len());
    let res = bits_to_bytes(bits);
    assert forall|t: int| 0 <= t < bs.len() implies res[t] == bs[t] by {
        let g = bits.subrange(8 * t, 8 * t + 8);
        assert forall|j: int| 0 <= j < 8 implies g[j] == word_bits(bs[t] as nat, 8)[j] by {
            lemma_fundamental_div_mod_converse(8 * t + j, 8, t, j);
            assert(bits[8 * t + j] == nth_bit(bs[t] as nat, (7 - j) as nat));
        }
        assert(g =~= word_bits(bs[t] as nat, 8));
        assert(pow2(8) == 256) by { lemma2_to64(); }
        lemma_word_bits_val(bs[t] as nat, 8);
    }
    assert(res =~= bs);
}

/// Regrouping the bit stream of a word sequence yields the words back.
pub proof fn lemma_wordpack_involution(ws: Seq<u32>)
    ensures
        bits_to_u32s(u32s_to_bits(ws)) == ws,
{
    let bits = u32s_to_bits(ws);
    lemma_div_by_multiple(ws.len() as int, 32);
    assert(bits.len() / 32 == ws.len());
    let res = bits_to_u32s(bits);
    assert forall|t: int| 0 <= t < ws.len() implies res[t] == ws[t] by {
        let g = bits.subrange(32 * t, 32 * t + 32);
        assert forall|j: int| 0 <= j < 32 implies g[j] == word_bits(ws[t] as nat, 32)[j] by {
            lemma_fundamental_div_mod_converse(32 * t + j, 32, t, j);
            assert(bits[32 * t + j] == nth_bit(ws[t] as nat, (31 - j) as nat));
        }
        assert(g =~= word_bits(ws[t] as nat, 32));
        assert(pow2(32) == 0x1_0000_0000) by { lemma2_to64(); }
        lemma_word_bits_val(ws[t] as nat, 32);
    }
    assert(res =~= ws);
}

/// Unfolds each byte into its eight bits, most significant first.
pub fn rip_binary(byte_data: Vec<u8>) -> (r: Vec<bool>)
    ensures
        r@ == bytes_to_bits(byte_data@),
{
    let mut r: Vec<bool> = Vec::new();
    let mut t: usize = 0;
    while t < byte_data.len()
        invariant
            t <= byte_data@.len(),
            r@.len() == 8 * t,
            forall|i: int| 0 <= i < 8 * t ==> r@[i] == bytes_to_bits(byte_data@)[i],
        decreases byte_data@.len() - t,
    {
        let b = byte_data[t];
        let mut mask: u8 = 128;
        proof {
            assert(pow2(7) == 128) by { lemma2_to64(); }
        }
        let mut k: usize = 0;
        while k < 8
            invariant
                k <= 8,
                k < 8 ==> mask as nat == pow2((7 - k) as nat),
                r@.len() == 8 * t + k,
                t < byte_data@.len(),
                b == byte_data@[t as int],
                forall|i: int| 0 <= i < 8 * t + k ==> r@[i] == bytes_to_bits(byte_data@)[i],
            decreases 8 - k,
        {
            proof {
                vstd::arithmetic::power2::lemma_pow2_pos((7 - k) as nat);
            }
            let bit = (b / mask) % 2 == 1;
            proof {
                lemma_fundamental_div_mod_converse(8 * t + k, 8, t as int, k as int);
                assert(bytes_to_bits(byte_data@)[8 * t + k] == nth_bit(b as nat, (7 - k) as nat));
                assert(bit == nth_bit(b as nat, (7 - k) as nat));
            }
            r.push(bit);
            if k < 7 {
                proof {
                    lemma_pow2_unfold((7 - k) as nat);
                    assert(pow2((7 - k) as nat) == 2 * pow2((6 - k) as nat));
                }
                mask = mask / 2;
            }
            k += 1;
        }
        t += 1;
    }
    proof {
        assert(r@ =~= bytes_to_bits(byte_data@));
    }
    r
}

/// Unfolds each 32-bit word into its thirty-two bits, most significant first.
pub fn rip_binary_u32(bytes: Vec<u32>) -> (r: Vec<bool>)
    ensures
        r@ == u32s_to_bits(bytes@),
{
    let mut r: Vec<bool> = Vec::new();
    let mut t: usize = 0;
    while t < bytes.len()
        invariant
            t <= bytes@.len(),
            r@.len() == 32 * t,
            forall|i: int| 0 <= i < 32 * t ==> r@[i] == u32s_to_bits(bytes@)[i],
        decreases bytes@.len() - t,
    {
        let b = bytes[t];
        let mut mask: u32 = 0x8000_0000;
        proof {
            assert(pow2(31) == 0x8000_0000) by { lemma2_to64(); }
        }
        let mut k: usize = 0;
        while k < 32
            invariant
                k <= 32,
                k < 32 ==> mask as nat == pow2((31 - k) as nat),
                r@.len() == 32 * t + k,
                t < bytes@.len(),
                b == bytes@[t as int],
                forall|i: int| 0 <= i < 32 * t + k ==> r@[i] == u32s_to_bits(bytes@)[i],
            decreases 32 - k,
        {
            proof {
                vstd::arithmetic::power2::lemma_pow2_pos((31 - k) as nat);
            }
            let bit = (b / mask) % 2 == 1;
            proof {
                lemma_fundamental_div_mod_converse(32 * t + k, 32, t as int, k as int);
                assert(u32s_to_bits(bytes@)[32 * t + k] == nth_bit(b as nat, (31 - k) as nat));
                assert(bit == nth_bit(b as nat, (31 - k) as nat));
            }
            r.push(bit);
            if k < 31 {
                proof {
                    lemma_pow2_unfold((31 - k) as nat);
                    assert(pow2((31 - k) as nat) == 2 * pow2((30 - k) as nat));
                }
                mask = mask / 2;
            }
            k += 1;
        }
        t += 1;
    }
    proof {
        assert(r@ =~= u32s_to_bits(bytes@));
    }
    r
}

/// Packs bits back into bytes, eight at a time, most significant first; a
/// trailing tail shorter than eight bits is discarded.
pub fn translate_u8(binary_data: Vec<bool>) -> (r: Vec<u8>)
    ensures
        r@ == bits_to_bytes(binary_data@),
{
    let s = binary_data;
    let mut r: Vec<u8> = Vec::new();
    let mut acc: u8 = 0;
    let mut c: usize = 0;
    let mut i: usize = 0;
    proof {
        assert(pow2(0) == 1) by { lemma2_to64(); }
    }
    while i < s.len()
        invariant
            i <= s@.len(),
            c < 8,
            i == 8 * r@.len() + c,
            acc as nat == bits_val(s@.subrange(i - c, i as int)),
            acc < pow2(c as nat),
            forall|t: int| 0 <= t < r@.len()
                ==> r@[t] as nat == bits_val(s@.subrange(8 * t, 8 * t + 8)),
        decreases s@.len() - i,
    {
        let bit = s[i];
        proof {
            assert(s@.subrange(i - c, i + 1).drop_last() =~= s@.subrange(i - c, i as int));
            assert(bits_val(s@.subrange(i - c, i + 1))
                == 2 * (acc as nat) + if bit { 1nat } else { 0nat });
            lemma_pow2_unfold((c + 1) as nat);
            assert(pow2(7) == 128) by { lemma2_to64(); }
            if c < 7 {
                vstd::arithmetic::power2::lemma_pow2_strictly_increases((c + 1) as nat, 8);
                assert(pow2(8) == 256) by { lemma2_to64(); }
            }
        }
        acc = 2 * acc + if bit { 1 } else { 0 };
        c += 1;
        i += 1;
        if c == 8 {
            r.push(acc);
            acc = 0;
            c = 0;
            proof {
                assert(pow2(0) == 1) by { lemma2_to64(); }
            }
        }
    }
    proof {
        lemma_fundamental_div_mod_converse(i as int, 8, r@.len() as int, c as int);
        assert(r@.len() == s@.len() / 8);
        assert(r@ =~= bits_to_bytes(s@));
    }
    r
}

/// Packs bits back into 32-bit words, thirty-two at a time, most significant
/// first; a trailing tail shorter than thirty-two bits is discarded.
pub fn translate_u32(binary_data: Vec<bool>) -> (r: Vec<u32>)
    ensures
        r@ == bits_to_u32s(binary_data@),
{
    let s = binary_data;
    let mut r: Vec<u32> = Vec::new();
    let mut acc: u32 = 0;
    let mut c: usize = 0;
    let mut i: usize = 0;
    proof {
        assert(pow2(0) == 1) by { lemma2_to64(); }
    }
    while i < s.len()
        invariant
            i <= s@.len(),
            c < 32,
            i == 32 * r@.len() + c,
            acc as nat == bits_val(s@.subrange(i - c, i as int)),
            acc < pow2(c as nat),
            forall|t: int| 0 <= t < r@.len()
                ==> r@[t] as nat == bits_val(s@.subrange(32 * t, 32 * t + 32)),
        decreases s@.len() - i,
    {
        let bit = s[i];
        proof {
            assert(s@.subrange(i - c, i + 1).drop_last() =~= s@.subrange(i - c, i as int));
            assert(bits_val(s@.subrange(i - c, i + 1))
                == 2 * (acc as nat) + if bit { 1nat } else { 0nat });
            lemma_pow2_unfold((c + 1) as nat);
            assert(pow2(31) == 0x8000_0000) by { lemma2_to64(); }
            if c < 31 {
                vstd::arithmetic::power2::lemma_pow2_strictly_increases((c + 1) as nat, 32);
                assert(pow2(32) == 0x1_0000_0000) by { lemma2_to64(); }
            }
        }
        acc = 2 * acc + if bit { 1 } else { 0 };
        c += 1;
        i += 1;
        if c == 32 {
            r.push(acc);
            acc = 0;
            c = 0;
            proof {
                assert(pow2(0) == 1) by { lemma2_to64(); }
            }
        }
    }
    proof {
        lemma_fundamental_div_mod_converse(i as int, 32, r@.len() as int, c as int);
        assert(r@.len() == s@.len() / 32);
        assert(r@ =~= bits_to_u32s(s@));
    }
    r
}

} // verus!

use etcher::pack::{rip_binary, rip_binary_u32, translate_u32, translate_u8};

#[test]
fn rip_binary_single_byte_msb_first() {
    let bits = rip_binary(vec![0xA5]);
    assert_eq!(bits, vec![true, false, true, false, false, true, false, true]);
}

#[test]
fn rip_binary_two_bytes() {
    let bits = rip_binary(vec![0x80, 0x01]);
    let mut expected = vec![true, false, false, false, false, false, false, false];
    expected.extend(vec![false, false, false, false, false, false, false, true]);
    assert_eq!(bits, expected);
}

#[test]
fn translate_u8_packs_msb_first() {
    let bits = vec![true, false, true, false, false, true, false, true];
    assert_eq!(translate_u8(bits), vec![0xA5]);
}

#[test]
fn translate_u8_discards_short_tail() {
    let mut bits = rip_binary(vec![0x42]);
    bits.push(true);
    bits.push(true);
    bits.push(true);
    assert_eq!(translate_u8(bits), vec![0x42]);
}

#[test]
fn bitpack_involution_bytes() {
    let payload: Vec<u8> = (0u16..=255).map(|b| b as u8).collect();
    let bits = rip_binary(payload.clone());
    assert_eq!(bits.len(), 256 * 8);
    assert_eq!(translate_u8(bits), payload);
}

#[test]
fn rip_binary_u32_msb_first() {
    let bits = rip_binary_u32(vec![0x8000_0001]);
    assert_eq!(bits.len(), 32);
    assert!(bits[0]);
    for k in 1..31 {
        assert!(!bits[k]);
    }
    assert!(bits[31]);
}

#[test]
fn wordpack_involution_u32() {
    let words = vec![0u32, 1, 0xDEAD_BEEF, u32::MAX, 0x1234_5678];
    let bits = rip_binary_u32(words.clone());
    assert_eq!(bits.len(), 5 * 32);
    assert_eq!(translate_u32(bits), words);
}

#[test]
fn translate_u32_discards_short_tail() {
    let mut bits = rip_binary_u32(vec![7]);
    for _ in 0..31 {
        bits.push(true);
    }
    assert_eq!(translate_u32(bits), vec![7]);
}

use etcher::etcher::{etch, etch_instructions, read_bw, read_color, read_instructions};
use etcher::pack::{rip_binary, translate_u8};
use etcher::{Data, OutputMode, Settings};

fn pixel_is(image: &Vec<u8>, w: usize, x: usize, y: usize, b: u8, g: u8, r: u8) -> bool {
    let q = 3 * (y * w + x);
    image[q] == b && image[q + 1] == g && image[q + 2] == r
}

#[test]
fn tiny_color() {
    // One 1x1 frame holds exactly one RGB triple.
    let settings = Settings::new(1, 1, 10, 1, 1);
    let data = Data::from_color(vec![0x01, 0x02, 0x03]);
    let frames = etch(&data, &settings).unwrap();
    assert_eq!(frames.len(), 2);
    // BGR memory order: the single pixel is (r=1, g=2, b=3).
    assert_eq!(frames[1].image, vec![0x03, 0x02, 0x01]);
    let decoded = read_color(&frames[1], 1, 1, 0);
    assert_eq!(decoded, vec![0x01, 0x02, 0x03]);
}

#[test]
fn binary_byte() {
    // 0xA5 = 10100101, one bit per pixel on a 4x2 frame.
    let settings = Settings::new(1, 1, 10, 4, 2);
    let bits = rip_binary(vec![0xA5]);
    let data = Data::from_binary(bits);
    let frames = etch(&data, &settings).unwrap();
    assert_eq!(frames.len(), 2);
    let im = &frames[1].image;
    assert!(pixel_is(im, 4, 0, 0, 255, 255, 255));
    assert!(pixel_is(im, 4, 1, 0, 0, 0, 0));
    assert!(pixel_is(im, 4, 2, 0, 255, 255, 255));
    assert!(pixel_is(im, 4, 3, 0, 0, 0, 0));
    assert!(pixel_is(im, 4, 0, 1, 0, 0, 0));
    assert!(pixel_is(im, 4, 1, 1, 255, 255, 255));
    assert!(pixel_is(im, 4, 2, 1, 0, 0, 0));
    assert!(pixel_is(im, 4, 3, 1, 255, 255, 255));
    let decoded_bits = read_bw(&frames[1], 1, 1, 0);
    assert_eq!(translate_u8(decoded_bits), vec![0xA5]);
}

#[test]
fn exact_frame_fill() {
    // block=2 on 4x4 gives 4 blocks per frame, 12 bytes per frame; 24 bytes
    // fill exactly two frames and the final frame is full (final_unit = 0).
    let settings = Settings::new(2, 1, 10, 4, 4);
    let payload: Vec<u8> = (0..24).map(|i| (i * 7 + 3) as u8).collect();
    let data = Data::from_color(payload.clone());
    let frames = etch(&data, &settings).unwrap();
    assert_eq!(frames.len(), 3);
    let mut decoded = read_color(&frames[1], 1, 2, 0);
    decoded.extend(read_color(&frames[2], 2, 2, 0));
    assert_eq!(decoded, payload);
}

#[test]
fn partial_last_frame() {
    // Same geometry, 13 bytes: two frames, one valid byte in the last.
    let settings = Settings::new(2, 1, 10, 4, 4);
    let payload: Vec<u8> = (0..13).map(|i| (i * 11 + 1) as u8).collect();
    let data = Data::from_color(payload.clone());
    let frames = etch(&data, &settings).unwrap();
    assert_eq!(frames.len(), 3);
    let mut decoded = read_color(&frames[1], 1, 2, 1);
    decoded.extend(read_color(&frames[2], 2, 2, 1));
    assert_eq!(decoded, payload);
}

#[test]
fn parallel_equivalence() {
    // Worker counts 1, 2 and 4 produce byte-identical frame buffers and the
    // same decoded payload.
    let payload: Vec<u8> = (0..24).map(|i| (i * 13 + 5) as u8).collect();
    let mut all_frames = Vec::new();
    for workers in [1usize, 2, 4] {
        let settings = Settings::new(2, workers, 10, 4, 4);
        let data = Data::from_color(payload.clone());
        let frames = etch(&data, &settings).unwrap();
        assert_eq!(frames.len(), 3);
        let images: Vec<Vec<u8>> = frames.into_iter().map(|f| f.image).collect();
        all_frames.push(images);
    }
    assert_eq!(all_frames[0], all_frames[1]);
    assert_eq!(all_frames[0], all_frames[2]);
    let frames = &all_frames[0];
    let f1 = etcher::source::EmbedSource::from(frames[1].clone(), 2, 4, 4, false).unwrap();
    let f2 = etcher::source::EmbedSource::from(frames[2].clone(), 2, 4, 4, false).unwrap();
    let mut decoded = read_color(&f1, 1, 2, 0);
    decoded.extend(read_color(&f2, 2, 2, 0));
    assert_eq!(decoded, payload);
}

#[test]
fn frame_count_formula() {
    // 100x60 at block 4 gives 25*15 = 375 blocks, 1125 bytes per color
    // frame: 2251 bytes need exactly three frames (one instruction frame in
    // front).
    let settings = Settings::new(4, 2, 10, 100, 60);
    let payload: Vec<u8> = (0..2251).map(|i| (i % 251) as u8).collect();
    let data = Data::from_color(payload);
    let frames = etch(&data, &settings).unwrap();
    assert_eq!(frames.len(), 1 + 3);
}

#[test]
fn instruction_frame_parses_back() {
    // 100x60 holds 20*12 = 240 instruction blocks, enough for the 160-bit
    // record. block=7 does not divide either dimension; the instruction
    // frame does not care.
    let settings = Settings::new(7, 2, 10, 100, 60);
    let bits = vec![true; 1000];
    let data = Data::from_binary(bits);
    let frame = etch_instructions(&settings, &data);
    assert_eq!(frame.size, 5);
    let (mode, final_frame, final_unit, parsed) = read_instructions(&frame, 3).unwrap();
    // 14*8 = 112 blocks per frame: 1000 bits need 9 frames, 104 in the last.
    assert_eq!(mode, OutputMode::Binary);
    assert_eq!(final_frame, 9);
    assert_eq!(final_unit, 104);
    assert_eq!(parsed.size, 7);
    assert_eq!(parsed.thread, 3);
    assert_eq!(parsed.width, 100);
    assert_eq!(parsed.height, 60);
}

#[test]
fn instruction_frame_color_marker() {
    let settings = Settings::new(2, 1, 10, 100, 60);
    let data = Data::from_color(vec![9, 8, 7]);
    let frame = etch_instructions(&settings, &data);
    let (mode, final_frame, final_unit, _parsed) = read_instructions(&frame, 1).unwrap();
    assert_eq!(mode, OutputMode::Color);
    assert_eq!(final_frame, 1);
    assert_eq!(final_unit, 3);
}

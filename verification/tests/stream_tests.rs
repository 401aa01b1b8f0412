use etcher::etcher::{etch, read};
use etcher::pack::rip_binary;
use etcher::{Data, EtchError, Settings};

fn frame_images(frames: Vec<etcher::EmbedSource>) -> Vec<Vec<u8>> {
    frames.into_iter().map(|f| f.image).collect()
}

#[test]
fn full_round_trip_color() {
    // 100x100 at block 2: 2500 blocks, 7500 bytes per frame; 16000 bytes
    // span three frames, the last partially filled; two workers.
    let settings = Settings::new(2, 2, 10, 100, 100);
    let payload: Vec<u8> = (0..16000).map(|i| ((i * 7 + 3) % 256) as u8).collect();
    let data = Data::from_color(payload.clone());
    let frames = etch(&data, &settings).unwrap();
    assert_eq!(frames.len(), 1 + 3);
    let images = frame_images(frames);
    let decoded = read(&images, 100, 100, 1).unwrap();
    assert_eq!(decoded, payload);
}

#[test]
fn full_round_trip_color_payload_not_multiple_of_three() {
    let settings = Settings::new(2, 3, 10, 100, 100);
    let payload: Vec<u8> = (0..7501).map(|i| ((i * 31 + 11) % 256) as u8).collect();
    let data = Data::from_color(payload.clone());
    let frames = etch(&data, &settings).unwrap();
    let images = frame_images(frames);
    let decoded = read(&images, 100, 100, 1).unwrap();
    assert_eq!(decoded, payload);
}

#[test]
fn full_round_trip_binary() {
    // 100x60 at block 4: 375 blocks per frame, one bit each; 300 bytes make
    // 2400 bits over seven frames; three workers.
    let settings = Settings::new(4, 3, 10, 100, 60);
    let payload: Vec<u8> = (0..300).map(|i| ((i * 5 + 1) % 256) as u8).collect();
    let bits = rip_binary(payload.clone());
    let data = Data::from_binary(bits);
    let frames = etch(&data, &settings).unwrap();
    assert_eq!(frames.len(), 1 + 7);
    let images = frame_images(frames);
    let decoded = read(&images, 100, 60, 1).unwrap();
    assert_eq!(decoded, payload);
}

#[test]
fn trailing_frames_are_ignored() {
    let settings = Settings::new(2, 1, 10, 100, 100);
    let payload: Vec<u8> = (0..100).map(|i| (i % 256) as u8).collect();
    let data = Data::from_color(payload.clone());
    let frames = etch(&data, &settings).unwrap();
    let mut images = frame_images(frames);
    images.push(vec![42u8; 100 * 100 * 3]);
    images.push(vec![0u8; 100 * 100 * 3]);
    let decoded = read(&images, 100, 100, 1).unwrap();
    assert_eq!(decoded, payload);
}

#[test]
fn empty_payload_is_rejected() {
    let settings = Settings::new(2, 1, 10, 100, 100);
    let data = Data::from_color(Vec::new());
    assert_eq!(etch(&data, &settings).err(), Some(EtchError::EmptyPayload));
}

#[test]
fn truncated_stream_is_rejected() {
    let settings = Settings::new(2, 1, 10, 100, 100);
    let payload: Vec<u8> = (0..16000).map(|i| ((i * 3 + 1) % 256) as u8).collect();
    let data = Data::from_color(payload);
    let frames = etch(&data, &settings).unwrap();
    let mut images = frame_images(frames);
    images.pop();
    assert_eq!(read(&images, 100, 100, 1).err(), Some(EtchError::Truncated));
}

#[test]
fn empty_stream_is_rejected() {
    let images: Vec<Vec<u8>> = Vec::new();
    assert_eq!(read(&images, 100, 100, 1).err(), Some(EtchError::Truncated));
}

#[test]
fn wrong_first_buffer_is_rejected() {
    let images = vec![vec![0u8; 17]];
    assert_eq!(read(&images, 100, 100, 1).err(), Some(EtchError::Geometry));
}

#[test]
fn undivided_height_is_rejected_on_decode() {
    // block 3 does not divide 100, so adopting the first payload frame fails.
    let settings = Settings::new(3, 1, 10, 100, 100);
    let payload: Vec<u8> = (0u8..50).collect();
    let data = Data::from_color(payload);
    let frames = etch(&data, &settings).unwrap();
    let images = frame_images(frames);
    assert_eq!(read(&images, 100, 100, 1).err(), Some(EtchError::Geometry));
}

#[test]
fn corrupt_terminator_is_rejected() {
    // Black out the instruction blocks that carry the all-ones terminator
    // word (bits 128..160 live in block rows 6 and 7 of the 20-wide grid of
    // five-pixel blocks, pixel rows 30..40).
    let settings = Settings::new(2, 1, 10, 100, 100);
    let payload: Vec<u8> = (0u8..100).collect();
    let data = Data::from_color(payload);
    let frames = etch(&data, &settings).unwrap();
    let mut images = frame_images(frames);
    for y in 30..40 {
        for x in 0..100 {
            let q = 3 * (y * 100 + x);
            images[0][q] = 0;
            images[0][q + 1] = 0;
            images[0][q + 2] = 0;
        }
    }
    assert_eq!(read(&images, 100, 100, 1).err(), Some(EtchError::InstructionCorrupt));
}

#[test]
fn zero_block_side_is_rejected() {
    // An all-black first frame parses as binary mode with block side zero.
    let images = vec![vec![0u8; 100 * 100 * 3]];
    assert_eq!(read(&images, 100, 100, 1).err(), Some(EtchError::InstructionCorrupt));
}

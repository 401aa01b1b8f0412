use etcher::etcher::{etch_pixel, get_pixel, read_bw};
use etcher::source::EmbedSource;
use etcher::EtchError;

fn pixel_of(source: &EmbedSource, x: usize, y: usize) -> (u8, u8, u8) {
    let w = source.frame_size.width;
    let q = 3 * (y * w + x);
    (source.image[q], source.image[q + 1], source.image[q + 2])
}

#[test]
fn new_canvas_is_black() {
    let s = EmbedSource::new(2, 6, 4);
    assert_eq!(s.frame_size.width, 6);
    assert_eq!(s.frame_size.height, 4);
    assert_eq!(s.actual_size.width, 6);
    assert_eq!(s.actual_size.height, 4);
    assert_eq!(s.image.len(), 6 * 4 * 3);
    assert!(s.image.iter().all(|&b| b == 0));
}

#[test]
fn active_area_rounds_down() {
    let s = EmbedSource::new(5, 13, 11);
    assert_eq!(s.actual_size.width, 10);
    assert_eq!(s.actual_size.height, 10);
}

#[test]
fn from_rejects_wrong_buffer_length() {
    let r = EmbedSource::from(vec![0u8; 10], 2, 4, 4, false);
    assert_eq!(r.err(), Some(EtchError::Geometry));
}

#[test]
fn from_rejects_undivided_height() {
    let r = EmbedSource::from(vec![0u8; 4 * 5 * 3], 2, 4, 5, false);
    assert_eq!(r.err(), Some(EtchError::Geometry));
}

#[test]
fn from_instruction_allows_undivided_height() {
    let r = EmbedSource::from(vec![0u8; 4 * 3 * 3], 5, 4, 3, true);
    assert!(r.is_ok());
}

#[test]
fn block_idempotence_single_block() {
    let mut s = EmbedSource::new(2, 4, 4);
    etch_pixel(&mut s, vec![10, 20, 30], 0, 0);
    let rgb = get_pixel(&s, 0, 0).unwrap();
    assert_eq!(rgb, vec![10, 20, 30]);
}

#[test]
fn block_write_leaves_neighbours_untouched() {
    let mut s = EmbedSource::new(2, 4, 4);
    etch_pixel(&mut s, vec![200, 100, 50], 2, 2);
    assert_eq!(pixel_of(&s, 2, 2), (50, 100, 200));
    assert_eq!(pixel_of(&s, 3, 3), (50, 100, 200));
    assert_eq!(pixel_of(&s, 1, 2), (0, 0, 0));
    assert_eq!(pixel_of(&s, 2, 1), (0, 0, 0));
    let rgb = get_pixel(&s, 0, 0).unwrap();
    assert_eq!(rgb, vec![0, 0, 0]);
}

#[test]
fn block_mean_truncates() {
    // A 2x2 block whose red channel holds 1, 0, 0, 0: the mean truncates to 0.
    let mut image = vec![0u8; 4 * 4 * 3];
    image[2] = 1;
    let s = EmbedSource::from(image, 2, 4, 4, false).unwrap();
    let rgb = get_pixel(&s, 0, 0).unwrap();
    assert_eq!(rgb[0], 0);
}

#[test]
fn white_block_survives_perturbation_of_127() {
    // Every channel of a written white block dimmed by 127 still reads as a
    // one bit.
    let image = vec![255u8 - 127; 2 * 2 * 3];
    let s = EmbedSource::from(image, 2, 2, 2, false).unwrap();
    let bits = read_bw(&s, 1, 2, 0);
    assert_eq!(bits, vec![true]);
}

#[test]
fn black_block_survives_perturbation_of_126() {
    let image = vec![126u8; 2 * 2 * 3];
    let s = EmbedSource::from(image, 2, 2, 2, false).unwrap();
    let bits = read_bw(&s, 1, 2, 0);
    assert_eq!(bits, vec![false]);
}

#[test]
fn black_block_flips_at_perturbation_of_127() {
    // The threshold is reached: a black block lifted by 127 reads as one.
    let image = vec![127u8; 2 * 2 * 3];
    let s = EmbedSource::from(image, 2, 2, 2, false).unwrap();
    let bits = read_bw(&s, 1, 2, 0);
    assert_eq!(bits, vec![true]);
}

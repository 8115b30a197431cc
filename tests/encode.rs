use qoi_encoder::encoder::{
    add_index, add_pixel, add_run, add_to_index, encode_diff, encode_image_data, get_header,
    new_cache,
};
use qoi_encoder::pixel::{get_pixel_index, read_pixel, Pixel};
use qoi_encoder::{check_for_invalid_input, encode, return_error, EncodeError};

fn header(width: u32, height: u32, channels: u8, colorspace: u8) -> Vec<u8> {
    let mut h = vec![b'q', b'o', b'i', b'f'];
    h.extend_from_slice(&width.to_be_bytes());
    h.extend_from_slice(&height.to_be_bytes());
    h.push(channels);
    h.push(colorspace);
    h
}

fn px(r: u8, g: u8, b: u8, a: u8) -> Pixel {
    Pixel { r, g, b, a }
}

#[test]
fn it_works() {
    let bytes = [
        0x00, 0x00, 0x00, 0xFF, 0x00, 0x00, //
        0xFF, 0xFF, 0x00, 0xFF, 0xFF, 0xFF,
    ];
    let result = encode(Some(&bytes[..]), 2, 2, 3, 0);
    assert!(!result.data.is_empty());
    assert!(result.len > 0);
    assert_eq!(result.error, 0);
}

#[test]
fn four_pixel_example_uses_wrapping_diffs() {
    // Each step changes one channel by 0 -> 255 or 255 -> 0, a delta of -1 modulo 256.
    let bytes = [0, 0, 0, 255, 0, 0, 255, 255, 0, 255, 255, 255];
    let result = encode(Some(&bytes[..]), 2, 2, 3, 0);
    let mut expected = header(2, 2, 3, 0);
    expected.extend_from_slice(&[0xFE, 0, 0, 0, 0x5A, 0x66, 0x69]);
    assert_eq!(result.data, expected);
    assert_eq!(result.len, expected.len());
    assert_eq!(result.error, 0);
}

#[test]
fn header_layout_is_big_endian() {
    assert_eq!(
        get_header(0x0102_0304, 0x0A0B_0C0D, 4, 1),
        vec![b'q', b'o', b'i', b'f', 1, 2, 3, 4, 10, 11, 12, 13, 4, 1]
    );
}

#[test]
fn null_buffer_is_reported_first() {
    let result = encode(None, 0, 0, 7, 9);
    assert_eq!(result.error, 1);
    assert!(result.data.is_empty());
    assert_eq!(result.len, 0);
}

#[test]
fn zero_dimensions_are_rejected() {
    let bytes = [1u8, 2, 3];
    assert_eq!(encode(Some(&bytes[..]), 0, 1, 3, 0).error, 2);
    assert_eq!(encode(Some(&bytes[..]), 1, 0, 3, 0).error, 2);
    let r = encode(Some(&bytes[..]), 0, 1, 5, 7);
    assert_eq!(r.error, 2);
    assert!(r.data.is_empty());
}

#[test]
fn bad_channel_counts_are_rejected() {
    let bytes = [1u8, 2, 3];
    assert_eq!(encode(Some(&bytes[..]), 1, 1, 2, 0).error, 3);
    assert_eq!(encode(Some(&bytes[..]), 1, 1, 5, 9).error, 3);
    assert!(encode(Some(&bytes[..]), 1, 1, 0, 0).data.is_empty());
}

#[test]
fn bad_color_space_is_rejected() {
    let bytes = [1u8, 2, 3];
    let r = encode(Some(&bytes[..]), 1, 1, 3, 2);
    assert_eq!(r.error, 4);
    assert!(r.data.is_empty());
    assert_eq!(r.len, 0);
}

#[test]
fn validator_reports_each_rule() {
    let bytes = [0u8; 3];
    let some = Some(&bytes[..]);
    assert_eq!(check_for_invalid_input(None, 1, 1, 3, 0), EncodeError::NullData);
    assert_eq!(check_for_invalid_input(some, 0, 1, 3, 0), EncodeError::InvalidDimensions);
    assert_eq!(check_for_invalid_input(some, 1, 1, 4, 0), EncodeError::NoError);
    assert_eq!(check_for_invalid_input(some, 1, 1, 1, 0), EncodeError::InvalidChannels);
    assert_eq!(check_for_invalid_input(some, 1, 1, 3, 1), EncodeError::NoError);
    assert_eq!(check_for_invalid_input(some, 1, 1, 3, 255), EncodeError::InvalidColorspace);
}

#[test]
fn error_codes_are_stable() {
    assert_eq!(EncodeError::NoError.code(), 0);
    assert_eq!(EncodeError::NullData.code(), 1);
    assert_eq!(EncodeError::InvalidDimensions.code(), 2);
    assert_eq!(EncodeError::InvalidChannels.code(), 3);
    assert_eq!(EncodeError::InvalidColorspace.code(), 4);
    let r = return_error(3);
    assert!(r.data.is_empty());
    assert_eq!(r.len, 0);
    assert_eq!(r.error, 3);
}

#[test]
fn single_pixel_is_a_literal() {
    let result = encode(Some(&[7u8, 8, 9][..]), 1, 1, 3, 1);
    let mut expected = header(1, 1, 3, 1);
    expected.extend_from_slice(&[0xFE, 7, 8, 9]);
    assert_eq!(result.data, expected);
}

#[test]
fn uniform_image_is_literal_then_one_run() {
    let bytes: Vec<u8> = [10u8, 20, 30].repeat(6);
    let result = encode(Some(&bytes[..]), 3, 2, 3, 0);
    let mut expected = header(3, 2, 3, 0);
    expected.extend_from_slice(&[0xFE, 10, 20, 30, 0xC0 + 4]);
    assert_eq!(result.data, expected);
    assert_eq!(result.len, 14 + 4 + 1);
}

#[test]
fn run_of_sixty_two_is_flushed_at_once() {
    let bytes: Vec<u8> = [1u8, 2, 3, 4].repeat(63);
    let data = encode_image_data(&bytes, 63, 1, 4, 0);
    let mut expected = header(63, 1, 4, 0);
    expected.extend_from_slice(&[0xFF, 1, 2, 3, 4, 0xFD]);
    assert_eq!(data, expected);

    let bytes: Vec<u8> = [1u8, 2, 3, 4].repeat(64);
    let data = encode_image_data(&bytes, 8, 8, 4, 0);
    let mut expected = header(8, 8, 4, 0);
    expected.extend_from_slice(&[0xFF, 1, 2, 3, 4, 0xFD, 0xC0]);
    assert_eq!(data, expected);
}

#[test]
fn run_is_flushed_before_a_different_pixel() {
    let bytes = [5u8, 5, 5, 5, 5, 5, 5, 5, 5, 6, 5, 5];
    let result = encode(Some(&bytes[..]), 4, 1, 3, 0);
    let mut expected = header(4, 1, 3, 0);
    // Literal, run of two, then a diff of (+1, 0, 0).
    expected.extend_from_slice(&[0xFE, 5, 5, 5, 0xC1, 0x40 + 48 + 8 + 2]);
    assert_eq!(result.data, expected);
}

#[test]
fn cached_pixel_becomes_an_index_chunk() {
    let bytes = [10u8, 10, 10, 200, 100, 50, 10, 10, 10];
    let result = encode(Some(&bytes[..]), 3, 1, 3, 0);
    let mut expected = header(3, 1, 3, 0);
    expected.extend_from_slice(&[0xFE, 10, 10, 10, 0xFE, 200, 100, 50, 22]);
    assert_eq!(result.data, expected);
}

#[test]
fn luma_chunk_for_medium_deltas() {
    let bytes = [0u8, 0, 0, 10, 12, 14];
    let result = encode(Some(&bytes[..]), 2, 1, 3, 0);
    let mut expected = header(2, 1, 3, 0);
    expected.extend_from_slice(&[0xFE, 0, 0, 0, 0xAC, 0x6A]);
    assert_eq!(result.data, expected);
}

#[test]
fn luma_chunk_wraps_around() {
    let bytes = [250u8, 250, 250, 4, 4, 4];
    let result = encode(Some(&bytes[..]), 1, 2, 3, 0);
    let mut expected = header(1, 2, 3, 0);
    expected.extend_from_slice(&[0xFE, 250, 250, 250, 0xAA, 0x88]);
    assert_eq!(result.data, expected);
}

#[test]
fn deltas_are_current_minus_previous() {
    let up = encode(Some(&[100u8, 100, 100, 101, 100, 99][..]), 2, 1, 3, 0);
    assert_eq!(up.data[18], 0x79);
    let down = encode(Some(&[101u8, 100, 99, 100, 100, 100][..]), 2, 1, 3, 0);
    assert_eq!(down.data[18], 0x5B);
}

#[test]
fn alpha_change_forces_a_literal() {
    let bytes = [0u8, 0, 0, 255, 1, 0, 0, 254];
    let result = encode(Some(&bytes[..]), 2, 1, 4, 0);
    let mut expected = header(2, 1, 4, 0);
    expected.extend_from_slice(&[0xFF, 0, 0, 0, 255, 0xFF, 1, 0, 0, 254]);
    assert_eq!(result.data, expected);
}

#[test]
fn same_alpha_allows_a_diff() {
    let bytes = [0u8, 0, 0, 255, 1, 0, 0, 255];
    let result = encode(Some(&bytes[..]), 2, 1, 4, 0);
    let mut expected = header(2, 1, 4, 0);
    expected.extend_from_slice(&[0xFF, 0, 0, 0, 255, 0x7A]);
    assert_eq!(result.data, expected);
}

#[test]
fn two_distinct_pixels_never_index_or_run() {
    let bytes = [0u8, 0, 0, 1, 1, 1];
    let result = encode(Some(&bytes[..]), 2, 1, 3, 0);
    let second = result.data[18];
    assert!(second >= 0x40);
    assert!(!(0xC0..0xFE).contains(&second));
    assert_eq!(result.data.len(), 19);
}

#[test]
fn pixel_hash_formula_and_repeatability() {
    assert_eq!(get_pixel_index(&px(1, 1, 1, 0)), 15);
    assert_eq!(get_pixel_index(&px(255, 255, 255, 255)), 38);
    assert_eq!(get_pixel_index(&px(0, 0, 0, 255)), 53);
    let p = px(12, 34, 56, 78);
    assert_eq!(get_pixel_index(&p), get_pixel_index(&p));
    assert_eq!(get_pixel_index(&p), (12 * 3 + 34 * 5 + 56 * 7 + 78 * 11) % 64);
}

#[test]
fn read_pixel_fills_alpha_only_for_four_channels() {
    let bytes = [1u8, 2, 3, 4, 5, 6, 7, 8];
    assert_eq!(read_pixel(&bytes, 4, 4), px(5, 6, 7, 8));
    assert_eq!(read_pixel(&bytes, 3, 3), px(4, 5, 6, 0));
}

#[test]
fn chunk_emitters_write_their_bytes() {
    let mut out = vec![9u8];
    add_pixel(&mut out, &px(1, 2, 3, 4), 3);
    add_pixel(&mut out, &px(1, 2, 3, 4), 4);
    add_run(&mut out, 1);
    add_run(&mut out, 62);
    add_index(&mut out, 63);
    assert_eq!(out, vec![9, 0xFE, 1, 2, 3, 0xFF, 1, 2, 3, 4, 0xC0, 0xFD, 63]);
}

#[test]
fn encode_diff_picks_diff_luma_or_nothing() {
    let mut out = Vec::new();
    assert!(encode_diff(&mut out, &px(254, 1, 0, 0), &px(0, 0, 0, 0)));
    assert_eq!(out, vec![0x40 + 0 + 12 + 2]);
    let mut out = Vec::new();
    assert!(encode_diff(&mut out, &px(38, 31, 24, 0), &px(0, 0, 0, 0)));
    assert_eq!(out, vec![0xBF, 0xF1]);
    let mut out = Vec::new();
    assert!(!encode_diff(&mut out, &px(100, 0, 0, 0), &px(0, 0, 0, 0)));
    assert!(out.is_empty());
    assert!(!encode_diff(&mut out, &px(0, 0, 0, 1), &px(0, 0, 0, 0)));
    assert!(out.is_empty());
}

#[test]
fn cache_starts_empty_and_stores_by_slot() {
    let mut cache = new_cache();
    assert_eq!(cache.len(), 64);
    assert!(cache.iter().all(|s| s.is_none()));
    add_to_index(&mut cache, 5, px(1, 2, 3, 0));
    assert_eq!(cache[5], Some(px(1, 2, 3, 0)));
}

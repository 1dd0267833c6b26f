use olive3d::ppm::{
    decode_ppm, encode_ppm, pack_rgb, parse_number, parse_ppm_header, unpack_rgb, Image, PpmError,
};
use olive3d::text::{is_space_byte, parse_bounded, push_decimal};

fn decimal(n: u32) -> Vec<u8> {
    let mut out = Vec::new();
    push_decimal(&mut out, n);
    out
}

#[test]
fn pixel_channels_are_the_three_low_bytes() {
    assert_eq!(unpack_rgb(0xAABBCCDD), (0xDD, 0xCC, 0xBB));
    assert_eq!(unpack_rgb(0x00000000), (0, 0, 0));
    assert_eq!(unpack_rgb(0xFFFFFFFF), (255, 255, 255));
}

#[test]
fn packed_pixels_are_opaque() {
    assert_eq!(pack_rgb(0x11, 0x22, 0x33), 0xFF332211);
    assert_eq!(pack_rgb(0, 0, 0), 0xFF000000);
    assert_eq!(unpack_rgb(pack_rgb(7, 8, 9)), (7, 8, 9));
}

#[test]
fn decimal_digits_have_no_leading_zeros() {
    assert_eq!(decimal(0), b"0".to_vec());
    assert_eq!(decimal(7), b"7".to_vec());
    assert_eq!(decimal(10), b"10".to_vec());
    assert_eq!(decimal(800), b"800".to_vec());
    assert_eq!(decimal(u32::MAX), b"4294967295".to_vec());
}

#[test]
fn decimal_digits_are_appended() {
    let mut out = b"w=".to_vec();
    push_decimal(&mut out, 42);
    assert_eq!(out, b"w=42".to_vec());
}

#[test]
fn separators_are_ascii_white_space() {
    for b in [b' ', b'\t', b'\n', 0x0b, 0x0c, b'\r'] {
        assert!(is_space_byte(b));
    }
    for b in [0u8, 8, 14, 31, 33, b'0', b'P', 0x85, 0xa0, 255] {
        assert!(!is_space_byte(b));
    }
}

#[test]
fn numbers_are_read_with_an_optional_plus() {
    let text = b"x12 +7 00042";
    assert_eq!(parse_number(text, 1, 3), Some(12));
    assert_eq!(parse_number(text, 4, 6), Some(7));
    assert_eq!(parse_number(text, 7, 12), Some(42));
}

#[test]
fn numbers_that_are_none_are_refused() {
    let text = b"-1 + 1a 4294967296 4294967295 ++1";
    assert_eq!(parse_number(text, 0, 0), None);
    assert_eq!(parse_number(text, 0, 2), None);
    assert_eq!(parse_number(text, 3, 4), None);
    assert_eq!(parse_number(text, 5, 7), None);
    assert_eq!(parse_number(text, 8, 18), None);
    assert_eq!(parse_number(text, 19, 29), Some(u32::MAX));
    assert_eq!(parse_number(text, 30, 33), None);
}

#[test]
fn bounded_numbers_respect_their_bound() {
    let text = b"255 256 18446744073709551615 18446744073709551616";
    assert_eq!(parse_bounded(text, 0, 3, 255), Some(255));
    assert_eq!(parse_bounded(text, 4, 7, 255), None);
    assert_eq!(parse_bounded(text, 8, 28, u64::MAX), Some(u64::MAX));
    assert_eq!(parse_bounded(text, 29, 49, u64::MAX), None);
}

#[test]
fn encoder_writes_header_and_three_bytes_per_pixel() {
    let buffer = [0xFF0000FFu32, 0xFF00FF00, 0xFFFF0000, 0x12345678];
    let bytes = encode_ppm(&buffer, 2, 2, 2);
    let mut expected = b"P6\n2 2 255\n".to_vec();
    expected.extend_from_slice(&[255, 0, 0, 0, 255, 0, 0, 0, 255, 0x78, 0x56, 0x34]);
    assert_eq!(bytes, expected);
}

#[test]
fn encoder_skips_what_lies_beyond_the_width() {
    // a 2 by 2 picture inside rows of three pixels
    let buffer = [1u32, 2, 99, 3, 4, 99];
    let bytes = encode_ppm(&buffer, 2, 2, 3);
    let mut expected = b"P6\n2 2 255\n".to_vec();
    expected.extend_from_slice(&[1, 0, 0, 2, 0, 0, 3, 0, 0, 4, 0, 0]);
    assert_eq!(bytes, expected);
}

#[test]
fn encoder_writes_an_empty_picture() {
    assert_eq!(encode_ppm(&[], 0, 0, 0), b"P6\n0 0 255\n".to_vec());
    assert_eq!(encode_ppm(&[], 0, 5, 0), b"P6\n0 5 255\n".to_vec());
}

#[test]
fn header_is_read_across_lines_and_runs_of_separators() {
    let header = parse_ppm_header(b"  P6\n\n 3\t4 \r\n255\nxyz").unwrap();
    assert_eq!((header.width, header.height, header.max_val), (3, 4, 255));
    assert_eq!(header.data_start, 17);
    let header = parse_ppm_header(b"P6 1 2 65535").unwrap();
    assert_eq!((header.width, header.height, header.max_val), (1, 2, 65535));
    assert_eq!(header.data_start, 12);
}

#[test]
fn header_ends_with_its_line() {
    // the pixel bytes start right after the line feed, whatever they are
    let header = parse_ppm_header(b"P6\n1 1 255\n \n\n").unwrap();
    assert_eq!(header.data_start, 11);
    let header = parse_ppm_header(b"P6\n1 1 255 \t\n123").unwrap();
    assert_eq!(header.data_start, 13);
}

#[test]
fn decoder_reads_pixels_as_opaque() {
    let mut bytes = b"P6\n2 1 255\n".to_vec();
    bytes.extend_from_slice(&[1, 2, 3, 4, 5, 6]);
    let image = decode_ppm(&bytes).unwrap();
    assert_eq!((image.width, image.height), (2, 1));
    assert_eq!(image.buffer, vec![0xFF030201, 0xFF060504]);
}

#[test]
fn decoder_ignores_a_broken_last_pixel() {
    let mut bytes = b"P6\n1 1 255\n".to_vec();
    bytes.extend_from_slice(&[9, 8, 7, 6, 5]);
    let image = decode_ppm(&bytes).unwrap();
    assert_eq!(image.buffer, vec![0xFF070809]);
    bytes.push(4);
    assert_eq!(decode_ppm(&bytes).err(), Some(PpmError::SizeMismatch));
}

#[test]
fn decoder_names_what_is_wrong() {
    assert_eq!(decode_ppm(b"").err(), Some(PpmError::Truncated));
    assert_eq!(decode_ppm(b" \n\t").err(), Some(PpmError::Truncated));
    assert_eq!(decode_ppm(b"P6\n2 2").err(), Some(PpmError::Truncated));
    assert_eq!(decode_ppm(b"P5\n1 1 255\n000").err(), Some(PpmError::UnsupportedMagic));
    assert_eq!(decode_ppm(b"P66 1 1 255\n000").err(), Some(PpmError::UnsupportedMagic));
    assert_eq!(decode_ppm(b"p6 1 1 255\n000").err(), Some(PpmError::UnsupportedMagic));
    assert_eq!(decode_ppm(b"P6\nx 1 255\n000").err(), Some(PpmError::InvalidNumber));
    assert_eq!(decode_ppm(b"P6\n1 -1 255\n000").err(), Some(PpmError::InvalidNumber));
    assert_eq!(decode_ppm(b"P6\n1 1 4294967296\n000").err(), Some(PpmError::InvalidNumber));
    assert_eq!(decode_ppm(b"P6\n1 1 255 7\n000").err(), Some(PpmError::TrailingField));
    assert_eq!(decode_ppm(b"P6\n2 2 255\n000").err(), Some(PpmError::SizeMismatch));
    assert_eq!(decode_ppm(b"P6\n0 0 255\n000").err(), Some(PpmError::SizeMismatch));
    assert_eq!(
        decode_ppm(b"P6\n4294967295 4294967295 255\n").err(),
        Some(PpmError::SizeMismatch)
    );
}

#[test]
fn decoder_reads_an_empty_picture() {
    let image = decode_ppm(b"P6\n0 7 255\n").unwrap();
    assert_eq!((image.width, image.height), (0, 7));
    assert!(image.buffer.is_empty());
}

#[test]
fn saved_picture_reads_back_with_alpha_forced() {
    let width = 5u32;
    let height = 3u32;
    let buffer: Vec<u32> =
        (0..width * height).map(|i| i.wrapping_mul(0x9E3779B9) ^ 0x10203040).collect();
    let image = decode_ppm(&encode_ppm(&buffer, width, height, width)).unwrap();
    assert_eq!((image.width, image.height), (width, height));
    assert_eq!(image.buffer.len(), buffer.len());
    for (back, orig) in image.buffer.iter().zip(buffer.iter()) {
        assert_eq!(unpack_rgb(*back), unpack_rgb(*orig));
        assert_eq!(*back, *orig | 0xFF000000);
    }
}

#[test]
fn saved_picture_reads_back_when_pixels_look_like_text() {
    // pixel bytes that are separators, digits and line feeds
    let buffer = [0x000A2020u32, 0x00323535, 0x000A0A0A, 0x00503620];
    let image = decode_ppm(&encode_ppm(&buffer, 4, 1, 4)).unwrap();
    assert_eq!(image.buffer, vec![0xFF0A2020, 0xFF323535, 0xFF0A0A0A, 0xFF503620]);
    let image = decode_ppm(&encode_ppm(&buffer, 1, 4, 1)).unwrap();
    assert_eq!((image.width, image.height), (1, 4));
    assert_eq!(image.buffer, vec![0xFF0A2020, 0xFF323535, 0xFF0A0A0A, 0xFF503620]);
}

#[test]
fn vflip_turns_the_rows_around() {
    let mut image = Image { buffer: vec![1, 2, 3, 4, 5, 6], width: 2, height: 3 };
    image.vflip();
    assert_eq!(image.buffer, vec![5, 6, 3, 4, 1, 2]);
    assert_eq!((image.width, image.height), (2, 3));
    image.vflip();
    assert_eq!(image.buffer, vec![1, 2, 3, 4, 5, 6]);
}

#[test]
fn vflip_leaves_short_pictures_alone() {
    let mut image = Image { buffer: vec![1, 2, 3], width: 3, height: 1 };
    image.vflip();
    assert_eq!(image.buffer, vec![1, 2, 3]);
    let mut image = Image { buffer: vec![], width: 0, height: 4 };
    image.vflip();
    assert!(image.buffer.is_empty());
}

#[test]
fn vflip_keeps_what_follows_the_picture() {
    let mut image = Image { buffer: vec![1, 2, 3, 4, 77, 88], width: 2, height: 2 };
    image.vflip();
    assert_eq!(image.buffer, vec![3, 4, 1, 2, 77, 88]);
}

#[test]
fn pixel_at_reads_row_by_row() {
    let image = Image { buffer: vec![10, 11, 12, 20, 21, 22], width: 3, height: 2 };
    assert_eq!(image.pixel_at(0, 0), 10);
    assert_eq!(image.pixel_at(2, 0), 12);
    assert_eq!(image.pixel_at(0, 1), 20);
    assert_eq!(image.pixel_at(2, 1), 22);
}

use lsb_stego::{build_frame, length_header_bits, parse_header, payload_fits, HeaderWidth};

#[test]
fn header_width_in_bits() {
    assert_eq!(HeaderWidth::Bits8.bits(), 8);
    assert_eq!(HeaderWidth::Bits32.bits(), 32);
}

#[test]
fn the_standard_header_is_the_default() {
    assert_eq!(HeaderWidth::default(), HeaderWidth::Bits32);
}

#[test]
fn payload_fits_the_short_header_below_thirty_two_bytes() {
    assert!(payload_fits(0, HeaderWidth::Bits8));
    assert!(payload_fits(31, HeaderWidth::Bits8));
    assert!(!payload_fits(32, HeaderWidth::Bits8));
    assert!(!payload_fits(1000, HeaderWidth::Bits8));
}

#[test]
fn payload_fits_the_standard_header_below_half_a_gigabyte() {
    assert!(payload_fits(0, HeaderWidth::Bits32));
    assert!(payload_fits(32, HeaderWidth::Bits32));
    assert!(payload_fits(0x1fff_ffff, HeaderWidth::Bits32));
    assert!(!payload_fits(0x2000_0000, HeaderWidth::Bits32));
}

#[test]
fn length_header_bits_pads_with_leading_zeros() {
    let mut wide: Vec<u8> = vec![0; 32];
    wide[28] = 1;
    assert_eq!(length_header_bits(8, HeaderWidth::Bits32), wide);
    assert_eq!(length_header_bits(8, HeaderWidth::Bits8), vec![0, 0, 0, 0, 1, 0, 0, 0]);
    assert_eq!(length_header_bits(0, HeaderWidth::Bits8), vec![0; 8]);
    assert_eq!(length_header_bits(0, HeaderWidth::Bits32), vec![0; 32]);
}

#[test]
fn length_header_bits_at_the_limits() {
    assert_eq!(length_header_bits(255, HeaderWidth::Bits8), vec![1; 8]);
    assert_eq!(length_header_bits(u32::MAX, HeaderWidth::Bits32), vec![1; 32]);
    let mut bits: Vec<u8> = vec![0; 32];
    bits[23] = 1;
    assert_eq!(length_header_bits(256, HeaderWidth::Bits32), bits);
}

#[test]
fn build_frame_puts_the_bit_count_before_the_bits() {
    let frame = build_frame(&[0x41], HeaderWidth::Bits32);
    let mut expected: Vec<u8> = vec![0; 32];
    expected[28] = 1;
    expected.extend_from_slice(&[0, 1, 0, 0, 0, 0, 0, 1]);
    assert_eq!(frame, expected);
}

#[test]
fn build_frame_with_the_short_header() {
    let frame = build_frame(&[0xff, 0x00], HeaderWidth::Bits8);
    assert_eq!(
        frame,
        vec![0, 0, 0, 1, 0, 0, 0, 0, 1, 1, 1, 1, 1, 1, 1, 1, 0, 0, 0, 0, 0, 0, 0, 0]
    );
}

#[test]
fn build_frame_of_nothing_is_a_zero_header() {
    assert_eq!(build_frame(&[], HeaderWidth::Bits32), vec![0; 32]);
    assert_eq!(build_frame(&[], HeaderWidth::Bits8), vec![0; 8]);
}

#[test]
fn build_frame_length_is_header_plus_eight_per_byte() {
    let payload: Vec<u8> = vec![7; 31];
    assert_eq!(build_frame(&payload, HeaderWidth::Bits8).len(), 8 + 248);
    assert_eq!(build_frame(&payload, HeaderWidth::Bits32).len(), 32 + 248);
}

#[test]
fn parse_header_reads_parities_as_a_number() {
    let mut buffer: Vec<u8> = vec![10; 40];
    buffer[28] = 11;
    let (count, rest) = parse_header(&buffer, HeaderWidth::Bits32);
    assert_eq!(count, 8);
    assert_eq!(rest, &[10u8; 8][..]);
}

#[test]
fn parse_header_with_the_short_header() {
    let buffer: Vec<u8> = vec![1, 3, 5, 7, 9, 11, 13, 15, 42, 43];
    let (count, rest) = parse_header(&buffer, HeaderWidth::Bits8);
    assert_eq!(count, 255);
    assert_eq!(rest, &[42u8, 43][..]);
}

#[test]
fn parse_header_of_a_buffer_that_is_all_header() {
    let buffer: Vec<u8> = vec![255; 32];
    let (count, rest) = parse_header(&buffer, HeaderWidth::Bits32);
    assert_eq!(count, u32::MAX);
    assert!(rest.is_empty());
}

#[test]
fn parse_header_reads_back_what_build_frame_wrote() {
    let payload: Vec<u8> = vec![1, 2, 3, 4, 5];
    let frame = build_frame(&payload, HeaderWidth::Bits32);
    let (count, rest) = parse_header(&frame, HeaderWidth::Bits32);
    assert_eq!(count, 40);
    assert_eq!(rest.len(), 40);
}

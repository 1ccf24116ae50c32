use std::io::Cursor;

use lsb_stego::{embed, extract, HeaderWidth};
use png::{BitDepth, ColorType, Decoder, Encoder};

fn encode_png(width: u32, height: u32, color: ColorType, samples: &[u8]) -> Vec<u8> {
    let mut file: Vec<u8> = Vec::new();
    {
        let mut encoder = Encoder::new(&mut file, width, height);
        encoder.set_color(color);
        encoder.set_depth(BitDepth::Eight);
        let mut writer = encoder.write_header().unwrap();
        writer.write_image_data(samples).unwrap();
    }
    file
}

fn decode_png(file: &[u8]) -> Vec<u8> {
    let decoder = Decoder::new(Cursor::new(file));
    let mut reader = decoder.read_info().unwrap();
    let mut samples: Vec<u8> = vec![0; reader.output_buffer_size()];
    reader.next_frame(&mut samples).unwrap();
    samples
}

fn gradient(len: usize) -> Vec<u8> {
    let mut samples: Vec<u8> = Vec::with_capacity(len);
    let mut i: usize = 0;
    while i < len {
        samples.push((i * 7 % 251) as u8);
        i += 1;
    }
    samples
}

#[test]
fn a_payload_survives_a_png_file() {
    let payload: Vec<u8> = b"kept through the codec".to_vec();
    let mut samples = gradient(16 * 16 * 3);
    assert_eq!(embed(&mut samples, &payload, HeaderWidth::Bits32), Ok(()));

    let file = encode_png(16, 16, ColorType::Rgb, &samples);
    let decoded = decode_png(&file);

    assert_eq!(decoded, samples);
    assert_eq!(extract(&decoded, HeaderWidth::Bits32), Ok(payload));
}

#[test]
fn a_grayscale_png_carries_one_bit_per_pixel() {
    let payload: Vec<u8> = vec![0x41];
    let mut samples = gradient(8 * 5);
    assert_eq!(embed(&mut samples, &payload, HeaderWidth::Bits32), Ok(()));

    let decoded = decode_png(&encode_png(8, 5, ColorType::Grayscale, &samples));
    assert_eq!(extract(&decoded, HeaderWidth::Bits32), Ok(payload));
}

#[test]
fn a_png_too_small_for_the_frame_is_left_alone() {
    let samples = gradient(6 * 6);
    let decoded = decode_png(&encode_png(6, 6, ColorType::Grayscale, &samples));
    let mut carrier = decoded.clone();
    let outcome = embed(&mut carrier, &[0x41], HeaderWidth::Bits32);
    assert!(outcome.is_err());
    assert_eq!(carrier, decoded);
}

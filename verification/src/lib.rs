//! Hiding a payload in the least-significant bits of raster samples.
//!
//! The carrier is a flat buffer of sample bytes. A payload is framed as a
//! fixed-width big-endian bit count followed by its bits, and each bit of the
//! frame becomes the parity of one carrier byte, in buffer order.

pub mod bit_utils;
pub mod bits;
pub mod embed;
pub mod extract;
pub mod frame;
pub mod theorems;

pub use bit_utils::BitUtils;
pub use bits::{
    be_bits, be_value, bit_of, bit_value, bits_bytes, bytes_bits, is_bits, lsb_bits, zero_bits,
};
pub use frame::{
    build_frame, fits_header, frame_bits, header_value, length_header_bits, parse_header,
    payload_fits, HeaderWidth,
};
pub use embed::{embed, embedded, store_bit, CapacityError};
pub use extract::{claimed_len, extract, extracted, ExtractionError};

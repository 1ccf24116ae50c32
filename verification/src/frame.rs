//! The message frame: a fixed-width bit count, then the payload's bits.

use crate::bit_utils::BitUtils;
use crate::bits::{
    be_bits, be_value, bytes_bits, is_bits, lemma_be_bits_are_bits, lemma_bytes_bits_are_bits,
    lsb_bits,
};
use vstd::arithmetic::power2::{lemma2_to64, pow2};
use vstd::prelude::*;
use vstd::slice::slice_to_vec;

verus! {

/// How many bits the length header takes. The two widths are separate
/// protocol versions: a buffer written with one cannot be read with the other.
#[derive(Clone, Copy, Debug, PartialEq, Eq, Structural)]
pub enum HeaderWidth {
    /// The short header, for payloads of fewer than 256 bits.
    Bits8,
    /// The standard header.
    Bits32,
}

impl HeaderWidth {
    /// The width as a number of bits.
    pub open spec fn spec_bits(self) -> nat {
        match self {
            HeaderWidth::Bits8 => 8,
            HeaderWidth::Bits32 => 32,
        }
    }

    /// The least bit count that the header cannot hold: two to the power of
    /// the width.
    pub open spec fn spec_limit(self) -> nat {
        match self {
            HeaderWidth::Bits8 => 0x100,
            HeaderWidth::Bits32 => 0x1_0000_0000,
        }
    }

    /// The limit of a header is two to the power of its width.
    pub proof fn lemma_limit_is_power(self)
        ensures
            self.spec_limit() == pow2(self.spec_bits()),
    {
        lemma2_to64();
    }

    /// The width as a number of bits, which is also the number of carrier
    /// bytes that the header occupies.
    pub fn bits(self) -> (n: usize)
        ensures
            n == self.spec_bits(),
    {
        match self {
            HeaderWidth::Bits8 => 8,
            HeaderWidth::Bits32 => 32,
        }
    }
}

impl Default for HeaderWidth {
    /// The standard header.
    fn default() -> (width: HeaderWidth)
        ensures
            width == HeaderWidth::Bits32,
    {
        HeaderWidth::Bits32
    }
}

/// The header can hold the bit count of a payload of `payload_len` bytes.
pub open spec fn fits_header(payload_len: nat, width: HeaderWidth) -> bool {
    8 * payload_len < width.spec_limit()
}

/// The frame of a payload: its bit count in the header's width, most
/// significant bit first, followed by the bits of its bytes.
pub open spec fn frame_bits(payload: Seq<u8>, width: HeaderWidth) -> Seq<u8> {
    be_bits(8 * payload.len(), width.spec_bits()) + bytes_bits(payload)
}

/// The bit count that the parities of the carrier bytes under the header spell.
pub open spec fn header_value(buffer: Seq<u8>, width: HeaderWidth) -> nat {
    be_value(lsb_bits(buffer.take(width.spec_bits() as int)))
}

/// A frame consists of bits: one for each bit of the header and eight for
/// each byte of the payload.
pub proof fn lemma_frame_bits_are_bits(payload: Seq<u8>, width: HeaderWidth)
    ensures
        is_bits(frame_bits(payload, width)),
        frame_bits(payload, width).len() == width.spec_bits() + 8 * payload.len(),
{
    lemma_be_bits_are_bits(8 * payload.len(), width.spec_bits());
    lemma_bytes_bits_are_bits(payload);
}

/// Decides whether the header can hold the bit count of a payload of
/// `payload_len` bytes.
pub fn payload_fits(payload_len: usize, width: HeaderWidth) -> (fits: bool)
    ensures
        fits == fits_header(payload_len as nat, width),
{
    match width {
        HeaderWidth::Bits8 => payload_len < 0x20,
        HeaderWidth::Bits32 => payload_len < 0x2000_0000,
    }
}

/// The header for a bit count `n`: its binary digits, most significant first,
/// with leading zeros up to the header's width.
pub fn length_header_bits(n: u32, width: HeaderWidth) -> (bits: Vec<u8>)
    requires
        n < width.spec_limit(),
    ensures
        bits@ == be_bits(n as nat, width.spec_bits()),
        bits@.len() == width.spec_bits(),
{
    match width {
        HeaderWidth::Bits8 => BitUtils::byte_to_bit(n as u8),
        HeaderWidth::Bits32 => BitUtils::byte_u32_to_bit(n),
    }
}

/// Builds the frame of a payload.
pub fn build_frame(payload: &[u8], width: HeaderWidth) -> (frame: Vec<u8>)
    requires
        fits_header(payload@.len(), width),
    ensures
        frame@ == frame_bits(payload@, width),
        frame@.len() == width.spec_bits() + 8 * payload@.len(),
{
    let bit_count: u32 = (8 * payload.len()) as u32;
    let mut frame = length_header_bits(bit_count, width);
    let mut body = BitUtils::make_bits(slice_to_vec(payload));
    frame.append(&mut body);
    frame
}

/// Reads the header at the start of a carrier buffer: the bit count that it
/// spells, and the rest of the buffer behind it.
pub fn parse_header<'a>(buffer: &'a [u8], width: HeaderWidth) -> (parsed: (u32, &'a [u8]))
    requires
        width.spec_bits() <= buffer@.len(),
    ensures
        parsed.0 as nat == header_value(buffer@, width),
        parsed.1@ == buffer@.skip(width.spec_bits() as int),
{
    let (head, rest) = buffer.split_at(width.bits());
    let bits = BitUtils::read_lsb(slice_to_vec(head));
    let bit_count: u32 = match width {
        HeaderWidth::Bits8 => BitUtils::byte_to_decimal(bits) as u32,
        HeaderWidth::Bits32 => BitUtils::byte_u32_to_decimal(bits),
    };
    (bit_count, rest)
}

} // verus!

//! Reading a payload back from the parities of a carrier buffer.

use crate::bit_utils::BitUtils;
use crate::bits::{bits_bytes, lsb_bits};
use crate::frame::{header_value, parse_header, HeaderWidth};
use vstd::prelude::*;
use vstd::slice::{slice_subrange, slice_to_vec};

verus! {

/// The carrier buffer is shorter than the frame that it claims to hold.
#[derive(Clone, Copy, Debug, PartialEq, Eq, Structural)]
pub struct ExtractionError {
    /// The length of the claimed frame in bits, one carrier byte each: the
    /// header alone where the buffer cannot even hold that.
    pub required: u64,
    /// The length of the carrier buffer in bytes.
    pub available: u64,
}

/// The number of carrier bytes that a buffer must have for the frame that it
/// claims: the header, and behind it as many bytes as the header counts bits.
pub open spec fn claimed_len(buffer: Seq<u8>, width: HeaderWidth) -> nat {
    if buffer.len() < width.spec_bits() {
        width.spec_bits()
    } else {
        width.spec_bits() + header_value(buffer, width)
    }
}

/// The payload that a carrier buffer holds: the bytes spelled by the parities
/// of as many carrier bytes behind the header as the header counts. There is
/// none where the buffer is shorter than the frame that it claims.
pub open spec fn extracted(buffer: Seq<u8>, width: HeaderWidth) -> Option<Seq<u8>> {
    if claimed_len(buffer, width) <= buffer.len() {
        let body = buffer.subrange(width.spec_bits() as int, claimed_len(buffer, width) as int);
        Some(bits_bytes(lsb_bits(body)))
    } else {
        None
    }
}

/// Recovers the payload hidden in a carrier buffer.
///
/// The only check is on length: whatever bit count the header spells is
/// believed as long as the buffer is long enough for it.
pub fn extract(pixel_buffer: &[u8], width: HeaderWidth) -> (outcome: Result<
    Vec<u8>,
    ExtractionError,
>)
    ensures
        match outcome {
            Ok(payload) => extracted(pixel_buffer@, width) == Some(payload@),
            Err(e) => {
                &&& extracted(pixel_buffer@, width) is None
                &&& e.required == claimed_len(pixel_buffer@, width)
                &&& e.available == pixel_buffer@.len()
            },
        },
{
    let header_len: usize = width.bits();
    let available: usize = pixel_buffer.len();
    if available < header_len {
        return Err(ExtractionError { required: header_len as u64, available: available as u64 });
    }
    let (bit_count, rest) = parse_header(pixel_buffer, width);
    if bit_count as u64 > rest.len() as u64 {
        return Err(
            ExtractionError {
                required: header_len as u64 + bit_count as u64,
                available: available as u64,
            },
        );
    }
    let body = slice_subrange(rest, 0, bit_count as usize);
    proof {
        assert(body@ =~= pixel_buffer@.subrange(header_len as int, header_len + bit_count));
    }
    let bits = BitUtils::read_lsb(slice_to_vec(body));
    Ok(BitUtils::bits_to_bytes(bits))
}

} // verus!

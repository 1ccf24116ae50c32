//! Writing a frame into the parities of a carrier buffer.

use crate::extract::extracted;
use crate::frame::{build_frame, fits_header, frame_bits, lemma_frame_bits_are_bits, HeaderWidth};
use crate::theorems::lemma_embed_extract_round_trip;
use vstd::prelude::*;

verus! {

/// The frame is longer than the carrier buffer.
#[derive(Clone, Copy, Debug, PartialEq, Eq, Structural)]
pub struct CapacityError {
    /// The length of the frame in bits, one carrier byte each.
    pub required: u64,
    /// The length of the carrier buffer in bytes.
    pub available: u64,
}

/// A carrier byte after one bit is stored in it: the bit takes the place of
/// the byte's parity, and the rest of the byte stays. An element that is no
/// bit, neither 0 nor 1, stores nothing.
pub open spec fn store_bit(sample: u8, bit: u8) -> u8 {
    if bit == 0 || bit == 1 {
        (sample - sample % 2 + bit) as u8
    } else {
        sample
    }
}

/// A carrier buffer after the bits are stored in its leading bytes, one bit
/// per byte in order. Bytes behind the last bit stay as they were.
pub open spec fn embedded(buffer: Seq<u8>, bits: Seq<u8>) -> Seq<u8> {
    Seq::new(
        buffer.len(),
        |i: int|
            if i < bits.len() {
                store_bit(buffer[i], bits[i])
            } else {
                buffer[i]
            },
    )
}

/// Storing a bit is a step of at most one: up from an even byte for a 1,
/// down from an odd byte for a 0, and none where the parity is the bit
/// already. Afterwards the bit is the parity of the byte.
pub proof fn lemma_store_bit(sample: u8, bit: u8)
    requires
        bit == 0 || bit == 1,
    ensures
        bit == 1 && sample % 2 == 0 ==> store_bit(sample, bit) == sample + 1,
        bit == 0 && sample % 2 == 1 ==> store_bit(sample, bit) == sample - 1,
        bit == sample % 2 ==> store_bit(sample, bit) == sample,
        store_bit(sample, bit) % 2 == bit,
        -1 <= store_bit(sample, bit) - sample <= 1,
{
}

/// Hides a payload in a carrier buffer.
///
/// The frame of the payload is stored bit by bit in the parities of the
/// leading bytes: each of them ends up with the parity of its bit, at most one
/// away from where it was. The bytes behind the frame are not touched, and
/// the payload can be recovered from the buffer. A frame longer than the
/// buffer is refused, and the buffer is then left as it was.
pub fn embed(pixel_buffer: &mut [u8], payload: &[u8], width: HeaderWidth) -> (outcome: Result<
    (),
    CapacityError,
>)
    requires
        fits_header(payload@.len(), width),
    ensures
        final(pixel_buffer)@.len() == old(pixel_buffer)@.len(),
        match outcome {
            Ok(()) => {
                let frame = frame_bits(payload@, width);
                let before = old(pixel_buffer)@;
                let after = final(pixel_buffer)@;
                &&& frame.len() == width.spec_bits() + 8 * payload@.len()
                &&& frame.len() <= before.len()
                &&& after == embedded(before, frame)
                &&& forall|i: int| 0 <= i < frame.len() ==> (#[trigger] after[i]) % 2 == frame[i]
                &&& forall|i: int|
                    0 <= i < frame.len() ==> -1 <= (#[trigger] after[i]) - before[i] <= 1
                &&& forall|i: int|
                    frame.len() <= i < before.len() ==> (#[trigger] after[i]) == before[i]
                &&& extracted(after, width) == Some(payload@)
            },
            Err(e) => {
                &&& width.spec_bits() + 8 * payload@.len() > old(pixel_buffer)@.len()
                &&& e.required == width.spec_bits() + 8 * payload@.len()
                &&& e.available == old(pixel_buffer)@.len()
                &&& final(pixel_buffer)@ == old(pixel_buffer)@
            },
        },
{
    let frame = build_frame(payload, width);
    let frame_len: usize = frame.len();
    if frame_len > pixel_buffer.len() {
        return Err(
            CapacityError { required: frame_len as u64, available: pixel_buffer.len() as u64 },
        );
    }
    let mut i: usize = 0;
    while i < frame_len
        invariant
            i <= frame_len,
            frame_len == frame@.len(),
            frame_len <= pixel_buffer@.len(),
            pixel_buffer@.len() == old(pixel_buffer)@.len(),
            forall|j: int|
                0 <= j < i ==> pixel_buffer@[j] == store_bit(old(pixel_buffer)@[j], frame@[j]),
            forall|j: int|
                i <= j < pixel_buffer@.len() ==> pixel_buffer@[j] == old(pixel_buffer)@[j],
        decreases frame_len - i,
    {
        let bit: u8 = frame[i];
        let sample: u8 = pixel_buffer[i];
        if bit == 1 && sample % 2 == 0 {
            pixel_buffer[i] = sample + 1;
        } else if bit == 0 && sample % 2 != 0 {
            pixel_buffer[i] = sample - 1;
        }
        i += 1;
    }
    proof {
        lemma_frame_bits_are_bits(payload@, width);
        assert(pixel_buffer@ =~= embedded(old(pixel_buffer)@, frame@));
        assert forall|j: int| 0 <= j < frame@.len() implies (#[trigger] pixel_buffer@[j]) % 2
            == frame@[j] && -1 <= pixel_buffer@[j] - old(pixel_buffer)@[j] <= 1 by {
            lemma_store_bit(old(pixel_buffer)@[j], frame@[j]);
        }
        lemma_embed_extract_round_trip(old(pixel_buffer)@, payload@, width);
    }
    Ok(())
}

} // verus!

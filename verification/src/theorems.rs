//! What holds between the conversions, and between hiding and recovering.

use crate::bits::{
    be_bits, be_value, bits_bytes, bytes_bits, is_bits, lemma_be_value_of_be_bits, lsb_bits,
};
use crate::embed::{embedded, lemma_store_bit};
use crate::extract::{claimed_len, extracted};
use crate::frame::{
    fits_header, frame_bits, header_value, lemma_frame_bits_are_bits, HeaderWidth,
};
use vstd::arithmetic::power2::lemma2_to64;
use vstd::prelude::*;

verus! {

/// Spelling a byte as eight bits and reading the bits back gives the byte.
pub proof fn lemma_byte_round_trip(byte: u8)
    ensures
        be_value(be_bits(byte as nat, 8)) == byte,
{
    lemma2_to64();
    lemma_be_value_of_be_bits(byte as nat, 8);
}

/// Spelling a word as thirty-two bits and reading the bits back gives the word.
pub proof fn lemma_word_round_trip(word: u32)
    ensures
        be_value(be_bits(word as nat, 32)) == word,
{
    lemma2_to64();
    lemma_be_value_of_be_bits(word as nat, 32);
}

/// Each group of eight among the bits of a byte sequence is the spelling of
/// one byte.
pub proof fn lemma_bytes_bits_group(bytes: Seq<u8>, k: int)
    requires
        0 <= k < bytes.len(),
    ensures
        bytes_bits(bytes).subrange(8 * k, 8 * k + 8) == be_bits(bytes[k] as nat, 8),
{
    assert(bytes_bits(bytes).subrange(8 * k, 8 * k + 8) =~= be_bits(bytes[k] as nat, 8));
}

/// Turning bytes into bits and regrouping the bits gives the bytes.
pub proof fn lemma_bytes_round_trip(bytes: Seq<u8>)
    ensures
        bits_bytes(bytes_bits(bytes)) == bytes,
{
    assert forall|k: int| 0 <= k < bytes.len() implies bits_bytes(bytes_bits(bytes))[k]
        == bytes[k] by {
        lemma_bytes_bits_group(bytes, k);
        lemma_byte_round_trip(bytes[k]);
    }
    assert(bits_bytes(bytes_bits(bytes)) =~= bytes);
}

/// Regrouping gives one byte for each full group of eight bits, and the bits
/// behind the last full group have no part in the result.
pub proof fn lemma_bits_bytes_drops_tail(bits: Seq<u8>)
    ensures
        bits_bytes(bits).len() == bits.len() / 8,
        bits_bytes(bits) == bits_bytes(bits.take(8 * (bits.len() as int / 8))),
{
    let full = bits.take(8 * (bits.len() as int / 8));
    assert forall|k: int| 0 <= k < bits.len() / 8 implies bits_bytes(bits)[k] == bits_bytes(
        full,
    )[k] by {
        assert(bits.subrange(8 * k, 8 * k + 8) =~= full.subrange(8 * k, 8 * k + 8));
    }
    assert(bits_bytes(bits) =~= bits_bytes(full));
}

/// After bits are stored in a carrier buffer that is long enough, the
/// parities of its leading bytes are those bits.
pub proof fn lemma_embedded_parities(buffer: Seq<u8>, bits: Seq<u8>)
    requires
        is_bits(bits),
        bits.len() <= buffer.len(),
    ensures
        lsb_bits(embedded(buffer, bits).take(bits.len() as int)) == bits,
{
    let stored = embedded(buffer, bits);
    assert forall|i: int| 0 <= i < bits.len() implies lsb_bits(stored.take(bits.len() as int))[i]
        == bits[i] by {
        lemma_store_bit(buffer[i], bits[i]);
    }
    assert(lsb_bits(stored.take(bits.len() as int)) =~= bits);
}

/// A payload that was hidden in a carrier buffer comes back unchanged:
/// whenever the header can hold the payload's bit count and the buffer is as
/// long as the frame, recovering from the buffer that hiding left gives the
/// payload.
pub proof fn lemma_embed_extract_round_trip(buffer: Seq<u8>, payload: Seq<u8>, width: HeaderWidth)
    requires
        fits_header(payload.len(), width),
        width.spec_bits() + 8 * payload.len() <= buffer.len(),
    ensures
        extracted(embedded(buffer, frame_bits(payload, width)), width) == Some(payload),
{
    let frame = frame_bits(payload, width);
    let stored = embedded(buffer, frame);
    let header_len = width.spec_bits();
    let count = 8 * payload.len();
    lemma_frame_bits_are_bits(payload, width);
    lemma_embedded_parities(buffer, frame);
    let parities = lsb_bits(stored.take(frame.len() as int));
    assert(lsb_bits(stored.take(header_len as int)) =~= be_bits(count, header_len)) by {
        assert forall|i: int| 0 <= i < header_len implies lsb_bits(
            stored.take(header_len as int),
        )[i] == be_bits(count, header_len)[i] by {
            assert(parities[i] == frame[i]);
        }
    }
    width.lemma_limit_is_power();
    lemma_be_value_of_be_bits(count, header_len);
    assert(header_value(stored, width) == count);
    assert(claimed_len(stored, width) == header_len + count);
    let body = stored.subrange(header_len as int, (header_len + count) as int);
    assert(lsb_bits(body) =~= bytes_bits(payload)) by {
        assert forall|j: int| 0 <= j < count implies lsb_bits(body)[j] == bytes_bits(payload)[j] by {
            assert(parities[header_len + j] == frame[header_len + j]);
        }
    }
    lemma_bytes_round_trip(payload);
}

} // verus!

//! Conversions between bytes, 32-bit words and bit sequences.

use crate::bits::{
    be_bits, be_value, bit_of, bit_value, bits_bytes, bytes_bits, lemma_be_value_of_eight,
    lemma_be_value_scaled_bound, lemma_be_value_take_step, lemma_be_value_zero_padded,
    lemma_bit_of_quotient, lsb_bits, zero_bits,
};
use vstd::arithmetic::power2::{lemma2_to64, pow2};
use vstd::bits::{
    lemma_u32_pow2_no_overflow, lemma_u32_shl_is_mul, lemma_u32_shr_is_div,
    lemma_u8_pow2_no_overflow, lemma_u8_shl_is_mul, lemma_u8_shr_is_div,
};
use vstd::prelude::*;
use vstd::slice::{slice_subrange, slice_to_vec};

verus! {

/// Namespace of the bit-level conversions.
pub struct BitUtils {}

/// Shifting a byte right by `k` and masking with 1 picks the digit of weight `2^k`.
proof fn lemma_u8_digit(byte: u8, k: u8)
    requires
        k < 8,
    ensures
        (byte >> k) & 1 == bit_of(byte as nat, k as nat),
{
    lemma_u8_shr_is_div(byte, k);
    lemma_bit_of_quotient(byte as nat, k as nat);
    let shifted: u8 = byte >> k;
    assert(shifted & 1 == shifted % 2) by (bit_vector);
}

/// Shifting a word right by `k` and masking with 1 picks the digit of weight `2^k`.
proof fn lemma_u32_digit(word: u32, k: u32)
    requires
        k < 32,
    ensures
        (word >> k) & 1 == bit_of(word as nat, k as nat),
{
    lemma_u32_shr_is_div(word, k);
    lemma_bit_of_quotient(word as nat, k as nat);
    let shifted: u32 = word >> k;
    assert(shifted & 1 == shifted % 2) by (bit_vector);
}

impl BitUtils {
    /// The eight bits of a byte, most significant first.
    pub fn byte_to_bit(byte: u8) -> (bits: Vec<u8>)
        ensures
            bits@ == be_bits(byte as nat, 8),
            forall|i: int| 0 <= i < 8 ==> #[trigger] bits@[i] == (byte >> ((7 - i) as u8)) & 1,
    {
        let mut bits: Vec<u8> = Vec::new();
        let mut i: u8 = 0;
        while i < 8
            invariant
                i <= 8,
                bits@.len() == i,
                forall|j: int| 0 <= j < i ==> bits@[j] == bit_of(byte as nat, (7 - j) as nat),
                forall|j: int| 0 <= j < i ==> #[trigger] bits@[j] == (byte >> ((7 - j) as u8)) & 1,
            decreases 8 - i,
        {
            let k: u8 = 7 - i;
            proof {
                lemma_u8_digit(byte, k);
            }
            bits.push((byte >> k) & 1);
            i += 1;
        }
        bits
    }

    /// The thirty-two bits of a word, most significant first.
    pub fn byte_u32_to_bit(byte: u32) -> (bits: Vec<u8>)
        ensures
            bits@ == be_bits(byte as nat, 32),
            forall|i: int| 0 <= i < 32 ==> #[trigger] bits@[i] == (byte >> ((31 - i) as u32)) & 1,
    {
        let mut bits: Vec<u8> = Vec::new();
        let mut i: u32 = 0;
        while i < 32
            invariant
                i <= 32,
                bits@.len() == i,
                forall|j: int| 0 <= j < i ==> bits@[j] == bit_of(byte as nat, (31 - j) as nat),
                forall|j: int|
                    0 <= j < i ==> #[trigger] bits@[j] == (byte >> ((31 - j) as u32)) & 1,
            decreases 32 - i,
        {
            let k: u32 = 31 - i;
            let bit: u32 = (byte >> k) & 1;
            proof {
                lemma_u32_digit(byte, k);
            }
            bits.push(bit as u8);
            i += 1;
        }
        bits
    }

    /// The byte spelled by eight bits, most significant first.
    ///
    /// A bit weighs `2^(7 - i)` at index `i` when it is 1 and nothing otherwise.
    pub fn byte_to_decimal(byte: Vec<u8>) -> (value: u8)
        requires
            byte@.len() == 8,
        ensures
            value as nat == be_value(byte@),
            value as nat == 128 * bit_value(byte@[0]) + 64 * bit_value(byte@[1]) + 32 * bit_value(
                byte@[2],
            ) + 16 * bit_value(byte@[3]) + 8 * bit_value(byte@[4]) + 4 * bit_value(byte@[5]) + 2
                * bit_value(byte@[6]) + bit_value(byte@[7]),
    {
        let mut output: u8 = 0;
        let mut i: usize = 0;
        assert(be_value(byte@.take(0)) == 0);
        while i < 8
            invariant
                i <= 8,
                byte@.len() == 8,
                output as nat == be_value(byte@.take(i as int)) * pow2((8 - i) as nat),
            decreases 8 - i,
        {
            let k: u8 = (7 - i) as u8;
            proof {
                lemma_be_value_take_step(byte@, i as int, 8);
                lemma_be_value_scaled_bound(byte@.take(i + 1), 8);
                lemma_u8_pow2_no_overflow(k as nat);
                lemma_u8_shl_is_mul(1, k);
                lemma2_to64();
            }
            if byte[i] == 1 {
                output += 1u8 << k;
            }
            i += 1;
        }
        proof {
            lemma2_to64();
            lemma_be_value_of_eight(byte@);
            assert(byte@.take(8) =~= byte@);
            let unit = pow2(0);
            assert(be_value(byte@) * unit == be_value(byte@)) by (nonlinear_arith)
                requires
                    unit == 1,
            ;
        }
        output
    }

    /// The word that up to thirty-two bits spell as its leading bits.
    ///
    /// A bit weighs `2^(31 - i)` at index `i` when it is 1 and nothing otherwise,
    /// so thirty-two bits give the number that they spell, and fewer give what
    /// they would spell with zero bits behind them to fill the word.
    pub fn byte_u32_to_decimal(byte: Vec<u8>) -> (value: u32)
        requires
            byte@.len() <= 32,
        ensures
            value as nat == be_value(byte@ + zero_bits((32 - byte@.len()) as nat)),
            byte@.len() == 32 ==> value as nat == be_value(byte@),
    {
        let n: usize = byte.len();
        let mut output: u32 = 0;
        let mut i: usize = 0;
        assert(be_value(byte@.take(0)) == 0);
        while i < n
            invariant
                i <= n,
                n == byte@.len(),
                n <= 32,
                output as nat == be_value(byte@.take(i as int)) * pow2((32 - i) as nat),
            decreases n - i,
        {
            let k: u32 = (31 - i) as u32;
            proof {
                lemma_be_value_take_step(byte@, i as int, 32);
                lemma_be_value_scaled_bound(byte@.take(i + 1), 32);
                lemma_u32_pow2_no_overflow(k as nat);
                lemma_u32_shl_is_mul(1, k);
                lemma2_to64();
            }
            if byte[i] == 1 {
                output += 1u32 << k;
            }
            i += 1;
        }
        proof {
            assert(byte@.take(n as int) =~= byte@);
            lemma_be_value_zero_padded(byte@, (32 - n) as nat);
            assert(byte@ + zero_bits(0) =~= byte@);
        }
        output
    }

    /// The least-significant bit of each byte, in order.
    pub fn read_lsb(bytes: Vec<u8>) -> (bits: Vec<u8>)
        ensures
            bits@ == lsb_bits(bytes@),
    {
        let n: usize = bytes.len();
        let mut bits: Vec<u8> = Vec::new();
        let mut i: usize = 0;
        while i < n
            invariant
                i <= n,
                n == bytes@.len(),
                bits@.len() == i,
                forall|j: int| 0 <= j < i ==> bits@[j] == bytes@[j] % 2,
            decreases n - i,
        {
            bits.push(bytes[i] % 2);
            i += 1;
        }
        bits
    }

    /// Regroups bits into bytes, eight at a time; a shorter tail is dropped.
    pub fn bits_to_bytes(bits: Vec<u8>) -> (bytes: Vec<u8>)
        ensures
            bytes@ == bits_bytes(bits@),
            bytes@.len() == bits@.len() / 8,
    {
        let groups: usize = bits.len() / 8;
        let mut output: Vec<u8> = Vec::new();
        let mut k: usize = 0;
        while k < groups
            invariant
                k <= groups,
                groups == bits@.len() / 8,
                bits@.len() <= usize::MAX,
                output@.len() == k,
                forall|j: int|
                    0 <= j < k ==> output@[j] == be_value(bits@.subrange(8 * j, 8 * j + 8)) as u8,
            decreases groups - k,
        {
            let group = slice_subrange(bits.as_slice(), 8 * k, 8 * k + 8);
            output.push(Self::byte_to_decimal(slice_to_vec(group)));
            k += 1;
        }
        output
    }

    /// The bits of every byte, eight per byte, bytes in order.
    pub fn make_bits(bytes: Vec<u8>) -> (bits: Vec<u8>)
        ensures
            bits@ == bytes_bits(bytes@),
            bits@.len() == 8 * bytes@.len(),
    {
        let n: usize = bytes.len();
        let mut output: Vec<u8> = Vec::new();
        let mut i: usize = 0;
        while i < n
            invariant
                i <= n,
                n == bytes@.len(),
                output@ == bytes_bits(bytes@.take(i as int)),
            decreases n - i,
        {
            let mut byte_bits = Self::byte_to_bit(bytes[i]);
            output.append(&mut byte_bits);
            proof {
                assert(output@ =~= bytes_bits(bytes@.take(i + 1)));
            }
            i += 1;
        }
        proof {
            assert(bytes@.take(n as int) =~= bytes@);
        }
        output
    }
}

} // verus!

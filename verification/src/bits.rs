//! The mathematical model of bit sequences.
//!
//! A bit sequence is a `Seq<u8>` whose elements stand for single bits, most
//! significant first. An element counts as a set bit exactly when it is 1.
//!
//! `bit_of` and `be_value` are recursive: to evaluate them on given numbers,
//! unfold them with `reveal_with_fuel`, once per bit and once more.

use vstd::arithmetic::div_mod::lemma_div_denominator;
use vstd::arithmetic::power2::{
    lemma2_to64, lemma_pow2_adds, lemma_pow2_pos, lemma_pow2_unfold, pow2,
};
use vstd::prelude::*;

verus! {

/// What one element of a bit sequence contributes: 1 if it is 1, else 0.
pub open spec fn bit_value(bit: u8) -> nat {
    if bit == 1 {
        1
    } else {
        0
    }
}

/// Every element is 0 or 1.
pub open spec fn is_bits(bits: Seq<u8>) -> bool {
    forall|i: int| 0 <= i < bits.len() ==> bits[i] == 0 || bits[i] == 1
}

/// The binary digit of weight `2^k` in `n`: halve `k` times, then take the
/// remainder modulo 2.
pub open spec fn bit_of(n: nat, k: nat) -> u8
    decreases k,
{
    if k == 0 {
        (n % 2) as u8
    } else {
        bit_of(n / 2, (k - 1) as nat)
    }
}

/// The `width` low binary digits of `n`, most significant first.
pub open spec fn be_bits(n: nat, width: nat) -> Seq<u8> {
    Seq::new(width, |i: int| bit_of(n, (width - 1 - i) as nat))
}

/// The number that a bit sequence spells, most significant bit first.
pub open spec fn be_value(bits: Seq<u8>) -> nat
    decreases bits.len(),
{
    if bits.len() == 0 {
        0
    } else {
        2 * be_value(bits.drop_last()) + bit_value(bits.last())
    }
}

/// The bits of a byte sequence: eight per byte, bytes in order.
pub open spec fn bytes_bits(bytes: Seq<u8>) -> Seq<u8> {
    Seq::new(8 * bytes.len(), |j: int| bit_of(bytes[j / 8] as nat, (7 - j % 8) as nat))
}

/// The bytes spelled by the full groups of eight bits; a shorter tail is dropped.
pub open spec fn bits_bytes(bits: Seq<u8>) -> Seq<u8> {
    Seq::new(bits.len() / 8, |k: int| be_value(bits.subrange(8 * k, 8 * k + 8)) as u8)
}

/// The parity of each byte of a carrier buffer.
pub open spec fn lsb_bits(buffer: Seq<u8>) -> Seq<u8> {
    Seq::new(buffer.len(), |i: int| buffer[i] % 2)
}

/// `count` zero bits.
pub open spec fn zero_bits(count: nat) -> Seq<u8> {
    Seq::new(count, |i: int| 0u8)
}

/// A binary digit is 0 or 1, and it is the quotient by its weight, modulo 2.
pub proof fn lemma_bit_of_quotient(n: nat, k: nat)
    ensures
        bit_of(n, k) == 0 || bit_of(n, k) == 1,
        bit_of(n, k) == (n / pow2(k)) % 2,
    decreases k,
{
    if k == 0 {
        lemma2_to64();
    } else {
        let rest = (k - 1) as nat;
        lemma_bit_of_quotient(n / 2, rest);
        lemma_pow2_pos(rest);
        lemma_pow2_unfold(k);
        lemma_div_denominator(n as int, 2, pow2(rest) as int);
    }
}

/// Binary digits are bits.
pub proof fn lemma_be_bits_are_bits(n: nat, width: nat)
    ensures
        is_bits(be_bits(n, width)),
{
    assert forall|i: int| 0 <= i < width implies be_bits(n, width)[i] == 0 || be_bits(n, width)[i]
        == 1 by {
        lemma_bit_of_quotient(n, (width - 1 - i) as nat);
    }
}

/// The bits of a byte sequence are bits.
pub proof fn lemma_bytes_bits_are_bits(bytes: Seq<u8>)
    ensures
        is_bits(bytes_bits(bytes)),
{
    assert forall|j: int| 0 <= j < 8 * bytes.len() implies bytes_bits(bytes)[j] == 0
        || bytes_bits(bytes)[j] == 1 by {
        lemma_bit_of_quotient(bytes[j / 8] as nat, (7 - j % 8) as nat);
    }
}

/// A bit sequence of length `len` spells a number below `2^len`.
pub proof fn lemma_be_value_bound(bits: Seq<u8>)
    ensures
        be_value(bits) < pow2(bits.len()),
    decreases bits.len(),
{
    if bits.len() == 0 {
        lemma2_to64();
    } else {
        lemma_be_value_bound(bits.drop_last());
        lemma_pow2_unfold(bits.len());
    }
}

/// Spelling out the `width` low digits of a number below `2^width` and reading
/// them back gives the number.
pub proof fn lemma_be_value_of_be_bits(n: nat, width: nat)
    requires
        n < pow2(width),
    ensures
        be_value(be_bits(n, width)) == n,
    decreases width,
{
    let bits = be_bits(n, width);
    if width == 0 {
        lemma2_to64();
    } else {
        let rest = (width - 1) as nat;
        lemma_pow2_unfold(width);
        assert(bits.drop_last() =~= be_bits(n / 2, rest));
        lemma_bit_of_quotient(n, 0);
        lemma_be_value_of_be_bits(n / 2, rest);
    }
}

/// Eight bits spell the sum of their weights, from 128 for the first down to
/// 1 for the last.
pub proof fn lemma_be_value_of_eight(bits: Seq<u8>)
    requires
        bits.len() == 8,
    ensures
        be_value(bits) == 128 * bit_value(bits[0]) + 64 * bit_value(bits[1]) + 32 * bit_value(
            bits[2],
        ) + 16 * bit_value(bits[3]) + 8 * bit_value(bits[4]) + 4 * bit_value(bits[5]) + 2
            * bit_value(bits[6]) + bit_value(bits[7]),
{
    reveal_with_fuel(be_value, 9);
}

/// Reading one more bit of a sequence that is weighed as the front of a
/// `width`-bit number: the new bit enters with weight `2^(width - 1 - i)`.
pub proof fn lemma_be_value_take_step(bits: Seq<u8>, i: int, width: nat)
    requires
        0 <= i < bits.len(),
        i < width,
    ensures
        be_value(bits.take(i + 1)) * pow2((width - 1 - i) as nat) == be_value(bits.take(i)) * pow2(
            (width - i) as nat,
        ) + bit_value(bits[i]) * pow2((width - 1 - i) as nat),
{
    let front = be_value(bits.take(i));
    let low = pow2((width - 1 - i) as nat);
    assert(bits.take(i + 1).drop_last() =~= bits.take(i));
    assert(bits.take(i + 1).last() == bits[i]);
    assert(be_value(bits.take(i + 1)) == 2 * front + bit_value(bits[i]));
    lemma_pow2_unfold((width - i) as nat);
    let b = bit_value(bits[i]);
    assert((2 * front + b) * low == front * (2 * low) + b * low) by (nonlinear_arith);
}

/// A bit sequence weighed as the front of a `width`-bit number stays below
/// `2^width`, with room for one unit of its last weight.
pub proof fn lemma_be_value_scaled_bound(bits: Seq<u8>, width: nat)
    requires
        bits.len() <= width,
    ensures
        be_value(bits) * pow2((width - bits.len()) as nat) + pow2((width - bits.len()) as nat)
            <= pow2(width),
{
    let v = be_value(bits);
    let high = pow2(bits.len());
    let low = pow2((width - bits.len()) as nat);
    lemma_be_value_bound(bits);
    lemma_pow2_adds(bits.len(), (width - bits.len()) as nat);
    assert(v * low + low <= high * low) by (nonlinear_arith)
        requires
            v < high,
            0 <= low,
    ;
}

/// Zero bits behind a sequence double its value once each.
pub proof fn lemma_be_value_zero_padded(bits: Seq<u8>, count: nat)
    ensures
        be_value(bits + zero_bits(count)) == be_value(bits) * pow2(count),
    decreases count,
{
    let v = be_value(bits);
    if count == 0 {
        lemma2_to64();
        assert(bits + zero_bits(0) =~= bits);
        let unit = pow2(0);
        assert(v * unit == v) by (nonlinear_arith)
            requires
                unit == 1,
        ;
    } else {
        let rest = (count - 1) as nat;
        let low = pow2(rest);
        lemma_be_value_zero_padded(bits, rest);
        lemma_pow2_unfold(count);
        assert((bits + zero_bits(count)).drop_last() =~= bits + zero_bits(rest));
        assert(2 * (v * low) == v * (2 * low)) by (nonlinear_arith);
    }
}

} // verus!

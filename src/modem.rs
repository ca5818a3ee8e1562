//! Conversions between bytes and bit sequences.
use vstd::arithmetic::div_mod::lemma_mod_breakdown;
use vstd::arithmetic::power2::{lemma2_to64, lemma_pow2_pos, lemma_pow2_unfold, pow2};
use vstd::prelude::*;

verus! {

/// 1 for a set bit, 0 for a clear one.
pub open spec fn bit_value(b: bool) -> nat {
    if b {
        1
    } else {
        0
    }
}

/// The lowest `n` bits of `v`, most significant first.
pub open spec fn msb_bits(v: nat, n: nat) -> Seq<bool>
    decreases n,
{
    if n == 0 {
        seq![]
    } else {
        msb_bits(v / 2, (n - 1) as nat).push(v % 2 == 1)
    }
}

/// The number that a bit sequence spells when read most significant bit first.
pub open spec fn msb_value(bits: Seq<bool>) -> nat
    decreases bits.len(),
{
    if bits.len() == 0 {
        0
    } else {
        2 * msb_value(bits.drop_last()) + bit_value(bits.last())
    }
}

/// Reading back the lowest `n` bits of `v` gives `v` modulo `2^n`.
pub proof fn lemma_msb_value_of_bits(v: nat, n: nat)
    ensures
        msb_value(msb_bits(v, n)) == v % pow2(n),
    decreases n,
{
    if n == 0 {
        lemma2_to64();
    } else {
        let m = (n - 1) as nat;
        let rest = msb_bits(v / 2, m);
        lemma_msb_value_of_bits(v / 2, m);
        assert(msb_bits(v, n).drop_last() =~= rest);
        lemma_pow2_unfold(n);
        lemma_pow2_pos(m);
        lemma_mod_breakdown(v as int, 2, pow2(m) as int);
    }
}

/// The eight bits of `byte`, most significant first.
pub fn byte_to_bits(byte: u8) -> (bits: Vec<bool>)
    ensures
        bits@ == msb_bits(byte as nat, 8),
        bits@.len() == 8,
{
    let mut bits: Vec<bool> = vec![false; 8];
    let mut v: u8 = byte;
    let mut i: usize = 8;
    while i > 0
        invariant
            i <= 8,
            bits@.len() == 8,
            msb_bits(byte as nat, 8) == msb_bits(v as nat, i as nat) + bits@.subrange(
                i as int,
                8,
            ),
        decreases i,
    {
        let ghost old_bits = bits@;
        let ghost old_v = v;
        i = i - 1;
        bits[i] = v % 2 == 1;
        v = v / 2;
        assert(bits@.subrange(i as int, 8) =~= seq![old_v % 2 == 1] + old_bits.subrange(
            i + 1,
            8,
        ));
        assert(msb_bits(old_v as nat, (i + 1) as nat) == msb_bits(v as nat, i as nat).push(
            old_v % 2 == 1,
        ));
        assert(msb_bits(v as nat, i as nat) + bits@.subrange(i as int, 8) =~= msb_bits(
            v as nat,
            i as nat,
        ).push(old_v % 2 == 1) + old_bits.subrange(i + 1, 8));
    }
    assert(bits@.subrange(0, 8) =~= bits@);
    assert(msb_bits(v as nat, 0) + bits@ =~= bits@);
    bits
}

/// The byte that the last eight bits of `bits` spell, most significant first;
/// earlier bits shift out of the result.
pub fn bits_to_byte(bits: &[bool]) -> (byte: u8)
    ensures
        byte == msb_value(bits@) % 256,
{
    let mut acc: u8 = 0;
    let mut i: usize = 0;
    while i < bits.len()
        invariant
            i <= bits@.len(),
            acc == msb_value(bits@.take(i as int)) % 256,
        decreases bits@.len() - i,
    {
        let b: u8 = if bits[i] {
            1
        } else {
            0
        };
        let ghost m = msb_value(bits@.take(i as int));
        assert(bits@.take(i + 1).drop_last() =~= bits@.take(i as int));
        assert(msb_value(bits@.take(i + 1)) == 2 * m + b);
        proof {
            lemma_shift_in_bit(m, b as nat);
        }
        acc = (acc % 128) * 2 + b;
        i = i + 1;
    }
    assert(bits@.take(bits@.len() as int) =~= bits@);
    acc
}

/// Shifting a bit into a byte keeps the byte's low seven bits.
proof fn lemma_shift_in_bit(m: nat, b: nat)
    requires
        b <= 1,
    ensures
        (2 * m + b) % 256 == ((m % 256) % 128) * 2 + b,
{
    lemma_mod_breakdown(m as int, 128, 2);
    lemma_mod_breakdown((2 * m + b) as int, 2, 128);
}

/// Reading back the eight bits of a byte, most significant first, gives the byte.
pub proof fn lemma_byte_bits_round_trip(byte: u8)
    ensures
        msb_value(msb_bits(byte as nat, 8)) % 256 == byte,
{
    lemma_msb_value_of_bits(byte as nat, 8);
    lemma2_to64();
}

} // verus!

//! Character framing: the bitstream that carries a payload, and the check that
//! reads one ten-bit character frame back.
use crate::modem::bit_value;
use vstd::prelude::*;

verus! {

/// Bits on the wire for one byte: start bit, eight data bits, stop bit.
pub const BITS_PER_CHARACTER: usize = 10;

/// Mark bits sent ahead of the first character so that the receiving audio
/// path can settle.
pub const LEADER_TONE_BITS: usize = 50;

/// Mark bits sent after the last character so that its stop bit is fully
/// played before the line falls silent.
pub const TRAILER_BITS: usize = 10;

/// The lowest `n` bits of `v`, least significant first.
pub open spec fn lsb_bits(v: nat, n: nat) -> Seq<bool>
    decreases n,
{
    if n == 0 {
        seq![]
    } else {
        seq![v % 2 == 1] + lsb_bits(v / 2, (n - 1) as nat)
    }
}

/// The number that a bit sequence spells when read least significant bit first.
pub open spec fn lsb_value(bits: Seq<bool>) -> nat
    decreases bits.len(),
{
    if bits.len() == 0 {
        0
    } else {
        bit_value(bits[0]) + 2 * lsb_value(bits.drop_first())
    }
}

/// A run of `n` mark bits.
pub open spec fn mark_run(n: nat) -> Seq<bool> {
    Seq::new(n, |i: int| true)
}

/// The frame of one byte: a space start bit, the data bits least significant
/// first, a mark stop bit.
pub open spec fn character_frame(byte: u8) -> Seq<bool> {
    seq![false] + lsb_bits(byte as nat, 8) + seq![true]
}

/// The frames of a payload, one after the other.
pub open spec fn frames_of(payload: Seq<u8>) -> Seq<bool>
    decreases payload.len(),
{
    if payload.len() == 0 {
        seq![]
    } else {
        frames_of(payload.drop_last()) + character_frame(payload.last())
    }
}

/// The whole transmission of a payload: leader, frames, trailer.
pub open spec fn transmission_bits(payload: Seq<u8>) -> Seq<bool> {
    mark_run(LEADER_TONE_BITS as nat) + frames_of(payload) + mark_run(TRAILER_BITS as nat)
}

/// What a window of bits reads as: the data byte when it is ten bits long,
/// starts with a space and ends with a mark; nothing otherwise.
pub open spec fn frame_reading(bits: Seq<bool>) -> Option<u8> {
    if bits.len() == BITS_PER_CHARACTER && !bits[0] && bits[9] {
        Some(lsb_value(bits.subrange(1, 9)) as u8)
    } else {
        None
    }
}

pub proof fn lemma_lsb_bits_len(v: nat, n: nat)
    ensures
        lsb_bits(v, n).len() == n,
    decreases n,
{
    if n > 0 {
        lemma_lsb_bits_len(v / 2, (n - 1) as nat);
    }
}

proof fn lemma_lsb_value_bound(bits: Seq<bool>)
    ensures
        bits.len() == 8 ==> lsb_value(bits) < 256,
        bits.len() <= 8 ==> lsb_value(bits) < vstd::arithmetic::power2::pow2(bits.len()),
    decreases bits.len(),
{
    vstd::arithmetic::power2::lemma2_to64();
    if bits.len() > 0 {
        lemma_lsb_value_bound(bits.drop_first());
        vstd::arithmetic::power2::lemma_pow2_unfold(bits.len());
    }
}

/// Reading back the lowest `n` bits of `v`, least significant first, gives
/// `v` modulo `2^n`.
pub proof fn lemma_lsb_value_of_bits(v: nat, n: nat)
    ensures
        lsb_value(lsb_bits(v, n)) == v % vstd::arithmetic::power2::pow2(n),
    decreases n,
{
    vstd::arithmetic::power2::lemma2_to64();
    if n > 0 {
        let m = (n - 1) as nat;
        lemma_lsb_value_of_bits(v / 2, m);
        assert(lsb_bits(v, n).drop_first() =~= lsb_bits(v / 2, m));
        vstd::arithmetic::power2::lemma_pow2_unfold(n);
        vstd::arithmetic::power2::lemma_pow2_pos(m);
        vstd::arithmetic::div_mod::lemma_mod_breakdown(
            v as int,
            2,
            vstd::arithmetic::power2::pow2(m) as int,
        );
    }
}

/// Appends the frame of `byte` to `bits`.
pub fn push_character_frame(bits: &mut Vec<bool>, byte: u8)
    ensures
        final(bits)@ == old(bits)@ + character_frame(byte),
{
    let ghost start = bits@;
    bits.push(false);
    let mut v: u8 = byte;
    let mut i: usize = 0;
    while i < 8
        invariant
            i <= 8,
            bits@ + lsb_bits(v as nat, (8 - i) as nat) == start + seq![false] + lsb_bits(
                byte as nat,
                8,
            ),
        decreases 8 - i,
    {
        let ghost before = bits@;
        let ghost old_v = v;
        bits.push(v % 2 == 1);
        v = v / 2;
        i = i + 1;
        assert(lsb_bits(old_v as nat, (8 - i + 1) as nat) == seq![old_v % 2 == 1] + lsb_bits(
            v as nat,
            (8 - i) as nat,
        ));
        assert(bits@ + lsb_bits(v as nat, (8 - i) as nat) =~= before + lsb_bits(
            old_v as nat,
            (8 - i + 1) as nat,
        ));
    }
    assert(bits@ + lsb_bits(v as nat, 0) =~= bits@);
    bits.push(true);
    assert(bits@ =~= start + character_frame(byte));
}

/// The bitstream that carries `payload`: the leader tone, one frame per byte in
/// order, then the trailer.
pub fn encode_bits(payload: &[u8]) -> (bits: Vec<bool>)
    ensures
        bits@ == transmission_bits(payload@),
{
    let mut bits: Vec<bool> = Vec::new();
    let mut k: usize = 0;
    while k < LEADER_TONE_BITS
        invariant
            k <= LEADER_TONE_BITS,
            bits@ == mark_run(k as nat),
        decreases LEADER_TONE_BITS - k,
    {
        bits.push(true);
        k = k + 1;
        assert(bits@ =~= mark_run(k as nat));
    }
    let mut i: usize = 0;
    while i < payload.len()
        invariant
            i <= payload@.len(),
            bits@ == mark_run(LEADER_TONE_BITS as nat) + frames_of(payload@.take(i as int)),
        decreases payload@.len() - i,
    {
        push_character_frame(&mut bits, payload[i]);
        assert(payload@.take(i + 1).drop_last() =~= payload@.take(i as int));
        i = i + 1;
        assert(bits@ =~= mark_run(LEADER_TONE_BITS as nat) + frames_of(payload@.take(i as int)));
    }
    assert(payload@.take(payload@.len() as int) =~= payload@);
    let ghost framed = bits@;
    let mut t: usize = 0;
    while t < TRAILER_BITS
        invariant
            t <= TRAILER_BITS,
            bits@ == framed + mark_run(t as nat),
        decreases TRAILER_BITS - t,
    {
        bits.push(true);
        t = t + 1;
        assert(bits@ =~= framed + mark_run(t as nat));
    }
    bits
}

/// Reads one character frame: `Some(byte)` when `bits` is ten bits long with a
/// space start bit and a mark stop bit, the byte taken from the eight bits
/// between them, least significant first; `None` otherwise.
pub fn decode_character(bits: &[bool]) -> (byte: Option<u8>)
    ensures
        byte == frame_reading(bits@),
{
    if bits.len() != BITS_PER_CHARACTER || bits[0] || !bits[9] {
        return None;
    }
    let ghost data = bits@.subrange(1, 9);
    let mut acc: u8 = 0;
    let mut j: usize = 9;
    while j > 1
        invariant
            1 <= j <= 9,
            bits@.len() == BITS_PER_CHARACTER,
            data == bits@.subrange(1, 9),
            acc as nat == lsb_value(bits@.subrange(j as int, 9)),
        decreases j,
    {
        j = j - 1;
        assert(bits@.subrange(j as int, 9).drop_first() =~= bits@.subrange(j + 1, 9));
        proof {
            lemma_lsb_value_bound(bits@.subrange(j as int, 9));
            vstd::arithmetic::power2::lemma2_to64();
            vstd::arithmetic::power2::lemma_pow2_unfold((9 - j) as nat);
        }
        let b: u8 = if bits[j] {
            1
        } else {
            0
        };
        acc = b + 2 * acc;
    }
    Some(acc)
}

pub proof fn lemma_frames_of_len(payload: Seq<u8>)
    ensures
        frames_of(payload).len() == BITS_PER_CHARACTER * payload.len(),
    decreases payload.len(),
{
    if payload.len() > 0 {
        lemma_frames_of_len(payload.drop_last());
        lemma_lsb_bits_len(payload.last() as nat, 8);
    }
}

/// The `i`-th ten bits of the frames of a payload are the frame of its `i`-th byte.
pub proof fn lemma_frames_of_index(payload: Seq<u8>, i: int)
    requires
        0 <= i < payload.len(),
    ensures
        frames_of(payload).subrange(
            BITS_PER_CHARACTER * i,
            BITS_PER_CHARACTER * i + BITS_PER_CHARACTER,
        ) == character_frame(payload[i]),
    decreases payload.len(),
{
    let init = payload.drop_last();
    lemma_frames_of_len(init);
    lemma_lsb_bits_len(payload.last() as nat, 8);
    if i < payload.len() - 1 {
        lemma_frames_of_index(init, i);
        assert(frames_of(payload).subrange(
            BITS_PER_CHARACTER * i,
            BITS_PER_CHARACTER * i + BITS_PER_CHARACTER,
        ) =~= frames_of(init).subrange(
            BITS_PER_CHARACTER * i,
            BITS_PER_CHARACTER * i + BITS_PER_CHARACTER,
        ));
    } else {
        assert(frames_of(payload).subrange(
            BITS_PER_CHARACTER * i,
            BITS_PER_CHARACTER * i + BITS_PER_CHARACTER,
        ) =~= character_frame(payload.last()));
    }
}

/// A transmission is as long as its leader, ten bits per byte, and its trailer.
pub proof fn lemma_transmission_len(payload: Seq<u8>)
    ensures
        transmission_bits(payload).len() == LEADER_TONE_BITS + BITS_PER_CHARACTER
            * payload.len() + TRAILER_BITS,
{
    lemma_frames_of_len(payload);
}

/// The frame of a byte reads back as that byte.
pub proof fn lemma_frame_round_trip(byte: u8)
    ensures
        frame_reading(character_frame(byte)) == Some(byte),
{
    let f = character_frame(byte);
    lemma_lsb_bits_len(byte as nat, 8);
    assert(f.subrange(1, 9) =~= lsb_bits(byte as nat, 8));
    lemma_lsb_value_of_bits(byte as nat, 8);
    vstd::arithmetic::power2::lemma2_to64();
}

/// Every byte of a payload can be read back from its transmission: the ten bits
/// that follow the leader and the frames of the bytes before it read as that byte.
pub proof fn lemma_transmission_round_trip(payload: Seq<u8>, i: int)
    requires
        0 <= i < payload.len(),
    ensures
        frame_reading(
            transmission_bits(payload).subrange(
                LEADER_TONE_BITS + BITS_PER_CHARACTER * i,
                LEADER_TONE_BITS + BITS_PER_CHARACTER * i + BITS_PER_CHARACTER,
            ),
        ) == Some(payload[i]),
{
    let leader = mark_run(LEADER_TONE_BITS as nat);
    let frames = frames_of(payload);
    lemma_frames_of_len(payload);
    lemma_frames_of_index(payload, i);
    assert(transmission_bits(payload).subrange(
        LEADER_TONE_BITS + BITS_PER_CHARACTER * i,
        LEADER_TONE_BITS + BITS_PER_CHARACTER * i + BITS_PER_CHARACTER,
    ) =~= frames.subrange(
        BITS_PER_CHARACTER * i,
        BITS_PER_CHARACTER * i + BITS_PER_CHARACTER,
    ));
    lemma_frame_round_trip(payload[i]);
}

/// A frame whose start bit is a mark, or whose stop bit is a space, is rejected
/// whatever its data bits.
pub proof fn lemma_framing_rejection(byte: u8)
    ensures
        frame_reading(seq![true] + lsb_bits(byte as nat, 8) + seq![true]) is None,
        frame_reading(seq![false] + lsb_bits(byte as nat, 8) + seq![false]) is None,
{
    lemma_lsb_bits_len(byte as nat, 8);
    let wrong_start = seq![true] + lsb_bits(byte as nat, 8) + seq![true];
    let wrong_stop = seq![false] + lsb_bits(byte as nat, 8) + seq![false];
    assert(wrong_start[0]);
    assert(!wrong_stop[9]);
}

/// No ten bits of the leader or the trailer read as a frame.
pub proof fn lemma_marks_read_as_nothing(n: nat)
    ensures
        frame_reading(mark_run(n)) is None,
{
}

} // verus!

//! Sample timing shared by the encoder and the decoder: where each bit starts,
//! how long a character frame is, and how wide the frame search looks.
use vstd::prelude::*;

verus! {

/// Sample rate of the default configuration, in Hz.
pub const DEFAULT_SAMPLE_RATE: u32 = 48000;

/// Baud rate of the default configuration.
pub const DEFAULT_BAUD_RATE: u32 = 300;

/// Why a configuration cannot be used.
#[derive(Debug, Clone, Copy, PartialEq, Eq, Structural)]
pub enum ConfigError {
    /// The sample rate is zero.
    ZeroSampleRate,
    /// The baud rate is zero.
    ZeroBaudRate,
    /// A bit would last fewer than two samples.
    TooFewSamplesPerBit,
    /// The confidence threshold is zero, which every window would reach.
    ZeroThreshold,
}

/// `x / y` rounded to the nearest integer, halves rounded up.
pub open spec fn round_div(x: int, y: int) -> int
    recommends
        y > 0,
{
    (2 * x + y) / (2 * y)
}

/// Sample rate and baud rate of a modem; a bit lasts `sample_rate / baud_rate`
/// samples, which need not be a whole number.
#[derive(Debug, Clone, Copy, PartialEq, Eq, Structural)]
pub struct Timing {
    pub sample_rate: u32,
    pub baud_rate: u32,
}

impl Timing {
    /// Both rates are positive and a bit lasts at least two samples.
    pub open spec fn wf(&self) -> bool {
        &&& self.baud_rate > 0
        &&& self.sample_rate >= 2 * self.baud_rate
    }

    /// The first sample of bit `k` of a bitstream: `k` bit times, rounded.
    pub open spec fn spec_bit_start(&self, k: nat) -> int {
        round_div(k * self.sample_rate, self.baud_rate as int)
    }

    /// Samples in one character frame: ten bit times, rounded.
    pub open spec fn spec_samples_per_character(&self) -> int {
        self.spec_bit_start(10)
    }

    /// Frame offsets tried per search: half a bit time while tracking, one and
    /// a half while searching, rounded.
    pub open spec fn spec_search_window(&self, tracking: bool) -> int {
        if tracking {
            round_div(self.sample_rate as int, 2 * self.baud_rate)
        } else {
            round_div(3 * self.sample_rate, 2 * self.baud_rate)
        }
    }

    /// The outcome of checking a pair of rates: the sample rate first, then
    /// the baud rate, then that a bit lasts at least two samples.
    pub open spec fn spec_new(sample_rate: u32, baud_rate: u32) -> Result<Timing, ConfigError> {
        if sample_rate == 0 {
            Err(ConfigError::ZeroSampleRate)
        } else if baud_rate == 0 {
            Err(ConfigError::ZeroBaudRate)
        } else if sample_rate < 2 * baud_rate {
            Err(ConfigError::TooFewSamplesPerBit)
        } else {
            Ok(Timing { sample_rate, baud_rate })
        }
    }

    /// Checks a pair of rates.
    pub fn new(sample_rate: u32, baud_rate: u32) -> (r: Result<Timing, ConfigError>)
        ensures
            r == Timing::spec_new(sample_rate, baud_rate),
            r matches Ok(t) ==> t.wf(),
    {
        if sample_rate == 0 {
            Err(ConfigError::ZeroSampleRate)
        } else if baud_rate == 0 {
            Err(ConfigError::ZeroBaudRate)
        } else if (sample_rate as u64) < 2 * (baud_rate as u64) {
            Err(ConfigError::TooFewSamplesPerBit)
        } else {
            Ok(Timing { sample_rate, baud_rate })
        }
    }

    /// The default timing: 48 kHz, 300 baud, 160 samples per bit.
    pub fn defaults() -> (t: Timing)
        ensures
            t == (Timing { sample_rate: DEFAULT_SAMPLE_RATE, baud_rate: DEFAULT_BAUD_RATE }),
            t.wf(),
    {
        Timing { sample_rate: DEFAULT_SAMPLE_RATE, baud_rate: DEFAULT_BAUD_RATE }
    }

    /// The first sample of bit `k` of a bitstream.
    pub fn bit_start(&self, k: u64) -> (start: u64)
        requires
            self.wf(),
            k <= 0x7fff_ffff,
        ensures
            start == self.spec_bit_start(k as nat),
    {
        assert(2 * (k * (self.sample_rate as u64)) + (self.baud_rate as u64) <= u64::MAX) by (
        nonlinear_arith)
            requires
                k <= 0x7fff_ffff,
                self.sample_rate <= 0xffff_ffff,
                self.baud_rate <= 0xffff_ffff,
        ;
        let num: u64 = 2 * (k * (self.sample_rate as u64)) + (self.baud_rate as u64);
        num / (2 * (self.baud_rate as u64))
    }

    /// Samples in one character frame.
    pub fn samples_per_character(&self) -> (n: u64)
        requires
            self.wf(),
        ensures
            n == self.spec_samples_per_character(),
    {
        self.bit_start(10)
    }

    /// Frame offsets tried per search, narrow while tracking.
    pub fn search_window(&self, tracking: bool) -> (n: u64)
        requires
            self.wf(),
        ensures
            n == self.spec_search_window(tracking),
    {
        let sr = self.sample_rate as u64;
        let baud = self.baud_rate as u64;
        if tracking {
            (2 * sr + 2 * baud) / (4 * baud)
        } else {
            (6 * sr + 2 * baud) / (4 * baud)
        }
    }

    /// Start and end (exclusive) of bit slot `i` of a character frame, counted
    /// from the frame's first sample.
    pub fn bit_slot(&self, i: u64) -> (slot: (u64, u64))
        requires
            self.wf(),
            i < 10,
        ensures
            slot.0 == self.spec_bit_start(i as nat),
            slot.1 == self.spec_bit_start(i as nat + 1),
            slot.0 + 2 <= slot.1,
            slot.1 <= self.spec_samples_per_character(),
    {
        proof {
            self.lemma_bit_start_steps(i as nat, (i + 1) as nat);
            self.lemma_bit_start_steps((i + 1) as nat, 10);
        }
        (self.bit_start(i), self.bit_start(i + 1))
    }

    /// Bits start at least two samples apart, so no bit slot is empty.
    pub proof fn lemma_bit_start_steps(&self, j: nat, k: nat)
        requires
            self.wf(),
            j <= k,
        ensures
            self.spec_bit_start(j) + 2 * (k - j) <= self.spec_bit_start(k),
    {
        let sr = self.sample_rate as int;
        let b = self.baud_rate as int;
        let d = (k - j) as int;
        let x = 2 * (j * sr) + b;
        let y = 2 * (k * sr) + b;
        assert(y >= x + (2 * d) * (2 * b)) by (nonlinear_arith)
            requires
                sr >= 2 * b,
                d == k - j,
                d >= 0,
                b > 0,
                x == 2 * (j * sr) + b,
                y == 2 * (k * sr) + b,
        ;
        vstd::arithmetic::div_mod::lemma_div_is_ordered(x + (2 * d) * (2 * b), y, 2 * b);
        vstd::arithmetic::div_mod::lemma_hoist_over_denominator(x, 2 * d, (2 * b) as nat);
    }

    /// Both search windows hold at least one offset.
    pub proof fn lemma_search_window_positive(&self, tracking: bool)
        requires
            self.wf(),
        ensures
            self.spec_search_window(tracking) >= 1,
    {
        let sr = self.sample_rate as int;
        let b = self.baud_rate as int;
        vstd::arithmetic::div_mod::lemma_div_is_ordered(4 * b, 2 * sr + 2 * b, 4 * b);
        vstd::arithmetic::div_mod::lemma_div_is_ordered(4 * b, 6 * sr + 2 * b, 4 * b);
        vstd::arithmetic::div_mod::lemma_div_by_self(4 * b);
    }
}

} // verus!

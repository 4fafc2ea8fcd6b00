//! A low-frequency oscillator with continuous phase.
//!
//! Phase is a fraction of one full cycle, scaled by [`PHASE_ONE`], so it
//! wraps exactly at the cycle boundary and never loses precision, however
//! long the oscillator runs. The waveform is a smooth piecewise parabola
//! through the same points as a sine — zero at phase `0` and half a cycle,
//! `+1` at a quarter, `-1` at three quarters — and stays in `[-1, 1]`.

use vstd::prelude::*;
use vstd::arithmetic::div_mod::{lemma_div_is_ordered, lemma_div_multiples_vanish, lemma_div_pos_is_pos};
use vstd::arithmetic::mul::{lemma_mul_inequality, lemma_mul_upper_bound};
use crate::fixed::FP_ONE;

verus! {

/// The phase scale: this integer stands for one full cycle.
pub const PHASE_ONE: u64 = 0x1_0000_0000;

/// Half a cycle.
pub const PHASE_HALF: u64 = 0x8000_0000;

/// Divisor turning the parabola's peak `(PHASE_HALF/2)^2` into `FP_ONE`.
pub const WAVE_DIV: u64 = 0x1000_0000;

/// The waveform value at a given phase, scaled by `FP_ONE`: a parabola rising
/// from `0` to `FP_ONE` and back over the first half cycle, mirrored below
/// zero over the second half.
pub open spec fn wave(phase: int) -> int {
    if phase < PHASE_HALF as int {
        (phase * (PHASE_HALF as int - phase)) / (WAVE_DIV as int)
    } else {
        -(((phase - PHASE_HALF as int) * (PHASE_ONE as int - phase)) / (WAVE_DIV as int))
    }
}

/// The phase advance per sample for a given frequency: `freq / rate` cycles,
/// scaled by `PHASE_ONE` and reduced modulo one cycle (frequencies at or
/// above the sample rate alias, as sampling always makes them).
pub open spec fn phase_increment(freq: int, rate: int) -> int {
    ((freq * PHASE_ONE as int) / rate) % PHASE_ONE as int
}

/// Over `0 <= t <= 2q`, the parabola `t * (2q - t)` stays within `[0, q*q]`.
proof fn lemma_parabola_bound(t: int, h: int, q: int)
    by (nonlinear_arith)
    requires
        0 <= t <= h,
        h == 2 * q,
    ensures
        0 <= t * (h - t) <= q * q,
{
}

/// The waveform is bounded by one in either direction.
pub proof fn lemma_wave_bounded(phase: int)
    requires
        0 <= phase < PHASE_ONE,
    ensures
        -(FP_ONE as int) <= wave(phase) <= FP_ONE as int,
{
    let d = WAVE_DIV as int;
    if phase < PHASE_HALF as int {
        let p = phase * (PHASE_HALF as int - phase);
        lemma_parabola_bound(phase, PHASE_HALF as int, 0x4000_0000);
        lemma_div_pos_is_pos(p, d);
        lemma_div_is_ordered(p, 0x4000_0000int * 0x4000_0000int, d);
        lemma_div_multiples_vanish(FP_ONE as int, d);
    } else {
        let p = (phase - PHASE_HALF as int) * (PHASE_ONE as int - phase);
        lemma_parabola_bound(phase - PHASE_HALF as int, PHASE_HALF as int, 0x4000_0000);
        lemma_div_pos_is_pos(p, d);
        lemma_div_is_ordered(p, 0x4000_0000int * 0x4000_0000int, d);
        lemma_div_multiples_vanish(FP_ONE as int, d);
    }
}

/// Periodic waveform generator; one scalar per call, phase carried across
/// calls.
pub struct Lfo {
    phase: u64,
    inc: u64,
}

impl Lfo {
    /// The current phase, in `[0, PHASE_ONE)`.
    pub closed spec fn phase(self) -> int {
        self.phase as int
    }

    /// The fixed per-sample phase advance, in `[0, PHASE_ONE)`.
    pub closed spec fn inc(self) -> int {
        self.inc as int
    }

    /// Structural invariant: phase and increment both reduced modulo one
    /// cycle.
    pub open spec fn wf(self) -> bool {
        &&& 0 <= self.phase() < PHASE_ONE
        &&& 0 <= self.inc() < PHASE_ONE
    }

    /// A fresh oscillator at phase zero. A frequency of zero gives a phase
    /// increment of zero, hence a constant waveform — documented behaviour,
    /// not a failure.
    pub fn new(sample_rate: u64, freq_hz: u64) -> (o: Lfo)
        requires
            1 <= sample_rate,
        ensures
            o.wf(),
            o.phase() == 0,
            o.inc() == phase_increment(freq_hz as int, sample_rate as int),
    {
        proof {
            lemma_mul_inequality(freq_hz as int, u64::MAX as int, PHASE_ONE as int);
        }
        let scaled: u128 = (freq_hz as u128) * (PHASE_ONE as u128);
        let inc: u64 = ((scaled / (sample_rate as u128)) % (PHASE_ONE as u128)) as u64;
        Lfo { phase: 0, inc }
    }

    /// Returns the waveform value at the current phase, then advances the
    /// phase by one sample, wrapping at the cycle boundary.
    pub fn next(&mut self) -> (m: i64)
        requires
            old(self).wf(),
        ensures
            final(self).wf(),
            final(self).inc() == old(self).inc(),
            final(self).phase() == (old(self).phase() + old(self).inc()) % PHASE_ONE as int,
            m as int == wave(old(self).phase()),
            -(FP_ONE as int) <= m as int <= FP_ONE as int,
    {
        proof {
            lemma_wave_bounded(self.phase as int);
        }
        let m = wave_exec(self.phase);
        self.phase = (self.phase + self.inc) % PHASE_ONE;
        m
    }
}

/// Computes [`wave`] exactly in machine integers.
fn wave_exec(phase: u64) -> (m: i64)
    requires
        phase < PHASE_ONE,
    ensures
        m as int == wave(phase as int),
{
    proof {
        lemma_wave_bounded(phase as int);
    }
    if phase < PHASE_HALF {
        proof {
            lemma_mul_upper_bound(phase as int, PHASE_HALF as int,
                PHASE_HALF as int - phase as int, PHASE_HALF as int);
        }
        let p: u64 = phase * (PHASE_HALF - phase);
        (p / WAVE_DIV) as i64
    } else {
        proof {
            lemma_mul_upper_bound(phase as int - PHASE_HALF as int, PHASE_HALF as int,
                PHASE_ONE as int - phase as int, PHASE_HALF as int);
        }
        let p: u64 = (phase - PHASE_HALF) * (PHASE_ONE - phase);
        -((p / WAVE_DIV) as i64)
    }
}

} // verus!

//! The vibrato processor: a delay line read through a modulated delay.
//!
//! For each input sample the processor asks the oscillator for the next
//! waveform value `m`, turns it into an instantaneous delay
//! `delay_samples + depth_samples * m` (clamped into the window the delay
//! line can serve), writes the input sample, and emits the interpolated read
//! at that delay. The whole behaviour of [`Vibrato::process`] is the spec
//! function [`run`], a fold of the one-sample step over the input block, so
//! state carries across calls of any block size.

use vstd::prelude::*;
use vstd::arithmetic::mul::lemma_mul_nonnegative;
use crate::fixed::{FP_ONE, MAX_CAPACITY, lerp};
use crate::delay_line::DelayLine;
use crate::lfo::{Lfo, PHASE_ONE, wave, phase_increment};

verus! {

/// `x` forced into `[lo, hi]`.
pub open spec fn clamp(x: int, lo: int, hi: int) -> int {
    if x < lo {
        lo
    } else if x > hi {
        hi
    } else {
        x
    }
}

/// The instantaneous read delay for one sample, scaled by `FP_ONE`: base
/// delay plus depth times the waveform value at the current phase, clamped
/// defensively into what a line of `cap` slots can serve with an
/// interpolation neighbour.
pub open spec fn step_delay(delay: int, depth: int, phase: int, cap: int) -> int {
    clamp(delay * FP_ONE as int + depth * wave(phase), 0, (cap - 2) * FP_ONE as int)
}

/// The delay-line history after one write: the new sample in front, the
/// oldest slot gone.
pub open spec fn step_hist(hist: Seq<int>, x: int) -> Seq<int> {
    seq![x].add(hist.drop_last())
}

/// The oscillator phase after one sample.
pub open spec fn step_phase(phase: int, inc: int) -> int {
    (phase + inc) % PHASE_ONE as int
}

/// The output sample of one step: write `x`, then read the interpolated
/// sample at the instantaneous delay.
pub open spec fn step_out(delay: int, depth: int, hist: Seq<int>, phase: int, x: int) -> int {
    let d = step_delay(delay, depth, phase, hist.len() as int);
    let h = step_hist(hist, x);
    lerp(h[d / FP_ONE as int], h[d / FP_ONE as int + 1], d % FP_ONE as int)
}

/// The whole processor, as a function: folds the one-sample step over an
/// input block, returning the outputs, the final history and the final
/// phase. `delay` and `depth` are sample counts, `depth` scaled by the
/// waveform's `FP_ONE`; `inc` is the per-sample phase advance.
pub open spec fn run(
    delay: int,
    depth: int,
    inc: int,
    hist: Seq<int>,
    phase: int,
    input: Seq<int>,
) -> (Seq<int>, Seq<int>, int)
    decreases input.len(),
{
    if input.len() == 0 {
        (Seq::<int>::empty(), hist, phase)
    } else {
        let y = step_out(delay, depth, hist, phase, input[0]);
        let rest = run(delay, depth, inc, step_hist(hist, input[0]), step_phase(phase, inc),
            input.drop_first());
        (seq![y].add(rest.0), rest.1, rest.2)
    }
}

/// A sequence of machine samples as mathematical integers.
pub open spec fn to_ints(s: Seq<i64>) -> Seq<int> {
    s.map_values(|v: i64| v as int)
}

/// Running a block is the same as running its first `n` samples and then
/// one more: the step that `run` folds in from the front can also be peeled
/// off at the back.
pub proof fn lemma_run_snoc(
    delay: int,
    depth: int,
    inc: int,
    hist: Seq<int>,
    phase: int,
    s: Seq<int>,
    x: int,
)
    ensures
        ({
            let r = run(delay, depth, inc, hist, phase, s);
            let full = run(delay, depth, inc, hist, phase, s.push(x));
            &&& full.0 == r.0.push(step_out(delay, depth, r.1, r.2, x))
            &&& full.1 == step_hist(r.1, x)
            &&& full.2 == step_phase(r.2, inc)
        }),
    decreases s.len(),
{
    reveal_with_fuel(run, 2);
    let r = run(delay, depth, inc, hist, phase, s);
    let full = run(delay, depth, inc, hist, phase, s.push(x));
    if s.len() == 0 {
        assert(s.push(x)[0] == x);
        assert(s.push(x).drop_first() =~= Seq::<int>::empty());
        assert(full.0 =~= r.0.push(step_out(delay, depth, hist, phase, x)));
    } else {
        assert(s.push(x)[0] == s[0]);
        assert(s.push(x).drop_first() =~= s.drop_first().push(x));
        lemma_run_snoc(delay, depth, inc, step_hist(hist, s[0]), step_phase(phase, inc),
            s.drop_first(), x);
        assert(full.0 =~= r.0.push(step_out(delay, depth, r.1, r.2, x)));
    }
}

/// Multiplying magnitudes bounds the product in both directions.
proof fn lemma_mul_range(x: int, bx: int, y: int, by: int)
    by (nonlinear_arith)
    requires
        0 <= x <= bx,
        -by <= y <= by,
        0 <= by,
    ensures
        -(bx * by) <= x * y <= bx * by,
{
}

/// A stateful vibrato effect: one delay line, one oscillator, and the two
/// configured sample counts. State persists across calls to [`Self::process`],
/// so a stream may be handed over in blocks of any sizes.
pub struct Vibrato {
    line: DelayLine,
    osc: Lfo,
    delay_samples: u64,
    depth_samples: u64,
}

impl Vibrato {
    /// The base delay, in samples.
    pub closed spec fn delay_samples(self) -> int {
        self.delay_samples as int
    }

    /// The modulation depth, in samples.
    pub closed spec fn depth_samples(self) -> int {
        self.depth_samples as int
    }

    /// The delay line's history, newest first.
    pub closed spec fn hist(self) -> Seq<int> {
        self.line@
    }

    /// The oscillator's current phase.
    pub closed spec fn phase(self) -> int {
        self.osc.phase()
    }

    /// The oscillator's per-sample phase advance.
    pub closed spec fn inc(self) -> int {
        self.osc.inc()
    }

    /// The delay line's capacity.
    pub open spec fn capacity(self) -> int {
        self.hist().len() as int
    }

    /// Structural invariant: both parts well formed, and the line sized for
    /// the worst-case modulated delay plus the interpolation margin.
    pub closed spec fn wf(self) -> bool {
        &&& self.line.wf()
        &&& self.osc.wf()
        &&& self.line.capacity() == self.delay_samples + self.depth_samples + 2
    }

    /// A processor from sample counts: base delay and modulation depth both
    /// given in samples. The delay line is sized to
    /// `delay_samples + depth_samples + 2`: enough for the deepest modulated
    /// delay and the interpolation neighbour beside it.
    pub fn with_sample_counts(
        sample_rate: u64,
        mod_freq_hz: u64,
        depth_samples: u64,
        delay_samples: u64,
    ) -> (v: Vibrato)
        requires
            1 <= sample_rate,
            delay_samples + depth_samples + 2 <= MAX_CAPACITY,
        ensures
            v.wf(),
            v.delay_samples() == delay_samples,
            v.depth_samples() == depth_samples,
            v.capacity() == delay_samples + depth_samples + 2,
            v.hist() =~= Seq::new((delay_samples + depth_samples + 2) as nat, |k: int| 0int),
            v.phase() == 0,
            v.inc() == phase_increment(mod_freq_hz as int, sample_rate as int),
    {
        let cap: usize = (delay_samples + depth_samples) as usize + 2;
        Vibrato {
            line: DelayLine::new(cap),
            osc: Lfo::new(sample_rate, mod_freq_hz),
            delay_samples,
            depth_samples,
        }
    }

    /// A processor from whole-second times: modulation depth and base delay
    /// are converted to sample counts by the sample rate.
    pub fn new(
        sample_rate: u64,
        mod_freq_hz: u64,
        mod_depth_secs: u64,
        delay_secs: u64,
    ) -> (v: Vibrato)
        requires
            1 <= sample_rate,
            delay_secs * sample_rate + mod_depth_secs * sample_rate + 2 <= MAX_CAPACITY,
        ensures
            v.wf(),
            v.delay_samples() == delay_secs * sample_rate,
            v.depth_samples() == mod_depth_secs * sample_rate,
            v.capacity() == delay_secs * sample_rate + mod_depth_secs * sample_rate + 2,
            v.hist() =~= Seq::new((delay_secs * sample_rate + mod_depth_secs * sample_rate
                + 2) as nat, |k: int| 0int),
            v.phase() == 0,
            v.inc() == phase_increment(mod_freq_hz as int, sample_rate as int),
    {
        proof {
            lemma_mul_nonnegative(delay_secs as int, sample_rate as int);
            lemma_mul_nonnegative(mod_depth_secs as int, sample_rate as int);
        }
        let depth_samples = mod_depth_secs * sample_rate;
        let delay_samples = delay_secs * sample_rate;
        Self::with_sample_counts(sample_rate, mod_freq_hz, depth_samples, delay_samples)
    }

    /// Processes one sample: advance the oscillator, compute and clamp the
    /// instantaneous delay, write the input, read the interpolated output.
    pub fn process_one(&mut self, x: i64) -> (y: i64)
        requires
            old(self).wf(),
        ensures
            final(self).wf(),
            final(self).delay_samples() == old(self).delay_samples(),
            final(self).depth_samples() == old(self).depth_samples(),
            final(self).inc() == old(self).inc(),
            final(self).capacity() == old(self).capacity(),
            y as int == step_out(old(self).delay_samples(), old(self).depth_samples(),
                old(self).hist(), old(self).phase(), x as int),
            final(self).hist() == step_hist(old(self).hist(), x as int),
            final(self).phase() == step_phase(old(self).phase(), old(self).inc()),
    {
        let m: i64 = self.osc.next();
        proof {
            lemma_mul_range(self.delay_samples as int, MAX_CAPACITY as int,
                FP_ONE as int, FP_ONE as int);
            lemma_mul_range(self.depth_samples as int, MAX_CAPACITY as int,
                m as int, FP_ONE as int);
            lemma_mul_range(self.delay_samples as int + self.depth_samples as int,
                MAX_CAPACITY as int, FP_ONE as int, FP_ONE as int);
        }
        let target: i128 = (self.delay_samples as i128) * (FP_ONE as i128)
            + (self.depth_samples as i128) * (m as i128);
        let hi: i128 = ((self.delay_samples + self.depth_samples) as i128) * (FP_ONE as i128);
        let d: i128 = if target < 0 {
            0
        } else if target > hi {
            hi
        } else {
            target
        };
        self.line.write(x);
        self.line.read_interpolated(d as u128)
    }

    /// Processes a block: one output sample per input sample, in order. The
    /// result is exactly [`run`] applied to the state the processor was in,
    /// so chunking a stream into blocks of any sizes cannot change it.
    pub fn process(&mut self, input: &Vec<i64>) -> (out: Vec<i64>)
        requires
            old(self).wf(),
        ensures
            final(self).wf(),
            final(self).delay_samples() == old(self).delay_samples(),
            final(self).depth_samples() == old(self).depth_samples(),
            final(self).inc() == old(self).inc(),
            final(self).capacity() == old(self).capacity(),
            out@.len() == input@.len(),
            to_ints(out@) == run(old(self).delay_samples(), old(self).depth_samples(),
                old(self).inc(), old(self).hist(), old(self).phase(), to_ints(input@)).0,
            final(self).hist() == run(old(self).delay_samples(), old(self).depth_samples(),
                old(self).inc(), old(self).hist(), old(self).phase(), to_ints(input@)).1,
            final(self).phase() == run(old(self).delay_samples(), old(self).depth_samples(),
                old(self).inc(), old(self).hist(), old(self).phase(), to_ints(input@)).2,
    {
        let ghost dl = self.delay_samples();
        let ghost dp = self.depth_samples();
        let ghost inc0 = self.inc();
        let ghost h0 = self.hist();
        let ghost p0 = self.phase();
        let ghost ins = to_ints(input@);
        let mut out: Vec<i64> = Vec::new();
        let mut i: usize = 0;
        while i < input.len()
            invariant
                self.wf(),
                i <= input.len(),
                out.len() == i,
                self.delay_samples() == dl,
                self.depth_samples() == dp,
                self.inc() == inc0,
                ins == to_ints(input@),
                ins.len() == input.len(),
                to_ints(out@) == run(dl, dp, inc0, h0, p0, ins.take(i as int)).0,
                self.hist() == run(dl, dp, inc0, h0, p0, ins.take(i as int)).1,
                self.phase() == run(dl, dp, inc0, h0, p0, ins.take(i as int)).2,
            decreases input.len() - i,
        {
            let ghost out_pre = out@;
            let x = input[i];
            let y = self.process_one(x);
            out.push(y);
            proof {
                lemma_run_snoc(dl, dp, inc0, h0, p0, ins.take(i as int), ins[i as int]);
                assert(ins.take(i + 1 as int) =~= ins.take(i as int).push(ins[i as int]));
                assert(to_ints(out@) =~= to_ints(out_pre).push(y as int));
            }
            i = i + 1;
        }
        proof {
            assert(ins.take(input.len() as int) =~= ins);
        }
        out
    }
}

} // verus!

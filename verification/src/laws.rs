//! The general laws of the processor, proved of [`run`].
//!
//! [`Vibrato::process`](crate::vibrato::Vibrato::process) returns exactly
//! what `run` says, so everything proved here holds of the executable
//! processor as well.

use vstd::prelude::*;
use vstd::arithmetic::div_mod::{lemma_div_is_ordered, lemma_div_multiples_vanish, lemma_div_pos_is_pos, lemma_mod_multiples_basic, lemma_remainder_lower, lemma_remainder_upper};
use vstd::arithmetic::mul::lemma_mul_nonnegative;
use crate::fixed::{FP_ONE, lemma_lerp_const, lemma_lerp_frac_zero, lemma_lerp_range};
use crate::vibrato::{run, step_delay, step_hist, step_phase};

verus! {

/// Length preservation: a run produces exactly one output sample per input
/// sample, whatever the state.
pub proof fn lemma_run_length(
    delay: int,
    depth: int,
    inc: int,
    hist: Seq<int>,
    phase: int,
    input: Seq<int>,
)
    ensures
        run(delay, depth, inc, hist, phase, input).0.len() == input.len(),
    decreases input.len(),
{
    if input.len() > 0 {
        lemma_run_length(delay, depth, inc, step_hist(hist, input[0]),
            step_phase(phase, inc), input.drop_first());
    }
}

/// A run never changes the delay line's capacity.
pub proof fn lemma_run_hist_len(
    delay: int,
    depth: int,
    inc: int,
    hist: Seq<int>,
    phase: int,
    input: Seq<int>,
)
    requires
        1 <= hist.len(),
    ensures
        run(delay, depth, inc, hist, phase, input).1.len() == hist.len(),
    decreases input.len(),
{
    if input.len() > 0 {
        lemma_run_hist_len(delay, depth, inc, step_hist(hist, input[0]),
            step_phase(phase, inc), input.drop_first());
    }
}

/// Chunking invariance: running one block and then another, from the state
/// the first left behind, is the same as running their concatenation in one
/// call — outputs concatenate, and the final state agrees.
pub proof fn lemma_run_chunks(
    delay: int,
    depth: int,
    inc: int,
    hist: Seq<int>,
    phase: int,
    a: Seq<int>,
    b: Seq<int>,
)
    ensures
        ({
            let whole = run(delay, depth, inc, hist, phase, a.add(b));
            let first = run(delay, depth, inc, hist, phase, a);
            let second = run(delay, depth, inc, first.1, first.2, b);
            &&& whole.0 == first.0.add(second.0)
            &&& whole.1 == second.1
            &&& whole.2 == second.2
        }),
    decreases a.len(),
{
    reveal_with_fuel(run, 2);
    let whole = run(delay, depth, inc, hist, phase, a.add(b));
    let first = run(delay, depth, inc, hist, phase, a);
    let second = run(delay, depth, inc, first.1, first.2, b);
    if a.len() == 0 {
        assert(a.add(b) =~= b);
        assert(first.0.add(second.0) =~= second.0);
    } else {
        assert(a.add(b)[0] == a[0]);
        assert(a.add(b).drop_first() =~= a.drop_first().add(b));
        lemma_run_chunks(delay, depth, inc, step_hist(hist, a[0]), step_phase(phase, inc),
            a.drop_first(), b);
        assert(whole.0 =~= first.0.add(second.0));
    }
}

/// The instantaneous delay of one step always lies in the window the delay
/// line can serve, and splits into a whole part within `cap - 2` and a
/// fraction below one.
proof fn lemma_step_delay_bounds(delay: int, depth: int, phase: int, cap: int)
    requires
        2 <= cap,
    ensures
        ({
            let d = step_delay(delay, depth, phase, cap);
            &&& 0 <= d <= (cap - 2) * (FP_ONE as int)
            &&& 0 <= d / (FP_ONE as int) <= cap - 2
            &&& 0 <= d % (FP_ONE as int) < FP_ONE as int
        }),
{
    let fp = FP_ONE as int;
    lemma_mul_nonnegative(cap - 2, fp);
    let d = step_delay(delay, depth, phase, cap);
    lemma_div_pos_is_pos(d, fp);
    lemma_div_is_ordered(d, (cap - 2) * fp, fp);
    lemma_div_multiples_vanish(cap - 2, fp);
    assert((cap - 2) * fp == fp * (cap - 2)) by (nonlinear_arith);
    lemma_remainder_lower(d, fp);
    lemma_remainder_upper(d, fp);
}

/// Zero-depth transparency, general form: with modulation depth zero the
/// processor is a pure delay of exactly `delay` samples. Each output is the
/// input `delay` steps earlier, or, before enough input has arrived, the
/// sample that was already `delay - 1 - i` writes deep in the history.
pub proof fn lemma_run_zero_depth(
    delay: int,
    inc: int,
    hist: Seq<int>,
    phase: int,
    input: Seq<int>,
)
    requires
        2 <= hist.len(),
        0 <= delay <= hist.len() - 2,
    ensures
        run(delay, 0, inc, hist, phase, input).0.len() == input.len(),
        forall|i: int| 0 <= i < input.len()
            ==> run(delay, 0, inc, hist, phase, input).0[i]
                == (if delay <= i { input[i - delay] } else { hist[delay - 1 - i] }),
    decreases input.len(),
{
    lemma_run_length(delay, 0, inc, hist, phase, input);
    if input.len() > 0 {
        let fp = FP_ONE as int;
        let cap = hist.len() as int;
        let x = input[0];
        let h = step_hist(hist, x);
        let out = run(delay, 0, inc, hist, phase, input).0;
        let rest = run(delay, 0, inc, h, step_phase(phase, inc), input.drop_first());
        let d = step_delay(delay, 0, phase, cap);
        lemma_mul_nonnegative(delay, fp);
        assert(delay * fp <= (cap - 2) * fp) by (nonlinear_arith)
            requires delay <= cap - 2, fp > 0;
        assert(d == delay * fp);
        lemma_div_multiples_vanish(delay, fp);
        assert(delay * fp == fp * delay) by (nonlinear_arith);
        lemma_mod_multiples_basic(delay, fp);
        lemma_lerp_frac_zero(h[delay], h[delay + 1]);
        assert(out[0] == h[delay]);
        lemma_run_zero_depth(delay, inc, h, step_phase(phase, inc), input.drop_first());
        assert forall|i: int| 0 <= i < input.len() implies out[i]
            == (if delay <= i { input[i - delay] } else { hist[delay - 1 - i] }) by {
            if i == 0 {
                if delay == 0 {
                    assert(h[0] == x);
                } else {
                    assert(h[delay] == hist[delay - 1]);
                }
            } else {
                assert(out[i] == rest.0[i - 1]);
                if delay <= i - 1 {
                    assert(input.drop_first()[i - 1 - delay] == input[i - delay]);
                } else {
                    assert(rest.0[i - 1] == h[delay - i]);
                    if delay == i {
                        assert(h[0] == x);
                    } else {
                        assert(h[delay - i] == hist[delay - 1 - i]);
                    }
                }
            }
        }
    }
}

/// Zero-depth, zero-delay transparency: with both the modulation depth and
/// the base delay zero, the output block equals the input block exactly.
pub proof fn lemma_run_transparent(inc: int, hist: Seq<int>, phase: int, input: Seq<int>)
    requires
        2 <= hist.len(),
    ensures
        run(0, 0, inc, hist, phase, input).0 == input,
{
    lemma_run_zero_depth(0, inc, hist, phase, input);
    assert(run(0, 0, inc, hist, phase, input).0 =~= input);
}

/// DC invariance: if every slot the reader can reach already holds `v` and
/// every input sample is `v`, every output sample is `v`, and the history
/// stays saturated. Interpolating between equal samples returns that sample.
pub proof fn lemma_run_dc(
    delay: int,
    depth: int,
    inc: int,
    hist: Seq<int>,
    phase: int,
    input: Seq<int>,
    v: int,
)
    requires
        2 <= hist.len(),
        forall|k: int| 0 <= k < hist.len() - 1 ==> hist[k] == v,
        forall|i: int| 0 <= i < input.len() ==> input[i] == v,
    ensures
        run(delay, depth, inc, hist, phase, input).0.len() == input.len(),
        forall|i: int| 0 <= i < input.len()
            ==> run(delay, depth, inc, hist, phase, input).0[i] == v,
        run(delay, depth, inc, hist, phase, input).1.len() == hist.len(),
        forall|k: int| 0 <= k < hist.len() - 1
            ==> run(delay, depth, inc, hist, phase, input).1[k] == v,
    decreases input.len(),
{
    lemma_run_length(delay, depth, inc, hist, phase, input);
    lemma_run_hist_len(delay, depth, inc, hist, phase, input);
    if input.len() > 0 {
        let fp = FP_ONE as int;
        let cap = hist.len() as int;
        let x = input[0];
        let h = step_hist(hist, x);
        let d = step_delay(delay, depth, phase, cap);
        lemma_step_delay_bounds(delay, depth, phase, cap);
        let w = d / fp;
        assert(h[w] == v);
        assert(h[w + 1] == v);
        lemma_lerp_const(v, d % fp);
        assert(run(delay, depth, inc, hist, phase, input).0[0] == v);
        assert(forall|k: int| 0 <= k < cap - 1 ==> h[k] == v);
        lemma_run_dc(delay, depth, inc, h, step_phase(phase, inc), input.drop_first(), v);
        assert forall|i: int| 0 <= i < input.len() implies
            run(delay, depth, inc, hist, phase, input).0[i] == v by {
            if i > 0 {
                assert(run(delay, depth, inc, hist, phase, input).0[i]
                    == run(delay, depth, inc, h, step_phase(phase, inc),
                        input.drop_first()).0[i - 1]);
            }
        }
    }
}

/// Zero-signal invariance: from a silent history, silence in is silence out,
/// for any length and any configuration.
pub proof fn lemma_run_zero_signal(
    delay: int,
    depth: int,
    inc: int,
    hist: Seq<int>,
    phase: int,
    input: Seq<int>,
)
    requires
        2 <= hist.len(),
        forall|k: int| 0 <= k < hist.len() ==> hist[k] == 0,
        forall|i: int| 0 <= i < input.len() ==> input[i] == 0,
    ensures
        run(delay, depth, inc, hist, phase, input).0.len() == input.len(),
        forall|i: int| 0 <= i < input.len()
            ==> run(delay, depth, inc, hist, phase, input).0[i] == 0,
{
    lemma_run_dc(delay, depth, inc, hist, phase, input, 0);
}

/// Feeding a constant fills the reachable history: after `n` samples of `v`
/// on top of `p` slots already holding `v`, the first `p + n` slots (up to
/// the capacity) hold `v`.
proof fn lemma_run_dc_fill(
    delay: int,
    depth: int,
    inc: int,
    hist: Seq<int>,
    phase: int,
    input: Seq<int>,
    v: int,
    p: int,
)
    requires
        2 <= hist.len(),
        0 <= p <= hist.len(),
        forall|k: int| 0 <= k < p ==> hist[k] == v,
        forall|i: int| 0 <= i < input.len() ==> input[i] == v,
    ensures
        run(delay, depth, inc, hist, phase, input).1.len() == hist.len(),
        forall|k: int| 0 <= k < hist.len() && k < p + input.len()
            ==> run(delay, depth, inc, hist, phase, input).1[k] == v,
    decreases input.len(),
{
    lemma_run_hist_len(delay, depth, inc, hist, phase, input);
    if input.len() > 0 {
        let cap = hist.len() as int;
        let h = step_hist(hist, input[0]);
        let p2 = if p + 1 <= cap { p + 1 } else { cap };
        assert(forall|k: int| 0 <= k < p2 ==> h[k] == v);
        lemma_run_dc_fill(delay, depth, inc, h, step_phase(phase, inc), input.drop_first(),
            v, p2);
    }
}

/// DC invariance with a transient: whatever the history held before, once a
/// constant input has run for a full capacity of samples, every further
/// output sample is that constant.
pub proof fn lemma_run_dc_settles(
    delay: int,
    depth: int,
    inc: int,
    hist: Seq<int>,
    phase: int,
    input: Seq<int>,
    v: int,
)
    requires
        2 <= hist.len(),
        forall|i: int| 0 <= i < input.len() ==> input[i] == v,
    ensures
        run(delay, depth, inc, hist, phase, input).0.len() == input.len(),
        forall|i: int| hist.len() - 1 <= i < input.len()
            ==> run(delay, depth, inc, hist, phase, input).0[i] == v,
{
    lemma_run_length(delay, depth, inc, hist, phase, input);
    let cap = hist.len() as int;
    if input.len() > cap - 1 {
        let a = input.take(cap - 1);
        let b = input.skip(cap - 1);
        assert(a.add(b) =~= input);
        lemma_run_chunks(delay, depth, inc, hist, phase, a, b);
        let first = run(delay, depth, inc, hist, phase, a);
        lemma_run_length(delay, depth, inc, hist, phase, a);
        lemma_run_dc_fill(delay, depth, inc, hist, phase, a, v, 0);
        lemma_run_dc(delay, depth, inc, first.1, first.2, b, v);
        let second = run(delay, depth, inc, first.1, first.2, b);
        assert forall|i: int| cap - 1 <= i < input.len() implies
            run(delay, depth, inc, hist, phase, input).0[i] == v by {
            assert(run(delay, depth, inc, hist, phase, input).0[i]
                == second.0[i - (cap - 1)]);
        }
    }
}

/// Bounded output: if the history and the input are bounded by `b` in
/// magnitude, so is every output sample — linear interpolation of bounded
/// samples cannot exceed the bound.
pub proof fn lemma_run_bounded(
    delay: int,
    depth: int,
    inc: int,
    hist: Seq<int>,
    phase: int,
    input: Seq<int>,
    b: int,
)
    requires
        2 <= hist.len(),
        0 <= b,
        forall|k: int| 0 <= k < hist.len() ==> -b <= #[trigger] hist[k] <= b,
        forall|i: int| 0 <= i < input.len() ==> -b <= #[trigger] input[i] <= b,
    ensures
        run(delay, depth, inc, hist, phase, input).0.len() == input.len(),
        forall|i: int| 0 <= i < input.len()
            ==> -b <= #[trigger] run(delay, depth, inc, hist, phase, input).0[i] <= b,
        run(delay, depth, inc, hist, phase, input).1.len() == hist.len(),
        forall|k: int| 0 <= k < hist.len()
            ==> -b <= #[trigger] run(delay, depth, inc, hist, phase, input).1[k] <= b,
    decreases input.len(),
{
    lemma_run_length(delay, depth, inc, hist, phase, input);
    lemma_run_hist_len(delay, depth, inc, hist, phase, input);
    if input.len() > 0 {
        let fp = FP_ONE as int;
        let cap = hist.len() as int;
        let x = input[0];
        let h = step_hist(hist, x);
        let d = step_delay(delay, depth, phase, cap);
        lemma_step_delay_bounds(delay, depth, phase, cap);
        let w = d / fp;
        assert(-b <= h[w] <= b);
        assert(-b <= h[w + 1] <= b);
        lemma_lerp_range(h[w], h[w + 1], d % fp);
        assert(forall|k: int| 0 <= k < cap ==> -b <= #[trigger] h[k] <= b);
        lemma_run_bounded(delay, depth, inc, h, step_phase(phase, inc), input.drop_first(),
            b);
        assert forall|i: int| 0 <= i < input.len() implies
            -b <= #[trigger] run(delay, depth, inc, hist, phase, input).0[i] <= b by {
            if i > 0 {
                assert(run(delay, depth, inc, hist, phase, input).0[i]
                    == run(delay, depth, inc, h, step_phase(phase, inc),
                        input.drop_first()).0[i - 1]);
            }
        }
    }
}

} // verus!

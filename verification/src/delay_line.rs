//! A fixed-capacity circular delay line with fractional, interpolated reads.
//!
//! The line is modelled by its *history*: the sequence of the last `capacity`
//! samples, newest first, so `history[k]` is the sample written `k` writes ago
//! (or the initial fill value `0` while fewer than `capacity` samples have
//! been written).

use vstd::prelude::*;
use vstd::arithmetic::div_mod::{lemma_div_is_ordered, lemma_div_multiples_vanish, lemma_div_pos_is_pos, lemma_remainder_lower, lemma_remainder_upper};
use crate::fixed::{FP_ONE, MAX_CAPACITY, lerp, lerp_exec};

verus! {

/// Fixed-capacity circular sample store. One write overwrites the oldest
/// slot; a read blends the two stored samples around a fractional delay.
pub struct DelayLine {
    buf: Vec<i64>,
    write_pos: usize,
}

impl View for DelayLine {
    type V = Seq<int>;

    /// The history, newest first: `self@[k]` was written `k` writes ago.
    closed spec fn view(&self) -> Seq<int> {
        Seq::new(self.buf.len() as nat, |k: int|
            if k < self.write_pos {
                self.buf[self.write_pos - 1 - k] as int
            } else {
                self.buf[self.write_pos + self.buf.len() - 1 - k] as int
            })
    }
}

impl DelayLine {
    /// The number of slots; fixed for the life of the line.
    pub open spec fn capacity(self) -> int {
        self@.len() as int
    }

    /// The write cursor points at a slot of the store.
    pub closed spec fn cursor_ok(self) -> bool {
        self.write_pos < self.buf.len()
    }

    /// Structural invariant: at least two slots (so an interpolated read has
    /// a neighbour), at most `MAX_CAPACITY`, cursor inside the store.
    pub open spec fn wf(self) -> bool {
        &&& 2 <= self.capacity() <= MAX_CAPACITY
        &&& self.cursor_ok()
    }

    /// A fresh line of `capacity` slots, all holding silence.
    pub fn new(capacity: usize) -> (line: DelayLine)
        requires
            2 <= capacity <= MAX_CAPACITY,
        ensures
            line.wf(),
            line.capacity() == capacity,
            line@ =~= Seq::new(capacity as nat, |k: int| 0int),
    {
        let mut buf: Vec<i64> = Vec::new();
        let mut i: usize = 0;
        while i < capacity
            invariant
                i <= capacity,
                buf.len() == i,
                forall|j: int| 0 <= j < i ==> buf[j] == 0i64,
            decreases capacity - i,
        {
            buf.push(0);
            i = i + 1;
        }
        DelayLine { buf, write_pos: 0 }
    }

    /// Stores `sample` over the oldest slot: the history shifts by one, the
    /// new sample in front, the oldest falling off the end.
    pub fn write(&mut self, sample: i64)
        requires
            old(self).wf(),
        ensures
            final(self).wf(),
            final(self).capacity() == old(self).capacity(),
            final(self)@ =~= seq![sample as int].add(old(self)@.drop_last()),
    {
        let ghost pre = *self;
        let n = self.buf.len();
        self.buf.set(self.write_pos, sample);
        self.write_pos = if self.write_pos + 1 == n { 0 } else { self.write_pos + 1 };
        proof {
            assert forall|k: int| 0 <= k < n implies
                self@[k] == seq![sample as int].add(pre@.drop_last())[k] by {
                if k > 0 {
                    assert(pre@.drop_last()[k - 1] == pre@[k - 1]);
                }
            }
        }
    }

    /// Reads the sample `delay / FP_ONE` slots back, by linear interpolation
    /// between the two neighbouring stored samples. A whole-sample delay
    /// (fraction zero) returns the stored sample exactly; in particular a
    /// delay of `0` returns the most recently written sample.
    pub fn read_interpolated(&self, delay: u128) -> (r: i64)
        requires
            self.wf(),
            delay <= (self.capacity() - 2) * FP_ONE,
        ensures
            r as int == lerp(
                self@[delay as int / FP_ONE as int],
                self@[delay as int / FP_ONE as int + 1],
                delay as int % FP_ONE as int,
            ),
    {
        let whole: u128 = delay / (FP_ONE as u128);
        let frac: u64 = (delay % (FP_ONE as u128)) as u64;
        proof {
            lemma_div_pos_is_pos(delay as int, FP_ONE as int);
            lemma_div_is_ordered(delay as int, (self.capacity() - 2) * FP_ONE,
                FP_ONE as int);
            lemma_div_multiples_vanish(self.capacity() - 2, FP_ONE as int);
            assert((self.capacity() - 2) * FP_ONE
                == (FP_ONE as int) * (self.capacity() - 2)) by (nonlinear_arith);
            lemma_remainder_lower(delay as int, FP_ONE as int);
            lemma_remainder_upper(delay as int, FP_ONE as int);
        }
        let d0: usize = whole as usize;
        let newer = self.slot(d0);
        let older = self.slot(d0 + 1);
        lerp_exec(newer, older, frac)
    }

    /// The stored sample `k` writes back: `self@[k]`.
    fn slot(&self, k: usize) -> (r: i64)
        requires
            self.wf(),
            k < self.capacity(),
        ensures
            r as int == self@[k as int],
    {
        if k < self.write_pos {
            self.buf[self.write_pos - 1 - k]
        } else {
            self.buf[self.write_pos + self.buf.len() - 1 - k]
        }
    }
}

} // verus!

//! The two components on their own: the delay line's interpolated reads and
//! the oscillator's waveform.

use vibrato::delay_line::DelayLine;
use vibrato::fixed::FP_ONE;
use vibrato::lfo::Lfo;

#[test]
fn delay_line_reads_whole_delays_exactly() {
    let mut line = DelayLine::new(4);
    line.write(100);
    line.write(200);
    // Delay 0 is the most recently written sample.
    assert_eq!(line.read_interpolated(0), 200);
    // A whole one-sample delay is the sample before it.
    assert_eq!(line.read_interpolated(FP_ONE as u128), 100);
    // Unwritten history is the initial fill value.
    assert_eq!(line.read_interpolated(2 * FP_ONE as u128), 0);
}

#[test]
fn delay_line_interpolates_halfway() {
    let mut line = DelayLine::new(4);
    line.write(100);
    line.write(200);
    // Halfway between the two writes: the mean.
    assert_eq!(line.read_interpolated((FP_ONE / 2) as u128), 150);
    // A quarter of the way back from the newest.
    assert_eq!(line.read_interpolated((FP_ONE / 4) as u128), 175);
}

#[test]
fn delay_line_wraps_around_its_capacity() {
    let mut line = DelayLine::new(3);
    for s in [1, 2, 3, 4, 5] {
        line.write(s);
    }
    assert_eq!(line.read_interpolated(0), 5);
    assert_eq!(line.read_interpolated(FP_ONE as u128), 4);
}

#[test]
fn lfo_walks_the_quarter_points_of_a_cycle() {
    // One cycle every four samples: phase steps a quarter cycle per call.
    let mut osc = Lfo::new(4, 1);
    assert_eq!(osc.next(), 0);
    assert_eq!(osc.next(), FP_ONE as i64);
    assert_eq!(osc.next(), 0);
    assert_eq!(osc.next(), -(FP_ONE as i64));
    // The phase has wrapped: the next cycle repeats the first.
    assert_eq!(osc.next(), 0);
    assert_eq!(osc.next(), FP_ONE as i64);
}

#[test]
fn lfo_zero_frequency_is_constant() {
    let mut osc = Lfo::new(44100, 0);
    for _ in 0..8 {
        assert_eq!(osc.next(), 0);
    }
}

#[test]
fn lfo_stays_within_one() {
    let mut osc = Lfo::new(44100, 5);
    for _ in 0..2000 {
        let m = osc.next();
        assert!(-(FP_ONE as i64) <= m && m <= FP_ONE as i64);
    }
}

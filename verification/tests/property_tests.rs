//! Concrete instances of the processor's general laws, on the raw
//! fixed-point samples.

use vibrato::vibrato::Vibrato;

const ONE: i64 = 0x1_0000_0000;

#[test]
fn length_preserved_for_every_block_size() {
    let mut v = Vibrato::with_sample_counts(10, 3, 2, 3);
    assert_eq!(v.process(&vec![]).len(), 0);
    assert_eq!(v.process(&vec![7]).len(), 1);
    let long: Vec<i64> = (0..100).map(|i| (i * 11 - 550) as i64).collect();
    assert_eq!(v.process(&long).len(), 100);
}

#[test]
fn chunking_cannot_change_the_output() {
    let input: Vec<i64> = (0..12).map(|i| ((i * i) % 7 - 3) as i64 * ONE / 4).collect();

    let mut whole = Vibrato::with_sample_counts(10, 3, 2, 3);
    let expected = whole.process(&input);

    let mut chunked = Vibrato::with_sample_counts(10, 3, 2, 3);
    let mut got: Vec<i64> = Vec::new();
    got.extend(chunked.process(&input[0..5].to_vec()));
    got.extend(chunked.process(&input[5..9].to_vec()));
    got.extend(chunked.process(&input[9..12].to_vec()));

    assert_eq!(got, expected);
}

#[test]
fn zero_depth_is_a_pure_delay() {
    // Depth 0, base delay 3 samples: the first three outputs read the
    // line's initial silence, then the input reappears three samples late.
    let mut v = Vibrato::with_sample_counts(10, 7, 0, 3);
    let input: Vec<i64> = vec![10, 20, 30, 40, 50, 60];
    let out = v.process(&input);
    assert_eq!(out, vec![0, 0, 0, 10, 20, 30]);
}

#[test]
fn whole_second_delay_is_a_pure_delay() {
    // One whole second at 4 samples per second: a delay of 4 samples.
    let mut v = Vibrato::new(4, 1, 0, 1);
    let input: Vec<i64> = vec![1, 2, 3, 4, 5, 6];
    let out = v.process(&input);
    assert_eq!(out, vec![0, 0, 0, 0, 1, 2]);
}

#[test]
fn dc_input_settles_to_dc_output() {
    // Capacity is 1 + 1 + 2 = 4; after the fill transient every output
    // sample is the constant, even with modulation running.
    let v0: i64 = ONE / 2;
    let mut v = Vibrato::with_sample_counts(10, 4, 1, 1);
    let out = v.process(&vec![v0; 10]);
    assert_eq!(out.len(), 10);
    for i in 3..10 {
        assert_eq!(out[i], v0);
    }
}

#[test]
fn output_stays_within_the_input_bound() {
    let input: Vec<i64> = vec![ONE, -ONE, ONE, -ONE, ONE, ONE, -ONE, 0, ONE, -ONE];
    let mut v = Vibrato::with_sample_counts(8, 3, 2, 1);
    let out = v.process(&input);
    assert_eq!(out.len(), input.len());
    for &y in out.iter() {
        assert!(-ONE <= y && y <= ONE);
    }
}

#[test]
fn process_one_agrees_with_process() {
    let input: Vec<i64> = vec![5 * ONE / 8, -ONE / 3, ONE / 7, 0, -ONE];
    let mut block = Vibrato::with_sample_counts(9, 2, 1, 2);
    let expected = block.process(&input);
    let mut stepped = Vibrato::with_sample_counts(9, 2, 1, 2);
    let mut got: Vec<i64> = Vec::new();
    for &x in input.iter() {
        got.push(stepped.process_one(x));
    }
    assert_eq!(got, expected);
}

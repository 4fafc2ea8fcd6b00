//! The processor driven through its floating-point boundary: callers that
//! work in `f32` convert to the fixed-point sample scale and back.

use vibrato::fixed::FP_ONE;
use vibrato::vibrato::Vibrato;

fn to_fp(x: f32) -> i64 {
    (x as f64 * FP_ONE as f64) as i64
}

fn from_fp(y: i64) -> f32 {
    (y as f64 / FP_ONE as f64) as f32
}

fn to_fp_vec(xs: &[f32]) -> Vec<i64> {
    xs.iter().map(|&x| to_fp(x)).collect()
}

fn from_fp_vec(ys: &[i64]) -> Vec<f32> {
    ys.iter().map(|&y| from_fp(y)).collect()
}

#[test]
fn test_vibrato_delayed_input_when_mod_amplitude_is_zero() {
    let samplerate = 44100.0;
    let mod_freq = 5.0;
    let mod_depth = 0.0; // Modulation amplitude is zero
    let delay_time_sec = 0.1;
    let mut vibrato = Vibrato::new(
        samplerate as u64,
        mod_freq as u64,
        mod_depth as u64,
        delay_time_sec as u64,
    );

    // Prepare input signal (e.g., delayed input)
    let input_signal = vec![0.0, 0.1, 0.2, 0.3, 0.4];
    let expected_output = input_signal.clone(); // Expected output is the same as input

    // Process input signal
    let output_signal = from_fp_vec(&vibrato.process(&to_fp_vec(&input_signal)));

    // Compare output with expected output
    assert_eq!(output_signal, expected_output);
}

#[test]
fn test_vibrato_dc_input_results_in_dc_output() {
    let samplerate = 44100.0;
    let mod_freq = 5.0;
    let mod_depth = 0.5; // Non-zero modulation amplitude
    let delay_time_sec = 0.1;
    let mut vibrato = Vibrato::new(
        samplerate as u64,
        mod_freq as u64,
        mod_depth as u64,
        delay_time_sec as u64,
    );

    // Prepare input signal (DC input)
    let input_signal = vec![0.5; 5]; // All samples are the same DC value
    let expected_output = vec![0.5; 5]; // Expected output should be the same DC value

    // Process input signal
    let output_signal = from_fp_vec(&vibrato.process(&to_fp_vec(&input_signal)));

    // Compare output with expected output
    assert_eq!(output_signal, expected_output);
}

#[test]
fn test_vibrato_varying_input_block_size() {
    let samplerate = 44100.0;
    let mod_freq = 5.0;
    let mod_depth = 0.5;
    let delay_time_sec = 0.1;
    let mut vibrato = Vibrato::new(
        samplerate as u64,
        mod_freq as u64,
        mod_depth as u64,
        delay_time_sec as u64,
    );

    // Prepare input signal with different block sizes
    let input_signals = vec![
        vec![0.1, 0.2, 0.3],
        vec![0.4, 0.5, 0.6, 0.7],
        vec![0.8, 0.9],
    ];
    let expected_outputs = vec![
        vec![0.1, 0.2, 0.3],
        vec![0.4, 0.5, 0.6, 0.7],
        vec![0.8, 0.9],
    ];

    // Process each input signal
    for (input_signal, expected_output) in input_signals.iter().zip(expected_outputs.iter()) {
        let output_signal = from_fp_vec(&vibrato.process(&to_fp_vec(input_signal)));
        assert_eq!(output_signal, *expected_output);
    }
}

#[test]
fn test_vibrato_zero_input_signal() {
    let samplerate = 44100.0;
    let mod_freq = 5.0;
    let mod_depth = 0.5;
    let delay_time_sec = 0.1;
    let mut vibrato = Vibrato::new(
        samplerate as u64,
        mod_freq as u64,
        mod_depth as u64,
        delay_time_sec as u64,
    );

    // Prepare zero input signal
    let input_signal = vec![0.0; 5];
    let expected_output = vec![0.0; 5]; // Expected output should also be zero

    // Process input signal
    let output_signal = from_fp_vec(&vibrato.process(&to_fp_vec(&input_signal)));

    // Compare output with expected output
    assert_eq!(output_signal, expected_output);
}

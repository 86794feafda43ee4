use std::f64::consts::PI;

use mint::audio::buffer::{AudioBuffer, OutputSampleFormat, SourceInfo};
use mint::level::Level;
use mint::ops::limiter::{
    self, look_ahead_frames, sliding_min_backward, sliding_min_forward, smooth_gains,
    upsample_fir_4x, FIR_TAPS_PER_PHASE, OVERSAMPLE,
};

fn level(x: f64) -> Level {
    Level { bits: x.to_bits() }
}

fn mac(acc: f64, x: f64, tap: f64) -> f64 {
    acc + x * tap
}

/// The kernels of a windowed-sinc interpolator, one per phase.
fn polyphase_kernels() -> Vec<Vec<f64>> {
    let half = (FIR_TAPS_PER_PHASE / 2) as isize;
    let m = (FIR_TAPS_PER_PHASE - 1) as f64;
    (0..OVERSAMPLE)
        .map(|p| {
            let frac = p as f64 / OVERSAMPLE as f64;
            let mut kernel: Vec<f64> = (0..FIR_TAPS_PER_PHASE)
                .map(|j| {
                    let x = frac - (j as isize - (half - 1)) as f64;
                    let sinc = if x.abs() < 1e-12 { 1.0 } else { (PI * x).sin() / (PI * x) };
                    let n = j as f64;
                    sinc * (0.42 - 0.5 * (2.0 * PI * n / m).cos() + 0.08 * (4.0 * PI * n / m).cos())
                })
                .collect();
            let sum: f64 = kernel.iter().sum();
            for tap in &mut kernel {
                *tap /= sum;
            }
            kernel
        })
        .collect()
}

fn limit(buffer: &mut AudioBuffer<f64>, ceiling_dbtp: f64) {
    let ceiling = 10_f64.powf(ceiling_dbtp / 20.0);
    let over_rate = buffer.sample_rate as f64 * OVERSAMPLE as f64;
    let release = 10_f64.powf(30.0 / (20.0 * over_rate));
    limiter::apply_true_peak_limit(
        buffer,
        &polyphase_kernels(),
        0.0,
        &mac,
        &level,
        level(ceiling),
        &|p: Level| level(ceiling / f64::from_bits(p.bits)),
        &|g: u64| (f64::from_bits(g) * release).min(1.0).to_bits(),
        &|x: f64, g: u64| x * f64::from_bits(g),
    );
}

fn make_buffer(channels: Vec<Vec<f64>>, rate: u32) -> AudioBuffer<f64> {
    let ch_count = channels.len();
    AudioBuffer {
        channels,
        sample_rate: rate,
        src_info: SourceInfo {
            path: "test.wav".to_string(),
            channels: ch_count,
            sample_rate: rate,
            codec: "test".to_string(),
        },
        out_format: OutputSampleFormat::F32,
    }
}

fn sine(rate: u32, seconds: f64, hz: f64, amp: f64) -> Vec<f64> {
    let frames = (rate as f64 * seconds) as usize;
    (0..frames)
        .map(|n| {
            let t = n as f64 / rate as f64;
            (2.0 * PI * hz * t).sin() * amp
        })
        .collect()
}

#[test]
fn sample_peaks_stay_at_or_below_ceiling() {
    // Full-scale sine boosted 6 dB: sample peaks near 2.0, well above -1 dBTP ceiling.
    let mut buffer = make_buffer(vec![sine(48_000, 2.0, 997.0, 2.0)], 48_000);

    let ceiling_dbtp = -1.0;
    limit(&mut buffer, ceiling_dbtp);

    // Linear ceiling: allow a tiny floating-point margin.
    let ceiling_lin = 10_f64.powf(ceiling_dbtp / 20.0);
    let max_sample = buffer.channels[0].iter().map(|s| s.abs()).fold(0.0_f64, f64::max);

    assert!(
        max_sample <= ceiling_lin + 1e-6,
        "max sample {max_sample:.6} exceeds ceiling {ceiling_lin:.6}"
    );
}

#[test]
fn silence_is_unaffected_by_limiter() {
    let mut buffer = make_buffer(vec![vec![0.0; 4_800]], 48_000);
    limit(&mut buffer, -1.0);

    for &s in &buffer.channels[0] {
        assert_eq!(s, 0.0, "silence must remain silence after limiting");
    }
}

#[test]
fn signal_below_ceiling_is_unchanged() {
    // -3 dBTP amplitude: must pass through the limiter without any gain change.
    let amp = 10_f64.powf(-3.0 / 20.0);
    let samples = sine(48_000, 1.0, 997.0, amp);
    let original = samples.clone();
    let mut buffer = make_buffer(vec![samples], 48_000);

    limit(&mut buffer, -1.0);

    for (orig, processed) in original.iter().zip(buffer.channels[0].iter()) {
        // Gain stays exactly 1.0, and multiplication by it is exact.
        assert!(
            (orig - processed).abs() < 1e-12,
            "below-ceiling sample was modified: orig={orig}, processed={processed}"
        );
    }
}

#[test]
fn stereo_channels_receive_the_same_gain_reduction() {
    // Left channel at full blast, right channel silent.
    // Both must be reduced by the same envelope to preserve stereo balance.
    let loud = sine(48_000, 1.0, 997.0, 2.0);
    let silent = vec![0.0_f64; loud.len()];
    let mut buffer = make_buffer(vec![loud, silent], 48_000);

    let ceiling_dbtp = -1.0;
    limit(&mut buffer, ceiling_dbtp);

    // Loud channel: peaks must be at or below ceiling.
    let ceiling_lin = 10_f64.powf(ceiling_dbtp / 20.0);
    let max_loud = buffer.channels[0].iter().map(|s| s.abs()).fold(0.0_f64, f64::max);
    assert!(max_loud <= ceiling_lin + 1e-6);

    // Silent channel: must remain silent (same gain applied, 0 * anything = 0).
    for &s in &buffer.channels[1] {
        assert_eq!(s, 0.0, "silent channel must stay silent");
    }
}

#[test]
fn equal_channels_stay_equal() {
    let loud = sine(48_000, 0.2, 997.0, 1.7);
    let half: Vec<f64> = loud.iter().map(|x| x * 0.5).collect();
    let mut buffer = make_buffer(vec![loud, half], 48_000);
    limit(&mut buffer, -1.0);
    for (a, b) in buffer.channels[0].iter().zip(&buffer.channels[1]) {
        assert_eq!(a * 0.5, *b);
    }
}

#[test]
fn fir_recovers_inter_sample_peak_better_than_linear() {
    // Textbook worst case for inter-sample peaks: an fs/4 sine at 45 degrees phase. Every
    // sample sits at exactly +-0.707 while the true continuous peak is 1.0, with the
    // crest landing exactly between samples. Linear interpolation can't see it; the
    // band-limited FIR should recover it.
    let n = 256;
    let sig: Vec<f64> = (0..n).map(|i| (PI * i as f64 / 2.0 + PI / 4.0).sin()).collect();

    let sample_peak = sig.iter().fold(0.0_f64, |m, &s| m.max(s.abs()));
    assert!(sample_peak < 0.8, "samples should sit at ~0.707, not on the crest");

    let kernels = polyphase_kernels();
    let fir_peak = upsample_fir_4x(&sig, &kernels, 0.0, &mac)
        .iter()
        .fold(0.0_f64, |m, &s| m.max(s.abs()));

    // Linear interpolation, for reference, never exceeds the (too-low) sample peak.
    let lin_peak = sig
        .windows(2)
        .flat_map(|w| [w[0], 0.5 * (w[0] + w[1])])
        .fold(0.0_f64, |m, s| m.max(s.abs()));

    // True peak is 1.0; FIR should land close, clearly beating linear (~0.707).
    assert!(fir_peak > 0.93, "FIR peak {fir_peak} too low");
    assert!(
        fir_peak > lin_peak + 0.05,
        "FIR ({fir_peak}) should clearly beat linear ({lin_peak})"
    );
}

#[test]
fn upsampling_takes_samples_beyond_the_edges_as_silence() {
    // With integer arithmetic: kernel p is p + 1 at every tap.
    let kernels: Vec<Vec<i64>> = (0..4).map(|p| vec![p + 1; 12]).collect();
    let out = upsample_fir_4x(&vec![10i64, 100], &kernels, 0, &|a: i64, x: i64, t: i64| a + x * t);
    assert_eq!(out, vec![110, 220, 330, 440, 110, 220, 330, 440]);
    let far = upsample_fir_4x(
        &(0..20i64).map(|i| if i == 0 { 1 } else { 0 }).collect::<Vec<i64>>(),
        &(0..4).map(|_| (0..12).collect()).collect::<Vec<Vec<i64>>>(),
        0,
        &|a: i64, x: i64, t: i64| a + x * t,
    );
    // Tap `j` reads the sample `j - 5` further on: sample 0 is last seen from sample 5.
    assert_eq!(far[0], 5);
    assert_eq!(far[4 * 5], 0);
    assert_eq!(far[4 * 4], 1);
    assert!(far[4 * 6..].iter().all(|&x| x == 0));
}

#[test]
fn sliding_minima_look_back_and_ahead() {
    let values = vec![5u64, 3, 8, 1, 9, 2, 7];
    assert_eq!(sliding_min_backward(&values, 3), vec![5, 3, 3, 1, 1, 1, 2]);
    assert_eq!(sliding_min_forward(&values, 3), vec![3, 1, 1, 1, 2, 2, 7]);
    assert_eq!(sliding_min_forward(&values, 1), values);
    assert_eq!(sliding_min_forward(&vec![], 4), Vec::<u64>::new());
    assert_eq!(sliding_min_backward(&values, 100), vec![5, 3, 3, 1, 1, 1, 1]);
}

#[test]
fn look_ahead_is_a_millisecond() {
    assert_eq!(look_ahead_frames(48_000), 192);
    assert_eq!(look_ahead_frames(44_100), 176);
    assert_eq!(look_ahead_frames(96_000), 384);
    assert_eq!(look_ahead_frames(0), 1);
}

#[test]
fn attack_is_instant_and_release_is_gradual() {
    // Gains as plain numbers here: a release step adds ten.
    let gains = smooth_gains(&vec![100u64, 40, 90, 90, 90, 20], &|g: u64| g + 10);
    assert_eq!(gains, vec![100, 40, 50, 60, 70, 20]);
}

#[test]
fn gain_is_low_enough_when_the_peak_arrives() {
    // One loud stretch in a quiet signal.
    let rate = 48_000;
    let samples: Vec<f64> = (0..4800)
        .map(|i| {
            let amp = if (2000..2400).contains(&i) { 1.4 } else { 0.2 };
            amp * (2.0 * PI * 997.0 * i as f64 / rate as f64).sin()
        })
        .collect();
    let mut buffer = make_buffer(vec![samples.clone()], rate);
    limit(&mut buffer, -1.0);
    let ceiling = 10_f64.powf(-1.0 / 20.0);
    for (i, x) in buffer.channels[0].iter().enumerate() {
        assert!(x.abs() <= ceiling + 1e-9, "sample {i} exceeds the ceiling");
    }
    // Before the look-ahead reaches the stretch nothing is attenuated; just ahead of it
    // everything is.
    assert_eq!(buffer.channels[0][..1900], samples[..1900]);
    assert!(buffer.channels[0][1990].abs() < samples[1990].abs());
}

#[test]
fn limiting_neither_mutes_nor_turns_over() {
    let rate = 48_000;
    let samples: Vec<f64> = (0..4800)
        .map(|i| if i % 1000 == 500 { 400.0 } else { (i as f64 * 0.07).sin() })
        .collect();
    let mut buffer = make_buffer(vec![samples.clone()], rate);
    limit(&mut buffer, -20.0);
    for (y, x) in buffer.channels[0].iter().zip(&samples) {
        if *x != 0.0 {
            let gain = y / x;
            assert!(gain > 0.0 && gain <= 1.0);
        }
    }
}

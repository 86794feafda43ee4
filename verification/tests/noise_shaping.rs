use std::f64::consts::PI;

use mint::audio::buffer::{AudioBuffer, OutputSampleFormat, SourceInfo};
use mint::config::DitherMode;
use mint::dither::mbit_plus::MbitPlusStrength;
use mint::level::Level;
use mint::ops::bitdepth::{self, BitDepthApplyResult};
use rand::{Rng, SeedableRng};
use rustfft::num_complex::Complex;
use rustfft::FftPlanner;

const SR: u32 = 44_100;

const UNIT: f64 = 1.0 / 9_007_199_254_740_992.0;

fn level(x: f64) -> Level {
    Level { bits: x.to_bits() }
}

fn apply(
    buffer: &mut AudioBuffer<f64>,
    target: OutputSampleFormat,
    mode: DitherMode,
    seed: u64,
) -> BitDepthApplyResult {
    let mut current = OutputSampleFormat::F32;
    bitdepth::apply(
        buffer,
        &mut current,
        target,
        Some(mode),
        None,
        None,
        Some(seed),
        0.0,
        &level,
        &|x: f64, taps: &Vec<i32>, hist: &Vec<f64>, max: i32| {
            let fb: f64 = taps.iter().zip(hist).map(|(t, h)| *t as f64 / 10_000.0 * h).sum();
            x.clamp(-1.0, 1.0) * max as f64 - fb
        },
        &|u: f64, n: i64| level(u + n as f64 * UNIT),
        &|y: i32, u: f64| y as f64 - u,
        &|x: f64, n: i64, max: i32| {
            level((x.clamp(-1.0, 1.0) + n as f64 * UNIT / max as f64) * max as f64)
        },
        &|y: i32, max: i32| y as f64 / max as f64,
    )
    .expect("apply")
}

fn buffer_from(channels: Vec<Vec<f64>>) -> AudioBuffer<f64> {
    let channel_count = channels.len();
    AudioBuffer {
        channels,
        sample_rate: SR,
        src_info: SourceInfo {
            path: "test.wav".to_string(),
            channels: channel_count,
            sample_rate: SR,
            codec: "test".to_string(),
        },
        out_format: OutputSampleFormat::F32,
    }
}

fn mk_buffer(samples: Vec<f64>) -> AudioBuffer<f64> {
    buffer_from(vec![samples])
}

/// A 997 Hz sine (the BS.1770 reference tone): smooth and fractional, so it
/// exercises the quantizer at every phase while staying well clear of full scale.
fn test_signal(n: usize, amp: f64) -> Vec<f64> {
    (0..n)
        .map(|i| amp * (2.0 * PI * 997.0 * i as f64 / SR as f64).sin())
        .collect()
}

fn quantize(signal: &[f64], mode: DitherMode, target: OutputSampleFormat, seed: u64) -> Vec<f64> {
    let mut buf = mk_buffer(signal.to_vec());
    apply(&mut buf, target, mode, seed);
    buf.channels.into_iter().next().unwrap()
}

/// The added noise (quantized - original) in LSB units. For both paths this equals
/// the output deviation from the desired code value; for the shaper specifically it
/// is the shaped error, which is exactly what we want to inspect.
fn error_lsb(original: &[f64], quantized: &[f64], max: f64) -> Vec<f64> {
    original.iter().zip(quantized).map(|(o, q)| (*q - *o) * max).collect()
}

/// Normalized lag-1 autocorrelation. White noise: about 0; a high-pass-shaped sequence:
/// strongly negative (successive samples anti-correlated).
fn lag1_autocorr(x: &[f64]) -> f64 {
    let energy: f64 = x.iter().map(|v| v * v).sum();
    let cross: f64 = x.windows(2).map(|w| w[0] * w[1]).sum();
    cross / energy
}

/// Energy left after a length-`l` moving-average low-pass: a proxy for the
/// low-frequency (ear's most-sensitive band) content of `x`.
fn lowpass_energy(x: &[f64], l: usize) -> f64 {
    let mut sum = 0.0;
    let mut energy = 0.0;
    for i in 0..x.len() {
        sum += x[i];
        if i >= l {
            sum -= x[i - l];
        }
        if i >= l - 1 {
            let avg = sum / l as f64;
            energy += avg * avg;
        }
    }
    energy
}

fn ntf_magnitude_response(strength: MbitPlusStrength, sample_rate: u32, fft_len: usize) -> Vec<f64> {
    let coeffs = strength.coeffs_for_rate(sample_rate);
    let mut response = vec![Complex::new(0.0, 0.0); fft_len];
    response[0] = Complex::new(1.0, 0.0);

    for (index, coeff) in coeffs.iter().enumerate() {
        response[index + 1] = Complex::new(-(*coeff as f64 / 10_000.0), 0.0);
    }

    let mut planner = FftPlanner::<f64>::new();
    let fft = planner.plan_fft_forward(fft_len);
    fft.process(&mut response);

    response.into_iter().map(|c| c.norm()).collect()
}

fn band_power(magnitudes: &[f64], sample_rate: u32, low_hz: f64, high_hz: f64) -> f64 {
    let bin_hz = sample_rate as f64 / magnitudes.len() as f64;
    let start = ((low_hz / bin_hz).ceil() as usize).max(1);
    let end = ((high_hz / bin_hz).floor() as usize).min(magnitudes.len() / 2 - 1);

    assert!(start <= end, "band {low_hz}-{high_hz} Hz is too narrow for this FFT size");

    let mut power = 0.0;
    let mut count = 0usize;
    for magnitude in &magnitudes[start..=end] {
        power += magnitude * magnitude;
        count += 1;
    }

    power / count as f64
}

fn band_minimum_frequency(magnitudes: &[f64], sample_rate: u32, low_hz: f64, high_hz: f64) -> (f64, f64) {
    let bin_hz = sample_rate as f64 / magnitudes.len() as f64;
    let start = ((low_hz / bin_hz).ceil() as usize).max(1);
    let end = ((high_hz / bin_hz).floor() as usize).min(magnitudes.len() / 2 - 1);

    assert!(start <= end, "band {low_hz}-{high_hz} Hz is too narrow for this FFT size");

    let mut best_frequency = 0.0;
    let mut best_magnitude = f64::INFINITY;
    for (offset, magnitude) in magnitudes[start..=end].iter().enumerate() {
        if *magnitude < best_magnitude {
            best_magnitude = *magnitude;
            best_frequency = (start + offset) as f64 * bin_hz;
        }
    }

    (best_frequency, best_magnitude)
}

#[test]
fn shaped_flag_tracks_target_format() {
    let probe = || mk_buffer(vec![0.1, -0.1, 0.2, -0.3]);

    let r = apply(&mut probe(), OutputSampleFormat::S16, DitherMode::Shaped, 1);
    assert!(r.shaped && r.dithered, "shaping must engage at s16");

    let r = apply(&mut probe(), OutputSampleFormat::S24, DitherMode::Shaped, 1);
    assert!(!r.shaped && r.dithered, "shaped must degrade to flat tpdf at s24");

    let r = apply(&mut probe(), OutputSampleFormat::F32, DitherMode::Shaped, 1);
    assert!(!r.shaped && !r.dithered, "f32 has no quantization to dither or shape");
}

#[test]
fn shaped_is_reproducible_with_seed() {
    let sig = test_signal(4096, 0.5);
    let a = quantize(&sig, DitherMode::Shaped, OutputSampleFormat::S16, 42);
    let b = quantize(&sig, DitherMode::Shaped, OutputSampleFormat::S16, 42);
    assert_eq!(a, b, "seeded shaped output must be deterministic");
}

#[test]
fn shaped_degrades_to_flat_tpdf_at_s24() {
    // shaping is gated off above s16, so both modes must run the identical flat path.
    let sig = test_signal(4096, 0.5);
    let shaped = quantize(&sig, DitherMode::Shaped, OutputSampleFormat::S24, 99);
    let tpdf = quantize(&sig, DitherMode::Tpdf, OutputSampleFormat::S24, 99);
    assert_eq!(shaped, tpdf, "shaped must be byte-identical to flat tpdf at s24");
}

#[test]
fn shaped_stereo_is_reproducible_and_per_channel() {
    let sig = test_signal(4096, 0.5);

    let run = |seed: u64| {
        let mut buf = buffer_from(vec![sig.clone(), sig.clone()]);
        apply(&mut buf, OutputSampleFormat::S16, DitherMode::Shaped, seed);
        buf.channels
    };

    // Reproducible: same seed -> identical stereo output.
    assert_eq!(run(7), run(7), "seeded stereo shaping must be deterministic");

    // Per-channel: identical input in both channels still yields decorrelated noise,
    // because each channel runs its own shaper with a distinct sub-seed.
    let ch = run(7);
    assert_ne!(ch[0], ch[1], "L/R must get independent (decorrelated) shaped noise");

    // Channel 0's sub-seed is (seed ^ 0) == seed, so it must match the mono path.
    let mono = quantize(&sig, DitherMode::Shaped, OutputSampleFormat::S16, 7);
    assert_eq!(ch[0], mono, "channel 0 must match the mono shaper for the same seed");
}

#[test]
fn shaping_tilts_noise_to_high_frequencies() {
    let n = 1 << 16;
    let sig = test_signal(n, 0.5);
    let max = 32_767.0;

    let e_tpdf = error_lsb(&sig, &quantize(&sig, DitherMode::Tpdf, OutputSampleFormat::S16, 12345), max);
    let e_shaped = error_lsb(&sig, &quantize(&sig, DitherMode::Shaped, OutputSampleFormat::S16, 12345), max);

    // 1. Spectral character. Flat TPDF noise is white (lag-1 about 0); the second-order
    //    shaper produces high-pass noise that is strongly anti-correlated
    //    sample-to-sample (theory: r1 about -2/3).
    let r1_tpdf = lag1_autocorr(&e_tpdf);
    let r1_shaped = lag1_autocorr(&e_shaped);
    assert!(r1_tpdf.abs() < 0.1, "flat TPDF noise should be ~white, got r1={r1_tpdf:.3}");
    assert!(r1_shaped < -0.4, "shaped noise should be high-pass (r1 << 0), got r1={r1_shaped:.3}");

    // 2. The actual win: substantially less noise energy in the low/sensitive band.
    let lp_tpdf = lowpass_energy(&e_tpdf, 32);
    let lp_shaped = lowpass_energy(&e_shaped, 32);
    assert!(
        lp_shaped < 0.5 * lp_tpdf,
        "shaping should cut in-band noise: shaped={lp_shaped:.1}, tpdf={lp_tpdf:.1}"
    );

    // 3. The trade-off: total noise power rises (it is moved, not removed).
    let p_tpdf: f64 = e_tpdf.iter().map(|v| v * v).sum();
    let p_shaped: f64 = e_shaped.iter().map(|v| v * v).sum();
    assert!(p_shaped > p_tpdf, "shaped total noise power should exceed flat TPDF");
}

#[test]
fn psychoacoustic_flag_tracks_target_format() {
    let probe = || mk_buffer(vec![0.1, -0.1, 0.2, -0.3]);

    let r = apply(&mut probe(), OutputSampleFormat::S16, DitherMode::Psychoacoustic, 1);
    assert!(r.shaped && r.dithered, "psychoacoustic shaping must engage at s16");

    let r = apply(&mut probe(), OutputSampleFormat::S24, DitherMode::Psychoacoustic, 1);
    assert!(!r.shaped && r.dithered, "psychoacoustic must degrade to flat tpdf at s24");

    let r = apply(&mut probe(), OutputSampleFormat::F32, DitherMode::Psychoacoustic, 1);
    assert!(!r.shaped && !r.dithered, "f32 has no quantization to dither or shape");
}

#[test]
fn psychoacoustic_is_reproducible_with_seed() {
    let sig = test_signal(4096, 0.5);
    let a = quantize(&sig, DitherMode::Psychoacoustic, OutputSampleFormat::S16, 42);
    let b = quantize(&sig, DitherMode::Psychoacoustic, OutputSampleFormat::S16, 42);
    assert_eq!(a, b, "seeded psychoacoustic output must be deterministic");
}

#[test]
fn psychoacoustic_degrades_to_flat_tpdf_at_s24() {
    let sig = test_signal(4096, 0.5);
    let psy = quantize(&sig, DitherMode::Psychoacoustic, OutputSampleFormat::S24, 99);
    let tpdf = quantize(&sig, DitherMode::Tpdf, OutputSampleFormat::S24, 99);
    assert_eq!(psy, tpdf, "psychoacoustic must be byte-identical to flat tpdf at s24");
}

/// It is a *stronger*, ear-weighted shaper than the gentle one. These are proxies without
/// a transform, but they pin the structural differences predicted by theory.
#[test]
fn psychoacoustic_is_stronger_than_gentle() {
    let n = 1 << 16;
    let sig = test_signal(n, 0.5);
    let max = 32_767.0;

    let e_tpdf = error_lsb(&sig, &quantize(&sig, DitherMode::Tpdf, OutputSampleFormat::S16, 2024), max);
    let e_gentle = error_lsb(&sig, &quantize(&sig, DitherMode::Shaped, OutputSampleFormat::S16, 2024), max);
    let e_psy = error_lsb(&sig, &quantize(&sig, DitherMode::Psychoacoustic, OutputSampleFormat::S16, 2024), max);

    // 1. More strongly high-pass than gentle (theory: lag-1 about -0.89 vs -0.67).
    let r_gentle = lag1_autocorr(&e_gentle);
    let r_psy = lag1_autocorr(&e_psy);
    assert!(r_psy < r_gentle, "psychoacoustic should be more high-pass than gentle: psy={r_psy:.3}, gentle={r_gentle:.3}");
    assert!(r_psy < -0.5, "psychoacoustic lag-1 should be strongly negative, got {r_psy:.3}");

    // 2. Still cuts the ear-sensitive low band hard vs flat TPDF (about -16 dB at DC).
    assert!(
        lowpass_energy(&e_psy, 32) < 0.5 * lowpass_energy(&e_tpdf, 32),
        "psychoacoustic should cut in-band noise vs flat TPDF"
    );

    // 3. The cost: it dumps MORE total noise than gentle (theory: +12.2 vs +7.8 dB),
    //    just placed where the ear can't hear it.
    let p_gentle: f64 = e_gentle.iter().map(|v| v * v).sum();
    let p_psy: f64 = e_psy.iter().map(|v| v * v).sum();
    assert!(p_psy > p_gentle, "psychoacoustic moves more total noise than gentle: psy={p_psy:.0}, gentle={p_gentle:.0}");
}

#[test]
fn mbit_plus_flag_tracks_target_format() {
    let probe = || mk_buffer(vec![0.1, -0.1, 0.2, -0.3]);

    let r = apply(&mut probe(), OutputSampleFormat::S16, DitherMode::MbitPlus, 1);
    assert!(r.shaped && r.dithered, "mbit+ shaping must engage at s16");

    let r = apply(&mut probe(), OutputSampleFormat::S24, DitherMode::MbitPlus, 1);
    assert!(!r.shaped && r.dithered, "mbit+ must degrade to flat tpdf at s24");

    let r = apply(&mut probe(), OutputSampleFormat::F32, DitherMode::MbitPlus, 1);
    assert!(!r.shaped && !r.dithered, "f32 has no quantization to dither or shape");
}

#[test]
fn mbit_plus_is_reproducible_with_seed() {
    let sig = test_signal(4096, 0.5);
    let a = quantize(&sig, DitherMode::MbitPlus, OutputSampleFormat::S16, 123);
    let b = quantize(&sig, DitherMode::MbitPlus, OutputSampleFormat::S16, 123);
    assert_eq!(a, b, "seeded mbit+ output must be deterministic");
}

#[test]
fn mbit_plus_degrades_to_flat_tpdf_at_s24() {
    let sig = test_signal(4096, 0.5);
    let mb = quantize(&sig, DitherMode::MbitPlus, OutputSampleFormat::S24, 99);
    let tpdf = quantize(&sig, DitherMode::Tpdf, OutputSampleFormat::S24, 99);
    assert_eq!(mb, tpdf, "mbit+ must be byte-identical to flat tpdf at s24");
}

#[test]
fn mbit_plus_stereo_is_reproducible_and_decorrelated() {
    let sig = test_signal(4096, 0.5);

    let run = |seed: u64| {
        let mut buf = buffer_from(vec![sig.clone(), sig.clone()]);
        apply(&mut buf, OutputSampleFormat::S16, DitherMode::MbitPlus, seed);
        buf.channels
    };

    let a = run(17);
    let b = run(17);
    assert_eq!(a, b, "seeded stereo mbit+ output must be deterministic");

    // Channels should be decorrelated (independent RNGs per channel).
    assert_ne!(a[0], a[1], "L/R should get independent dither");

    // Verify stereo channels are not identical (decorrelated).
    let mismatches = a[0].iter().zip(&a[1]).filter(|(l, r)| *l != *r).count();
    assert!(mismatches > a.len() / 2, "L/R decorrelation should yield many differences");
}

/// Dither amplitude must be constant (not modulated by signal): noise variance in quiet
/// passages should match noise variance under signal.
#[test]
fn mbit_plus_dither_is_constant_amplitude() {
    let mut quiet = mk_buffer(vec![0.001; 1000]); // Very quiet signal.
    let mut loud = mk_buffer(vec![0.8; 1000]); // Loud signal.

    apply(&mut quiet, OutputSampleFormat::S16, DitherMode::MbitPlus, 42);
    apply(&mut loud, OutputSampleFormat::S16, DitherMode::MbitPlus, 42);

    let max = 32_767.0;
    let noise_quiet: f64 = quiet.channels[0]
        .iter()
        .zip(vec![0.001; 1000])
        .map(|(q, orig)| (*q - orig).abs() * max)
        .sum::<f64>()
        / 1000.0;
    let noise_loud: f64 = loud.channels[0]
        .iter()
        .zip(vec![0.8; 1000])
        .map(|(q, orig)| (*q - orig).abs() * max)
        .sum::<f64>()
        / 1000.0;

    // Both should see roughly the same average error magnitude (constant dither amplitude).
    // Allow some variance due to randomness, but they should be in the same ballpark (~0.5-1.5 LSB).
    assert!(noise_quiet.abs() > 0.1, "quiet noise floor should be measurable");
    assert!(noise_loud.abs() > 0.1, "loud noise floor should be measurable");
    // The ratio should be close to 1 (constant amplitude), not diverging by >3x.
    let ratio = (noise_quiet / noise_loud).abs();
    assert!(ratio > 0.3 && ratio < 3.0, "noise amplitude should be roughly constant, got ratio {ratio:.2}");
}

/// Silence for 50 ms and more should not cause clipping artifacts.
#[test]
fn mbit_plus_auto_blanking_no_clipping() {
    let sr = 44_100;
    let silence_len = (sr as usize) / 10; // 100 ms of silence.

    let mut silence = mk_buffer(vec![0.0; silence_len]);
    apply(&mut silence, OutputSampleFormat::S16, DitherMode::MbitPlus, 99);

    // Exact silence should stay exact silence once blanking is active.
    let max_val = silence.channels[0].iter().map(|x| x.abs()).fold(0.0, f64::max);
    assert!(max_val < 1.0, "silence should not produce clipping, got max={}", max_val);
    assert!(silence.channels[0].iter().all(|&x| x == 0.0), "silence should be rendered as exact zero after blanking");
}

/// The filter should suppress the ear-sensitive low band much more than the high band, and
/// stronger modes should suppress it more than weaker ones.
#[test]
fn mbit_plus_fft_ntf_stronger_modes_suppress_low_band_more() {
    let fft_len = 16_384;
    let sample_rate = 44_100;

    let low = ntf_magnitude_response(MbitPlusStrength::Low, sample_rate, fft_len);
    let normal = ntf_magnitude_response(MbitPlusStrength::Normal, sample_rate, fft_len);
    let high = ntf_magnitude_response(MbitPlusStrength::High, sample_rate, fft_len);

    let low_ratio = band_power(&low, sample_rate, 20.0, 2_000.0) / band_power(&low, sample_rate, 8_000.0, 18_000.0);
    let normal_ratio = band_power(&normal, sample_rate, 20.0, 2_000.0) / band_power(&normal, sample_rate, 8_000.0, 18_000.0);
    let high_ratio = band_power(&high, sample_rate, 20.0, 2_000.0) / band_power(&high, sample_rate, 8_000.0, 18_000.0);

    assert!(low_ratio > normal_ratio, "normal should suppress the low band more than low");
    assert!(normal_ratio > high_ratio, "high should suppress the low band more than normal");
    assert!(high_ratio < 0.30, "high-strength NTF should strongly favor the high band, got ratio={high_ratio:.3}");
}

/// The notch should move with the sample-rate table instead of staying stuck at one absolute
/// frequency.
#[test]
fn mbit_plus_fft_ntf_rate_tables_move_the_notch() {
    let fft_len = 16_384;
    let (f441, _) = band_minimum_frequency(&ntf_magnitude_response(MbitPlusStrength::Normal, 44_100, fft_len), 44_100, 3_000.0, 5_000.0);
    let (f48, _) = band_minimum_frequency(&ntf_magnitude_response(MbitPlusStrength::Normal, 48_000, fft_len), 48_000, 3_000.0, 5_000.0);
    let (f882, _) = band_minimum_frequency(&ntf_magnitude_response(MbitPlusStrength::Normal, 88_200, fft_len), 88_200, 6_000.0, 8_500.0);
    let (f96, _) = band_minimum_frequency(&ntf_magnitude_response(MbitPlusStrength::Normal, 96_000, fft_len), 96_000, 6_500.0, 9_000.0);

    assert!((f441 - 3_500.0).abs() < 1_500.0, "44.1k notch should sit in the critical band, got {f441:.0} Hz");
    assert!((f48 - 3_600.0).abs() < 1_500.0, "48k notch should stay in the same perceptual zone, got {f48:.0} Hz");
    assert!((f882 - 7_000.0).abs() < 1_500.0, "88.2k notch should move upward with the rate table, got {f882:.0} Hz");
    assert!((f96 - 7_200.0).abs() < 1_500.0, "96k notch should move upward with the rate table, got {f96:.0} Hz");
}

#[test]
fn shaped_codes_follow_the_error_feedback() {
    // The shaper, written out by hand with a generator of its own.
    let sig = test_signal(64, 0.9);
    let taps = [2.033, -2.165, 1.959, -1.590, 0.6149];
    let mut rng = rand::rngs::StdRng::seed_from_u64(21);
    let mut hist = [0.0f64; 5];
    let mut expected = Vec::new();
    for &x in &sig {
        let fb: f64 = taps.iter().zip(&hist).map(|(c, h)| c * h).sum();
        let u = x * 32_767.0 - fb;
        let a: f64 = rng.gen_range(-0.5_f64..0.5_f64);
        let b: f64 = rng.gen_range(-0.5_f64..0.5_f64);
        let y = ((u + (a + b)).round() as i32).clamp(-32_767, 32_767);
        hist.rotate_right(1);
        hist[0] = y as f64 - u;
        expected.push(y as f64 / 32_767.0);
    }
    let got = quantize(&sig, DitherMode::Psychoacoustic, OutputSampleFormat::S16, 21);
    assert_eq!(got, expected);
}

use std::f64::consts::PI;

use ebur128::{EbuR128, Mode};
use mint::audio::buffer::{AudioBuffer, OutputSampleFormat, SourceInfo};
use mint::config::OnClipPolicy;
use mint::level::Level;
use mint::ops::limiter::{self, FIR_TAPS_PER_PHASE, OVERSAMPLE};
use mint::ops::loudness::{
    self, limit_and_verify, loudest, max_true_peak_dbtp, meter_hops, LoudnessAnalysis,
    LoudnessApplyResult, MeterHop,
};
use mint::refusal::Refusal;

type Buffer = AudioBuffer<f64>;

fn level(x: f64) -> Level {
    Level { bits: x.to_bits() }
}

fn number(l: Level) -> f64 {
    f64::from_bits(l.bits)
}

fn planar(buffer: &Buffer) -> Vec<&[f64]> {
    buffer.channels.iter().map(Vec::as_slice).collect()
}

fn to_db(p: Level) -> Level {
    level(20.0 * number(p).log10())
}

fn lufs(buffer: &Buffer) -> Result<Level, Refusal> {
    let mut meter = EbuR128::new(buffer.channels.len() as u32, buffer.sample_rate, Mode::I).unwrap();
    meter.add_frames_planar_f64(&planar(buffer)).unwrap();
    Ok(level(meter.loudness_global().unwrap()))
}

fn channel_peaks(meter: &EbuR128, channels: usize) -> Level {
    let peaks: Vec<Level> =
        (0..channels).map(|c| level(meter.true_peak(c as u32).unwrap())).collect();
    max_true_peak_dbtp(&peaks, &to_db)
}

fn peak(buffer: &Buffer) -> Result<Level, Refusal> {
    let channels = buffer.channels.len();
    let mut meter = EbuR128::new(channels as u32, buffer.sample_rate, Mode::TRUE_PEAK).unwrap();
    meter.add_frames_planar_f64(&planar(buffer)).unwrap();
    Ok(channel_peaks(&meter, channels))
}

fn analyze(buffer: &Buffer) -> LoudnessAnalysis {
    let channels = buffer.channels.len();
    let mut meter =
        EbuR128::new(channels as u32, buffer.sample_rate, Mode::I | Mode::LRA | Mode::TRUE_PEAK)
            .unwrap();
    let mut momentary = Vec::new();
    let mut short_term = Vec::new();
    for hop in meter_hops(buffer.frame_len(), buffer.sample_rate) {
        let slabs: Vec<&[f64]> = buffer.channels.iter().map(|c| &c[hop.start..hop.end]).collect();
        meter.add_frames_planar_f64(&slabs).unwrap();
        if hop.momentary {
            momentary.push(meter.loudness_momentary().ok().map(level));
        }
        if hop.short_term {
            short_term.push(meter.loudness_shortterm().ok().map(level));
        }
    }
    LoudnessAnalysis {
        integrated_lufs: level(meter.loudness_global().unwrap()),
        loudness_range_lu: level(meter.loudness_range().unwrap()),
        max_momentary_lufs: loudest(&momentary),
        max_short_term_lufs: loudest(&short_term),
        true_peak_dbtp: channel_peaks(&meter, channels),
    }
}

fn amplify(buffer: &Buffer, gain_db: Level) -> Buffer {
    let gain = 10_f64.powf(number(gain_db) / 20.0);
    let mut b = buffer.clone();
    for channel in &mut b.channels {
        for sample in channel {
            *sample *= gain;
        }
    }
    b
}

fn polyphase_kernels() -> Vec<Vec<f64>> {
    let half = (FIR_TAPS_PER_PHASE / 2) as isize;
    let m = (FIR_TAPS_PER_PHASE - 1) as f64;
    (0..OVERSAMPLE)
        .map(|p| {
            let frac = p as f64 / OVERSAMPLE as f64;
            let mut kernel: Vec<f64> = (0..FIR_TAPS_PER_PHASE)
                .map(|j| {
                    let x = frac - (j as isize - (half - 1)) as f64;
                    let sinc = if x.abs() < 1e-12 { 1.0 } else { (PI * x).sin() / (PI * x) };
                    let n = j as f64;
                    sinc * (0.42 - 0.5 * (2.0 * PI * n / m).cos() + 0.08 * (4.0 * PI * n / m).cos())
                })
                .collect();
            let sum: f64 = kernel.iter().sum();
            for tap in &mut kernel {
                *tap /= sum;
            }
            kernel
        })
        .collect()
}

fn limit(buffer: &Buffer, ceiling_dbtp: Level) -> Result<Buffer, Refusal> {
    let ceiling = 10_f64.powf(number(ceiling_dbtp) / 20.0);
    let release = 10_f64.powf(30.0 / (20.0 * buffer.sample_rate as f64 * OVERSAMPLE as f64));
    let mut b = buffer.clone();
    limiter::apply_true_peak_limit(
        &mut b,
        &polyphase_kernels(),
        0.0,
        &|acc: f64, x: f64, tap: f64| acc + x * tap,
        &level,
        level(ceiling),
        &|p: Level| level(ceiling / number(p)),
        &|g: u64| (f64::from_bits(g) * release).min(1.0).to_bits(),
        &|x: f64, g: u64| x * f64::from_bits(g),
    );
    Ok(b)
}

fn apply(buffer: &mut Buffer, target: f64, ceiling: f64, policy: OnClipPolicy) -> LoudnessApplyResult {
    loudness::apply(
        buffer,
        level(target),
        Some(level(ceiling)),
        Some(policy),
        &lufs,
        &peak,
        &amplify,
        &limit,
    )
    .expect("loudness apply should succeed")
}

fn enforce(buffer: &mut Buffer, ceiling: f64, policy: OnClipPolicy) -> Vec<String> {
    loudness::enforce_ceiling(buffer, level(ceiling), policy, &peak, &amplify, &limit)
        .expect("enforce should succeed")
}

fn recheck(buffer: &mut Buffer, ceiling: f64) -> Vec<String> {
    loudness::recheck_and_limit_if_needed(buffer, level(ceiling), &peak, &limit)
        .expect("recheck should succeed")
}

fn mono(ch: Vec<f64>, rate: u32) -> Buffer {
    AudioBuffer {
        channels: vec![ch],
        sample_rate: rate,
        src_info: SourceInfo {
            path: "tone.wav".to_string(),
            channels: 1,
            sample_rate: rate,
            codec: "test".to_string(),
        },
        out_format: OutputSampleFormat::F32,
    }
}

fn sine_buffer(rate: u32, seconds: f64, hz: f64, amp: f64) -> Buffer {
    let frames = (rate as f64 * seconds) as usize;
    let ch = (0..frames)
        .map(|n| {
            let t = n as f64 / rate as f64;
            (2.0 * PI * hz * t).sin() * amp
        })
        .collect();
    mono(ch, rate)
}

fn sparse_peak_buffer(rate: u32, seconds: f64, peak: f64) -> Buffer {
    let frames = (rate as f64 * seconds) as usize;
    let mut ch = vec![0.0; frames];
    if frames > 100 {
        ch[10] = peak;
        ch[60] = -peak;
    }
    mono(ch, rate)
}

#[test]
fn loudness_moves_towards_target() {
    let mut buffer = sine_buffer(48_000, 3.0, 997.0, 0.1);
    let target = -16.0;

    let result = apply(&mut buffer, target, -1.0, OnClipPolicy::Warn);

    let before = (number(result.in_lufs) - target).abs();
    let after = (number(result.out_lufs) - target).abs();
    assert!(after < before, "loudness should move closer to target");
}

#[test]
fn analyze_reports_sane_dynamics_metrics() {
    let buffer = sine_buffer(48_000, 4.0, 997.0, 0.5);
    let a = analyze(&buffer);

    assert!(number(a.integrated_lufs).is_finite(), "integrated should be finite");
    assert!(number(a.true_peak_dbtp).is_finite(), "true peak should be finite");
    assert!(number(a.max_momentary_lufs).is_finite(), "momentary max should be finite");
    assert!(
        number(a.max_short_term_lufs).is_finite(),
        "short-term max should be finite for a >3 s tone"
    );
    // A steady tone has essentially no loudness range.
    assert!(
        (0.0..1.0).contains(&number(a.loudness_range_lu)),
        "steady-tone LRA {} should be ~0",
        number(a.loudness_range_lu)
    );
    // Crest figures are exact by definition.
    assert!((number(a.plr()) - (number(a.true_peak_dbtp) - number(a.integrated_lufs))).abs() < 1e-9);
    assert!((number(a.psr()) - (number(a.true_peak_dbtp) - number(a.max_short_term_lufs))).abs() < 1e-9);
    // For a steady sine the loudest short-term window sits near the integrated value.
    assert!((number(a.max_short_term_lufs) - number(a.integrated_lufs)).abs() < 1.0);
}

#[test]
fn analyze_loudness_range_grows_with_dynamics() {
    // Steady tone: essentially no loudness range.
    let steady = sine_buffer(48_000, 12.0, 997.0, 0.5);
    let steady_lra = number(analyze(&steady).loudness_range_lu);

    // A quiet half followed by a loud half spans a wide loudness range.
    let mut dynamic = sine_buffer(48_000, 6.0, 997.0, 0.1);
    let loud = sine_buffer(48_000, 6.0, 997.0, 0.7);
    dynamic.channels[0].extend_from_slice(&loud.channels[0]);
    let dynamic_lra = number(analyze(&dynamic).loudness_range_lu);

    assert!(
        dynamic_lra > steady_lra + 3.0,
        "dynamic LRA {dynamic_lra} should exceed steady LRA {steady_lra} by several LU"
    );
    assert!(dynamic_lra > 5.0, "expected a sizable loudness range, got {dynamic_lra}");
}

#[test]
fn limit_policy_reports_gain_reduction_when_squashing_to_target() {
    // A loud source pushed louder must be limited; the reported gain reduction is
    // the headline "how hard was it squashed" number.
    let mut buffer = sine_buffer(48_000, 3.0, 997.0, 0.9);
    let ceiling = -1.0;

    let result = apply(&mut buffer, -1.0, ceiling, OnClipPolicy::Limit);

    let reduction = number(result.limiter_gain_reduction_db);
    assert!(reduction > 0.0, "limiting should have been applied (got {reduction:.3} dB GR)");
    // GR is exactly how far the post-gain peak sat above the ceiling.
    let expected = (number(result.true_peak_in_dbtp) + number(result.gain_db)) - ceiling;
    assert!(
        (reduction - expected).abs() < 1e-9,
        "GR {reduction:.6} should equal predicted_tp - ceiling {expected:.6}"
    );
    // ...and the limiter actually held the ceiling (within its convergence tolerance;
    // precise ceiling-holding is covered by the dedicated limiter tests).
    let out = number(result.true_peak_out_dbtp);
    assert!(
        out <= ceiling + 0.1,
        "true peak {out:.3} should be at or near ceiling {ceiling:.3}"
    );
}

#[test]
fn limit_policy_reports_zero_gain_reduction_when_within_ceiling() {
    // Quiet source raised by a few dB stays well under the ceiling: no limiting.
    let mut buffer = sine_buffer(48_000, 3.0, 997.0, 0.1);

    let result = apply(&mut buffer, -20.0, -1.0, OnClipPolicy::Limit);

    assert_eq!(
        number(result.limiter_gain_reduction_db),
        0.0,
        "no limiting expected when the post-gain peak stays under the ceiling"
    );
}

#[test]
fn reduce_gain_policy_caps_predicted_peak() {
    let mut buffer = sparse_peak_buffer(48_000, 3.0, 0.95);
    let target = -16.0;

    let result = apply(&mut buffer, target, -1.0, OnClipPolicy::ReduceGain);

    assert!(
        number(result.true_peak_out_dbtp) <= -0.8,
        "true peak should remain close to configured ceiling"
    );
    assert!(
        result.warnings.iter().any(|w| w.contains("reduce_gain applied")),
        "reduce_gain warning should be emitted"
    );
}

#[test]
fn limiter_holds_ceiling_against_bs1770_meter_for_inter_sample_peaks() {
    // A high-frequency, near-full-scale sine has true (inter-sample) peaks well above
    // its sample peaks. After enforcement, the BS.1770 meter itself must agree the ceiling
    // is held.
    let ceiling = -1.0;
    let mut buffer = sine_buffer(48_000, 1.0, 11_000.0, 0.97);

    let before = number(peak(&buffer).expect("measure"));
    assert!(before > ceiling, "test needs a source above the ceiling (got {before:.2})");

    let warnings = enforce(&mut buffer, ceiling, OnClipPolicy::Limit);
    assert!(!warnings.is_empty(), "limiter ran; expected a warning");

    let after = number(peak(&buffer).expect("measure"));
    // 0.05 dB tolerance matches the verifier; allow a hair more for measurement noise.
    assert!(
        after <= ceiling + 0.1,
        "true peak {after:.3} dBTP must be held at/under ceiling {ceiling:.3} (was {before:.3})"
    );
}

#[test]
fn recheck_applies_limiter_when_ceiling_exceeded() {
    let ceiling_dbtp = -1.0;
    let ceiling_lin = 10_f64.powf(ceiling_dbtp / 20.0);

    // Build a buffer with one sample pushed 5% above the ceiling.
    let mut buffer = sine_buffer(48_000, 3.0, 997.0, 0.1);
    buffer.channels[0][100] = ceiling_lin * 1.05;

    let warn = recheck(&mut buffer, ceiling_dbtp);

    assert!(!warn.is_empty(), "limiter was applied; must produce a warning");
    let max_sample = buffer.channels[0].iter().map(|s| s.abs()).fold(0.0_f64, f64::max);
    assert!(
        max_sample <= ceiling_lin + 1e-6,
        "sample {max_sample:.6} must be at or below ceiling {ceiling_lin:.6} after re-check"
    );
}

#[test]
fn enforce_ceiling_limits_transcode_without_loudness() {
    // No loudness normalization happened, but a sample sits above the ceiling.
    let ceiling_dbtp = -1.0;
    let ceiling_lin = 10_f64.powf(ceiling_dbtp / 20.0);
    let mut buffer = sine_buffer(48_000, 1.0, 997.0, 0.1);
    buffer.channels[0][100] = ceiling_lin * 1.10;

    let warnings = enforce(&mut buffer, ceiling_dbtp, OnClipPolicy::Limit);

    assert!(!warnings.is_empty(), "limiter ran; expected a warning");
    let max_sample = buffer.channels[0].iter().map(|s| s.abs()).fold(0.0, f64::max);
    assert!(
        max_sample <= ceiling_lin + 1e-6,
        "peak {max_sample:.6} must be at or below ceiling {ceiling_lin:.6}"
    );
}

#[test]
fn enforce_ceiling_warn_policy_leaves_samples_untouched() {
    let ceiling_dbtp = -1.0;
    let ceiling_lin = 10_f64.powf(ceiling_dbtp / 20.0);
    let mut buffer = sine_buffer(48_000, 1.0, 997.0, 0.1);
    buffer.channels[0][100] = ceiling_lin * 1.10;
    let before = buffer.channels[0][100];

    let warnings = enforce(&mut buffer, ceiling_dbtp, OnClipPolicy::Warn);

    assert!(warnings.iter().any(|w| w.contains("on_clip=warn")));
    assert_eq!(buffer.channels[0][100], before, "warn must not alter samples");
}

#[test]
fn recheck_leaves_buffer_unchanged_when_within_ceiling() {
    let mut buffer = sine_buffer(48_000, 3.0, 997.0, 0.5);
    let sum_before: f64 = buffer.channels[0].iter().sum();

    let warn = recheck(&mut buffer, -1.0);

    assert!(warn.is_empty(), "no warning expected when signal is within ceiling");
    let sum_after: f64 = buffer.channels[0].iter().sum();
    assert!(
        (sum_before - sum_after).abs() < 1e-10,
        "buffer must be untouched when already within ceiling"
    );
}

// From here on a buffer is a number: its loudness is the number, its peak the number plus ten.

fn toy_lufs(b: &f64) -> Result<Level, String> {
    Ok(level(*b))
}

fn toy_peak(b: &f64) -> Result<Level, String> {
    Ok(level(*b + 10.0))
}

fn toy_amplify(b: &f64, gain: Level) -> f64 {
    b + number(gain)
}

fn toy_limit(b: &f64, ceiling: Level) -> Result<f64, String> {
    Ok(b.min(number(ceiling) - 10.0))
}

#[test]
fn loudness_step_applies_the_whole_gain() {
    let mut b = -30.0;
    let r = loudness::apply(
        &mut b,
        level(-20.0),
        None,
        None,
        &toy_lufs,
        &toy_peak,
        &toy_amplify,
        &toy_limit,
    )
    .unwrap();
    assert_eq!(b, -20.0);
    assert_eq!(number(r.in_lufs), -30.0);
    assert_eq!(number(r.out_lufs), -20.0);
    assert_eq!(number(r.gain_db), 10.0);
    assert_eq!(number(r.true_peak_in_dbtp), -20.0);
    assert_eq!(number(r.true_peak_out_dbtp), -10.0);
    assert!(r.warnings.is_empty());
}

#[test]
fn loudness_step_limits_down_to_the_default_ceiling() {
    let mut b = -30.0;
    let r = loudness::apply(
        &mut b,
        level(-5.0),
        None,
        None,
        &toy_lufs,
        &toy_peak,
        &toy_amplify,
        &toy_limit,
    )
    .unwrap();
    // The peak would be at 5 dBTP; the default ceiling is -1.
    assert_eq!(number(r.limiter_gain_reduction_db), 6.0);
    assert_eq!(b, -11.0);
    assert!(r.warnings.is_empty());
}

#[test]
fn warn_and_reduce_gain_say_so() {
    let mut b = -30.0;
    let r = loudness::apply(
        &mut b,
        level(-5.0),
        Some(level(-1.0)),
        Some(OnClipPolicy::Warn),
        &toy_lufs,
        &toy_peak,
        &toy_amplify,
        &toy_limit,
    )
    .unwrap();
    assert_eq!(b, -5.0);
    assert_eq!(r.warnings, vec!["predicted true peak 5.00 dBTP exceeds ceiling -1.00 dBTP"]);

    let mut b = -30.0;
    let r = loudness::apply(
        &mut b,
        level(-5.0),
        Some(level(-1.0)),
        Some(OnClipPolicy::ReduceGain),
        &toy_lufs,
        &toy_peak,
        &toy_amplify,
        &toy_limit,
    )
    .unwrap();
    assert_eq!(b, -11.0);
    assert_eq!(number(r.gain_db), 19.0);
    assert_eq!(
        r.warnings,
        vec!["clip policy reduce_gain applied; target LUFS may not be reached (predicted 5.00 dBTP > ceiling -1.00 dBTP)"]
    );
}

#[test]
fn a_limiter_that_undershoots_is_run_again() {
    // The limiter leaves the peak 0.3 dB above what it is asked for.
    let sloppy = |b: &f64, ceiling: Level| -> Result<f64, String> {
        Ok(b.min(number(ceiling) - 10.0 + 0.3))
    };
    let mut b = 0.0;
    let (tp, passes) = limit_and_verify(&mut b, level(-1.0), &sloppy, &toy_peak).unwrap();
    assert_eq!(passes, 2);
    assert!((number(tp) + 1.0).abs() < 1e-9);
    assert!((b + 11.0).abs() < 1e-9);
}

#[test]
fn a_limiter_that_does_nothing_is_given_up_on() {
    let idle = |b: &f64, _ceiling: Level| -> Result<f64, String> { Ok(*b) };
    let mut b = 0.0;
    let (tp, passes) = limit_and_verify(&mut b, level(-1.0), &idle, &toy_peak).unwrap();
    assert_eq!(passes, 6);
    assert_eq!(number(tp), 10.0);
    let warnings =
        loudness::enforce_ceiling(&mut b, level(-1.0), OnClipPolicy::Limit, &toy_peak, &toy_amplify, &idle)
            .unwrap();
    assert_eq!(
        warnings,
        vec![
            "true peak 10.00 dBTP exceeded ceiling -1.00 dBTP; limiter applied",
            "true peak still 10.00 dBTP after 6 limiter passes"
        ]
    );
}

#[test]
fn failures_of_the_meters_are_passed_on() {
    let broken = |_b: &f64| -> Result<Level, String> { Err("no meter".to_string()) };
    let mut b = -30.0;
    let r = loudness::apply(
        &mut b,
        level(-5.0),
        None,
        None,
        &broken,
        &toy_peak,
        &toy_amplify,
        &toy_limit,
    );
    assert_eq!(r.err(), Some("no meter".to_string()));
    assert_eq!(b, -30.0);
    let r = loudness::recheck_and_limit_if_needed(&mut b, level(-1.0), &broken, &toy_limit);
    assert_eq!(r.err(), Some("no meter".to_string()));
}

#[test]
fn reduced_gain_is_reported_in_decibels() {
    let mut b = 0.0;
    let warnings = loudness::enforce_ceiling(
        &mut b,
        level(-1.0),
        OnClipPolicy::ReduceGain,
        &toy_peak,
        &toy_amplify,
        &toy_limit,
    )
    .unwrap();
    assert_eq!(b, -11.0);
    assert_eq!(
        warnings,
        vec!["true peak 10.00 dBTP exceeded ceiling -1.00 dBTP; reduced gain by -11.00 dB"]
    );
}

#[test]
fn hops_are_a_tenth_of_a_second() {
    let hops = meter_hops(450, 1_000);
    assert_eq!(hops.len(), 5);
    assert_eq!(hops[3], MeterHop { start: 300, end: 400, momentary: true, short_term: false });
    assert_eq!(hops[4], MeterHop { start: 400, end: 450, momentary: true, short_term: false });
    assert!(!hops[2].momentary);
    assert!(meter_hops(0, 48_000).is_empty());
    assert!(meter_hops(3_000, 1_000).last().unwrap().short_term);
    assert_eq!(meter_hops(3, 5).len(), 3);
}

#[test]
fn readings_that_are_not_finite_do_not_count() {
    assert_eq!(number(loudest(&vec![])), f64::NEG_INFINITY);
    let readings = vec![
        Some(level(-20.0)),
        None,
        Some(level(f64::INFINITY)),
        Some(level(-15.5)),
        Some(level(f64::NAN)),
        Some(level(-16.0)),
    ];
    assert_eq!(number(loudest(&readings)), -15.5);
    let peaks = vec![level(0.0), level(0.5), level(0.25)];
    assert_eq!(number(max_true_peak_dbtp(&peaks, &to_db)), 20.0 * 0.5f64.log10());
    assert_eq!(number(max_true_peak_dbtp(&vec![level(0.0)], &to_db)), f64::NEG_INFINITY);
}

#[test]
fn the_meter_follows_a_gain_to_within_the_slack() {
    let slack = 1.0 / 256.0;
    for signal in [
        sine_buffer(48_000, 0.5, 997.0, 0.25),
        sine_buffer(44_100, 0.5, 11_025.0, 1.0e-6),
        sparse_peak_buffer(48_000, 0.5, 0.9),
        mono((0..9000).map(|i| ((i * 7919) % 2001) as f64 / 1000.0 - 1.0).collect(), 44_100),
    ] {
        let tp = peak(&signal).unwrap();
        for gain in [-200.0, -37.3, -1.0, -0.01, 0.0, 0.123, 6.02, 48.0, 200.0] {
            let x = peak(&amplify(&signal, level(gain))).unwrap();
            let predicted = tp.plus(level(gain));
            assert!(number(x.minus(predicted)).abs() <= slack, "{gain}: {} {}", number(x), number(predicted));
        }
    }
    let silence = mono(vec![0.0; 9000], 48_000);
    assert_eq!(number(peak(&silence).unwrap()), f64::NEG_INFINITY);
    for gain in [-6.0, 100.0, f64::INFINITY] {
        assert_eq!(number(peak(&amplify(&silence, level(gain))).unwrap()), f64::NEG_INFINITY);
    }
}

#[test]
fn every_policy_ends_at_the_ceiling_of_the_meter() {
    for policy in [OnClipPolicy::Limit, OnClipPolicy::ReduceGain] {
        for target in [-30.0, -16.0, -9.0] {
            let mut buffer = sparse_peak_buffer(48_000, 2.0, 0.9);
            apply(&mut buffer, target, -1.0, policy);
            assert!(number(peak(&buffer).unwrap()) <= -1.0 + 0.05);
            let mut buffer = sine_buffer(48_000, 2.0, 997.0, 0.99);
            enforce(&mut buffer, -1.0, policy);
            assert!(number(peak(&buffer).unwrap()) <= -1.0 + 0.05);
        }
    }
}

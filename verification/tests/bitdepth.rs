use mint::audio::buffer::{AudioBuffer, OutputSampleFormat, SourceInfo};
use mint::config::{DitherCorrelation, DitherMode, DitherStrength};
use mint::level::Level;
use mint::ops::bitdepth::{self, BitDepthApplyResult};
use mint::refusal::Refusal;
use rand::rngs::StdRng;
use rand::{Rng, SeedableRng};

const UNIT: f64 = 1.0 / 9_007_199_254_740_992.0;

fn level(x: f64) -> Level {
    Level { bits: x.to_bits() }
}

fn aim(x: f64, taps: &Vec<i32>, hist: &Vec<f64>, max: i32) -> f64 {
    let fb: f64 = taps.iter().zip(hist).map(|(t, h)| *t as f64 / 10_000.0 * h).sum();
    x.clamp(-1.0, 1.0) * max as f64 - fb
}

fn noisy(u: f64, n: i64) -> Level {
    level(u + n as f64 * UNIT)
}

fn miss(y: i32, u: f64) -> f64 {
    y as f64 - u
}

fn flat(x: f64, n: i64, max: i32) -> Level {
    level((x.clamp(-1.0, 1.0) + n as f64 * UNIT / max as f64) * max as f64)
}

fn code(y: i32, max: i32) -> f64 {
    y as f64 / max as f64
}

fn apply(
    buffer: &mut AudioBuffer<f64>,
    current: &mut OutputSampleFormat,
    target: OutputSampleFormat,
    mode: Option<DitherMode>,
    seed: Option<u64>,
) -> Result<BitDepthApplyResult, Refusal> {
    bitdepth::apply(
        buffer, current, target, mode, None, None, seed, 0.0, &level, &aim, &noisy, &miss, &flat,
        &code,
    )
}

fn mk_buffer(samples: &[f64]) -> AudioBuffer<f64> {
    stereo(vec![samples.to_vec()])
}

fn stereo(channels: Vec<Vec<f64>>) -> AudioBuffer<f64> {
    let count = channels.len();
    AudioBuffer {
        channels,
        sample_rate: 48_000,
        src_info: SourceInfo {
            path: "test.wav".to_string(),
            channels: count,
            sample_rate: 48_000,
            codec: "test".to_string(),
        },
        out_format: OutputSampleFormat::F32,
    }
}

#[test]
fn reduction_without_dither_is_rejected() {
    let mut buffer = mk_buffer(&[0.0, 0.2, -0.2]);
    let mut current = OutputSampleFormat::F32;

    let err = apply(
        &mut buffer,
        &mut current,
        OutputSampleFormat::S16,
        Some(DitherMode::Off),
        Some(1),
    )
    .expect_err("reduction with dither none must fail");

    assert!(err.message.contains("not allowed"));
    assert_eq!(buffer.channels, vec![vec![0.0, 0.2, -0.2]]);
    assert_eq!(current, OutputSampleFormat::F32);
}

#[test]
fn seeded_tpdf_is_reproducible() {
    let mut a = mk_buffer(&[0.1, -0.1, 0.1234, -0.9876]);
    let mut b = mk_buffer(&[0.1, -0.1, 0.1234, -0.9876]);

    let mut current_a = OutputSampleFormat::F32;
    let mut current_b = OutputSampleFormat::F32;

    apply(&mut a, &mut current_a, OutputSampleFormat::S16, Some(DitherMode::Tpdf), Some(42))
        .expect("apply should succeed");

    apply(&mut b, &mut current_b, OutputSampleFormat::S16, Some(DitherMode::Tpdf), Some(42))
        .expect("apply should succeed");

    assert_eq!(a.channels, b.channels);
}

#[test]
fn quantized_samples_snap_to_integer_grid() {
    let mut buffer = mk_buffer(&[0.5, -0.5, 0.999999, -0.999999]);
    let mut current = OutputSampleFormat::F32;

    apply(&mut buffer, &mut current, OutputSampleFormat::S16, Some(DitherMode::Tpdf), Some(7))
        .expect("apply should succeed");

    let max = 32_767.0;
    for sample in &buffer.channels[0] {
        let scaled = sample * max;
        let rounded = scaled.round();
        assert!((scaled - rounded).abs() < 1e-9, "sample not on integer grid");
        assert!(*sample <= 1.0 && *sample >= -1.0);
    }
}

#[test]
fn flat_dither_draws_one_stream_for_all_channels() {
    // What a generator of its own gives, drawn in the same order.
    let left = vec![0.25, -0.75, 0.1];
    let right = vec![0.5, 0.0, -1.0];
    let mut rng = StdRng::seed_from_u64(11);
    let mut expected: Vec<Vec<f64>> = Vec::new();
    for channel in [&left, &right] {
        let mut out = Vec::new();
        for &x in channel {
            let a: f64 = rng.gen_range(-0.5_f64..0.5_f64);
            let b: f64 = rng.gen_range(-0.5_f64..0.5_f64);
            let max = 8_388_607.0;
            let scaled = ((x + (a + b) / max) * max).round() as i32;
            out.push(scaled.clamp(-8_388_607, 8_388_607) as f64 / max);
        }
        expected.push(out);
    }

    let mut buffer = stereo(vec![left, right]);
    let mut current = OutputSampleFormat::F32;
    let done =
        apply(&mut buffer, &mut current, OutputSampleFormat::S24, None, Some(11)).unwrap();
    assert!(done.reduced && done.dithered && !done.shaped);
    assert_eq!(done.shaping_tag, None);
    assert_eq!(buffer.channels, expected);
    assert_eq!(buffer.out_format, OutputSampleFormat::S24);
}

#[test]
fn precision_that_is_kept_leaves_the_samples_alone() {
    for (current, target) in [
        (OutputSampleFormat::F32, OutputSampleFormat::F32),
        (OutputSampleFormat::S16, OutputSampleFormat::S24),
        (OutputSampleFormat::S16, OutputSampleFormat::S16),
    ] {
        let mut buffer = mk_buffer(&[0.1234567, -0.7654321]);
        let mut format = current;
        let done = apply(&mut buffer, &mut format, target, Some(DitherMode::Off), None).unwrap();
        assert!(!done.reduced && !done.dithered && !done.shaped);
        assert_eq!(buffer.channels, vec![vec![0.1234567, -0.7654321]]);
        assert_eq!(format, target);
        assert_eq!(buffer.out_format, target);
    }
}

#[test]
fn tags_name_the_quantizer() {
    let tag = |mode: DitherMode, target: OutputSampleFormat| {
        let mut buffer = mk_buffer(&[0.1, 0.2]);
        let mut current = OutputSampleFormat::F32;
        apply(&mut buffer, &mut current, target, Some(mode), Some(3)).unwrap().shaping_tag
    };
    assert_eq!(tag(DitherMode::Shaped, OutputSampleFormat::S16), Some("gentle"));
    assert_eq!(tag(DitherMode::Psychoacoustic, OutputSampleFormat::S16), Some("psychoacoustic"));
    assert_eq!(tag(DitherMode::MbitPlus, OutputSampleFormat::S16), Some("mbit+"));
    assert_eq!(tag(DitherMode::Tpdf, OutputSampleFormat::S16), None);
    assert_eq!(tag(DitherMode::Shaped, OutputSampleFormat::S24), None);
}

#[test]
fn ranks_order_the_formats() {
    assert!(bitdepth::is_reduction(OutputSampleFormat::F32, OutputSampleFormat::S24));
    assert!(bitdepth::is_reduction(OutputSampleFormat::S24, OutputSampleFormat::S16));
    assert!(!bitdepth::is_reduction(OutputSampleFormat::S16, OutputSampleFormat::S24));
    assert!(!bitdepth::is_reduction(OutputSampleFormat::S24, OutputSampleFormat::F32));
    assert_eq!(bitdepth::bit_depth_rank(OutputSampleFormat::F32), 3);
    assert!(bitdepth::is_mbit_plus(DitherMode::MbitPlus, OutputSampleFormat::S16));
    assert!(!bitdepth::is_mbit_plus(DitherMode::MbitPlus, OutputSampleFormat::S24));
}

#[test]
fn strength_and_correlation_change_the_codes() {
    let sig: Vec<f64> = (0..512).map(|i| 0.3 * (i as f64 * 0.07).sin()).collect();
    let run = |strength: DitherStrength, correlation: DitherCorrelation| {
        let mut buffer = stereo(vec![sig.clone(), sig.clone()]);
        let mut current = OutputSampleFormat::F32;
        bitdepth::apply(
            &mut buffer,
            &mut current,
            OutputSampleFormat::S16,
            Some(DitherMode::MbitPlus),
            Some(strength),
            Some(correlation),
            Some(5),
            0.0,
            &level,
            &aim,
            &noisy,
            &miss,
            &flat,
            &code,
        )
        .unwrap();
        buffer.channels
    };
    let normal = run(DitherStrength::Normal, DitherCorrelation::Decorrelated);
    let high = run(DitherStrength::High, DitherCorrelation::Decorrelated);
    assert_ne!(normal, high);
    let together = run(DitherStrength::Normal, DitherCorrelation::Correlated);
    assert_eq!(together[0], together[1]);
    assert_ne!(normal[0], normal[1]);
}

#[test]
fn noise_without_a_seed_stays_within_the_dither_width() {
    let samples: Vec<f64> = (0..2000).map(|i| (i as f64 * 0.01).sin() * 0.9).collect();
    for _ in 0..3 {
        let mut buffer = mk_buffer(&samples);
        let mut current = OutputSampleFormat::F32;
        let done = apply(
            &mut buffer,
            &mut current,
            OutputSampleFormat::S16,
            Some(DitherMode::Tpdf),
            None,
        )
        .unwrap();
        assert!(done.dithered && !done.shaped);
        for (x, y) in samples.iter().zip(&buffer.channels[0]) {
            // Half a step of rounding on top of one step of noise.
            assert!((x * 32_767.0 - y * 32_767.0).abs() <= 1.5 + 1e-9);
        }
    }
}

#[test]
fn channels_that_share_a_stream_differ_from_those_of_another_seed() {
    let signal = vec![vec![0.3; 400], vec![0.3; 400]];
    let run = |seed: u64| {
        let mut buffer = stereo(signal.clone());
        let mut current = OutputSampleFormat::F32;
        apply(&mut buffer, &mut current, OutputSampleFormat::S16, Some(DitherMode::Tpdf), Some(seed))
            .unwrap();
        buffer.channels
    };
    assert_eq!(run(5), run(5));
    assert_ne!(run(5), run(6));
}

#[test]
fn quantized_samples_are_written_as_their_codes() {
    let samples: Vec<f64> = (0..500).map(|i| (i as f64 * 0.37).sin()).collect();
    let mut buffer = mk_buffer(&samples);
    let mut current = OutputSampleFormat::F32;
    apply(&mut buffer, &mut current, OutputSampleFormat::S16, Some(DitherMode::Shaped), Some(3))
        .unwrap();
    let scale = |x: f64, max: i32| level(x * max as f64);
    let bytes = mint::audio::io_write::write_wav(&buffer, None, &scale).unwrap();
    let codes: Vec<f64> =
        buffer.channels[0].iter().map(|x| (x * 32_767.0).round()).collect();
    let written: Vec<f64> = hound::WavReader::new(std::io::Cursor::new(bytes))
        .unwrap()
        .samples::<i32>()
        .map(|s| s.unwrap() as f64)
        .collect();
    assert_eq!(written, codes);
    for (y, x) in written.iter().zip(&buffer.channels[0]) {
        assert_eq!(y / 32_767.0, *x);
    }
}

#[test]
fn no_family_of_shaping_is_named_where_nothing_is_quantized() {
    for (current, target) in [
        (OutputSampleFormat::S16, OutputSampleFormat::S16),
        (OutputSampleFormat::S16, OutputSampleFormat::S24),
        (OutputSampleFormat::F32, OutputSampleFormat::F32),
    ] {
        for mode in [DitherMode::MbitPlus, DitherMode::Shaped, DitherMode::Psychoacoustic] {
            let mut buffer = mk_buffer(&[0.1, -0.1]);
            let mut format = current;
            let r = apply(&mut buffer, &mut format, target, Some(mode), Some(1)).unwrap();
            assert!(!r.reduced && !r.dithered && !r.shaped);
            assert_eq!(r.shaping_tag, None);
            assert_eq!(buffer.channels, vec![vec![0.1, -0.1]]);
        }
    }
}

#[test]
fn the_first_channel_is_reduced_as_it_would_be_alone() {
    let wave = |k: f64| -> Vec<f64> { (0..700).map(|i| 0.4 * (i as f64 * k).sin()).collect() };
    let run = |channels: Vec<Vec<f64>>, mode: DitherMode, correlation: DitherCorrelation| {
        let mut buffer = stereo(channels);
        let mut current = OutputSampleFormat::F32;
        bitdepth::apply(
            &mut buffer,
            &mut current,
            OutputSampleFormat::S16,
            Some(mode),
            None,
            Some(correlation),
            Some(7),
            0.0,
            &level,
            &aim,
            &noisy,
            &miss,
            &flat,
            &code,
        )
        .unwrap();
        buffer.channels
    };
    let modes =
        [DitherMode::Tpdf, DitherMode::Shaped, DitherMode::Psychoacoustic, DitherMode::MbitPlus];
    for mode in modes {
        for correlation in [DitherCorrelation::Decorrelated, DitherCorrelation::Correlated] {
            let alone = run(vec![wave(0.05)], mode, correlation);
            for count in 1..4 {
                let mut channels = vec![wave(0.05)];
                for c in 0..count {
                    channels.push(wave(0.11 + c as f64));
                }
                assert_eq!(run(channels, mode, correlation)[0], alone[0]);
            }
        }
    }
    // Mid and side noise of two channels mixes the streams.
    let both = run(vec![wave(0.05), wave(0.11)], DitherMode::MbitPlus, DitherCorrelation::MidSide);
    let alone = run(vec![wave(0.05)], DitherMode::MbitPlus, DitherCorrelation::MidSide);
    assert_ne!(both[0], alone[0]);
}

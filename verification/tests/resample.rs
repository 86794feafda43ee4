use std::f64::consts::PI;

use mint::audio::buffer::{AudioBuffer, OutputSampleFormat, SourceInfo};
use mint::config::ResampleQuality;
use mint::ops::resample::{
    self, aligned, append_non_interleaved, chunk_size, expected_frames, fit_length,
    quality_params, soxr_quality, through_chunks, through_interleaved, Drain, Feed, Interpolation,
    Recipe, Window, MARGIN,
};
use rubato::{
    Resampler, SincFixedIn, SincInterpolationParameters, SincInterpolationType, WindowFunction,
};

fn params(quality: ResampleQuality) -> SincInterpolationParameters {
    let plan = quality_params(Some(quality));
    SincInterpolationParameters {
        sinc_len: plan.sinc_len,
        f_cutoff: plan.cutoff as f32 / 1000.0,
        oversampling_factor: plan.oversampling_factor,
        interpolation: match plan.interpolation {
            Interpolation::Linear => SincInterpolationType::Linear,
            Interpolation::Quadratic => SincInterpolationType::Quadratic,
            Interpolation::Cubic => SincInterpolationType::Cubic,
        },
        window: match plan.window {
            Window::Hann => WindowFunction::Hann,
            Window::Blackman => WindowFunction::Blackman,
            Window::BlackmanHarris => WindowFunction::BlackmanHarris,
            Window::BlackmanHarris2 => WindowFunction::BlackmanHarris2,
        },
    }
}

fn step(
    mut r: SincFixedIn<f64>,
    feed: Feed<f64>,
) -> Result<(SincFixedIn<f64>, Vec<Vec<f64>>), String> {
    let out = match feed {
        Feed::Chunk(c) => r.process(&c, None),
        Feed::Rest(c) => r.process_partial(Some(&c), None),
        Feed::Flush => r.process_partial::<Vec<f64>>(None, None),
    };
    match out {
        Ok(o) => Ok((r, o)),
        Err(e) => Err(format!("{e}")),
    }
}

fn convert(
    channels: &Vec<Vec<f64>>,
    source: u32,
    target: u32,
    quality: ResampleQuality,
    _expected: usize,
) -> Result<Vec<Vec<f64>>, String> {
    let frames = channels[0].len();
    let ratio = target as f64 / source as f64;
    let r = SincFixedIn::<f64>::new(ratio, 1.0, params(quality), chunk_size(frames), channels.len())
        .map_err(|e| format!("{e}"))?;
    through_chunks(channels, frames, r, &|r: &SincFixedIn<f64>| r.input_frames_next(), &step)
}

fn buf_from(rate: u32, ch: Vec<f64>) -> AudioBuffer<f64> {
    AudioBuffer {
        channels: vec![ch],
        sample_rate: rate,
        src_info: SourceInfo {
            path: "t.wav".to_string(),
            channels: 1,
            sample_rate: rate,
            codec: "test".to_string(),
        },
        out_format: OutputSampleFormat::F32,
    }
}

fn sine(rate: u32, frames: usize, hz: f64, amp: f64) -> Vec<f64> {
    (0..frames)
        .map(|n| (2.0 * PI * hz * n as f64 / rate as f64).sin() * amp)
        .collect()
}

fn apply(buffer: &mut AudioBuffer<f64>, target: u32, quality: ResampleQuality) {
    resample::apply(buffer, target, Some(quality), 0.0, &convert).expect("resample should succeed");
}

#[test]
fn resample_output_length_matches_theoretical_ratio() {
    let mut buffer = buf_from(48_000, sine(48_000, 48_000, 997.0, 0.5));
    apply(&mut buffer, 44_100, ResampleQuality::Hq);

    let expected = (48_000_f64 * (44_100_f64 / 48_000_f64)).round() as usize;
    assert_eq!(buffer.frame_len(), expected);
    assert_eq!(buffer.sample_rate, 44_100);
}

#[test]
fn soxr_output_length_matches_theoretical_ratio() {
    let mut buffer = buf_from(48_000, sine(48_000, 48_000, 997.0, 0.5));
    apply(&mut buffer, 44_100, ResampleQuality::Vhq);
    let expected = (48_000_f64 * (44_100_f64 / 48_000_f64)).round() as usize;
    assert_eq!(buffer.frame_len(), expected);
    assert_eq!(buffer.sample_rate, 44_100);
}

#[test]
fn resampling_keeps_a_tone() {
    let mut buffer = buf_from(48_000, sine(48_000, 24_000, 997.0, 0.5));
    apply(&mut buffer, 96_000, ResampleQuality::Hq);
    assert_eq!(buffer.frame_len(), 48_000);
    let mid = &buffer.channels[0][12_000..36_000];
    let peak = mid.iter().fold(0.0f64, |m, x| m.max(x.abs()));
    assert!((peak - 0.5).abs() < 1e-3, "peak {peak}");
}

#[test]
fn equal_rates_and_empty_buffers_need_no_conversion() {
    let refuse = |_c: &Vec<Vec<f64>>, _a: u32, _b: u32, _q: ResampleQuality, _n: usize| {
        Err::<Vec<Vec<f64>>, String>("must not be called".to_string())
    };
    let mut same = buf_from(48_000, vec![0.1, 0.2]);
    resample::apply(&mut same, 48_000, None, 0.0, &refuse).unwrap();
    assert_eq!(same.channels, vec![vec![0.1, 0.2]]);
    let mut empty = buf_from(48_000, vec![]);
    resample::apply(&mut empty, 44_100, None, 0.0, &refuse).unwrap();
    assert_eq!(empty.sample_rate, 44_100);
    let mut failing = buf_from(48_000, vec![0.1, 0.2]);
    let err = resample::apply(&mut failing, 44_100, None, 0.0, &refuse).unwrap_err();
    assert_eq!(err, "must not be called");
    assert_eq!(failing.sample_rate, 48_000);
    assert_eq!(failing.channels, vec![vec![0.1, 0.2]]);
}

#[test]
fn results_are_fitted_to_the_expected_length() {
    let seen = |c: &Vec<Vec<f64>>, a: u32, b: u32, q: ResampleQuality, n: usize| {
        assert_eq!((a, b, q, n), (2, 4, ResampleQuality::Hq, 6));
        Ok::<Vec<Vec<f64>>, String>(vec![c[0].iter().map(|x| x * 10.0).collect()])
    };
    let mut buffer = buf_from(2, vec![1.0, 2.0, 3.0]);
    resample::apply(&mut buffer, 4, None, 0.0, &seen).unwrap();
    assert_eq!(buffer.channels, vec![vec![10.0, 20.0, 30.0, 0.0, 0.0, 0.0]]);
    assert_eq!(buffer.sample_rate, 4);
}

#[test]
fn lengths_are_rounded_to_the_nearest_frame() {
    assert_eq!(expected_frames(48_000, 48_000, 44_100), Some(44_100));
    assert_eq!(expected_frames(3, 2, 1), Some(2));
    assert_eq!(expected_frames(5, 4, 1), Some(1));
    assert_eq!(expected_frames(7, 44_100, 48_000), Some(8));
    assert_eq!(expected_frames(0, 44_100, 48_000), Some(0));
    assert_eq!(expected_frames(usize::MAX, 1, 4_000_000_000), None);
    for n in [1usize, 999, 44_099, 123_457] {
        let ratio = 48_000.0 / 44_100.0;
        assert_eq!(expected_frames(n, 44_100, 48_000), Some((n as f64 * ratio).round() as usize));
        let up = expected_frames(n, 44_100, 48_000).unwrap();
        assert_eq!(expected_frames(up, 48_000, 44_100), Some(n));
        assert_eq!(expected_frames(n, 44_100, 44_100), Some(n));
    }
}

#[test]
fn streams_are_aligned_behind_their_delay() {
    // Three frames of two channels were produced, the first is the delay.
    let stream = vec![1, 2, 3, 4, 5, 6, 99, 99];
    assert_eq!(aligned(&stream, 2, 3, 1, 3, 0), vec![vec![3, 5, 0], vec![4, 6, 0]]);
    assert_eq!(aligned(&stream, 2, 3, 9, 2, 0), vec![vec![0, 0], vec![0, 0]]);
    let through = through_interleaved(
        &vec![vec![1, 2], vec![10, 20]],
        2,
        3,
        0,
        &|input: &Vec<i32>, channels: usize, wanted: usize| {
            assert_eq!((input.clone(), channels, wanted), (vec![1, 10, 2, 20], 2, 3));
            Ok::<(Vec<i32>, usize, usize), String>((vec![0, 0, 7, 8, 9, 10], 3, 1))
        },
    );
    assert_eq!(through.unwrap(), vec![vec![7, 9, 0], vec![8, 10, 0]]);
    let failed = through_interleaved(&vec![vec![1]], 1, 1, 0, &|_i: &Vec<i32>, _c, _n| {
        Err::<(Vec<i32>, usize, usize), String>("broken".to_string())
    });
    assert_eq!(failed.unwrap_err(), "broken");
}

#[test]
fn draining_ends_when_nothing_comes() {
    let mut d = Drain::new(10, 5).unwrap();
    assert_eq!(d.capacity, 15 + MARGIN);
    assert!(!d.record(15 + MARGIN));
    assert!(d.is_full());
    assert!(d.grow());
    assert!(!d.is_full());
    assert_eq!(d.capacity, 15 + 2 * MARGIN);
    assert!(d.record(0));
    assert_eq!(d.produced, 15 + MARGIN);
    assert!(Drain::new(usize::MAX, 1).is_none());
    let mut huge = Drain { produced: 0, capacity: usize::MAX };
    assert!(!huge.grow());
}

/// A resampler that writes down what it is fed: it takes chunks of three and gives back what it
/// got, and holds one more frame back.
#[derive(Clone, Debug, PartialEq)]
struct Log {
    fed: Vec<String>,
    held: usize,
}

fn logged(mut log: Log, feed: Feed<i32>) -> Result<(Log, Vec<Vec<i32>>), String> {
    match feed {
        Feed::Chunk(c) => {
            log.fed.push(format!("chunk {:?}", c[0]));
            Ok((log, c))
        }
        Feed::Rest(c) => {
            log.fed.push(format!("rest {:?}", c[0]));
            Ok((log, c))
        }
        Feed::Flush => {
            if log.held == 0 {
                return Ok((log, vec![vec![], vec![]]));
            }
            log.held -= 1;
            Ok((log, vec![vec![-1], vec![-2]]))
        }
    }
}

#[test]
fn chunks_then_rest_then_flushes_are_fed() {
    let channels = vec![vec![1, 2, 3, 4, 5, 6, 7], vec![11, 12, 13, 14, 15, 16, 17]];
    let run = |held: usize| {
        through_chunks(&channels, 7, Log { fed: vec![], held }, &|_l: &Log| 3, &logged).unwrap()
    };
    assert_eq!(run(0)[0], vec![1, 2, 3, 4, 5, 6, 7]);
    assert_eq!(run(1)[0], vec![1, 2, 3, 4, 5, 6, 7, -1]);
    assert_eq!(run(9)[1], vec![11, 12, 13, 14, 15, 16, 17, -2, -2, -2]);
    let failing = through_chunks(&channels, 7, 0, &|_n: &i32| 4, &|n: i32, feed: Feed<i32>| {
        match feed {
            Feed::Chunk(c) => Ok((n + 1, c)),
            _ => Err(format!("failed after {n}")),
        }
    });
    assert_eq!(failing.unwrap_err(), "failed after 1");
}

#[test]
fn outputs_are_appended_channel_by_channel() {
    let mut dst = vec![vec![1], vec![2], vec![3]];
    append_non_interleaved(&mut dst, &vec![vec![10, 11], vec![20]]);
    assert_eq!(dst, vec![vec![1, 10, 11], vec![2, 20], vec![3]]);
    let mut ch = vec![1, 2, 3];
    fit_length(&mut ch, 2, 0);
    assert_eq!(ch, vec![1, 2]);
    fit_length(&mut ch, 4, 9);
    assert_eq!(ch, vec![1, 2, 9, 9]);
}

#[test]
fn tiers_choose_their_parameters() {
    assert_eq!(quality_params(None), quality_params(Some(ResampleQuality::Hq)));
    assert_eq!(quality_params(Some(ResampleQuality::Lq)).sinc_len, 96);
    assert_eq!(quality_params(Some(ResampleQuality::Mq)).cutoff, 920);
    assert_eq!(quality_params(Some(ResampleQuality::Hq)).cutoff as f32 / 1000.0, 0.945_f32);
    assert_eq!(quality_params(Some(ResampleQuality::Vhq)).window, Window::BlackmanHarris2);
    assert_eq!(soxr_quality(None).recipe, Recipe::High);
    assert!(!soxr_quality(None).precise_clock);
    assert!(soxr_quality(Some(ResampleQuality::Vhq)).precise_clock);
    assert_eq!(soxr_quality(Some(ResampleQuality::Lq)).recipe, Recipe::Low);
    assert_eq!(chunk_size(10), 64);
    assert_eq!(chunk_size(1000), 1000);
    assert_eq!(chunk_size(100_000), 4096);
}

use std::cell::RefCell;

use mint::audio::buffer::{AudioBuffer, OutputSampleFormat, SourceInfo};
use mint::cli;
use mint::config::{
    BitDepthFormat, Config, DitherMode, OnClipPolicy, OutputCodec, RawTarget, ResampleQuality,
    ResolvedTarget,
};
use mint::level::Level;
use mint::ops::loudness::LoudnessAnalysis;
use mint::pipeline::{self, Processed, ProcessingReport};
use mint::refusal::Refusal;
use mint::targets::TargetTable;

const UNIT: f64 = 1.0 / 9_007_199_254_740_992.0;

fn level(x: f64) -> Level {
    Level { bits: x.to_bits() }
}

fn number(l: Level) -> f64 {
    f64::from_bits(l.bits)
}

fn target(fill: &dyn Fn(&mut RawTarget)) -> ResolvedTarget {
    let mut raw = RawTarget::default();
    raw.format = Some(BitDepthFormat::S16);
    fill(&mut raw);
    let mut targets = TargetTable::new();
    targets.insert("t".to_string(), raw);
    let config = Config { meta: None, defaults: RawTarget::default(), targets };
    config.resolve_target("t").unwrap()
}

/// A signal of one number: its loudness; its peak is ten above. Resampling adds half a decibel.
fn run(signal: &mut f64, rate: u32, t: &ResolvedTarget, log: &RefCell<Vec<String>>) -> Result<Processed, Refusal> {
    let note = |what: String| log.borrow_mut().push(what);
    pipeline::process(
        signal,
        rate,
        "in/song.wav",
        t,
        &|b: &f64| {
            note("analyze".to_string());
            Ok(LoudnessAnalysis {
                integrated_lufs: level(*b),
                loudness_range_lu: level(0.0),
                max_momentary_lufs: level(*b),
                max_short_term_lufs: level(*b),
                true_peak_dbtp: level(*b + 10.0),
            })
        },
        &|b: &f64| Ok(level(*b)),
        &|b: &f64| Ok(level(*b + 10.0)),
        &|b: &f64, gain: Level| {
            note(format!("gain {}", number(gain)));
            b + number(gain)
        },
        &|b: &f64, ceiling: Level| {
            note(format!("limit {}", number(ceiling)));
            Ok(b.min(number(ceiling) - 10.0))
        },
        &|b: &f64, rate: u32, _q: ResampleQuality| {
            note(format!("resample {rate}"));
            if rate == 1 {
                return Err(Refusal::of("cannot resample"));
            }
            Ok(b + 0.5)
        },
    )
}

#[test]
fn a_clean_transcode_runs_no_step() {
    let log = RefCell::new(Vec::new());
    let mut signal = -20.0;
    let done = run(&mut signal, 48_000, &target(&|_| {}), &log).unwrap();
    assert_eq!(signal, -20.0);
    assert_eq!(log.into_inner(), vec!["analyze", "analyze"]);
    assert!(done.warnings.is_empty());
    assert_eq!(done.limiter_gain_reduction_db, None);
    assert_eq!((done.in_rate, done.out_rate), (48_000, 48_000));
    assert_eq!(done.output, "./out/t/song.wav");
    assert_eq!(done.source, done.delivered);
}

#[test]
fn steps_run_in_order_when_they_are_needed() {
    let log = RefCell::new(Vec::new());
    let mut signal = -30.0;
    let t = target(&|r| {
        r.lufs = Some(level(-5.0));
        r.rate = Some(44_100);
    });
    let done = run(&mut signal, 48_000, &t, &log).unwrap();
    assert_eq!(
        log.into_inner(),
        vec!["analyze", "gain 25", "limit -1", "resample 44100", "limit -1", "analyze"]
    );
    assert_eq!(signal, -11.0);
    assert_eq!(done.out_rate, 44_100);
    assert_eq!(done.limiter_gain_reduction_db, Some(level(6.0)));
    assert_eq!(
        done.warnings,
        vec![
            "heavy limiting: 6.0 dB of peak gain reduction to reach -5.0 LUFS under the -1.0 dBTP ceiling (source true peak -20.0 dBTP); consider a lower target or more source headroom",
            "loudness target not met within +/-0.1 LU (target -5.00, actual -11.00)",
            "true peak -0.50 dBTP exceeded ceiling -1.00 dBTP after SRC; limiter re-applied",
        ]
    );
}

#[test]
fn mild_limiting_is_reported_without_a_warning() {
    let log = RefCell::new(Vec::new());
    let mut signal = -30.0;
    let t = target(&|r| {
        r.lufs = Some(level(-10.95));
    });
    let done = run(&mut signal, 48_000, &t, &log).unwrap();
    assert!(number(done.limiter_gain_reduction_db.unwrap()) < 0.06);
    assert!(done.warnings.is_empty());
}

#[test]
fn peaks_are_held_without_a_loudness_goal() {
    let log = RefCell::new(Vec::new());
    let mut signal = -2.0;
    let done = run(&mut signal, 48_000, &target(&|_| {}), &log).unwrap();
    assert_eq!(signal, -11.0);
    assert_eq!(
        done.warnings,
        vec!["true peak 8.00 dBTP exceeded ceiling -1.00 dBTP; limiter applied"]
    );
    let log = RefCell::new(Vec::new());
    let mut signal = -2.0;
    let t = target(&|r| r.on_clip = Some(OnClipPolicy::Warn));
    run(&mut signal, 48_000, &t, &log).unwrap();
    assert_eq!(signal, -2.0);
    assert_eq!(log.into_inner(), vec!["analyze", "analyze"]);
}

#[test]
fn gain_is_reduced_until_the_peak_meets_the_ceiling() {
    let log = RefCell::new(Vec::new());
    let mut signal = -2.0;
    let t = target(&|r| r.on_clip = Some(OnClipPolicy::ReduceGain));
    let done = run(&mut signal, 48_000, &t, &log).unwrap();
    assert_eq!(signal, -11.0);
    assert_eq!(log.into_inner(), vec!["analyze", "gain -9", "analyze"]);
    assert_eq!(done.warnings.len(), 1);
    assert_eq!(done.delivered.true_peak_dbtp, level(-1.0));

    // With a loudness goal the gain stops where the peak would exceed the ceiling.
    let log = RefCell::new(Vec::new());
    let mut signal = -30.0;
    let t = target(&|r| {
        r.on_clip = Some(OnClipPolicy::ReduceGain);
        r.lufs = Some(level(-5.0));
    });
    let done = run(&mut signal, 48_000, &t, &log).unwrap();
    assert_eq!(signal, -11.0);
    assert_eq!(log.into_inner(), vec!["analyze", "gain 19", "analyze"]);
    assert_eq!(done.limiter_gain_reduction_db, None);
    assert!(!done.warnings.is_empty());
}

#[test]
fn a_goal_above_the_ceiling_is_met_with_a_warning() {
    let log = RefCell::new(Vec::new());
    let mut signal = -30.0;
    let t = target(&|r| {
        r.on_clip = Some(OnClipPolicy::Warn);
        r.lufs = Some(level(-5.0));
    });
    let done = run(&mut signal, 48_000, &t, &log).unwrap();
    assert_eq!(signal, -5.0);
    assert_eq!(done.delivered.true_peak_dbtp, level(5.0));
    assert!(done.warnings.iter().any(|w| w.contains("dBTP")));
}

#[test]
fn the_dry_run_names_the_file_and_the_steps() {
    for rate in [None, Some(44_100)] {
        let t = target(&|r| r.rate = rate);
        let log = RefCell::new(Vec::new());
        let mut signal = -20.0;
        let done = run(&mut signal, 48_000, &t, &log).unwrap();
        let (lines, outcome) = cli::dry_run_lines("in/song.wav", 48_000, &vec![t]);
        assert!(outcome.is_ok());
        assert!(lines.contains(&format!("  [t] -> {}", done.output)));
        let announced = lines.iter().any(|l| l.starts_with("      - resample "));
        assert_eq!(announced, log.into_inner().contains(&"resample 44100".to_string()));
    }
}

#[test]
fn failures_of_a_step_end_the_task() {
    let log = RefCell::new(Vec::new());
    let mut signal = -20.0;
    let t = target(&|r| r.rate = Some(1));
    let err = run(&mut signal, 48_000, &t, &log).unwrap_err();
    assert_eq!(err.message, "cannot resample");
    assert_eq!(log.into_inner(), vec!["analyze", "resample 1"]);
}

#[test]
fn the_input_is_not_overwritten() {
    let in_place = |overwrite: bool| {
        target(&|r| {
            r.dir = Some("in".to_string());
            r.naming = Some("./{stem}.wav".to_string());
            r.overwrite = Some(overwrite);
        })
    };
    assert_eq!(
        pipeline::output_for(&in_place(false), "in/song.wav", 48_000).unwrap_err().message,
        "refusing to overwrite input file without --force or overwrite=true: in/song.wav"
    );
    assert_eq!(
        pipeline::output_for(&in_place(true), "in/song.wav", 48_000).unwrap(),
        "in/./song.wav"
    );
    assert_eq!(
        pipeline::output_for(&in_place(true), "..", 48_000).unwrap_err().message,
        "input file has no valid stem"
    );
}

fn buffer() -> AudioBuffer<f64> {
    AudioBuffer {
        channels: vec![vec![0.25, -0.5, 0.125]],
        sample_rate: 48_000,
        src_info: SourceInfo {
            path: "in.wav".to_string(),
            channels: 1,
            sample_rate: 48_000,
            codec: "decoded".to_string(),
        },
        out_format: OutputSampleFormat::F32,
    }
}

fn analysis(peak: f64) -> LoudnessAnalysis {
    LoudnessAnalysis {
        integrated_lufs: level(-14.0),
        loudness_range_lu: level(3.0),
        max_momentary_lufs: level(-10.0),
        max_short_term_lufs: level(-11.0),
        true_peak_dbtp: level(peak),
    }
}

fn finish(b: &mut AudioBuffer<f64>, t: &ResolvedTarget) -> Result<ProcessingReport, Refusal> {
    let done = Processed {
        in_rate: 96_000,
        out_rate: 48_000,
        source: analysis(-3.0),
        delivered: analysis(-1.0),
        limiter_gain_reduction_db: Some(level(0.5)),
        output: "o.wav".to_string(),
        warnings: vec!["w".to_string()],
    };
    pipeline::finish(
        b,
        done,
        "in.wav",
        t,
        Some(1),
        0.0,
        &level,
        &|x: f64, taps: &Vec<i32>, hist: &Vec<f64>, max: i32| {
            let fb: f64 = taps.iter().zip(hist).map(|(t, h)| *t as f64 / 10_000.0 * h).sum();
            x * max as f64 - fb
        },
        &|u: f64, n: i64| level(u + n as f64 * UNIT),
        &|y: i32, u: f64| y as f64 - u,
        &|x: f64, n: i64, max: i32| level((x + n as f64 * UNIT / max as f64) * max as f64),
        &|y: i32, max: i32| y as f64 / max as f64,
    )
}

#[test]
fn reports_say_how_a_task_was_finished() {
    let mut b = buffer();
    let r = finish(&mut b, &target(&|r| r.dither = Some(DitherMode::Shaped))).unwrap();
    assert_eq!((r.target.as_str(), r.input.as_str(), r.output.as_str()), ("t", "in.wav", "o.wav"));
    assert_eq!((r.in_rate, r.out_rate), (96_000, 48_000));
    assert!(r.dithered && r.shaped);
    assert_eq!(r.shaping_curve, Some("gentle"));
    assert_eq!((r.codec.as_str(), r.format.as_str(), r.bwf), ("wav", "s16", false));
    assert_eq!(r.limiter_gain_reduction_db, Some(level(0.5)));
    assert_eq!(r.warnings, vec!["w"]);
    assert_eq!(b.out_format, OutputSampleFormat::S16);
    for x in &b.channels[0] {
        assert_eq!((x * 32_767.0).round() / 32_767.0, *x);
    }
}

#[test]
fn mp3_is_not_quantized() {
    let mut b = buffer();
    let t = target(&|r| {
        r.codec = Some(OutputCodec::Mp3);
        r.dither = Some(DitherMode::Off);
        r.mp3_bitrate = Some(192);
    });
    let r = finish(&mut b, &t).unwrap();
    assert_eq!((r.codec.as_str(), r.format.as_str()), ("mp3", "192 kbps"));
    assert!(!r.dithered && !r.shaped);
    assert_eq!(b.channels, buffer().channels);
    assert_eq!(b.out_format, OutputSampleFormat::F32);
}

#[test]
fn float_targets_keep_the_samples() {
    let mut b = buffer();
    let t = target(&|r| {
        r.format = Some(BitDepthFormat::F32);
        r.dither = Some(DitherMode::Off);
    });
    let r = finish(&mut b, &t).unwrap();
    assert_eq!(r.format, "f32");
    assert!(!r.dithered);
    assert_eq!(b.channels, buffer().channels);
}

#[test]
fn quantizing_without_dither_is_refused() {
    let mut b = buffer();
    let err = finish(&mut b, &target(&|r| r.dither = Some(DitherMode::Off))).unwrap_err();
    assert!(err.message.contains("not allowed"));
    assert_eq!(b.channels, buffer().channels);
}

#[test]
fn metadata_is_made_for_broadcast_wav_only() {
    let t = target(&|r| r.bwf = Some(true));
    let b = pipeline::bext_for(&t, &analysis(-1.0), 48_000, 2).unwrap();
    assert_eq!(b.description, "EBU R128 master (mint)");
    assert_eq!((b.sample_rate, b.channels, b.bits), (48_000, 2, 16));
    assert_eq!(b.integrated_lufs, level(-14.0));
    assert_eq!(b.max_true_peak_dbtp, level(-1.0));
    assert!(pipeline::bext_for(&target(&|_| {}), &analysis(-1.0), 48_000, 2).is_none());
    let options = pipeline::limiter_options(&t);
    assert!(options.link_channels && !options.soft_clip);
}

#[test]
fn the_reported_peak_holds_the_ceiling_or_a_warning_tells() {
    for policy in [OnClipPolicy::Limit, OnClipPolicy::ReduceGain, OnClipPolicy::Warn] {
        for start in [-30.0, -11.5, -2.0, 6.0] {
            for goal in [None, Some(level(-23.0)), Some(level(-5.0))] {
                for rate in [None, Some(44_100)] {
                    let t = target(&|r| {
                        r.on_clip = Some(policy);
                        r.lufs = goal;
                        r.rate = rate;
                    });
                    let mut signal = start;
                    let done = run(&mut signal, 48_000, &t, &RefCell::new(Vec::new())).unwrap();
                    let over = number(done.delivered.true_peak_dbtp) + 1.0;
                    assert!(over <= 0.01 || (policy == OnClipPolicy::Warn && !done.warnings.is_empty()));
                }
            }
        }
    }
}

use mint::cli;
use mint::config::{BitDepthFormat, Config, MetaConfig, RawTarget};
use mint::level::Level;
use mint::ops::loudness::LoudnessAnalysis;
use mint::pipeline::{ProcessingReport, TaskFailure};
use mint::refusal::Refusal;
use mint::targets::TargetTable;

fn level(x: f64) -> Level {
    Level { bits: x.to_bits() }
}

fn strings(items: &[&str]) -> Vec<String> {
    items.iter().map(|s| s.to_string()).collect()
}

fn config() -> Config {
    let mut targets = TargetTable::new();
    for name in ["cd", "archive"] {
        let mut t = RawTarget::default();
        t.format = Some(if name == "cd" { BitDepthFormat::S16 } else { BitDepthFormat::F32 });
        t.rate = if name == "cd" { Some(44_100) } else { None };
        targets.insert(name.to_string(), t);
    }
    Config {
        meta: Some(MetaConfig { name: Some("album".to_string()) }),
        defaults: RawTarget::default(),
        targets,
    }
}

fn analysis(lufs: f64) -> LoudnessAnalysis {
    LoudnessAnalysis {
        integrated_lufs: level(lufs),
        loudness_range_lu: level(6.25),
        max_momentary_lufs: level(-11.0),
        max_short_term_lufs: level(-12.5),
        true_peak_dbtp: level(-1.0),
    }
}

fn report(target: &str) -> ProcessingReport {
    ProcessingReport {
        target: target.to_string(),
        input: "in.wav".to_string(),
        output: "out.wav".to_string(),
        in_rate: 48_000,
        out_rate: 44_100,
        source: analysis(f64::NEG_INFINITY),
        delivered: analysis(-14.0),
        limiter_gain_reduction_db: Some(level(2.5)),
        dithered: true,
        shaped: true,
        shaping_curve: Some("gentle"),
        codec: "wav".to_string(),
        bwf: true,
        format: "s16".to_string(),
        warnings: strings(&["loud", "late"]),
    }
}

fn task_failure(target: &str) -> TaskFailure {
    TaskFailure {
        target: target.to_string(),
        input: "bad.wav".to_string(),
        error: "boom".to_string(),
    }
}

#[test]
fn configs_are_named_or_found() {
    assert_eq!(cli::resolve_config_path(Some("x.toml"), false).unwrap(), "x.toml");
    assert_eq!(cli::resolve_config_path(None, true).unwrap(), "mint.toml");
    assert_eq!(
        cli::resolve_config_path(None, false).unwrap_err().message,
        "no config given and mint.toml not found in the working directory; pass --config <path>"
    );
}

#[test]
fn targets_are_selected_by_name_or_all() {
    let config = config();
    let all = cli::resolve_selected_targets(&config, &vec![], false).unwrap();
    assert_eq!(all.iter().map(|t| t.name.as_str()).collect::<Vec<_>>(), vec!["archive", "cd"]);
    assert!(all.iter().all(|t| !t.overwrite));
    let one = cli::resolve_selected_targets(&config, &strings(&["cd"]), true).unwrap();
    assert_eq!(one.len(), 1);
    assert!(one[0].overwrite);
    assert_eq!(one[0].rate, Some(44_100));
    assert_eq!(
        cli::resolve_selected_targets(&config, &strings(&["cd", "vinyl"]), false)
            .unwrap_err()
            .message,
        "unknown target 'vinyl'; available: archive, cd"
    );
}

#[test]
fn patterns_are_told_from_paths() {
    assert!(cli::looks_like_glob("*.wav"));
    assert!(cli::looks_like_glob("a?.wav"));
    assert!(cli::looks_like_glob("[ab].wav"));
    assert!(!cli::looks_like_glob("a.wav"));
    assert!(!cli::looks_like_glob(""));
}

#[test]
fn wav_and_aiff_files_are_supported() {
    for p in ["a.wav", "a.WAV", "x/y.Wave", "a.aif", "a.AIFF"] {
        assert!(cli::is_supported_input(p), "{p}");
    }
    for p in ["a.mp3", "wav", ".wav", "a.wavx", "a", "a.wa"] {
        assert!(!cli::is_supported_input(p), "{p}");
    }
}

#[test]
fn inputs_are_listed_once_in_order() {
    let exists = |p: &str| p != "gone.wav";
    let expand = |p: &str| {
        if p == "bad[" {
            Err(Refusal::of("invalid glob pattern: bad["))
        } else if p == "none*" {
            Ok(vec![])
        } else {
            Ok(vec!["b.wav".to_string(), "notes.txt".to_string(), "./a.wav".to_string()])
        }
    };
    let run = |tokens: &[&str]| cli::resolve_inputs(&strings(tokens), &exists, &expand);
    assert_eq!(run(&["a.wav", "*.wav", "b.wav", "c.aif"]).unwrap(), vec!["a.wav", "b.wav", "./a.wav", "c.aif"]);
    assert_eq!(run(&["x//a.wav", "x/a.wav", "x/./a.wav"]).unwrap(), vec!["x//a.wav"]);
    assert_eq!(run(&["song.mp3"]).unwrap(), Vec::<String>::new());
    assert_eq!(run(&["gone.wav"]).unwrap_err().message, "input path does not exist: gone.wav");
    assert_eq!(run(&["none*"]).unwrap_err().message, "glob produced no matches: none*");
    assert_eq!(run(&["a.wav", "bad["]).unwrap_err().message, "invalid glob pattern: bad[");
    assert_eq!(
        cli::check_inputs(&vec![]).unwrap_err().message,
        "no supported input files resolved from provided arguments"
    );
    assert!(cli::check_inputs(&strings(&["a.wav"])).is_ok());
}

#[test]
fn every_input_meets_every_target() {
    assert_eq!(cli::cross(2, 3), vec![(0, 0), (0, 1), (0, 2), (1, 0), (1, 1), (1, 2)]);
    assert!(cli::cross(0, 3).is_empty());
    assert!(cli::cross(3, 0).is_empty());
}

#[test]
fn workers_and_order_follow_the_arguments() {
    assert_eq!(cli::worker_count(Some(3), Some(8)), 3);
    assert_eq!(cli::worker_count(None, Some(8)), 8);
    assert_eq!(cli::worker_count(None, None), 1);
    assert!(cli::is_sequential(true, 8));
    assert!(cli::is_sequential(false, 1));
    assert!(!cli::is_sequential(false, 2));
}

#[test]
fn failures_are_collected_or_end_the_run() {
    let jobs = cli::cross(4, 1);
    let run = |i: usize, _j: usize| {
        if i % 2 == 1 {
            Err(task_failure(&format!("t{i}")))
        } else {
            Ok(report(&format!("t{i}")))
        }
    };
    let (reports, failures) = cli::run_in_order(&jobs, false, &run);
    assert_eq!(reports.iter().map(|r| r.target.as_str()).collect::<Vec<_>>(), vec!["t0", "t2"]);
    assert_eq!(failures.iter().map(|f| f.target.as_str()).collect::<Vec<_>>(), vec!["t1", "t3"]);
    let (reports, failures) = cli::run_in_order(&jobs, true, &run);
    assert_eq!((reports.len(), failures.len()), (1, 1));
    let batch = jobs.iter().map(|j| run(j.0, j.1)).collect();
    let (reports, failures) = cli::collect(batch);
    assert_eq!(reports.iter().map(|r| r.target.as_str()).collect::<Vec<_>>(), vec!["t0", "t2"]);
    assert_eq!(failures.len(), 2);
}

#[test]
fn a_failure_names_its_task() {
    let target = config().resolve_target("cd").unwrap();
    let f = cli::failure(&target, "x.wav", Refusal::of("no such thing"));
    assert_eq!((f.target.as_str(), f.input.as_str()), ("cd", "x.wav"));
    assert_eq!(f.error, "no such thing");
}

#[test]
fn log_levels_follow_the_flags() {
    assert_eq!(cli::log_level(false, false), "info");
    assert_eq!(cli::log_level(true, false), "debug");
    assert_eq!(cli::log_level(true, true), "error");
}

#[test]
fn notices_are_printed_when_asked_for() {
    assert_eq!(cli::config_banner(&config(), false, false).unwrap(), "config: album");
    assert_eq!(cli::config_banner(&config(), true, false), None);
    assert_eq!(cli::config_banner(&config(), false, true), None);
    assert_eq!(cli::parallel_notice(4, 12), "running 4 parallel jobs over 12 task(s)");
    assert_eq!(cli::dry_run_header(3, 2), "dry-run: 3 file(s) x 2 target(s)");
}

#[test]
fn dry_runs_list_the_plan() {
    let config = config();
    let targets = cli::resolve_selected_targets(&config, &vec![], false).unwrap();
    let (lines, outcome) = cli::dry_run_lines("song.wav", 48_000, &targets);
    assert!(outcome.is_ok());
    assert_eq!(lines[0], "\nsong.wav [48000 Hz]");
    assert_eq!(lines[1], "  [archive] -> ./out/archive/song.wav");
    assert!(lines.iter().any(|l| l == "  [cd] -> ./out/cd/song.wav"));
    assert!(lines.iter().any(|l| l.starts_with("      - ") && l.contains("resample 48000 -> 44100")));
    let steps = targets[0].describe(48_000).len() + targets[1].describe(48_000).len();
    assert_eq!(lines.len(), 1 + 2 + steps);
    let (lines, outcome) = cli::dry_run_lines("..", 48_000, &targets);
    assert_eq!(lines, vec!["\n.. [48000 Hz]"]);
    assert_eq!(outcome.unwrap_err().message, "input file has no valid stem");
}

#[test]
fn summaries_show_the_metering() {
    let mut quiet = report("b");
    quiet.warnings.clear();
    quiet.limiter_gain_reduction_db = None;
    quiet.shaping_curve = None;
    quiet.bwf = false;
    let mut plain = quiet.clone();
    plain.dithered = false;
    let lines = cli::report_lines(&vec![report("a"), quiet, plain]);
    assert_eq!(
        lines,
        vec![
            "processed 3 task(s)",
            "  [a] in.wav -> out.wav",
            "    48000 -> 44100 Hz | wav/s16 (bwf) +shaped(gentle) | limited -2.5 dB",
            "    LUFS n/a -> -14.0 (I)  LRA 6.2 -> 6.2 LU  M -11.0  S -12.5 LUFS",
            "    TP -1.0 -> -1.0 dBTP  PLR 13.0  PSR 11.5 dB",
            "    warn: loud",
            "    warn: late",
            "  [b] in.wav -> out.wav",
            "    48000 -> 44100 Hz | wav/s16 +dither",
            "    LUFS n/a -> -14.0 (I)  LRA 6.2 -> 6.2 LU  M -11.0  S -12.5 LUFS",
            "    TP -1.0 -> -1.0 dBTP  PLR 13.0  PSR 11.5 dB",
            "  [b] in.wav -> out.wav",
            "    48000 -> 44100 Hz | wav/s16",
            "    LUFS n/a -> -14.0 (I)  LRA 6.2 -> 6.2 LU  M -11.0  S -12.5 LUFS",
            "    TP -1.0 -> -1.0 dBTP  PLR 13.0  PSR 11.5 dB",
            "(1 task(s) with warnings)",
        ]
    );
    assert_eq!(cli::report_lines(&vec![]), vec!["processed 0 task(s)"]);
    assert_eq!(cli::fmt_db(level(f64::NAN)), "n/a");
    assert_eq!(cli::fmt_db(level(-0.04)), format!("{:.1}", -0.04));
}

#[test]
fn failed_runs_list_the_failures() {
    assert_eq!(
        cli::failure_lines(&vec![task_failure("a"), task_failure("b")]),
        vec!["\n2 task(s) failed:", "  [a] bad.wav => boom", "  [b] bad.wav => boom"]
    );
    assert!(cli::outcome(0).is_ok());
    assert_eq!(cli::outcome(2).unwrap_err().message, "processing completed with 2 failure(s)");
}

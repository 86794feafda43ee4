use mint::json_report::{finite, render, AnalysisJson, JsonReport};
use mint::level::Level;
use mint::ops::loudness::LoudnessAnalysis;
use mint::pipeline::{ProcessingReport, TaskFailure};
use serde_json::Value;

fn level(x: f64) -> Level {
    Level { bits: x.to_bits() }
}

fn figure(v: Option<Level>) -> Value {
    match v {
        Some(l) => Value::from(f64::from_bits(l.bits)),
        None => Value::Null,
    }
}

fn object(fields: Vec<(&str, Value)>) -> Value {
    let mut map = serde_json::Map::new();
    for (name, value) in fields {
        map.insert(name.to_string(), value);
    }
    Value::Object(map)
}

fn metering(a: &AnalysisJson) -> Value {
    object(vec![
        ("integrated_lufs", figure(a.integrated_lufs)),
        ("loudness_range_lu", figure(a.loudness_range_lu)),
        ("max_momentary_lufs", figure(a.max_momentary_lufs)),
        ("max_short_term_lufs", figure(a.max_short_term_lufs)),
        ("true_peak_dbtp", figure(a.true_peak_dbtp)),
        ("plr_db", figure(a.plr_db)),
        ("psr_db", figure(a.psr_db)),
    ])
}

/// The document as JSON text.
fn to_json(doc: &JsonReport) -> String {
    let tasks: Vec<Value> = doc
        .tasks
        .iter()
        .map(|t| {
            object(vec![
                ("target", Value::from(t.target.as_str())),
                ("input", Value::from(t.input.as_str())),
                ("output", Value::from(t.output.as_str())),
                (
                    "sample_rate",
                    object(vec![
                        ("in", Value::from(t.sample_rate.in_hz)),
                        ("out", Value::from(t.sample_rate.out_hz)),
                    ]),
                ),
                ("codec", Value::from(t.codec.as_str())),
                ("format", Value::from(t.format.as_str())),
                ("bwf", Value::from(t.bwf)),
                (
                    "dither",
                    object(vec![
                        ("applied", Value::from(t.dither.applied)),
                        ("noise_shaping", Value::from(t.dither.noise_shaping.clone())),
                    ]),
                ),
                ("limiter_gain_reduction_db", figure(t.limiter_gain_reduction_db)),
                ("source", metering(&t.source)),
                ("delivered", metering(&t.delivered)),
                ("warnings", Value::from(t.warnings.clone())),
            ])
        })
        .collect();
    let failures: Vec<Value> = doc
        .failures
        .iter()
        .map(|f| {
            object(vec![
                ("target", Value::from(f.target.as_str())),
                ("input", Value::from(f.input.as_str())),
                ("error", Value::from(f.error.as_str())),
            ])
        })
        .collect();
    let whole = object(vec![
        ("config", Value::from(doc.config.clone())),
        ("tasks", Value::from(tasks)),
        ("failures", Value::from(failures)),
    ]);
    serde_json::to_string_pretty(&whole).unwrap()
}

fn analysis(integrated: f64) -> LoudnessAnalysis {
    LoudnessAnalysis {
        integrated_lufs: level(integrated),
        loudness_range_lu: level(7.5),
        max_momentary_lufs: level(-12.0),
        max_short_term_lufs: level(-13.0),
        true_peak_dbtp: level(-1.0),
    }
}

fn report() -> ProcessingReport {
    ProcessingReport {
        target: "spotify".into(),
        input: "in.wav".into(),
        output: "out/spotify/in.wav".into(),
        in_rate: 48_000,
        out_rate: 44_100,
        source: analysis(f64::NEG_INFINITY), // silence -> null
        delivered: analysis(-14.0),
        limiter_gain_reduction_db: Some(level(2.5)),
        dithered: true,
        shaped: true,
        shaping_curve: Some("psychoacoustic"),
        codec: "wav".into(),
        bwf: true,
        format: "s16".into(),
        warnings: vec!["heavy limiting".into()],
    }
}

#[test]
fn serializes_tasks_failures_and_nulls() {
    let failure = TaskFailure {
        target: "cd".into(),
        input: "bad.wav".into(),
        error: "boom".into(),
    };

    let json = to_json(&render(Some("album"), &vec![report()], &vec![failure]));
    let v: Value = serde_json::from_str(&json).unwrap();

    assert_eq!(v["config"].as_str(), Some("album"));
    assert_eq!(v["tasks"][0]["target"].as_str(), Some("spotify"));
    assert_eq!(v["tasks"][0]["codec"].as_str(), Some("wav"));
    assert_eq!(v["tasks"][0]["bwf"].as_bool(), Some(true));
    assert_eq!(v["tasks"][0]["sample_rate"]["in"].as_u64(), Some(48_000));
    assert_eq!(v["tasks"][0]["sample_rate"]["out"].as_u64(), Some(44_100));
    assert_eq!(v["tasks"][0]["dither"]["noise_shaping"].as_str(), Some("psychoacoustic"));
    assert_eq!(v["tasks"][0]["limiter_gain_reduction_db"].as_f64(), Some(2.5));
    // Non-finite source loudness must serialize as JSON null.
    assert!(v["tasks"][0]["source"]["integrated_lufs"].is_null());
    assert_eq!(v["tasks"][0]["delivered"]["integrated_lufs"].as_f64(), Some(-14.0));
    // PLR delivered = true_peak (-1.0) - integrated (-14.0) = 13.0.
    assert_eq!(v["tasks"][0]["delivered"]["plr_db"].as_f64(), Some(13.0));
    assert_eq!(v["failures"][0]["target"].as_str(), Some("cd"));
    assert_eq!(v["failures"][0]["error"].as_str(), Some("boom"));
}

#[test]
fn figures_derived_from_silence_are_left_out() {
    let doc = render(None, &vec![report()], &vec![]);
    assert_eq!(doc.config, None);
    assert_eq!(doc.tasks[0].source.plr_db, None);
    assert_eq!(doc.tasks[0].source.psr_db, Some(level(12.0)));
    assert_eq!(doc.tasks[0].warnings, vec!["heavy limiting"]);
    assert!(doc.failures.is_empty());
    assert_eq!(finite(level(f64::NAN)), None);
    assert_eq!(finite(level(f64::INFINITY)), None);
    assert_eq!(finite(level(-0.5)), Some(level(-0.5)));
}

use mint::audio::buffer::OutputSampleFormat;
use mint::config::{
    BitDepthFormat, Config, DitherCorrelation, DitherMode, DitherStrength, LimiterCharacter,
    MetaConfig, OnClipPolicy, OutputCodec, RawTarget, ResampleQuality,
};
use mint::level::Level;
use mint::path;
use mint::targets::TargetTable;

fn level(x: f64) -> Level {
    Level { bits: x.to_bits() }
}

fn figure(v: &toml::Value) -> Level {
    match v {
        toml::Value::Float(x) => level(*x),
        other => panic!("not a figure: {other}"),
    }
}

fn text(v: &toml::Value) -> &str {
    v.as_str().expect("a string")
}

fn integer(v: &toml::Value) -> u32 {
    v.as_integer().expect("an integer") as u32
}

/// A target as written in TOML.
fn raw_target(table: &toml::Table) -> RawTarget {
    let mut t = RawTarget::default();
    for (key, v) in table {
        match key.as_str() {
            "preset" => t.preset = Some(text(v).to_string()),
            "rate" => t.rate = Some(integer(v)),
            "format" => {
                t.format = Some(match text(v) {
                    "s16" => BitDepthFormat::S16,
                    "s24" => BitDepthFormat::S24,
                    "f32" => BitDepthFormat::F32,
                    other => panic!("unknown format {other}"),
                })
            }
            "lufs" => t.lufs = Some(figure(v)),
            "ceiling_dbtp" => t.ceiling_dbtp = Some(figure(v)),
            "warn_limiting_db" => t.warn_limiting_db = Some(figure(v)),
            "on_clip" => {
                t.on_clip = Some(match text(v) {
                    "limit" => OnClipPolicy::Limit,
                    "reduce_gain" => OnClipPolicy::ReduceGain,
                    "warn" => OnClipPolicy::Warn,
                    other => panic!("unknown policy {other}"),
                })
            }
            "quality" => {
                t.quality = Some(match text(v) {
                    "lq" => ResampleQuality::Lq,
                    "mq" => ResampleQuality::Mq,
                    "hq" => ResampleQuality::Hq,
                    "vhq" => ResampleQuality::Vhq,
                    other => panic!("unknown quality {other}"),
                })
            }
            "dither" => {
                t.dither = Some(match text(v) {
                    "tpdf" => DitherMode::Tpdf,
                    "none" => DitherMode::Off,
                    "shaped" => DitherMode::Shaped,
                    "psychoacoustic" => DitherMode::Psychoacoustic,
                    "mbit_plus" => DitherMode::MbitPlus,
                    other => panic!("unknown dither {other}"),
                })
            }
            "codec" => {
                t.codec = Some(match text(v) {
                    "wav" => OutputCodec::Wav,
                    "flac" => OutputCodec::Flac,
                    "mp3" => OutputCodec::Mp3,
                    other => panic!("unknown codec {other}"),
                })
            }
            "bwf" => t.bwf = v.as_bool(),
            "mp3_bitrate" => t.mp3_bitrate = Some(integer(v)),
            "dir" => t.dir = Some(text(v).to_string()),
            "naming" => t.naming = Some(text(v).to_string()),
            "overwrite" => t.overwrite = v.as_bool(),
            other => panic!("unknown field {other}"),
        }
    }
    t
}

/// A checked configuration from its text.
fn load(source: &str) -> Result<Config, String> {
    let table: toml::Table = source.parse().expect("config should be TOML");
    let mut targets = TargetTable::new();
    if let Some(all) = table.get("target") {
        for (name, t) in all.as_table().expect("a table of targets") {
            targets.insert(name.clone(), raw_target(t.as_table().expect("a target")));
        }
    }
    let defaults = match table.get("defaults") {
        Some(d) => raw_target(d.as_table().expect("a table of defaults")),
        None => RawTarget::default(),
    };
    let meta = table.get("meta").map(|m| MetaConfig {
        name: m.get("name").and_then(|n| n.as_str()).map(|n| n.to_string()),
    });
    let config = Config { meta, defaults, targets };
    match config.validate() {
        Ok(_) => Ok(config),
        Err(e) => Err(e.message),
    }
}

fn config_from_str(source: &str) -> Config {
    load(source).expect("config should parse")
}

fn config_err(source: &str) -> String {
    load(source).err().expect("config should be rejected")
}

#[test]
fn parses_minimal_target_config() {
    let config = config_from_str("[target.archive]\nformat = \"f32\"\n");

    assert_eq!(config.targets.len(), 1);
    let archive = config.resolve_target("archive").expect("resolve archive");
    assert_eq!(archive.format, OutputSampleFormat::F32);
    // Built-in fallbacks fill the rest.
    assert_eq!(archive.ceiling_dbtp, level(-1.0));
    assert!(!archive.overwrite);
}

#[test]
fn preset_resolves_and_explicit_fields_override() {
    let config = config_from_str(
        r#"
        [target.cd]
        preset = "cd"
        lufs = -12.0
        "#,
    );

    let cd = config.resolve_target("cd").expect("resolve cd");
    // From the preset:
    assert_eq!(cd.rate, Some(44_100));
    assert_eq!(cd.format, OutputSampleFormat::S16);
    assert_eq!(cd.ceiling_dbtp, level(-0.1));
    // Explicit field wins over the preset (which leaves cd loudness unset):
    assert_eq!(cd.lufs, Some(level(-12.0)));
}

#[test]
fn defaults_apply_but_lose_to_preset_and_explicit() {
    let config = config_from_str(
        r#"
        [defaults]
        quality = "hq"
        ceiling_dbtp = -3.0

        [target.s]
        preset = "spotify"      # ceiling -1.0 beats the -3.0 default
        quality = "lq"          # explicit beats the default
        "#,
    );

    let t = config.resolve_target("s").expect("resolve s");
    assert_eq!(t.ceiling_dbtp, level(-1.0)); // preset over default
    assert!(t.describe(96_000).iter().any(|s| s.contains("(lq)")));
}

#[test]
fn added_presets_are_available() {
    let config = config_from_str(
        r#"
        [target.a]
        preset = "48k"
        [target.b]
        preset = "hires"
        "#,
    );

    let a = config.resolve_target("a").unwrap();
    assert_eq!(a.rate, Some(48_000));
    assert_eq!(a.format, OutputSampleFormat::S16);
    assert_eq!(a.lufs, Some(level(-16.0)));

    let b = config.resolve_target("b").unwrap();
    assert_eq!(b.rate, Some(96_000));
    assert_eq!(b.format, OutputSampleFormat::S24);
    assert_eq!(b.ceiling_dbtp, level(-0.1));
}

#[test]
fn unknown_preset_is_rejected() {
    let err = config_err("[target.x]\npreset = \"nope\"\n");
    assert!(err.contains("unknown preset"));
}

#[test]
fn missing_format_is_rejected() {
    let err = config_err("[target.x]\nlufs = -14.0\n");
    assert!(err.contains("format"));
}

#[test]
fn colliding_output_paths_are_rejected() {
    // Two targets, same dir, naming without a distinguishing placeholder -> collision.
    let err = config_err(
        r#"
        [defaults]
        naming = "{stem}.wav"

        [target.a]
        format = "s16"
        [target.b]
        format = "s24"
        "#,
    );
    assert!(err.contains("same output path"));
}

#[test]
fn derived_chain_skips_resample_when_rate_matches() {
    let config = config_from_str(
        r#"
        [target.t]
        preset = "hires"   # 96000 Hz
        "#,
    );
    let t = config.resolve_target("t").unwrap();

    // Source already at 96 kHz: no resample step in the plan.
    let same = t.describe(96_000);
    assert!(same.iter().any(|s| s.contains("keep sample rate")));
    assert!(!same.iter().any(|s| s.contains("resample")));

    // Source at 48 kHz: a resample step appears.
    let diff = t.describe(48_000);
    assert!(diff.iter().any(|s| s.contains("resample 48000 -> 96000")));
}

#[test]
fn shaped_dither_parses_and_dry_run_reflects_s16_gating() {
    let config = config_from_str(
        r#"
        [target.cd]
        preset = "cd"            # s16
        dither = "shaped"

        [target.archive]
        preset = "hires"         # s24
        dither = "shaped"
        "#,
    );

    // s16: shaping engages.
    let cd = config.resolve_target("cd").unwrap();
    assert!(
        cd.describe(44_100).iter().any(|s| s.contains("noise-shaping")),
        "s16 dry-run should advertise noise shaping"
    );

    // s24: "shaped" gracefully degrades to flat TPDF, surfaced in the dry-run.
    let archive = config.resolve_target("archive").unwrap();
    assert!(
        archive.describe(96_000).iter().any(|s| s.contains("shaping skipped")),
        "s24 dry-run should note that shaping was skipped"
    );
}

#[test]
fn psychoacoustic_dither_parses_and_dry_run_names_the_curve() {
    let config = config_from_str(
        r#"
        [target.cd]
        preset = "cd"            # s16
        dither = "psychoacoustic"

        [target.archive]
        preset = "hires"         # s24
        dither = "psychoacoustic"
        "#,
    );

    // s16: the psychoacoustic curve engages and the dry-run names it (so it can be
    // told apart from the gentle "shaped" curve).
    let cd = config.resolve_target("cd").unwrap();
    assert!(
        cd.describe(44_100).iter().any(|s| s.contains("noise-shaping (psychoacoustic)")),
        "s16 dry-run should name the psychoacoustic curve"
    );

    // s24: same s16-only gating; degrades to flat TPDF.
    let archive = config.resolve_target("archive").unwrap();
    assert!(
        archive.describe(96_000).iter().any(|s| s.contains("shaping skipped")),
        "s24 dry-run should note that shaping was skipped"
    );
}

#[test]
fn flac_codec_resolves_and_cext_follows_codec() {
    let config = config_from_str(
        r#"
        [target.master]
        preset = "hires"   # s24, 96k
        codec  = "flac"
        "#,
    );
    let t = config.resolve_target("master").unwrap();
    // The default naming uses {cext}, which tracks the codec.
    let p = t.render_output_path("masters/song.wav", 96_000).unwrap();
    assert!(path::same(&p, "./out/master/song.flac"), "got: {p}");
    // FLAC keeps the integer bit depth from the preset.
    assert_eq!(t.format, OutputSampleFormat::S24);
}

#[test]
fn mp3_codec_allows_missing_format_and_sets_bitrate() {
    // MP3 is lossy, so `format` is not required.
    let config = config_from_str(
        r#"
        [target.lossy]
        codec = "mp3"
        mp3_bitrate = 256
        "#,
    );
    let t = config.resolve_target("lossy").unwrap();
    assert_eq!(t.mp3_bitrate, 256);
    let p = t.render_output_path("a/b.wav", 44_100).unwrap();
    assert!(path::same(&p, "./out/lossy/b.mp3"), "got: {p}");
    // The dry-run advertises a lossy MP3 encode, not a quantize step.
    assert!(t.describe(44_100).iter().any(|s| s.contains("MP3 256 kbps")));
}

#[test]
fn flac_with_f32_is_rejected() {
    let err = config_err(
        r#"
        [target.x]
        format = "f32"
        codec  = "flac"
        "#,
    );
    assert!(err.contains("flac") && err.contains("f32"), "got: {err}");
}

#[test]
fn bwf_on_non_wav_is_rejected() {
    let err = config_err(
        r#"
        [target.x]
        preset = "hires"
        codec  = "flac"
        bwf    = true
        "#,
    );
    assert!(err.contains("bwf"), "got: {err}");
}

#[test]
fn invalid_mp3_bitrate_is_rejected() {
    let err = config_err(
        r#"
        [target.x]
        codec = "mp3"
        mp3_bitrate = 333
        "#,
    );
    assert!(err.contains("mp3_bitrate"), "got: {err}");
}

#[test]
fn output_path_uses_placeholders() {
    let config = config_from_str(
        r#"
        [defaults]
        dir = "out"
        naming = "{target}/{stem}_{rate}.{format}.wav"

        [target.cd]
        preset = "cd"
        "#,
    );
    let cd = config.resolve_target("cd").unwrap();
    let p = cd.render_output_path("masters/song.wav", 44_100).unwrap();
    assert!(path::same(&p, "out/cd/song_44100.s16.wav"), "got: {p}");
}

#[test]
fn config_without_targets_is_rejected() {
    assert_eq!(
        config_err("[defaults]\nrate = 44100\n"),
        "config must define at least one [target.NAME] entry"
    );
}

#[test]
fn fields_out_of_range_are_rejected() {
    let zero = config_err("[target.x]\nformat = \"s16\"\nrate = 0\n");
    assert_eq!(zero, "target 'x': rate must be > 0");
    let loud = config_err("[target.x]\nformat = \"s16\"\nceiling_dbtp = 0.5\n");
    assert_eq!(loud, "target 'x': ceiling_dbtp must be <= 0 (got 0.50)");
    let endless = config_err("[target.x]\nformat = \"s16\"\nlufs = inf\n");
    assert_eq!(endless, "target 'x': lufs must be finite");
    let negative = config_err("[target.x]\nformat = \"s16\"\nwarn_limiting_db = -1.0\n");
    assert_eq!(
        negative,
        "target 'x': warn_limiting_db must be a finite value >= 0 (got -1.00)"
    );
}

#[test]
fn unknown_target_is_refused_by_name() {
    let config = config_from_str("[target.a]\nformat = \"s16\"\n");
    assert_eq!(config.resolve_target("b").err().unwrap().message, "no such target: 'b'");
}

#[test]
fn resolution_follows_the_order_of_the_names() {
    let config = config_from_str(
        "[target.b]\nformat = \"s16\"\n[target.a]\nformat = \"s24\"\n[target.c]\nformat = \"f32\"\n",
    );
    assert_eq!(config.target_names(), vec!["a", "b", "c"]);
    let names = vec!["c".to_string(), "a".to_string()];
    let all = config.resolve_all(&names).unwrap();
    assert_eq!(all[0].format, OutputSampleFormat::F32);
    assert_eq!(all[1].format, OutputSampleFormat::S24);
}

#[test]
fn fallbacks_fill_every_field() {
    let config = config_from_str("[target.a]\nformat = \"s16\"\n");
    let t = config.resolve_target("a").unwrap();
    assert_eq!(t.rate, None);
    assert_eq!(t.lufs, None);
    assert_eq!(t.on_clip, OnClipPolicy::Limit);
    assert_eq!(t.limiter_character, LimiterCharacter::Balanced);
    assert!(!t.limiter_soft_clip);
    assert!(t.limiter_link_channels);
    assert_eq!(t.warn_limiting_db, level(1.0));
    assert_eq!(t.dither, DitherMode::Tpdf);
    assert_eq!(t.dither_strength, DitherStrength::Normal);
    assert_eq!(t.dither_correlation, DitherCorrelation::Decorrelated);
    assert_eq!(t.codec, OutputCodec::Wav);
    assert!(!t.bwf);
    assert_eq!(t.mp3_bitrate, 320);
    assert_eq!(t.naming, "{target}/{stem}.{cext}");
}

#[test]
fn a_later_insert_replaces_the_target_and_keeps_the_order() {
    let mut table = TargetTable::new();
    assert!(table.is_empty());
    let mut first = RawTarget::default();
    first.rate = Some(48_000);
    table.insert("b".to_string(), first);
    table.insert("a".to_string(), RawTarget::default());
    let mut second = RawTarget::default();
    second.rate = Some(96_000);
    table.insert("b".to_string(), second);
    assert_eq!(table.len(), 2);
    assert_eq!(table.name_list(), vec!["a", "b"]);
    assert_eq!(table.get("b").unwrap().rate, Some(96_000));
    assert!(table.contains_key("a"));
    assert!(!table.contains_key("c"));
    assert!(table.get("c").is_none());
}

#[test]
fn a_preset_in_the_defaults_serves_every_target() {
    let config = config_from_str(
        r#"
        [defaults]
        preset = "cd"
        ceiling_dbtp = -3.0

        [target.x]

        [target.y]
        format = "s24"

        [target.z]
        preset = "youtube"
        "#,
    );

    let x = config.resolve_target("x").unwrap();
    assert_eq!(x.rate, Some(44_100));
    assert_eq!(x.format, OutputSampleFormat::S16);
    // The preset's fields come before those of the defaults.
    assert_eq!(x.ceiling_dbtp, level(-0.1));
    assert_eq!(config.resolve_target("y").unwrap().format, OutputSampleFormat::S24);
    let z = config.resolve_target("z").unwrap();
    assert_eq!(z.rate, Some(48_000));
    assert_eq!(z.ceiling_dbtp, level(-1.0));
}

#[test]
fn an_unknown_preset_in_the_defaults_is_rejected() {
    let err = config_err("[defaults]\npreset = \"nope\"\n[target.x]\nformat = \"s16\"\n");
    assert!(err.contains("unknown preset"));
    // A target with a preset of its own does not ask for it.
    config_from_str("[defaults]\npreset = \"nope\"\n[target.x]\npreset = \"cd\"\n");
}

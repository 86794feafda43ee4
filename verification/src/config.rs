//! Configuration: named targets, each the description of a deliverable.
//!
//! A target is written as a set of optional fields. Its effective values come from four
//! layers, the later ones winning: the built-in fallbacks, the shared defaults, a named
//! preset, and the fields written in the target itself.
use vstd::prelude::*;
use vstd::arithmetic::power2::{
    lemma2_to64, lemma2_to64_rest, lemma_pow2_adds, lemma_pow2_pos, pow2,
};
use crate::audio::buffer::OutputSampleFormat;
use crate::decimal::{fixed, fixed_text};
use crate::dither::ShapingCurve;
use crate::refusal::Refusal;
use crate::level::Level;
use crate::path::{self, extension_of, joined_path, same_path, stem_of};
use crate::targets::{TargetTable, strictly_sorted};
use crate::text::{
    self, bool_text, digits, free_of, has_text, law_numerals_read_back,
    law_replacing_passes_over_other_text, law_replacing_replaces_the_pattern,
    law_replacing_starts_at_the_pattern, occurs_at, replaced, starts_with, views,
};

verus! {

/// The bits of -0.1.
pub const MINUS_TENTH: u64 = 0xBFB9_9999_9999_999A;

/// The bits of -1.
pub const MINUS_1: u64 = 0xBFF0_0000_0000_0000;

/// The bits of -2.
pub const MINUS_2: u64 = 0xC000_0000_0000_0000;

/// The bits of -14.
pub const MINUS_14: u64 = 0xC02C_0000_0000_0000;

/// The bits of -16.
pub const MINUS_16: u64 = 0xC030_0000_0000_0000;

/// The bits of -23.
pub const MINUS_23: u64 = 0xC037_0000_0000_0000;

/// The bits of 1.
pub const PLUS_1: u64 = 0x3FF0_0000_0000_0000;

/// The quality of sample-rate conversion.
#[derive(Clone, Copy, Debug, PartialEq, Eq, Structural)]
pub enum ResampleQuality {
    Lq,
    Mq,
    Hq,
    Vhq,
}

/// What to do with peaks above the ceiling.
#[derive(Clone, Copy, Debug, PartialEq, Eq, Structural)]
pub enum OnClipPolicy {
    Limit,
    ReduceGain,
    Warn,
}

/// The release behaviour of the limiter.
#[derive(Clone, Copy, Debug, PartialEq, Eq, Structural)]
pub enum LimiterCharacter {
    Balanced,
    Transient,
}

/// The dither applied when the bit depth is reduced.
#[derive(Clone, Copy, Debug, PartialEq, Eq, Structural)]
pub enum DitherMode {
    Tpdf,
    /// No dither; refused when the bit depth is reduced.
    Off,
    /// TPDF with a gentle error-feedback noise shaper; engages for s16 only and is flat
    /// TPDF otherwise.
    Shaped,
    /// TPDF with the ear-weighted noise shaper; engages for s16 only and is flat TPDF
    /// otherwise.
    Psychoacoustic,
    /// Shaping with per-channel state and blanking of silence; engages for s16 only and is
    /// flat TPDF otherwise.
    MbitPlus,
}

/// How strongly the MBIT+ shaper moves noise.
#[derive(Clone, Copy, Debug, PartialEq, Eq, Structural)]
pub enum DitherStrength {
    Low,
    Normal,
    High,
}

/// How the dither of the channels is related.
#[derive(Clone, Copy, Debug, PartialEq, Eq, Structural)]
pub enum DitherCorrelation {
    Decorrelated,
    Correlated,
    MidSide,
}

/// The delivered bit depth.
#[derive(Clone, Copy, Debug, PartialEq, Eq, Structural)]
pub enum BitDepthFormat {
    S16,
    S24,
    F32,
}

/// Output container and codec. WAV and FLAC carry an integer bit depth (FLAC has no
/// float), MP3 is lossy and has none.
#[derive(Clone, Copy, Debug, PartialEq, Eq, Structural)]
pub enum OutputCodec {
    Wav,
    Flac,
    Mp3,
}

impl DitherMode {
    /// The curve that the mode shapes with.
    pub open spec fn curve(self) -> Option<ShapingCurve> {
        match self {
            DitherMode::Shaped => Some(ShapingCurve::Gentle),
            DitherMode::Psychoacoustic => Some(ShapingCurve::Psychoacoustic),
            DitherMode::Tpdf | DitherMode::Off | DitherMode::MbitPlus => None,
        }
    }

    /// The mode shapes noise when reducing to `format`.
    pub open spec fn shapes_at(self, format: OutputSampleFormat) -> bool {
        self.curve() is Some && format == OutputSampleFormat::S16
    }

    /// The error-feedback curve this mode applies, or `None` for the modes without one.
    pub fn shaping_curve(self) -> (r: Option<ShapingCurve>)
        ensures
            r == self.curve(),
    {
        match self {
            DitherMode::Shaped => Some(ShapingCurve::Gentle),
            DitherMode::Psychoacoustic => Some(ShapingCurve::Psychoacoustic),
            DitherMode::Tpdf | DitherMode::Off | DitherMode::MbitPlus => None,
        }
    }

    /// Whether error-feedback noise shaping engages for `format`.
    pub fn shapes(self, format: OutputSampleFormat) -> (r: bool)
        ensures
            r == self.shapes_at(format),
    {
        self.shaping_curve().is_some() && format == OutputSampleFormat::S16
    }
}

impl OutputCodec {
    /// The file extension of the codec.
    pub open spec fn extension(self) -> Seq<char> {
        match self {
            OutputCodec::Wav => "wav"@,
            OutputCodec::Flac => "flac"@,
            OutputCodec::Mp3 => "mp3"@,
        }
    }

    /// File extension and the value of the `{cext}` placeholder.
    pub fn ext(self) -> (r: &'static str)
        ensures
            r@ == self.extension(),
    {
        match self {
            OutputCodec::Wav => "wav",
            OutputCodec::Flac => "flac",
            OutputCodec::Mp3 => "mp3",
        }
    }
}

/// The MP3 bitrates (kbps) that can be chosen.
pub open spec fn mp3_bitrates() -> Seq<u32> {
    seq![8u32, 16, 24, 32, 40, 48, 64, 80, 96, 112, 128, 160, 192, 224, 256, 320]
}

/// The MP3 bitrates (kbps) that can be chosen.
pub const MP3_BITRATES: [u32; 16] = [
    8,
    16,
    24,
    32,
    40,
    48,
    64,
    80,
    96,
    112,
    128,
    160,
    192,
    224,
    256,
    320,
];

impl BitDepthFormat {
    /// The sample format of the bit depth.
    pub open spec fn sample_format(self) -> OutputSampleFormat {
        match self {
            BitDepthFormat::S16 => OutputSampleFormat::S16,
            BitDepthFormat::S24 => OutputSampleFormat::S24,
            BitDepthFormat::F32 => OutputSampleFormat::F32,
        }
    }
}

impl From<BitDepthFormat> for OutputSampleFormat {
    fn from(value: BitDepthFormat) -> (r: OutputSampleFormat) {
        match value {
            BitDepthFormat::S16 => OutputSampleFormat::S16,
            BitDepthFormat::S24 => OutputSampleFormat::S24,
            BitDepthFormat::F32 => OutputSampleFormat::F32,
        }
    }
}

impl vstd::std_specs::convert::FromSpecImpl<BitDepthFormat> for OutputSampleFormat {
    open spec fn obeys_from_spec() -> bool {
        true
    }

    open spec fn from_spec(value: BitDepthFormat) -> OutputSampleFormat {
        value.sample_format()
    }
}

/// A target, or the shared defaults, as written: every field is optional.
#[derive(Debug, Clone)]
pub struct RawTarget {
    /// Name of a built-in preset to seed this target's fields.
    pub preset: Option<String>,
    /// Delivery rate (Hz); absent keeps the source rate.
    pub rate: Option<u32>,
    /// Delivered bit depth.
    pub format: Option<BitDepthFormat>,
    /// Loudness goal; absent skips loudness normalization.
    pub lufs: Option<Level>,
    /// True-peak ceiling.
    pub ceiling_dbtp: Option<Level>,
    /// What to do with peaks above the ceiling.
    pub on_clip: Option<OnClipPolicy>,
    /// Release behaviour of the limiter. It is shown in the plan and handed to the limiter,
    /// which so far has one release rate.
    pub limiter_character: Option<LimiterCharacter>,
    /// Soft clipping near the ceiling after the limiter. It is shown in the plan and handed to
    /// the limiter, which so far does not clip.
    pub limiter_soft_clip: Option<bool>,
    /// One limiter envelope for all channels. It is shown in the plan and handed to the
    /// limiter, which so far always links them.
    pub limiter_link_channels: Option<bool>,
    /// Warn when the limiter takes more than this many dB off the peak to reach `lufs`.
    pub warn_limiting_db: Option<Level>,
    /// Quality of sample-rate conversion.
    pub quality: Option<ResampleQuality>,
    /// Dither of the bit-depth reduction.
    pub dither: Option<DitherMode>,
    /// Strength of the MBIT+ shaper.
    pub dither_strength: Option<DitherStrength>,
    /// How the dither of the channels is related.
    pub dither_correlation: Option<DitherCorrelation>,
    /// Output container and codec.
    pub codec: Option<OutputCodec>,
    /// Write a Broadcast WAV `bext` chunk (WAV only).
    pub bwf: Option<bool>,
    /// MP3 bitrate in kbps (MP3 only).
    pub mp3_bitrate: Option<u32>,
    /// Directory that outputs are written to.
    pub dir: Option<String>,
    /// Naming pattern of outputs.
    pub naming: Option<String>,
    /// The output may replace the input.
    pub overwrite: Option<bool>,
}

/// The mathematical model of a [`RawTarget`].
#[verifier::ext_equal]
pub struct RawTargetView {
    pub preset: Option<Seq<char>>,
    pub rate: Option<u32>,
    pub format: Option<BitDepthFormat>,
    pub lufs: Option<Level>,
    pub ceiling_dbtp: Option<Level>,
    pub on_clip: Option<OnClipPolicy>,
    pub limiter_character: Option<LimiterCharacter>,
    pub limiter_soft_clip: Option<bool>,
    pub limiter_link_channels: Option<bool>,
    pub warn_limiting_db: Option<Level>,
    pub quality: Option<ResampleQuality>,
    pub dither: Option<DitherMode>,
    pub dither_strength: Option<DitherStrength>,
    pub dither_correlation: Option<DitherCorrelation>,
    pub codec: Option<OutputCodec>,
    pub bwf: Option<bool>,
    pub mp3_bitrate: Option<u32>,
    pub dir: Option<Seq<char>>,
    pub naming: Option<Seq<char>>,
    pub overwrite: Option<bool>,
}

impl View for RawTarget {
    type V = RawTargetView;

    open spec fn view(&self) -> RawTargetView {
        RawTargetView {
            preset: path::opt_view(self.preset),
            rate: self.rate,
            format: self.format,
            lufs: self.lufs,
            ceiling_dbtp: self.ceiling_dbtp,
            on_clip: self.on_clip,
            limiter_character: self.limiter_character,
            limiter_soft_clip: self.limiter_soft_clip,
            limiter_link_channels: self.limiter_link_channels,
            warn_limiting_db: self.warn_limiting_db,
            quality: self.quality,
            dither: self.dither,
            dither_strength: self.dither_strength,
            dither_correlation: self.dither_correlation,
            codec: self.codec,
            bwf: self.bwf,
            mp3_bitrate: self.mp3_bitrate,
            dir: path::opt_view(self.dir),
            naming: path::opt_view(self.naming),
            overwrite: self.overwrite,
        }
    }
}

/// No field set.
pub open spec fn blank_target() -> RawTargetView {
    RawTargetView {
        preset: None,
        rate: None,
        format: None,
        lufs: None,
        ceiling_dbtp: None,
        on_clip: None,
        limiter_character: None,
        limiter_soft_clip: None,
        limiter_link_channels: None,
        warn_limiting_db: None,
        quality: None,
        dither: None,
        dither_strength: None,
        dither_correlation: None,
        codec: None,
        bwf: None,
        mp3_bitrate: None,
        dir: None,
        naming: None,
        overwrite: None,
    }
}

impl Default for RawTarget {
    fn default() -> (r: RawTarget)
        ensures
            r@ == blank_target(),
    {
        RawTarget {
            preset: None,
            rate: None,
            format: None,
            lufs: None,
            ceiling_dbtp: None,
            on_clip: None,
            limiter_character: None,
            limiter_soft_clip: None,
            limiter_link_channels: None,
            warn_limiting_db: None,
            quality: None,
            dither: None,
            dither_strength: None,
            dither_correlation: None,
            codec: None,
            bwf: None,
            mp3_bitrate: None,
            dir: None,
            naming: None,
            overwrite: None,
        }
    }
}

/// `top` where it is set, else `base`.
pub open spec fn prefer<T>(top: Option<T>, base: Option<T>) -> Option<T> {
    match top {
        Some(_) => top,
        None => base,
    }
}

/// `base` with every field that `top` sets taken from `top`.
pub open spec fn overlaid(base: RawTargetView, top: RawTargetView) -> RawTargetView {
    RawTargetView {
        preset: prefer(top.preset, base.preset),
        rate: prefer(top.rate, base.rate),
        format: prefer(top.format, base.format),
        lufs: prefer(top.lufs, base.lufs),
        ceiling_dbtp: prefer(top.ceiling_dbtp, base.ceiling_dbtp),
        on_clip: prefer(top.on_clip, base.on_clip),
        limiter_character: prefer(top.limiter_character, base.limiter_character),
        limiter_soft_clip: prefer(top.limiter_soft_clip, base.limiter_soft_clip),
        limiter_link_channels: prefer(top.limiter_link_channels, base.limiter_link_channels),
        warn_limiting_db: prefer(top.warn_limiting_db, base.warn_limiting_db),
        quality: prefer(top.quality, base.quality),
        dither: prefer(top.dither, base.dither),
        dither_strength: prefer(top.dither_strength, base.dither_strength),
        dither_correlation: prefer(top.dither_correlation, base.dither_correlation),
        codec: prefer(top.codec, base.codec),
        bwf: prefer(top.bwf, base.bwf),
        mp3_bitrate: prefer(top.mp3_bitrate, base.mp3_bitrate),
        dir: prefer(top.dir, base.dir),
        naming: prefer(top.naming, base.naming),
        overwrite: prefer(top.overwrite, base.overwrite),
    }
}

/// `top` where it is set, else `base`.
fn first_set<T>(top: Option<T>, base: Option<T>) -> (r: Option<T>)
    ensures
        r == prefer(top, base),
{
    match top {
        Some(t) => Some(t),
        None => base,
    }
}

fn copy_text(o: &Option<String>) -> (r: Option<String>)
    ensures
        path::opt_view(r) == path::opt_view(*o),
{
    match o {
        None => None,
        Some(s) => Some(s.clone()),
    }
}

impl RawTarget {
    /// A copy with the same fields.
    pub fn duplicate(&self) -> (r: RawTarget)
        ensures
            r@ == self@,
    {
        RawTarget {
            preset: copy_text(&self.preset),
            rate: self.rate,
            format: self.format,
            lufs: self.lufs,
            ceiling_dbtp: self.ceiling_dbtp,
            on_clip: self.on_clip,
            limiter_character: self.limiter_character,
            limiter_soft_clip: self.limiter_soft_clip,
            limiter_link_channels: self.limiter_link_channels,
            warn_limiting_db: self.warn_limiting_db,
            quality: self.quality,
            dither: self.dither,
            dither_strength: self.dither_strength,
            dither_correlation: self.dither_correlation,
            codec: self.codec,
            bwf: self.bwf,
            mp3_bitrate: self.mp3_bitrate,
            dir: copy_text(&self.dir),
            naming: copy_text(&self.naming),
            overwrite: self.overwrite,
        }
    }
}

/// Overlay `top` onto `base`: any field set in `top` wins.
pub fn overlay(base: RawTarget, top: RawTarget) -> (r: RawTarget)
    ensures
        r@ == overlaid(base@, top@),
{
    RawTarget {
        preset: first_set(top.preset, base.preset),
        rate: first_set(top.rate, base.rate),
        format: first_set(top.format, base.format),
        lufs: first_set(top.lufs, base.lufs),
        ceiling_dbtp: first_set(top.ceiling_dbtp, base.ceiling_dbtp),
        on_clip: first_set(top.on_clip, base.on_clip),
        limiter_character: first_set(top.limiter_character, base.limiter_character),
        limiter_soft_clip: first_set(top.limiter_soft_clip, base.limiter_soft_clip),
        limiter_link_channels: first_set(top.limiter_link_channels, base.limiter_link_channels),
        warn_limiting_db: first_set(top.warn_limiting_db, base.warn_limiting_db),
        quality: first_set(top.quality, base.quality),
        dither: first_set(top.dither, base.dither),
        dither_strength: first_set(top.dither_strength, base.dither_strength),
        dither_correlation: first_set(top.dither_correlation, base.dither_correlation),
        codec: first_set(top.codec, base.codec),
        bwf: first_set(top.bwf, base.bwf),
        mp3_bitrate: first_set(top.mp3_bitrate, base.mp3_bitrate),
        dir: first_set(top.dir, base.dir),
        naming: first_set(top.naming, base.naming),
        overwrite: first_set(top.overwrite, base.overwrite),
    }
}

/// The last-resort fallbacks: a bare target only needs a `format`.
pub open spec fn fallback() -> RawTargetView {
    RawTargetView {
        preset: None,
        rate: None,
        format: None,
        lufs: None,
        ceiling_dbtp: Some(Level { bits: MINUS_1 }),
        on_clip: Some(OnClipPolicy::Limit),
        limiter_character: Some(LimiterCharacter::Balanced),
        limiter_soft_clip: Some(false),
        limiter_link_channels: Some(true),
        warn_limiting_db: Some(Level { bits: PLUS_1 }),
        quality: Some(ResampleQuality::Vhq),
        dither: Some(DitherMode::Tpdf),
        dither_strength: Some(DitherStrength::Normal),
        dither_correlation: Some(DitherCorrelation::Decorrelated),
        codec: Some(OutputCodec::Wav),
        bwf: Some(false),
        mp3_bitrate: Some(320),
        dir: Some("./out"@),
        naming: Some("{target}/{stem}.{cext}"@),
        overwrite: Some(false),
    }
}

/// The last-resort fallbacks.
pub fn builtin_fallback() -> (r: RawTarget)
    ensures
        r@ == fallback(),
{
    RawTarget {
        preset: None,
        rate: None,
        format: None,
        lufs: None,
        ceiling_dbtp: Some(Level { bits: MINUS_1 }),
        on_clip: Some(OnClipPolicy::Limit),
        limiter_character: Some(LimiterCharacter::Balanced),
        limiter_soft_clip: Some(false),
        limiter_link_channels: Some(true),
        warn_limiting_db: Some(Level { bits: PLUS_1 }),
        quality: Some(ResampleQuality::Vhq),
        dither: Some(DitherMode::Tpdf),
        dither_strength: Some(DitherStrength::Normal),
        dither_correlation: Some(DitherCorrelation::Decorrelated),
        codec: Some(OutputCodec::Wav),
        bwf: Some(false),
        mp3_bitrate: Some(320),
        dir: Some(String::from_str("./out")),
        naming: Some(String::from_str("{target}/{stem}.{cext}")),
        overwrite: Some(false),
    }
}

/// A target with the four deliverable fields that a preset sets.
pub open spec fn deliverable(
    rate: u32,
    format: BitDepthFormat,
    lufs: Option<Level>,
    ceiling_dbtp: Level,
) -> RawTargetView {
    RawTargetView {
        rate: Some(rate),
        format: Some(format),
        lufs,
        ceiling_dbtp: Some(ceiling_dbtp),
        ..blank_target()
    }
}

/// The built-in distribution presets.
pub open spec fn preset_view(name: Seq<char>) -> Option<RawTargetView> {
    if name == "spotify"@ {
        Some(deliverable(44_100, BitDepthFormat::S16, Some(Level { bits: MINUS_14 }), Level { bits: MINUS_1 }))
    } else if name == "apple-music"@ {
        Some(deliverable(44_100, BitDepthFormat::S16, Some(Level { bits: MINUS_16 }), Level { bits: MINUS_1 }))
    } else if name == "youtube"@ {
        Some(deliverable(48_000, BitDepthFormat::S16, Some(Level { bits: MINUS_14 }), Level { bits: MINUS_1 }))
    } else if name == "tidal"@ {
        Some(deliverable(44_100, BitDepthFormat::S16, Some(Level { bits: MINUS_14 }), Level { bits: MINUS_1 }))
    } else if name == "amazon-music"@ {
        Some(deliverable(44_100, BitDepthFormat::S16, Some(Level { bits: MINUS_14 }), Level { bits: MINUS_2 }))
    } else if name == "soundcloud"@ {
        Some(deliverable(44_100, BitDepthFormat::S16, Some(Level { bits: MINUS_14 }), Level { bits: MINUS_1 }))
    } else if name == "cd"@ {
        Some(deliverable(44_100, BitDepthFormat::S16, None, Level { bits: MINUS_TENTH }))
    } else if name == "broadcast-ebu-r128"@ {
        Some(deliverable(48_000, BitDepthFormat::S24, Some(Level { bits: MINUS_23 }), Level { bits: MINUS_1 }))
    } else if name == "48k"@ {
        Some(deliverable(48_000, BitDepthFormat::S16, Some(Level { bits: MINUS_16 }), Level { bits: MINUS_1 }))
    } else if name == "hires"@ {
        Some(deliverable(96_000, BitDepthFormat::S24, Some(Level { bits: MINUS_16 }), Level { bits: MINUS_TENTH }))
    } else {
        None
    }
}

/// The refusal of a preset name that is not built in.
pub open spec fn unknown_preset(name: Seq<char>) -> Seq<char> {
    "unknown preset '"@ + name
        + "'; valid presets: spotify, apple-music, youtube, tidal, amazon-music, soundcloud, cd, broadcast-ebu-r128, 48k, hires"@
}

fn spec_of(rate: u32, format: BitDepthFormat, lufs: Option<Level>, ceiling_dbtp: Level) -> (r: RawTarget)
    ensures
        r@ == deliverable(rate, format, lufs, ceiling_dbtp),
{
    RawTarget {
        rate: Some(rate),
        format: Some(format),
        lufs,
        ceiling_dbtp: Some(ceiling_dbtp),
        ..RawTarget::default()
    }
}

/// The built-in preset called `name`. The values are the delivery figures that each platform
/// publishes, and can be overridden field by field.
pub fn preset(name: &str) -> (r: Result<RawTarget, Refusal>)
    ensures
        match r {
            Ok(t) => preset_view(name@) == Some(t@),
            Err(e) => preset_view(name@) is None && e@ == unknown_preset(name@),
        },
{
    if text::same_text(name, "spotify") {
        Ok(spec_of(44_100, BitDepthFormat::S16, Some(Level { bits: MINUS_14 }), Level { bits: MINUS_1 }))
    } else if text::same_text(name, "apple-music") {
        Ok(spec_of(44_100, BitDepthFormat::S16, Some(Level { bits: MINUS_16 }), Level { bits: MINUS_1 }))
    } else if text::same_text(name, "youtube") {
        Ok(spec_of(48_000, BitDepthFormat::S16, Some(Level { bits: MINUS_14 }), Level { bits: MINUS_1 }))
    } else if text::same_text(name, "tidal") {
        Ok(spec_of(44_100, BitDepthFormat::S16, Some(Level { bits: MINUS_14 }), Level { bits: MINUS_1 }))
    } else if text::same_text(name, "amazon-music") {
        Ok(spec_of(44_100, BitDepthFormat::S16, Some(Level { bits: MINUS_14 }), Level { bits: MINUS_2 }))
    } else if text::same_text(name, "soundcloud") {
        Ok(spec_of(44_100, BitDepthFormat::S16, Some(Level { bits: MINUS_14 }), Level { bits: MINUS_1 }))
    } else if text::same_text(name, "cd") {
        Ok(spec_of(44_100, BitDepthFormat::S16, None, Level { bits: MINUS_TENTH }))
    } else if text::same_text(name, "broadcast-ebu-r128") {
        Ok(spec_of(48_000, BitDepthFormat::S24, Some(Level { bits: MINUS_23 }), Level { bits: MINUS_1 }))
    } else if text::same_text(name, "48k") {
        Ok(spec_of(48_000, BitDepthFormat::S16, Some(Level { bits: MINUS_16 }), Level { bits: MINUS_1 }))
    } else if text::same_text(name, "hires") {
        Ok(spec_of(96_000, BitDepthFormat::S24, Some(Level { bits: MINUS_16 }), Level { bits: MINUS_TENTH }))
    } else {
        let mut m = String::from_str("unknown preset '");
        m.append(name);
        m.append(
            "'; valid presets: spotify, apple-music, youtube, tidal, amazon-music, soundcloud, cd, broadcast-ebu-r128, 48k, hires",
        );
        Err(Refusal::new(m))
    }
}

/// A target with every effective value filled in.
#[derive(Debug, Clone)]
pub struct ResolvedTarget {
    /// Name of the target.
    pub name: String,
    /// Delivery rate; `None` keeps the source rate.
    pub rate: Option<u32>,
    /// Delivered sample format.
    pub format: OutputSampleFormat,
    /// Loudness goal; `None` skips loudness normalization.
    pub lufs: Option<Level>,
    /// True-peak ceiling.
    pub ceiling_dbtp: Level,
    /// What to do with peaks above the ceiling.
    pub on_clip: OnClipPolicy,
    /// Release behaviour of the limiter. Shown and handed on; the limiter has one release rate.
    pub limiter_character: LimiterCharacter,
    /// Soft clipping near the ceiling. Shown and handed on; the limiter does not clip.
    pub limiter_soft_clip: bool,
    /// One limiter envelope for all channels. Shown and handed on; the limiter always links.
    pub limiter_link_channels: bool,
    /// Gain reduction (dB) above which heavy limiting is reported.
    pub warn_limiting_db: Level,
    /// Quality of sample-rate conversion.
    pub quality: ResampleQuality,
    /// Dither of the bit-depth reduction.
    pub dither: DitherMode,
    /// Strength of the MBIT+ shaper.
    pub dither_strength: DitherStrength,
    /// How the dither of the channels is related.
    pub dither_correlation: DitherCorrelation,
    /// Output container and codec.
    pub codec: OutputCodec,
    /// Write a Broadcast WAV `bext` chunk.
    pub bwf: bool,
    /// MP3 bitrate (kbps).
    pub mp3_bitrate: u32,
    /// Directory that outputs are written to.
    pub dir: String,
    /// Naming pattern of outputs.
    pub naming: String,
    /// The output may replace the input.
    pub overwrite: bool,
}

/// The mathematical model of a [`ResolvedTarget`].
#[verifier::ext_equal]
pub struct ResolvedTargetView {
    pub name: Seq<char>,
    pub rate: Option<u32>,
    pub format: OutputSampleFormat,
    pub lufs: Option<Level>,
    pub ceiling_dbtp: Level,
    pub on_clip: OnClipPolicy,
    pub limiter_character: LimiterCharacter,
    pub limiter_soft_clip: bool,
    pub limiter_link_channels: bool,
    pub warn_limiting_db: Level,
    pub quality: ResampleQuality,
    pub dither: DitherMode,
    pub dither_strength: DitherStrength,
    pub dither_correlation: DitherCorrelation,
    pub codec: OutputCodec,
    pub bwf: bool,
    pub mp3_bitrate: u32,
    pub dir: Seq<char>,
    pub naming: Seq<char>,
    pub overwrite: bool,
}

impl View for ResolvedTarget {
    type V = ResolvedTargetView;

    open spec fn view(&self) -> ResolvedTargetView {
        ResolvedTargetView {
            name: self.name@,
            rate: self.rate,
            format: self.format,
            lufs: self.lufs,
            ceiling_dbtp: self.ceiling_dbtp,
            on_clip: self.on_clip,
            limiter_character: self.limiter_character,
            limiter_soft_clip: self.limiter_soft_clip,
            limiter_link_channels: self.limiter_link_channels,
            warn_limiting_db: self.warn_limiting_db,
            quality: self.quality,
            dither: self.dither,
            dither_strength: self.dither_strength,
            dither_correlation: self.dither_correlation,
            codec: self.codec,
            bwf: self.bwf,
            mp3_bitrate: self.mp3_bitrate,
            dir: self.dir@,
            naming: self.naming@,
            overwrite: self.overwrite,
        }
    }
}

/// The target called `name` whose merged fields are `m`, delivered in `format`.
pub open spec fn materialized(
    name: Seq<char>,
    m: RawTargetView,
    format: OutputSampleFormat,
) -> ResolvedTargetView {
    ResolvedTargetView {
        name,
        rate: m.rate,
        format,
        lufs: m.lufs,
        ceiling_dbtp: m.ceiling_dbtp->0,
        on_clip: m.on_clip->0,
        limiter_character: m.limiter_character->0,
        limiter_soft_clip: m.limiter_soft_clip->0,
        limiter_link_channels: m.limiter_link_channels->0,
        warn_limiting_db: m.warn_limiting_db->0,
        quality: m.quality->0,
        dither: m.dither->0,
        dither_strength: m.dither_strength->0,
        dither_correlation: m.dither_correlation->0,
        codec: m.codec->0,
        bwf: m.bwf->0,
        mp3_bitrate: m.mp3_bitrate->0,
        dir: m.dir->0,
        naming: m.naming->0,
        overwrite: m.overwrite->0,
    }
}

/// The preset of a target: its own, or else the one that the defaults name.
pub open spec fn preset_in_use(defaults: RawTargetView, raw: RawTargetView) -> Option<Seq<char>> {
    prefer(raw.preset, defaults.preset)
}

/// The fields of a target after layering: fallbacks, defaults, preset, explicit fields.
pub open spec fn layered(defaults: RawTargetView, raw: RawTargetView) -> RawTargetView {
    let base = overlaid(fallback(), defaults);
    let seeded = match preset_in_use(defaults, raw) {
        Some(p) => overlaid(base, preset_view(p)->0),
        None => base,
    };
    overlaid(seeded, raw)
}

/// The refusal of a field of the target called `name`.
pub open spec fn target_refusal(name: Seq<char>, what: Seq<char>) -> Seq<char> {
    "target '"@ + name + "': "@ + what
}

/// What is wrong with the fields of a target, if anything.
pub open spec fn field_error(t: ResolvedTargetView) -> Option<Seq<char>> {
    let zero = Level { bits: 0 };
    if t.rate == Some(0u32) {
        Some("rate must be > 0"@)
    } else if t.lufs is Some && !t.lufs->0.finite() {
        Some("lufs must be finite"@)
    } else if zero.below(t.ceiling_dbtp) {
        Some("ceiling_dbtp must be <= 0 (got "@ + fixed_text(t.ceiling_dbtp, 2) + ")"@)
    } else if !t.warn_limiting_db.finite() || t.warn_limiting_db.below(zero) {
        Some(
            "warn_limiting_db must be a finite value >= 0 (got "@ + fixed_text(t.warn_limiting_db, 2)
                + ")"@,
        )
    } else if t.codec == OutputCodec::Flac && t.format == OutputSampleFormat::F32 {
        Some("codec=flac requires an integer format (s16 or s24), not f32"@)
    } else if t.bwf && t.codec != OutputCodec::Wav {
        Some("bwf=true is only valid for codec=wav"@)
    } else if t.codec == OutputCodec::Mp3 && !mp3_bitrates().contains(t.mp3_bitrate) {
        Some(
            "mp3_bitrate "@ + digits(t.mp3_bitrate as nat)
                + " is not a valid MP3 bitrate ([8, 16, 24, 32, 40, 48, 64, 80, 96, 112, 128, 160, 192, 224, 256, 320])"@,
        )
    } else if !has_text(t.naming, "{stem}"@) {
        Some("naming must contain the {stem} placeholder"@)
    } else {
        None
    }
}

/// The target called `name` that is written as `raw`, or why it is refused.
pub open spec fn resolution(
    defaults: RawTargetView,
    name: Seq<char>,
    raw: RawTargetView,
) -> Result<ResolvedTargetView, Seq<char>> {
    let preset = preset_in_use(defaults, raw);
    if preset is Some && preset_view(preset->0) is None {
        Err(unknown_preset(preset->0))
    } else {
        let m = layered(defaults, raw);
        if m.format is None && m.codec->0 != OutputCodec::Mp3 {
            Err(
                target_refusal(name, "'format' is required (set it directly or via a preset)"@),
            )
        } else {
            let format = match m.format {
                Some(f) => f.sample_format(),
                None => OutputSampleFormat::S16,
            };
            let t = materialized(name, m, format);
            match field_error(t) {
                Some(what) => Err(target_refusal(name, what)),
                None => Ok(t),
            }
        }
    }
}

fn refuse(name: &str, what: &str) -> (r: Refusal)
    ensures
        r@ == target_refusal(name@, what@),
{
    let mut m = String::from_str("target '");
    m.append(name);
    m.append("': ");
    m.append(what);
    Refusal::new(m)
}

/// Whether `kbps` is an MP3 bitrate that can be chosen.
pub fn is_mp3_bitrate(kbps: u32) -> (r: bool)
    ensures
        r == mp3_bitrates().contains(kbps),
{
    let table: [u32; 16] = MP3_BITRATES;
    assert(table@ =~= mp3_bitrates());
    let mut i: usize = 0;
    while i < 16
        invariant
            table@ == mp3_bitrates(),
            i <= 16,
            forall|k: int| 0 <= k < i ==> mp3_bitrates()[k] != kbps,
        decreases 16 - i,
    {
        if table[i] == kbps {
            assert(mp3_bitrates()[i as int] == kbps);
            return true;
        }
        i = i + 1;
    }
    false
}

impl ResolvedTarget {
    /// Check the fields that cannot produce valid output.
    pub fn validate_fields(&self) -> (r: Result<(), Refusal>)
        ensures
            match r {
                Ok(_) => field_error(self@) is None,
                Err(e) => field_error(self@) is Some && e@ == target_refusal(
                    self.name@,
                    field_error(self@)->0,
                ),
            },
    {
        let name = self.name.as_str();
        let zero = Level { bits: 0 };
        if let Some(rate) = self.rate {
            if rate == 0 {
                return Err(refuse(name, "rate must be > 0"));
            }
        }
        if let Some(lufs) = self.lufs {
            if !lufs.is_finite() {
                return Err(refuse(name, "lufs must be finite"));
            }
        }
        // A ceiling above 0 dBTP is meaningless: 0 dBTP is digital full scale.
        if zero.is_below(self.ceiling_dbtp) {
            let mut m = String::from_str("ceiling_dbtp must be <= 0 (got ");
            m.append(fixed(self.ceiling_dbtp, 2).as_str());
            m.append(")");
            return Err(refuse(name, m.as_str()));
        }
        // A negative threshold would fire on every file: gain reduction is never negative.
        if !self.warn_limiting_db.is_finite() || self.warn_limiting_db.is_below(zero) {
            let mut m = String::from_str("warn_limiting_db must be a finite value >= 0 (got ");
            m.append(fixed(self.warn_limiting_db, 2).as_str());
            m.append(")");
            return Err(refuse(name, m.as_str()));
        }
        // FLAC has no floating-point sample format.
        if self.codec == OutputCodec::Flac && self.format == OutputSampleFormat::F32 {
            return Err(refuse(name, "codec=flac requires an integer format (s16 or s24), not f32"));
        }
        // The bext chunk is a WAV extension.
        if self.bwf && self.codec != OutputCodec::Wav {
            return Err(refuse(name, "bwf=true is only valid for codec=wav"));
        }
        if self.codec == OutputCodec::Mp3 && !is_mp3_bitrate(self.mp3_bitrate) {
            let mut m = String::from_str("mp3_bitrate ");
            m.append(text::number(self.mp3_bitrate as u64).as_str());
            m.append(
                " is not a valid MP3 bitrate ([8, 16, 24, 32, 40, 48, 64, 80, 96, 112, 128, 160, 192, 224, 256, 320])",
            );
            return Err(refuse(name, m.as_str()));
        }
        if !text::contains(self.naming.as_str(), "{stem}") {
            return Err(refuse(name, "naming must contain the {stem} placeholder"));
        }
        Ok(())
    }
}

/// The tag of a sample format.
pub open spec fn format_label(format: OutputSampleFormat) -> Seq<char> {
    match format {
        OutputSampleFormat::S16 => "s16"@,
        OutputSampleFormat::S24 => "s24"@,
        OutputSampleFormat::F32 => "f32"@,
    }
}

/// The tag of a sample format.
pub fn format_tag(format: OutputSampleFormat) -> (r: &'static str)
    ensures
        r@ == format_label(format),
{
    match format {
        OutputSampleFormat::S16 => "s16",
        OutputSampleFormat::S24 => "s24",
        OutputSampleFormat::F32 => "f32",
    }
}

/// The tag of a resampling quality.
pub open spec fn quality_label(quality: ResampleQuality) -> Seq<char> {
    match quality {
        ResampleQuality::Lq => "lq"@,
        ResampleQuality::Mq => "mq"@,
        ResampleQuality::Hq => "hq"@,
        ResampleQuality::Vhq => "vhq"@,
    }
}

/// The tag of a resampling quality.
pub fn quality_tag(quality: ResampleQuality) -> (r: &'static str)
    ensures
        r@ == quality_label(quality),
{
    match quality {
        ResampleQuality::Lq => "lq",
        ResampleQuality::Mq => "mq",
        ResampleQuality::Hq => "hq",
        ResampleQuality::Vhq => "vhq",
    }
}

/// The tag of a clip policy.
pub open spec fn on_clip_label(policy: OnClipPolicy) -> Seq<char> {
    match policy {
        OnClipPolicy::Limit => "limit"@,
        OnClipPolicy::ReduceGain => "reduce_gain"@,
        OnClipPolicy::Warn => "warn"@,
    }
}

/// The tag of a clip policy.
pub fn on_clip_tag(policy: OnClipPolicy) -> (r: &'static str)
    ensures
        r@ == on_clip_label(policy),
{
    match policy {
        OnClipPolicy::Limit => "limit",
        OnClipPolicy::ReduceGain => "reduce_gain",
        OnClipPolicy::Warn => "warn",
    }
}

/// The tag of a limiter character.
pub open spec fn limiter_character_label(character: LimiterCharacter) -> Seq<char> {
    match character {
        LimiterCharacter::Balanced => "balanced"@,
        LimiterCharacter::Transient => "transient"@,
    }
}

/// The tag of a limiter character.
pub fn limiter_character_tag(character: LimiterCharacter) -> (r: &'static str)
    ensures
        r@ == limiter_character_label(character),
{
    match character {
        LimiterCharacter::Balanced => "balanced",
        LimiterCharacter::Transient => "transient",
    }
}

/// The clip policy in words, with the limiter's settings when it limits.
pub open spec fn limiter_policy_text(
    policy: OnClipPolicy,
    character: LimiterCharacter,
    soft_clip: bool,
    link_channels: bool,
) -> Seq<char> {
    match policy {
        OnClipPolicy::Limit => "limit; "@ + limiter_character_label(character) + " release; "@ + (
        if link_channels {
            "linked"@
        } else {
            "unlinked"@
        }) + "; soft_clip="@ + bool_text(soft_clip),
        _ => on_clip_label(policy),
    }
}

/// The clip policy in words, with the limiter's settings when it limits.
pub fn limiter_policy_tag(
    policy: OnClipPolicy,
    character: LimiterCharacter,
    soft_clip: bool,
    link_channels: bool,
) -> (r: String)
    ensures
        r@ == limiter_policy_text(policy, character, soft_clip, link_channels),
{
    match policy {
        OnClipPolicy::Limit => {
            let mut m = String::from_str("limit; ");
            m.append(limiter_character_tag(character));
            m.append(" release; ");
            m.append(
                if link_channels {
                    "linked"
                } else {
                    "unlinked"
                },
            );
            m.append("; soft_clip=");
            m.append(text::bool_str(soft_clip));
            m
        },
        _ => String::from_str(on_clip_tag(policy)),
    }
}

/// The tag of a dither mode.
pub open spec fn dither_label(dither: DitherMode) -> Seq<char> {
    match dither {
        DitherMode::Tpdf => "tpdf"@,
        DitherMode::Off => "none"@,
        DitherMode::Shaped => "shaped"@,
        DitherMode::Psychoacoustic => "psychoacoustic"@,
        DitherMode::MbitPlus => "mbit_plus"@,
    }
}

/// The tag of a dither mode.
pub fn dither_tag(dither: DitherMode) -> (r: &'static str)
    ensures
        r@ == dither_label(dither),
{
    match dither {
        DitherMode::Tpdf => "tpdf",
        DitherMode::Off => "none",
        DitherMode::Shaped => "shaped",
        DitherMode::Psychoacoustic => "psychoacoustic",
        DitherMode::MbitPlus => "mbit_plus",
    }
}

/// What the quantizer will do in words, with the downgrade of the shaped modes above s16.
pub open spec fn effective_dither_text(dither: DitherMode, format: OutputSampleFormat) -> Seq<char> {
    if dither == DitherMode::MbitPlus {
        if format == OutputSampleFormat::S16 {
            "mbit+ adaptive dither (psychoacoustic + temporal + stereo-correlated)"@
        } else {
            "tpdf dither (mbit+ skipped: s16 only)"@
        }
    } else if dither.curve() is Some {
        if dither.shapes_at(format) {
            "tpdf + noise-shaping ("@ + dither.curve()->0.label() + ")"@
        } else {
            "tpdf dither (shaping skipped: s16 only)"@
        }
    } else {
        dither_label(dither) + " dither"@
    }
}

/// What the quantizer will do, in words.
pub fn effective_dither_tag(dither: DitherMode, format: OutputSampleFormat) -> (r: String)
    ensures
        r@ == effective_dither_text(dither, format),
{
    if dither == DitherMode::MbitPlus {
        return String::from_str(
            if format == OutputSampleFormat::S16 {
                "mbit+ adaptive dither (psychoacoustic + temporal + stereo-correlated)"
            } else {
                "tpdf dither (mbit+ skipped: s16 only)"
            },
        );
    }
    match dither.shaping_curve() {
        Some(curve) => {
            if dither.shapes(format) {
                let mut m = String::from_str("tpdf + noise-shaping (");
                m.append(curve.tag());
                m.append(")");
                m
            } else {
                String::from_str("tpdf dither (shaping skipped: s16 only)")
            }
        },
        None => {
            let mut m = String::from_str(dither_tag(dither));
            m.append(" dither");
            m
        },
    }
}

impl ResolvedTargetView {
    /// The file name for an input with this stem and extension: the naming pattern with
    /// its placeholders filled in, one after the other.
    pub open spec fn file_name(self, stem: Seq<char>, ext: Seq<char>, out_rate: u32) -> Seq<char> {
        let a = replaced(self.naming, "{stem}"@, stem);
        let b = replaced(a, "{ext}"@, ext);
        let c = replaced(b, "{target}"@, self.name);
        let d = replaced(c, "{rate}"@, digits(out_rate as nat));
        let e = replaced(d, "{format}"@, format_label(self.format));
        replaced(e, "{cext}"@, self.codec.extension())
    }

    /// The output path for an input, if the input has a stem.
    pub open spec fn output_path(self, input: Seq<char>, out_rate: u32) -> Option<Seq<char>> {
        match stem_of(input) {
            None => None,
            Some(stem) => {
                let ext = match extension_of(input) {
                    None => Seq::empty(),
                    Some(e) => e,
                };
                Some(joined_path(self.dir, self.file_name(stem, ext, out_rate)))
            },
        }
    }

    /// The delivery rate for a source rate.
    pub open spec fn delivery_rate(self, source_rate: u32) -> u32 {
        match self.rate {
            Some(r) => r,
            None => source_rate,
        }
    }

    /// The first planned step: loudness or plain transcoding, and how the ceiling is held.
    pub open spec fn level_step(self) -> Seq<char> {
        let policy = limiter_policy_text(
            self.on_clip,
            self.limiter_character,
            self.limiter_soft_clip,
            self.limiter_link_channels,
        );
        match self.lufs {
            Some(lufs) => "loudness -> "@ + fixed_text(lufs, 1) + " LUFS (ceiling "@ + fixed_text(
                self.ceiling_dbtp,
                1,
            ) + " dBTP, "@ + policy + ")"@,
            None => "transcode (no loudness normalization); ceiling "@ + fixed_text(
                self.ceiling_dbtp,
                1,
            ) + " dBTP enforced ("@ + policy + ")"@,
        }
    }

    /// The second planned step: whether the rate changes.
    pub open spec fn rate_step(self, source_rate: u32) -> Seq<char> {
        let out_rate = self.delivery_rate(source_rate);
        if out_rate != source_rate {
            "resample "@ + digits(source_rate as nat) + " -> "@ + digits(out_rate as nat) + " Hz ("@
                + quality_label(self.quality) + ")"@
        } else {
            "keep sample rate "@ + digits(source_rate as nat) + " Hz"@
        }
    }

    /// The remaining planned steps: quantization and container, or the lossy encode.
    pub open spec fn write_steps(self) -> Seq<Seq<char>> {
        if self.codec == OutputCodec::Mp3 {
            seq![
                "encode MP3 "@ + digits(self.mp3_bitrate as nat)
                    + " kbps (lossy; bit depth & dither not applicable)"@,
            ]
        } else {
            let depth = if self.format == OutputSampleFormat::F32 {
                "write f32 (no quantization)"@
            } else {
                "quantize -> "@ + format_label(self.format) + " + "@ + effective_dither_text(
                    self.dither,
                    self.format,
                )
            };
            let container = if self.codec == OutputCodec::Flac {
                "FLAC"@
            } else if self.bwf {
                "Broadcast WAV (bext + R128 metadata)"@
            } else {
                "WAV"@
            };
            seq![depth, "write "@ + container]
        }
    }

    /// The derived chain for a source rate.
    pub open spec fn plan(self, source_rate: u32) -> Seq<Seq<char>> {
        seq![self.level_step(), self.rate_step(source_rate)] + self.write_steps()
    }
}

impl ResolvedTarget {
    /// The output path for `input`. `out_rate` is the delivery rate, used for the `{rate}`
    /// placeholder.
    pub fn render_output_path(&self, input: &str, out_rate: u32) -> (r: Result<String, Refusal>)
        ensures
            match r {
                Ok(p) => self@.output_path(input@, out_rate) == Some(p@),
                Err(e) => self@.output_path(input@, out_rate) is None && e@
                    == "input file has no valid stem"@,
            },
    {
        let stem = match path::file_stem(input) {
            None => {
                return Err(Refusal::of("input file has no valid stem"));
            },
            Some(stem) => stem,
        };
        let ext = match path::extension(input) {
            None => {
                let e = String::new();
                assert(e@ =~= Seq::<char>::empty());
                e
            },
            Some(ext) => ext,
        };
        let a = text::replace(self.naming.as_str(), "{stem}", stem.as_str());
        let b = text::replace(a.as_str(), "{ext}", ext.as_str());
        let c = text::replace(b.as_str(), "{target}", self.name.as_str());
        let d = text::replace(c.as_str(), "{rate}", text::number(out_rate as u64).as_str());
        let e = text::replace(d.as_str(), "{format}", format_tag(self.format));
        let name = text::replace(e.as_str(), "{cext}", self.codec.ext());
        Ok(path::join(self.dir.as_str(), name.as_str()))
    }

    /// The delivery rate for a source rate.
    pub fn out_rate(&self, source_rate: u32) -> (r: u32)
        ensures
            r == self@.delivery_rate(source_rate),
    {
        match self.rate {
            Some(r) => r,
            None => source_rate,
        }
    }

    fn describe_level(&self) -> (r: String)
        ensures
            r@ == self@.level_step(),
    {
        let policy = limiter_policy_tag(
            self.on_clip,
            self.limiter_character,
            self.limiter_soft_clip,
            self.limiter_link_channels,
        );
        let ceiling = fixed(self.ceiling_dbtp, 1);
        match self.lufs {
            Some(lufs) => {
                let mut m = String::from_str("loudness -> ");
                m.append(fixed(lufs, 1).as_str());
                m.append(" LUFS (ceiling ");
                m.append(ceiling.as_str());
                m.append(" dBTP, ");
                m.append(policy.as_str());
                m.append(")");
                m
            },
            None => {
                let mut m = String::from_str("transcode (no loudness normalization); ceiling ");
                m.append(ceiling.as_str());
                m.append(" dBTP enforced (");
                m.append(policy.as_str());
                m.append(")");
                m
            },
        }
    }

    fn describe_rate(&self, source_rate: u32) -> (r: String)
        ensures
            r@ == self@.rate_step(source_rate),
    {
        let out_rate = self.out_rate(source_rate);
        if out_rate != source_rate {
            let mut m = String::from_str("resample ");
            m.append(text::number(source_rate as u64).as_str());
            m.append(" -> ");
            m.append(text::number(out_rate as u64).as_str());
            m.append(" Hz (");
            m.append(quality_tag(self.quality));
            m.append(")");
            m
        } else {
            let mut m = String::from_str("keep sample rate ");
            m.append(text::number(source_rate as u64).as_str());
            m.append(" Hz");
            m
        }
    }

    /// The derived chain in words, for a dry run.
    pub fn describe(&self, source_rate: u32) -> (r: Vec<String>)
        ensures
            views(r@) == self@.plan(source_rate),
    {
        let mut steps: Vec<String> = Vec::new();
        steps.push(self.describe_level());
        steps.push(self.describe_rate(source_rate));
        match self.codec {
            // No quantization or dither: the encoder works from the full-precision buffer.
            OutputCodec::Mp3 => {
                let mut m = String::from_str("encode MP3 ");
                m.append(text::number(self.mp3_bitrate as u64).as_str());
                m.append(" kbps (lossy; bit depth & dither not applicable)");
                steps.push(m);
            },
            codec => {
                if self.format == OutputSampleFormat::F32 {
                    steps.push(String::from_str("write f32 (no quantization)"));
                } else {
                    let mut m = String::from_str("quantize -> ");
                    m.append(format_tag(self.format));
                    m.append(" + ");
                    m.append(effective_dither_tag(self.dither, self.format).as_str());
                    steps.push(m);
                }
                let mut m = String::from_str("write ");
                if codec == OutputCodec::Flac {
                    m.append("FLAC");
                } else if self.bwf {
                    m.append("Broadcast WAV (bext + R128 metadata)");
                } else {
                    m.append("WAV");
                }
                steps.push(m);
            },
        }
        assert(views(steps@) =~= self@.plan(source_rate));
        steps
    }
}

/// Optional metadata of a configuration.
#[derive(Debug, Clone)]
pub struct MetaConfig {
    pub name: Option<String>,
}

/// A configuration: optional metadata, shared defaults, and named targets.
#[derive(Debug)]
pub struct Config {
    pub meta: Option<MetaConfig>,
    /// Applied to every target; any field can be overridden in the target.
    pub defaults: RawTarget,
    /// The named targets.
    pub targets: TargetTable,
}

/// The path text that stands for any input when targets are compared.
pub open spec fn probe_path() -> Seq<char> {
    "__render_probe__.wav"@
}

/// The output path of a target for the probe. A target that follows the source rate is
/// rendered with rate zero.
pub open spec fn probe_output(t: ResolvedTargetView) -> Option<Seq<char>> {
    t.output_path(probe_path(), t.delivery_rate(0))
}

/// The first of the targets before `j` that writes where `t` writes.
pub open spec fn earlier_owner(targets: Seq<ResolvedTargetView>, j: int, t: ResolvedTargetView) -> Option<
    int,
>
    decreases j,
{
    if j <= 0 {
        None
    } else {
        match earlier_owner(targets, j - 1, t) {
            Some(i) => Some(i),
            None => if same_path(probe_output(targets[j - 1])->0, probe_output(t)->0) {
                Some(j - 1)
            } else {
                None
            },
        }
    }
}

/// The refusal of two targets that write to the same path.
pub open spec fn collision_text(first: Seq<char>, second: Seq<char>) -> Seq<char> {
    "targets '"@ + first + "' and '"@ + second
        + "' resolve to the same output path; add {target} (or {rate}/{format}/{cext}) to naming, or give them different dirs"@
}

/// Why the first `n` targets cannot all be written, if they cannot.
pub open spec fn collision(targets: Seq<ResolvedTargetView>, n: int) -> Option<Seq<char>>
    decreases n,
{
    if n <= 0 {
        None
    } else {
        match collision(targets, n - 1) {
            Some(m) => Some(m),
            None => {
                let t = targets[n - 1];
                if probe_output(t) is None {
                    Some("input file has no valid stem"@)
                } else {
                    match earlier_owner(targets, n - 1, t) {
                        Some(i) => Some(collision_text(targets[i].name, t.name)),
                        None => None,
                    }
                }
            },
        }
    }
}

/// The models of resolved targets.
pub open spec fn target_views(targets: Seq<ResolvedTarget>) -> Seq<ResolvedTargetView> {
    Seq::new(targets.len(), |i: int| targets[i]@)
}

/// Refuse targets that would write to the same path. A probe stem stands for the input, so
/// two targets collide only when their directory and naming do not tell them apart.
pub fn check_collisions(targets: &Vec<ResolvedTarget>) -> (r: Result<(), Refusal>)
    ensures
        match r {
            Ok(_) => collision(target_views(targets@), targets@.len() as int) is None,
            Err(e) => collision(target_views(targets@), targets@.len() as int) == Some(e@),
        },
{
    let ghost all = target_views(targets@);
    let mut seen: Vec<String> = Vec::new();
    let mut j: usize = 0;
    while j < targets.len()
        invariant
            all == target_views(targets@),
            j <= targets@.len(),
            seen@.len() == j,
            collision(all, j as int) is None,
            forall|i: int|
                0 <= i < j ==> probe_output(#[trigger] all[i]) == Some((#[trigger] seen@[i])@),
        decreases targets.len() - j,
    {
        let target = &targets[j];
        let ghost t = all[j as int];
        assert(t == target@);
        let p = match target.render_output_path("__render_probe__.wav", target.out_rate(0)) {
            Err(e) => {
                proof {
                    lemma_collision_persists(all, j + 1, all.len() as int);
                }
                return Err(e);
            },
            Ok(p) => p,
        };
        let mut i: usize = 0;
        while i < j
            invariant
                all == target_views(targets@),
                i <= j < targets@.len(),
                seen@.len() == j,
                t == all[j as int],
                t == target@,
                *target == targets@[j as int],
                probe_output(t) == Some(p@),
                collision(all, j as int) is None,
                earlier_owner(all, i as int, t) is None,
                forall|k: int|
                    0 <= k < j ==> probe_output(#[trigger] all[k]) == Some((#[trigger] seen@[k])@),
            decreases j - i,
        {
            assert(probe_output(all[i as int]) == Some(seen@[i as int]@));
            if path::same(seen[i].as_str(), p.as_str()) {
                proof {
                    lemma_owner_persists(all, i + 1, j as int, t);
                    lemma_collision_persists(all, j + 1, all.len() as int);
                }
                let mut m = String::from_str("targets '");
                m.append(targets[i].name.as_str());
                m.append("' and '");
                m.append(target.name.as_str());
                m.append(
                    "' resolve to the same output path; add {target} (or {rate}/{format}/{cext}) to naming, or give them different dirs",
                );
                return Err(Refusal::new(m));
            }
            i = i + 1;
        }
        seen.push(p);
        j = j + 1;
    }
    Ok(())
}

proof fn lemma_owner_persists(targets: Seq<ResolvedTargetView>, i: int, j: int, t: ResolvedTargetView)
    requires
        0 < i <= j,
        earlier_owner(targets, i, t) is Some,
    ensures
        earlier_owner(targets, j, t) == earlier_owner(targets, i, t),
    decreases j,
{
    if i < j {
        lemma_owner_persists(targets, i, j - 1, t);
    }
}

proof fn lemma_collision_persists(targets: Seq<ResolvedTargetView>, i: int, j: int)
    requires
        0 < i <= j,
        collision(targets, i) is Some,
    ensures
        collision(targets, j) == collision(targets, i),
    decreases j,
{
    if i < j {
        lemma_collision_persists(targets, i, j - 1);
    }
}

/// Merge the layers of a target: built-in fallbacks, defaults, preset, explicit fields.
fn layer(defaults: &RawTarget, raw: RawTarget) -> (r: Result<RawTarget, Refusal>)
    ensures
        ({
            let preset = preset_in_use(defaults@, raw@);
            match r {
                Ok(m) => m@ == layered(defaults@, raw@) && (preset is Some ==> preset_view(
                    preset->0,
                ) is Some),
                Err(e) => preset is Some && preset_view(preset->0) is None && e@ == unknown_preset(
                    preset->0,
                ),
            }
        }),
{
    let mut merged = overlay(builtin_fallback(), defaults.duplicate());
    if let Some(p) = first_set(copy_text(&raw.preset), copy_text(&defaults.preset)) {
        match preset(p.as_str()) {
            Err(e) => {
                return Err(e);
            },
            Ok(seed) => {
                merged = overlay(merged, seed);
            },
        }
    }
    Ok(overlay(merged, raw))
}

/// Fill in a target from merged fields. The fallbacks set every field that is needed.
fn materialize(name: &str, merged: RawTarget, format: OutputSampleFormat) -> (r: ResolvedTarget)
    requires
        exists|defaults: RawTargetView, raw: RawTargetView| merged@ == #[trigger] layered(defaults, raw),
    ensures
        r@ == materialized(name@, merged@, format),
{
    ResolvedTarget {
        name: String::from_str(name),
        rate: merged.rate,
        format,
        lufs: merged.lufs,
        ceiling_dbtp: merged.ceiling_dbtp.unwrap(),
        on_clip: merged.on_clip.unwrap(),
        limiter_character: merged.limiter_character.unwrap(),
        limiter_soft_clip: merged.limiter_soft_clip.unwrap(),
        limiter_link_channels: merged.limiter_link_channels.unwrap(),
        warn_limiting_db: merged.warn_limiting_db.unwrap(),
        quality: merged.quality.unwrap(),
        dither: merged.dither.unwrap(),
        dither_strength: merged.dither_strength.unwrap(),
        dither_correlation: merged.dither_correlation.unwrap(),
        codec: merged.codec.unwrap(),
        bwf: merged.bwf.unwrap(),
        mp3_bitrate: merged.mp3_bitrate.unwrap(),
        dir: merged.dir.unwrap(),
        naming: merged.naming.unwrap(),
        overwrite: merged.overwrite.unwrap(),
    }
}

impl Config {
    /// The target called `name`, or why it is refused.
    pub open spec fn resolved(self, name: Seq<char>) -> Result<ResolvedTargetView, Seq<char>> {
        if !self.targets.has(name) {
            Err("no such target: '"@ + name + "'"@)
        } else {
            resolution(self.defaults@, name, self.targets.at(name))
        }
    }

    /// The first `n` targets of `names`, or the first refusal among them.
    pub open spec fn resolved_all(self, names: Seq<Seq<char>>, n: int) -> Result<
        Seq<ResolvedTargetView>,
        Seq<char>,
    >
        decreases n,
    {
        if n <= 0 {
            Ok(Seq::empty())
        } else {
            match self.resolved_all(names, n - 1) {
                Err(m) => Err(m),
                Ok(done) => match self.resolved(names[n - 1]) {
                    Err(m) => Err(m),
                    Ok(t) => Ok(done.push(t)),
                },
            }
        }
    }

    /// Why the configuration is refused, if it is.
    pub open spec fn refusal(self) -> Option<Seq<char>> {
        let names = self.targets.names();
        if names.len() == 0 {
            Some("config must define at least one [target.NAME] entry"@)
        } else {
            match self.resolved_all(names, names.len() as int) {
                Err(m) => Some(m),
                Ok(all) => collision(all, all.len() as int),
            }
        }
    }

    /// Sorted list of all target names.
    pub fn target_names(&self) -> (r: Vec<String>)
        ensures
            views(r@) == self.targets.names(),
            strictly_sorted(views(r@)),
    {
        self.targets.name_list()
    }

    /// Resolve a single target by name.
    pub fn resolve_target(&self, name: &str) -> (r: Result<ResolvedTarget, Refusal>)
        ensures
            match r {
                Ok(t) => self.resolved(name@) == Ok::<ResolvedTargetView, Seq<char>>(t@),
                Err(e) => self.resolved(name@) == Err::<ResolvedTargetView, Seq<char>>(e@),
            },
    {
        let raw = match self.targets.get(name) {
            None => {
                let mut m = String::from_str("no such target: '");
                m.append(name);
                m.append("'");
                return Err(Refusal::new(m));
            },
            Some(raw) => raw.duplicate(),
        };
        let merged = match layer(&self.defaults, raw) {
            Err(e) => {
                return Err(e);
            },
            Ok(merged) => merged,
        };
        let codec = merged.codec.unwrap();
        // MP3 ignores the bit depth, so there a missing format is allowed.
        let format: OutputSampleFormat = match merged.format {
            Some(f) => OutputSampleFormat::from(f),
            None => {
                if codec != OutputCodec::Mp3 {
                    return Err(
                        refuse(name, "'format' is required (set it directly or via a preset)"),
                    );
                }
                OutputSampleFormat::S16
            },
        };
        let resolved = materialize(name, merged, format);
        match resolved.validate_fields() {
            Ok(_) => Ok(resolved),
            Err(e) => Err(e),
        }
    }

    /// Resolve the targets called `names`, in that order; the first refusal ends it.
    pub fn resolve_all(&self, names: &Vec<String>) -> (r: Result<Vec<ResolvedTarget>, Refusal>)
        ensures
            match r {
                Ok(all) => self.resolved_all(views(names@), names@.len() as int) == Ok::<
                    Seq<ResolvedTargetView>,
                    Seq<char>,
                >(target_views(all@)),
                Err(e) => self.resolved_all(views(names@), names@.len() as int) == Err::<
                    Seq<ResolvedTargetView>,
                    Seq<char>,
                >(e@),
            },
    {
        let mut all: Vec<ResolvedTarget> = Vec::new();
        let mut i: usize = 0;
        let ghost wanted = views(names@);
        assert(target_views(all@) =~= Seq::<ResolvedTargetView>::empty());
        while i < names.len()
            invariant
                wanted == views(names@),
                i <= names@.len(),
                self.resolved_all(wanted, i as int) == Ok::<Seq<ResolvedTargetView>, Seq<char>>(
                    target_views(all@),
                ),
            decreases names.len() - i,
        {
            let ghost before = target_views(all@);
            match self.resolve_target(names[i].as_str()) {
                Err(e) => {
                    proof {
                        self.lemma_refusal_persists(wanted, i + 1, wanted.len() as int);
                    }
                    return Err(e);
                },
                Ok(t) => {
                    all.push(t);
                    assert(target_views(all@) =~= before.push(t@));
                },
            }
            i = i + 1;
        }
        Ok(all)
    }

    proof fn lemma_refusal_persists(self, names: Seq<Seq<char>>, i: int, j: int)
        requires
            0 < i <= j,
            self.resolved_all(names, i) is Err,
        ensures
            self.resolved_all(names, j) == self.resolved_all(names, i),
        decreases j,
    {
        if i < j {
            self.lemma_refusal_persists(names, i, j - 1);
        }
    }

    /// Resolve every target and refuse configurations that cannot produce valid output.
    pub fn validate(&self) -> (r: Result<(), Refusal>)
        ensures
            match r {
                Ok(_) => self.refusal() is None,
                Err(e) => self.refusal() == Some(e@),
            },
    {
        if self.targets.is_empty() {
            return Err(Refusal::of("config must define at least one [target.NAME] entry"));
        }
        let names = self.target_names();
        assert(views(names@).len() == names@.len());
        match self.resolve_all(&names) {
            Err(e) => Err(e),
            Ok(all) => check_collisions(&all),
        }
    }
}

// ---------------------------------------------------------------------------
// Laws.
// ---------------------------------------------------------------------------

/// The first of four layers that sets a field.
pub open spec fn choice<T>(
    explicit: Option<T>,
    preset: Option<T>,
    defaults: Option<T>,
    builtin: Option<T>,
) -> Option<T> {
    prefer(explicit, prefer(preset, prefer(defaults, builtin)))
}

/// Precedence: every field of a resolved target is the explicit one if the target sets it,
/// else the preset's, else the default's, else the built-in one. The preset itself is a field
/// like the others: one that the defaults name serves every target that names none. A missing
/// format is only possible for MP3, where it stands for s16.
pub proof fn law_precedence(defaults: RawTargetView, name: Seq<char>, raw: RawTargetView)
    ensures
        resolution(defaults, name, raw) matches Ok(t) ==> {
            let seed = match preset_in_use(defaults, raw) {
                Some(p) => preset_view(p)->0,
                None => blank_target(),
            };
            let format = choice(raw.format, seed.format, defaults.format, None);
            &&& t.name == name
            &&& t.rate == choice(raw.rate, seed.rate, defaults.rate, None)
            &&& t.lufs == choice(raw.lufs, seed.lufs, defaults.lufs, None)
            &&& match format {
                Some(f) => t.format == f.sample_format(),
                None => t.codec == OutputCodec::Mp3 && t.format == OutputSampleFormat::S16,
            }
            &&& t.ceiling_dbtp == choice(raw.ceiling_dbtp, seed.ceiling_dbtp, defaults.ceiling_dbtp, fallback().ceiling_dbtp)->0
            &&& t.on_clip == choice(raw.on_clip, seed.on_clip, defaults.on_clip, fallback().on_clip)->0
            &&& t.limiter_character == choice(raw.limiter_character, seed.limiter_character, defaults.limiter_character, fallback().limiter_character)->0
            &&& t.limiter_soft_clip == choice(raw.limiter_soft_clip, seed.limiter_soft_clip, defaults.limiter_soft_clip, fallback().limiter_soft_clip)->0
            &&& t.limiter_link_channels == choice(raw.limiter_link_channels, seed.limiter_link_channels, defaults.limiter_link_channels, fallback().limiter_link_channels)->0
            &&& t.warn_limiting_db == choice(raw.warn_limiting_db, seed.warn_limiting_db, defaults.warn_limiting_db, fallback().warn_limiting_db)->0
            &&& t.quality == choice(raw.quality, seed.quality, defaults.quality, fallback().quality)->0
            &&& t.dither == choice(raw.dither, seed.dither, defaults.dither, fallback().dither)->0
            &&& t.dither_strength == choice(raw.dither_strength, seed.dither_strength, defaults.dither_strength, fallback().dither_strength)->0
            &&& t.dither_correlation == choice(raw.dither_correlation, seed.dither_correlation, defaults.dither_correlation, fallback().dither_correlation)->0
            &&& t.codec == choice(raw.codec, seed.codec, defaults.codec, fallback().codec)->0
            &&& t.bwf == choice(raw.bwf, seed.bwf, defaults.bwf, fallback().bwf)->0
            &&& t.mp3_bitrate == choice(raw.mp3_bitrate, seed.mp3_bitrate, defaults.mp3_bitrate, fallback().mp3_bitrate)->0
            &&& t.dir == choice(raw.dir, seed.dir, defaults.dir, fallback().dir)->0
            &&& t.naming == choice(raw.naming, seed.naming, defaults.naming, fallback().naming)->0
            &&& t.overwrite == choice(raw.overwrite, seed.overwrite, defaults.overwrite, fallback().overwrite)->0
        },
{
}

/// A preset sets the four deliverable fields (of which the loudness goal may be left open)
/// and no other.
pub proof fn law_preset_sets_only_the_deliverable(name: Seq<char>)
    ensures
        preset_view(name) matches Some(p) ==> p.rate is Some && p.format is Some && p.ceiling_dbtp is Some
            && p == deliverable(p.rate->0, p.format->0, p.lufs, p.ceiling_dbtp->0),
{
}

/// Every preset is a valid target as it stands.
pub proof fn law_presets_are_valid_targets(name: Seq<char>, preset: Seq<char>)
    requires
        preset_view(preset) is Some,
    ensures
        resolution(
            blank_target(),
            name,
            (RawTargetView { preset: Some(preset), ..blank_target() }),
        ) is Ok,
{
    reveal_strlit("{target}/{stem}.{cext}");
    reveal_strlit("{stem}");
    let naming = "{target}/{stem}.{cext}"@;
    assert(naming.subrange(9, 15) =~= "{stem}"@);
    assert(occurs_at(naming, "{stem}"@, 9));
}

/// A target that resolves can be delivered: its rate is not zero, its loudness goal is
/// finite, its ceiling is not above full scale, its warning threshold is finite and not
/// negative, FLAC carries an integer format, only WAV carries a `bext` chunk, an MP3 has a
/// bitrate of the table, and outputs of different inputs can be told apart.
pub proof fn law_resolved_targets_can_be_delivered(
    defaults: RawTargetView,
    name: Seq<char>,
    raw: RawTargetView,
)
    ensures
        resolution(defaults, name, raw) matches Ok(t) ==> {
            let zero = Level { bits: 0 };
            &&& t.rate != Some(0u32)
            &&& t.lufs matches Some(l) ==> l.finite()
            &&& !zero.below(t.ceiling_dbtp)
            &&& t.warn_limiting_db.finite() && zero.at_most(t.warn_limiting_db)
            &&& t.codec == OutputCodec::Flac ==> t.format.grid_max() is Some
            &&& t.bwf ==> t.codec == OutputCodec::Wav
            &&& t.codec == OutputCodec::Mp3 ==> mp3_bitrates().contains(t.mp3_bitrate)
            &&& has_text(t.naming, "{stem}"@)
        },
{
}

/// Of targets that all resolve, each is the one of its name.
pub proof fn lemma_resolved_each(c: Config, names: Seq<Seq<char>>, n: int, k: int)
    requires
        0 <= k < n,
        c.resolved_all(names, n) is Ok,
    ensures
        c.resolved_all(names, n)->Ok_0.len() == n,
        c.resolved(names[k]) == Ok::<ResolvedTargetView, Seq<char>>(
            c.resolved_all(names, n)->Ok_0[k],
        ),
    decreases n,
{
    reveal_with_fuel(Config::resolved_all, 2);
    if n > 1 {
        if k < n - 1 {
            lemma_resolved_each(c, names, n - 1, k);
        } else {
            lemma_resolved_each(c, names, n - 1, 0);
        }
    }
}

proof fn lemma_no_owner(targets: Seq<ResolvedTargetView>, j: int, t: ResolvedTargetView, i: int)
    requires
        0 <= i < j,
        earlier_owner(targets, j, t) is None,
    ensures
        !same_path(probe_output(targets[i])->0, probe_output(t)->0),
    decreases j,
{
    if i < j - 1 {
        lemma_no_owner(targets, j - 1, t, i);
    }
}

proof fn lemma_no_collision(targets: Seq<ResolvedTargetView>, n: int, i: int, j: int)
    requires
        0 <= i < j < n,
        collision(targets, n) is None,
    ensures
        probe_output(targets[j]) is Some,
        !same_path(probe_output(targets[i])->0, probe_output(targets[j])->0),
    decreases n,
{
    if j < n - 1 {
        lemma_no_collision(targets, n - 1, i, j);
    } else {
        lemma_no_owner(targets, j, targets[j], i);
    }
}

/// A configuration that is accepted has a target, all its targets resolve, and no two of
/// them write the probe to the same path.
pub proof fn law_accepted_targets_write_apart(c: Config)
    requires
        c.refusal() is None,
    ensures
        c.targets.names().len() > 0,
        forall|i: int|
            0 <= i < c.targets.names().len() ==> c.resolved(#[trigger] c.targets.names()[i]) is Ok,
        forall|i: int, j: int|
            0 <= i < j < c.targets.names().len() ==> !same_path(
                probe_output(c.resolved(#[trigger] c.targets.names()[i])->Ok_0)->0,
                probe_output(c.resolved(#[trigger] c.targets.names()[j])->Ok_0)->0,
            ),
{
    let names = c.targets.names();
    let n = names.len() as int;
    assert forall|i: int| 0 <= i < n implies c.resolved(#[trigger] names[i]) is Ok by {
        lemma_resolved_each(c, names, n, i);
    }
    assert forall|i: int, j: int| 0 <= i < j < n implies !same_path(
        probe_output(c.resolved(#[trigger] names[i])->Ok_0)->0,
        probe_output(c.resolved(#[trigger] names[j])->Ok_0)->0,
    ) by {
        lemma_resolved_each(c, names, n, i);
        lemma_resolved_each(c, names, n, j);
        lemma_no_collision(c.resolved_all(names, n)->Ok_0, n, i, j);
    }
}

/// The dry run announces a resampling step exactly when the delivery rate differs from the
/// source rate, and quantization exactly for the integer formats of WAV and FLAC.
pub proof fn law_plan_has_only_the_needed_steps(t: ResolvedTargetView, source_rate: u32)
    ensures
        t.plan(source_rate).len() == if t.codec == OutputCodec::Mp3 {
            3int
        } else {
            4int
        },
        starts_with(t.plan(source_rate)[1], "resample "@) <==> t.delivery_rate(source_rate)
            != source_rate,
        starts_with(t.plan(source_rate)[2], "quantize -> "@) <==> t.codec != OutputCodec::Mp3
            && t.format.grid_max() is Some,
{
    reveal_strlit("resample ");
    reveal_strlit("keep sample rate ");
    reveal_strlit("quantize -> ");
    reveal_strlit("encode MP3 ");
    reveal_strlit("write f32 (no quantization)");
    let second = t.plan(source_rate)[1];
    let third = t.plan(source_rate)[2];
    if t.delivery_rate(source_rate) != source_rate {
        assert(second.take(9) =~= "resample "@);
    } else {
        assert(second[0] == 'k' && second.take(9)[0] == 'k');
        assert("resample "@[0] == 'r');
    }
    assert("quantize -> "@[0] == 'q');
    if t.codec == OutputCodec::Mp3 {
        assert(third[0] == 'e');
        assert(third.take(12)[0] == third[0] || third.len() < 12);
    } else if t.format == OutputSampleFormat::F32 {
        assert(third[0] == 'w' && third.take(12)[0] == 'w');
    } else {
        assert(third.take(12) =~= "quantize -> "@);
    }
}

/// The shaped modes are flat TPDF above s16, and the dry run says so.
pub proof fn law_shaping_is_s16_only(dither: DitherMode, format: OutputSampleFormat)
    requires
        format != OutputSampleFormat::S16,
    ensures
        !dither.shapes_at(format),
        dither.curve() is Some ==> effective_dither_text(dither, format)
            == "tpdf dither (shaping skipped: s16 only)"@,
{
}

/// A whole number of decibels.
pub open spec fn is_whole(l: Level, n: int) -> bool {
    l.finite() && l.units() == n * pow2(1074)
}

/// A number of tenths of a decibel, to within a part in `2^50`.
pub open spec fn is_tenths(l: Level, n: int) -> bool {
    l.finite() && n * pow2(1074) - pow2(1024) <= 10 * l.units() <= n * pow2(1074) + pow2(1024)
}

/// What the figures of the presets are worth.
proof fn lemma_figures()
    ensures
        is_whole(Level { bits: MINUS_1 }, -1),
        is_whole(Level { bits: PLUS_1 }, 1),
        is_whole(Level { bits: MINUS_14 }, -14),
        is_whole(Level { bits: MINUS_16 }, -16),
        is_whole(Level { bits: MINUS_23 }, -23),
        is_tenths(Level { bits: MINUS_1 }, -10),
        is_tenths(Level { bits: MINUS_2 }, -20),
        is_tenths(Level { bits: MINUS_TENTH }, -1),
{
    lemma2_to64();
    lemma2_to64_rest();
    lemma_pow2_pos(1018);
    lemma_pow2_pos(1024);
    let one = Level { bits: MINUS_1 };
    assert(one.significand() == 0x10_0000_0000_0000 && one.exponent() == 1022);
    let plus = Level { bits: PLUS_1 };
    assert(plus.significand() == 0x10_0000_0000_0000 && plus.exponent() == 1022);
    lemma_pow2_adds(52, 1022);
    let two = Level { bits: MINUS_2 };
    assert(two.significand() == 2 * 0x8_0000_0000_0000 && two.exponent() == 1023);
    lemma_pow2_adds(51, 1023);
    let a = Level { bits: MINUS_14 };
    assert(a.significand() == 14 * 0x2_0000_0000_0000 && a.exponent() == 1025);
    lemma_pow2_adds(49, 1025);
    let b = Level { bits: MINUS_16 };
    assert(b.significand() == 16 * 0x1_0000_0000_0000 && b.exponent() == 1026);
    let c = Level { bits: MINUS_23 };
    assert(c.significand() == 23 * 0x1_0000_0000_0000 && c.exponent() == 1026);
    lemma_pow2_adds(48, 1026);
    let tenth = Level { bits: MINUS_TENTH };
    assert(tenth.significand() == 0x19_9999_9999_999A && tenth.exponent() == 1018);
    lemma_pow2_adds(56, 1018);
    lemma_pow2_adds(6, 1018);
    let p = pow2(1018) as int;
    assert(10 * (0x19_9999_9999_999A * p) == 0x100_0000_0000_0004 * p) by (nonlinear_arith);
    assert(0x100_0000_0000_0000 * p <= 0x100_0000_0000_0004 * p <= 0x100_0000_0000_0000 * p + 64 * p)
        by (nonlinear_arith)
        requires
            p > 0,
    ;
    let p2 = pow2(1023) as int;
    assert((2 * 0x8_0000_0000_0000) * p2 == 2 * (0x8_0000_0000_0000 * p2)) by (nonlinear_arith);
    let p14 = pow2(1025) as int;
    assert((14 * 0x2_0000_0000_0000) * p14 == 14 * (0x2_0000_0000_0000 * p14)) by (nonlinear_arith);
    let p16 = pow2(1026) as int;
    assert((16 * 0x1_0000_0000_0000) * p16 == 16 * (0x1_0000_0000_0000 * p16)) by (nonlinear_arith);
    assert((23 * 0x1_0000_0000_0000) * p16 == 23 * (0x1_0000_0000_0000 * p16)) by (nonlinear_arith);
}

/// The names of the presets differ from each other.
#[verifier::spinoff_prover]
#[verifier::rlimit(30)]
proof fn lemma_preset_names()
    ensures
        "spotify"@ != "apple-music"@,
        "spotify"@ != "youtube"@,
        "spotify"@ != "tidal"@,
        "spotify"@ != "amazon-music"@,
        "spotify"@ != "soundcloud"@,
        "spotify"@ != "cd"@,
        "spotify"@ != "broadcast-ebu-r128"@,
        "spotify"@ != "48k"@,
        "spotify"@ != "hires"@,
        "apple-music"@ != "youtube"@,
        "apple-music"@ != "tidal"@,
        "apple-music"@ != "amazon-music"@,
        "apple-music"@ != "soundcloud"@,
        "apple-music"@ != "cd"@,
        "apple-music"@ != "broadcast-ebu-r128"@,
        "apple-music"@ != "48k"@,
        "apple-music"@ != "hires"@,
        "youtube"@ != "tidal"@,
        "youtube"@ != "amazon-music"@,
        "youtube"@ != "soundcloud"@,
        "youtube"@ != "cd"@,
        "youtube"@ != "broadcast-ebu-r128"@,
        "youtube"@ != "48k"@,
        "youtube"@ != "hires"@,
        "tidal"@ != "amazon-music"@,
        "tidal"@ != "soundcloud"@,
        "tidal"@ != "cd"@,
        "tidal"@ != "broadcast-ebu-r128"@,
        "tidal"@ != "48k"@,
        "tidal"@ != "hires"@,
        "amazon-music"@ != "soundcloud"@,
        "amazon-music"@ != "cd"@,
        "amazon-music"@ != "broadcast-ebu-r128"@,
        "amazon-music"@ != "48k"@,
        "amazon-music"@ != "hires"@,
        "soundcloud"@ != "cd"@,
        "soundcloud"@ != "broadcast-ebu-r128"@,
        "soundcloud"@ != "48k"@,
        "soundcloud"@ != "hires"@,
        "cd"@ != "broadcast-ebu-r128"@,
        "cd"@ != "48k"@,
        "cd"@ != "hires"@,
        "broadcast-ebu-r128"@ != "48k"@,
        "broadcast-ebu-r128"@ != "hires"@,
        "48k"@ != "hires"@,
{
    reveal_strlit("spotify");
    reveal_strlit("apple-music");
    reveal_strlit("youtube");
    reveal_strlit("tidal");
    reveal_strlit("amazon-music");
    reveal_strlit("soundcloud");
    reveal_strlit("cd");
    reveal_strlit("broadcast-ebu-r128");
    reveal_strlit("48k");
    reveal_strlit("hires");
    assert("spotify"@.len() != "apple-music"@.len());
    assert("spotify"@[0] != "youtube"@[0]);
    assert("spotify"@.len() != "tidal"@.len());
    assert("spotify"@.len() != "amazon-music"@.len());
    assert("spotify"@.len() != "soundcloud"@.len());
    assert("spotify"@.len() != "cd"@.len());
    assert("spotify"@.len() != "broadcast-ebu-r128"@.len());
    assert("spotify"@.len() != "48k"@.len());
    assert("spotify"@.len() != "hires"@.len());
    assert("apple-music"@.len() != "youtube"@.len());
    assert("apple-music"@.len() != "tidal"@.len());
    assert("apple-music"@.len() != "amazon-music"@.len());
    assert("apple-music"@.len() != "soundcloud"@.len());
    assert("apple-music"@.len() != "cd"@.len());
    assert("apple-music"@.len() != "broadcast-ebu-r128"@.len());
    assert("apple-music"@.len() != "48k"@.len());
    assert("apple-music"@.len() != "hires"@.len());
    assert("youtube"@.len() != "tidal"@.len());
    assert("youtube"@.len() != "amazon-music"@.len());
    assert("youtube"@.len() != "soundcloud"@.len());
    assert("youtube"@.len() != "cd"@.len());
    assert("youtube"@.len() != "broadcast-ebu-r128"@.len());
    assert("youtube"@.len() != "48k"@.len());
    assert("youtube"@.len() != "hires"@.len());
    assert("tidal"@.len() != "amazon-music"@.len());
    assert("tidal"@.len() != "soundcloud"@.len());
    assert("tidal"@.len() != "cd"@.len());
    assert("tidal"@.len() != "broadcast-ebu-r128"@.len());
    assert("tidal"@.len() != "48k"@.len());
    assert("tidal"@[0] != "hires"@[0]);
    assert("amazon-music"@.len() != "soundcloud"@.len());
    assert("amazon-music"@.len() != "cd"@.len());
    assert("amazon-music"@.len() != "broadcast-ebu-r128"@.len());
    assert("amazon-music"@.len() != "48k"@.len());
    assert("amazon-music"@.len() != "hires"@.len());
    assert("soundcloud"@.len() != "cd"@.len());
    assert("soundcloud"@.len() != "broadcast-ebu-r128"@.len());
    assert("soundcloud"@.len() != "48k"@.len());
    assert("soundcloud"@.len() != "hires"@.len());
    assert("cd"@.len() != "broadcast-ebu-r128"@.len());
    assert("cd"@.len() != "48k"@.len());
    assert("cd"@.len() != "hires"@.len());
    assert("broadcast-ebu-r128"@.len() != "48k"@.len());
    assert("broadcast-ebu-r128"@.len() != "hires"@.len());
    assert("48k"@.len() != "hires"@.len());
}

/// A target that names a preset and leaves fields open is delivered with these figures: the
/// loudness goal in LUFS, where the preset has one, and the ceiling in tenths of a dBTP.
pub open spec fn delivers(
    t: ResolvedTargetView,
    defaults: RawTargetView,
    raw: RawTargetView,
    rate: u32,
    format: OutputSampleFormat,
    lufs: Option<int>,
    ceiling: int,
) -> bool {
    &&& raw.rate is None ==> t.rate == Some(rate)
    &&& raw.format is None ==> t.format == format
    &&& raw.lufs is None ==> match lufs {
        Some(n) => t.lufs matches Some(l) && is_whole(l, n),
        None => t.lufs == defaults.lufs,
    }
    &&& raw.ceiling_dbtp is None ==> is_tenths(t.ceiling_dbtp, ceiling)
}

/// The presets hold the published figures: whatever the defaults say, the fields that a target
/// leaves open to its preset are delivered as published. A name that is not one of the ten is
/// refused, and a target that names one of them needs nothing else.
pub proof fn law_presets_hold_the_published_figures(
    defaults: RawTargetView,
    name: Seq<char>,
    raw: RawTargetView,
    preset: Seq<char>,
)
    requires
        raw.preset == Some(preset) || (raw.preset is None && defaults.preset == Some(preset)),
    ensures
        resolution(defaults, name, raw) matches Ok(t) ==> {
            let s16 = OutputSampleFormat::S16;
            let s24 = OutputSampleFormat::S24;
            &&& preset == "spotify"@ ==> delivers(t, defaults, raw, 44_100, s16, Some(-14int), -10)
            &&& preset == "apple-music"@ ==> delivers(t, defaults, raw, 44_100, s16, Some(-16int), -10)
            &&& preset == "youtube"@ ==> delivers(t, defaults, raw, 48_000, s16, Some(-14int), -10)
            &&& preset == "tidal"@ ==> delivers(t, defaults, raw, 44_100, s16, Some(-14int), -10)
            &&& preset == "amazon-music"@ ==> delivers(t, defaults, raw, 44_100, s16, Some(-14int), -20)
            &&& preset == "soundcloud"@ ==> delivers(t, defaults, raw, 44_100, s16, Some(-14int), -10)
            &&& preset == "cd"@ ==> delivers(t, defaults, raw, 44_100, s16, None, -1)
            &&& preset == "broadcast-ebu-r128"@ ==> delivers(t, defaults, raw, 48_000, s24, Some(-23int), -10)
            &&& preset == "48k"@ ==> delivers(t, defaults, raw, 48_000, s16, Some(-16int), -10)
            &&& preset == "hires"@ ==> delivers(t, defaults, raw, 96_000, s24, Some(-16int), -1)
            &&& preset == "spotify"@
                || preset == "apple-music"@
                || preset == "youtube"@
                || preset == "tidal"@
                || preset == "amazon-music"@
                || preset == "soundcloud"@
                || preset == "cd"@
                || preset == "broadcast-ebu-r128"@
                || preset == "48k"@
                || preset == "hires"@
        },
        (preset == "spotify"@
            || preset == "apple-music"@
            || preset == "youtube"@
            || preset == "tidal"@
            || preset == "amazon-music"@
            || preset == "soundcloud"@
            || preset == "cd"@
            || preset == "broadcast-ebu-r128"@
            || preset == "48k"@
            || preset == "hires"@) && raw == (RawTargetView {
            preset: Some(preset),
            ..blank_target()
        }) && defaults == blank_target() ==> resolution(defaults, name, raw) is Ok,
{
    lemma_figures();
    lemma_preset_names();
    if preset_view(preset) is Some {
        law_presets_are_valid_targets(name, preset);
    }
}

/// A field that a target sets is delivered as the target sets it.
pub proof fn law_explicit_fields_win(defaults: RawTargetView, name: Seq<char>, raw: RawTargetView)
    ensures
        resolution(defaults, name, raw) matches Ok(t) ==> {
            &&& t.name == name
            &&& raw.rate is Some ==> t.rate == raw.rate
            &&& raw.lufs is Some ==> t.lufs == raw.lufs
            &&& raw.format == Some(BitDepthFormat::S16) ==> t.format == OutputSampleFormat::S16
            &&& raw.format == Some(BitDepthFormat::S24) ==> t.format == OutputSampleFormat::S24
            &&& raw.format == Some(BitDepthFormat::F32) ==> t.format == OutputSampleFormat::F32
            &&& raw.ceiling_dbtp is Some ==> raw.ceiling_dbtp == Some(t.ceiling_dbtp)
            &&& raw.on_clip is Some ==> raw.on_clip == Some(t.on_clip)
            &&& raw.limiter_character is Some ==> raw.limiter_character == Some(t.limiter_character)
            &&& raw.limiter_soft_clip is Some ==> raw.limiter_soft_clip == Some(t.limiter_soft_clip)
            &&& raw.limiter_link_channels is Some ==> raw.limiter_link_channels == Some(t.limiter_link_channels)
            &&& raw.warn_limiting_db is Some ==> raw.warn_limiting_db == Some(t.warn_limiting_db)
            &&& raw.quality is Some ==> raw.quality == Some(t.quality)
            &&& raw.dither is Some ==> raw.dither == Some(t.dither)
            &&& raw.dither_strength is Some ==> raw.dither_strength == Some(t.dither_strength)
            &&& raw.dither_correlation is Some ==> raw.dither_correlation == Some(t.dither_correlation)
            &&& raw.codec is Some ==> raw.codec == Some(t.codec)
            &&& raw.bwf is Some ==> raw.bwf == Some(t.bwf)
            &&& raw.mp3_bitrate is Some ==> raw.mp3_bitrate == Some(t.mp3_bitrate)
            &&& raw.dir is Some ==> raw.dir == Some(t.dir)
            &&& raw.naming is Some ==> raw.naming == Some(t.naming)
            &&& raw.overwrite is Some ==> raw.overwrite == Some(t.overwrite)
        },
{
}

/// A field that neither the target nor its preset sets is delivered as the defaults set it.
/// Presets set the rate, the format, the ceiling and mostly the loudness goal, and nothing else.
pub proof fn law_defaults_fill_in(defaults: RawTargetView, name: Seq<char>, raw: RawTargetView)
    ensures
        resolution(defaults, name, raw) matches Ok(t) ==> {
            let unseeded = raw.preset is None && defaults.preset is None;
            &&& unseeded && raw.rate is None ==> t.rate == defaults.rate
            &&& unseeded && raw.lufs is None ==> t.lufs == defaults.lufs
            &&& unseeded && raw.format is None && defaults.format == Some(BitDepthFormat::S16)
                ==> t.format == OutputSampleFormat::S16
            &&& unseeded && raw.format is None && defaults.format == Some(BitDepthFormat::S24)
                ==> t.format == OutputSampleFormat::S24
            &&& unseeded && raw.format is None && defaults.format == Some(BitDepthFormat::F32)
                ==> t.format == OutputSampleFormat::F32
            &&& unseeded && raw.format is None && defaults.format is None ==> t.codec
                == OutputCodec::Mp3 && t.format == OutputSampleFormat::S16
            &&& unseeded && raw.ceiling_dbtp is None && defaults.ceiling_dbtp is Some
                ==> defaults.ceiling_dbtp == Some(t.ceiling_dbtp)
            &&& raw.on_clip is None && defaults.on_clip is Some ==> defaults.on_clip == Some(t.on_clip)
            &&& raw.limiter_character is None && defaults.limiter_character is Some ==> defaults.limiter_character == Some(t.limiter_character)
            &&& raw.limiter_soft_clip is None && defaults.limiter_soft_clip is Some ==> defaults.limiter_soft_clip == Some(t.limiter_soft_clip)
            &&& raw.limiter_link_channels is None && defaults.limiter_link_channels is Some ==> defaults.limiter_link_channels == Some(t.limiter_link_channels)
            &&& raw.warn_limiting_db is None && defaults.warn_limiting_db is Some ==> defaults.warn_limiting_db == Some(t.warn_limiting_db)
            &&& raw.quality is None && defaults.quality is Some ==> defaults.quality == Some(t.quality)
            &&& raw.dither is None && defaults.dither is Some ==> defaults.dither == Some(t.dither)
            &&& raw.dither_strength is None && defaults.dither_strength is Some ==> defaults.dither_strength == Some(t.dither_strength)
            &&& raw.dither_correlation is None && defaults.dither_correlation is Some ==> defaults.dither_correlation == Some(t.dither_correlation)
            &&& raw.codec is None && defaults.codec is Some ==> defaults.codec == Some(t.codec)
            &&& raw.bwf is None && defaults.bwf is Some ==> defaults.bwf == Some(t.bwf)
            &&& raw.mp3_bitrate is None && defaults.mp3_bitrate is Some ==> defaults.mp3_bitrate == Some(t.mp3_bitrate)
            &&& raw.dir is None && defaults.dir is Some ==> defaults.dir == Some(t.dir)
            &&& raw.naming is None && defaults.naming is Some ==> defaults.naming == Some(t.naming)
            &&& raw.overwrite is None && defaults.overwrite is Some ==> defaults.overwrite == Some(t.overwrite)
        },
{
}

/// A field that nothing sets has its built-in value.
pub proof fn law_built_in_values(defaults: RawTargetView, name: Seq<char>, raw: RawTargetView)
    ensures
        resolution(defaults, name, raw) matches Ok(t) ==> {
            let unseeded = raw.preset is None && defaults.preset is None;
            &&& unseeded && raw.ceiling_dbtp is None && defaults.ceiling_dbtp is None ==> is_whole(
                t.ceiling_dbtp,
                -1,
            )
            &&& raw.warn_limiting_db is None && defaults.warn_limiting_db is None ==> is_whole(
                t.warn_limiting_db,
                1,
            )
            &&& raw.on_clip is None && defaults.on_clip is None ==> t.on_clip == OnClipPolicy::Limit
            &&& raw.limiter_character is None && defaults.limiter_character is None ==> t.limiter_character == LimiterCharacter::Balanced
            &&& raw.limiter_soft_clip is None && defaults.limiter_soft_clip is None ==> t.limiter_soft_clip == false
            &&& raw.limiter_link_channels is None && defaults.limiter_link_channels is None ==> t.limiter_link_channels == true
            &&& raw.quality is None && defaults.quality is None ==> t.quality == ResampleQuality::Vhq
            &&& raw.dither is None && defaults.dither is None ==> t.dither == DitherMode::Tpdf
            &&& raw.dither_strength is None && defaults.dither_strength is None ==> t.dither_strength == DitherStrength::Normal
            &&& raw.dither_correlation is None && defaults.dither_correlation is None ==> t.dither_correlation == DitherCorrelation::Decorrelated
            &&& raw.codec is None && defaults.codec is None ==> t.codec == OutputCodec::Wav
            &&& raw.bwf is None && defaults.bwf is None ==> t.bwf == false
            &&& raw.mp3_bitrate is None && defaults.mp3_bitrate is None ==> t.mp3_bitrate == 320
            &&& raw.dir is None && defaults.dir is None ==> t.dir == "./out"@
            &&& raw.naming is None && defaults.naming is None ==> t.naming == "{target}/{stem}.{cext}"@
            &&& raw.overwrite is None && defaults.overwrite is None ==> t.overwrite == false
        },
{
    lemma_figures();
}

/// What can be delivered is accepted: a target is refused only for a reason. A preset has to be
/// known, a format has to be set unless the codec is MP3, and the fields have to go together.
pub proof fn law_deliverable_targets_are_accepted(
    defaults: RawTargetView,
    name: Seq<char>,
    raw: RawTargetView,
)
    requires
        raw.preset is None && defaults.preset is None,
        raw.format is Some || defaults.format is Some || raw.codec == Some(OutputCodec::Mp3) || (
        raw.codec is None && defaults.codec == Some(OutputCodec::Mp3)),
    ensures
        ({
            let t = materialized(
                name,
                layered(defaults, raw),
                match layered(defaults, raw).format {
                    Some(f) => f.sample_format(),
                    None => OutputSampleFormat::S16,
                },
            );
            let kbps = t.mp3_bitrate;
            let acceptable = {
                &&& t.rate != Some(0u32)
                &&& t.lufs is Some ==> t.lufs->0.finite()
                &&& t.ceiling_dbtp.nan() || t.ceiling_dbtp.place() <= 0
                &&& t.warn_limiting_db.finite() && t.warn_limiting_db.place() >= 0
                &&& !(t.codec == OutputCodec::Flac && t.format == OutputSampleFormat::F32)
                &&& !(t.bwf && t.codec != OutputCodec::Wav)
                &&& t.codec == OutputCodec::Mp3 ==> kbps == 8 || kbps == 16 || kbps == 24 || kbps == 32
                    || kbps == 40 || kbps == 48 || kbps == 64 || kbps == 80 || kbps == 96 || kbps == 112
                    || kbps == 128 || kbps == 160 || kbps == 192 || kbps == 224 || kbps == 256
                    || kbps == 320
                &&& has_text(t.naming, "{stem}"@)
            };
            acceptable <==> resolution(defaults, name, raw) == Ok::<ResolvedTargetView, Seq<char>>(t)
        }),
{
    let m = layered(defaults, raw);
    let t = materialized(
        name,
        m,
        match m.format {
            Some(f) => f.sample_format(),
            None => OutputSampleFormat::S16,
        },
    );
    let kbps = t.mp3_bitrate;
    let table = mp3_bitrates();
    assert((kbps == 8 || kbps == 16 || kbps == 24 || kbps == 32 || kbps == 40 || kbps == 48 || kbps
        == 64 || kbps == 80 || kbps == 96 || kbps == 112 || kbps == 128 || kbps == 160 || kbps == 192
        || kbps == 224 || kbps == 256 || kbps == 320) <==> table.contains(kbps)) by {
        assert(table[0] == 8 && table[1] == 16 && table[2] == 24 && table[3] == 32);
        assert(table[4] == 40 && table[5] == 48 && table[6] == 64 && table[7] == 80);
        assert(table[8] == 96 && table[9] == 112 && table[10] == 128 && table[11] == 160);
        assert(table[12] == 192 && table[13] == 224 && table[14] == 256 && table[15] == 320);
    }
    assert((Level { bits: 0 }).place() == 0);
    assert(m.format is Some || m.codec == Some(OutputCodec::Mp3));
    assert(field_error(t) is None <==> resolution(defaults, name, raw) is Ok);
    assert(resolution(defaults, name, raw) is Ok ==> resolution(defaults, name, raw)->Ok_0 == t);
    assert((Level { bits: 0 }).below(t.ceiling_dbtp) <==> !(t.ceiling_dbtp.nan()
        || t.ceiling_dbtp.place() <= 0));
    assert(t.warn_limiting_db.finite() ==> (t.warn_limiting_db.below(Level { bits: 0 })
        <==> t.warn_limiting_db.place() < 0));
}

/// The source rate is kept unless the target sets one.
pub proof fn law_delivery_rate(t: ResolvedTargetView, source_rate: u32)
    ensures
        t.rate is None ==> t.delivery_rate(source_rate) == source_rate,
        t.rate is Some ==> t.rate == Some(t.delivery_rate(source_rate)),
{
}

/// Targets that write apart are accepted: a configuration with targets that all resolve and
/// whose outputs for the probe are at different paths is not refused.
pub proof fn law_targets_that_write_apart_are_accepted(c: Config)
    requires
        c.targets.names().len() > 0,
        forall|i: int|
            0 <= i < c.targets.names().len() ==> (c.resolved(#[trigger] c.targets.names()[i]) matches Ok(
                t,
            ) && probe_output(t) is Some),
        forall|i: int, j: int|
            0 <= i < j < c.targets.names().len() ==> !same_path(
                probe_output(c.resolved(#[trigger] c.targets.names()[i])->Ok_0)->0,
                probe_output(c.resolved(#[trigger] c.targets.names()[j])->Ok_0)->0,
            ),
    ensures
        c.refusal() is None,
{
    let names = c.targets.names();
    let n = names.len() as int;
    lemma_all_resolve(c, names, n);
    let all = c.resolved_all(names, n)->Ok_0;
    assert forall|i: int| 0 <= i < n implies probe_output(#[trigger] all[i]) is Some by {
        assert(c.resolved(names[i]) is Ok);
    }
    assert forall|i: int, j: int| 0 <= i < j < n implies !same_path(
        probe_output(#[trigger] all[i])->0,
        probe_output(#[trigger] all[j])->0,
    ) by {
        assert(c.resolved(names[i]) is Ok && c.resolved(names[j]) is Ok);
    }
    lemma_apart(all, n);
}

proof fn lemma_all_resolve(c: Config, names: Seq<Seq<char>>, n: int)
    requires
        0 <= n <= names.len(),
        forall|i: int| 0 <= i < names.len() ==> c.resolved(#[trigger] names[i]) is Ok,
    ensures
        c.resolved_all(names, n) is Ok,
        c.resolved_all(names, n)->Ok_0.len() == n,
        forall|i: int|
            0 <= i < n ==> #[trigger] c.resolved_all(names, n)->Ok_0[i] == c.resolved(names[i])->Ok_0,
    decreases n,
{
    if n > 0 {
        lemma_all_resolve(c, names, n - 1);
        assert(c.resolved(names[n - 1]) is Ok);
    }
}

proof fn lemma_apart(targets: Seq<ResolvedTargetView>, n: int)
    requires
        0 <= n <= targets.len(),
        forall|i: int| 0 <= i < n ==> probe_output(#[trigger] targets[i]) is Some,
        forall|i: int, j: int|
            0 <= i < j < n ==> !same_path(
                probe_output(#[trigger] targets[i])->0,
                probe_output(#[trigger] targets[j])->0,
            ),
    ensures
        collision(targets, n) is None,
    decreases n,
{
    if n > 0 {
        lemma_apart(targets, n - 1);
        lemma_none_before(targets, n - 1, targets[n - 1]);
    }
}

proof fn lemma_none_before(targets: Seq<ResolvedTargetView>, j: int, t: ResolvedTargetView)
    requires
        0 <= j <= targets.len(),
        forall|i: int|
            0 <= i < j ==> !same_path(probe_output(#[trigger] targets[i])->0, probe_output(t)->0),
    ensures
        earlier_owner(targets, j, t) is None,
    decreases j,
{
    if j > 0 {
        lemma_none_before(targets, j - 1, t);
        assert(!same_path(probe_output(targets[j - 1])->0, probe_output(t)->0));
    }
}

/// A piece of a naming pattern: text without braces, or a placeholder.
pub enum NamePart {
    Text(Seq<char>),
    Stem,
    Ext,
    Target,
    Rate,
    Format,
    Codec,
}

/// What the placeholders stand for.
pub struct NameValues {
    pub stem: Seq<char>,
    pub ext: Seq<char>,
    pub target: Seq<char>,
    pub rate: Seq<char>,
    pub format: Seq<char>,
    pub codec: Seq<char>,
}

impl NameValues {
    /// No value has an opening brace.
    pub open spec fn plain(self) -> bool {
        &&& free_of(self.stem, '{')
        &&& free_of(self.ext, '{')
        &&& free_of(self.target, '{')
        &&& free_of(self.rate, '{')
        &&& free_of(self.format, '{')
        &&& free_of(self.codec, '{')
    }
}

impl NamePart {
    /// The piece as it is written.
    pub open spec fn written(self) -> Seq<char> {
        match self {
            NamePart::Text(x) => x,
            NamePart::Stem => "{stem}"@,
            NamePart::Ext => "{ext}"@,
            NamePart::Target => "{target}"@,
            NamePart::Rate => "{rate}"@,
            NamePart::Format => "{format}"@,
            NamePart::Codec => "{cext}"@,
        }
    }

    /// The piece filled in.
    pub open spec fn filled(self, v: NameValues) -> Seq<char> {
        match self {
            NamePart::Text(x) => x,
            NamePart::Stem => v.stem,
            NamePart::Ext => v.ext,
            NamePart::Target => v.target,
            NamePart::Rate => v.rate,
            NamePart::Format => v.format,
            NamePart::Codec => v.codec,
        }
    }

    /// The order in which placeholders are filled in; text comes before all of them.
    spec fn turn(self) -> int {
        match self {
            NamePart::Text(_) => -1,
            NamePart::Stem => 0,
            NamePart::Ext => 1,
            NamePart::Target => 2,
            NamePart::Rate => 3,
            NamePart::Format => 4,
            NamePart::Codec => 5,
        }
    }
}

/// A naming pattern as it is written.
pub open spec fn pattern_text(parts: Seq<NamePart>) -> Seq<char>
    decreases parts.len(),
{
    if parts.len() == 0 {
        Seq::empty()
    } else {
        parts[0].written() + pattern_text(parts.skip(1))
    }
}

/// A naming pattern filled in.
pub open spec fn filled_text(parts: Seq<NamePart>, v: NameValues) -> Seq<char>
    decreases parts.len(),
{
    if parts.len() == 0 {
        Seq::empty()
    } else {
        parts[0].filled(v) + filled_text(parts.skip(1), v)
    }
}

/// A naming pattern in which the placeholders before turn `k` are filled in.
spec fn partly_filled(parts: Seq<NamePart>, v: NameValues, k: int) -> Seq<char>
    decreases parts.len(),
{
    if parts.len() == 0 {
        Seq::empty()
    } else {
        (if parts[0].turn() < k {
            parts[0].filled(v)
        } else {
            parts[0].written()
        }) + partly_filled(parts.skip(1), v, k)
    }
}

/// The placeholders start with a brace, have no other, and differ in their second character.
proof fn lemma_placeholders()
    ensures
        "{stem}"@.len() >= 2 && "{stem}"@[0] == '{' && "{stem}"@[1] == 's' && free_of("{stem}"@.skip(1), '{'),
        "{ext}"@.len() >= 2 && "{ext}"@[0] == '{' && "{ext}"@[1] == 'e' && free_of("{ext}"@.skip(1), '{'),
        "{target}"@.len() >= 2 && "{target}"@[0] == '{' && "{target}"@[1] == 't' && free_of("{target}"@.skip(1), '{'),
        "{rate}"@.len() >= 2 && "{rate}"@[0] == '{' && "{rate}"@[1] == 'r' && free_of("{rate}"@.skip(1), '{'),
        "{format}"@.len() >= 2 && "{format}"@[0] == '{' && "{format}"@[1] == 'f' && free_of("{format}"@.skip(1), '{'),
        "{cext}"@.len() >= 2 && "{cext}"@[0] == '{' && "{cext}"@[1] == 'c' && free_of("{cext}"@.skip(1), '{'),
{
    reveal_strlit("{stem}");
    reveal_strlit("{ext}");
    reveal_strlit("{target}");
    reveal_strlit("{rate}");
    reveal_strlit("{format}");
    reveal_strlit("{cext}");
}

/// Filling in one placeholder fills in its turn.
proof fn lemma_fill(parts: Seq<NamePart>, v: NameValues, own: NamePart)
    requires
        own.turn() >= 0,
        v.plain(),
        forall|i: int| 0 <= i < parts.len() ==> ((#[trigger] parts[i]) matches NamePart::Text(x)
            ==> free_of(x, '{')),
    ensures
        replaced(partly_filled(parts, v, own.turn()), own.written(), own.filled(v)) == partly_filled(
            parts,
            v,
            own.turn() + 1,
        ),
    decreases parts.len(),
{
    lemma_placeholders();
    let pat = own.written();
    let with = own.filled(v);
    let k = own.turn();
    if parts.len() > 0 {
        let rest = parts.skip(1);
        assert forall|i: int| 0 <= i < rest.len() implies ((#[trigger] rest[i]) matches NamePart::Text(x)
            ==> free_of(x, '{')) by {
            assert(rest[i] == parts[i + 1]);
        }
        lemma_fill(rest, v, own);
        let first = parts[0];
        let tail = partly_filled(rest, v, k);
        if first.turn() < k {
            assert(free_of(first.filled(v), '{'));
            law_replacing_starts_at_the_pattern(first.filled(v), tail, pat, with);
        } else if first.turn() == k {
            assert(first == own);
            law_replacing_replaces_the_pattern(tail, pat, with);
        } else {
            law_replacing_passes_over_other_text(first.written(), tail, pat, with);
        }
    } else {
        assert(replaced(Seq::<char>::empty(), pat, with) =~= Seq::<char>::empty());
    }
}

proof fn lemma_unfilled(parts: Seq<NamePart>, v: NameValues)
    ensures
        partly_filled(parts, v, 0) == pattern_text(parts),
        partly_filled(parts, v, 6) == filled_text(parts, v),
    decreases parts.len(),
{
    if parts.len() > 0 {
        lemma_unfilled(parts.skip(1), v);
    }
}

/// A file name is its naming pattern with every placeholder filled in: the stem and the
/// extension of the input, the name of the target, the delivery rate, the tag of the format and
/// the extension of the codec, each in its place, and all other text as it is written. Values
/// with a brace are left out: they could read as placeholders.
pub proof fn law_names_are_filled_in(
    t: ResolvedTargetView,
    parts: Seq<NamePart>,
    stem: Seq<char>,
    ext: Seq<char>,
    out_rate: u32,
)
    requires
        t.naming == pattern_text(parts),
        free_of(stem, '{') && free_of(ext, '{') && free_of(t.name, '{'),
        forall|i: int| 0 <= i < parts.len() ==> ((#[trigger] parts[i]) matches NamePart::Text(x)
            ==> free_of(x, '{')),
    ensures
        t.file_name(stem, ext, out_rate) == filled_text(
            parts,
            (NameValues {
                stem,
                ext,
                target: t.name,
                rate: digits(out_rate as nat),
                format: match t.format {
                    OutputSampleFormat::S16 => "s16"@,
                    OutputSampleFormat::S24 => "s24"@,
                    OutputSampleFormat::F32 => "f32"@,
                },
                codec: match t.codec {
                    OutputCodec::Wav => "wav"@,
                    OutputCodec::Flac => "flac"@,
                    OutputCodec::Mp3 => "mp3"@,
                },
            }),
        ),
{
    let v = NameValues {
        stem,
        ext,
        target: t.name,
        rate: digits(out_rate as nat),
        format: format_label(t.format),
        codec: t.codec.extension(),
    };
    reveal_strlit("s16");
    reveal_strlit("s24");
    reveal_strlit("f32");
    reveal_strlit("wav");
    reveal_strlit("flac");
    reveal_strlit("mp3");
    law_numerals_read_back(out_rate as nat);
    assert(free_of(v.rate, '{'));
    lemma_unfilled(parts, v);
    lemma_fill(parts, v, NamePart::Stem);
    lemma_fill(parts, v, NamePart::Ext);
    lemma_fill(parts, v, NamePart::Target);
    lemma_fill(parts, v, NamePart::Rate);
    lemma_fill(parts, v, NamePart::Format);
    lemma_fill(parts, v, NamePart::Codec);
}

/// An output goes below the directory of its target, under the filled-in name. An input without
/// a stem has no output, any other has one.
pub proof fn law_outputs_go_to_the_directory(t: ResolvedTargetView, input: Seq<char>, out_rate: u32)
    ensures
        stem_of(input) is None ==> t.output_path(input, out_rate) is None,
        stem_of(input) matches Some(stem) ==> ({
            let ext = match extension_of(input) {
                Some(e) => e,
                None => Seq::<char>::empty(),
            };
            t.output_path(input, out_rate) == Some(
                joined_path(t.dir, t.file_name(stem, ext, out_rate)),
            )
        }),
{
}

/// The bitrates that MP3 files can have, in kbit/s.
pub proof fn law_mp3_bitrates(kbps: u32)
    ensures
        mp3_bitrates().contains(kbps) <==> kbps == 8 || kbps == 16 || kbps == 24 || kbps == 32 || kbps
            == 40 || kbps == 48 || kbps == 64 || kbps == 80 || kbps == 96 || kbps == 112
            || kbps == 128 || kbps == 160 || kbps == 192 || kbps == 224 || kbps == 256 || kbps == 320,
{
}

/// The modes: gentle and ear-weighted shaping have their curves, the others none, and a curve is
/// used at 16 bits only.
pub proof fn law_modes_and_their_curves(mode: DitherMode, format: OutputSampleFormat)
    ensures
        mode.curve() == Some(ShapingCurve::Gentle) <==> mode == DitherMode::Shaped,
        mode.curve() == Some(ShapingCurve::Psychoacoustic) <==> mode == DitherMode::Psychoacoustic,
        mode.shapes_at(format) <==> format == OutputSampleFormat::S16 && (mode == DitherMode::Shaped
            || mode == DitherMode::Psychoacoustic),
{
}

/// Labels tell values apart: no two formats, qualities, policies, limiter characters, dither
/// modes or codecs have the same one.
pub proof fn law_labels_tell_values_apart()
    ensures
        forall|a: OutputSampleFormat, b: OutputSampleFormat| #[trigger]
            format_label(a) == #[trigger] format_label(b) ==> a == b,
        forall|a: ResampleQuality, b: ResampleQuality| #[trigger]
            quality_label(a) == #[trigger] quality_label(b) ==> a == b,
        forall|a: OnClipPolicy, b: OnClipPolicy| #[trigger]
            on_clip_label(a) == #[trigger] on_clip_label(b) ==> a == b,
        forall|a: LimiterCharacter, b: LimiterCharacter| #[trigger]
            limiter_character_label(a) == #[trigger] limiter_character_label(b) ==> a == b,
        forall|a: DitherMode, b: DitherMode| #[trigger]
            dither_label(a) == #[trigger] dither_label(b) ==> a == b,
        forall|a: OutputCodec, b: OutputCodec|
            (#[trigger] a.extension()) == (#[trigger] b.extension()) ==> a == b,
{
    reveal_strlit("s16");
    reveal_strlit("s24");
    reveal_strlit("f32");
    reveal_strlit("lq");
    reveal_strlit("mq");
    reveal_strlit("hq");
    reveal_strlit("vhq");
    reveal_strlit("limit");
    reveal_strlit("reduce_gain");
    reveal_strlit("warn");
    reveal_strlit("balanced");
    reveal_strlit("transient");
    reveal_strlit("tpdf");
    reveal_strlit("none");
    reveal_strlit("shaped");
    reveal_strlit("psychoacoustic");
    reveal_strlit("mbit_plus");
    reveal_strlit("wav");
    reveal_strlit("flac");
    reveal_strlit("mp3");
    assert("s16"@[0] == 's' && "s24"@[0] == 's' && "f32"@[0] == 'f' && "s16"@[1] == '1' && "s24"@[1]
        == '2');
    assert("lq"@[0] == 'l' && "mq"@[0] == 'm' && "hq"@[0] == 'h' && "vhq"@[0] == 'v');
    assert("limit"@[0] == 'l' && "reduce_gain"@[0] == 'r' && "warn"@[0] == 'w');
    assert("balanced"@[0] == 'b' && "transient"@[0] == 't');
    assert("tpdf"@[0] == 't' && "none"@[0] == 'n' && "shaped"@[0] == 's' && "psychoacoustic"@[0]
        == 'p' && "mbit_plus"@[0] == 'm');
    assert("wav"@[0] == 'w' && "flac"@[0] == 'f' && "mp3"@[0] == 'm');
}

/// The plan tells the goal, the ceiling and the rates: the goal and the ceiling to one decimal,
/// the source rate before the rate of the delivery.
pub proof fn law_plan_tells_goal_and_rates(t: ResolvedTargetView, source_rate: u32)
    ensures
        ({
            let plan = t.plan(source_rate);
            let out_rate = match t.rate {
                Some(r) => r,
                None => source_rate,
            };
            let policy = match t.on_clip {
                OnClipPolicy::Limit => "limit; "@ + limiter_character_label(t.limiter_character)
                    + " release; "@ + (if t.limiter_link_channels {
                    "linked"@
                } else {
                    "unlinked"@
                }) + "; soft_clip="@ + (if t.limiter_soft_clip {
                    "true"@
                } else {
                    "false"@
                }),
                OnClipPolicy::ReduceGain => "reduce_gain"@,
                OnClipPolicy::Warn => "warn"@,
            };
            &&& plan.len() == (if t.codec == OutputCodec::Mp3 {
                3nat
            } else {
                4
            })
            &&& t.lufs matches Some(goal) ==> plan[0] == "loudness -> "@ + fixed_text(goal, 1)
                + " LUFS (ceiling "@ + fixed_text(t.ceiling_dbtp, 1) + " dBTP, "@ + policy + ")"@
            &&& t.lufs is None ==> plan[0] == "transcode (no loudness normalization); ceiling "@
                + fixed_text(t.ceiling_dbtp, 1) + " dBTP enforced ("@ + policy + ")"@
            &&& out_rate == source_rate ==> plan[1] == "keep sample rate "@ + digits(source_rate as nat)
                + " Hz"@
            &&& out_rate != source_rate ==> plan[1] == "resample "@ + digits(source_rate as nat)
                + " -> "@ + digits(out_rate as nat) + " Hz ("@ + quality_label(t.quality) + ")"@
            &&& t.codec == OutputCodec::Mp3 ==> plan[2] == "encode MP3 "@ + digits(t.mp3_bitrate as nat)
                + " kbps (lossy; bit depth & dither not applicable)"@
            &&& t.codec != OutputCodec::Mp3 && t.format == OutputSampleFormat::F32 ==> plan[2]
                == "write f32 (no quantization)"@
            &&& t.codec != OutputCodec::Mp3 && t.format != OutputSampleFormat::F32 ==> plan[2]
                == "quantize -> "@ + format_label(t.format) + " + "@ + effective_dither_text(
                t.dither,
                t.format,
            )
            &&& t.codec == OutputCodec::Flac ==> plan[3] == "write "@ + "FLAC"@
            &&& t.codec == OutputCodec::Wav ==> plan[3] == "write "@ + if t.bwf {
                "Broadcast WAV (bext + R128 metadata)"@
            } else {
                "WAV"@
            }
        }),
{
}

/// A target is found by its name and made from what the table holds under that name and the
/// shared defaults; a name that the table does not hold is refused.
pub proof fn law_targets_are_found_by_name(c: Config, name: Seq<char>)
    ensures
        !c.targets.has(name) ==> c.resolved(name) == Err::<ResolvedTargetView, Seq<char>>(
            "no such target: '"@ + name + "'"@,
        ),
        c.targets.has(name) ==> c.resolved(name) == resolution(c.defaults@, name, c.targets.at(name)),
{
}

/// What the quantizer will do, in words: shaped modes and MBIT+ work at 16 bits and fall back to
/// flat dither above.
pub proof fn law_dither_in_words(dither: DitherMode, format: OutputSampleFormat)
    ensures
        effective_dither_text(dither, format) == (match dither {
            DitherMode::Tpdf => "tpdf"@ + " dither"@,
            DitherMode::Off => "none"@ + " dither"@,
            DitherMode::Shaped => if format == OutputSampleFormat::S16 {
                "tpdf + noise-shaping ("@ + "gentle"@ + ")"@
            } else {
                "tpdf dither (shaping skipped: s16 only)"@
            },
            DitherMode::Psychoacoustic => if format == OutputSampleFormat::S16 {
                "tpdf + noise-shaping ("@ + "psychoacoustic"@ + ")"@
            } else {
                "tpdf dither (shaping skipped: s16 only)"@
            },
            DitherMode::MbitPlus => if format == OutputSampleFormat::S16 {
                "mbit+ adaptive dither (psychoacoustic + temporal + stereo-correlated)"@
            } else {
                "tpdf dither (mbit+ skipped: s16 only)"@
            },
        }),
{
}

/// Whether targets write apart is tried out with a probe for an input. A target that follows the
/// source is tried with the rate 0, which no target can ask for.
pub proof fn law_targets_are_probed_at_their_rates(t: ResolvedTargetView)
    ensures
        t.rate is None ==> probe_output(t) == t.output_path("__render_probe__.wav"@, 0),
        t.rate matches Some(r) ==> probe_output(t) == t.output_path("__render_probe__.wav"@, r),
        t.rate == Some(0u32) ==> field_error(t) is Some,
{
}

} // verus!

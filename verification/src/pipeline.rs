//! The processing chain of one input and one target.
//!
//! The chain is derived from the target and the source: only the steps that are needed run, in
//! one order: loudness (if the target has a goal), resampling (if the rates differ), ceiling
//! enforcement, one quantization, encoding. The meters, the gain, the limiter and the resampler
//! work on samples and are handed in by the caller.
use vstd::prelude::*;
use vstd::arithmetic::power2::*;
use crate::audio::buffer::{AudioBuffer, OutputSampleFormat};
use crate::audio::io_write::BextMetadata;
use crate::closures::{accepts_ref, accepts_ref_with, accepts1, accepts2, accepts3, reads, reads_with};
use crate::config::{
    format_label, format_tag, DitherMode, OnClipPolicy, OutputCodec, ResampleQuality, ResolvedTarget,
    ResolvedTargetView,
};
use crate::decimal::{fixed, fixed_text};
use crate::dither::shaper::aim_accepts;
use crate::level::Level;
use crate::ops::bitdepth::{self, reduces, shaping_label, tag_view, uses_mbit_plus, well_quantized};
use crate::ops::limiter::LimiterOptions;
use crate::ops::loudness::{
    self, enforced, law_only_meters_and_limiter_fail, law_predicted_peaks_are_met,
    law_reduced_gain_meets_the_ceiling, law_warnings_name_the_peak_and_the_ceiling, moderate,
    normalized, rechecked, slack, tolerance, within_tolerance, LoudnessAnalysis, LoudnessApplyResult,
    LoudnessApplyView, SILENCE,
};
use crate::path::{self, same_path};
use crate::refusal::Refusal;
use crate::text::{self, digits, starts_with, views};

verus! {

/// The bits of 0.1: how far (LU) the delivered loudness may be from the goal without a warning.
pub const LOUDNESS_TOLERANCE_LU: u64 = 0x3FB9_9999_9999_999A;

/// What was done to one input for one target.
#[derive(Debug, Clone)]
pub struct ProcessingReport {
    /// Name of the target.
    pub target: String,
    pub input: String,
    pub output: String,
    pub in_rate: u32,
    pub out_rate: u32,
    /// Metering of the untouched source.
    pub source: LoudnessAnalysis,
    /// Metering of the delivered signal, before quantization.
    pub delivered: LoudnessAnalysis,
    /// Peak gain reduction of the loudness limiter; `None` when it did not run.
    pub limiter_gain_reduction_db: Option<Level>,
    /// Whether dither was applied.
    pub dithered: bool,
    /// Whether noise shaping ran.
    pub shaped: bool,
    /// The family of noise shaping.
    pub shaping_curve: Option<&'static str>,
    /// Output codec.
    pub codec: String,
    /// Whether a Broadcast WAV `bext` chunk was written.
    pub bwf: bool,
    /// Sample format, or the bitrate of an MP3.
    pub format: String,
    pub warnings: Vec<String>,
}

/// The mathematical model of a [`ProcessingReport`].
#[verifier::ext_equal]
pub struct ReportView {
    pub target: Seq<char>,
    pub input: Seq<char>,
    pub output: Seq<char>,
    pub in_rate: u32,
    pub out_rate: u32,
    pub source: LoudnessAnalysis,
    pub delivered: LoudnessAnalysis,
    pub limiter_gain_reduction_db: Option<Level>,
    pub dithered: bool,
    pub shaped: bool,
    pub shaping_curve: Option<Seq<char>>,
    pub codec: Seq<char>,
    pub bwf: bool,
    pub format: Seq<char>,
    pub warnings: Seq<Seq<char>>,
}

impl View for ProcessingReport {
    type V = ReportView;

    open spec fn view(&self) -> ReportView {
        ReportView {
            target: self.target@,
            input: self.input@,
            output: self.output@,
            in_rate: self.in_rate,
            out_rate: self.out_rate,
            source: self.source,
            delivered: self.delivered,
            limiter_gain_reduction_db: self.limiter_gain_reduction_db,
            dithered: self.dithered,
            shaped: self.shaped,
            shaping_curve: tag_view(self.shaping_curve),
            codec: self.codec@,
            bwf: self.bwf,
            format: self.format@,
            warnings: views(self.warnings@),
        }
    }
}

/// An input that could not be processed for a target.
#[derive(Debug, Clone)]
pub struct TaskFailure {
    pub target: String,
    pub input: String,
    pub error: String,
}

/// The state of a task between processing and quantization.
#[derive(Debug, Clone)]
pub struct Processed {
    pub in_rate: u32,
    pub out_rate: u32,
    pub source: LoudnessAnalysis,
    pub delivered: LoudnessAnalysis,
    pub limiter_gain_reduction_db: Option<Level>,
    pub output: String,
    pub warnings: Vec<String>,
}

/// The mathematical model of a [`Processed`].
pub struct ProcessedView {
    pub in_rate: u32,
    pub out_rate: u32,
    pub source: LoudnessAnalysis,
    pub delivered: LoudnessAnalysis,
    pub limiter_gain_reduction_db: Option<Level>,
    pub output: Seq<char>,
    pub warnings: Seq<Seq<char>>,
}

impl View for Processed {
    type V = ProcessedView;

    open spec fn view(&self) -> ProcessedView {
        ProcessedView {
            in_rate: self.in_rate,
            out_rate: self.out_rate,
            source: self.source,
            delivered: self.delivered,
            limiter_gain_reduction_db: self.limiter_gain_reduction_db,
            output: self.output@,
            warnings: views(self.warnings@),
        }
    }
}

/// How the target asks the limiter to behave.
pub fn limiter_options(target: &ResolvedTarget) -> (r: LimiterOptions)
    ensures
        r.character == target.limiter_character,
        r.soft_clip == target.limiter_soft_clip,
        r.link_channels == target.limiter_link_channels,
{
    LimiterOptions {
        character: target.limiter_character,
        soft_clip: target.limiter_soft_clip,
        link_channels: target.limiter_link_channels,
    }
}

// ---------------------------------------------------------------------------
// Loudness.
// ---------------------------------------------------------------------------

/// The gain reduction to report: that of a limiter that ran.
pub open spec fn reported_reduction(done: LoudnessApplyView) -> Option<Level> {
    if (Level { bits: 0 }).below(done.limiter_gain_reduction_db) {
        Some(done.limiter_gain_reduction_db)
    } else {
        None
    }
}

/// The warning about heavy limiting. The delivered loudness and true peak look clean after
/// limiting, so this is where lost dynamics become visible.
pub open spec fn heavy_limiting(reduction: Level, goal: Level, ceiling: Level, source_peak: Level) -> Seq<
    char,
> {
    "heavy limiting: "@ + fixed_text(reduction, 1) + " dB of peak gain reduction to reach "@
        + fixed_text(goal, 1) + " LUFS under the "@ + fixed_text(ceiling, 1)
        + " dBTP ceiling (source true peak "@ + fixed_text(source_peak, 1)
        + " dBTP); consider a lower target or more source headroom"@
}

/// The warning about a loudness goal that was not met.
pub open spec fn goal_missed(goal: Level, actual: Level) -> Seq<char> {
    "loudness target not met within +/-0.1 LU (target "@ + fixed_text(goal, 2) + ", actual "@
        + fixed_text(actual, 2) + ")"@
}

/// The warnings of a loudness step.
pub open spec fn level_warnings(
    done: LoudnessApplyView,
    goal: Level,
    t: ResolvedTargetView,
    source_peak: Level,
) -> Seq<Seq<char>> {
    let reduction = done.limiter_gain_reduction_db;
    let heavy = if reported_reduction(done) is Some && t.warn_limiting_db.below(reduction) {
        seq![heavy_limiting(reduction, goal, t.ceiling_dbtp, source_peak)]
    } else {
        Seq::empty()
    };
    let missed = if (Level { bits: LOUDNESS_TOLERANCE_LU }).below(
        done.out_lufs.difference(goal).absolute(),
    ) {
        seq![goal_missed(goal, done.out_lufs)]
    } else {
        Seq::empty()
    };
    done.warnings + heavy + missed
}

/// The buffer after the loudness step, with the gain reduction and the warnings.
pub open spec fn levelled<B>(
    b: B,
    t: ResolvedTargetView,
    source_peak: Level,
    lufs: spec_fn(B) -> Result<Level, Refusal>,
    peak: spec_fn(B) -> Result<Level, Refusal>,
    amplify: spec_fn(B, Level) -> B,
    limit: spec_fn(B, Level) -> Result<B, Refusal>,
) -> (B, Result<(Option<Level>, Seq<Seq<char>>), Refusal>) {
    match t.lufs {
        None => (b, Ok((None, Seq::empty()))),
        Some(goal) => {
            let (b2, done) = normalized(
                b,
                goal,
                t.ceiling_dbtp,
                t.on_clip,
                lufs,
                peak,
                amplify,
                limit,
            );
            match done {
                Err(e) => (b2, Err(e)),
                Ok(v) => (b2, Ok((reported_reduction(v), level_warnings(v, goal, t, source_peak)))),
            }
        },
    }
}

fn say_heavy_limiting(reduction: Level, goal: Level, ceiling: Level, source_peak: Level) -> (r: String)
    ensures
        r@ == heavy_limiting(reduction, goal, ceiling, source_peak),
{
    let mut m = String::from_str("heavy limiting: ");
    m.append(fixed(reduction, 1).as_str());
    m.append(" dB of peak gain reduction to reach ");
    m.append(fixed(goal, 1).as_str());
    m.append(" LUFS under the ");
    m.append(fixed(ceiling, 1).as_str());
    m.append(" dBTP ceiling (source true peak ");
    m.append(fixed(source_peak, 1).as_str());
    m.append(" dBTP); consider a lower target or more source headroom");
    m
}

fn say_goal_missed(goal: Level, actual: Level) -> (r: String)
    ensures
        r@ == goal_missed(goal, actual),
{
    let mut m = String::from_str("loudness target not met within +/-0.1 LU (target ");
    m.append(fixed(goal, 2).as_str());
    m.append(", actual ");
    m.append(fixed(actual, 2).as_str());
    m.append(")");
    m
}

/// What a loudness step has to report.
fn judge_level(done: LoudnessApplyResult, goal: Level, target: &ResolvedTarget, source_peak: Level) -> (r: (
    Option<Level>,
    Vec<String>,
))
    ensures
        r.0 == reported_reduction(done@),
        views(r.1@) == level_warnings(done@, goal, target@, source_peak),
{
    let ghost view = done@;
    let reduction = done.limiter_gain_reduction_db;
    let out_lufs = done.out_lufs;
    let mut warnings = done.warnings;
    let mut reported: Option<Level> = None;
    let ghost first = views(warnings@);
    if (Level { bits: 0 }).is_below(reduction) {
        reported = Some(reduction);
        if target.warn_limiting_db.is_below(reduction) {
            warnings.push(say_heavy_limiting(reduction, goal, target.ceiling_dbtp, source_peak));
            assert(views(warnings@) =~= first + seq![
                heavy_limiting(reduction, goal, target@.ceiling_dbtp, source_peak),
            ]);
        }
    }
    let ghost second = views(warnings@);
    if (Level { bits: LOUDNESS_TOLERANCE_LU }).is_below(out_lufs.minus(goal).abs()) {
        warnings.push(say_goal_missed(goal, out_lufs));
        assert(views(warnings@) =~= second + seq![goal_missed(goal, out_lufs)]);
    }
    assert(views(warnings@) =~= level_warnings(view, goal, target@, source_peak));
    (reported, warnings)
}

/// The loudness step: runs only when the target has a goal.
fn level<
    B,
    L: Fn(&B) -> Result<Level, Refusal>,
    P: Fn(&B) -> Result<Level, Refusal>,
    A: Fn(&B, Level) -> B,
    T: Fn(&B, Level) -> Result<B, Refusal>,
>(
    buffer: &mut B,
    target: &ResolvedTarget,
    source_peak: Level,
    lufs: &L,
    peak: &P,
    amplify: &A,
    limit: &T,
) -> (r: Result<(Option<Level>, Vec<String>), Refusal>)
    requires
        accepts_ref(*lufs),
        accepts_ref(*peak),
        accepts_ref_with(*amplify),
        accepts_ref_with(*limit),
    ensures
        forall|
            m: spec_fn(B) -> Result<Level, Refusal>,
            p: spec_fn(B) -> Result<Level, Refusal>,
            a: spec_fn(B, Level) -> B,
            l: spec_fn(B, Level) -> Result<B, Refusal>,
        |
            reads(*lufs, m) && reads(*peak, p) && reads_with(*amplify, a) && reads_with(*limit, l)
                ==> {
                let spec = #[trigger] levelled(*old(buffer), target@, source_peak, m, p, a, l);
                &&& *final(buffer) == spec.0
                &&& match r {
                    Ok(o) => spec.1 == Ok::<(Option<Level>, Seq<Seq<char>>), Refusal>(
                        (o.0, views(o.1@)),
                    ),
                    Err(e) => spec.1 == Err::<(Option<Level>, Seq<Seq<char>>), Refusal>(e),
                }
            },
{
    match target.lufs {
        None => {
            let none: Vec<String> = Vec::new();
            assert(views(none@) =~= Seq::<Seq<char>>::empty());
            Ok((None, none))
        },
        Some(goal) => {
            let done = loudness::apply(
                buffer,
                goal,
                Some(target.ceiling_dbtp),
                Some(target.on_clip),
                lufs,
                peak,
                amplify,
                limit,
            );
            match done {
                Err(e) => Err(e),
                Ok(d) => Ok(judge_level(d, goal, target, source_peak)),
            }
        },
    }
}

// ---------------------------------------------------------------------------
// Rate and ceiling.
// ---------------------------------------------------------------------------

/// Whatever `f` returns is the value of `s`.
pub open spec fn resamples<B, F: Fn(&B, u32, ResampleQuality) -> Result<B, Refusal>>(
    f: F,
    s: spec_fn(B, u32, ResampleQuality) -> Result<B, Refusal>,
) -> bool {
    forall|b: &B, rate: u32, q: ResampleQuality, r: Result<B, Refusal>| #[trigger]
        f.ensures((b, rate, q), r) ==> r == s(*b, rate, q)
}

/// The buffer after the rate step. Conversion can raise peaks between samples above the
/// ceiling, so the ceiling is checked again after it.
pub open spec fn rated<B>(
    b: B,
    source_rate: u32,
    t: ResolvedTargetView,
    peak: spec_fn(B) -> Result<Level, Refusal>,
    limit: spec_fn(B, Level) -> Result<B, Refusal>,
    resample: spec_fn(B, u32, ResampleQuality) -> Result<B, Refusal>,
) -> (B, Result<Seq<Seq<char>>, Refusal>) {
    let rate = t.delivery_rate(source_rate);
    if rate == source_rate {
        (b, Ok(Seq::empty()))
    } else {
        match resample(b, rate, t.quality) {
            Err(e) => (b, Err(e)),
            Ok(b2) => rechecked(b2, t.ceiling_dbtp, peak, limit),
        }
    }
}

/// The buffer after the ceiling step. A loudness step enforces the ceiling itself, so this one
/// is for targets without a goal.
pub open spec fn capped<B>(
    b: B,
    t: ResolvedTargetView,
    peak: spec_fn(B) -> Result<Level, Refusal>,
    amplify: spec_fn(B, Level) -> B,
    limit: spec_fn(B, Level) -> Result<B, Refusal>,
) -> (B, Result<Seq<Seq<char>>, Refusal>) {
    if t.lufs is Some {
        (b, Ok(Seq::empty()))
    } else {
        enforced(b, t.ceiling_dbtp, t.on_clip, peak, amplify, limit)
    }
}

/// The rate step: runs only when the delivery rate differs from the source rate.
fn bring_to_rate<
    B,
    P: Fn(&B) -> Result<Level, Refusal>,
    T: Fn(&B, Level) -> Result<B, Refusal>,
    R: Fn(&B, u32, ResampleQuality) -> Result<B, Refusal>,
>(
    buffer: &mut B,
    source_rate: u32,
    target: &ResolvedTarget,
    peak: &P,
    limit: &T,
    resample: &R,
) -> (r: Result<Vec<String>, Refusal>)
    requires
        accepts_ref(*peak),
        accepts_ref_with(*limit),
        forall|b: &B, rate: u32, q: ResampleQuality| #[trigger] resample.requires((b, rate, q)),
    ensures
        forall|
            p: spec_fn(B) -> Result<Level, Refusal>,
            l: spec_fn(B, Level) -> Result<B, Refusal>,
            s: spec_fn(B, u32, ResampleQuality) -> Result<B, Refusal>,
        |
            reads(*peak, p) && reads_with(*limit, l) && resamples(*resample, s) ==> {
                let spec = #[trigger] rated(*old(buffer), source_rate, target@, p, l, s);
                &&& *final(buffer) == spec.0
                &&& match r {
                    Ok(w) => spec.1 == Ok::<Seq<Seq<char>>, Refusal>(views(w@)),
                    Err(e) => spec.1 == Err::<Seq<Seq<char>>, Refusal>(e),
                }
            },
{
    let rate = target.out_rate(source_rate);
    if rate == source_rate {
        let none: Vec<String> = Vec::new();
        assert(views(none@) =~= Seq::<Seq<char>>::empty());
        return Ok(none);
    }
    match resample(&*buffer, rate, target.quality) {
        Err(e) => Err(e),
        Ok(next) => {
            *buffer = next;
            loudness::recheck_and_limit_if_needed(buffer, target.ceiling_dbtp, peak, limit)
        },
    }
}

/// The ceiling step.
fn cap<
    B,
    P: Fn(&B) -> Result<Level, Refusal>,
    A: Fn(&B, Level) -> B,
    T: Fn(&B, Level) -> Result<B, Refusal>,
>(buffer: &mut B, target: &ResolvedTarget, peak: &P, amplify: &A, limit: &T) -> (r: Result<
    Vec<String>,
    Refusal,
>)
    requires
        accepts_ref(*peak),
        accepts_ref_with(*amplify),
        accepts_ref_with(*limit),
    ensures
        forall|
            p: spec_fn(B) -> Result<Level, Refusal>,
            a: spec_fn(B, Level) -> B,
            l: spec_fn(B, Level) -> Result<B, Refusal>,
        |
            reads(*peak, p) && reads_with(*amplify, a) && reads_with(*limit, l) ==> {
                let spec = #[trigger] capped(*old(buffer), target@, p, a, l);
                &&& *final(buffer) == spec.0
                &&& match r {
                    Ok(w) => spec.1 == Ok::<Seq<Seq<char>>, Refusal>(views(w@)),
                    Err(e) => spec.1 == Err::<Seq<Seq<char>>, Refusal>(e),
                }
            },
{
    if target.lufs.is_some() {
        let none: Vec<String> = Vec::new();
        assert(views(none@) =~= Seq::<Seq<char>>::empty());
        return Ok(none);
    }
    loudness::enforce_ceiling(buffer, target.ceiling_dbtp, target.on_clip, peak, amplify, limit)
}

// ---------------------------------------------------------------------------
// Where the output goes.
// ---------------------------------------------------------------------------

/// The path of the output, or why there is none.
pub open spec fn guarded_output(t: ResolvedTargetView, input: Seq<char>, out_rate: u32) -> Result<
    Seq<char>,
    Seq<char>,
> {
    match t.output_path(input, out_rate) {
        None => Err("input file has no valid stem"@),
        Some(p) => if !t.overwrite && same_path(p, input) {
            Err("refusing to overwrite input file without --force or overwrite=true: "@ + input)
        } else {
            Ok(p)
        },
    }
}

/// The path of the output. The input is not overwritten unless the target allows it.
pub fn output_for(target: &ResolvedTarget, input: &str, out_rate: u32) -> (r: Result<String, Refusal>)
    ensures
        match r {
            Ok(p) => guarded_output(target@, input@, out_rate) == Ok::<Seq<char>, Seq<char>>(p@),
            Err(e) => guarded_output(target@, input@, out_rate) == Err::<Seq<char>, Seq<char>>(e@),
        },
{
    match target.render_output_path(input, out_rate) {
        Err(e) => Err(e),
        Ok(p) => {
            if !target.overwrite && path::same(p.as_str(), input) {
                let mut m = String::from_str(
                    "refusing to overwrite input file without --force or overwrite=true: ",
                );
                m.append(input);
                return Err(Refusal::new(m));
            }
            Ok(p)
        },
    }
}

// ---------------------------------------------------------------------------
// The chain up to quantization.
// ---------------------------------------------------------------------------

/// The buffer after the whole chain up to quantization, and what is known of it then, or the
/// message of the first failure.
pub open spec fn processed<B>(
    b: B,
    source_rate: u32,
    input: Seq<char>,
    t: ResolvedTargetView,
    analyze: spec_fn(B) -> Result<LoudnessAnalysis, Refusal>,
    lufs: spec_fn(B) -> Result<Level, Refusal>,
    peak: spec_fn(B) -> Result<Level, Refusal>,
    amplify: spec_fn(B, Level) -> B,
    limit: spec_fn(B, Level) -> Result<B, Refusal>,
    resample: spec_fn(B, u32, ResampleQuality) -> Result<B, Refusal>,
) -> (B, Result<ProcessedView, Seq<char>>) {
    match analyze(b) {
        Err(e) => (b, Err(e@)),
        Ok(source) => {
            let (b1, levels) = levelled(b, t, source.true_peak_dbtp, lufs, peak, amplify, limit);
            match levels {
                Err(e) => (b1, Err(e@)),
                Ok((reduction, w1)) => {
                    let (b2, rates) = rated(b1, source_rate, t, peak, limit, resample);
                    match rates {
                        Err(e) => (b2, Err(e@)),
                        Ok(w2) => {
                            let (b3, caps) = capped(b2, t, peak, amplify, limit);
                            match caps {
                                Err(e) => (b3, Err(e@)),
                                Ok(w3) => (
                                    b3,
                                    concluded(
                                        b3,
                                        source_rate,
                                        input,
                                        t,
                                        source,
                                        reduction,
                                        w1 + w2 + w3,
                                        analyze,
                                    ),
                                ),
                            }
                        },
                    }
                },
            }
        },
    }
}

/// What is known of the delivered signal `b`.
pub open spec fn concluded<B>(
    b: B,
    source_rate: u32,
    input: Seq<char>,
    t: ResolvedTargetView,
    source: LoudnessAnalysis,
    reduction: Option<Level>,
    warnings: Seq<Seq<char>>,
    analyze: spec_fn(B) -> Result<LoudnessAnalysis, Refusal>,
) -> Result<ProcessedView, Seq<char>> {
    let out_rate = t.delivery_rate(source_rate);
    match analyze(b) {
        Err(e) => Err(e@),
        Ok(delivered) => match guarded_output(t, input, out_rate) {
            Err(m) => Err(m),
            Ok(output) => Ok(
                ProcessedView {
                    in_rate: source_rate,
                    out_rate,
                    source,
                    delivered,
                    limiter_gain_reduction_db: reduction,
                    output,
                    warnings,
                },
            ),
        },
    }
}

/// Meter the delivered signal and find out where it goes.
fn conclude<B, M: Fn(&B) -> Result<LoudnessAnalysis, Refusal>>(
    buffer: &B,
    source_rate: u32,
    input: &str,
    target: &ResolvedTarget,
    source: LoudnessAnalysis,
    reduction: Option<Level>,
    warnings: Vec<String>,
    analyze: &M,
) -> (r: Result<Processed, Refusal>)
    requires
        accepts_ref(*analyze),
    ensures
        forall|n: spec_fn(B) -> Result<LoudnessAnalysis, Refusal>|
            reads(*analyze, n) ==> #[trigger] concluded(
                *buffer,
                source_rate,
                input@,
                target@,
                source,
                reduction,
                views(warnings@),
                n,
            ) == (match r {
                Ok(p) => Ok::<ProcessedView, Seq<char>>(p@),
                Err(e) => Err::<ProcessedView, Seq<char>>(e@),
            }),
{
    let out_rate = target.out_rate(source_rate);
    match analyze(buffer) {
        Err(e) => Err(e),
        Ok(delivered) => match output_for(target, input, out_rate) {
            Err(e) => Err(e),
            Ok(output) => Ok(
                Processed {
                    in_rate: source_rate,
                    out_rate,
                    source,
                    delivered,
                    limiter_gain_reduction_db: reduction,
                    output,
                    warnings,
                },
            ),
        },
    }
}

/// Process the audio of one input for one target, up to quantization.
pub fn process<
    B,
    N: Fn(&B) -> Result<LoudnessAnalysis, Refusal>,
    L: Fn(&B) -> Result<Level, Refusal>,
    P: Fn(&B) -> Result<Level, Refusal>,
    A: Fn(&B, Level) -> B,
    T: Fn(&B, Level) -> Result<B, Refusal>,
    R: Fn(&B, u32, ResampleQuality) -> Result<B, Refusal>,
>(
    buffer: &mut B,
    source_rate: u32,
    input: &str,
    target: &ResolvedTarget,
    analyze: &N,
    lufs: &L,
    peak: &P,
    amplify: &A,
    limit: &T,
    resample: &R,
) -> (r: Result<Processed, Refusal>)
    requires
        accepts_ref(*analyze),
        accepts_ref(*lufs),
        accepts_ref(*peak),
        accepts_ref_with(*amplify),
        accepts_ref_with(*limit),
        forall|b: &B, rate: u32, q: ResampleQuality| #[trigger] resample.requires((b, rate, q)),
    ensures
        forall|
            n: spec_fn(B) -> Result<LoudnessAnalysis, Refusal>,
            m: spec_fn(B) -> Result<Level, Refusal>,
            p: spec_fn(B) -> Result<Level, Refusal>,
            a: spec_fn(B, Level) -> B,
            l: spec_fn(B, Level) -> Result<B, Refusal>,
            s: spec_fn(B, u32, ResampleQuality) -> Result<B, Refusal>,
        |
            reads(*analyze, n) && reads(*lufs, m) && reads(*peak, p) && reads_with(*amplify, a)
                && reads_with(*limit, l) && resamples(*resample, s) ==> {
                let spec = #[trigger] processed(
                    *old(buffer),
                    source_rate,
                    input@,
                    target@,
                    n,
                    m,
                    p,
                    a,
                    l,
                    s,
                );
                &&& *final(buffer) == spec.0
                &&& match r {
                    Ok(d) => spec.1 == Ok::<ProcessedView, Seq<char>>(d@),
                    Err(e) => spec.1 == Err::<ProcessedView, Seq<char>>(e@),
                }
            },
{
    let source = match analyze(&*buffer) {
        Err(e) => {
            return Err(e);
        },
        Ok(source) => source,
    };
    let (reduction, mut warnings) = match level(
        buffer,
        target,
        source.true_peak_dbtp,
        lufs,
        peak,
        amplify,
        limit,
    ) {
        Err(e) => {
            return Err(e);
        },
        Ok(done) => done,
    };
    let ghost w1 = views(warnings@);
    let mut more = match bring_to_rate(buffer, source_rate, target, peak, limit, resample) {
        Err(e) => {
            return Err(e);
        },
        Ok(more) => more,
    };
    let ghost w2 = views(more@);
    warnings.append(&mut more);
    assert(views(warnings@) =~= w1 + w2);
    let mut last = match cap(buffer, target, peak, amplify, limit) {
        Err(e) => {
            return Err(e);
        },
        Ok(last) => last,
    };
    let ghost w3 = views(last@);
    warnings.append(&mut last);
    assert(views(warnings@) =~= w1 + w2 + w3);
    conclude(&*buffer, source_rate, input, target, source, reduction, warnings, analyze)
}

// ---------------------------------------------------------------------------
// Quantization and the report.
// ---------------------------------------------------------------------------

/// The target is written as PCM and loses precision on the way. MP3 is lossy: its encoder
/// quantizes by itself and is given the full-precision signal.
pub open spec fn is_quantized(t: ResolvedTargetView) -> bool {
    t.codec != OutputCodec::Mp3 && reduces(OutputSampleFormat::F32, t.format)
}

/// The report of a task that was written.
pub open spec fn finished(p: ProcessedView, input: Seq<char>, t: ResolvedTargetView) -> ReportView {
    let pcm = t.codec != OutputCodec::Mp3;
    ReportView {
        target: t.name,
        input,
        output: p.output,
        in_rate: p.in_rate,
        out_rate: p.out_rate,
        source: p.source,
        delivered: p.delivered,
        limiter_gain_reduction_db: p.limiter_gain_reduction_db,
        dithered: is_quantized(t),
        shaped: is_quantized(t) && (t.dither.shapes_at(t.format) || uses_mbit_plus(
            t.dither,
            t.format,
        )),
        shaping_curve: if pcm {
            shaping_label(OutputSampleFormat::F32, t.format, t.dither)
        } else {
            None
        },
        codec: t.codec.extension(),
        bwf: t.bwf && t.codec == OutputCodec::Wav,
        format: if pcm {
            format_label(t.format)
        } else {
            digits(t.mp3_bitrate as nat) + " kbps"@
        },
        warnings: p.warnings,
    }
}

/// Quantize the processed audio, once and with dither, unless the target is an MP3, and report
/// what was done.
pub fn finish<
    S: Copy,
    V: Fn(S) -> Level,
    A: Fn(S, &Vec<i32>, &Vec<S>, i32) -> S,
    N: Fn(S, i64) -> Level,
    M: Fn(i32, S) -> S,
    F: Fn(S, i64, i32) -> Level,
    C: Fn(i32, i32) -> S,
>(
    buffer: &mut AudioBuffer<S>,
    done: Processed,
    input: &str,
    target: &ResolvedTarget,
    seed: Option<u64>,
    zero: S,
    value: &V,
    aim: &A,
    noisy: &N,
    miss: &M,
    flat: &F,
    code: &C,
) -> (r: Result<ProcessingReport, Refusal>)
    requires
        old(buffer).well_formed(),
        accepts1(*value),
        aim_accepts(*aim),
        accepts2(*noisy),
        accepts2(*miss),
        accepts3(*flat),
        accepts2(*code),
    ensures
        r is Err <==> is_quantized(target@) && target.dither == DitherMode::Off,
        r matches Err(e) ==> e@
            == "bit-depth reduction without dither (dither = \"none\") is not allowed"@
            && *final(buffer) == *old(buffer),
        r matches Ok(report) ==> report@ == finished(done@, input@, target@),
        r is Ok ==> final(buffer).well_formed() && final(buffer).frames() == old(buffer).frames()
            && final(buffer).channels@.len() == old(buffer).channels@.len()
            && final(buffer).sample_rate == old(buffer).sample_rate,
        r is Ok && target.codec == OutputCodec::Mp3 ==> *final(buffer) == *old(buffer),
        r is Ok && target.codec != OutputCodec::Mp3 ==> final(buffer).out_format == target.format,
        r is Ok && !is_quantized(target@) ==> final(buffer).channels == old(buffer).channels,
        r is Ok && is_quantized(target@) ==> well_quantized(
            *old(buffer),
            *final(buffer),
            target.format,
            target.dither,
            target.dither_strength,
            target.dither_correlation,
            seed,
            zero,
            *value,
            *aim,
            *noisy,
            *miss,
            *flat,
            *code,
        ),
{
    let mut dithered = false;
    let mut shaped = false;
    let mut shaping_curve: Option<&'static str> = None;
    let format: String;
    if target.codec == OutputCodec::Mp3 {
        let mut m = text::number(target.mp3_bitrate as u64);
        m.append(" kbps");
        format = m;
    } else {
        let mut current = OutputSampleFormat::F32;
        match bitdepth::apply(
            buffer,
            &mut current,
            target.format,
            Some(target.dither),
            Some(target.dither_strength),
            Some(target.dither_correlation),
            seed,
            zero,
            value,
            aim,
            noisy,
            miss,
            flat,
            code,
        ) {
            Err(e) => {
                return Err(e);
            },
            Ok(done) => {
                dithered = done.dithered;
                shaped = done.shaped;
                shaping_curve = done.shaping_tag;
            },
        }
        format = String::from_str(format_tag(target.format));
    }
    let report = ProcessingReport {
        target: String::from_str(target.name.as_str()),
        input: String::from_str(input),
        output: done.output,
        in_rate: done.in_rate,
        out_rate: done.out_rate,
        source: done.source,
        delivered: done.delivered,
        limiter_gain_reduction_db: done.limiter_gain_reduction_db,
        dithered,
        shaped,
        shaping_curve,
        codec: String::from_str(target.codec.ext()),
        bwf: target.bwf && target.codec == OutputCodec::Wav,
        format,
        warnings: done.warnings,
    };
    assert(report@ =~= finished(done@, input@, target@));
    Ok(report)
}

/// The Broadcast WAV metadata of a delivered signal, when the target asks for it.
pub fn bext_for(
    target: &ResolvedTarget,
    delivered: &LoudnessAnalysis,
    sample_rate: u32,
    channels: usize,
) -> (r: Option<BextMetadata>)
    ensures
        r is Some <==> target.bwf && target.codec == OutputCodec::Wav,
        r matches Some(b) ==> {
            &&& b.description@ == "EBU R128 master (mint)"@
            &&& b.integrated_lufs == delivered.integrated_lufs
            &&& b.loudness_range_lu == delivered.loudness_range_lu
            &&& b.max_true_peak_dbtp == delivered.true_peak_dbtp
            &&& b.max_momentary_lufs == delivered.max_momentary_lufs
            &&& b.max_short_term_lufs == delivered.max_short_term_lufs
            &&& b.sample_rate == sample_rate
            &&& b.channels == channels
            &&& b.bits == target.format.bits()
        },
{
    if !(target.bwf && target.codec == OutputCodec::Wav) {
        return None;
    }
    Some(
        BextMetadata {
            description: String::from_str("EBU R128 master (mint)"),
            integrated_lufs: delivered.integrated_lufs,
            loudness_range_lu: delivered.loudness_range_lu,
            max_true_peak_dbtp: delivered.true_peak_dbtp,
            max_momentary_lufs: delivered.max_momentary_lufs,
            max_short_term_lufs: delivered.max_short_term_lufs,
            sample_rate,
            channels,
            bits: target.format.bits_per_sample(),
        },
    )
}

// ---------------------------------------------------------------------------
// Laws.
// ---------------------------------------------------------------------------

/// The input is never replaced unless the target allows it.
pub proof fn law_input_is_not_overwritten<B>(
    b: B,
    source_rate: u32,
    input: Seq<char>,
    t: ResolvedTargetView,
    analyze: spec_fn(B) -> Result<LoudnessAnalysis, Refusal>,
    lufs: spec_fn(B) -> Result<Level, Refusal>,
    peak: spec_fn(B) -> Result<Level, Refusal>,
    amplify: spec_fn(B, Level) -> B,
    limit: spec_fn(B, Level) -> Result<B, Refusal>,
    resample: spec_fn(B, u32, ResampleQuality) -> Result<B, Refusal>,
)
    requires
        !t.overwrite,
    ensures
        processed(b, source_rate, input, t, analyze, lufs, peak, amplify, limit, resample).1 matches Ok(
            p,
        ) ==> !same_path(p.output, input),
{
}

/// Only the needed steps run: without a loudness goal, at the source rate and below the
/// ceiling, the audio is passed on untouched and without a warning.
pub proof fn law_clean_transcode_is_transparent<B>(
    b: B,
    source_rate: u32,
    input: Seq<char>,
    t: ResolvedTargetView,
    analyze: spec_fn(B) -> Result<LoudnessAnalysis, Refusal>,
    lufs: spec_fn(B) -> Result<Level, Refusal>,
    peak: spec_fn(B) -> Result<Level, Refusal>,
    amplify: spec_fn(B, Level) -> B,
    limit: spec_fn(B, Level) -> Result<B, Refusal>,
    resample: spec_fn(B, u32, ResampleQuality) -> Result<B, Refusal>,
)
    requires
        t.lufs is None,
        t.delivery_rate(source_rate) == source_rate,
        peak(b) matches Ok(tp) && tp.at_most(t.ceiling_dbtp),
    ensures
        ({
            let done = processed(
                b,
                source_rate,
                input,
                t,
                analyze,
                lufs,
                peak,
                amplify,
                limit,
                resample,
            );
            &&& done.0 == b
            &&& done.1 matches Ok(p) ==> p.warnings.len() == 0 && p.limiter_gain_reduction_db is None
                && p.source == p.delivered
        }),
{
}

/// A loudness goal is met or the miss is reported: after the loudness step the meter reads the
/// goal to within 0.1 LU, or the last warning says how far off it is. Limiting that took more
/// off the peak than the target's threshold is reported, too.
pub proof fn law_loudness_goal_is_met_or_reported<B>(
    b: B,
    t: ResolvedTargetView,
    source_peak: Level,
    lufs: spec_fn(B) -> Result<Level, Refusal>,
    peak: spec_fn(B) -> Result<Level, Refusal>,
    amplify: spec_fn(B, Level) -> B,
    limit: spec_fn(B, Level) -> Result<B, Refusal>,
)
    requires
        t.lufs is Some,
    ensures
        ({
            let goal = t.lufs->0;
            let (after, done) = levelled(b, t, source_peak, lufs, peak, amplify, limit);
            done matches Ok((reduction, warnings)) ==> {
                &&& lufs(after) matches Ok(actual) && (!(Level { bits: LOUDNESS_TOLERANCE_LU }).below(
                    actual.difference(goal).absolute(),
                ) || (warnings.len() > 0 && warnings.last() == goal_missed(goal, actual)))
                &&& reduction matches Some(db) ==> t.warn_limiting_db.below(db)
                    ==> warnings.contains(heavy_limiting(db, goal, t.ceiling_dbtp, source_peak))
            }
        }),
{
    let goal = t.lufs->0;
    let (after, done) = normalized(
        b,
        goal,
        t.ceiling_dbtp,
        t.on_clip,
        lufs,
        peak,
        amplify,
        limit,
    );
    if let Ok(v) = done {
        let w = level_warnings(v, goal, t, source_peak);
        if reported_reduction(v) is Some && t.warn_limiting_db.below(v.limiter_gain_reduction_db) {
            assert(w[v.warnings.len() as int] == heavy_limiting(
                v.limiter_gain_reduction_db,
                goal,
                t.ceiling_dbtp,
                source_peak,
            ));
        }
    }
}

/// The meter finds `b` at or below the ceiling, to within the tolerance.
pub open spec fn holds_ceiling<B>(
    b: B,
    ceiling: Level,
    peak: spec_fn(B) -> Result<Level, Refusal>,
) -> bool {
    peak(b) matches Ok(tp) && within_tolerance(tp, ceiling)
}

/// A peak that a meter can be expected to tell: at most 512 dBTP in absolute value.
pub open spec fn in_reach(l: Level) -> bool {
    l.finite() && l.abs_units() <= pow2(1083)
}

/// `tp` is the peak of silence.
pub open spec fn is_silence(tp: Level) -> bool {
    tp == Level { bits: SILENCE }
}

/// The meter can be asked for `b` before and after this gain: `b` is silent, or its peak and
/// the peak that the gain moves it to are in reach.
pub open spec fn predictable<B>(b: B, gain: Level, peak: spec_fn(B) -> Result<Level, Refusal>) -> bool {
    peak(b) matches Ok(tp) ==> is_silence(tp) || (in_reach(tp) && in_reach(tp.sum(gain)))
}

/// The meter follows a gain: after a gain it does not read more than the slack above the peak
/// that the gain should lead to, as far as peaks are in reach. Silence is not made audible.
pub open spec fn follows_gain<B>(
    peak: spec_fn(B) -> Result<Level, Refusal>,
    amplify: spec_fn(B, Level) -> B,
) -> bool {
    forall|b: B, gain: Level|
        peak(b) is Ok && predictable(b, gain, peak) ==> {
            let tp = peak(b)->Ok_0;
            peak(#[trigger] amplify(b, gain)) matches Ok(x) && if is_silence(tp) {
                x == tp || x.nan()
            } else {
                !slack().below(x.difference(tp.sum(gain)))
            }
        }
}

/// The loudness step goes by a prediction that the meter can be asked for, where it goes by a
/// prediction: not where the limiter is run or a warning is all that is wanted.
pub open spec fn levels_predictably<B>(
    b: B,
    t: ResolvedTargetView,
    lufs: spec_fn(B) -> Result<Level, Refusal>,
    peak: spec_fn(B) -> Result<Level, Refusal>,
) -> bool {
    lufs(b) is Ok && peak(b) is Ok ==> {
        let tp = peak(b)->Ok_0;
        let gain = t.lufs->0.difference(lufs(b)->Ok_0);
        let predicted = tp.sum(gain);
        (t.ceiling_dbtp.below(predicted) && t.on_clip != OnClipPolicy::ReduceGain) || predictable(
            b,
            loudness::gain_choice(t.on_clip, gain, tp, predicted, t.ceiling_dbtp).0,
            peak,
        )
    }
}

/// The gain that is taken off to meet the ceiling leads to a peak that the meter can be asked
/// for.
pub open spec fn caps_predictably<B>(
    b: B,
    t: ResolvedTargetView,
    peak: spec_fn(B) -> Result<Level, Refusal>,
) -> bool {
    peak(b) matches Ok(tp) ==> tp.at_most(t.ceiling_dbtp) || predictable(
        b,
        t.ceiling_dbtp.difference(tp),
        peak,
    )
}

/// The warning says that the limiter could not bring the peak down.
pub open spec fn says_still_above(warning: Seq<char>) -> bool {
    exists|tp: Level, passes: int| starts_with(warning, #[trigger] loudness::still_above(tp, passes))
}

/// Some warning says that the limiter could not bring the peak down.
pub open spec fn reports_overshoot(warnings: Seq<Seq<char>>) -> bool {
    exists|i: int| 0 <= i < warnings.len() && says_still_above(#[trigger] warnings[i])
}

/// What becomes of the ceiling is settled: it is held, or the warnings tell that it is not. A
/// target that only asks for a warning gets one; any other is told when the limiter failed.
pub open spec fn settled<B>(
    b: B,
    warnings: Seq<Seq<char>>,
    t: ResolvedTargetView,
    peak: spec_fn(B) -> Result<Level, Refusal>,
) -> bool {
    holds_ceiling(b, t.ceiling_dbtp, peak) || (if t.on_clip == OnClipPolicy::Warn {
        warnings.len() > 0
    } else {
        reports_overshoot(warnings)
    })
}

/// The configured ceiling is always enforced. Whatever steps a target needs, the delivered
/// signal is, by the meter and to within the tolerance, at or below the ceiling, or the limiter
/// was used up and a warning says so; only a target that asks for a warning instead may be
/// delivered above the ceiling, with a warning.
///
/// Where a step goes by the peak that it predicts from a gain, the meter has to follow the
/// gain to within the slack, for peaks that are in its reach; where the gain is reduced, the
/// ceiling must not be so low that decibels can no longer be told apart.
pub proof fn law_delivered_signal_holds_the_ceiling<B>(
    b: B,
    source_rate: u32,
    input: Seq<char>,
    t: ResolvedTargetView,
    analyze: spec_fn(B) -> Result<LoudnessAnalysis, Refusal>,
    lufs: spec_fn(B) -> Result<Level, Refusal>,
    peak: spec_fn(B) -> Result<Level, Refusal>,
    amplify: spec_fn(B, Level) -> B,
    limit: spec_fn(B, Level) -> Result<B, Refusal>,
    resample: spec_fn(B, u32, ResampleQuality) -> Result<B, Refusal>,
)
    requires
        t.lufs is Some && t.delivery_rate(source_rate) == source_rate ==> follows_gain(peak, amplify)
            && levels_predictably(b, t, lufs, peak),
        t.lufs is None && t.on_clip == OnClipPolicy::ReduceGain ==> follows_gain(peak, amplify)
            && caps_predictably(rated(b, source_rate, t, peak, limit, resample).0, t, peak),
        t.on_clip == OnClipPolicy::ReduceGain ==> moderate(t.ceiling_dbtp),
    ensures
        ({
            let done = processed(
                b,
                source_rate,
                input,
                t,
                analyze,
                lufs,
                peak,
                amplify,
                limit,
                resample,
            );
            done.1 matches Ok(p) ==> settled(done.0, p.warnings, t, peak)
        }),
{
    let done = processed(b, source_rate, input, t, analyze, lufs, peak, amplify, limit, resample);
    if let Ok(p) = done.1 {
        let source = analyze(b)->Ok_0;
        let (b1, levels) = levelled(b, t, source.true_peak_dbtp, lufs, peak, amplify, limit);
        let (b2, rates) = rated(b1, source_rate, t, peak, limit, resample);
        let (b3, caps) = capped(b2, t, peak, amplify, limit);
        let w1 = levels->Ok_0.1;
        let w2 = rates->Ok_0;
        let w3 = caps->Ok_0;
        assert(p.warnings == w1 + w2 + w3);
        if t.lufs is None {
            lemma_capping_settles(b2, t, peak, amplify, limit);
            if settled(b3, w3, t, peak) {
                lemma_settled_among(b3, w1 + w2, w3, Seq::empty(), t, peak);
                assert(w1 + w2 + w3 + Seq::empty() =~= w1 + w2 + w3);
            }
        } else if t.delivery_rate(source_rate) != source_rate {
            let from = resample(b1, t.delivery_rate(source_rate), t.quality)->Ok_0;
            assert((b2, rates) == rechecked(from, t.ceiling_dbtp, peak, limit));
            if !(peak(from)->Ok_0.at_most(t.ceiling_dbtp)) {
                lemma_relimiting_settles(
                    from,
                    t,
                    " dBTP after SRC; limiter re-applied"@,
                    peak,
                    limit,
                );
            }
            lemma_settled_among(b2, w1, w2, w3, t, peak);
        } else {
            lemma_normalizing_settles(b, t, lufs, peak, amplify, limit);
            let (b4, report) = normalized(
                b,
                t.lufs->0,
                t.ceiling_dbtp,
                t.on_clip,
                lufs,
                peak,
                amplify,
                limit,
            );
            let first = report->Ok_0.warnings;
            let more = w1.skip(first.len() as int);
            assert(w1 =~= first + more);
            lemma_settled_among(b4, Seq::empty(), first, more, t, peak);
            assert(Seq::empty() + first + more =~= w1);
            assert(w1 + w2 + w3 =~= w1);
        }
    }
}

/// The full metering and the peak meter agree on the peak of a signal.
pub open spec fn meters_agree<B>(
    analyze: spec_fn(B) -> Result<LoudnessAnalysis, Refusal>,
    peak: spec_fn(B) -> Result<Level, Refusal>,
) -> bool {
    forall|b: B| (#[trigger] analyze(b)) matches Ok(a) ==> peak(b) == Ok::<Level, Refusal>(
        a.true_peak_dbtp,
    )
}

/// The reported peak holds the ceiling. Where the full metering and the peak meter agree, the
/// peak that a report gives for the delivered signal is at or below the ceiling, to within the
/// tolerance, or the warnings of the report tell that it is not: that the limiter was used up,
/// or, for a target that asks for a warning instead, any warning.
pub proof fn law_reported_peak_holds_the_ceiling<B>(
    b: B,
    source_rate: u32,
    input: Seq<char>,
    t: ResolvedTargetView,
    analyze: spec_fn(B) -> Result<LoudnessAnalysis, Refusal>,
    lufs: spec_fn(B) -> Result<Level, Refusal>,
    peak: spec_fn(B) -> Result<Level, Refusal>,
    amplify: spec_fn(B, Level) -> B,
    limit: spec_fn(B, Level) -> Result<B, Refusal>,
    resample: spec_fn(B, u32, ResampleQuality) -> Result<B, Refusal>,
)
    requires
        meters_agree(analyze, peak),
        t.lufs is Some && t.delivery_rate(source_rate) == source_rate ==> follows_gain(peak, amplify)
            && levels_predictably(b, t, lufs, peak),
        t.lufs is None && t.on_clip == OnClipPolicy::ReduceGain ==> follows_gain(peak, amplify)
            && caps_predictably(rated(b, source_rate, t, peak, limit, resample).0, t, peak),
        t.on_clip == OnClipPolicy::ReduceGain ==> moderate(t.ceiling_dbtp),
    ensures
        ({
            let done = processed(
                b,
                source_rate,
                input,
                t,
                analyze,
                lufs,
                peak,
                amplify,
                limit,
                resample,
            );
            done.1 matches Ok(p) ==> {
                let report = finished(p, input, t);
                within_tolerance(report.delivered.true_peak_dbtp, t.ceiling_dbtp) || (if t.on_clip
                    == OnClipPolicy::Warn {
                    report.warnings.len() > 0
                } else {
                    reports_overshoot(report.warnings)
                })
            }
        }),
{
    law_delivered_signal_holds_the_ceiling(
        b,
        source_rate,
        input,
        t,
        analyze,
        lufs,
        peak,
        amplify,
        limit,
        resample,
    );
    let done = processed(b, source_rate, input, t, analyze, lufs, peak, amplify, limit, resample);
    if let Ok(p) = done.1 {
        assert(analyze(done.0) == Ok::<LoudnessAnalysis, Refusal>(p.delivered));
    }
}

/// Warnings before and after do not unsettle the ceiling.
proof fn lemma_settled_among<B>(
    b: B,
    before: Seq<Seq<char>>,
    warnings: Seq<Seq<char>>,
    after: Seq<Seq<char>>,
    t: ResolvedTargetView,
    peak: spec_fn(B) -> Result<Level, Refusal>,
)
    requires
        settled(b, warnings, t, peak),
    ensures
        settled(b, before + warnings + after, t, peak),
{
    if reports_overshoot(warnings) {
        let i = choose|i: int| 0 <= i < warnings.len() && says_still_above(#[trigger] warnings[i]);
        assert((before + warnings + after)[before.len() + i] == warnings[i]);
    }
}

/// Limiting down to the ceiling holds it or tells that it could not.
proof fn lemma_limiting_settles<B>(
    b: B,
    ceiling: Level,
    peak: spec_fn(B) -> Result<Level, Refusal>,
    limit: spec_fn(B, Level) -> Result<B, Refusal>,
)
    ensures
        ({
            let (held, outcome) = loudness::verified_limit(b, ceiling, ceiling, 1, limit, peak);
            outcome matches Ok((tp, passes)) ==> holds_ceiling(held, ceiling, peak)
                || tolerance().below(tp.difference(ceiling))
        }),
{
    loudness::law_limiting_ends_at_the_ceiling(b, ceiling, ceiling, 1, limit, peak);
}

proof fn lemma_relimiting_settles<B>(
    b: B,
    t: ResolvedTargetView,
    how: Seq<char>,
    peak: spec_fn(B) -> Result<Level, Refusal>,
    limit: spec_fn(B, Level) -> Result<B, Refusal>,
)
    ensures
        peak(b) matches Ok(tp) ==> {
            let done = loudness::relimited(b, tp, t.ceiling_dbtp, how, peak, limit);
            done.1 matches Ok(w) ==> w.len() > 0 && (holds_ceiling(done.0, t.ceiling_dbtp, peak)
                || reports_overshoot(w))
        },
{
    lemma_limiting_settles(b, t.ceiling_dbtp, peak, limit);
    if let Ok(tp) = peak(b) {
        let done = loudness::relimited(b, tp, t.ceiling_dbtp, how, peak, limit);
        if let Ok(w) = done.1 {
            let (held, outcome) = loudness::verified_limit(
                b,
                t.ceiling_dbtp,
                t.ceiling_dbtp,
                1,
                limit,
                peak,
            );
            let (last, passes) = outcome->Ok_0;
            if tolerance().below(last.difference(t.ceiling_dbtp)) {
                let text = loudness::still_above(last, passes);
                assert(w[1] == text);
                assert(text.take(text.len() as int) =~= text);
                assert(says_still_above(w[1]));
            }
        }
    }
}

proof fn lemma_capping_settles<B>(
    b: B,
    t: ResolvedTargetView,
    peak: spec_fn(B) -> Result<Level, Refusal>,
    amplify: spec_fn(B, Level) -> B,
    limit: spec_fn(B, Level) -> Result<B, Refusal>,
)
    requires
        t.lufs is None,
        t.on_clip == OnClipPolicy::ReduceGain ==> follows_gain(peak, amplify) && moderate(
            t.ceiling_dbtp,
        ) && caps_predictably(b, t, peak),
    ensures
        capped(b, t, peak, amplify, limit).1 matches Ok(w) ==> settled(
            capped(b, t, peak, amplify, limit).0,
            w,
            t,
            peak,
        ),
{
    if let Ok(tp) = peak(b) {
        if !tp.at_most(t.ceiling_dbtp) {
            if t.on_clip == OnClipPolicy::Limit {
                lemma_relimiting_settles(b, t, " dBTP; limiter applied"@, peak, limit);
            } else if t.on_clip == OnClipPolicy::ReduceGain {
                let quieter = amplify(b, t.ceiling_dbtp.difference(tp));
                assert(peak(quieter) is Ok);
                if !is_silence(tp) {
                    lemma_in_reach_is_moderate(tp);
                    law_reduced_gain_meets_the_ceiling(tp, tp, t.ceiling_dbtp);
                }
            }
        }
    }
}

proof fn lemma_normalizing_settles<B>(
    b: B,
    t: ResolvedTargetView,
    lufs: spec_fn(B) -> Result<Level, Refusal>,
    peak: spec_fn(B) -> Result<Level, Refusal>,
    amplify: spec_fn(B, Level) -> B,
    limit: spec_fn(B, Level) -> Result<B, Refusal>,
)
    requires
        t.lufs is Some,
        follows_gain(peak, amplify),
        levels_predictably(b, t, lufs, peak),
        t.on_clip == OnClipPolicy::ReduceGain ==> moderate(t.ceiling_dbtp),
    ensures
        ({
            let done = normalized(
                b,
                t.lufs->0,
                t.ceiling_dbtp,
                t.on_clip,
                lufs,
                peak,
                amplify,
                limit,
            );
            done.1 matches Ok(v) ==> settled(done.0, v.warnings, t, peak)
        }),
{
    let done = normalized(b, t.lufs->0, t.ceiling_dbtp, t.on_clip, lufs, peak, amplify, limit);
    if let Ok(v) = done.1 {
        let tp = peak(b)->Ok_0;
        let gain = t.lufs->0.difference(lufs(b)->Ok_0);
        let predicted = tp.sum(gain);
        let applied = loudness::gain_choice(t.on_clip, gain, tp, predicted, t.ceiling_dbtp).0;
        let louder = amplify(b, applied);
        let x = peak(louder)->Ok_0;
        if t.ceiling_dbtp.below(predicted) {
            if t.on_clip == OnClipPolicy::Limit {
                lemma_limiting_settles(louder, t.ceiling_dbtp, peak, limit);
                let (held, outcome) = loudness::verified_limit(
                    louder,
                    t.ceiling_dbtp,
                    t.ceiling_dbtp,
                    1,
                    limit,
                    peak,
                );
                let (last, passes) = outcome->Ok_0;
                if tolerance().below(last.difference(t.ceiling_dbtp)) {
                    let text = loudness::still_above(last, passes);
                    assert(v.warnings.last().take(text.len() as int) =~= text);
                    assert(says_still_above(v.warnings[v.warnings.len() - 1]));
                }
            } else if t.on_clip == OnClipPolicy::ReduceGain {
                assert(predictable(b, applied, peak));
                if !is_silence(tp) {
                    lemma_in_reach_is_moderate(tp);
                    law_reduced_gain_meets_the_ceiling(tp, gain, t.ceiling_dbtp);
                }
            }
        } else {
            assert(predictable(b, applied, peak));
            if !is_silence(tp) {
                law_predicted_peaks_are_met(x, predicted, t.ceiling_dbtp);
            }
        }
    }
}

proof fn lemma_in_reach_is_moderate(l: Level)
    requires
        in_reach(l),
    ensures
        moderate(l),
{
    lemma_pow2_strictly_increases(1083, 1094);
}

/// `after` is `before`, or what a limiter run to the ceiling makes of it.
pub open spec fn at_most_limited<B>(
    before: B,
    after: B,
    ceiling: Level,
    limit: spec_fn(B, Level) -> Result<B, Refusal>,
    peak: spec_fn(B) -> Result<Level, Refusal>,
) -> bool {
    after == before || exists|runs: Seq<B>, aims: Seq<Level>| #[trigger]
        loudness::limiter_run(before, after, ceiling, runs, aims, limit, peak)
}

/// The delivered audio comes from the input by the needed steps, in their order. `level` and
/// `rate` are the audio after the loudness step and after the rate step.
///
/// - With a loudness goal, the audio is amplified by what it lacks to the goal, or less when the
///   gain is reduced, and limited at most. Without one it is left alone.
/// - At another rate than the source's it is converted to that rate, in the quality of the
///   target, and limited at most. At the source rate it is left alone.
/// - Without a loudness goal, peaks above the ceiling are treated as the policy says. With one
///   the ceiling was seen to before.
///
/// Limiting is down to the ceiling of the target. The source is metered first and the delivered
/// audio last.
pub proof fn law_only_the_needed_steps_make_the_audio<B>(
    b: B,
    source_rate: u32,
    input: Seq<char>,
    t: ResolvedTargetView,
    analyze: spec_fn(B) -> Result<LoudnessAnalysis, Refusal>,
    lufs: spec_fn(B) -> Result<Level, Refusal>,
    peak: spec_fn(B) -> Result<Level, Refusal>,
    amplify: spec_fn(B, Level) -> B,
    limit: spec_fn(B, Level) -> Result<B, Refusal>,
    resample: spec_fn(B, u32, ResampleQuality) -> Result<B, Refusal>,
) -> (stages: (B, B))
    requires
        processed(b, source_rate, input, t, analyze, lufs, peak, amplify, limit, resample).1 is Ok,
    ensures
        ({
            let (level, rate) = stages;
            let (after, done) = processed(b, source_rate, input, t, analyze, lufs, peak, amplify, limit, resample);
            let p = done->Ok_0;
            let out_rate = match t.rate {
                Some(r) => r,
                None => source_rate,
            };
            &&& match t.lufs {
                None => level == b,
                Some(goal) => lufs(b) is Ok && ({
                    let wanted = goal.difference(lufs(b)->Ok_0);
                    let full = amplify(b, wanted);
                    match t.on_clip {
                        OnClipPolicy::Limit => at_most_limited(full, level, t.ceiling_dbtp, limit, peak),
                        OnClipPolicy::Warn => level == full,
                        OnClipPolicy::ReduceGain => level == full || (peak(b) is Ok && level == amplify(
                            b,
                            t.ceiling_dbtp.difference(peak(b)->Ok_0),
                        )),
                    }
                }),
            }
            &&& out_rate == source_rate ==> rate == level
            &&& out_rate != source_rate ==> resample(level, out_rate, t.quality) is Ok
                && at_most_limited(
                resample(level, out_rate, t.quality)->Ok_0,
                rate,
                t.ceiling_dbtp,
                limit,
                peak,
            )
            &&& t.lufs is Some ==> after == rate
            &&& t.lufs is None ==> match t.on_clip {
                OnClipPolicy::Limit => at_most_limited(rate, after, t.ceiling_dbtp, limit, peak),
                OnClipPolicy::Warn => after == rate,
                OnClipPolicy::ReduceGain => after == rate || (peak(rate) is Ok && after == amplify(
                    rate,
                    t.ceiling_dbtp.difference(peak(rate)->Ok_0),
                )),
            }
            &&& analyze(b) == Ok::<LoudnessAnalysis, Refusal>(p.source)
            &&& analyze(after) == Ok::<LoudnessAnalysis, Refusal>(p.delivered)
            &&& p.in_rate == source_rate
            &&& p.out_rate == out_rate
            &&& t.output_path(input, out_rate) == Some(p.output)
        }),
{
    let source = analyze(b)->Ok_0;
    let (b1, levels) = levelled(b, t, source.true_peak_dbtp, lufs, peak, amplify, limit);
    let (b2, rates) = rated(b1, source_rate, t, peak, limit, resample);
    let (b3, caps) = capped(b2, t, peak, amplify, limit);
    if let Some(goal) = t.lufs {
        loudness::law_reported_gain_is_applied(
            b,
            goal,
            t.ceiling_dbtp,
            t.on_clip,
            lufs,
            peak,
            amplify,
            limit,
        );
    } else {
        loudness::law_policy_decides_the_correction(
            b2,
            t.ceiling_dbtp,
            t.on_clip,
            peak,
            amplify,
            limit,
        );
    }
    let out_rate = t.delivery_rate(source_rate);
    if out_rate != source_rate {
        loudness::law_policy_decides_the_correction(
            resample(b1, out_rate, t.quality)->Ok_0,
            t.ceiling_dbtp,
            t.on_clip,
            peak,
            amplify,
            limit,
        );
    }
    (b1, b2)
}

/// The report tells what was done: quantization with dither happens for the integer formats of
/// WAV and FLAC, shaping at 16 bits in the modes that shape, and the report names the family.
/// Everything else in it is what the processing found or what the target asks for.
pub proof fn law_report_tells_what_was_done(p: ProcessedView, input: Seq<char>, t: ResolvedTargetView)
    ensures
        ({
            let r = finished(p, input, t);
            let integer = t.codec != OutputCodec::Mp3 && t.format != OutputSampleFormat::F32;
            let shapes = integer && t.format == OutputSampleFormat::S16;
            &&& r.dithered == integer
            &&& r.shaped == (shapes && (t.dither == DitherMode::Shaped || t.dither
                == DitherMode::Psychoacoustic || t.dither == DitherMode::MbitPlus))
            &&& r.shaping_curve is Some <==> r.shaped
            &&& shapes && t.dither == DitherMode::Shaped ==> r.shaping_curve == Some("gentle"@)
            &&& shapes && t.dither == DitherMode::Psychoacoustic ==> r.shaping_curve == Some(
                "psychoacoustic"@,
            )
            &&& shapes && t.dither == DitherMode::MbitPlus ==> r.shaping_curve == Some("mbit+"@)
            &&& r.codec == (match t.codec {
                OutputCodec::Wav => "wav"@,
                OutputCodec::Flac => "flac"@,
                OutputCodec::Mp3 => "mp3"@,
            })
            &&& r.bwf <==> t.bwf && t.codec == OutputCodec::Wav
            &&& t.codec != OutputCodec::Mp3 ==> r.format == (match t.format {
                OutputSampleFormat::S16 => "s16"@,
                OutputSampleFormat::S24 => "s24"@,
                OutputSampleFormat::F32 => "f32"@,
            })
            &&& r.target == t.name && r.input == input && r.output == p.output
            &&& r.in_rate == p.in_rate && r.out_rate == p.out_rate
            &&& r.source == p.source && r.delivered == p.delivered
            &&& r.limiter_gain_reduction_db == p.limiter_gain_reduction_db
            &&& r.warnings == p.warnings
        }),
{
}

/// Loudness may miss the goal by 0.1 LU, to within a part in `2^50`, before that is warned
/// about.
pub proof fn law_loudness_tolerance_is_a_tenth()
    ensures
        ({
            let l = Level { bits: LOUDNESS_TOLERANCE_LU };
            l.finite() && pow2(1074) - pow2(1024) <= 10 * l.units() <= pow2(1074) + pow2(1024)
        }),
{
    lemma2_to64();
    lemma2_to64_rest();
    lemma_pow2_pos(1018);
    let tenth = Level { bits: LOUDNESS_TOLERANCE_LU };
    assert(tenth.significand() == 0x19_9999_9999_999A && tenth.exponent() == 1018);
    lemma_pow2_adds(56, 1018);
    lemma_pow2_adds(6, 1018);
    let p = pow2(1018) as int;
    assert(10 * (0x19_9999_9999_999A * p) == 0x100_0000_0000_0004 * p) by (nonlinear_arith);
    assert(0x100_0000_0000_0000 * p <= 0x100_0000_0000_0004 * p <= 0x100_0000_0000_0000 * p + 64 * p)
        by (nonlinear_arith)
        requires
            p > 0,
    ;
}

/// Nothing is warned about without a reason: a loudness step whose result meets the goal, and
/// whose limiter took no more off than the target's threshold, adds no warning of its own. The
/// gain reduction is reported exactly when the limiter was run on a predicted excess.
pub proof fn law_level_warnings_have_a_reason<B>(
    b: B,
    t: ResolvedTargetView,
    source_peak: Level,
    lufs: spec_fn(B) -> Result<Level, Refusal>,
    peak: spec_fn(B) -> Result<Level, Refusal>,
    amplify: spec_fn(B, Level) -> B,
    limit: spec_fn(B, Level) -> Result<B, Refusal>,
)
    requires
        t.lufs is Some,
    ensures
        ({
            let goal = t.lufs->0;
            let (after, done) = levelled(b, t, source_peak, lufs, peak, amplify, limit);
            let step = normalized(
                b,
                goal,
                t.ceiling_dbtp,
                t.on_clip,
                lufs,
                peak,
                amplify,
                limit,
            );
            done matches Ok((reduction, warnings)) ==> {
                let actual = lufs(after)->Ok_0;
                let wanted = goal.difference(lufs(b)->Ok_0);
                let excess = peak(b)->Ok_0.sum(wanted).difference(t.ceiling_dbtp);
                let ran = t.on_clip == OnClipPolicy::Limit && t.ceiling_dbtp.below(
                    peak(b)->Ok_0.sum(wanted),
                );
                &&& step.0 == after && step.1 is Ok
                &&& reduction is Some ==> ran && reduction == Some(excess)
                &&& ran && (Level { bits: 0 }).below(excess) ==> reduction == Some(excess)
                &&& !(Level { bits: LOUDNESS_TOLERANCE_LU }).below(actual.difference(goal).absolute())
                    && (reduction is None || !t.warn_limiting_db.below(reduction->0)) ==> warnings
                    == step.1->Ok_0.warnings
            }
        }),
{
    let goal = t.lufs->0;
    let (after, done) = normalized(
        b,
        goal,
        t.ceiling_dbtp,
        t.on_clip,
        lufs,
        peak,
        amplify,
        limit,
    );
    if let Ok(v) = done {
        let w = level_warnings(v, goal, t, source_peak);
        if w.len() == v.warnings.len() {
            assert(w =~= v.warnings);
        }
    }
}

/// A task that can be done is done: where the meters, the limiter and the converter work and the
/// output has a path, processing succeeds, unless the path is that of the input and the target
/// may not overwrite it. These are the refusals then.
pub proof fn law_tasks_that_can_be_done_are_done<B>(
    b: B,
    source_rate: u32,
    input: Seq<char>,
    t: ResolvedTargetView,
    analyze: spec_fn(B) -> Result<LoudnessAnalysis, Refusal>,
    lufs: spec_fn(B) -> Result<Level, Refusal>,
    peak: spec_fn(B) -> Result<Level, Refusal>,
    amplify: spec_fn(B, Level) -> B,
    limit: spec_fn(B, Level) -> Result<B, Refusal>,
    resample: spec_fn(B, u32, ResampleQuality) -> Result<B, Refusal>,
)
    requires
        forall|x: B| #[trigger] analyze(x) is Ok,
        forall|x: B| #[trigger] lufs(x) is Ok,
        forall|x: B| #[trigger] peak(x) is Ok,
        forall|x: B, l: Level| #[trigger] limit(x, l) is Ok,
        forall|x: B, r: u32, q: ResampleQuality| #[trigger] resample(x, r, q) is Ok,
    ensures
        ({
            let done = processed(
                b,
                source_rate,
                input,
                t,
                analyze,
                lufs,
                peak,
                amplify,
                limit,
                resample,
            ).1;
            let out_rate = match t.rate {
                Some(r) => r,
                None => source_rate,
            };
            match t.output_path(input, out_rate) {
                None => done == Err::<ProcessedView, Seq<char>>("input file has no valid stem"@),
                Some(path) => if same_path(path, input) && !t.overwrite {
                    done == Err::<ProcessedView, Seq<char>>(
                        "refusing to overwrite input file without --force or overwrite=true: "@
                            + input,
                    )
                } else {
                    done is Ok
                },
            }
        }),
{
    assert(analyze(b) is Ok);
    let source = analyze(b)->Ok_0;
    let goal = t.lufs->0;
    law_only_meters_and_limiter_fail(
        b,
        goal,
        t.ceiling_dbtp,
        t.on_clip,
        lufs,
        peak,
        amplify,
        limit,
    );
    let b1 = levelled(b, t, source.true_peak_dbtp, lufs, peak, amplify, limit).0;
    let rate = t.delivery_rate(source_rate);
    assert(resample(b1, rate, t.quality) is Ok);
    law_only_meters_and_limiter_fail(
        resample(b1, rate, t.quality)->Ok_0,
        goal,
        t.ceiling_dbtp,
        t.on_clip,
        lufs,
        peak,
        amplify,
        limit,
    );
    let b2 = rated(b1, source_rate, t, peak, limit, resample).0;
    law_only_meters_and_limiter_fail(
        b2,
        goal,
        t.ceiling_dbtp,
        t.on_clip,
        lufs,
        peak,
        amplify,
        limit,
    );
    let b3 = capped(b2, t, peak, amplify, limit).0;
    assert(analyze(b3) is Ok);
}

/// No warning is lost: the warnings of a task hold those of its loudness step, the one about a
/// peak that the conversion raised above the ceiling, and the one about a peak above the ceiling
/// without a loudness goal.
pub proof fn law_warnings_are_kept<B>(
    b: B,
    source_rate: u32,
    input: Seq<char>,
    t: ResolvedTargetView,
    analyze: spec_fn(B) -> Result<LoudnessAnalysis, Refusal>,
    lufs: spec_fn(B) -> Result<Level, Refusal>,
    peak: spec_fn(B) -> Result<Level, Refusal>,
    amplify: spec_fn(B, Level) -> B,
    limit: spec_fn(B, Level) -> Result<B, Refusal>,
    resample: spec_fn(B, u32, ResampleQuality) -> Result<B, Refusal>,
)
    ensures
        processed(b, source_rate, input, t, analyze, lufs, peak, amplify, limit, resample).1 matches Ok(
            p,
        ) ==> {
            let out_rate = match t.rate {
                Some(r) => r,
                None => source_rate,
            };
            let level = match t.lufs {
                None => b,
                Some(goal) => normalized(
                    b,
                    goal,
                    t.ceiling_dbtp,
                    t.on_clip,
                    lufs,
                    peak,
                    amplify,
                    limit,
                ).0,
            };
            let converted = resample(level, out_rate, t.quality)->Ok_0;
            &&& t.lufs matches Some(goal) ==> {
                let step = normalized(
                    b,
                    goal,
                    t.ceiling_dbtp,
                    t.on_clip,
                    lufs,
                    peak,
                    amplify,
                    limit,
                ).1;
                step is Ok && forall|i: int|
                    0 <= i < step->Ok_0.warnings.len() ==> p.warnings.contains(
                        #[trigger] step->Ok_0.warnings[i],
                    )
            }
            &&& out_rate != source_rate && !peak(converted)->Ok_0.at_most(t.ceiling_dbtp)
                ==> p.warnings.contains(
                "true peak "@ + fixed_text(peak(converted)->Ok_0, 2) + " dBTP exceeded ceiling "@
                    + fixed_text(t.ceiling_dbtp, 2) + " dBTP after SRC; limiter re-applied"@,
            )
            &&& t.lufs is None && out_rate == source_rate && !peak(b)->Ok_0.at_most(t.ceiling_dbtp)
                && t.on_clip == OnClipPolicy::Limit ==> p.warnings.contains(
                "true peak "@ + fixed_text(peak(b)->Ok_0, 2) + " dBTP exceeded ceiling "@
                    + fixed_text(t.ceiling_dbtp, 2) + " dBTP; limiter applied"@,
            )
            &&& t.lufs is None && out_rate == source_rate && !peak(b)->Ok_0.at_most(t.ceiling_dbtp)
                && t.on_clip == OnClipPolicy::Warn ==> p.warnings.contains(
                "true peak "@ + fixed_text(peak(b)->Ok_0, 2) + " dBTP exceeds ceiling "@
                    + fixed_text(t.ceiling_dbtp, 2) + " dBTP; not corrected (on_clip=warn)"@,
            )
        },
{
    let done = processed(b, source_rate, input, t, analyze, lufs, peak, amplify, limit, resample).1;
    if done is Ok {
        let p = done->Ok_0;
        let source = analyze(b)->Ok_0;
        let (b1, levels) = levelled(b, t, source.true_peak_dbtp, lufs, peak, amplify, limit);
        let w1 = levels->Ok_0.1;
        let (b2, rates) = rated(b1, source_rate, t, peak, limit, resample);
        let w2 = rates->Ok_0;
        let (b3, caps) = capped(b2, t, peak, amplify, limit);
        let w3 = caps->Ok_0;
        assert(p.warnings == w1 + w2 + w3);
        assert forall|i: int| 0 <= i < w1.len() implies p.warnings.contains(#[trigger] w1[i]) by {
            assert(p.warnings[i] == w1[i]);
        }
        if w2.len() > 0 {
            assert(p.warnings[w1.len() as int] == w2[0]);
        }
        if w3.len() > 0 {
            assert(p.warnings[(w1.len() + w2.len()) as int] == w3[0]);
        }
        if let Some(goal) = t.lufs {
            let step = normalized(b, goal, t.ceiling_dbtp, t.on_clip, lufs, peak, amplify, limit).1;
            let own = step->Ok_0.warnings;
            assert forall|i: int| 0 <= i < own.len() implies p.warnings.contains(#[trigger] own[i]) by {
                assert(w1[i] == own[i]);
            }
        }
        let rate = t.delivery_rate(source_rate);
        if rate != source_rate {
            let converted = resample(b1, rate, t.quality)->Ok_0;
            if !peak(converted)->Ok_0.at_most(t.ceiling_dbtp) {
                law_warnings_name_the_peak_and_the_ceiling(
                    converted,
                    t.ceiling_dbtp,
                    t.on_clip,
                    peak,
                    amplify,
                    limit,
                );
            }
        } else if t.lufs is None && !peak(b)->Ok_0.at_most(t.ceiling_dbtp) {
            law_warnings_name_the_peak_and_the_ceiling(
                b,
                t.ceiling_dbtp,
                t.on_clip,
                peak,
                amplify,
                limit,
            );
        }
    }
}

/// The warnings about loudness give the figures that they are about: the goal and what was
/// reached to two decimals; what the limiter took off, the goal, the ceiling and the peak of the
/// source to one.
pub proof fn law_loudness_warnings_give_the_figures(
    reduction: Level,
    goal: Level,
    ceiling: Level,
    source_peak: Level,
    actual: Level,
)
    ensures
        goal_missed(goal, actual) == "loudness target not met within +/-0.1 LU (target "@ + fixed_text(
            goal,
            2,
        ) + ", actual "@ + fixed_text(actual, 2) + ")"@,
        heavy_limiting(reduction, goal, ceiling, source_peak) == "heavy limiting: "@ + fixed_text(
            reduction,
            1,
        ) + " dB of peak gain reduction to reach "@ + fixed_text(goal, 1) + " LUFS under the "@
            + fixed_text(ceiling, 1) + " dBTP ceiling (source true peak "@ + fixed_text(source_peak, 1)
            + " dBTP); consider a lower target or more source headroom"@,
{
}

} // verus!

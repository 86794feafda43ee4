//! Loudness normalization and true-peak ceilings.
//!
//! The meters, the gain and the limiter work on samples and are handed in by the caller:
//! `lufs` and `peak` measure a buffer, `amplify` applies a gain in dB, `limit` runs the
//! limiter down to a ceiling. What is decided from the measurements is decided here.
use vstd::prelude::*;
use vstd::arithmetic::power2::*;
use crate::closures::{accepts_ref, accepts_ref_with, accepts1, computes1, reads, reads_with};
use crate::config::{OnClipPolicy, MINUS_1};
use crate::decimal::{fixed, fixed_text};
use crate::level::{
    law_order_is_the_order_of_values, law_sum_is_nearest, lemma_sum_is_finite, lemma_total_is_finite,
    Level, INFINITY_BITS,
};
use crate::text::{self, digits, views};

verus! {

/// True-peak slack (0.05 dB) that is tolerated above the ceiling: it absorbs the difference
/// between the limiter's own detector and the meter.
pub const TP_TOLERANCE_DB: u64 = 0x3FA9_9999_9999_999A;

/// The most limiter passes that are made.
pub const MAX_LIMIT_PASSES: usize = 6;

/// The bits of negative infinity: silence.
pub const SILENCE: u64 = 0xFFF0_0000_0000_0000;

/// The tolerance as a figure.
pub open spec fn tolerance() -> Level {
    Level { bits: TP_TOLERANCE_DB }
}

/// How far, in dB, a meter may read above a peak that is predicted from a gain: 1/256 dB.
pub open spec fn slack() -> Level {
    Level { bits: 0x3F70_0000_0000_0000 }
}

/// A peak is at or below the ceiling, to within the tolerance.
pub open spec fn within_tolerance(tp: Level, ceiling: Level) -> bool {
    tp.at_most(ceiling) || !tolerance().below(tp.difference(ceiling))
}

/// What a loudness step did.
#[derive(Debug, Clone)]
pub struct LoudnessApplyResult {
    pub in_lufs: Level,
    pub out_lufs: Level,
    pub gain_db: Level,
    pub true_peak_in_dbtp: Level,
    pub true_peak_out_dbtp: Level,
    /// How much the limiter took off the loudest peak to hold the ceiling, zero when it did
    /// not run. The other figures look clean after limiting, so this is where lost dynamics
    /// show.
    pub limiter_gain_reduction_db: Level,
    pub warnings: Vec<String>,
}

/// The mathematical model of a [`LoudnessApplyResult`].
pub struct LoudnessApplyView {
    pub in_lufs: Level,
    pub out_lufs: Level,
    pub gain_db: Level,
    pub true_peak_in_dbtp: Level,
    pub true_peak_out_dbtp: Level,
    pub limiter_gain_reduction_db: Level,
    pub warnings: Seq<Seq<char>>,
}

impl View for LoudnessApplyResult {
    type V = LoudnessApplyView;

    open spec fn view(&self) -> LoudnessApplyView {
        LoudnessApplyView {
            in_lufs: self.in_lufs,
            out_lufs: self.out_lufs,
            gain_db: self.gain_db,
            true_peak_in_dbtp: self.true_peak_in_dbtp,
            true_peak_out_dbtp: self.true_peak_out_dbtp,
            limiter_gain_reduction_db: self.limiter_gain_reduction_db,
            warnings: views(self.warnings@),
        }
    }
}

// ---------------------------------------------------------------------------
// Limit and verify.
// ---------------------------------------------------------------------------

/// The buffer after limiting from pass `pass` on, with the last measured true peak and the
/// number of passes. Each pass limits to `internal`, measures, and stops when the meter is
/// within the tolerance; otherwise `internal` falls by what the meter still sees above the
/// ceiling.
pub open spec fn verified_limit<B, E>(
    b: B,
    ceiling: Level,
    internal: Level,
    pass: int,
    limit: spec_fn(B, Level) -> Result<B, E>,
    peak: spec_fn(B) -> Result<Level, E>,
) -> (B, Result<(Level, int), E>)
    decreases MAX_LIMIT_PASSES - pass,
{
    match limit(b, internal) {
        Err(e) => (b, Err(e)),
        Ok(b2) => match peak(b2) {
            Err(e) => (b2, Err(e)),
            Ok(tp) => {
                let overshoot = tp.difference(ceiling);
                if overshoot.at_most(tolerance()) || pass >= MAX_LIMIT_PASSES {
                    (b2, Ok((tp, pass)))
                } else {
                    verified_limit(
                        b2,
                        ceiling,
                        internal.difference(overshoot),
                        pass + 1,
                        limit,
                        peak,
                    )
                }
            },
        },
    }
}

/// Run the limiter, then check the result against the meter, and go on with a lower
/// internal ceiling until the meter agrees that the ceiling is held or the passes are used
/// up. Returns the last measured true peak and the number of passes.
pub fn limit_and_verify<B, E, T: Fn(&B, Level) -> Result<B, E>, P: Fn(&B) -> Result<Level, E>>(
    buffer: &mut B,
    ceiling_dbtp: Level,
    limit: &T,
    peak: &P,
) -> (r: Result<(Level, usize), E>)
    requires
        accepts_ref_with(*limit),
        accepts_ref(*peak),
    ensures
        r matches Ok(done) ==> 1 <= done.1 <= MAX_LIMIT_PASSES,
        forall|l: spec_fn(B, Level) -> Result<B, E>, p: spec_fn(B) -> Result<Level, E>|
            reads_with(*limit, l) && reads(*peak, p) ==> {
                let spec = #[trigger] verified_limit(*old(buffer), ceiling_dbtp, ceiling_dbtp, 1, l, p);
                &&& *final(buffer) == spec.0
                &&& match r {
                    Ok(done) => spec.1 == Ok::<(Level, int), E>((done.0, done.1 as int)),
                    Err(e) => spec.1 == Err::<(Level, int), E>(e),
                }
            },
{
    let mut internal = ceiling_dbtp;
    let mut pass: usize = 1;
    let ghost start = *buffer;
    loop
        invariant
            accepts_ref_with(*limit),
            accepts_ref(*peak),
            1 <= pass <= MAX_LIMIT_PASSES,
            start == *old(buffer),
            forall|l: spec_fn(B, Level) -> Result<B, E>, p: spec_fn(B) -> Result<Level, E>|
                reads_with(*limit, l) && reads(*peak, p) ==> #[trigger] verified_limit(
                    start,
                    ceiling_dbtp,
                    ceiling_dbtp,
                    1,
                    l,
                    p,
                ) == verified_limit(*buffer, ceiling_dbtp, internal, pass as int, l, p),
        decreases MAX_LIMIT_PASSES - pass,
    {
        match limit(&*buffer, internal) {
            Err(e) => {
                return Err(e);
            },
            Ok(next) => {
                *buffer = next;
            },
        }
        let tp: Level = match peak(&*buffer) {
            Err(e) => {
                return Err(e);
            },
            Ok(tp) => tp,
        };
        let overshoot = tp.minus(ceiling_dbtp);
        if overshoot.is_at_most(Level { bits: TP_TOLERANCE_DB }) || pass >= MAX_LIMIT_PASSES {
            return Ok((tp, pass));
        }
        // The next pass attenuates the offending peak the rest of the way.
        internal = internal.minus(overshoot);
        pass = pass + 1;
    }
}

// ---------------------------------------------------------------------------
// Messages.
// ---------------------------------------------------------------------------

/// The report of a peak that the limiter could not bring down.
pub open spec fn still_above(tp: Level, passes: int) -> Seq<char> {
    "true peak still "@ + fixed_text(tp, 2) + " dBTP after "@ + digits(passes as nat)
        + " limiter passes"@
}

/// `a`, a figure with two decimals, `b`, another one, and `c`.
pub open spec fn two_figures(a: Seq<char>, x: Level, b: Seq<char>, y: Level, c: Seq<char>) -> Seq<char> {
    a + fixed_text(x, 2) + b + fixed_text(y, 2) + c
}

fn say_still_above(tp: Level, passes: usize) -> (r: String)
    ensures
        r@ == still_above(tp, passes as int),
{
    let mut m = String::from_str("true peak still ");
    m.append(fixed(tp, 2).as_str());
    m.append(" dBTP after ");
    m.append(text::number(passes as u64).as_str());
    m.append(" limiter passes");
    m
}

fn say_two_figures(a: &str, x: Level, b: &str, y: Level, c: &str) -> (r: String)
    ensures
        r@ == two_figures(a@, x, b@, y, c@),
{
    let mut m = String::from_str(a);
    m.append(fixed(x, 2).as_str());
    m.append(b);
    m.append(fixed(y, 2).as_str());
    m.append(c);
    m
}

// ---------------------------------------------------------------------------
// Loudness normalization.
// ---------------------------------------------------------------------------

/// The gain that is applied and the warning that goes with it, when the full gain `gain`
/// would put the peak at `predicted`.
pub open spec fn gain_choice(
    policy: OnClipPolicy,
    gain: Level,
    peak_in: Level,
    predicted: Level,
    ceiling: Level,
) -> (Level, Seq<Seq<char>>) {
    if !ceiling.below(predicted) || policy == OnClipPolicy::Limit {
        (gain, Seq::empty())
    } else if policy == OnClipPolicy::ReduceGain {
        (
            gain.lesser(ceiling.difference(peak_in)),
            seq![
                two_figures(
                    "clip policy reduce_gain applied; target LUFS may not be reached (predicted "@,
                    predicted,
                    " dBTP > ceiling "@,
                    ceiling,
                    " dBTP)"@,
                ),
            ],
        )
    } else {
        (
            gain,
            seq![
                two_figures(
                    "predicted true peak "@,
                    predicted,
                    " dBTP exceeds ceiling "@,
                    ceiling,
                    " dBTP"@,
                ),
            ],
        )
    }
}

/// The buffer after loudness normalization and the report of it, or the first failure of a
/// meter or of the limiter.
pub open spec fn normalized<B, E>(
    b: B,
    target_lufs: Level,
    ceiling: Level,
    policy: OnClipPolicy,
    lufs: spec_fn(B) -> Result<Level, E>,
    peak: spec_fn(B) -> Result<Level, E>,
    amplify: spec_fn(B, Level) -> B,
    limit: spec_fn(B, Level) -> Result<B, E>,
) -> (B, Result<LoudnessApplyView, E>) {
    match lufs(b) {
        Err(e) => (b, Err(e)),
        Ok(in_lufs) => match peak(b) {
            Err(e) => (b, Err(e)),
            Ok(tp_in) => {
                let gain = target_lufs.difference(in_lufs);
                let predicted = tp_in.sum(gain);
                let (applied, warnings) = gain_choice(policy, gain, tp_in, predicted, ceiling);
                let louder = amplify(b, applied);
                if policy == OnClipPolicy::Limit && ceiling.below(predicted) {
                    let (held, outcome) = verified_limit(louder, ceiling, ceiling, 1, limit, peak);
                    match outcome {
                        Err(e) => (held, Err(e)),
                        Ok((tp, passes)) => measured(
                            held,
                            in_lufs,
                            tp_in,
                            applied,
                            predicted.difference(ceiling),
                            if tolerance().below(tp.difference(ceiling)) {
                                warnings.push(
                                    still_above(tp, passes) + " (ceiling "@ + fixed_text(ceiling, 2)
                                        + " dBTP)"@,
                                )
                            } else {
                                warnings
                            },
                            lufs,
                            peak,
                        ),
                    }
                } else {
                    measured(
                        louder,
                        in_lufs,
                        tp_in,
                        applied,
                        Level { bits: 0 },
                        warnings,
                        lufs,
                        peak,
                    )
                }
            },
        },
    }
}

/// The report of a loudness step whose result is the buffer `b`.
pub open spec fn measured<B, E>(
    b: B,
    in_lufs: Level,
    tp_in: Level,
    gain_db: Level,
    reduction: Level,
    warnings: Seq<Seq<char>>,
    lufs: spec_fn(B) -> Result<Level, E>,
    peak: spec_fn(B) -> Result<Level, E>,
) -> (B, Result<LoudnessApplyView, E>) {
    match lufs(b) {
        Err(e) => (b, Err(e)),
        Ok(out_lufs) => match peak(b) {
            Err(e) => (b, Err(e)),
            Ok(tp_out) => (
                b,
                Ok(
                    LoudnessApplyView {
                        in_lufs,
                        out_lufs,
                        gain_db,
                        true_peak_in_dbtp: tp_in,
                        true_peak_out_dbtp: tp_out,
                        limiter_gain_reduction_db: reduction,
                        warnings,
                    },
                ),
            ),
        },
    }
}

/// The ceiling to use when none is given: -1 dBTP.
pub open spec fn ceiling_or_default(ceiling: Option<Level>) -> Level {
    match ceiling {
        Some(c) => c,
        None => Level { bits: MINUS_1 },
    }
}

/// The policy to use when none is given.
pub open spec fn policy_or_default(policy: Option<OnClipPolicy>) -> OnClipPolicy {
    match policy {
        Some(p) => p,
        None => OnClipPolicy::Limit,
    }
}

/// Choose the gain to apply; the warning that goes with it is added to `warnings`.
fn choose_gain(
    policy: OnClipPolicy,
    gain: Level,
    peak_in: Level,
    predicted: Level,
    ceiling: Level,
    warnings: &mut Vec<String>,
) -> (r: Level)
    requires
        old(warnings)@.len() == 0,
    ensures
        (r, views(final(warnings)@)) == gain_choice(policy, gain, peak_in, predicted, ceiling),
{
    if !ceiling.is_below(predicted) || policy == OnClipPolicy::Limit {
        assert(views(warnings@) =~= Seq::<Seq<char>>::empty());
        gain
    } else if policy == OnClipPolicy::ReduceGain {
        // Capping the gain keeps the dynamics; the loudness goal may not be met.
        warnings.push(
            say_two_figures(
                "clip policy reduce_gain applied; target LUFS may not be reached (predicted ",
                predicted,
                " dBTP > ceiling ",
                ceiling,
                " dBTP)",
            ),
        );
        let chosen = gain.min(ceiling.minus(peak_in));
        assert(views(warnings@) =~= gain_choice(policy, gain, peak_in, predicted, ceiling).1);
        chosen
    } else {
        warnings.push(
            say_two_figures(
                "predicted true peak ",
                predicted,
                " dBTP exceeds ceiling ",
                ceiling,
                " dBTP",
            ),
        );
        assert(views(warnings@) =~= gain_choice(policy, gain, peak_in, predicted, ceiling).1);
        gain
    }
}

/// Normalize `buffer` to `target_lufs` with a constant gain, holding the ceiling as the
/// policy says.
pub fn apply<
    B,
    E,
    L: Fn(&B) -> Result<Level, E>,
    P: Fn(&B) -> Result<Level, E>,
    A: Fn(&B, Level) -> B,
    T: Fn(&B, Level) -> Result<B, E>,
>(
    buffer: &mut B,
    target_lufs: Level,
    true_peak_ceiling_dbtp: Option<Level>,
    on_clip: Option<OnClipPolicy>,
    lufs: &L,
    peak: &P,
    amplify: &A,
    limit: &T,
) -> (r: Result<LoudnessApplyResult, E>)
    requires
        accepts_ref(*lufs),
        accepts_ref(*peak),
        accepts_ref_with(*amplify),
        accepts_ref_with(*limit),
    ensures
        forall|
            m: spec_fn(B) -> Result<Level, E>,
            p: spec_fn(B) -> Result<Level, E>,
            a: spec_fn(B, Level) -> B,
            l: spec_fn(B, Level) -> Result<B, E>,
        |
            reads(*lufs, m) && reads(*peak, p) && reads_with(*amplify, a) && reads_with(*limit, l)
                ==> {
                let spec = #[trigger] normalized(
                    *old(buffer),
                    target_lufs,
                    ceiling_or_default(true_peak_ceiling_dbtp),
                    policy_or_default(on_clip),
                    m,
                    p,
                    a,
                    l,
                );
                &&& *final(buffer) == spec.0
                &&& match r {
                    Ok(report) => spec.1 == Ok::<LoudnessApplyView, E>(report@),
                    Err(e) => spec.1 == Err::<LoudnessApplyView, E>(e),
                }
            },
{
    let in_lufs: Level = match lufs(&*buffer) {
        Err(e) => {
            return Err(e);
        },
        Ok(x) => x,
    };
    let tp_in: Level = match peak(&*buffer) {
        Err(e) => {
            return Err(e);
        },
        Ok(x) => x,
    };
    let gain_db = target_lufs.minus(in_lufs);
    let mut warnings: Vec<String> = Vec::new();
    let ceiling = match true_peak_ceiling_dbtp {
        Some(c) => c,
        None => Level { bits: MINUS_1 },
    };
    let policy = match on_clip {
        Some(p) => p,
        None => OnClipPolicy::Limit,
    };
    let predicted_tp = tp_in.plus(gain_db);
    let effective_gain_db = choose_gain(policy, gain_db, tp_in, predicted_tp, ceiling, &mut warnings);
    *buffer = amplify(&*buffer, effective_gain_db);
    let mut reduction = Level { bits: 0 };
    if policy == OnClipPolicy::Limit && ceiling.is_below(predicted_tp) {
        let (final_tp, passes) = match limit_and_verify(buffer, ceiling, limit, peak) {
            Err(e) => {
                return Err(e);
            },
            Ok(done) => done,
        };
        // The loudest peak sat at the predicted level and is pulled down to the ceiling.
        reduction = predicted_tp.minus(ceiling);
        if (Level { bits: TP_TOLERANCE_DB }).is_below(final_tp.minus(ceiling)) {
            let ghost before = views(warnings@);
            let mut m = say_still_above(final_tp, passes);
            m.append(" (ceiling ");
            m.append(fixed(ceiling, 2).as_str());
            m.append(" dBTP)");
            warnings.push(m);
            assert(views(warnings@) =~= before.push(m@));
        }
    }
    let out_lufs: Level = match lufs(&*buffer) {
        Err(e) => {
            return Err(e);
        },
        Ok(x) => x,
    };
    let tp_out: Level = match peak(&*buffer) {
        Err(e) => {
            return Err(e);
        },
        Ok(x) => x,
    };
    Ok(
        LoudnessApplyResult {
            in_lufs,
            out_lufs,
            gain_db: effective_gain_db,
            true_peak_in_dbtp: tp_in,
            true_peak_out_dbtp: tp_out,
            limiter_gain_reduction_db: reduction,
            warnings,
        },
    )
}

// ---------------------------------------------------------------------------
// The ceiling without a loudness step.
// ---------------------------------------------------------------------------

/// The buffer after the limiter was run because the true peak `tp` was above the ceiling,
/// and the warnings: `how` the limiter came to run, and whether the peak is still too high.
pub open spec fn relimited<B, E>(
    b: B,
    tp: Level,
    ceiling: Level,
    how: Seq<char>,
    peak: spec_fn(B) -> Result<Level, E>,
    limit: spec_fn(B, Level) -> Result<B, E>,
) -> (B, Result<Seq<Seq<char>>, E>) {
    let (held, outcome) = verified_limit(b, ceiling, ceiling, 1, limit, peak);
    match outcome {
        Err(e) => (held, Err(e)),
        Ok((final_tp, passes)) => {
            let first = two_figures("true peak "@, tp, " dBTP exceeded ceiling "@, ceiling, how);
            (
                held,
                Ok(
                    if tolerance().below(final_tp.difference(ceiling)) {
                        seq![first, still_above(final_tp, passes)]
                    } else {
                        seq![first]
                    },
                ),
            )
        },
    }
}

/// The buffer and the warnings after the ceiling was enforced.
pub open spec fn enforced<B, E>(
    b: B,
    ceiling: Level,
    policy: OnClipPolicy,
    peak: spec_fn(B) -> Result<Level, E>,
    amplify: spec_fn(B, Level) -> B,
    limit: spec_fn(B, Level) -> Result<B, E>,
) -> (B, Result<Seq<Seq<char>>, E>) {
    match peak(b) {
        Err(e) => (b, Err(e)),
        Ok(tp) => if tp.at_most(ceiling) {
            (b, Ok(Seq::empty()))
        } else {
            match policy {
                OnClipPolicy::Limit => relimited(
                    b,
                    tp,
                    ceiling,
                    " dBTP; limiter applied"@,
                    peak,
                    limit,
                ),
                OnClipPolicy::ReduceGain => {
                    let gain = ceiling.difference(tp);
                    (
                        amplify(b, gain),
                        Ok(
                            seq![
                                two_figures(
                                    "true peak "@,
                                    tp,
                                    " dBTP exceeded ceiling "@,
                                    ceiling,
                                    " dBTP; reduced gain by "@ + fixed_text(gain, 2) + " dB"@,
                                ),
                            ],
                        ),
                    )
                },
                OnClipPolicy::Warn => (
                    b,
                    Ok(
                        seq![
                            two_figures(
                                "true peak "@,
                                tp,
                                " dBTP exceeds ceiling "@,
                                ceiling,
                                " dBTP; not corrected (on_clip=warn)"@,
                            ),
                        ],
                    ),
                ),
            }
        },
    }
}

/// The buffer and the warnings after the ceiling was checked again.
pub open spec fn rechecked<B, E>(
    b: B,
    ceiling: Level,
    peak: spec_fn(B) -> Result<Level, E>,
    limit: spec_fn(B, Level) -> Result<B, E>,
) -> (B, Result<Seq<Seq<char>>, E>) {
    match peak(b) {
        Err(e) => (b, Err(e)),
        Ok(tp) => if tp.at_most(ceiling) {
            (b, Ok(Seq::empty()))
        } else {
            relimited(b, tp, ceiling, " dBTP after SRC; limiter re-applied"@, peak, limit)
        },
    }
}

/// Run the limiter because `tp` is above the ceiling, and say so.
fn relimit<B, E, P: Fn(&B) -> Result<Level, E>, T: Fn(&B, Level) -> Result<B, E>>(
    buffer: &mut B,
    tp: Level,
    ceiling_dbtp: Level,
    how: &str,
    peak: &P,
    limit: &T,
) -> (r: Result<Vec<String>, E>)
    requires
        accepts_ref(*peak),
        accepts_ref_with(*limit),
    ensures
        forall|p: spec_fn(B) -> Result<Level, E>, l: spec_fn(B, Level) -> Result<B, E>|
            reads(*peak, p) && reads_with(*limit, l) ==> {
                let spec = #[trigger] relimited(*old(buffer), tp, ceiling_dbtp, how@, p, l);
                &&& *final(buffer) == spec.0
                &&& match r {
                    Ok(w) => spec.1 == Ok::<Seq<Seq<char>>, E>(views(w@)),
                    Err(e) => spec.1 == Err::<Seq<Seq<char>>, E>(e),
                }
            },
{
    let (final_tp, passes) = match limit_and_verify(buffer, ceiling_dbtp, limit, peak) {
        Err(e) => {
            return Err(e);
        },
        Ok(done) => done,
    };
    let mut warnings: Vec<String> = Vec::new();
    let first = say_two_figures("true peak ", tp, " dBTP exceeded ceiling ", ceiling_dbtp, how);
    warnings.push(first);
    if (Level { bits: TP_TOLERANCE_DB }).is_below(final_tp.minus(ceiling_dbtp)) {
        let second = say_still_above(final_tp, passes);
        warnings.push(second);
        assert(views(warnings@) =~= seq![first@, second@]);
    } else {
        assert(views(warnings@) =~= seq![first@]);
    }
    Ok(warnings)
}

/// Enforce a ceiling on a buffer that did not go through loudness normalization. Does
/// nothing when the signal is at or below the ceiling; otherwise the policy decides:
/// the limiter, a static attenuation that just meets the ceiling, or a warning only.
pub fn enforce_ceiling<
    B,
    E,
    P: Fn(&B) -> Result<Level, E>,
    A: Fn(&B, Level) -> B,
    T: Fn(&B, Level) -> Result<B, E>,
>(
    buffer: &mut B,
    ceiling_dbtp: Level,
    on_clip: OnClipPolicy,
    peak: &P,
    amplify: &A,
    limit: &T,
) -> (r: Result<Vec<String>, E>)
    requires
        accepts_ref(*peak),
        accepts_ref_with(*amplify),
        accepts_ref_with(*limit),
    ensures
        forall|
            p: spec_fn(B) -> Result<Level, E>,
            a: spec_fn(B, Level) -> B,
            l: spec_fn(B, Level) -> Result<B, E>,
        |
            reads(*peak, p) && reads_with(*amplify, a) && reads_with(*limit, l) ==> {
                let spec = #[trigger] enforced(*old(buffer), ceiling_dbtp, on_clip, p, a, l);
                &&& *final(buffer) == spec.0
                &&& match r {
                    Ok(w) => spec.1 == Ok::<Seq<Seq<char>>, E>(views(w@)),
                    Err(e) => spec.1 == Err::<Seq<Seq<char>>, E>(e),
                }
            },
{
    let tp: Level = match peak(&*buffer) {
        Err(e) => {
            return Err(e);
        },
        Ok(x) => x,
    };
    let mut warnings: Vec<String> = Vec::new();
    if tp.is_at_most(ceiling_dbtp) {
        assert(views(warnings@) =~= Seq::<Seq<char>>::empty());
        return Ok(warnings);
    }
    match on_clip {
        OnClipPolicy::Limit => relimit(
            buffer,
            tp,
            ceiling_dbtp,
            " dBTP; limiter applied",
            peak,
            limit,
        ),
        OnClipPolicy::ReduceGain => {
            let gain_db = ceiling_dbtp.minus(tp);
            *buffer = amplify(&*buffer, gain_db);
            let mut how = String::from_str(" dBTP; reduced gain by ");
            how.append(fixed(gain_db, 2).as_str());
            how.append(" dB");
            let only = say_two_figures(
                "true peak ",
                tp,
                " dBTP exceeded ceiling ",
                ceiling_dbtp,
                how.as_str(),
            );
            warnings.push(only);
            assert(views(warnings@) =~= seq![only@]);
            Ok(warnings)
        },
        OnClipPolicy::Warn => {
            let only = say_two_figures(
                "true peak ",
                tp,
                " dBTP exceeds ceiling ",
                ceiling_dbtp,
                " dBTP; not corrected (on_clip=warn)",
            );
            warnings.push(only);
            assert(views(warnings@) =~= seq![only@]);
            Ok(warnings)
        },
    }
}

/// Measure the true peak again after a step that can introduce new peaks between samples,
/// and run the limiter if the ceiling is exceeded.
pub fn recheck_and_limit_if_needed<
    B,
    E,
    P: Fn(&B) -> Result<Level, E>,
    T: Fn(&B, Level) -> Result<B, E>,
>(buffer: &mut B, ceiling_dbtp: Level, peak: &P, limit: &T) -> (r: Result<Vec<String>, E>)
    requires
        accepts_ref(*peak),
        accepts_ref_with(*limit),
    ensures
        forall|p: spec_fn(B) -> Result<Level, E>, l: spec_fn(B, Level) -> Result<B, E>|
            reads(*peak, p) && reads_with(*limit, l) ==> {
                let spec = #[trigger] rechecked(*old(buffer), ceiling_dbtp, p, l);
                &&& *final(buffer) == spec.0
                &&& match r {
                    Ok(w) => spec.1 == Ok::<Seq<Seq<char>>, E>(views(w@)),
                    Err(e) => spec.1 == Err::<Seq<Seq<char>>, E>(e),
                }
            },
{
    let tp: Level = match peak(&*buffer) {
        Err(e) => {
            return Err(e);
        },
        Ok(x) => x,
    };
    if tp.is_at_most(ceiling_dbtp) {
        let warnings: Vec<String> = Vec::new();
        assert(views(warnings@) =~= Seq::<Seq<char>>::empty());
        return Ok(warnings);
    }
    relimit(buffer, tp, ceiling_dbtp, " dBTP after SRC; limiter re-applied", peak, limit)
}

// ---------------------------------------------------------------------------
// Metering.
// ---------------------------------------------------------------------------

/// The meters of a buffer: integrated loudness, loudness range, the loudest momentary
/// (400 ms) and short-term (3 s) windows, and true peak. Figures can be negative infinity
/// for silence or clips shorter than a meter's integration time.
#[derive(Clone, Copy, Debug, PartialEq, Eq, Structural)]
pub struct LoudnessAnalysis {
    pub integrated_lufs: Level,
    pub loudness_range_lu: Level,
    pub max_momentary_lufs: Level,
    pub max_short_term_lufs: Level,
    pub true_peak_dbtp: Level,
}

impl LoudnessAnalysis {
    /// Peak to loudness ratio (dB): true peak minus integrated loudness. Higher means more
    /// dynamic range.
    pub fn plr(&self) -> (r: Level)
        ensures
            r == self.true_peak_dbtp.difference(self.integrated_lufs),
    {
        self.true_peak_dbtp.minus(self.integrated_lufs)
    }

    /// Peak to short-term ratio (dB): true peak minus the loudest short-term window. A low
    /// value points to heavy limiting.
    pub fn psr(&self) -> (r: Level)
        ensures
            r == self.true_peak_dbtp.difference(self.max_short_term_lufs),
    {
        self.true_peak_dbtp.minus(self.max_short_term_lufs)
    }
}

/// One feed of the meters: the frames `start..end`, and which sliding meters have seen
/// enough audio to be read after it.
#[derive(Clone, Copy, Debug, PartialEq, Eq, Structural)]
pub struct MeterHop {
    pub start: usize,
    pub end: usize,
    pub momentary: bool,
    pub short_term: bool,
}

/// Frames per hop: a tenth of a second, and at least one.
pub open spec fn hop_frames(rate: u32) -> int {
    if rate < 10 {
        1
    } else {
        (rate / 10) as int
    }
}

/// Where the hop ends that starts at frame `start`.
pub open spec fn hop_end(start: int, frames: int, rate: u32) -> int {
    if start + hop_frames(rate) > frames {
        frames
    } else {
        start + hop_frames(rate)
    }
}

/// The hop that starts at frame `start`.
pub open spec fn hop_at(start: int, frames: int, rate: u32) -> MeterHop {
    let end = hop_end(start, frames, rate);
    MeterHop {
        start: start as usize,
        end: end as usize,
        momentary: end >= 2 * rate / 5,
        short_term: end >= 3 * rate,
    }
}

/// The hops that feed `frames` frames, from frame `start` on.
pub open spec fn hops_from(start: int, frames: int, rate: u32) -> Seq<MeterHop>
    decreases frames - start,
{
    if start >= frames {
        Seq::empty()
    } else {
        seq![hop_at(start, frames, rate)] + hops_from(hop_end(start, frames, rate), frames, rate)
    }
}

/// The hops in which `frames` frames are fed to the meters.
pub fn meter_hops(frames: usize, rate: u32) -> (hops: Vec<MeterHop>)
    ensures
        hops@ == hops_from(0, frames as int, rate),
{
    let hop: u64 = if rate < 10 {
        1
    } else {
        (rate / 10) as u64
    };
    let momentary_ready: u64 = 2 * (rate as u64) / 5;
    let short_term_ready: u64 = 3 * (rate as u64);
    let mut hops: Vec<MeterHop> = Vec::new();
    let mut pos: usize = 0;
    assert(hops@ + hops_from(0, frames as int, rate) =~= hops_from(0, frames as int, rate));
    while pos < frames
        invariant
            hop == hop_frames(rate),
            momentary_ready == 2 * rate / 5,
            short_term_ready == 3 * rate,
            pos <= frames,
            hops@ + hops_from(pos as int, frames as int, rate) == hops_from(0, frames as int, rate),
        decreases frames - pos,
    {
        let end: usize = if (frames - pos) as u64 <= hop {
            frames
        } else {
            pos + hop as usize
        };
        let next = MeterHop {
            start: pos,
            end,
            momentary: end as u64 >= momentary_ready,
            short_term: end as u64 >= short_term_ready,
        };
        let ghost before = hops@;
        let ghost at = pos as int;
        hops.push(next);
        proof {
            assert(next == hop_at(at, frames as int, rate));
            let rest = hops_from(end as int, frames as int, rate);
            assert(before + (seq![next] + rest) =~= hops@ + rest);
        }
        pos = end;
    }
    hops
}

/// The largest of the first `n` readings that exist and are finite; silence when there is
/// none.
pub open spec fn loudest_of(readings: Seq<Option<Level>>, n: int) -> Level
    decreases n,
{
    if n <= 0 {
        Level { bits: SILENCE }
    } else {
        let rest = loudest_of(readings, n - 1);
        match readings[n - 1] {
            Some(m) => if m.finite() {
                rest.larger(m)
            } else {
                rest
            },
            None => rest,
        }
    }
}

/// The largest finite reading of a sliding meter.
pub fn loudest(readings: &Vec<Option<Level>>) -> (r: Level)
    ensures
        r == loudest_of(readings@, readings@.len() as int),
{
    let mut r = Level { bits: SILENCE };
    let mut i: usize = 0;
    while i < readings.len()
        invariant
            i <= readings@.len(),
            r == loudest_of(readings@, i as int),
        decreases readings.len() - i,
    {
        if let Some(m) = readings[i] {
            if m.is_finite() {
                r = r.max(m);
            }
        }
        i = i + 1;
    }
    r
}

/// A linear peak in dBTP; no peak is silence.
pub open spec fn peak_dbtp(peak: Level, to_db: spec_fn(Level) -> Level) -> Level {
    if peak.at_most(Level { bits: 0 }) {
        Level { bits: SILENCE }
    } else {
        to_db(peak)
    }
}

/// The largest of the first `n` channel peaks, in dBTP.
pub open spec fn highest_peak(peaks: Seq<Level>, n: int, to_db: spec_fn(Level) -> Level) -> Level
    decreases n,
{
    if n <= 0 {
        Level { bits: SILENCE }
    } else {
        let rest = highest_peak(peaks, n - 1, to_db);
        let db = peak_dbtp(peaks[n - 1], to_db);
        if rest.below(db) {
            db
        } else {
            rest
        }
    }
}

/// The largest true peak over the channels, in dBTP. `to_db` converts a linear peak.
pub fn max_true_peak_dbtp<D: Fn(Level) -> Level>(peaks: &Vec<Level>, to_db: &D) -> (r: Level)
    requires
        accepts1(*to_db),
    ensures
        forall|d: spec_fn(Level) -> Level| computes1(*to_db, d) ==> r == #[trigger] highest_peak(
            peaks@,
            peaks@.len() as int,
            d,
        ),
{
    let mut max_peak = Level { bits: SILENCE };
    let mut ch: usize = 0;
    while ch < peaks.len()
        invariant
            accepts1(*to_db),
            ch <= peaks@.len(),
            forall|d: spec_fn(Level) -> Level| computes1(*to_db, d) ==> max_peak
                == #[trigger] highest_peak(peaks@, ch as int, d),
        decreases peaks.len() - ch,
    {
        let peak = peaks[ch];
        let db: Level = if peak.is_at_most(Level { bits: 0 }) {
            Level { bits: SILENCE }
        } else {
            to_db(peak)
        };
        let ghost before = max_peak;
        if max_peak.is_below(db) {
            max_peak = db;
        }
        proof {
            assert forall|d: spec_fn(Level) -> Level| computes1(*to_db, d) implies max_peak
                == #[trigger] highest_peak(peaks@, ch + 1, d) by {
                assert(before == highest_peak(peaks@, ch as int, d));
            }
        }
        ch = ch + 1;
    }
    max_peak
}

// ---------------------------------------------------------------------------
// Laws.
// ---------------------------------------------------------------------------

/// The delivered signal respects the ceiling: limiting ends after at most six passes, the
/// true peak it reports is the meter's reading of the buffer it leaves, and the peak is
/// within the tolerance of the ceiling unless all passes were used up.
pub proof fn law_limiting_ends_at_the_ceiling<B, E>(
    b: B,
    ceiling: Level,
    internal: Level,
    pass: int,
    limit: spec_fn(B, Level) -> Result<B, E>,
    peak: spec_fn(B) -> Result<Level, E>,
)
    requires
        1 <= pass <= MAX_LIMIT_PASSES,
    ensures
        verified_limit(b, ceiling, internal, pass, limit, peak).1 matches Ok((tp, passes)) ==> {
            &&& pass <= passes <= MAX_LIMIT_PASSES
            &&& peak(verified_limit(b, ceiling, internal, pass, limit, peak).0) == Ok::<Level, E>(tp)
            &&& tp.difference(ceiling).at_most(tolerance()) || passes == MAX_LIMIT_PASSES
        },
    decreases MAX_LIMIT_PASSES - pass,
{
    if let Ok(b2) = limit(b, internal) {
        if let Ok(tp) = peak(b2) {
            let overshoot = tp.difference(ceiling);
            if !(overshoot.at_most(tolerance()) || pass >= MAX_LIMIT_PASSES) {
                law_limiting_ends_at_the_ceiling(
                    b2,
                    ceiling,
                    internal.difference(overshoot),
                    pass + 1,
                    limit,
                    peak,
                );
            }
        }
    }
}

/// A signal at or below the ceiling is left alone, without a warning, whatever the policy;
/// and under the warn policy no signal is altered.
pub proof fn law_enforcement_leaves_quiet_signals_alone<B, E>(
    b: B,
    ceiling: Level,
    policy: OnClipPolicy,
    peak: spec_fn(B) -> Result<Level, E>,
    amplify: spec_fn(B, Level) -> B,
    limit: spec_fn(B, Level) -> Result<B, E>,
)
    ensures
        peak(b) matches Ok(tp) && tp.at_most(ceiling) ==> enforced(
            b,
            ceiling,
            policy,
            peak,
            amplify,
            limit,
        ) == (b, Ok::<Seq<Seq<char>>, E>(Seq::empty())) && rechecked(b, ceiling, peak, limit) == (
            b,
            Ok::<Seq<Seq<char>>, E>(Seq::empty()),
        ),
        policy == OnClipPolicy::Warn ==> enforced(b, ceiling, policy, peak, amplify, limit).0 == b,
{
}

/// Whenever the ceiling is exceeded and the step succeeds, there is a warning that says so.
pub proof fn law_exceeding_the_ceiling_is_reported<B, E>(
    b: B,
    ceiling: Level,
    policy: OnClipPolicy,
    peak: spec_fn(B) -> Result<Level, E>,
    amplify: spec_fn(B, Level) -> B,
    limit: spec_fn(B, Level) -> Result<B, E>,
)
    requires
        peak(b) matches Ok(tp) && !tp.at_most(ceiling),
    ensures
        enforced(b, ceiling, policy, peak, amplify, limit).1 matches Ok(w) ==> w.len() >= 1,
        rechecked(b, ceiling, peak, limit).1 matches Ok(w) ==> w.len() >= 1,
{
}

/// The reported gain reduction is how far the peak after the gain would have been above the
/// ceiling when the limiter ran, and zero when it did not.
pub proof fn law_gain_reduction_is_the_predicted_excess<B, E>(
    b: B,
    target_lufs: Level,
    ceiling: Level,
    policy: OnClipPolicy,
    lufs: spec_fn(B) -> Result<Level, E>,
    peak: spec_fn(B) -> Result<Level, E>,
    amplify: spec_fn(B, Level) -> B,
    limit: spec_fn(B, Level) -> Result<B, E>,
)
    ensures
        normalized(b, target_lufs, ceiling, policy, lufs, peak, amplify, limit).1 matches Ok(v) ==> {
            let predicted = v.true_peak_in_dbtp.sum(target_lufs.difference(v.in_lufs));
            &&& v.limiter_gain_reduction_db == if policy == OnClipPolicy::Limit && ceiling.below(
                predicted,
            ) {
                predicted.difference(ceiling)
            } else {
                Level { bits: 0 }
            }
            &&& v.gain_db == if policy == OnClipPolicy::ReduceGain && ceiling.below(predicted) {
                target_lufs.difference(v.in_lufs).lesser(ceiling.difference(v.true_peak_in_dbtp))
            } else {
                target_lufs.difference(v.in_lufs)
            }
        },
{
}

/// The figures after a loudness step are the meters' readings of the buffer it leaves.
pub proof fn law_figures_are_measured<B, E>(
    b: B,
    target_lufs: Level,
    ceiling: Level,
    policy: OnClipPolicy,
    lufs: spec_fn(B) -> Result<Level, E>,
    peak: spec_fn(B) -> Result<Level, E>,
    amplify: spec_fn(B, Level) -> B,
    limit: spec_fn(B, Level) -> Result<B, E>,
)
    ensures
        normalized(b, target_lufs, ceiling, policy, lufs, peak, amplify, limit).1 matches Ok(v) ==> {
            let after = normalized(b, target_lufs, ceiling, policy, lufs, peak, amplify, limit).0;
            &&& lufs(b) == Ok::<Level, E>(v.in_lufs)
            &&& peak(b) == Ok::<Level, E>(v.true_peak_in_dbtp)
            &&& lufs(after) == Ok::<Level, E>(v.out_lufs)
            &&& peak(after) == Ok::<Level, E>(v.true_peak_out_dbtp)
        },
{
}

/// A figure of at most `2^20`, about a million, in absolute value.
pub open spec fn moderate(l: Level) -> bool {
    l.finite() && l.abs_units() <= pow2(1094)
}

/// A sum of at most `2^21` is off the exact one by at most `2^-32`.
proof fn lemma_sum_is_close(a: Level, b: Level)
    requires
        a.finite(),
        b.finite(),
        a.abs_units() <= pow2(1999),
        b.abs_units() <= pow2(1999),
        -(pow2(1095) as int) <= a.units() + b.units() <= pow2(1095),
    ensures
        a.sum(b).finite(),
        -(pow2(1042) as int) <= a.sum(b).units() - (a.units() + b.units()) <= pow2(1042),
{
    lemma_sum_is_finite(a, b);
    law_sum_is_nearest(a, b);
    lemma_pow2_adds(53, 1042);
    lemma_pow2_pos(53);
    let off = a.sum(b).units() - (a.units() + b.units());
    let one = pow2(53) as int;
    let most = pow2(1042) as int;
    assert(-most <= off <= most) by (nonlinear_arith)
        requires
            -(one * most) <= one * off <= one * most,
            one > 0,
    ;
}

/// The powers of two that bound the figures of a gain reduction.
proof fn lemma_bounds()
    ensures
        pow2(1095) == 2 * pow2(1094),
        pow2(1096) == 4 * pow2(1094),
        pow2(1096) <= pow2(1999),
        pow2(1043) == 2 * pow2(1042),
        2 * pow2(1043) < pow2(1069),
        pow2(1069) < pow2(1094),
        pow2(1042) > 0,
        pow2(1069) <= tolerance().units(),
        tolerance().finite(),
        slack().units() == pow2(1066),
        slack().finite(),
        8 * pow2(1066) == pow2(1069),
        pow2(1043) < pow2(1066),
        pow2(1069) <= pow2(2000),
{
    lemma_pow2_unfold(1067);
    lemma_pow2_unfold(1068);
    lemma_pow2_unfold(1069);
    lemma_pow2_strictly_increases(1043, 1066);
    lemma_pow2_strictly_increases(1069, 2000);
    lemma_pow2_adds(52, 1014);
    assert(slack().exponent() == 1014);
    lemma_pow2_unfold(1095);
    lemma_pow2_unfold(1096);
    lemma_pow2_unfold(1043);
    lemma_pow2_unfold(1044);
    lemma_pow2_strictly_increases(1096, 1999);
    lemma_pow2_strictly_increases(1044, 1069);
    lemma_pow2_strictly_increases(1069, 1094);
    lemma_pow2_pos(1042);
    lemma2_to64_rest();
    lemma_pow2_adds(52, 1017);
    lemma_pow2_pos(1017);
    let t = tolerance();
    assert(t.exponent() == 1017);
    assert(t.significand() >= pow2(52));
    let m = t.significand();
    let p = pow2(1017);
    assert(m * p >= pow2(52) * p) by (nonlinear_arith)
        requires
            m >= pow2(52),
            p > 0,
    ;
}

/// A peak `tp` that is moved by at most the distance to the ceiling ends at the ceiling.
proof fn lemma_moved_to_the_ceiling(tp: Level, ceiling: Level, gain: Level)
    requires
        moderate(tp),
        moderate(ceiling),
        gain.finite(),
        gain.units() <= ceiling.difference(tp).units(),
        gain.abs_units() <= pow2(1999),
        tp.units() + gain.units() >= -(pow2(1095) as int),
    ensures
        ceiling.difference(tp).finite(),
        ceiling.difference(tp).abs_units() <= pow2(1999),
        tp.units() + ceiling.difference(tp).units() >= -(pow2(1095) as int),
        tp.sum(gain).finite(),
        tp.sum(gain).units() <= ceiling.units() + pow2(1043),
        !tolerance().below(tp.sum(gain).difference(ceiling)),
{
    lemma_bounds();
    assert(tp.negated().units() == -tp.units());
    assert(ceiling.negated().units() == -ceiling.units());
    lemma_sum_is_close(ceiling, tp.negated());
    lemma_sum_is_close(tp, gain);
    let reached = tp.sum(gain);
    assert(reached.units() <= ceiling.units() + pow2(1043));
    if reached.abs_units() <= pow2(1096) {
        let exact = reached.units() - ceiling.units();
        if exact >= -(pow2(1095) as int) {
            lemma_sum_is_close(reached, ceiling.negated());
        } else {
            lemma_sum_is_finite(reached, ceiling.negated());
            law_sum_is_nearest(reached, ceiling.negated());
            lemma_pow2_pos(53);
            let off = reached.difference(ceiling).units() - exact;
            let one = pow2(53) as int;
            assert(exact + off <= 0) by (nonlinear_arith)
                requires
                    one * off <= -exact,
                    exact < 0,
                    one >= 1,
            ;
        }
        law_order_is_the_order_of_values(tolerance(), reached.difference(ceiling));
    }
}

/// A figure is off the exact difference by less than the difference itself.
proof fn lemma_difference_is_close(x: Level, y: Level)
    requires
        x.finite(),
        y.finite(),
        x.units() > y.units(),
        x.difference(y).finite(),
    ensures
        x.units() - y.units() <= 2 * x.difference(y).units(),
        x.difference(y).units() <= 2 * (x.units() - y.units()),
{
    assert(y.negated().units() == -y.units());
    law_sum_is_nearest(x, y.negated());
    lemma_pow2_pos(53);
    lemma_pow2_unfold(53);
    let exact = x.units() - y.units();
    let off = x.difference(y).units() - exact;
    let one = pow2(53) as int;
    assert(-exact <= 2 * off && off <= exact) by (nonlinear_arith)
        requires
            -exact <= one * off <= exact,
            exact > 0,
            one >= 2,
    ;
}

/// A meter that reads at most the slack above a peak that is all but at the ceiling finds the
/// ceiling held.
proof fn lemma_slack_is_tolerated(x: Level, reached: Level, ceiling: Level)
    requires
        reached.finite(),
        ceiling.finite(),
        reached.units() <= ceiling.units() + pow2(1043),
        !slack().below(x.difference(reached)),
    ensures
        within_tolerance(x, ceiling),
{
    lemma_bounds();
    assert(reached.negated().finite() && ceiling.negated().finite());
    assert(ceiling.negated().units() == -ceiling.units());
    if x.finite() {
        law_order_is_the_order_of_values(x, ceiling);
        if x.units() > ceiling.units() {
            if x.units() > reached.units() {
                let d = x.difference(reached);
                assert(reached.negated().units() == -reached.units());
                if !d.finite() {
                    assert(d.place() == INFINITY_BITS);
                    assert(slack().below(d));
                }
                lemma_difference_is_close(x, reached);
                law_order_is_the_order_of_values(slack(), d);
            }
            lemma_total_is_finite(x, ceiling.negated());
            lemma_difference_is_close(x, ceiling);
            law_order_is_the_order_of_values(tolerance(), x.difference(ceiling));
        }
    }
}

/// A peak that was predicted at or below the ceiling is found there: a meter that reads at most
/// the slack above the prediction finds the ceiling held.
pub proof fn law_predicted_peaks_are_met(x: Level, predicted: Level, ceiling: Level)
    requires
        !predicted.nan(),
        !ceiling.below(predicted),
        !slack().below(x.difference(predicted)),
    ensures
        within_tolerance(x, ceiling),
{
    lemma_bounds();
    if predicted.finite() && ceiling.finite() {
        law_order_is_the_order_of_values(ceiling, predicted);
        lemma_slack_is_tolerated(x, predicted, ceiling);
    } else {
        assert(predicted.negated().nan() == predicted.nan());
        assert(predicted.negated().finite() == predicted.finite());
        assert(ceiling.negated().nan() == ceiling.nan());
    }
}

/// Reducing the gain meets the ceiling: when the full gain would put the peak above it, the
/// peak that was measured, moved by the gain that is applied instead, is not above the ceiling
/// by more than the tolerance. So is a peak that is moved by the static attenuation. A meter
/// that reads at most the slack above the moved peak still finds the ceiling held.
pub proof fn law_reduced_gain_meets_the_ceiling(tp: Level, gain: Level, ceiling: Level)
    requires
        moderate(tp),
        moderate(ceiling),
    ensures
        !tolerance().below(tp.sum(ceiling.difference(tp)).difference(ceiling)),
        ceiling.below(tp.sum(gain)) ==> !tolerance().below(
            tp.sum(gain.lesser(ceiling.difference(tp))).difference(ceiling),
        ),
        forall|x: Level|
            !slack().below(#[trigger] x.difference(tp.sum(ceiling.difference(tp)))) ==> within_tolerance(
                x,
                ceiling,
            ),
        forall|x: Level|
            ceiling.below(tp.sum(gain)) && !slack().below(
                #[trigger] x.difference(tp.sum(gain.lesser(ceiling.difference(tp)))),
            ) ==> within_tolerance(x, ceiling),
{
    lemma_bounds();
    let full = ceiling.difference(tp);
    assert(tp.negated().units() == -tp.units());
    lemma_sum_is_close(ceiling, tp.negated());
    lemma_moved_to_the_ceiling(tp, ceiling, full);
    if ceiling.below(tp.sum(gain)) && gain.lesser(full) != full {
        assert(gain.finite());
        law_order_is_the_order_of_values(full, gain);
        let exact = tp.units() + gain.units();
        if exact < -(pow2(1095) as int) {
            // The sum would be below the ceiling.
            let r = tp.sum(gain);
            if r.finite() {
                law_sum_is_nearest(tp, gain);
                lemma_pow2_pos(53);
                lemma_pow2_unfold(53);
                let off = r.units() - exact;
                let one = pow2(53) as int;
                assert(2 * off <= -exact) by (nonlinear_arith)
                    requires
                        one * off <= -exact,
                        exact < 0,
                        one >= 2,
                ;
                law_order_is_the_order_of_values(ceiling, r);
            }
        } else {
            lemma_moved_to_the_ceiling(tp, ceiling, gain);
        }
    }
    let chosen = gain.lesser(full);
    assert forall|x: Level| !slack().below(#[trigger] x.difference(tp.sum(full))) implies within_tolerance(
        x,
        ceiling,
    ) by {
        lemma_slack_is_tolerated(x, tp.sum(full), ceiling);
    }
    assert forall|x: Level|
        ceiling.below(tp.sum(gain)) && !slack().below(
            #[trigger] x.difference(tp.sum(chosen)),
        ) implies within_tolerance(x, ceiling) by {
        lemma_slack_is_tolerated(x, tp.sum(chosen), ceiling);
    }
}

/// The hops cover every frame once and in order: the first starts at the first frame, each
/// one starts where the one before ended, and the last ends with the last frame.
pub proof fn law_hops_cover_every_frame_once(start: int, frames: int, rate: u32)
    requires
        0 <= start < frames <= usize::MAX,
    ensures
        ({
            let hops = hops_from(start, frames, rate);
            &&& hops.len() > 0
            &&& hops[0].start == start
            &&& hops.last().end == frames
            &&& forall|i: int| 0 <= i < hops.len() ==> (#[trigger] hops[i]).start < hops[i].end
            &&& forall|i: int, j: int|
                0 <= i && j == i + 1 && j < hops.len() ==> (#[trigger] hops[i]).end == (
                #[trigger] hops[j]).start
        }),
    decreases frames - start,
{
    let hops = hops_from(start, frames, rate);
    let next = hop_end(start, frames, rate);
    let rest = hops_from(next, frames, rate);
    if next < frames {
        law_hops_cover_every_frame_once(next, frames, rate);
        assert(hops.last() == rest.last());
        assert forall|i: int| 0 <= i < hops.len() implies (#[trigger] hops[i]).start < hops[i].end by {
            if i > 0 {
                assert(hops[i] == rest[i - 1]);
            }
        }
        assert forall|i: int, j: int| 0 <= i && j == i + 1 && j < hops.len() implies (
        #[trigger] hops[i]).end == (#[trigger] hops[j]).start by {
            assert(hops[j] == rest[j - 1]);
            if i > 0 {
                assert(hops[i] == rest[i - 1]);
            }
        }
    } else {
        assert(rest =~= Seq::<MeterHop>::empty());
        assert(hops =~= seq![hop_at(start, frames, rate)]);
    }
}

/// The buffers `runs` and the ceilings `aims` are those of a limiter run that ends at `after`:
/// each pass limits what the pass before left, the first one to the ceiling itself. A pass is
/// followed by another exactly because the meter read more than the tolerance above the ceiling,
/// and the next pass aims lower by what the meter read above it.
pub open spec fn limiter_run<B, E>(
    b: B,
    after: B,
    ceiling: Level,
    runs: Seq<B>,
    aims: Seq<Level>,
    limit: spec_fn(B, Level) -> Result<B, E>,
    peak: spec_fn(B) -> Result<Level, E>,
) -> bool {
    &&& 1 <= aims.len() <= 6
    &&& runs.len() == aims.len() + 1
    &&& runs[0] == b
    &&& runs[aims.len() as int] == after
    &&& aims[0] == ceiling
    &&& forall|i: int|
        0 <= i < aims.len() ==> limit(#[trigger] runs[i], aims[i]) == Ok::<B, E>(runs[i + 1])
    &&& forall|i: int|
        0 < i < aims.len() ==> (peak(runs[i]) matches Ok(tp) && !tp.difference(ceiling).at_most(
            tolerance(),
        ) && #[trigger] aims[i] == aims[i - 1].difference(tp.difference(ceiling)))
}

proof fn lemma_limiter_run<B, E>(
    b: B,
    ceiling: Level,
    internal: Level,
    pass: int,
    runs: Seq<B>,
    aims: Seq<Level>,
    limit: spec_fn(B, Level) -> Result<B, E>,
    peak: spec_fn(B) -> Result<Level, E>,
) -> (r: (Seq<B>, Seq<Level>))
    requires
        1 <= pass <= 6,
        runs.len() == pass,
        aims.len() == pass,
        runs[pass - 1] == b,
        aims[pass - 1] == internal,
        aims[0] == ceiling,
        forall|i: int|
            0 <= i < pass - 1 ==> limit(#[trigger] runs[i], aims[i]) == Ok::<B, E>(runs[i + 1]),
        forall|i: int|
            0 < i < pass ==> (peak(runs[i]) matches Ok(tp) && !tp.difference(ceiling).at_most(
                tolerance(),
            ) && #[trigger] aims[i] == aims[i - 1].difference(tp.difference(ceiling))),
        verified_limit(b, ceiling, internal, pass, limit, peak).1 is Ok,
    ensures
        limiter_run(
            runs[0],
            verified_limit(b, ceiling, internal, pass, limit, peak).0,
            ceiling,
            r.0,
            r.1,
            limit,
            peak,
        ),
        r.1.len() == verified_limit(b, ceiling, internal, pass, limit, peak).1->Ok_0.1,
    decreases 6 - pass,
{
    let b2 = limit(b, internal)->Ok_0;
    let tp = peak(b2)->Ok_0;
    let overshoot = tp.difference(ceiling);
    let more = runs.push(b2);
    assert forall|i: int| 0 <= i < pass implies limit(#[trigger] more[i], aims[i]) == Ok::<B, E>(
        more[i + 1],
    ) by {
        assert(more[i] == runs[i]);
        if i < pass - 1 {
            assert(more[i + 1] == runs[i + 1]);
        }
    }
    if overshoot.at_most(tolerance()) || pass >= MAX_LIMIT_PASSES {
        (more, aims)
    } else {
        let next = internal.difference(overshoot);
        let lower = aims.push(next);
        assert forall|i: int| 0 < i < pass + 1 implies (peak(more[i]) matches Ok(t) && !t.difference(
            ceiling,
        ).at_most(tolerance()) && #[trigger] lower[i] == lower[i - 1].difference(
            t.difference(ceiling),
        )) by {
            assert(lower[i - 1] == aims[i - 1]);
            if i < pass {
                assert(lower[i] == aims[i]);
                assert(more[i] == runs[i]);
            }
        }
        assert forall|i: int| 0 <= i < pass implies limit(#[trigger] more[i], lower[i]) == Ok::<B, E>(
            more[i + 1],
        ) by {
            assert(lower[i] == aims[i]);
        }
        lemma_limiter_run(b2, ceiling, next, pass + 1, more, lower, limit, peak)
    }
}

/// Limiting is a run of the limiter: what it leaves comes from its input by one to six passes,
/// as many as it reports, and no pass is made without need.
pub proof fn law_limiting_is_a_run_of_the_limiter<B, E>(
    b: B,
    ceiling: Level,
    limit: spec_fn(B, Level) -> Result<B, E>,
    peak: spec_fn(B) -> Result<Level, E>,
)
    ensures
        ({
            let (after, outcome) = verified_limit(b, ceiling, ceiling, 1, limit, peak);
            outcome matches Ok((tp, passes)) ==> peak(after) == Ok::<Level, E>(tp) && (tp.difference(
                ceiling,
            ).at_most(tolerance()) || passes == 6) && exists|runs: Seq<B>, aims: Seq<Level>|
                aims.len() == passes && #[trigger] limiter_run(
                    b,
                    after,
                    ceiling,
                    runs,
                    aims,
                    limit,
                    peak,
                )
        }),
{
    let (after, outcome) = verified_limit(b, ceiling, ceiling, 1, limit, peak);
    if let Ok((tp, passes)) = outcome {
        law_limiting_ends_at_the_ceiling(b, ceiling, ceiling, 1, limit, peak);
        let (runs, aims) = lemma_limiter_run(
            b,
            ceiling,
            ceiling,
            1,
            seq![b],
            seq![ceiling],
            limit,
            peak,
        );
        assert(limiter_run(b, after, ceiling, runs, aims, limit, peak));
    }
}

/// The tolerance is 0.05 dB, to within a part in `2^50`.
pub proof fn law_tolerance_is_a_twentieth()
    ensures
        tolerance().finite(),
        pow2(1074) - pow2(1024) <= 20 * tolerance().units() <= pow2(1074) + pow2(1024),
{
    let t = tolerance();
    assert(t.significand() == 0x19_9999_9999_999A && t.exponent() == 1017 && !t.negative());
    lemma_pow2_adds(57, 1017);
    lemma_pow2_adds(7, 1017);
    lemma2_to64();
    lemma2_to64_rest();
    lemma_pow2_pos(1017);
    let p = pow2(1017) as int;
    assert(20 * (0x19_9999_9999_999A * p) == 0x200_0000_0000_0008 * p) by (nonlinear_arith);
    assert(0x200_0000_0000_0000 * p - 128 * p <= 0x200_0000_0000_0008 * p
        <= 0x200_0000_0000_0000 * p + 128 * p) by (nonlinear_arith)
        requires
            p > 0,
    ;
}

/// The reported gain is the applied gain. Whatever the policy, a loudness step that succeeds
/// leaves the signal amplified by the gain it reports; when the policy is to limit and the full
/// gain would put the peak above the ceiling, that amplified signal goes through the limiter,
/// and only then. The gain is what the signal lacks to the goal, except that a gain that is
/// reduced is the smaller of that and what the peak lacks to the ceiling.
pub proof fn law_reported_gain_is_applied<B, E>(
    b: B,
    target_lufs: Level,
    ceiling: Level,
    policy: OnClipPolicy,
    lufs: spec_fn(B) -> Result<Level, E>,
    peak: spec_fn(B) -> Result<Level, E>,
    amplify: spec_fn(B, Level) -> B,
    limit: spec_fn(B, Level) -> Result<B, E>,
)
    ensures
        ({
            let (after, report) = normalized(
                b,
                target_lufs,
                ceiling,
                policy,
                lufs,
                peak,
                amplify,
                limit,
            );
            report matches Ok(v) ==> {
                let louder = amplify(b, v.gain_db);
                let wanted = target_lufs.difference(lufs(b)->Ok_0);
                let tp = peak(b)->Ok_0;
                let exceeds = ceiling.below(tp.sum(wanted));
                &&& lufs(b) is Ok && peak(b) is Ok
                &&& if exceeds && policy == OnClipPolicy::Limit {
                    exists|runs: Seq<B>, aims: Seq<Level>| #[trigger]
                        limiter_run(louder, after, ceiling, runs, aims, limit, peak)
                } else {
                    after == louder
                }
                &&& if exceeds && policy == OnClipPolicy::ReduceGain {
                    let room = ceiling.difference(tp);
                    (v.gain_db == wanted || v.gain_db == room) && !wanted.below(v.gain_db)
                        && !room.below(v.gain_db)
                } else {
                    v.gain_db == wanted
                }
                &&& policy == OnClipPolicy::Warn && exceeds ==> v.warnings.len() > 0
                &&& policy == OnClipPolicy::ReduceGain && exceeds ==> v.warnings.len() > 0
                &&& !exceeds ==> v.warnings.len() == 0
            }
        }),
{
    let (after, report) = normalized(b, target_lufs, ceiling, policy, lufs, peak, amplify, limit);
    if let Ok(v) = report {
        let louder = amplify(b, v.gain_db);
        let wanted = target_lufs.difference(lufs(b)->Ok_0);
        if ceiling.below(peak(b)->Ok_0.sum(wanted)) && policy == OnClipPolicy::Limit {
            law_limiting_is_a_run_of_the_limiter(louder, ceiling, limit, peak);
        }
    }
}

/// The loudness goal is met before the limiter: where the meter follows the gain, what is
/// amplified, and handed to the limiter if it runs, reads the goal to within `2^-31` dB, unless
/// the gain is reduced.
pub proof fn law_amplified_signal_meets_the_goal<B, E>(
    b: B,
    target_lufs: Level,
    ceiling: Level,
    policy: OnClipPolicy,
    lufs: spec_fn(B) -> Result<Level, E>,
    peak: spec_fn(B) -> Result<Level, E>,
    amplify: spec_fn(B, Level) -> B,
    limit: spec_fn(B, Level) -> Result<B, E>,
)
    requires
        policy != OnClipPolicy::ReduceGain,
        moderate(target_lufs),
        lufs(b) matches Ok(l) ==> moderate(l),
        forall|g: Level|
            lufs(b) is Ok ==> lufs(#[trigger] amplify(b, g)) == Ok::<Level, E>(
                lufs(b)->Ok_0.sum(g),
            ),
    ensures
        normalized(b, target_lufs, ceiling, policy, lufs, peak, amplify, limit).1 matches Ok(v) ==> {
            let read = lufs(amplify(b, v.gain_db))->Ok_0;
            -(pow2(1043) as int) <= read.units() - target_lufs.units() <= pow2(1043)
        },
{
    law_reported_gain_is_applied(b, target_lufs, ceiling, policy, lufs, peak, amplify, limit);
    if let Ok(v) = normalized(b, target_lufs, ceiling, policy, lufs, peak, amplify, limit).1 {
        let l = lufs(b)->Ok_0;
        lemma_bounds();
        lemma_pow2_strictly_increases(1095, 1999);
        assert(l.negated().units() == -l.units() && l.negated().abs_units() == l.abs_units());
        lemma_sum_is_close(target_lufs, l.negated());
        let gain = target_lufs.difference(l);
        assert(gain.abs_units() <= pow2(1999));
        lemma_sum_is_close(l, gain);
    }
}

/// The true peak of a buffer is the largest over all its channels: no channel whose figure is a
/// number reads higher, and the result is the figure of a channel, or silence.
pub proof fn law_true_peak_is_the_largest(peaks: Seq<Level>, to_db: spec_fn(Level) -> Level)
    ensures
        ({
            let r = highest_peak(peaks, peaks.len() as int, to_db);
            &&& forall|c: int|
                0 <= c < peaks.len() && (Level { bits: 0 }).below(#[trigger] peaks[c]) ==> !r.below(
                    to_db(peaks[c]),
                )
            &&& r.bits == 0xFFF0_0000_0000_0000 || exists|c: int|
                0 <= c < peaks.len() && r == to_db(#[trigger] peaks[c])
            &&& !r.nan()
        }),
{
    lemma_highest_peak(peaks, peaks.len() as int, to_db);
}

proof fn lemma_highest_peak(peaks: Seq<Level>, n: int, to_db: spec_fn(Level) -> Level)
    requires
        0 <= n <= peaks.len(),
    ensures
        ({
            let r = highest_peak(peaks, n, to_db);
            &&& forall|c: int|
                0 <= c < n && (Level { bits: 0 }).below(#[trigger] peaks[c]) ==> !r.below(
                    to_db(peaks[c]),
                )
            &&& r.bits == 0xFFF0_0000_0000_0000 || exists|c: int|
                0 <= c < n && r == to_db(#[trigger] peaks[c])
            &&& !r.nan()
        }),
    decreases n,
{
    if n > 0 {
        lemma_highest_peak(peaks, n - 1, to_db);
        let rest = highest_peak(peaks, n - 1, to_db);
        let r = highest_peak(peaks, n, to_db);
        assert(peaks[n - 1] == peaks[n - 1]);
        if rest.bits != 0xFFF0_0000_0000_0000 {
            let c = choose|c: int| 0 <= c < n - 1 && rest == to_db(#[trigger] peaks[c]);
            assert(0 <= c < n && rest == to_db(peaks[c]));
        }
        assert forall|c: int|
            0 <= c < n && (Level { bits: 0 }).below(#[trigger] peaks[c]) implies !r.below(
            to_db(peaks[c]),
        ) by {
            if c < n - 1 {
                assert(!rest.below(to_db(peaks[c])));
            }
        }
    }
}

/// The loudest reading is the largest: no finite reading is above it, and it is one of the
/// finite readings, or silence when there is none.
pub proof fn law_loudest_reading_is_the_largest(readings: Seq<Option<Level>>)
    ensures
        ({
            let r = loudest_of(readings, readings.len() as int);
            &&& forall|i: int|
                0 <= i < readings.len() ==> ((#[trigger] readings[i]) matches Some(m) ==> (m.finite()
                    ==> m.at_most(r)))
            &&& (r.bits == 0xFFF0_0000_0000_0000 && forall|i: int|
                0 <= i < readings.len() ==> ((#[trigger] readings[i]) matches Some(m) ==> !m.finite()))
                || exists|i: int|
                0 <= i < readings.len() && (#[trigger] readings[i]) == Some(r) && r.finite()
        }),
{
    lemma_loudest(readings, readings.len() as int);
}

proof fn lemma_loudest(readings: Seq<Option<Level>>, n: int)
    requires
        0 <= n <= readings.len(),
    ensures
        ({
            let r = loudest_of(readings, n);
            &&& !r.nan()
            &&& forall|i: int|
                0 <= i < n ==> ((#[trigger] readings[i]) matches Some(m) ==> (m.finite()
                    ==> m.at_most(r)))
            &&& (r.bits == 0xFFF0_0000_0000_0000 && forall|i: int|
                0 <= i < n ==> ((#[trigger] readings[i]) matches Some(m) ==> !m.finite()))
                || exists|i: int| 0 <= i < n && (#[trigger] readings[i]) == Some(r) && r.finite()
        }),
    decreases n,
{
    if n > 0 {
        lemma_loudest(readings, n - 1);
        let rest = loudest_of(readings, n - 1);
        let r = loudest_of(readings, n);
        assert(readings[n - 1] == readings[n - 1]);
        if exists|i: int| 0 <= i < n - 1 && (#[trigger] readings[i]) == Some(rest) && rest.finite() {
            let i = choose|i: int|
                0 <= i < n - 1 && (#[trigger] readings[i]) == Some(rest) && rest.finite();
            assert(0 <= i < n && readings[i] == Some(rest));
        }
        assert forall|i: int| 0 <= i < n implies ((#[trigger] readings[i]) matches Some(m) ==> (m.finite()
                    ==> m.at_most(r))) by {
            if i < n - 1 {
                if let Some(m) = readings[i] {
                    if m.finite() {
                        assert(m.at_most(rest));
                    }
                }
            }
        }
    }
}

/// The meters are fed a tenth of a second at a time, at least one frame, and only the last hop
/// may be shorter. The momentary meter is read once 0.4 seconds were fed, the short-term meter
/// once 3 seconds were.
pub proof fn law_hops_are_a_tenth_of_a_second(start: int, frames: int, rate: u32)
    requires
        0 <= start < frames <= usize::MAX,
    ensures
        ({
            let hops = hops_from(start, frames, rate);
            forall|i: int|
                0 <= i < hops.len() ==> {
                    let hop = #[trigger] hops[i];
                    let fed = hop.end - hop.start;
                    &&& fed == 1 || 10 * fed <= rate
                    &&& i < hops.len() - 1 ==> 10 * (fed + 1) > rate
                    &&& hop.momentary <==> 5 * (hop.end + 1) > 2 * rate
                    &&& hop.short_term <==> hop.end >= 3 * rate
                }
        }),
    decreases frames - start,
{
    let hops = hops_from(start, frames, rate);
    let next = hop_end(start, frames, rate);
    let rest = hops_from(next, frames, rate);
    if next < frames {
        law_hops_are_a_tenth_of_a_second(next, frames, rate);
    }
    assert forall|i: int| 0 <= i < hops.len() implies ({
        let hop = #[trigger] hops[i];
        let fed = hop.end - hop.start;
        &&& fed == 1 || 10 * fed <= rate
        &&& i < hops.len() - 1 ==> 10 * (fed + 1) > rate
        &&& hop.momentary <==> 5 * (hop.end + 1) > 2 * rate
        &&& hop.short_term <==> hop.end >= 3 * rate
    }) by {
        if i > 0 {
            assert(hops[i] == rest[i - 1]);
        } else {
            assert(hops[0] == hop_at(start, frames, rate));
        }
    }
}

/// A ceiling is enforced as the policy says: an exceeding signal is limited, or moved down as a
/// whole by what its peak exceeds the ceiling by, or left as it is. After a step that changed
/// peaks it is limited. A signal that does not exceed the ceiling is never touched.
pub proof fn law_policy_decides_the_correction<B, E>(
    b: B,
    ceiling: Level,
    policy: OnClipPolicy,
    peak: spec_fn(B) -> Result<Level, E>,
    amplify: spec_fn(B, Level) -> B,
    limit: spec_fn(B, Level) -> Result<B, E>,
)
    ensures
        enforced(b, ceiling, policy, peak, amplify, limit).1 is Ok ==> {
            let after = enforced(b, ceiling, policy, peak, amplify, limit).0;
            let tp = peak(b)->Ok_0;
            &&& peak(b) is Ok
            &&& tp.at_most(ceiling) || policy == OnClipPolicy::Warn ==> after == b
            &&& !tp.at_most(ceiling) && policy == OnClipPolicy::ReduceGain ==> after == amplify(
                b,
                ceiling.difference(tp),
            )
            &&& !tp.at_most(ceiling) && policy == OnClipPolicy::Limit ==> exists|
                runs: Seq<B>,
                aims: Seq<Level>,
            | #[trigger] limiter_run(b, after, ceiling, runs, aims, limit, peak)
        },
        rechecked(b, ceiling, peak, limit).1 is Ok ==> {
            let after = rechecked(b, ceiling, peak, limit).0;
            let tp = peak(b)->Ok_0;
            &&& peak(b) is Ok
            &&& tp.at_most(ceiling) ==> after == b
            &&& !tp.at_most(ceiling) ==> exists|runs: Seq<B>, aims: Seq<Level>| #[trigger]
                limiter_run(b, after, ceiling, runs, aims, limit, peak)
        },
{
    law_limiting_is_a_run_of_the_limiter(b, ceiling, limit, peak);
    let (after, outcome) = verified_limit(b, ceiling, ceiling, 1, limit, peak);
    if let Ok((tp, passes)) = outcome {
        let (runs, aims) = choose|runs: Seq<B>, aims: Seq<Level>|
            aims.len() == passes && #[trigger] limiter_run(b, after, ceiling, runs, aims, limit, peak);
        assert(limiter_run(b, after, ceiling, runs, aims, limit, peak));
        if let Ok(first) = peak(b) {
            if !first.at_most(ceiling) {
                assert(rechecked(b, ceiling, peak, limit).0 == after);
                if policy == OnClipPolicy::Limit {
                    assert(enforced(b, ceiling, policy, peak, amplify, limit).0 == after);
                }
            }
        }
    }
}

/// Without a choice the ceiling is -1 dBTP and clipping is limited; a choice is kept.
pub proof fn law_ceiling_and_policy_choices(ceiling: Option<Level>, policy: Option<OnClipPolicy>)
    ensures
        ceiling is None ==> ceiling_or_default(ceiling).finite() && ceiling_or_default(ceiling).units()
            == -(pow2(1074) as int),
        policy is None ==> policy_or_default(policy) == OnClipPolicy::Limit,
        ceiling matches Some(c) ==> ceiling_or_default(ceiling) == c,
        policy matches Some(p) ==> policy_or_default(policy) == p,
{
    let one = Level { bits: MINUS_1 };
    assert(one.significand() == 0x10_0000_0000_0000 && one.exponent() == 1022);
    lemma2_to64();
    lemma2_to64_rest();
    lemma_pow2_adds(52, 1022);
}

/// Nothing fails but the meters and the limiter: where they work, so does every step. What a
/// meter fails with is passed on, and the signal is left alone.
pub proof fn law_only_meters_and_limiter_fail<B, E>(
    b: B,
    target_lufs: Level,
    ceiling: Level,
    policy: OnClipPolicy,
    lufs: spec_fn(B) -> Result<Level, E>,
    peak: spec_fn(B) -> Result<Level, E>,
    amplify: spec_fn(B, Level) -> B,
    limit: spec_fn(B, Level) -> Result<B, E>,
)
    ensures
        (forall|x: B| #[trigger] lufs(x) is Ok) && (forall|x: B| #[trigger] peak(x) is Ok) && (forall|
            x: B,
            l: Level,
        | #[trigger] limit(x, l) is Ok) ==> {
            &&& normalized(b, target_lufs, ceiling, policy, lufs, peak, amplify, limit).1 is Ok
            &&& enforced(b, ceiling, policy, peak, amplify, limit).1 is Ok
            &&& rechecked(b, ceiling, peak, limit).1 is Ok
        },
        lufs(b) matches Err(e) ==> normalized(
            b,
            target_lufs,
            ceiling,
            policy,
            lufs,
            peak,
            amplify,
            limit,
        ) == (b, Err::<LoudnessApplyView, E>(e)),
        peak(b) matches Err(e) ==> (lufs(b) is Ok ==> normalized(
            b,
            target_lufs,
            ceiling,
            policy,
            lufs,
            peak,
            amplify,
            limit,
        ) == (b, Err::<LoudnessApplyView, E>(e))) && enforced(b, ceiling, policy, peak, amplify, limit)
            == (b, Err::<Seq<Seq<char>>, E>(e)) && rechecked(b, ceiling, peak, limit) == (
            b,
            Err::<Seq<Seq<char>>, E>(e),
        ),
        limit(b, ceiling) matches Err(e) ==> verified_limit(b, ceiling, ceiling, 1, limit, peak) == (
            b,
            Err::<(Level, int), E>(e),
        ),
{
    if (forall|x: B| #[trigger] lufs(x) is Ok) && (forall|x: B| #[trigger] peak(x) is Ok) && (forall|
        x: B,
        l: Level,
    | #[trigger] limit(x, l) is Ok) {
        assert(lufs(b) is Ok && peak(b) is Ok);
        lemma_limiting_works(b, ceiling, ceiling, 1, limit, peak);
        let gain = target_lufs.difference(lufs(b)->Ok_0);
        let predicted = peak(b)->Ok_0.sum(gain);
        let applied = gain_choice(policy, gain, peak(b)->Ok_0, predicted, ceiling).0;
        let louder = amplify(b, applied);
        lemma_limiting_works(louder, ceiling, ceiling, 1, limit, peak);
        let held = verified_limit(louder, ceiling, ceiling, 1, limit, peak).0;
        assert(lufs(held) is Ok && peak(held) is Ok);
        assert(lufs(louder) is Ok && peak(louder) is Ok);
    }
}

proof fn lemma_limiting_works<B, E>(
    b: B,
    ceiling: Level,
    internal: Level,
    pass: int,
    limit: spec_fn(B, Level) -> Result<B, E>,
    peak: spec_fn(B) -> Result<Level, E>,
)
    requires
        1 <= pass <= MAX_LIMIT_PASSES,
        forall|x: B| #[trigger] peak(x) is Ok,
        forall|x: B, l: Level| #[trigger] limit(x, l) is Ok,
    ensures
        verified_limit(b, ceiling, internal, pass, limit, peak).1 is Ok,
    decreases MAX_LIMIT_PASSES - pass,
{
    let next = limit(b, internal)->Ok_0;
    assert(limit(b, internal) is Ok && peak(next) is Ok);
    let overshoot = peak(next)->Ok_0.difference(ceiling);
    if pass < MAX_LIMIT_PASSES {
        lemma_limiting_works(next, ceiling, internal.difference(overshoot), pass + 1, limit, peak);
    }
}

/// Whatever is done about a peak above the ceiling is told with the peak and the ceiling, to two
/// decimals.
pub proof fn law_warnings_name_the_peak_and_the_ceiling<B, E>(
    b: B,
    ceiling: Level,
    policy: OnClipPolicy,
    peak: spec_fn(B) -> Result<Level, E>,
    amplify: spec_fn(B, Level) -> B,
    limit: spec_fn(B, Level) -> Result<B, E>,
)
    requires
        peak(b) matches Ok(tp) && !tp.at_most(ceiling),
    ensures
        ({
            let tp = peak(b)->Ok_0;
            let exceeded = "true peak "@ + fixed_text(tp, 2) + " dBTP exceeded ceiling "@ + fixed_text(
                ceiling,
                2,
            );
            let exceeds = "true peak "@ + fixed_text(tp, 2) + " dBTP exceeds ceiling "@ + fixed_text(
                ceiling,
                2,
            );
            &&& enforced(b, ceiling, policy, peak, amplify, limit).1 matches Ok(w) ==> w.len() > 0
                && w[0] == (match policy {
                OnClipPolicy::Limit => exceeded + " dBTP; limiter applied"@,
                OnClipPolicy::ReduceGain => exceeded + (" dBTP; reduced gain by "@ + fixed_text(
                    ceiling.difference(tp),
                    2,
                ) + " dB"@),
                OnClipPolicy::Warn => exceeds + " dBTP; not corrected (on_clip=warn)"@,
            })
            &&& rechecked(b, ceiling, peak, limit).1 matches Ok(w) ==> w.len() > 0 && w[0] == exceeded
                + " dBTP after SRC; limiter re-applied"@
        }),
{
}

/// A limiter that could not bring a peak down is reported: there is a further warning exactly
/// when the meter still reads more than the tolerance above the ceiling in the end.
pub proof fn law_peaks_that_remain_are_reported<B, E>(
    b: B,
    target_lufs: Level,
    ceiling: Level,
    lufs: spec_fn(B) -> Result<Level, E>,
    peak: spec_fn(B) -> Result<Level, E>,
    amplify: spec_fn(B, Level) -> B,
    limit: spec_fn(B, Level) -> Result<B, E>,
)
    ensures
        normalized(b, target_lufs, ceiling, OnClipPolicy::Limit, lufs, peak, amplify, limit).1 matches Ok(
            v,
        ) ==> {
            let after = peak(
                normalized(
                    b,
                    target_lufs,
                    ceiling,
                    OnClipPolicy::Limit,
                    lufs,
                    peak,
                    amplify,
                    limit,
                ).0,
            )->Ok_0;
            let exceeds = ceiling.below(peak(b)->Ok_0.sum(target_lufs.difference(lufs(b)->Ok_0)));
            v.warnings.len() == if exceeds && tolerance().below(after.difference(ceiling)) {
                1nat
            } else {
                0
            }
        },
        rechecked(b, ceiling, peak, limit).1 matches Ok(w) ==> {
            let before = peak(b)->Ok_0;
            let after = peak(rechecked(b, ceiling, peak, limit).0)->Ok_0;
            w.len() == if before.at_most(ceiling) {
                0nat
            } else if tolerance().below(after.difference(ceiling)) {
                2
            } else {
                1
            }
        },
{
    if lufs(b) is Ok && peak(b) is Ok {
        let louder = amplify(b, target_lufs.difference(lufs(b)->Ok_0));
        law_limiting_ends_at_the_ceiling(louder, ceiling, ceiling, 1, limit, peak);
    }
    law_limiting_ends_at_the_ceiling(b, ceiling, ceiling, 1, limit, peak);
}

/// A peak that is still too high after all passes is told as the meter reads it in the end, with
/// the number of passes and the ceiling.
pub proof fn law_remaining_peaks_are_told<B, E>(
    b: B,
    target_lufs: Level,
    ceiling: Level,
    lufs: spec_fn(B) -> Result<Level, E>,
    peak: spec_fn(B) -> Result<Level, E>,
    amplify: spec_fn(B, Level) -> B,
    limit: spec_fn(B, Level) -> Result<B, E>,
)
    ensures
        normalized(b, target_lufs, ceiling, OnClipPolicy::Limit, lufs, peak, amplify, limit).1 matches Ok(
            v,
        ) ==> (v.warnings.len() > 0 ==> v.warnings[0] == "true peak still "@ + fixed_text(
            v.true_peak_out_dbtp,
            2,
        ) + " dBTP after "@ + digits(6) + " limiter passes"@ + " (ceiling "@ + fixed_text(ceiling, 2)
            + " dBTP)"@),
        rechecked(b, ceiling, peak, limit).1 matches Ok(w) ==> (w.len() > 1 ==> w[1]
            == "true peak still "@ + fixed_text(peak(rechecked(b, ceiling, peak, limit).0)->Ok_0, 2)
            + " dBTP after "@ + digits(6) + " limiter passes"@),
{
    if lufs(b) is Ok && peak(b) is Ok {
        let louder = amplify(b, target_lufs.difference(lufs(b)->Ok_0));
        law_limiting_ends_at_the_ceiling(louder, ceiling, ceiling, 1, limit, peak);
    }
    law_limiting_ends_at_the_ceiling(b, ceiling, ceiling, 1, limit, peak);
}

} // verus!

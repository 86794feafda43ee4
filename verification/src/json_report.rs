//! The machine-readable report of a batch.
//!
//! The document is made of plain types of its own, so that its schema is independent of the
//! types that the processing chain uses. Figures that are not finite are left out.
use vstd::prelude::*;
use vstd::arithmetic::power2::pow2;
use crate::level::{law_difference_is_nearest, Level};
use crate::ops::loudness::LoudnessAnalysis;
use crate::path::opt_view;
use crate::pipeline::{ProcessingReport, ReportView, TaskFailure};
use crate::text::views;

verus! {

/// The whole document.
#[derive(Debug, Clone)]
pub struct JsonReport {
    pub config: Option<String>,
    pub tasks: Vec<TaskJson>,
    pub failures: Vec<FailureJson>,
}

/// One task that was written.
#[derive(Debug, Clone)]
pub struct TaskJson {
    pub target: String,
    pub input: String,
    pub output: String,
    pub sample_rate: RateJson,
    pub codec: String,
    /// Sample format, or the bitrate of an MP3.
    pub format: String,
    /// Whether a `bext` chunk was written.
    pub bwf: bool,
    pub dither: DitherJson,
    /// Peak gain reduction of the limiter (dB).
    pub limiter_gain_reduction_db: Option<Level>,
    pub source: AnalysisJson,
    pub delivered: AnalysisJson,
    pub warnings: Vec<String>,
}

/// Sample rates.
#[derive(Clone, Copy, Debug, PartialEq, Eq, Structural)]
pub struct RateJson {
    pub in_hz: u32,
    pub out_hz: u32,
}

/// What the quantizer did.
#[derive(Debug, Clone)]
pub struct DitherJson {
    pub applied: bool,
    /// The family of noise shaping.
    pub noise_shaping: Option<String>,
}

/// Metering figures.
#[derive(Clone, Copy, Debug, PartialEq, Eq, Structural)]
pub struct AnalysisJson {
    pub integrated_lufs: Option<Level>,
    pub loudness_range_lu: Option<Level>,
    pub max_momentary_lufs: Option<Level>,
    pub max_short_term_lufs: Option<Level>,
    pub true_peak_dbtp: Option<Level>,
    pub plr_db: Option<Level>,
    pub psr_db: Option<Level>,
}

/// One task that failed.
#[derive(Debug, Clone)]
pub struct FailureJson {
    pub target: String,
    pub input: String,
    pub error: String,
}

/// The figure, if it is finite.
pub open spec fn finite_only(v: Level) -> Option<Level> {
    if v.finite() {
        Some(v)
    } else {
        None
    }
}

/// The figures of a metering.
pub open spec fn analysis_of(a: LoudnessAnalysis) -> AnalysisJson {
    AnalysisJson {
        integrated_lufs: finite_only(a.integrated_lufs),
        loudness_range_lu: finite_only(a.loudness_range_lu),
        max_momentary_lufs: finite_only(a.max_momentary_lufs),
        max_short_term_lufs: finite_only(a.max_short_term_lufs),
        true_peak_dbtp: finite_only(a.true_peak_dbtp),
        plr_db: finite_only(a.true_peak_dbtp.difference(a.integrated_lufs)),
        psr_db: finite_only(a.true_peak_dbtp.difference(a.max_short_term_lufs)),
    }
}

impl TaskJson {
    /// The entry says of a task what its report says.
    pub open spec fn tells(self, r: ReportView) -> bool {
        &&& self.target@ == r.target
        &&& self.input@ == r.input
        &&& self.output@ == r.output
        &&& self.sample_rate == RateJson { in_hz: r.in_rate, out_hz: r.out_rate }
        &&& self.codec@ == r.codec
        &&& self.format@ == r.format
        &&& self.bwf == r.bwf
        &&& self.dither.applied == r.dithered
        &&& opt_view(self.dither.noise_shaping) == r.shaping_curve
        &&& self.limiter_gain_reduction_db == r.limiter_gain_reduction_db
        &&& self.source == analysis_of(r.source)
        &&& self.delivered == analysis_of(r.delivered)
        &&& views(self.warnings@) == r.warnings
    }
}

/// The figure, if it is finite.
pub fn finite(v: Level) -> (r: Option<Level>)
    ensures
        r == finite_only(v),
{
    if v.is_finite() {
        Some(v)
    } else {
        None
    }
}

/// The figures of a metering.
pub fn analysis(a: &LoudnessAnalysis) -> (r: AnalysisJson)
    ensures
        r == analysis_of(*a),
{
    AnalysisJson {
        integrated_lufs: finite(a.integrated_lufs),
        loudness_range_lu: finite(a.loudness_range_lu),
        max_momentary_lufs: finite(a.max_momentary_lufs),
        max_short_term_lufs: finite(a.max_short_term_lufs),
        true_peak_dbtp: finite(a.true_peak_dbtp),
        plr_db: finite(a.plr()),
        psr_db: finite(a.psr()),
    }
}

/// Copies of some strings.
fn copies(items: &Vec<String>) -> (r: Vec<String>)
    ensures
        views(r@) == views(items@),
{
    let mut r: Vec<String> = Vec::new();
    while r.len() < items.len()
        invariant
            r@.len() <= items@.len(),
            forall|i: int| 0 <= i < r@.len() ==> (#[trigger] r@[i])@ == items@[i]@,
        decreases items.len() - r.len(),
    {
        let i = r.len();
        r.push(String::from_str(items[i].as_str()));
    }
    assert(views(r@) =~= views(items@));
    r
}

/// The entry of a task that was written.
fn task(report: &ProcessingReport) -> (r: TaskJson)
    ensures
        r.tells(report@),
{
    let noise_shaping: Option<String> = match report.shaping_curve {
        Some(tag) => Some(String::from_str(tag)),
        None => None,
    };
    TaskJson {
        target: String::from_str(report.target.as_str()),
        input: String::from_str(report.input.as_str()),
        output: String::from_str(report.output.as_str()),
        sample_rate: RateJson { in_hz: report.in_rate, out_hz: report.out_rate },
        codec: String::from_str(report.codec.as_str()),
        format: String::from_str(report.format.as_str()),
        bwf: report.bwf,
        dither: DitherJson { applied: report.dithered, noise_shaping },
        limiter_gain_reduction_db: report.limiter_gain_reduction_db,
        source: analysis(&report.source),
        delivered: analysis(&report.delivered),
        warnings: copies(&report.warnings),
    }
}

/// The document of a batch: the tasks that were written and those that failed, in order.
pub fn render(
    config_name: Option<&str>,
    reports: &Vec<ProcessingReport>,
    failures: &Vec<TaskFailure>,
) -> (r: JsonReport)
    ensures
        match config_name {
            Some(name) => r.config matches Some(c) && c@ == name@,
            None => r.config is None,
        },
        r.tasks@.len() == reports@.len(),
        forall|i: int| 0 <= i < reports@.len() ==> (#[trigger] r.tasks@[i]).tells(reports@[i]@),
        r.failures@.len() == failures@.len(),
        forall|i: int|
            0 <= i < failures@.len() ==> {
                let f = #[trigger] r.failures@[i];
                f.target@ == failures@[i].target@ && f.input@ == failures@[i].input@ && f.error@
                    == failures@[i].error@
            },
{
    let mut tasks: Vec<TaskJson> = Vec::new();
    while tasks.len() < reports.len()
        invariant
            tasks@.len() <= reports@.len(),
            forall|i: int| 0 <= i < tasks@.len() ==> (#[trigger] tasks@[i]).tells(reports@[i]@),
        decreases reports.len() - tasks.len(),
    {
        let i = tasks.len();
        tasks.push(task(&reports[i]));
    }
    let mut failed: Vec<FailureJson> = Vec::new();
    while failed.len() < failures.len()
        invariant
            failed@.len() <= failures@.len(),
            forall|i: int|
                0 <= i < failed@.len() ==> {
                    let f = #[trigger] failed@[i];
                    f.target@ == failures@[i].target@ && f.input@ == failures@[i].input@ && f.error@
                        == failures@[i].error@
                },
        decreases failures.len() - failed.len(),
    {
        let i = failed.len();
        failed.push(
            FailureJson {
                target: String::from_str(failures[i].target.as_str()),
                input: String::from_str(failures[i].input.as_str()),
                error: String::from_str(failures[i].error.as_str()),
            },
        );
    }
    let config: Option<String> = match config_name {
        Some(name) => Some(String::from_str(name)),
        None => None,
    };
    JsonReport { config, tasks, failures: failed }
}

/// The document gives a figure exactly when it is finite, and as it was metered. The peak to
/// loudness ratio is how far the true peak is above the integrated loudness, and the peak to
/// short-term ratio how far it is above the loudest short-term window.
pub proof fn law_document_gives_the_finite_figures(a: LoudnessAnalysis)
    ensures
        ({
            let j = analysis_of(a);
            &&& j.integrated_lufs == (if a.integrated_lufs.finite() {
                Some(a.integrated_lufs)
            } else {
                None
            })
            &&& j.loudness_range_lu == (if a.loudness_range_lu.finite() {
                Some(a.loudness_range_lu)
            } else {
                None
            })
            &&& j.max_momentary_lufs == (if a.max_momentary_lufs.finite() {
                Some(a.max_momentary_lufs)
            } else {
                None
            })
            &&& j.max_short_term_lufs == (if a.max_short_term_lufs.finite() {
                Some(a.max_short_term_lufs)
            } else {
                None
            })
            &&& j.true_peak_dbtp == (if a.true_peak_dbtp.finite() {
                Some(a.true_peak_dbtp)
            } else {
                None
            })
            &&& j.plr_db matches Some(d) ==> d.finite() && (a.true_peak_dbtp.finite()
                && a.integrated_lufs.finite() ==> is_difference(d, a.true_peak_dbtp, a.integrated_lufs))
            &&& j.psr_db matches Some(d) ==> d.finite() && (a.true_peak_dbtp.finite()
                && a.max_short_term_lufs.finite() ==> is_difference(
                d,
                a.true_peak_dbtp,
                a.max_short_term_lufs,
            ))
        }),
{
    let plr = a.true_peak_dbtp.difference(a.integrated_lufs);
    let psr = a.true_peak_dbtp.difference(a.max_short_term_lufs);
    if plr.finite() && a.true_peak_dbtp.finite() && a.integrated_lufs.finite() {
        law_difference_is_nearest(a.true_peak_dbtp, a.integrated_lufs);
    }
    if psr.finite() && a.true_peak_dbtp.finite() && a.max_short_term_lufs.finite() {
        law_difference_is_nearest(a.true_peak_dbtp, a.max_short_term_lufs);
    }
}

/// `d` is `a - b`, to within a part in `2^53`.
pub open spec fn is_difference(d: Level, a: Level, b: Level) -> bool {
    let exact = a.units() - b.units();
    let off = pow2(53) * (d.units() - exact);
    if exact < 0 {
        exact <= off <= -exact
    } else {
        -exact <= off <= exact
    }
}

/// An entry tells what was done to one input for one target, field by field.
pub proof fn law_entry_tells_the_report(entry: TaskJson, r: ReportView)
    requires
        entry.tells(r),
    ensures
        entry.target@ == r.target && entry.input@ == r.input && entry.output@ == r.output,
        entry.sample_rate.in_hz == r.in_rate && entry.sample_rate.out_hz == r.out_rate,
        entry.codec@ == r.codec && entry.format@ == r.format && entry.bwf == r.bwf,
        entry.dither.applied == r.dithered,
        match entry.dither.noise_shaping {
            Some(tag) => r.shaping_curve == Some(tag@),
            None => r.shaping_curve is None,
        },
        entry.limiter_gain_reduction_db == r.limiter_gain_reduction_db,
        entry.source == analysis_of(r.source) && entry.delivered == analysis_of(r.delivered),
        entry.warnings@.len() == r.warnings.len(),
        forall|i: int| 0 <= i < r.warnings.len() ==> (#[trigger] entry.warnings@[i])@ == r.warnings[i],
{
    assert forall|i: int| 0 <= i < r.warnings.len() implies (#[trigger] entry.warnings@[i])@
        == r.warnings[i] by {
        assert(views(entry.warnings@)[i] == r.warnings[i]);
    }
}

} // verus!

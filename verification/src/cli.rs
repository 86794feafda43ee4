//! The decisions and the texts of the command line.
use vstd::prelude::*;
use vstd::arithmetic::div_mod::*;
use crate::config::{
    law_plan_has_only_the_needed_steps, lemma_resolved_each, target_views, Config, ResampleQuality, ResolvedTarget,
    ResolvedTargetView,
};
use crate::decimal::{fixed, fixed_text};
use crate::level::Level;
use crate::path::{
    self, extension_of, law_same_path_is_an_equivalence, law_stem_and_extension, same_path,
};
use crate::ops::loudness::LoudnessAnalysis;
use crate::pipeline::{processed, ProcessingReport, ReportView, TaskFailure};
use crate::refusal::Refusal;
use crate::text::{self, digits, joined, starts_with, views};

verus! {

/// Config file that is looked up in the working directory when none is named.
pub const DEFAULT_CONFIG: &'static str = "mint.toml";

/// The arguments of a run.
#[derive(Debug, Clone)]
pub struct Args {
    /// Path of the configuration.
    pub config: Option<String>,
    /// Input files and glob patterns.
    pub inputs: Vec<String>,
    /// Render only these targets; all when empty.
    pub target: Vec<String>,
    /// Show what would be done, and do nothing.
    pub dry_run: bool,
    /// Number of parallel jobs.
    pub jobs: Option<usize>,
    /// Seed for reproducible dither.
    pub seed: Option<u64>,
    /// Stop after the first failure.
    pub fail_fast: bool,
    /// Allow the output to replace the input.
    pub force: bool,
    /// Log more.
    pub verbose: bool,
    /// Print less.
    pub quiet: bool,
    /// Report as JSON.
    pub json: bool,
}

// ---------------------------------------------------------------------------
// Configuration and targets.
// ---------------------------------------------------------------------------

/// The path of the configuration: the named one, else the default one if it exists.
pub fn resolve_config_path(explicit: Option<&str>, default_exists: bool) -> (r: Result<
    String,
    Refusal,
>)
    ensures
        match explicit {
            Some(p) => r matches Ok(c) && c@ == p@,
            None => if default_exists {
                r matches Ok(c) && c@ == DEFAULT_CONFIG@
            } else {
                r matches Err(e) && e@ == "no config given and "@ + DEFAULT_CONFIG@
                    + " not found in the working directory; pass --config <path>"@
            },
        },
{
    match explicit {
        Some(p) => Ok(String::from_str(p)),
        None => {
            if default_exists {
                Ok(String::from_str(DEFAULT_CONFIG))
            } else {
                let mut m = String::from_str("no config given and ");
                m.append(DEFAULT_CONFIG);
                m.append(" not found in the working directory; pass --config <path>");
                Err(Refusal::new(m))
            }
        },
    }
}

/// The refusal of a target that is not configured.
pub open spec fn unknown_target(name: Seq<char>, available: Seq<Seq<char>>) -> Seq<char> {
    "unknown target '"@ + name + "'; available: "@ + joined(available, ", "@)
}

/// `t`, with overwriting allowed if it is forced.
pub open spec fn forced(t: ResolvedTargetView, force: bool) -> ResolvedTargetView {
    ResolvedTargetView { overwrite: t.overwrite || force, ..t }
}

/// The first of `names` that is not configured, looking from `i` on.
pub open spec fn first_unknown(config: Config, names: Seq<Seq<char>>, i: int) -> Option<Seq<char>>
    decreases names.len() - i,
{
    if i < 0 || i >= names.len() {
        None
    } else if !config.targets.has(names[i]) {
        Some(names[i])
    } else {
        first_unknown(config, names, i + 1)
    }
}

/// The names that a request selects: all when it names none.
pub open spec fn selected_names(config: Config, requested: Seq<Seq<char>>) -> Seq<Seq<char>> {
    if requested.len() == 0 {
        config.targets.names()
    } else {
        requested
    }
}

/// The selected targets, or why they are refused.
pub open spec fn selection(config: Config, requested: Seq<Seq<char>>, force: bool) -> Result<
    Seq<ResolvedTargetView>,
    Seq<char>,
> {
    match first_unknown(config, requested, 0) {
        Some(name) => Err(unknown_target(name, config.targets.names())),
        None => {
            let names = selected_names(config, requested);
            match config.resolved_all(names, names.len() as int) {
                Err(m) => Err(m),
                Ok(all) => Ok(Seq::new(all.len(), |i: int| forced(all[i], force))),
            }
        },
    }
}

/// Refuse a request that names a target that is not configured.
fn check_requested(config: &Config, requested: &Vec<String>) -> (r: Result<(), Refusal>)
    ensures
        match r {
            Ok(_) => first_unknown(*config, views(requested@), 0) is None,
            Err(e) => first_unknown(*config, views(requested@), 0) matches Some(n) && e@
                == unknown_target(n, config.targets.names()),
        },
{
    let ghost wanted = views(requested@);
    let mut i: usize = 0;
    while i < requested.len()
        invariant
            wanted == views(requested@),
            i <= requested@.len(),
            first_unknown(*config, wanted, 0) == first_unknown(*config, wanted, i as int),
        decreases requested.len() - i,
    {
        let name = requested[i].as_str();
        assert(wanted[i as int] == name@);
        if !config.targets.contains_key(name) {
            let mut m = String::from_str("unknown target '");
            m.append(name);
            m.append("'; available: ");
            m.append(text::join(&config.target_names(), ", ").as_str());
            return Err(Refusal::new(m));
        }
        i = i + 1;
    }
    Ok(())
}

/// The targets that were asked for, or all of them. `force` allows all of them to overwrite.
pub fn resolve_selected_targets(config: &Config, requested: &Vec<String>, force: bool) -> (r: Result<
    Vec<ResolvedTarget>,
    Refusal,
>)
    ensures
        match r {
            Ok(all) => selection(*config, views(requested@), force) == Ok::<
                Seq<ResolvedTargetView>,
                Seq<char>,
            >(target_views(all@)),
            Err(e) => selection(*config, views(requested@), force) == Err::<
                Seq<ResolvedTargetView>,
                Seq<char>,
            >(e@),
        },
{
    match check_requested(config, requested) {
        Err(e) => {
            return Err(e);
        },
        Ok(_) => {},
    }
    let resolved = if requested.len() == 0 {
        config.resolve_all(&config.target_names())
    } else {
        config.resolve_all(requested)
    };
    let mut all = match resolved {
        Err(e) => {
            return Err(e);
        },
        Ok(all) => all,
    };
    let ghost plain = target_views(all@);
    let mut i: usize = 0;
    while i < all.len()
        invariant
            i <= all@.len(),
            all@.len() == plain.len(),
            forall|j: int| 0 <= j < i ==> (#[trigger] all@[j])@ == forced(plain[j], force),
            forall|j: int| i <= j < all@.len() ==> (#[trigger] all@[j])@ == plain[j],
        decreases all.len() - i,
    {
        if force {
            let mut t = all.remove(i);
            t.overwrite = true;
            all.insert(i, t);
        }
        assert(all@[i as int]@ =~= forced(plain[i as int], force));
        i = i + 1;
    }
    assert(target_views(all@) =~= Seq::new(plain.len(), |j: int| forced(plain[j], force)));
    Ok(all)
}

// ---------------------------------------------------------------------------
// Inputs.
// ---------------------------------------------------------------------------

/// The text holds a character that makes it a pattern.
pub open spec fn is_pattern(s: Seq<char>) -> bool {
    s.contains('*') || s.contains('?') || s.contains('[')
}

/// Whether an argument is a glob pattern.
pub fn looks_like_glob(input: &str) -> (r: bool)
    ensures
        r == is_pattern(input@),
{
    let n = input.unicode_len();
    let mut i: usize = 0;
    while i < n
        invariant
            n == input@.len(),
            i <= n,
            forall|k: int| 0 <= k < i ==> input@[k] != '*' && input@[k] != '?' && input@[k] != '[',
        decreases n - i,
    {
        let c = input.get_char(i);
        if c == '*' || c == '?' || c == '[' {
            assert(input@[i as int] == c);
            return true;
        }
        i = i + 1;
    }
    false
}

/// The lower-case form of an ASCII letter; every other character as it is.
pub open spec fn ascii_lower(c: char) -> int {
    if 65 <= c as int <= 90 {
        c as int + 32
    } else {
        c as int
    }
}

/// `s` in lower case is `lower`.
pub open spec fn lowers_to(s: Seq<char>, lower: Seq<char>) -> bool {
    s.len() == lower.len() && forall|i: int|
        0 <= i < s.len() ==> ascii_lower(#[trigger] s[i]) == lower[i] as int
}

/// The path names a file of a kind that can be read.
pub open spec fn supported(path: Seq<char>) -> bool {
    extension_of(path) matches Some(e) && (lowers_to(e, "wav"@) || lowers_to(e, "wave"@) || lowers_to(
        e,
        "aif"@,
    ) || lowers_to(e, "aiff"@))
}

fn is_in_lower_case(s: &str, lower: &str) -> (r: bool)
    ensures
        r == lowers_to(s@, lower@),
{
    let n = s.unicode_len();
    if n != lower.unicode_len() {
        return false;
    }
    let mut i: usize = 0;
    while i < n
        invariant
            n == s@.len(),
            n == lower@.len(),
            i <= n,
            forall|k: int| 0 <= k < i ==> ascii_lower(#[trigger] s@[k]) == lower@[k] as int,
        decreases n - i,
    {
        let x = s.get_char(i) as u32;
        let y = lower.get_char(i) as u32;
        let l: u32 = if 65 <= x && x <= 90 {
            x + 32
        } else {
            x
        };
        if l != y {
            assert(ascii_lower(s@[i as int]) != lower@[i as int] as int);
            return false;
        }
        i = i + 1;
    }
    true
}

/// Whether a path names a WAV or AIFF file. The case of the extension does not matter.
pub fn is_supported_input(path: &str) -> (r: bool)
    ensures
        r == supported(path@),
{
    match path::extension(path) {
        None => false,
        Some(ext) => {
            let e = ext.as_str();
            is_in_lower_case(e, "wav") || is_in_lower_case(e, "wave") || is_in_lower_case(e, "aif")
                || is_in_lower_case(e, "aiff")
        },
    }
}

/// `p` is in the list, however it is written.
pub open spec fn listed(list: Seq<Seq<char>>, p: Seq<char>) -> bool {
    exists|i: int| 0 <= i < list.len() && same_path(#[trigger] list[i], p)
}

/// The list with `p` added, if it can be read and is not in it yet.
pub open spec fn with_input(list: Seq<Seq<char>>, p: Seq<char>) -> Seq<Seq<char>> {
    if supported(p) && !listed(list, p) {
        list.push(p)
    } else {
        list
    }
}

/// The list with the first `n` of `found` added.
pub open spec fn with_inputs(list: Seq<Seq<char>>, found: Seq<Seq<char>>, n: int) -> Seq<Seq<char>>
    decreases n,
{
    if n <= 0 {
        list
    } else {
        with_input(with_inputs(list, found, n - 1), found[n - 1])
    }
}

/// Whatever `f` returns of a text is the value of `s`.
pub open spec fn tells<R, F: Fn(&str) -> R>(f: F, s: spec_fn(Seq<char>) -> R) -> bool {
    forall|t: &str, r: R| #[trigger] f.ensures((t,), r) ==> r == s(t@)
}

/// Whatever `f` finds for a pattern is the value of `s`.
pub open spec fn finds<F: Fn(&str) -> Result<Vec<String>, Refusal>>(
    f: F,
    s: spec_fn(Seq<char>) -> Result<Seq<Seq<char>>, Seq<char>>,
) -> bool {
    forall|t: &str, r: Result<Vec<String>, Refusal>| #[trigger]
        f.ensures((t,), r) ==> s(t@) == (match r {
            Ok(v) => Ok::<Seq<Seq<char>>, Seq<char>>(views(v@)),
            Err(e) => Err::<Seq<Seq<char>>, Seq<char>>(e@),
        })
}

/// The inputs that the first `n` arguments name, or why one of them is refused.
pub open spec fn named_inputs(
    tokens: Seq<Seq<char>>,
    n: int,
    exists_at: spec_fn(Seq<char>) -> bool,
    expand: spec_fn(Seq<char>) -> Result<Seq<Seq<char>>, Seq<char>>,
) -> Result<Seq<Seq<char>>, Seq<char>>
    decreases n,
{
    if n <= 0 {
        Ok(Seq::empty())
    } else {
        match named_inputs(tokens, n - 1, exists_at, expand) {
            Err(m) => Err(m),
            Ok(list) => {
                let t = tokens[n - 1];
                if is_pattern(t) {
                    match expand(t) {
                        Err(m) => Err(m),
                        Ok(found) => if found.len() == 0 {
                            Err("glob produced no matches: "@ + t)
                        } else {
                            Ok(with_inputs(list, found, found.len() as int))
                        },
                    }
                } else if !exists_at(t) {
                    Err("input path does not exist: "@ + t)
                } else {
                    Ok(with_input(list, t))
                }
            },
        }
    }
}

/// Once an argument is refused, the rest do not matter.
proof fn lemma_refused_argument(
    tokens: Seq<Seq<char>>,
    i: int,
    n: int,
    exists_at: spec_fn(Seq<char>) -> bool,
    expand: spec_fn(Seq<char>) -> Result<Seq<Seq<char>>, Seq<char>>,
)
    requires
        0 <= i <= n,
        named_inputs(tokens, i, exists_at, expand) is Err,
    ensures
        named_inputs(tokens, n, exists_at, expand) == named_inputs(tokens, i, exists_at, expand),
    decreases n - i,
{
    if i < n {
        lemma_refused_argument(tokens, i, n - 1, exists_at, expand);
    }
}

/// Add a path to the inputs.
fn add_input(list: &mut Vec<String>, p: &str)
    ensures
        views(final(list)@) == with_input(views(old(list)@), p@),
{
    if !is_supported_input(p) {
        return ;
    }
    let ghost before = views(list@);
    let mut i: usize = 0;
    while i < list.len()
        invariant
            before == views(list@),
            list@ == old(list)@,
            supported(p@),
            i <= list@.len(),
            forall|k: int| 0 <= k < i ==> !same_path(#[trigger] before[k], p@),
        decreases list.len() - i,
    {
        if path::same(list[i].as_str(), p) {
            assert(same_path(before[i as int], p@));
            return ;
        }
        i = i + 1;
    }
    list.push(String::from_str(p));
    assert(views(list@) =~= before.push(p@));
}

/// The input files that the arguments name, each once, in order. `exists_at` tells whether
/// there is a file, `expand` finds the files that match a pattern.
pub fn resolve_inputs<X: Fn(&str) -> bool, G: Fn(&str) -> Result<Vec<String>, Refusal>>(
    raw_inputs: &Vec<String>,
    exists_at: &X,
    expand: &G,
) -> (r: Result<Vec<String>, Refusal>)
    requires
        forall|t: &str| #[trigger] exists_at.requires((t,)),
        forall|t: &str| #[trigger] expand.requires((t,)),
    ensures
        r matches Ok(list) ==> forall|i: int|
            0 <= i < list@.len() ==> supported((#[trigger] list@[i])@),
        forall|
            x: spec_fn(Seq<char>) -> bool,
            g: spec_fn(Seq<char>) -> Result<Seq<Seq<char>>, Seq<char>>,
        |
            tells(*exists_at, x) && finds(*expand, g) ==> #[trigger] named_inputs(
                views(raw_inputs@),
                raw_inputs@.len() as int,
                x,
                g,
            ) == (match r {
                Ok(list) => Ok::<Seq<Seq<char>>, Seq<char>>(views(list@)),
                Err(e) => Err::<Seq<Seq<char>>, Seq<char>>(e@),
            }),
{
    let ghost tokens = views(raw_inputs@);
    let mut list: Vec<String> = Vec::new();
    assert(views(list@) =~= Seq::<Seq<char>>::empty());
    let mut i: usize = 0;
    while i < raw_inputs.len()
        invariant
            tokens == views(raw_inputs@),
            i <= raw_inputs@.len(),
            forall|t: &str| #[trigger] exists_at.requires((t,)),
            forall|t: &str| #[trigger] expand.requires((t,)),
            forall|k: int| 0 <= k < list@.len() ==> supported((#[trigger] list@[k])@),
            forall|
                x: spec_fn(Seq<char>) -> bool,
                g: spec_fn(Seq<char>) -> Result<Seq<Seq<char>>, Seq<char>>,
            |
                tells(*exists_at, x) && finds(*expand, g) ==> #[trigger] named_inputs(
                    tokens,
                    i as int,
                    x,
                    g,
                ) == Ok::<Seq<Seq<char>>, Seq<char>>(views(list@)),
        decreases raw_inputs.len() - i,
    {
        let token = raw_inputs[i].as_str();
        let ghost before = views(list@);
        assert(token@ == tokens[i as int]);
        let outcome = if looks_like_glob(token) {
            match expand(token) {
                Err(e) => Err(e),
                Ok(found) => {
                    if found.len() == 0 {
                        let mut m = String::from_str("glob produced no matches: ");
                        m.append(token);
                        Err(Refusal::new(m))
                    } else {
                        add_found(&mut list, &found);
                        Ok(())
                    }
                },
            }
        } else if !exists_at(token) {
            let mut m = String::from_str("input path does not exist: ");
            m.append(token);
            Err(Refusal::new(m))
        } else {
            add_input(&mut list, token);
            proof {
                lemma_with_input_supported(before, token@);
                assert forall|k: int| 0 <= k < list@.len() implies supported((#[trigger] list@[k])@) by {
                    assert(views(list@)[k] == list@[k]@);
                }
            }
            Ok(())
        };
        proof {
            assert forall|
                x: spec_fn(Seq<char>) -> bool,
                g: spec_fn(Seq<char>) -> Result<Seq<Seq<char>>, Seq<char>>,
            |
                tells(*exists_at, x) && finds(*expand, g) implies #[trigger] named_inputs(
                tokens,
                i + 1,
                x,
                g,
            ) == (match outcome {
                Ok(_) => Ok::<Seq<Seq<char>>, Seq<char>>(views(list@)),
                Err(e) => Err::<Seq<Seq<char>>, Seq<char>>(e@),
            }) by {
                assert(named_inputs(tokens, i as int, x, g) == Ok::<Seq<Seq<char>>, Seq<char>>(before));
            }
        }
        if let Err(e) = outcome {
            proof {
                assert forall|
                    x: spec_fn(Seq<char>) -> bool,
                    g: spec_fn(Seq<char>) -> Result<Seq<Seq<char>>, Seq<char>>,
                |
                    tells(*exists_at, x) && finds(*expand, g) implies #[trigger] named_inputs(
                    tokens,
                    tokens.len() as int,
                    x,
                    g,
                ) == Err::<Seq<Seq<char>>, Seq<char>>(e@) by {
                    lemma_refused_argument(tokens, i + 1, tokens.len() as int, x, g);
                }
            }
            return Err(e);
        }
        i = i + 1;
    }
    Ok(list)
}

/// Adding an input keeps the list readable.
proof fn lemma_with_input_supported(list: Seq<Seq<char>>, p: Seq<char>)
    requires
        forall|k: int| 0 <= k < list.len() ==> supported(#[trigger] list[k]),
    ensures
        forall|k: int| 0 <= k < with_input(list, p).len() ==> supported(
            #[trigger] with_input(list, p)[k],
        ),
{
}

/// Add all the paths that were found.
fn add_found(list: &mut Vec<String>, found: &Vec<String>)
    requires
        forall|k: int| 0 <= k < old(list)@.len() ==> supported((#[trigger] old(list)@[k])@),
    ensures
        views(final(list)@) == with_inputs(views(old(list)@), views(found@), found@.len() as int),
        forall|k: int| 0 <= k < final(list)@.len() ==> supported((#[trigger] final(list)@[k])@),
{
    let ghost start = views(list@);
    let mut k: usize = 0;
    while k < found.len()
        invariant
            start == views(old(list)@),
            k <= found@.len(),
            views(list@) == with_inputs(start, views(found@), k as int),
            forall|j: int| 0 <= j < list@.len() ==> supported((#[trigger] list@[j])@),
        decreases found.len() - k,
    {
        let ghost before = views(list@);
        add_input(list, found[k].as_str());
        proof {
            lemma_with_input_supported(before, views(found@)[k as int]);
            assert forall|j: int| 0 <= j < list@.len() implies supported((#[trigger] list@[j])@) by {
                assert(views(list@)[j] == list@[j]@);
            }
        }
        k = k + 1;
    }
}

/// A run needs an input.
pub fn check_inputs(inputs: &Vec<String>) -> (r: Result<(), Refusal>)
    ensures
        r is Err <==> inputs@.len() == 0,
        r matches Err(e) ==> e@ == "no supported input files resolved from provided arguments"@,
{
    if inputs.len() == 0 {
        Err(Refusal::of("no supported input files resolved from provided arguments"))
    } else {
        Ok(())
    }
}

// ---------------------------------------------------------------------------
// Jobs.
// ---------------------------------------------------------------------------

/// The jobs for `inputs` inputs and `targets` targets: pairs of their positions.
pub open spec fn job_pairs(inputs: nat, targets: nat) -> Seq<(usize, usize)> {
    Seq::new(
        inputs * targets,
        |k: int| ((k / targets as int) as usize, (k % targets as int) as usize),
    )
}

/// Every input with every target, input by input: the positions in the two lists.
pub fn cross(inputs: usize, targets: usize) -> (r: Vec<(usize, usize)>)
    ensures
        r@.len() == inputs * targets,
        forall|k: int|
            0 <= k < r@.len() ==> (#[trigger] r@[k]).0 == k / targets as int && r@[k].1 == k
                % targets as int,
        r@ == job_pairs(inputs as nat, targets as nat),
{
    let mut r: Vec<(usize, usize)> = Vec::new();
    let mut i: usize = 0;
    proof {
        assert(0 * targets == 0) by (nonlinear_arith);
    }
    while i < inputs
        invariant
            i <= inputs,
            r@.len() == i * targets,
            forall|k: int|
                0 <= k < r@.len() ==> (#[trigger] r@[k]).0 == k / targets as int && r@[k].1 == k
                    % targets as int,
        decreases inputs - i,
    {
        let mut j: usize = 0;
        while j < targets
            invariant
                i < inputs,
                j <= targets,
                r@.len() == i * targets + j,
                forall|k: int|
                    0 <= k < r@.len() ==> (#[trigger] r@[k]).0 == k / targets as int && r@[k].1 == k
                        % targets as int,
            decreases targets - j,
        {
            proof {
                lemma_fundamental_div_mod_converse(i * targets + j, targets as int, i as int, j as int);
            }
            r.push((i, j));
            j = j + 1;
        }
        proof {
            assert((i + 1) * targets == i * targets + targets) by (nonlinear_arith);
        }
        i = i + 1;
    }
    assert(r@ =~= job_pairs(inputs as nat, targets as nat));
    r
}

/// The number of workers: the one asked for, else one for every available processor.
pub fn worker_count(jobs: Option<usize>, available: Option<usize>) -> (r: usize)
    ensures
        r == (match jobs {
            Some(n) => n,
            None => match available {
                Some(n) => n,
                None => 1,
            },
        }),
{
    match jobs {
        Some(n) => n,
        None => match available {
            Some(n) => n,
            None => 1,
        },
    }
}

/// Whether the jobs run one after the other: to stop at the first failure, or with one worker.
pub fn is_sequential(fail_fast: bool, workers: usize) -> (r: bool)
    ensures
        r == (fail_fast || workers <= 1),
{
    fail_fast || workers <= 1
}

/// The reports among the first `n` outcomes.
pub open spec fn successes(outs: Seq<Result<ProcessingReport, TaskFailure>>, n: int) -> Seq<
    ProcessingReport,
>
    decreases n,
{
    if n <= 0 {
        Seq::empty()
    } else {
        match outs[n - 1] {
            Ok(r) => successes(outs, n - 1).push(r),
            Err(_) => successes(outs, n - 1),
        }
    }
}

/// The failures among the first `n` outcomes.
pub open spec fn failings(outs: Seq<Result<ProcessingReport, TaskFailure>>, n: int) -> Seq<TaskFailure>
    decreases n,
{
    if n <= 0 {
        Seq::empty()
    } else {
        match outs[n - 1] {
            Ok(_) => failings(outs, n - 1),
            Err(f) => failings(outs, n - 1).push(f),
        }
    }
}

proof fn lemma_prefix_outcomes(
    a: Seq<Result<ProcessingReport, TaskFailure>>,
    b: Seq<Result<ProcessingReport, TaskFailure>>,
    n: int,
)
    requires
        0 <= n <= a.len(),
        n <= b.len(),
        forall|k: int| 0 <= k < n ==> a[k] == b[k],
    ensures
        successes(a, n) == successes(b, n),
        failings(a, n) == failings(b, n),
    decreases n,
{
    if n > 0 {
        lemma_prefix_outcomes(a, b, n - 1);
    }
}

/// Part a batch into what was written and what failed, each in order.
pub fn collect(batch: Vec<Result<ProcessingReport, TaskFailure>>) -> (r: (
    Vec<ProcessingReport>,
    Vec<TaskFailure>,
))
    ensures
        r.0@ == successes(batch@, batch@.len() as int),
        r.1@ == failings(batch@, batch@.len() as int),
{
    let ghost all = batch@;
    let mut rest = batch;
    let mut reports: Vec<ProcessingReport> = Vec::new();
    let mut failures: Vec<TaskFailure> = Vec::new();
    let ghost mut done: int = 0;
    while rest.len() > 0
        invariant
            all == batch@,
            0 <= done,
            done + rest@.len() == all.len(),
            rest@ == all.skip(done),
            reports@ == successes(all, done),
            failures@ == failings(all, done),
        decreases rest.len(),
    {
        let next = rest.remove(0);
        assert(next == all[done]);
        match next {
            Ok(report) => reports.push(report),
            Err(failure) => failures.push(failure),
        }
        proof {
            done = done + 1;
            assert(rest@ =~= all.skip(done));
        }
    }
    (reports, failures)
}

/// `outs` are outcomes of running `jobs` in order: of all of them, or, when a failure ends the
/// run, of those up to the first failure.
pub open spec fn ran<F: Fn(usize, usize) -> Result<ProcessingReport, TaskFailure>>(
    run: F,
    jobs: Seq<(usize, usize)>,
    fail_fast: bool,
    outs: Seq<Result<ProcessingReport, TaskFailure>>,
) -> bool {
    &&& outs.len() <= jobs.len()
    &&& forall|k: int| 0 <= k < outs.len() ==> run.ensures(jobs[k], #[trigger] outs[k])
    &&& fail_fast ==> forall|k: int| 0 <= k < outs.len() - 1 ==> (#[trigger] outs[k]) is Ok
    &&& outs.len() == jobs.len() || (fail_fast && outs.len() > 0 && outs.last() is Err)
}

/// Run jobs one after the other. Failures are collected; with `fail_fast` the first one ends
/// the run.
pub fn run_in_order<F: Fn(usize, usize) -> Result<ProcessingReport, TaskFailure>>(
    jobs: &Vec<(usize, usize)>,
    fail_fast: bool,
    run: &F,
) -> (r: (Vec<ProcessingReport>, Vec<TaskFailure>))
    requires
        forall|i: usize, j: usize| #[trigger] run.requires((i, j)),
    ensures
        exists|outs: Seq<Result<ProcessingReport, TaskFailure>>|
            #![trigger ran(*run, jobs@, fail_fast, outs)]
            ran(*run, jobs@, fail_fast, outs) && r.0@ == successes(outs, outs.len() as int) && r.1@
                == failings(outs, outs.len() as int),
{
    let ghost mut outs: Seq<Result<ProcessingReport, TaskFailure>> = Seq::empty();
    let mut reports: Vec<ProcessingReport> = Vec::new();
    let mut failures: Vec<TaskFailure> = Vec::new();
    let mut k: usize = 0;
    let mut stopped = false;
    while k < jobs.len() && !stopped
        invariant
            forall|i: usize, j: usize| #[trigger] run.requires((i, j)),
            k <= jobs@.len(),
            outs.len() == k,
            reports@ == successes(outs, k as int),
            failures@ == failings(outs, k as int),
            forall|m: int| 0 <= m < outs.len() ==> run.ensures(jobs@[m], #[trigger] outs[m]),
            fail_fast ==> forall|m: int| 0 <= m < outs.len() - 1 ==> (#[trigger] outs[m]) is Ok,
            fail_fast && !stopped ==> forall|m: int| 0 <= m < outs.len() ==> (#[trigger] outs[m]) is Ok,
            stopped ==> fail_fast && k > 0 && outs.last() is Err,
        decreases jobs.len() - k,
    {
        let job = jobs[k];
        let outcome = run(job.0, job.1);
        let ghost before = outs;
        proof {
            outs = outs.push(outcome);
            lemma_prefix_outcomes(before, outs, k as int);
        }
        match outcome {
            Ok(report) => {
                reports.push(report);
            },
            Err(failure) => {
                failures.push(failure);
                stopped = fail_fast;
            },
        }
        k = k + 1;
    }
    proof {
        assert(ran(*run, jobs@, fail_fast, outs));
    }
    (reports, failures)
}

/// The failure of one job.
pub fn failure(target: &ResolvedTarget, input: &str, why: Refusal) -> (r: TaskFailure)
    ensures
        r.target@ == target.name@,
        r.input@ == input@,
        r.error@ == why@,
{
    TaskFailure {
        target: String::from_str(target.name.as_str()),
        input: String::from_str(input),
        error: why.message,
    }
}

// ---------------------------------------------------------------------------
// Texts.
// ---------------------------------------------------------------------------

/// The filter of the log.
pub fn log_level(verbose: bool, quiet: bool) -> (r: &'static str)
    ensures
        r@ == (if quiet {
            "error"@
        } else if verbose {
            "debug"@
        } else {
            "info"@
        }),
{
    if quiet {
        "error"
    } else if verbose {
        "debug"
    } else {
        "info"
    }
}

/// The line that names the configuration. It is left out when little is to be printed, and
/// when the output is JSON.
pub fn config_banner(config: &Config, quiet: bool, json: bool) -> (r: Option<String>)
    ensures
        r is Some <==> !quiet && !json && config.meta is Some && config.meta->0.name is Some,
        r matches Some(line) ==> line@ == "config: "@ + config.meta->0.name->0@,
{
    if quiet || json {
        return None;
    }
    match &config.meta {
        None => None,
        Some(meta) => match &meta.name {
            None => None,
            Some(name) => {
                let mut m = String::from_str("config: ");
                m.append(name.as_str());
                Some(m)
            },
        },
    }
}

/// The line that announces a parallel run.
pub fn parallel_notice(workers: usize, tasks: usize) -> (r: String)
    ensures
        r@ == "running "@ + digits(workers as nat) + " parallel jobs over "@ + digits(tasks as nat)
            + " task(s)"@,
{
    let mut m = String::from_str("running ");
    m.append(text::number(workers as u64).as_str());
    m.append(" parallel jobs over ");
    m.append(text::number(tasks as u64).as_str());
    m.append(" task(s)");
    m
}

/// The first line of a dry run.
pub fn dry_run_header(files: usize, targets: usize) -> (r: String)
    ensures
        r@ == "dry-run: "@ + digits(files as nat) + " file(s) x "@ + digits(targets as nat)
            + " target(s)"@,
{
    let mut m = String::from_str("dry-run: ");
    m.append(text::number(files as u64).as_str());
    m.append(" file(s) x ");
    m.append(text::number(targets as u64).as_str());
    m.append(" target(s)");
    m
}

/// The steps, one per line.
pub open spec fn step_lines(steps: Seq<Seq<char>>) -> Seq<Seq<char>> {
    Seq::new(steps.len(), |i: int| "      - "@ + steps[i])
}

/// The lines of one target in a dry run.
pub open spec fn target_lines(t: ResolvedTargetView, output: Seq<char>, source_rate: u32) -> Seq<
    Seq<char>,
> {
    seq!["  ["@ + t.name + "] -> "@ + output] + step_lines(t.plan(source_rate))
}

/// The lines of the first `n` targets in a dry run.
pub open spec fn planned_lines(
    input: Seq<char>,
    source_rate: u32,
    targets: Seq<ResolvedTargetView>,
    n: int,
) -> Seq<Seq<char>>
    decreases n,
{
    if n <= 0 {
        seq!["\n"@ + input + " ["@ + digits(source_rate as nat) + " Hz]"@]
    } else {
        let t = targets[n - 1];
        planned_lines(input, source_rate, targets, n - 1) + target_lines(
            t,
            t.output_path(input, t.delivery_rate(source_rate))->0,
            source_rate,
        )
    }
}

/// The lines of a dry run for one input. They end where an output path cannot be made.
pub fn dry_run_lines(input: &str, source_rate: u32, targets: &Vec<ResolvedTarget>) -> (r: (
    Vec<String>,
    Result<(), Refusal>,
))
    ensures
        ({
            let all = target_views(targets@);
            match r.1 {
                Ok(_) => views(r.0@) == planned_lines(input@, source_rate, all, all.len() as int)
                    && forall|i: int|
                    0 <= i < all.len() ==> (#[trigger] all[i]).output_path(
                        input@,
                        all[i].delivery_rate(source_rate),
                    ) is Some,
                Err(e) => e@ == "input file has no valid stem"@ && exists|i: int|
                    0 <= i < all.len() && (#[trigger] all[i]).output_path(
                        input@,
                        all[i].delivery_rate(source_rate),
                    ) is None && views(r.0@) == planned_lines(input@, source_rate, all, i) && (
                    forall|k: int|
                        0 <= k < i ==> (#[trigger] all[k]).output_path(
                            input@,
                            all[k].delivery_rate(source_rate),
                        ) is Some),
            }
        }),
{
    let ghost all = target_views(targets@);
    let mut lines: Vec<String> = Vec::new();
    let mut head = String::from_str("\n");
    head.append(input);
    head.append(" [");
    head.append(text::number(source_rate as u64).as_str());
    head.append(" Hz]");
    lines.push(head);
    assert(views(lines@) =~= planned_lines(input@, source_rate, all, 0));
    let mut i: usize = 0;
    while i < targets.len()
        invariant
            all == target_views(targets@),
            i <= targets@.len(),
            views(lines@) == planned_lines(input@, source_rate, all, i as int),
            forall|k: int|
                0 <= k < i ==> (#[trigger] all[k]).output_path(
                    input@,
                    all[k].delivery_rate(source_rate),
                ) is Some,
        decreases targets.len() - i,
    {
        let target = &targets[i];
        assert(target@ == all[i as int]);
        let ghost before = views(lines@);
        match target.render_output_path(input, target.out_rate(source_rate)) {
            Err(e) => {
                assert(all[i as int].output_path(
                    input@,
                    all[i as int].delivery_rate(source_rate),
                ) is None);
                return (lines, Err(e));
            },
            Ok(output) => {
                let mut m = String::from_str("  [");
                m.append(target.name.as_str());
                m.append("] -> ");
                m.append(output.as_str());
                let ghost first = m@;
                lines.push(m);
                let steps = target.describe(source_rate);
                let ghost plan = views(steps@);
                assert(views(lines@) =~= before + seq![first] + step_lines(plan).take(0));
                let mut k: usize = 0;
                while k < steps.len()
                    invariant
                        plan == views(steps@),
                        k <= steps@.len(),
                        views(lines@) == before + seq![first] + step_lines(plan).take(k as int),
                    decreases steps.len() - k,
                {
                    let ghost sofar = views(lines@);
                    let mut m = String::from_str("      - ");
                    m.append(steps[k].as_str());
                    lines.push(m);
                    proof {
                        assert(views(lines@) =~= sofar.push("      - "@ + plan[k as int]));
                        assert(step_lines(plan).take(k + 1) =~= step_lines(plan).take(k as int).push(
                            step_lines(plan)[k as int],
                        ));
                        assert(views(lines@) =~= before + seq![first] + step_lines(plan).take(k + 1));
                    }
                    k = k + 1;
                }
                proof {
                    assert(step_lines(plan).take(plan.len() as int) =~= step_lines(plan));
                    assert(views(lines@) =~= before + (seq![first] + step_lines(plan)));
                }
            },
        }
        i = i + 1;
    }
    (lines, Ok(()))
}

/// A figure with one decimal, or `n/a` when it is not finite.
pub open spec fn figure(v: Level) -> Seq<char> {
    if v.finite() {
        fixed_text(v, 1)
    } else {
        "n/a"@
    }
}

/// A figure in decibels or loudness units, or `n/a` when the meter had nothing to measure.
pub fn fmt_db(v: Level) -> (r: String)
    ensures
        r@ == figure(v),
{
    if v.is_finite() {
        fixed(v, 1)
    } else {
        String::from_str("n/a")
    }
}

/// What the limiter took off, for the summary.
pub open spec fn limiting_text(reduction: Option<Level>) -> Seq<char> {
    match reduction {
        Some(gr) => if (Level { bits: 0 }).below(gr) {
            " | limited -"@ + fixed_text(gr, 1) + " dB"@
        } else {
            Seq::empty()
        },
        None => Seq::empty(),
    }
}

/// What the quantizer did, for the summary.
pub open spec fn dither_text(r: ReportView) -> Seq<char> {
    match r.shaping_curve {
        Some(curve) => " +shaped("@ + curve + ")"@,
        None => if r.dithered {
            " +dither"@
        } else {
            Seq::empty()
        },
    }
}

/// The line with the files of a task.
pub open spec fn files_line(r: ReportView) -> Seq<char> {
    "  ["@ + r.target + "] "@ + r.input + " -> "@ + r.output
}

/// The line with the formats of a task.
pub open spec fn formats_line(r: ReportView) -> Seq<char> {
    "    "@ + digits(r.in_rate as nat) + " -> "@ + digits(r.out_rate as nat) + " Hz | "@ + r.codec
        + "/"@ + r.format + (if r.bwf {
        " (bwf)"@
    } else {
        Seq::empty()
    }) + dither_text(r) + limiting_text(r.limiter_gain_reduction_db)
}

/// The line with the loudness of a task.
pub open spec fn loudness_line(r: ReportView) -> Seq<char> {
    "    LUFS "@ + figure(r.source.integrated_lufs) + " -> "@ + figure(r.delivered.integrated_lufs)
        + " (I)  LRA "@ + figure(r.source.loudness_range_lu) + " -> "@ + figure(
        r.delivered.loudness_range_lu,
    ) + " LU  M "@ + figure(r.delivered.max_momentary_lufs) + "  S "@ + figure(
        r.delivered.max_short_term_lufs,
    ) + " LUFS"@
}

/// The line with the peaks of a task.
pub open spec fn peaks_line(r: ReportView) -> Seq<char> {
    "    TP "@ + figure(r.source.true_peak_dbtp) + " -> "@ + figure(r.delivered.true_peak_dbtp)
        + " dBTP  PLR "@ + figure(r.delivered.true_peak_dbtp.difference(r.delivered.integrated_lufs))
        + "  PSR "@ + figure(
        r.delivered.true_peak_dbtp.difference(r.delivered.max_short_term_lufs),
    ) + " dB"@
}

/// The lines of one task.
pub open spec fn task_lines(r: ReportView) -> Seq<Seq<char>> {
    seq![files_line(r), formats_line(r), loudness_line(r), peaks_line(r)] + Seq::new(
        r.warnings.len(),
        |i: int| "    warn: "@ + r.warnings[i],
    )
}

/// The views of some reports.
pub open spec fn report_views(reports: Seq<ProcessingReport>) -> Seq<ReportView> {
    Seq::new(reports.len(), |i: int| reports[i]@)
}

/// The lines of the first `n` tasks, after a line that counts all of them.
pub open spec fn tasks_lines(reports: Seq<ReportView>, n: int) -> Seq<Seq<char>>
    decreases n,
{
    if n <= 0 {
        seq!["processed "@ + digits(reports.len()) + " task(s)"@]
    } else {
        tasks_lines(reports, n - 1) + task_lines(reports[n - 1])
    }
}

/// How many of the first `n` tasks have warnings.
pub open spec fn warned(reports: Seq<ReportView>, n: int) -> nat
    decreases n,
{
    if n <= 0 {
        0
    } else {
        warned(reports, n - 1) + if reports[n - 1].warnings.len() > 0 {
            1nat
        } else {
            0
        }
    }
}

/// The whole summary.
pub open spec fn summary(reports: Seq<ReportView>) -> Seq<Seq<char>> {
    let n = reports.len() as int;
    if warned(reports, n) > 0 {
        tasks_lines(reports, n).push("("@ + digits(warned(reports, n)) + " task(s) with warnings)"@)
    } else {
        tasks_lines(reports, n)
    }
}

fn say_files(report: &ProcessingReport) -> (r: String)
    ensures
        r@ == files_line(report@),
{
    let mut m = String::from_str("  [");
    m.append(report.target.as_str());
    m.append("] ");
    m.append(report.input.as_str());
    m.append(" -> ");
    m.append(report.output.as_str());
    m
}

fn say_dither(report: &ProcessingReport) -> (r: String)
    ensures
        r@ == dither_text(report@),
{
    match report.shaping_curve {
        Some(curve) => {
            let mut m = String::from_str(" +shaped(");
            m.append(curve);
            m.append(")");
            m
        },
        None => {
            if report.dithered {
                String::from_str(" +dither")
            } else {
                let m = String::new();
                assert(m@ =~= Seq::<char>::empty());
                m
            }
        },
    }
}

fn say_limiting(reduction: Option<Level>) -> (r: String)
    ensures
        r@ == limiting_text(reduction),
{
    if let Some(gr) = reduction {
        if (Level { bits: 0 }).is_below(gr) {
            let mut m = String::from_str(" | limited -");
            m.append(fixed(gr, 1).as_str());
            m.append(" dB");
            return m;
        }
    }
    let m = String::new();
    assert(m@ =~= Seq::<char>::empty());
    m
}

fn say_formats(report: &ProcessingReport) -> (r: String)
    ensures
        r@ == formats_line(report@),
{
    let mut m = String::from_str("    ");
    m.append(text::number(report.in_rate as u64).as_str());
    m.append(" -> ");
    m.append(text::number(report.out_rate as u64).as_str());
    m.append(" Hz | ");
    m.append(report.codec.as_str());
    m.append("/");
    m.append(report.format.as_str());
    if report.bwf {
        m.append(" (bwf)");
    } else {
        assert(m@ + Seq::<char>::empty() =~= m@);
    }
    m.append(say_dither(report).as_str());
    m.append(say_limiting(report.limiter_gain_reduction_db).as_str());
    m
}

fn say_loudness(report: &ProcessingReport) -> (r: String)
    ensures
        r@ == loudness_line(report@),
{
    let mut m = String::from_str("    LUFS ");
    m.append(fmt_db(report.source.integrated_lufs).as_str());
    m.append(" -> ");
    m.append(fmt_db(report.delivered.integrated_lufs).as_str());
    m.append(" (I)  LRA ");
    m.append(fmt_db(report.source.loudness_range_lu).as_str());
    m.append(" -> ");
    m.append(fmt_db(report.delivered.loudness_range_lu).as_str());
    m.append(" LU  M ");
    m.append(fmt_db(report.delivered.max_momentary_lufs).as_str());
    m.append("  S ");
    m.append(fmt_db(report.delivered.max_short_term_lufs).as_str());
    m.append(" LUFS");
    m
}

fn say_peaks(report: &ProcessingReport) -> (r: String)
    ensures
        r@ == peaks_line(report@),
{
    let mut m = String::from_str("    TP ");
    m.append(fmt_db(report.source.true_peak_dbtp).as_str());
    m.append(" -> ");
    m.append(fmt_db(report.delivered.true_peak_dbtp).as_str());
    m.append(" dBTP  PLR ");
    m.append(fmt_db(report.delivered.plr()).as_str());
    m.append("  PSR ");
    m.append(fmt_db(report.delivered.psr()).as_str());
    m.append(" dB");
    m
}

/// Add the lines of one task.
fn say_task(lines: &mut Vec<String>, report: &ProcessingReport)
    ensures
        views(final(lines)@) == views(old(lines)@) + task_lines(report@),
{
    let ghost start = views(lines@);
    let ghost r = report@;
    let ghost whole = task_lines(r);
    lines.push(say_files(report));
    lines.push(say_formats(report));
    lines.push(say_loudness(report));
    lines.push(say_peaks(report));
    assert(views(lines@) =~= start + whole.take(4));
    let mut i: usize = 0;
    while i < report.warnings.len()
        invariant
            r == report@,
            whole == task_lines(r),
            start == views(old(lines)@),
            i <= report.warnings@.len(),
            views(lines@) == start + whole.take(4 + i),
        decreases report.warnings.len() - i,
    {
        let ghost sofar = views(lines@);
        let mut m = String::from_str("    warn: ");
        m.append(report.warnings[i].as_str());
        lines.push(m);
        proof {
            assert(r.warnings[i as int] == report.warnings@[i as int]@);
            assert(views(lines@) =~= sofar.push(whole[4 + i]));
            assert(whole.take(4 + i + 1) =~= whole.take(4 + i).push(whole[4 + i]));
            assert(views(lines@) =~= start + whole.take(4 + i + 1));
        }
        i = i + 1;
    }
    assert(whole.take(4 + i) =~= whole);
}

/// The summary of the tasks that were written.
pub fn report_lines(reports: &Vec<ProcessingReport>) -> (r: Vec<String>)
    ensures
        views(r@) == summary(report_views(reports@)),
{
    let ghost all = report_views(reports@);
    let mut lines: Vec<String> = Vec::new();
    let mut m = String::from_str("processed ");
    m.append(text::number(reports.len() as u64).as_str());
    m.append(" task(s)");
    lines.push(m);
    assert(views(lines@) =~= tasks_lines(all, 0));
    let mut count: u64 = 0;
    let mut i: usize = 0;
    while i < reports.len()
        invariant
            all == report_views(reports@),
            i <= reports@.len(),
            views(lines@) == tasks_lines(all, i as int),
            count == warned(all, i as int),
            count <= i,
        decreases reports.len() - i,
    {
        say_task(&mut lines, &reports[i]);
        assert(all[i as int] == reports@[i as int]@);
        if reports[i].warnings.len() > 0 {
            count = count + 1;
        }
        i = i + 1;
    }
    if count > 0 {
        let ghost sofar = views(lines@);
        let mut m = String::from_str("(");
        m.append(text::number(count).as_str());
        m.append(" task(s) with warnings)");
        lines.push(m);
        assert(views(lines@) =~= sofar.push(
            "("@ + digits(warned(all, all.len() as int)) + " task(s) with warnings)"@,
        ));
    }
    lines
}

/// The line of one failure.
pub open spec fn failure_line(f: TaskFailure) -> Seq<char> {
    "  ["@ + f.target@ + "] "@ + f.input@ + " => "@ + f.error@
}

/// The lines that list the failures.
pub fn failure_lines(failures: &Vec<TaskFailure>) -> (r: Vec<String>)
    ensures
        r@.len() == failures@.len() + 1,
        r@[0]@ == "\n"@ + digits(failures@.len()) + " task(s) failed:"@,
        forall|i: int|
            0 <= i < failures@.len() ==> (#[trigger] r@[i + 1])@ == failure_line(failures@[i]),
{
    let mut lines: Vec<String> = Vec::new();
    let mut m = String::from_str("\n");
    m.append(text::number(failures.len() as u64).as_str());
    m.append(" task(s) failed:");
    lines.push(m);
    let mut i: usize = 0;
    while i < failures.len()
        invariant
            i <= failures@.len(),
            lines@.len() == i + 1,
            lines@[0]@ == "\n"@ + digits(failures@.len()) + " task(s) failed:"@,
            forall|k: int|
                0 <= k < i ==> (#[trigger] lines@[k + 1])@ == failure_line(failures@[k]),
        decreases failures.len() - i,
    {
        let mut m = String::from_str("  [");
        m.append(failures[i].target.as_str());
        m.append("] ");
        m.append(failures[i].input.as_str());
        m.append(" => ");
        m.append(failures[i].error.as_str());
        lines.push(m);
        i = i + 1;
    }
    lines
}

/// A run with failures fails.
pub fn outcome(failures: usize) -> (r: Result<(), Refusal>)
    ensures
        r is Err <==> failures > 0,
        r matches Err(e) ==> e@ == "processing completed with "@ + digits(failures as nat)
            + " failure(s)"@,
{
    if failures == 0 {
        return Ok(());
    }
    let mut m = String::from_str("processing completed with ");
    m.append(text::number(failures as u64).as_str());
    m.append(" failure(s)");
    Err(Refusal::new(m))
}

// ---------------------------------------------------------------------------
// Laws.
// ---------------------------------------------------------------------------

/// Every input is rendered into every target exactly once: job `i * targets + j` is the one for
/// input `i` and target `j`, and no other job is.
pub proof fn law_every_pair_is_rendered_once(inputs: nat, targets: nat, i: nat, j: nat, k: nat)
    requires
        i < inputs,
        j < targets,
        k < inputs * targets,
    ensures
        i * targets + j < inputs * targets,
        (k / targets == i && k % targets == j) <==> k == i * targets + j,
{
    let w = targets as int;
    assert(i * w + j < (i + 1) * w && (i + 1) * w <= inputs * w) by (nonlinear_arith)
        requires
            0 <= j < w,
            i + 1 <= inputs,
    ;
    lemma_fundamental_div_mod(k as int, w);
    lemma_fundamental_div_mod_converse((i * targets + j) as int, w, i as int, j as int);
    assert(w * (k as int / w) == (k as int / w) * w) by (nonlinear_arith);
}

/// Every outcome is reported once: as a report or as a failure.
pub proof fn law_no_outcome_is_lost(outs: Seq<Result<ProcessingReport, TaskFailure>>, n: int)
    requires
        0 <= n <= outs.len(),
    ensures
        successes(outs, n).len() + failings(outs, n).len() == n,
    decreases n,
{
    if n > 0 {
        law_no_outcome_is_lost(outs, n - 1);
    }
}

/// A dry run names every file: the path that a task is written to stands in the line of its
/// target.
pub proof fn law_dry_run_names_the_files<B>(
    targets: Seq<ResolvedTargetView>,
    i: int,
    b: B,
    source_rate: u32,
    input: Seq<char>,
    analyze: spec_fn(B) -> Result<LoudnessAnalysis, Refusal>,
    lufs: spec_fn(B) -> Result<Level, Refusal>,
    peak: spec_fn(B) -> Result<Level, Refusal>,
    amplify: spec_fn(B, Level) -> B,
    limit: spec_fn(B, Level) -> Result<B, Refusal>,
    resample: spec_fn(B, u32, ResampleQuality) -> Result<B, Refusal>,
)
    requires
        0 <= i < targets.len(),
    ensures
        processed(b, source_rate, input, targets[i], analyze, lufs, peak, amplify, limit, resample).1 matches Ok(
            p,
        ) ==> planned_lines(input, source_rate, targets, targets.len() as int).contains(
            "  ["@ + targets[i].name + "] -> "@ + p.output,
        ),
{
    lemma_planned(input, source_rate, targets, targets.len() as int, i);
}

proof fn lemma_planned(
    input: Seq<char>,
    source_rate: u32,
    targets: Seq<ResolvedTargetView>,
    n: int,
    i: int,
)
    requires
        0 <= i < n <= targets.len(),
    ensures
        planned_lines(input, source_rate, targets, n).contains(
            "  ["@ + targets[i].name + "] -> "@ + targets[i].output_path(
                input,
                targets[i].delivery_rate(source_rate),
            )->0,
        ),
    decreases n,
{
    let t = targets[n - 1];
    let before = planned_lines(input, source_rate, targets, n - 1);
    let added = target_lines(t, t.output_path(input, t.delivery_rate(source_rate))->0, source_rate);
    let line = "  ["@ + targets[i].name + "] -> "@ + targets[i].output_path(
        input,
        targets[i].delivery_rate(source_rate),
    )->0;
    if i < n - 1 {
        lemma_planned(input, source_rate, targets, n - 1, i);
        let k = before.index_of(line);
        assert((before + added)[k] == line);
    } else {
        assert((before + added)[before.len() as int] == line);
    }
}

/// A dry run announces resampling: where the plan has no resampling step, the task does not
/// depend on the resampler.
pub proof fn law_unplanned_resampling_does_not_happen<B>(
    b: B,
    source_rate: u32,
    input: Seq<char>,
    t: ResolvedTargetView,
    analyze: spec_fn(B) -> Result<LoudnessAnalysis, Refusal>,
    lufs: spec_fn(B) -> Result<Level, Refusal>,
    peak: spec_fn(B) -> Result<Level, Refusal>,
    amplify: spec_fn(B, Level) -> B,
    limit: spec_fn(B, Level) -> Result<B, Refusal>,
    one: spec_fn(B, u32, ResampleQuality) -> Result<B, Refusal>,
    other: spec_fn(B, u32, ResampleQuality) -> Result<B, Refusal>,
)
    requires
        !starts_with(t.plan(source_rate)[1], "resample "@),
    ensures
        processed(b, source_rate, input, t, analyze, lufs, peak, amplify, limit, one) == processed(
            b,
            source_rate,
            input,
            t,
            analyze,
            lufs,
            peak,
            amplify,
            limit,
            other,
        ),
{
    law_plan_has_only_the_needed_steps(t, source_rate);
}

/// No input is listed twice.
pub proof fn law_inputs_are_listed_once(
    tokens: Seq<Seq<char>>,
    n: int,
    exists_at: spec_fn(Seq<char>) -> bool,
    expand: spec_fn(Seq<char>) -> Result<Seq<Seq<char>>, Seq<char>>,
    i: int,
    j: int,
)
    requires
        0 <= n <= tokens.len(),
    ensures
        named_inputs(tokens, n, exists_at, expand) matches Ok(list) ==> 0 <= i < j < list.len()
            ==> !same_path(list[i], list[j]),
{
    lemma_inputs_apart(tokens, n, exists_at, expand);
    if let Ok(list) = named_inputs(tokens, n, exists_at, expand) {
        if 0 <= i < j < list.len() {
            assert(apart(list, i, j));
        }
    }
}

/// Entries `i` and `j` are different paths.
spec fn apart(list: Seq<Seq<char>>, i: int, j: int) -> bool {
    !same_path(list[i], list[j])
}

spec fn all_apart(list: Seq<Seq<char>>) -> bool {
    forall|i: int, j: int| 0 <= i < j < list.len() ==> #[trigger] apart(list, i, j)
}

proof fn lemma_with_input_apart(list: Seq<Seq<char>>, p: Seq<char>)
    requires
        all_apart(list),
    ensures
        all_apart(with_input(list, p)),
{
    let more = with_input(list, p);
    assert forall|i: int, j: int| 0 <= i < j < more.len() implies #[trigger] apart(more, i, j) by {
        if j < list.len() {
            assert(apart(list, i, j));
        } else {
            assert(list[i] == more[i]);
            assert(!same_path(list[i], p));
        }
    }
}

proof fn lemma_with_inputs_apart(list: Seq<Seq<char>>, found: Seq<Seq<char>>, n: int)
    requires
        all_apart(list),
    ensures
        all_apart(with_inputs(list, found, n)),
    decreases n,
{
    if n > 0 {
        lemma_with_inputs_apart(list, found, n - 1);
        lemma_with_input_apart(with_inputs(list, found, n - 1), found[n - 1]);
    }
}

proof fn lemma_inputs_apart(
    tokens: Seq<Seq<char>>,
    n: int,
    exists_at: spec_fn(Seq<char>) -> bool,
    expand: spec_fn(Seq<char>) -> Result<Seq<Seq<char>>, Seq<char>>,
)
    ensures
        named_inputs(tokens, n, exists_at, expand) matches Ok(list) ==> all_apart(list),
    decreases n,
{
    if n > 0 {
        lemma_inputs_apart(tokens, n - 1, exists_at, expand);
        if let Ok(list) = named_inputs(tokens, n - 1, exists_at, expand) {
            let t = tokens[n - 1];
            lemma_with_input_apart(list, t);
            if let Ok(found) = expand(t) {
                lemma_with_inputs_apart(list, found, found.len() as int);
            }
        }
    }
}

/// Forcing allows every selected target to overwrite, and changes nothing else.
pub proof fn law_forcing_only_allows_overwriting(config: Config, requested: Seq<Seq<char>>, i: int)
    ensures
        selection(config, requested, true) is Ok <==> selection(config, requested, false) is Ok,
        selection(config, requested, true) matches Ok(a) ==> {
            let b = selection(config, requested, false)->Ok_0;
            a.len() == b.len() && (0 <= i < a.len() ==> a[i].overwrite && a[i] == (ResolvedTargetView {
                overwrite: true,
                ..b[i]
            }))
        },
{
}

/// The jobs are all pairs: every input meets every target in exactly one job, and a job is for
/// an input and a target that there are.
pub proof fn law_jobs_are_all_pairs(inputs: usize, targets: usize)
    ensures
        forall|i: usize, j: usize|
            i < inputs && j < targets ==> #[trigger] job_pairs(inputs as nat, targets as nat).contains(
                (i, j),
            ),
        job_pairs(inputs as nat, targets as nat).no_duplicates(),
        forall|k: int|
            0 <= k < job_pairs(inputs as nat, targets as nat).len() ==> {
                let job = #[trigger] job_pairs(inputs as nat, targets as nat)[k];
                job.0 < inputs && job.1 < targets
            },
{
    let jobs = job_pairs(inputs as nat, targets as nat);
    let w = targets as int;
    assert forall|k: int| 0 <= k < jobs.len() implies ({
        let job = #[trigger] jobs[k];
        &&& job.0 < inputs && job.1 < targets
        &&& k == job.0 * w + job.1
    }) by {
        assert(w > 0) by (nonlinear_arith)
            requires
                0 <= k < inputs * w,
                w >= 0,
        ;
        lemma_fundamental_div_mod(k, w);
        lemma_mod_bound(k, w);
        let q = k / w;
        assert(0 <= q < inputs) by (nonlinear_arith)
            requires
                k == w * q + k % w,
                0 <= k % w < w,
                0 <= k < inputs * w,
        ;
        assert(w * q == q * w) by (nonlinear_arith);
    }
    assert forall|i: usize, j: usize| i < inputs && j < targets implies #[trigger] jobs.contains((i, j)) by {
        let k = i * w + j;
        assert(0 <= k < inputs * w) by (nonlinear_arith)
            requires
                k == i * w + j,
                0 <= i < inputs,
                0 <= j < w,
        ;
        law_every_pair_is_rendered_once(
            inputs as nat,
            targets as nat,
            i as nat,
            j as nat,
            k as nat,
        );
        assert(jobs[k] == (i, j));
    }
    assert forall|a: int, b: int| 0 <= a < jobs.len() && 0 <= b < jobs.len() && a != b implies jobs[a]
        != jobs[b] by {
        assert(a == jobs[a].0 * w + jobs[a].1);
        assert(b == jobs[b].0 * w + jobs[b].1);
    }
}

/// How many of the first `n` outcomes are reports.
pub open spec fn reports_among(outs: Seq<Result<ProcessingReport, TaskFailure>>, n: int) -> int
    decreases n,
{
    if n <= 0 {
        0
    } else {
        reports_among(outs, n - 1) + if outs[n - 1] is Ok {
            1int
        } else {
            0
        }
    }
}

/// Reports and failures keep their order: outcome `k` stands among the reports, or the
/// failures, behind exactly those of its kind that came before it.
pub proof fn law_outcomes_keep_their_order(
    outs: Seq<Result<ProcessingReport, TaskFailure>>,
    n: int,
    k: int,
)
    requires
        0 <= k < n <= outs.len(),
    ensures
        successes(outs, n).len() == reports_among(outs, n),
        failings(outs, n).len() == n - reports_among(outs, n),
        0 <= reports_among(outs, k) <= k,
        outs[k] matches Ok(r) ==> reports_among(outs, k) < successes(outs, n).len() && successes(
            outs,
            n,
        )[reports_among(outs, k)] == r,
        outs[k] matches Err(f) ==> k - reports_among(outs, k) < failings(outs, n).len() && failings(
            outs,
            n,
        )[k - reports_among(outs, k)] == f,
    decreases n,
{
    lemma_counts(outs, n - 1);
    lemma_counts(outs, k);
    if k < n - 1 {
        law_outcomes_keep_their_order(outs, n - 1, k);
    }
}

proof fn lemma_counts(outs: Seq<Result<ProcessingReport, TaskFailure>>, n: int)
    requires
        0 <= n <= outs.len(),
    ensures
        successes(outs, n).len() == reports_among(outs, n),
        failings(outs, n).len() == n - reports_among(outs, n),
        0 <= reports_among(outs, n) <= n,
    decreases n,
{
    if n > 0 {
        lemma_counts(outs, n - 1);
    }
}

/// The selected targets are those that were asked for, in that order, or all in the order of
/// their names when none was asked for. Each is resolved as the configuration says and may
/// overwrite if it allows that itself or is forced to. A name that is not configured is
/// refused.
#[verifier::spinoff_prover]
#[verifier::rlimit(40)]
pub proof fn law_selected_targets(config: Config, requested: Seq<Seq<char>>, force: bool)
    ensures
        selection(config, requested, force) matches Ok(a) ==> {
            let names = if requested.len() == 0 {
                config.targets.names()
            } else {
                requested
            };
            &&& a.len() == names.len()
            &&& forall|i: int|
                0 <= i < names.len() ==> (config.resolved(#[trigger] names[i]) matches Ok(t) && a[i].name
                    == t.name && a[i] == (ResolvedTargetView { overwrite: t.overwrite || force, ..t }))
            &&& forall|i: int| 0 <= i < requested.len() ==> config.targets.has(#[trigger] requested[i])
        },
        (exists|i: int| 0 <= i < requested.len() && !config.targets.has(#[trigger] requested[i]))
            ==> selection(config, requested, force) is Err,
{
    lemma_first_unknown(config, requested, 0);
    if let Ok(a) = selection(config, requested, force) {
        let names = selected_names(config, requested);
        assert forall|i: int| 0 <= i < names.len() implies (config.resolved(#[trigger] names[i]) matches Ok(
            t,
        ) && a[i].name == t.name && a[i] == (ResolvedTargetView {
            overwrite: t.overwrite || force,
            ..t
        })) by {
            lemma_selected(config, requested, force, i);
        }
        assert(a.len() == names.len()) by {
            lemma_selected_count(config, requested, force);
        }
    }
}

proof fn lemma_selected_count(config: Config, requested: Seq<Seq<char>>, force: bool)
    requires
        selection(config, requested, force) is Ok,
    ensures
        selection(config, requested, force)->Ok_0.len() == selected_names(config, requested).len(),
{
    let names = selected_names(config, requested);
    let n = names.len() as int;
    lemma_resolved_count(config, names, n);
}

proof fn lemma_resolved_count(config: Config, names: Seq<Seq<char>>, n: int)
    requires
        0 <= n,
        config.resolved_all(names, n) is Ok,
    ensures
        config.resolved_all(names, n)->Ok_0.len() == n,
    decreases n,
{
    if n > 0 {
        lemma_resolved_count(config, names, n - 1);
    }
}

#[verifier::spinoff_prover]
proof fn lemma_selected(config: Config, requested: Seq<Seq<char>>, force: bool, i: int)
    requires
        selection(config, requested, force) is Ok,
        0 <= i < selected_names(config, requested).len(),
    ensures
        ({
            let a = selection(config, requested, force)->Ok_0;
            let t = config.resolved(selected_names(config, requested)[i])->Ok_0;
            &&& config.resolved(selected_names(config, requested)[i]) is Ok
            &&& a[i].name == t.name
            &&& a[i] == (ResolvedTargetView { overwrite: t.overwrite || force, ..t })
        }),
{
    let names = selected_names(config, requested);
    let n = names.len() as int;
    lemma_resolved_each(config, names, n, i);
    let all = config.resolved_all(names, n)->Ok_0;
    let t = config.resolved(names[i])->Ok_0;
    assert(all[i] == t);
    assert(selection(config, requested, force)->Ok_0[i] == forced(t, force));
}

proof fn lemma_first_unknown(config: Config, names: Seq<Seq<char>>, i: int)
    requires
        0 <= i <= names.len(),
    ensures
        first_unknown(config, names, i) is None <==> forall|k: int|
            i <= k < names.len() ==> config.targets.has(#[trigger] names[k]),
    decreases names.len() - i,
{
    if i < names.len() {
        lemma_first_unknown(config, names, i + 1);
        if !config.targets.has(names[i]) {
            assert(!(forall|k: int| i <= k < names.len() ==> config.targets.has(#[trigger] names[k])));
        }
    }
}

/// `p` is named by an argument: it is the argument, or among what is found for it.
pub open spec fn is_named(
    p: Seq<char>,
    tokens: Seq<Seq<char>>,
    n: int,
    expand: spec_fn(Seq<char>) -> Result<Seq<Seq<char>>, Seq<char>>,
) -> bool {
    exists|i: int|
        0 <= i < n && (if is_pattern(#[trigger] tokens[i]) {
            expand(tokens[i]) matches Ok(found) && found.contains(p)
        } else {
            p == tokens[i]
        })
}

/// The inputs are the readable files that the arguments name: each of them is listed, under its
/// path or another one for the same file, and nothing else is. Arguments that are no patterns
/// exist, and patterns have matches.
pub proof fn law_inputs_are_the_named_files(
    tokens: Seq<Seq<char>>,
    n: int,
    exists_at: spec_fn(Seq<char>) -> bool,
    expand: spec_fn(Seq<char>) -> Result<Seq<Seq<char>>, Seq<char>>,
)
    requires
        0 <= n <= tokens.len(),
    ensures
        named_inputs(tokens, n, exists_at, expand) matches Ok(list) ==> {
            &&& forall|p: Seq<char>|
                supported(p) && #[trigger] is_named(p, tokens, n, expand) ==> exists|k: int|
                    0 <= k < list.len() && same_path(#[trigger] list[k], p)
            &&& forall|k: int|
                0 <= k < list.len() ==> supported(#[trigger] list[k]) && is_named(
                    list[k],
                    tokens,
                    n,
                    expand,
                )
            &&& forall|i: int|
                0 <= i < n ==> if is_pattern(#[trigger] tokens[i]) {
                    expand(tokens[i]) matches Ok(found) && found.len() > 0
                } else {
                    exists_at(tokens[i])
                }
        },
        (forall|i: int|
            0 <= i < n ==> if is_pattern(#[trigger] tokens[i]) {
                expand(tokens[i]) matches Ok(found) && found.len() > 0
            } else {
                exists_at(tokens[i])
            }) ==> named_inputs(tokens, n, exists_at, expand) is Ok,
    decreases n,
{
    if n > 0 {
        law_inputs_are_the_named_files(tokens, n - 1, exists_at, expand);
        let t = tokens[n - 1];
        if let Ok(list) = named_inputs(tokens, n, exists_at, expand) {
            let before = named_inputs(tokens, n - 1, exists_at, expand)->Ok_0;
            let found = if is_pattern(t) {
                expand(t)->Ok_0
            } else {
                seq![t]
            };
            lemma_with_inputs(before, found, found.len() as int);
            if !is_pattern(t) {
                assert(with_inputs(before, found, 0) == before);
                assert(with_inputs(before, found, 1) == with_input(before, found[0]));
            }
            assert(list == with_inputs(before, found, found.len() as int));
            assert forall|p: Seq<char>|
                supported(p) && #[trigger] is_named(p, tokens, n, expand) implies exists|k: int|
                0 <= k < list.len() && same_path(#[trigger] list[k], p) by {
                let i = choose|i: int|
                    0 <= i < n && (if is_pattern(#[trigger] tokens[i]) {
                        expand(tokens[i]) matches Ok(f) && f.contains(p)
                    } else {
                        p == tokens[i]
                    });
                if i < n - 1 {
                    assert(is_named(p, tokens, n - 1, expand));
                    let k = choose|k: int| 0 <= k < before.len() && same_path(#[trigger] before[k], p);
                    assert(list[k] == before[k]);
                } else {
                    let m = choose|m: int| 0 <= m < found.len() && found[m] == p;
                    assert(found[m] == p);
                    assert(listed(list, found[m]));
                }
            }
            assert forall|k: int| 0 <= k < list.len() implies supported(#[trigger] list[k]) && is_named(
                list[k],
                tokens,
                n,
                expand,
            ) by {
                if k < before.len() {
                    assert(list[k] == before[k]);
                    assert(is_named(before[k], tokens, n - 1, expand));
                    let i = choose|i: int|
                        0 <= i < n - 1 && (if is_pattern(#[trigger] tokens[i]) {
                            expand(tokens[i]) matches Ok(f) && f.contains(before[k])
                        } else {
                            before[k] == tokens[i]
                        });
                    assert(0 <= i < n && tokens[i] == tokens[i]);
                } else {
                    assert(found.contains(list[k]));
                    assert(tokens[n - 1] == t);
                }
            }
        }
    }
}

/// What adding the paths that were found does.
proof fn lemma_with_inputs(list: Seq<Seq<char>>, found: Seq<Seq<char>>, n: int)
    requires
        0 <= n <= found.len(),
    ensures
        ({
            let more = with_inputs(list, found, n);
            &&& more.len() >= list.len()
            &&& forall|k: int| 0 <= k < list.len() ==> #[trigger] more[k] == list[k]
            &&& forall|k: int|
                list.len() <= k < more.len() ==> supported(#[trigger] more[k]) && found.contains(more[k])
            &&& forall|m: int|
                0 <= m < n && supported(#[trigger] found[m]) ==> listed(more, found[m])
        }),
    decreases n,
{
    if n > 0 {
        lemma_with_inputs(list, found, n - 1);
        let before = with_inputs(list, found, n - 1);
        let more = with_inputs(list, found, n);
        let p = found[n - 1];
        assert(found.contains(p));
        assert forall|m: int| 0 <= m < n && supported(#[trigger] found[m]) implies listed(
            more,
            found[m],
        ) by {
            if m < n - 1 {
                let k = choose|k: int| 0 <= k < before.len() && same_path(#[trigger] before[k], found[m]);
                assert(more[k] == before[k]);
            } else if listed(before, p) {
                let k = choose|k: int| 0 <= k < before.len() && same_path(#[trigger] before[k], p);
                assert(more[k] == before[k]);
            } else {
                law_same_path_is_an_equivalence(p, p, p);
                assert(more[before.len() as int] == p);
            }
        }
        assert forall|k: int| list.len() <= k < more.len() implies supported(#[trigger] more[k])
            && found.contains(more[k]) by {
            if k < before.len() {
                assert(more[k] == before[k]);
            }
        }
    }
}

/// Inputs keep the order of the arguments: later arguments only add to the list.
pub proof fn law_inputs_keep_their_order(
    tokens: Seq<Seq<char>>,
    n: int,
    exists_at: spec_fn(Seq<char>) -> bool,
    expand: spec_fn(Seq<char>) -> Result<Seq<Seq<char>>, Seq<char>>,
)
    requires
        0 < n <= tokens.len(),
        named_inputs(tokens, n, exists_at, expand) is Ok,
    ensures
        named_inputs(tokens, n - 1, exists_at, expand) matches Ok(before)
            && before.len() <= named_inputs(tokens, n, exists_at, expand)->Ok_0.len() && named_inputs(
            tokens,
            n,
            exists_at,
            expand,
        )->Ok_0.take(before.len() as int) == before,
{
    let before = named_inputs(tokens, n - 1, exists_at, expand)->Ok_0;
    let list = named_inputs(tokens, n, exists_at, expand)->Ok_0;
    let t = tokens[n - 1];
    if is_pattern(t) {
        let found = expand(t)->Ok_0;
        lemma_with_inputs(before, found, found.len() as int);
    }
    assert(list.take(before.len() as int) =~= before);
}

/// A character is this letter, in either case.
pub open spec fn is_letter(c: char, lower: char, upper: char) -> bool {
    c == lower || c == upper
}

/// The readable files are those whose extension is `wav`, `wave`, `aif` or `aiff`, in either
/// case.
pub proof fn law_readable_files(dir: Seq<char>, stem: Seq<char>, ext: Seq<char>)
    requires
        dir.len() > 0,
        stem.len() > 0,
        text::free_of(stem, '/'),
        text::free_of(ext, '/'),
        text::free_of(ext, '.'),
        stem + seq!['.'] + ext != seq!['.', '.'],
    ensures
        supported(dir + seq!['/'] + (stem + seq!['.'] + ext)) <==> ({
            ||| ext.len() == 3 && is_letter(ext[0], 'w', 'W') && is_letter(ext[1], 'a', 'A')
                && is_letter(ext[2], 'v', 'V')
            ||| ext.len() == 4 && is_letter(ext[0], 'w', 'W') && is_letter(ext[1], 'a', 'A')
                && is_letter(ext[2], 'v', 'V') && is_letter(ext[3], 'e', 'E')
            ||| ext.len() == 3 && is_letter(ext[0], 'a', 'A') && is_letter(ext[1], 'i', 'I')
                && is_letter(ext[2], 'f', 'F')
            ||| ext.len() == 4 && is_letter(ext[0], 'a', 'A') && is_letter(ext[1], 'i', 'I')
                && is_letter(ext[2], 'f', 'F') && is_letter(ext[3], 'f', 'F')
        }),
{
    law_stem_and_extension(dir, stem, ext);
    reveal_strlit("wav");
    reveal_strlit("wave");
    reveal_strlit("aif");
    reveal_strlit("aiff");
    assert(lowers_to(ext, "wav"@) <==> ext.len() == 3 && is_letter(ext[0], 'w', 'W') && is_letter(
        ext[1],
        'a',
        'A',
    ) && is_letter(ext[2], 'v', 'V'));
    assert(lowers_to(ext, "aif"@) <==> ext.len() == 3 && is_letter(ext[0], 'a', 'A') && is_letter(
        ext[1],
        'i',
        'I',
    ) && is_letter(ext[2], 'f', 'F'));
    assert(lowers_to(ext, "wave"@) <==> ext.len() == 4 && is_letter(ext[0], 'w', 'W') && is_letter(
        ext[1],
        'a',
        'A',
    ) && is_letter(ext[2], 'v', 'V') && is_letter(ext[3], 'e', 'E'));
    assert(lowers_to(ext, "aiff"@) <==> ext.len() == 4 && is_letter(ext[0], 'a', 'A') && is_letter(
        ext[1],
        'i',
        'I',
    ) && is_letter(ext[2], 'f', 'F') && is_letter(ext[3], 'f', 'F'));
}

/// A dry run shows every step of the plan of every target.
pub proof fn law_dry_run_shows_the_steps(
    input: Seq<char>,
    source_rate: u32,
    targets: Seq<ResolvedTargetView>,
    n: int,
    i: int,
    k: int,
)
    requires
        0 <= i < n <= targets.len(),
        0 <= k < targets[i].plan(source_rate).len(),
    ensures
        planned_lines(input, source_rate, targets, n).contains(
            "      - "@ + targets[i].plan(source_rate)[k],
        ),
    decreases n,
{
    let t = targets[n - 1];
    let before = planned_lines(input, source_rate, targets, n - 1);
    let added = target_lines(t, t.output_path(input, t.delivery_rate(source_rate))->0, source_rate);
    let line = "      - "@ + targets[i].plan(source_rate)[k];
    if i < n - 1 {
        law_dry_run_shows_the_steps(input, source_rate, targets, n - 1, i, k);
        let at = before.index_of(line);
        assert((before + added)[at] == line);
    } else {
        assert(added[k + 1] == line);
        assert((before + added)[before.len() + (k + 1)] == line);
    }
}

/// A report shows every warning, and the summary counts the tasks that have some.
pub proof fn law_warnings_are_shown(reports: Seq<ReportView>, n: int, i: int, k: int)
    requires
        0 <= i < n <= reports.len(),
        0 <= k < reports[i].warnings.len(),
    ensures
        tasks_lines(reports, n).contains("    warn: "@ + reports[i].warnings[k]),
        warned(reports, n) >= 1,
    decreases n,
{
    let before = tasks_lines(reports, n - 1);
    let added = task_lines(reports[n - 1]);
    let line = "    warn: "@ + reports[i].warnings[k];
    if i < n - 1 {
        law_warnings_are_shown(reports, n - 1, i, k);
        let at = before.index_of(line);
        assert((before + added)[at] == line);
    } else {
        assert(added[4 + k] == line);
        assert((before + added)[before.len() + (4 + k)] == line);
    }
}

/// The summary counts every task with warnings once.
pub proof fn law_tasks_with_warnings_are_counted(reports: Seq<ReportView>, n: int)
    requires
        0 <= n <= reports.len(),
    ensures
        warned(reports, n) == reports.take(n).filter(|r: ReportView| r.warnings.len() > 0).len(),
    decreases n,
{
    let has = |r: ReportView| r.warnings.len() > 0;
    reveal(Seq::filter);
    if n > 0 {
        law_tasks_with_warnings_are_counted(reports, n - 1);
        assert(reports.take(n).drop_last() =~= reports.take(n - 1));
        assert(reports.take(n).last() == reports[n - 1]);
    } else {
        assert(reports.take(0) =~= Seq::<ReportView>::empty());
    }
}

/// The lines of a task tell its figures: the loudness and the range before and after, the
/// loudest moments and the peaks, and the distances between peak and loudness.
pub proof fn law_summary_tells_the_figures(r: ReportView)
    ensures
        task_lines(r).len() == 4 + r.warnings.len(),
        task_lines(r)[0] == "  ["@ + r.target + "] "@ + r.input + " -> "@ + r.output,
        task_lines(r)[2] == "    LUFS "@ + figure(r.source.integrated_lufs) + " -> "@ + figure(
            r.delivered.integrated_lufs,
        ) + " (I)  LRA "@ + figure(r.source.loudness_range_lu) + " -> "@ + figure(
            r.delivered.loudness_range_lu,
        ) + " LU  M "@ + figure(r.delivered.max_momentary_lufs) + "  S "@ + figure(
            r.delivered.max_short_term_lufs,
        ) + " LUFS"@,
        task_lines(r)[3] == "    TP "@ + figure(r.source.true_peak_dbtp) + " -> "@ + figure(
            r.delivered.true_peak_dbtp,
        ) + " dBTP  PLR "@ + figure(
            r.delivered.true_peak_dbtp.difference(r.delivered.integrated_lufs),
        ) + "  PSR "@ + figure(
            r.delivered.true_peak_dbtp.difference(r.delivered.max_short_term_lufs),
        ) + " dB"@,
{
}

/// A figure is shown with one decimal, and what is no finite number as `n/a`.
pub proof fn law_figures_have_one_decimal(v: Level)
    ensures
        v.finite() ==> figure(v) == fixed_text(v, 1),
        !v.finite() ==> figure(v) == "n/a"@,
{
}

/// The summary ends with the number of tasks that have warnings, if there are any.
pub proof fn law_summary_counts_the_warned_tasks(reports: Seq<ReportView>)
    ensures
        ({
            let warned_tasks = reports.filter(|r: ReportView| r.warnings.len() > 0).len();
            let n = reports.len() as int;
            &&& warned_tasks == 0 ==> summary(reports) == tasks_lines(reports, n)
            &&& warned_tasks > 0 ==> summary(reports) == tasks_lines(reports, n) + seq![
                "("@ + digits(warned_tasks) + " task(s) with warnings)"@,
            ]
        }),
{
    law_tasks_with_warnings_are_counted(reports, reports.len() as int);
    assert(reports.take(reports.len() as int) =~= reports);
    let n = reports.len() as int;
    let line = "("@ + digits(warned(reports, n)) + " task(s) with warnings)"@;
    assert(tasks_lines(reports, n).push(line) =~= tasks_lines(reports, n) + seq![line]);
}

/// The first request that cannot be met is named: a target that is not configured, with those
/// that are, or else the first target that is refused, with its reason.
pub proof fn law_the_first_bad_request_is_named(
    config: Config,
    requested: Seq<Seq<char>>,
    force: bool,
    i: int,
)
    requires
        0 <= i < requested.len(),
    ensures
        !config.targets.has(requested[i]) && (forall|k: int|
            0 <= k < i ==> config.targets.has(#[trigger] requested[k])) ==> selection(
            config,
            requested,
            force,
        ) == Err::<Seq<ResolvedTargetView>, Seq<char>>(
            "unknown target '"@ + requested[i] + "'; available: "@ + joined(
                config.targets.names(),
                ", "@,
            ),
        ),
        (forall|k: int| 0 <= k < requested.len() ==> config.targets.has(#[trigger] requested[k])) && (
        forall|k: int| 0 <= k < i ==> config.resolved(#[trigger] requested[k]) is Ok) ==> (
        config.resolved(requested[i]) matches Err(m) ==> selection(config, requested, force) == Err::<
            Seq<ResolvedTargetView>,
            Seq<char>,
        >(m)),
{
    lemma_first_unknown(config, requested, 0);
    if !config.targets.has(requested[i]) && (forall|k: int|
        0 <= k < i ==> config.targets.has(#[trigger] requested[k])) {
        lemma_unknown_is_first(config, requested, 0, i);
    }
    if (forall|k: int| 0 <= k < i ==> config.resolved(#[trigger] requested[k]) is Ok)
        && config.resolved(requested[i]) is Err {
        lemma_refused_first(config, requested, requested.len() as int, i);
    }
}

proof fn lemma_unknown_is_first(config: Config, names: Seq<Seq<char>>, from: int, i: int)
    requires
        0 <= from <= i < names.len(),
        !config.targets.has(names[i]),
        forall|k: int| from <= k < i ==> config.targets.has(#[trigger] names[k]),
    ensures
        first_unknown(config, names, from) == Some(names[i]),
    decreases i - from,
{
    if from < i {
        assert(config.targets.has(names[from]));
        lemma_unknown_is_first(config, names, from + 1, i);
    }
}

proof fn lemma_refused_first(config: Config, names: Seq<Seq<char>>, n: int, i: int)
    requires
        0 <= i <= names.len(),
        0 <= n <= names.len(),
        forall|k: int| 0 <= k < i ==> config.resolved(#[trigger] names[k]) is Ok,
        i < names.len() ==> config.resolved(names[i]) is Err,
    ensures
        n <= i ==> config.resolved_all(names, n) is Ok,
        n > i ==> config.resolved_all(names, n) == Err::<Seq<ResolvedTargetView>, Seq<char>>(
            config.resolved(names[i])->Err_0,
        ),
    decreases n,
{
    if n > 0 {
        lemma_refused_first(config, names, n - 1, i);
        if n - 1 < i {
            assert(config.resolved(names[n - 1]) is Ok);
        }
    }
}

/// A run goes through the jobs in their order. Without failing fast every job is run; failing
/// fast, the run ends with the first failure, and only a failure ends it early.
pub proof fn law_runs_go_through_the_jobs<F: Fn(usize, usize) -> Result<ProcessingReport, TaskFailure>>(
    run: F,
    jobs: Seq<(usize, usize)>,
    fail_fast: bool,
    outs: Seq<Result<ProcessingReport, TaskFailure>>,
    k: int,
)
    requires
        ran(run, jobs, fail_fast, outs),
        0 <= k < jobs.len(),
    ensures
        outs.len() <= jobs.len(),
        !fail_fast ==> outs.len() == jobs.len(),
        k < outs.len() ==> run.ensures(jobs[k], outs[k]),
        fail_fast && k < outs.len() - 1 ==> outs[k] is Ok,
        k >= outs.len() ==> outs.len() > 0 && outs[outs.len() - 1] is Err,
        fail_fast && k < outs.len() && outs[k] is Err ==> outs.len() == k + 1,
{
}

/// The second line of a task tells the rates, the format, whether broadcast metadata was
/// written, what the quantizer did and what the limiter took off.
pub proof fn law_summary_tells_the_formats(r: ReportView)
    ensures
        task_lines(r)[1] == "    "@ + digits(r.in_rate as nat) + " -> "@ + digits(r.out_rate as nat)
            + " Hz | "@ + r.codec + "/"@ + r.format + (if r.bwf {
            " (bwf)"@
        } else {
            Seq::empty()
        }) + (match r.shaping_curve {
            Some(curve) => " +shaped("@ + curve + ")"@,
            None => if r.dithered {
                " +dither"@
            } else {
                Seq::empty()
            },
        }) + limiting_text(r.limiter_gain_reduction_db),
        r.limiter_gain_reduction_db is None ==> limiting_text(r.limiter_gain_reduction_db).len() == 0,
        r.limiter_gain_reduction_db matches Some(gr) ==> limiting_text(r.limiter_gain_reduction_db) == (
        if (Level { bits: 0 }).below(gr) {
            " | limited -"@ + fixed_text(gr, 1) + " dB"@
        } else {
            Seq::empty()
        }),
{
}

/// A failure is told with its target, its input and its reason.
pub proof fn law_failures_are_told(f: TaskFailure)
    ensures
        failure_line(f) == "  ["@ + f.target@ + "] "@ + f.input@ + " => "@ + f.error@,
{
}

} // verus!

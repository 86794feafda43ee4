//! How near a reduced sample stays to its own sample.
//!
//! The quantizers compute with arithmetic that is handed in. The laws here speak of arithmetic
//! that is that of numbers, to within a `slack`: `size(x)` is the sample `x` scaled to the grid
//! and `num(u)` the number that `u` stands for, both in the units of figures, of which a step of
//! the grid has `2^1074`.
use vstd::prelude::*;
use vstd::arithmetic::power2::{lemma_pow2_adds, lemma_pow2_pos, pow2};
use crate::audio::buffer::{AudioBuffer, OutputSampleFormat};
use crate::closures::{computes1, computes2, computes3};
use crate::config::{DitherCorrelation, DitherMode, DitherStrength};
use crate::dither::mbit_plus::{
    channel_noise, is_quiet, mbit_code, setup_for, silenced, state_at, strength_of, MbitSetup,
    HALF_STEP,
};
use crate::dither::multichannel::{
    channel_seed, law_first_channel_uses_the_base_seed, law_frame_noise_is_within_one_step,
};
use crate::dither::shaper::{
    aims, code_at, history_at, shaped_code, shaped_history, Grid,
};
use crate::level::{law_order_is_the_order_of_values, law_snapping_goes_to_the_nearest, Level};
use crate::ops::bitdepth::{
    dithers, flat_code, grid_of, quantized_code, quantized_with, same_shape, uses_mbit_plus,
    well_quantized,
};

verus! {

/// A step of the grid, in the units of figures.
pub open spec fn grid_step() -> int {
    pow2(1074) as int
}

/// The absolute value.
pub open spec fn distance(a: int, b: int) -> int {
    if a < b {
        b - a
    } else {
        a - b
    }
}

/// Flat dither adds its noise to the scaled sample.
pub open spec fn flat_adds<S>(
    flat: spec_fn(S, i64, i32) -> Level,
    size: spec_fn(S) -> int,
    max: i32,
    slack: int,
) -> bool {
    forall|x: S, k: i64|
        -0x20_0000_0000_0000 <= k <= 0x20_0000_0000_0000 ==> {
            let w = #[trigger] flat(x, k, max);
            w.finite() && distance(w.units(), size(x) + k * pow2(1021)) <= slack
        }
}

/// The sum of the first `n` past errors, each times its tap.
pub open spec fn feedback<S>(taps: Seq<i32>, hist: Seq<S>, num: spec_fn(S) -> int, n: int) -> int
    decreases n,
{
    if n <= 0 {
        0
    } else {
        feedback(taps, hist, num, n - 1) + taps[n - 1] * num(hist[n - 1])
    }
}

/// The sum of the absolute values of the first `n` taps.
pub open spec fn weight(taps: Seq<i32>, n: int) -> int
    decreases n,
{
    if n <= 0 {
        0
    } else {
        weight(taps, n - 1) + distance(taps[n - 1] as int, 0)
    }
}

/// Twice the largest error of a sample that is not clamped: rounding and noise.
pub open spec fn twice_error(slack: int) -> int {
    3 * grid_step() + 4 * slack
}

/// The shaper computes with numbers: `aim` takes the shaped sum of past errors off the scaled
/// sample (taps are ten-thousandths), `noisy` adds the noise, `miss` is the difference of the
/// code and what was aimed at.
pub open spec fn shapes_numbers<S>(
    aim: spec_fn(S, Seq<i32>, Seq<S>, i32) -> S,
    noisy: spec_fn(S, i64) -> Level,
    miss: spec_fn(i32, S) -> S,
    zero: S,
    max: i32,
    size: spec_fn(S) -> int,
    num: spec_fn(S) -> int,
    slack: int,
) -> bool {
    &&& num(zero) == 0
    &&& forall|x: S, taps: Seq<i32>, hist: Seq<S>|
        hist.len() == taps.len() && (forall|j: int|
            0 <= j < hist.len() ==> 2 * distance(num(#[trigger] hist[j]), 0) <= twice_error(slack))
            ==> distance(
            10000 * num(#[trigger] aim(x, taps, hist, max)),
            10000 * size(x) - feedback(taps, hist, num, taps.len() as int),
        ) <= 10000 * slack
    &&& forall|u: S, k: i64|
        -0x20_0000_0000_0000 <= k <= 0x20_0000_0000_0000 && distance(num(u), 0) <= max * grid_step()
            ==> {
            let w = #[trigger] noisy(u, k);
            w.finite() && distance(w.units(), num(u) + k * pow2(1021)) <= slack
        }
    &&& forall|y: i32, u: S|
        distance(num(u), 0) <= max * grid_step() ==> distance(
            num(#[trigger] miss(y, u)),
            y * grid_step() - num(u),
        ) <= slack
}

/// The sample leaves room for the shaped noise, so that its code is not clamped.
pub open spec fn has_headroom(size: int, taps: Seq<i32>, max: i32, slack: int) -> bool {
    20000 * distance(size, 0) + weight(taps, taps.len() as int) * twice_error(slack) + 20000 * slack
        <= 20000 * (max * grid_step())
}

/// How far, twenty thousand times, a shaped code may be from its sample.
pub open spec fn shaped_reach(taps: Seq<i32>, slack: int) -> int {
    10000 * (3 * grid_step() + 2 * slack) + weight(taps, taps.len() as int) * twice_error(slack) + 20000
        * slack
}

/// A figure that is `v` plus noise snaps to within a step and a half of `v`.
proof fn lemma_near(w: Level, v: int, k: i64, lo: int, hi: int, slack: int)
    requires
        lo <= hi,
        lo * grid_step() <= v <= hi * grid_step(),
        w.finite(),
        -0x20_0000_0000_0000 <= k <= 0x20_0000_0000_0000,
        distance(w.units(), v + k * pow2(1021)) <= slack,
    ensures
        lo <= w.snapped(lo, hi) <= hi,
        2 * distance(w.snapped(lo, hi) * grid_step(), v) <= 3 * grid_step() + 2 * slack,
{
    law_snapping_goes_to_the_nearest(w, lo, hi);
    lemma_pow2_adds(53, 1021);
    vstd::arithmetic::power2::lemma2_to64_rest();
    lemma_pow2_pos(1021);
    let q = pow2(1021) as int;
    let p = grid_step();
    let noise = k * q;
    assert(-p <= noise <= p) by (nonlinear_arith)
        requires
            noise == k * q,
            p == 0x20_0000_0000_0000 * q,
            -0x20_0000_0000_0000 <= k <= 0x20_0000_0000_0000,
            q > 0,
    ;
    let r = w.snapped(lo, hi);
    assert((2 * r + 1) * p == 2 * (r * p) + p) by (nonlinear_arith);
    assert((2 * r - 1) * p == 2 * (r * p) - p) by (nonlinear_arith);
}

/// Flat dither keeps a sample: the code is within a step and a half of the scaled sample.
pub proof fn law_flat_codes_stay_near<S>(
    x: S,
    noise: i64,
    grid: Grid,
    flat: spec_fn(S, i64, i32) -> Level,
    size: spec_fn(S) -> int,
    slack: int,
)
    requires
        grid.lo <= grid.hi,
        grid.lo * grid_step() <= size(x) <= grid.hi * grid_step(),
        -0x20_0000_0000_0000 <= noise <= 0x20_0000_0000_0000,
        flat_adds(flat, size, grid.max, slack),
    ensures
        2 * distance(flat_code(x, noise, grid, flat) * grid_step(), size(x)) <= 3 * grid_step() + 2
            * slack,
{
    let w = flat(x, noise, grid.max);
    lemma_near(w, size(x), noise, grid.lo as int, grid.hi as int, slack);
}

proof fn lemma_feedback_bound<S>(
    taps: Seq<i32>,
    hist: Seq<S>,
    num: spec_fn(S) -> int,
    n: int,
    most: int,
)
    requires
        0 <= n <= taps.len(),
        hist.len() == taps.len(),
        most >= 0,
        forall|j: int| 0 <= j < hist.len() ==> 2 * distance(num(#[trigger] hist[j]), 0) <= most,
    ensures
        2 * distance(feedback(taps, hist, num, n), 0) <= weight(taps, n) * most,
        weight(taps, n) >= 0,
    decreases n,
{
    if n > 0 {
        lemma_feedback_bound(taps, hist, num, n - 1, most);
        let t = taps[n - 1] as int;
        let e = num(hist[n - 1]);
        let a = distance(t, 0);
        let before = weight(taps, n - 1);
        assert(2 * distance(e, 0) <= most);
        assert(-(a * most) <= 2 * (t * e) <= a * most) by (nonlinear_arith)
            requires
                a == t || a == -t,
                a >= 0,
                -most <= 2 * e <= most,
        ;
        assert((before + a) * most == before * most + a * most) by (nonlinear_arith);
    } else {
        assert(0 * most == 0);
    }
}

/// One shaped sample: what was aimed at, the code and the new error.
proof fn lemma_shaped_step<S>(
    x: S,
    taps: Seq<i32>,
    hist: Seq<S>,
    noise: i64,
    grid: Grid,
    aim: spec_fn(S, Seq<i32>, Seq<S>, i32) -> S,
    noisy: spec_fn(S, i64) -> Level,
    miss: spec_fn(i32, S) -> S,
    zero: S,
    size: spec_fn(S) -> int,
    num: spec_fn(S) -> int,
    slack: int,
)
    requires
        grid.hi == grid.max && grid.lo == -grid.max && grid.max > 0,
        slack >= 0,
        shapes_numbers(aim, noisy, miss, zero, grid.max, size, num, slack),
        hist.len() == taps.len(),
        forall|j: int|
            0 <= j < hist.len() ==> 2 * distance(num(#[trigger] hist[j]), 0) <= twice_error(slack),
        has_headroom(size(x), taps, grid.max, slack),
        -0x20_0000_0000_0000 <= noise <= 0x20_0000_0000_0000,
    ensures
        ({
            let y = shaped_code(x, taps, hist, noise, grid, aim, noisy);
            let e = num(miss(y, aim(x, taps, hist, grid.max)));
            &&& 20000 * distance(y * grid_step(), size(x)) <= shaped_reach(taps, slack)
            &&& 2 * distance(e, 0) <= twice_error(slack)
            &&& distance(
                10000 * (y * grid_step() - size(x)),
                10000 * e - feedback(taps, hist, num, taps.len() as int),
            ) <= 20000 * slack
        }),
{
    let p = grid_step();
    lemma_pow2_pos(1074);
    let u = aim(x, taps, hist, grid.max);
    let n = taps.len() as int;
    let max = grid.max as int;
    let f = feedback(taps, hist, num, n);
    lemma_feedback_bound(taps, hist, num, n, twice_error(slack));
    assert(distance(10000 * num(u), 10000 * size(x) - f) <= 10000 * slack);
    assert(distance(num(u), 0) <= max * p);
    let w = noisy(u, noise);
    assert((-max) * p == -(max * p)) by (nonlinear_arith);
    lemma_near(w, num(u), noise, grid.lo as int, grid.hi as int, slack);
    let y = shaped_code(x, taps, hist, noise, grid, aim, noisy);
    assert(y == w.snapped(grid.lo as int, grid.hi as int));
    let e = num(miss(y, u));
    assert(distance(e, y * p - num(u)) <= slack);
}

/// The history before sample `n` of a channel has a bounded error for every tap.
proof fn lemma_history<S>(
    samples: Seq<S>,
    taps: Seq<i32>,
    zero: S,
    noise: spec_fn(nat) -> int,
    grid: Grid,
    aim: spec_fn(S, Seq<i32>, Seq<S>, i32) -> S,
    noisy: spec_fn(S, i64) -> Level,
    miss: spec_fn(i32, S) -> S,
    size: spec_fn(S) -> int,
    num: spec_fn(S) -> int,
    slack: int,
    n: nat,
)
    requires
        grid.hi == grid.max && grid.lo == -grid.max && grid.max > 0,
        slack >= 0,
        taps.len() > 0,
        n <= samples.len(),
        shapes_numbers(aim, noisy, miss, zero, grid.max, size, num, slack),
        forall|k: nat| -0x20_0000_0000_0000 <= #[trigger] noise(k) <= 0x20_0000_0000_0000,
        forall|k: int| 0 <= k < n ==> has_headroom(size(#[trigger] samples[k]), taps, grid.max, slack),
    ensures
        ({
            let hist = history_at(samples, taps, zero, noise, grid, aim, noisy, miss, n);
            &&& hist.len() == taps.len()
            &&& forall|j: int|
                0 <= j < hist.len() ==> 2 * distance(num(#[trigger] hist[j]), 0) <= twice_error(slack)
        }),
    decreases n,
{
    lemma_pow2_pos(1074);
    if n > 0 {
        let k = (n - 1) as nat;
        lemma_history(samples, taps, zero, noise, grid, aim, noisy, miss, size, num, slack, k);
        let before = history_at(samples, taps, zero, noise, grid, aim, noisy, miss, k);
        let x = samples[k as int];
        assert(-0x20_0000_0000_0000 <= noise(k) <= 0x20_0000_0000_0000);
        lemma_shaped_step(
            x,
            taps,
            before,
            noise(k) as i64,
            grid,
            aim,
            noisy,
            miss,
            zero,
            size,
            num,
            slack,
        );
        let hist = history_at(samples, taps, zero, noise, grid, aim, noisy, miss, n);
        assert forall|j: int| 0 <= j < hist.len() implies 2 * distance(num(#[trigger] hist[j]), 0)
            <= twice_error(slack) by {
            if j > 0 {
                assert(hist[j] == before[j - 1]);
            }
        }
    }
}

/// Noise shaping keeps a sample: the code stays within the reach of the taps of its own scaled
/// sample.
pub proof fn law_shaped_codes_stay_near<S>(
    samples: Seq<S>,
    taps: Seq<i32>,
    zero: S,
    noise: spec_fn(nat) -> int,
    grid: Grid,
    aim: spec_fn(S, Seq<i32>, Seq<S>, i32) -> S,
    noisy: spec_fn(S, i64) -> Level,
    miss: spec_fn(i32, S) -> S,
    size: spec_fn(S) -> int,
    num: spec_fn(S) -> int,
    slack: int,
    n: nat,
)
    requires
        grid.hi == grid.max && grid.lo == -grid.max && grid.max > 0,
        slack >= 0,
        taps.len() > 0,
        n < samples.len(),
        shapes_numbers(aim, noisy, miss, zero, grid.max, size, num, slack),
        forall|k: nat| -0x20_0000_0000_0000 <= #[trigger] noise(k) <= 0x20_0000_0000_0000,
        forall|k: int| 0 <= k <= n ==> has_headroom(size(#[trigger] samples[k]), taps, grid.max, slack),
    ensures
        20000 * distance(
            code_at(samples, taps, zero, noise, grid, aim, noisy, miss, n) * grid_step(),
            size(samples[n as int]),
        ) <= shaped_reach(taps, slack),
{
    lemma_history(samples, taps, zero, noise, grid, aim, noisy, miss, size, num, slack, n);
    assert(-0x20_0000_0000_0000 <= noise(n) <= 0x20_0000_0000_0000);
    lemma_shaped_step(
        samples[n as int],
        taps,
        history_at(samples, taps, zero, noise, grid, aim, noisy, miss, n),
        noise(n) as i64,
        grid,
        aim,
        noisy,
        miss,
        zero,
        size,
        num,
        slack,
    );
}

/// The errors `errors(k)`, none before the first sample, make up the difference between codes
/// and samples as the taps say: each new error comes in fully, and of the past ones as much is
/// taken off as their taps say.
pub open spec fn filtered(taps: Seq<i32>, errors: spec_fn(int) -> int, n: int, j: int) -> int
    decreases j,
{
    if j <= 0 {
        0
    } else {
        filtered(taps, errors, n, j - 1) + taps[j - 1] * errors(n - j)
    }
}

/// The error of sample `k`, none before the first sample.
spec fn error_of<S>(
    samples: Seq<S>,
    taps: Seq<i32>,
    zero: S,
    noise: spec_fn(nat) -> int,
    grid: Grid,
    aim: spec_fn(S, Seq<i32>, Seq<S>, i32) -> S,
    noisy: spec_fn(S, i64) -> Level,
    miss: spec_fn(i32, S) -> S,
    num: spec_fn(S) -> int,
    k: int,
) -> int {
    if k < 0 {
        0
    } else {
        num(history_at(samples, taps, zero, noise, grid, aim, noisy, miss, (k + 1) as nat)[0])
    }
}

proof fn lemma_history_holds_the_errors<S>(
    samples: Seq<S>,
    taps: Seq<i32>,
    zero: S,
    noise: spec_fn(nat) -> int,
    grid: Grid,
    aim: spec_fn(S, Seq<i32>, Seq<S>, i32) -> S,
    noisy: spec_fn(S, i64) -> Level,
    miss: spec_fn(i32, S) -> S,
    num: spec_fn(S) -> int,
    n: nat,
    j: int,
)
    requires
        taps.len() > 0,
        num(zero) == 0,
        0 <= j < taps.len(),
    ensures
        history_at(samples, taps, zero, noise, grid, aim, noisy, miss, n).len() == taps.len(),
        num(history_at(samples, taps, zero, noise, grid, aim, noisy, miss, n)[j]) == error_of(
            samples,
            taps,
            zero,
            noise,
            grid,
            aim,
            noisy,
            miss,
            num,
            n - 1 - j,
        ),
    decreases n,
{
    if n > 0 {
        let k = (n - 1) as nat;
        let before = history_at(samples, taps, zero, noise, grid, aim, noisy, miss, k);
        let hist = history_at(samples, taps, zero, noise, grid, aim, noisy, miss, n);
        lemma_history_holds_the_errors(
            samples,
            taps,
            zero,
            noise,
            grid,
            aim,
            noisy,
            miss,
            num,
            k,
            if j > 0 {
                j - 1
            } else {
                0
            },
        );
        if j > 0 {
            assert(hist[j] == before[j - 1]);
        }
    }
}

proof fn lemma_feedback_is_filtered<S>(
    samples: Seq<S>,
    taps: Seq<i32>,
    zero: S,
    noise: spec_fn(nat) -> int,
    grid: Grid,
    aim: spec_fn(S, Seq<i32>, Seq<S>, i32) -> S,
    noisy: spec_fn(S, i64) -> Level,
    miss: spec_fn(i32, S) -> S,
    num: spec_fn(S) -> int,
    errors: spec_fn(int) -> int,
    n: nat,
    j: int,
)
    requires
        taps.len() > 0,
        num(zero) == 0,
        0 <= j <= taps.len(),
        forall|k: int| #[trigger]
            errors(k) == error_of(samples, taps, zero, noise, grid, aim, noisy, miss, num, k),
    ensures
        feedback(
            taps,
            history_at(samples, taps, zero, noise, grid, aim, noisy, miss, n),
            num,
            j,
        ) == filtered(taps, errors, n as int, j),
    decreases j,
{
    if j > 0 {
        lemma_feedback_is_filtered(
            samples,
            taps,
            zero,
            noise,
            grid,
            aim,
            noisy,
            miss,
            num,
            errors,
            n,
            j - 1,
        );
        lemma_history_holds_the_errors(
            samples,
            taps,
            zero,
            noise,
            grid,
            aim,
            noisy,
            miss,
            num,
            n,
            j - 1,
        );
        assert(errors(n - j) == error_of(samples, taps, zero, noise, grid, aim, noisy, miss, num, n - j));
    }
}

/// The errors of a channel account for its codes.
pub open spec fn errors_account_for<S>(
    errors: spec_fn(int) -> int,
    codes: spec_fn(nat) -> int,
    samples: Seq<S>,
    taps: Seq<i32>,
    size: spec_fn(S) -> int,
    slack: int,
    n: nat,
) -> bool {
    &&& forall|k: int| k < 0 ==> #[trigger] errors(k) == 0
    &&& forall|k: int| k < n ==> 2 * distance(#[trigger] errors(k), 0) <= twice_error(slack)
    &&& forall|k: nat|
        k < n ==> distance(
            10000 * (#[trigger] codes(k) * grid_step() - size(samples[k as int])),
            10000 * errors(k as int) - filtered(taps, errors, k as int, taps.len() as int),
        ) <= 20000 * slack
}

/// The shaper shapes: the differences between codes and samples are the errors of single
/// samples, each at most a step and a half, sent through the filter of the taps.
pub proof fn law_errors_are_filtered<S>(
    samples: Seq<S>,
    taps: Seq<i32>,
    zero: S,
    noise: spec_fn(nat) -> int,
    grid: Grid,
    aim: spec_fn(S, Seq<i32>, Seq<S>, i32) -> S,
    noisy: spec_fn(S, i64) -> Level,
    miss: spec_fn(i32, S) -> S,
    size: spec_fn(S) -> int,
    num: spec_fn(S) -> int,
    slack: int,
    n: nat,
) -> (errors: spec_fn(int) -> int)
    requires
        grid.hi == grid.max && grid.lo == -grid.max && grid.max > 0,
        slack >= 0,
        taps.len() > 0,
        n <= samples.len(),
        shapes_numbers(aim, noisy, miss, zero, grid.max, size, num, slack),
        forall|k: nat| -0x20_0000_0000_0000 <= #[trigger] noise(k) <= 0x20_0000_0000_0000,
        forall|k: int| 0 <= k < n ==> has_headroom(size(#[trigger] samples[k]), taps, grid.max, slack),
    ensures
        errors_account_for(
            errors,
            |k: nat| code_at(samples, taps, zero, noise, grid, aim, noisy, miss, k) as int,
            samples,
            taps,
            size,
            slack,
            n,
        ),
{
    lemma_pow2_pos(1074);
    let errors = |k: int|
        error_of(samples, taps, zero, noise, grid, aim, noisy, miss, num, k);
    let codes = |k: nat| code_at(samples, taps, zero, noise, grid, aim, noisy, miss, k) as int;
    assert forall|k: int| k < n implies 2 * distance(#[trigger] errors(k), 0) <= twice_error(slack) by {
        if k >= 0 {
            lemma_history(
                samples,
                taps,
                zero,
                noise,
                grid,
                aim,
                noisy,
                miss,
                size,
                num,
                slack,
                (k + 1) as nat,
            );
        }
    }
    assert forall|k: nat| k < n implies distance(
        10000 * (#[trigger] codes(k) * grid_step() - size(samples[k as int])),
        10000 * errors(k as int) - filtered(taps, errors, k as int, taps.len() as int),
    ) <= 20000 * slack by {
        lemma_history(samples, taps, zero, noise, grid, aim, noisy, miss, size, num, slack, k);
        assert(-0x20_0000_0000_0000 <= noise(k) <= 0x20_0000_0000_0000);
        let hist = history_at(samples, taps, zero, noise, grid, aim, noisy, miss, k);
        lemma_shaped_step(
            samples[k as int],
            taps,
            hist,
            noise(k) as i64,
            grid,
            aim,
            noisy,
            miss,
            zero,
            size,
            num,
            slack,
        );
        lemma_feedback_is_filtered(
            samples,
            taps,
            zero,
            noise,
            grid,
            aim,
            noisy,
            miss,
            num,
            errors,
            k,
            taps.len() as int,
        );
        let next = history_at(samples, taps, zero, noise, grid, aim, noisy, miss, (k + 1) as nat);
        assert(next == shaped_history(
            samples[k as int],
            taps,
            hist,
            noise(k) as i64,
            grid,
            aim,
            noisy,
            miss,
        ));
    }
    errors
}

// ---------------------------------------------------------------------------
// MBIT+.
// ---------------------------------------------------------------------------

/// The scaled sample is the sample times `max`.
pub open spec fn scales<S>(
    value: spec_fn(S) -> Level,
    size: spec_fn(S) -> int,
    max: i32,
    slack: int,
) -> bool {
    forall|x: S|
        (#[trigger] value(x)).finite() && distance(value(x).units(), 0) <= grid_step() ==> distance(
            size(x),
            max * value(x).units(),
        ) <= slack
}

/// A sample that is silenced is less than a step.
proof fn lemma_silenced_is_small<S>(
    x: S,
    v: Level,
    value: spec_fn(S) -> Level,
    size: spec_fn(S) -> int,
    slack: int,
)
    requires
        v == value(x),
        is_quiet(v) || v.magnitude() == 0,
        scales(value, size, 32_767, slack),
        slack >= 0,
    ensures
        distance(size(x), 0) <= grid_step() + slack,
{
    let half = Level { bits: HALF_STEP };
    lemma_pow2_adds(68, 1006);
    lemma_pow2_adds(52, 16);
    vstd::arithmetic::power2::lemma2_to64();
    vstd::arithmetic::power2::lemma2_to64_rest();
    lemma_pow2_pos(1006);
    assert(half.significand() == 0x10_0020_0040_0080 && half.exponent() == 1006);
    let q = pow2(1006) as int;
    let p = grid_step();
    let h = half.units();
    assert(32_767 * h <= p) by (nonlinear_arith)
        requires
            h == 0x10_0020_0040_0080 * q,
            p == 0x10_0000_0000_0000 * 0x1_0000 * q,
            q > 0,
    ;
    let zero = Level { bits: 0 };
    assert(zero.significand() == 0);
    assert(0 * pow2(zero.exponent()) == 0) by (nonlinear_arith);
    assert(zero.units() == 0);
    assert(v.absolute().finite());
    assert(v.absolute().units() == v.abs_units());
    if is_quiet(v) {
        law_order_is_the_order_of_values(v.absolute(), half);
    } else {
        law_order_is_the_order_of_values(v.absolute(), zero);
        assert(0 <= h) by (nonlinear_arith)
            requires
                h == 0x10_0020_0040_0080 * q,
                q > 0,
        ;
    }
    let u = v.units();
    assert(-h <= u <= h);
    assert(-p <= 32_767 * u <= p) by (nonlinear_arith)
        requires
            -h <= u <= h,
            32_767 * h <= p,
    ;
    assert(value(x).finite());
}

proof fn lemma_cell_history<S>(
    setup: MbitSetup<S>,
    signal: Seq<S>,
    noise: spec_fn(nat) -> int,
    value: spec_fn(S) -> Level,
    aim: spec_fn(S, Seq<i32>, Seq<S>, i32) -> S,
    noisy: spec_fn(S, i64) -> Level,
    miss: spec_fn(i32, S) -> S,
    size: spec_fn(S) -> int,
    num: spec_fn(S) -> int,
    slack: int,
    n: nat,
)
    requires
        setup.grid.hi == 32_767 && setup.grid.lo == -32_767 && setup.grid.max == 32_767,
        slack >= 0,
        setup.taps.len() > 0,
        n <= signal.len(),
        shapes_numbers(aim, noisy, miss, setup.zero, 32_767, size, num, slack),
        forall|k: nat| -0x20_0000_0000_0000 <= #[trigger] noise(k) <= 0x20_0000_0000_0000,
        forall|k: int|
            0 <= k < n ==> has_headroom(size(#[trigger] signal[k]), setup.taps, 32_767, slack),
    ensures
        ({
            let hist = state_at(setup, signal, noise, n, value, aim, noisy, miss).hist;
            &&& hist.len() == setup.taps.len()
            &&& forall|j: int|
                0 <= j < hist.len() ==> 2 * distance(num(#[trigger] hist[j]), 0) <= twice_error(slack)
        }),
    decreases n,
{
    lemma_pow2_pos(1074);
    if n > 0 {
        let k = (n - 1) as nat;
        lemma_cell_history(
            setup,
            signal,
            noise,
            value,
            aim,
            noisy,
            miss,
            size,
            num,
            slack,
            k,
        );
        let st = state_at(setup, signal, noise, k, value, aim, noisy, miss);
        let x = signal[k as int];
        assert(-0x20_0000_0000_0000 <= noise(k) <= 0x20_0000_0000_0000);
        let hist = state_at(setup, signal, noise, n, value, aim, noisy, miss).hist;
        if !silenced(setup, st, value(x)) {
            lemma_shaped_step(
                x,
                setup.taps,
                st.hist,
                noise(k) as i64,
                setup.grid,
                aim,
                noisy,
                miss,
                setup.zero,
                size,
                num,
                slack,
            );
            assert forall|j: int| 0 <= j < hist.len() implies 2 * distance(num(#[trigger] hist[j]), 0)
                <= twice_error(slack) by {
                if j > 0 {
                    assert(hist[j] == st.hist[j - 1]);
                }
            }
        }
    }
}

/// MBIT+ keeps a sample: the code stays within the reach of the taps of its own scaled sample,
/// and what is silenced was less than a step.
pub proof fn law_mbit_codes_stay_near<S>(
    setup: MbitSetup<S>,
    samples: Seq<Seq<S>>,
    c: nat,
    value: spec_fn(S) -> Level,
    aim: spec_fn(S, Seq<i32>, Seq<S>, i32) -> S,
    noisy: spec_fn(S, i64) -> Level,
    miss: spec_fn(i32, S) -> S,
    size: spec_fn(S) -> int,
    num: spec_fn(S) -> int,
    slack: int,
    n: nat,
)
    requires
        setup.grid.hi == 32_767 && setup.grid.lo == -32_767 && setup.grid.max == 32_767,
        slack >= 0,
        setup.taps.len() > 0,
        c < samples.len(),
        n < samples[c as int].len(),
        shapes_numbers(aim, noisy, miss, setup.zero, 32_767, size, num, slack),
        scales(value, size, 32_767, slack),
        forall|k: int|
            0 <= k <= n ==> has_headroom(
                size(#[trigger] samples[c as int][k]),
                setup.taps,
                32_767,
                slack,
            ),
    ensures
        20000 * distance(
            mbit_code(setup, samples, n, c, value, aim, noisy, miss) * grid_step(),
            size(samples[c as int][n as int]),
        ) <= shaped_reach(setup.taps, slack),
{
    lemma_pow2_pos(1074);
    let signal = samples[c as int];
    let noise = channel_noise(setup, samples.len(), c);
    assert forall|k: nat| -0x20_0000_0000_0000 <= #[trigger] noise(k) <= 0x20_0000_0000_0000 by {
        law_frame_noise_is_within_one_step(setup.correlation, samples.len(), setup.base, k, c as int);
    }
    lemma_cell_history(setup, signal, noise, value, aim, noisy, miss, size, num, slack, n);
    let st = state_at(setup, signal, noise, n, value, aim, noisy, miss);
    let x = signal[n as int];
    assert(has_headroom(size(x), setup.taps, 32_767, slack));
    assert(-0x20_0000_0000_0000 <= noise(n) <= 0x20_0000_0000_0000);
    if silenced(setup, st, value(x)) {
        lemma_silenced_is_small(x, value(x), value, size, slack);
        let w = weight(setup.taps, setup.taps.len() as int);
        lemma_weight(setup.taps, setup.taps.len() as int);
        assert(w * twice_error(slack) >= 0) by (nonlinear_arith)
            requires
                w >= 0,
                twice_error(slack) >= 0,
        ;
        assert(0 * grid_step() == 0);
    } else {
        lemma_shaped_step(
            x,
            setup.taps,
            st.hist,
            noise(n) as i64,
            setup.grid,
            aim,
            noisy,
            miss,
            setup.zero,
            size,
            num,
            slack,
        );
    }
}

proof fn lemma_weight(taps: Seq<i32>, n: int)
    ensures
        weight(taps, n) >= 0,
    decreases n,
{
    if n > 0 {
        lemma_weight(taps, n - 1);
    }
}

/// What the taps of a mode weigh at most, in ten-thousandths.
proof fn lemma_weights(mode: DitherMode, strength: DitherStrength, rate: u32)
    ensures
        mode.curve() is Some ==> weight(mode.curve()->0.taps(), mode.curve()->0.taps().len() as int)
            == (if mode == DitherMode::Shaped {
            30_000int
        } else {
            83_619
        }) && mode.curve()->0.taps().len() > 0,
        weight(strength_of(strength).taps(rate), strength_of(strength).taps(rate).len() as int)
            <= 71_820,
        strength_of(strength).taps(rate).len() > 0,
{
    reveal_with_fuel(weight, 8);
}

// ---------------------------------------------------------------------------
// Reduced buffers.
// ---------------------------------------------------------------------------

/// What the taps of a mode weigh at most when reducing to a format, in ten-thousandths of a
/// step: nothing without shaping, 3 for the gentle curve, about 8.4 for the psychoacoustic one
/// and about 7.2 for MBIT+.
pub open spec fn heaviest(mode: DitherMode, target: OutputSampleFormat) -> int {
    if target != OutputSampleFormat::S16 {
        0
    } else {
        match mode {
            DitherMode::Shaped => 30_000,
            DitherMode::Psychoacoustic => 83_619,
            DitherMode::MbitPlus => 71_820,
            DitherMode::Tpdf | DitherMode::Off => 0,
        }
    }
}

/// A reduction keeps every sample: each sample of the reduced buffer is near the sample of its
/// own channel and frame. Without shaping it is within a step and a half. With shaping it is
/// within a step and a half times one plus the weight of the taps, where the samples of the
/// channel leave that much room below full scale. This holds with and without a seed.
pub proof fn law_reduction_keeps_every_sample<
    S,
    V: Fn(S) -> Level,
    A: Fn(S, &Vec<i32>, &Vec<S>, i32) -> S,
    N: Fn(S, i64) -> Level,
    M: Fn(i32, S) -> S,
    F: Fn(S, i64, i32) -> Level,
    C: Fn(i32, i32) -> S,
>(
    before: AudioBuffer<S>,
    after: AudioBuffer<S>,
    target: OutputSampleFormat,
    mode: DitherMode,
    strength: DitherStrength,
    correlation: DitherCorrelation,
    seed: Option<u64>,
    zero: S,
    value: V,
    aim: A,
    noisy: N,
    miss: M,
    flat: F,
    code: C,
    v: spec_fn(S) -> Level,
    a: spec_fn(S, Seq<i32>, Seq<S>, i32) -> S,
    ny: spec_fn(S, i64) -> Level,
    m: spec_fn(i32, S) -> S,
    fl: spec_fn(S, i64, i32) -> Level,
    cd: spec_fn(i32, i32) -> S,
    size: spec_fn(S) -> int,
    num: spec_fn(S) -> int,
    slack: int,
    max: i32,
    c: int,
    n: int,
)
    requires
        max == (if target == OutputSampleFormat::S16 {
            32_767i32
        } else {
            8_388_607
        }),
        computes1(value, v),
        aims(aim, a),
        computes2(noisy, ny),
        computes2(miss, m),
        computes3(flat, fl),
        computes2(code, cd),
        target != OutputSampleFormat::F32,
        before.well_formed(),
        0 <= c < before.channels@.len(),
        0 <= n < before.frames(),
        slack >= 0,
        well_quantized(
            before,
            after,
            target,
            mode,
            strength,
            correlation,
            seed,
            zero,
            value,
            aim,
            noisy,
            miss,
            flat,
            code,
        ),
        flat_adds(fl, size, max, slack),
        shapes_numbers(a, ny, m, zero, max, size, num, slack),
        scales(v, size, max, slack),
        forall|y: i32| -max <= y <= max ==> size(#[trigger] cd(y, max)) == y * grid_step(),
        forall|k: int|
            0 <= k <= n ==> 20000 * distance(size(#[trigger] before.samples()[c][k]), 0) + heaviest(
                mode,
                target,
            ) * twice_error(slack) + 20000 * slack <= 20000 * (max * grid_step()),
    ensures
        20000 * distance(size(after.samples()[c][n]), size(before.samples()[c][n])) <= 10000 * (3
            * grid_step() + 2 * slack) + heaviest(mode, target) * twice_error(slack) + 20000 * slack,
{
    lemma_pow2_pos(1074);
    let grid = grid_of(target);
    assert(grid.max == max && grid.lo == -max && grid.hi == max);
    let noise = choose|noise: Seq<spec_fn(nat) -> int>| #[trigger]
        dithers(noise, mode.shapes_at(target), before.channels@.len(), before.frames(), seed)
            && quantized_with(
                before,
                after,
                target,
                mode,
                strength,
                correlation,
                seed,
                noise,
                zero,
                value,
                aim,
                noisy,
                miss,
                flat,
                code,
            );
    let y = quantized_code(
        before.samples(),
        before.sample_rate,
        target,
        mode,
        strength,
        correlation,
        seed,
        noise,
        zero,
        n as nat,
        c as nat,
        v,
        a,
        ny,
        m,
        fl,
    );
    assert(after.samples()[c][n] == cd(y, max));
    let samples = before.samples();
    assert(samples[c].len() == before.frames());
    let x = samples[c][n];
    lemma_weights(mode, strength, before.sample_rate);
    let e = twice_error(slack);
    assert(20000 * distance(size(x), 0) + heaviest(mode, target) * e + 20000 * slack <= 20000 * (max
        * grid_step()));
    if uses_mbit_plus(mode, target) {
        let setup = setup_for(
            before.sample_rate,
            strength_of(strength),
            correlation,
            seed,
            zero,
            grid,
        );
        let w = weight(setup.taps, setup.taps.len() as int);
        lemma_weight(setup.taps, setup.taps.len() as int);
        assert(w * e <= 71_820 * e) by (nonlinear_arith)
            requires
                w <= 71_820,
                e >= 0,
        ;
        law_mbit_codes_stay_near(
            setup,
            samples,
            c as nat,
            v,
            a,
            ny,
            m,
            size,
            num,
            slack,
            n as nat,
        );
        lemma_mbit_code_fits(setup, samples, n as nat, c as nat, v, a, ny, m);
        assert(size(cd(y, max)) == y * grid_step());
    } else if mode.shapes_at(target) {
        let taps = mode.curve()->0.taps();
        assert forall|k: nat| -0x20_0000_0000_0000 <= #[trigger] noise[c](k)
            <= 0x20_0000_0000_0000 by {}
        law_shaped_codes_stay_near(
            samples[c],
            taps,
            zero,
            noise[c],
            grid,
            a,
            ny,
            m,
            size,
            num,
            slack,
            n as nat,
        );
        law_snapping_goes_to_the_nearest(
            ny(
                a(
                    x,
                    taps,
                    history_at(samples[c], taps, zero, noise[c], grid, a, ny, m, n as nat),
                    grid.max,
                ),
                noise[c](n as nat) as i64,
            ),
            grid.lo as int,
            grid.hi as int,
        );
        assert(size(cd(y, max)) == y * grid_step());
    } else {
        let k = noise[c](n as nat) as i64;
        assert(-0x20_0000_0000_0000 <= noise[c](n as nat) < 0x20_0000_0000_0000);
        assert((-max) * grid_step() == -(max * grid_step())) by (nonlinear_arith);
        assert(heaviest(mode, target) == 0);
        law_flat_codes_stay_near(x, k, grid, fl, size, slack);
        law_snapping_goes_to_the_nearest(fl(x, k, grid.max), grid.lo as int, grid.hi as int);
        assert(size(cd(y, max)) == y * grid_step());
        assert(0 * e == 0);
    }
}

/// The MBIT+ quantizer gives codes of its grid.
proof fn lemma_mbit_code_fits<S>(
    setup: MbitSetup<S>,
    samples: Seq<Seq<S>>,
    n: nat,
    c: nat,
    value: spec_fn(S) -> Level,
    aim: spec_fn(S, Seq<i32>, Seq<S>, i32) -> S,
    noisy: spec_fn(S, i64) -> Level,
    miss: spec_fn(i32, S) -> S,
)
    requires
        setup.grid.lo <= 0 <= setup.grid.hi,
    ensures
        setup.grid.lo <= mbit_code(setup, samples, n, c, value, aim, noisy, miss) <= setup.grid.hi,
{
    let noise = channel_noise(setup, samples.len(), c);
    let st = state_at(setup, samples[c as int], noise, n, value, aim, noisy, miss);
    law_snapping_goes_to_the_nearest(
        noisy(
            aim(samples[c as int][n as int], setup.taps, st.hist, setup.grid.max),
            noise(n) as i64,
        ),
        setup.grid.lo as int,
        setup.grid.hi as int,
    );
}

/// A channel is reduced by itself: two buffers of one shape and rate that agree on a channel,
/// reduced with the same seed and settings, agree on that channel, whatever the other channels
/// hold.
pub proof fn law_channels_are_reduced_independently<
    S,
    V: Fn(S) -> Level,
    A: Fn(S, &Vec<i32>, &Vec<S>, i32) -> S,
    N: Fn(S, i64) -> Level,
    M: Fn(i32, S) -> S,
    F: Fn(S, i64, i32) -> Level,
    C: Fn(i32, i32) -> S,
>(
    before: AudioBuffer<S>,
    after: AudioBuffer<S>,
    other: AudioBuffer<S>,
    other_after: AudioBuffer<S>,
    target: OutputSampleFormat,
    mode: DitherMode,
    strength: DitherStrength,
    correlation: DitherCorrelation,
    seed: u64,
    zero: S,
    value: V,
    aim: A,
    noisy: N,
    miss: M,
    flat: F,
    code: C,
    v: spec_fn(S) -> Level,
    a: spec_fn(S, Seq<i32>, Seq<S>, i32) -> S,
    ny: spec_fn(S, i64) -> Level,
    m: spec_fn(i32, S) -> S,
    fl: spec_fn(S, i64, i32) -> Level,
    cd: spec_fn(i32, i32) -> S,
    c: int,
)
    requires
        computes1(value, v),
        aims(aim, a),
        computes2(noisy, ny),
        computes2(miss, m),
        computes3(flat, fl),
        computes2(code, cd),
        same_shape(before, after),
        same_shape(before, other),
        same_shape(other, other_after),
        before.sample_rate == other.sample_rate,
        0 <= c < before.channels@.len(),
        before.samples()[c] == other.samples()[c],
        well_quantized(
            before,
            after,
            target,
            mode,
            strength,
            correlation,
            Some(seed),
            zero,
            value,
            aim,
            noisy,
            miss,
            flat,
            code,
        ),
        well_quantized(
            other,
            other_after,
            target,
            mode,
            strength,
            correlation,
            Some(seed),
            zero,
            value,
            aim,
            noisy,
            miss,
            flat,
            code,
        ),
    ensures
        after.samples()[c] == other_after.samples()[c],
{
    let first = choose|noise: Seq<spec_fn(nat) -> int>| #[trigger]
        dithers(noise, mode.shapes_at(target), before.channels@.len(), before.frames(), Some(seed))
            && quantized_with(
                before,
                after,
                target,
                mode,
                strength,
                correlation,
                Some(seed),
                noise,
                zero,
                value,
                aim,
                noisy,
                miss,
                flat,
                code,
            );
    let second = choose|noise: Seq<spec_fn(nat) -> int>| #[trigger]
        dithers(noise, mode.shapes_at(target), other.channels@.len(), other.frames(), Some(seed))
            && quantized_with(
                other,
                other_after,
                target,
                mode,
                strength,
                correlation,
                Some(seed),
                noise,
                zero,
                value,
                aim,
                noisy,
                miss,
                flat,
                code,
            );
    assert forall|k: nat| #[trigger] first[c](k) == second[c](k) by {}
    assert(first[c] =~= second[c]);
    assert forall|n: int| 0 <= n < before.frames() implies after.samples()[c][n]
        == other_after.samples()[c][n] by {
        let x = quantized_code(
            before.samples(),
            before.sample_rate,
            target,
            mode,
            strength,
            correlation,
            Some(seed),
            first,
            zero,
            n as nat,
            c as nat,
            v,
            a,
            ny,
            m,
            fl,
        );
        let y = quantized_code(
            other.samples(),
            other.sample_rate,
            target,
            mode,
            strength,
            correlation,
            Some(seed),
            second,
            zero,
            n as nat,
            c as nat,
            v,
            a,
            ny,
            m,
            fl,
        );
        assert(after.samples()[c][n] == cd(x, grid_of(target).max));
        assert(other_after.samples()[c][n] == cd(y, grid_of(target).max));
    }
    assert(after.samples()[c].len() == before.frames());
    assert(other_after.samples()[c].len() == before.frames());
    assert(after.samples()[c] =~= other_after.samples()[c]);
}

/// Every channel has a noise shaper of its own: channel `c` of a buffer comes out as it would
/// alone, with the seed of the channel in place of the seed. So it does with MBIT+ dither whose
/// channels are not correlated.
pub proof fn law_every_channel_is_reduced_as_alone<
    S,
    V: Fn(S) -> Level,
    A: Fn(S, &Vec<i32>, &Vec<S>, i32) -> S,
    N: Fn(S, i64) -> Level,
    M: Fn(i32, S) -> S,
    F: Fn(S, i64, i32) -> Level,
    C: Fn(i32, i32) -> S,
>(
    before: AudioBuffer<S>,
    after: AudioBuffer<S>,
    mono: AudioBuffer<S>,
    mono_after: AudioBuffer<S>,
    target: OutputSampleFormat,
    mode: DitherMode,
    strength: DitherStrength,
    seed: u64,
    zero: S,
    value: V,
    aim: A,
    noisy: N,
    miss: M,
    flat: F,
    code: C,
    v: spec_fn(S) -> Level,
    a: spec_fn(S, Seq<i32>, Seq<S>, i32) -> S,
    ny: spec_fn(S, i64) -> Level,
    m: spec_fn(i32, S) -> S,
    fl: spec_fn(S, i64, i32) -> Level,
    cd: spec_fn(i32, i32) -> S,
    c: int,
)
    requires
        computes1(value, v),
        aims(aim, a),
        computes2(noisy, ny),
        computes2(miss, m),
        computes3(flat, fl),
        computes2(code, cd),
        mode != DitherMode::Tpdf && mode != DitherMode::Off,
        target == OutputSampleFormat::S16,
        same_shape(before, after),
        same_shape(mono, mono_after),
        0 <= c < before.channels@.len(),
        mono.samples() == seq![before.samples()[c]],
        mono.sample_rate == before.sample_rate,
        well_quantized(
            before,
            after,
            target,
            mode,
            strength,
            DitherCorrelation::Decorrelated,
            Some(seed),
            zero,
            value,
            aim,
            noisy,
            miss,
            flat,
            code,
        ),
        well_quantized(
            mono,
            mono_after,
            target,
            mode,
            strength,
            DitherCorrelation::Decorrelated,
            Some(channel_seed(seed, c)),
            zero,
            value,
            aim,
            noisy,
            miss,
            flat,
            code,
        ),
    ensures
        after.samples()[c] == mono_after.samples()[0],
{
    let correlation = DitherCorrelation::Decorrelated;
    let own = channel_seed(seed, c);
    law_first_channel_uses_the_base_seed(own);
    let whole = choose|noise: Seq<spec_fn(nat) -> int>| #[trigger]
        dithers(noise, mode.shapes_at(target), before.channels@.len(), before.frames(), Some(seed))
            && quantized_with(
                before,
                after,
                target,
                mode,
                strength,
                correlation,
                Some(seed),
                noise,
                zero,
                value,
                aim,
                noisy,
                miss,
                flat,
                code,
            );
    let alone = choose|noise: Seq<spec_fn(nat) -> int>| #[trigger]
        dithers(noise, mode.shapes_at(target), mono.channels@.len(), mono.frames(), Some(own))
            && quantized_with(
                mono,
                mono_after,
                target,
                mode,
                strength,
                correlation,
                Some(own),
                noise,
                zero,
                value,
                aim,
                noisy,
                miss,
                flat,
                code,
            );
    let frames = before.frames();
    assert(mono.samples().len() == 1);
    assert(mono.samples()[0] == before.samples()[c]);
    assert(before.samples()[c].len() == frames);
    assert(mono.frames() == frames);
    let grid = grid_of(target);
    let strong = strength_of(strength);
    let rate = before.sample_rate;
    if uses_mbit_plus(mode, target) {
        let one = setup_for(rate, strong, correlation, Some(seed), zero, grid);
        let two = setup_for(rate, strong, correlation, Some(own), zero, grid);
        let noise = channel_noise(one, before.samples().len(), c as nat);
        assert(noise =~= channel_noise(two, 1, 0));
        assert forall|n: nat| state_at(one, before.samples()[c], noise, n, v, a, ny, m) == #[trigger]
            state_at(two, before.samples()[c], noise, n, v, a, ny, m) by {
            lemma_base_does_not_matter(one, two, before.samples()[c], noise, n, v, a, ny, m);
        }
    } else {
        assert forall|k: nat| #[trigger] whole[c](k) == alone[0](k) by {}
        assert(whole[c] =~= alone[0]);
    }
    assert forall|n: int| 0 <= n < frames implies after.samples()[c][n]
        == mono_after.samples()[0][n] by {
        let x = quantized_code(
            before.samples(),
            before.sample_rate,
            target,
            mode,
            strength,
            correlation,
            Some(seed),
            whole,
            zero,
            n as nat,
            c as nat,
            v,
            a,
            ny,
            m,
            fl,
        );
        let y = quantized_code(
            mono.samples(),
            mono.sample_rate,
            target,
            mode,
            strength,
            correlation,
            Some(own),
            alone,
            zero,
            n as nat,
            0,
            v,
            a,
            ny,
            m,
            fl,
        );
        assert(after.samples()[c][n] == cd(x, grid.max));
        assert(mono_after.samples()[0][n] == cd(y, grid.max));
        if uses_mbit_plus(mode, target) {
            let one = setup_for(rate, strong, correlation, Some(seed), zero, grid);
            let two = setup_for(rate, strong, correlation, Some(own), zero, grid);
            let noise = channel_noise(one, before.samples().len(), c as nat);
            lemma_base_does_not_matter(one, two, before.samples()[c], noise, n as nat, v, a, ny, m);
        }
    }
    assert(after.samples()[c].len() == frames);
    assert(mono_after.samples()[0].len() == frames);
    assert(after.samples()[c] =~= mono_after.samples()[0]);
}

/// With the noise given, the base seed does not matter.
proof fn lemma_base_does_not_matter<S>(
    one: MbitSetup<S>,
    two: MbitSetup<S>,
    signal: Seq<S>,
    noise: spec_fn(nat) -> int,
    n: nat,
    value: spec_fn(S) -> Level,
    aim: spec_fn(S, Seq<i32>, Seq<S>, i32) -> S,
    noisy: spec_fn(S, i64) -> Level,
    miss: spec_fn(i32, S) -> S,
)
    requires
        one.taps == two.taps,
        one.threshold == two.threshold,
        one.zero == two.zero,
        one.grid == two.grid,
    ensures
        state_at(one, signal, noise, n, value, aim, noisy, miss) == state_at(
            two,
            signal,
            noise,
            n,
            value,
            aim,
            noisy,
            miss,
        ),
    decreases n,
{
    if n > 0 {
        lemma_base_does_not_matter(
            one,
            two,
            signal,
            noise,
            (n - 1) as nat,
            value,
            aim,
            noisy,
            miss,
        );
    }
}

/// A shaped reduction shapes: in every channel, the difference between the reduced sample and
/// its sample is the newest of a series of errors, each at most a step and a half, less the
/// earlier ones as the curve says. The gentle curve is `1 - 2 z + z^2`; the psychoacoustic one
/// is the published curve with the taps 2.033, -2.165, 1.959, -1.59 and 0.6149.
pub proof fn law_reduction_shapes_the_errors<
    S,
    V: Fn(S) -> Level,
    A: Fn(S, &Vec<i32>, &Vec<S>, i32) -> S,
    N: Fn(S, i64) -> Level,
    M: Fn(i32, S) -> S,
    F: Fn(S, i64, i32) -> Level,
    C: Fn(i32, i32) -> S,
>(
    before: AudioBuffer<S>,
    after: AudioBuffer<S>,
    target: OutputSampleFormat,
    mode: DitherMode,
    strength: DitherStrength,
    correlation: DitherCorrelation,
    seed: Option<u64>,
    zero: S,
    value: V,
    aim: A,
    noisy: N,
    miss: M,
    flat: F,
    code: C,
    v: spec_fn(S) -> Level,
    a: spec_fn(S, Seq<i32>, Seq<S>, i32) -> S,
    ny: spec_fn(S, i64) -> Level,
    m: spec_fn(i32, S) -> S,
    fl: spec_fn(S, i64, i32) -> Level,
    cd: spec_fn(i32, i32) -> S,
    size: spec_fn(S) -> int,
    num: spec_fn(S) -> int,
    slack: int,
    c: int,
) -> (errors: spec_fn(int) -> int)
    requires
        computes1(value, v),
        aims(aim, a),
        computes2(noisy, ny),
        computes2(miss, m),
        computes3(flat, fl),
        computes2(code, cd),
        target == OutputSampleFormat::S16,
        mode == DitherMode::Shaped || mode == DitherMode::Psychoacoustic,
        before.well_formed(),
        0 <= c < before.channels@.len(),
        slack >= 0,
        well_quantized(
            before,
            after,
            target,
            mode,
            strength,
            correlation,
            seed,
            zero,
            value,
            aim,
            noisy,
            miss,
            flat,
            code,
        ),
        shapes_numbers(a, ny, m, zero, 32_767, size, num, slack),
        forall|y: i32| -32_767 <= y <= 32_767 ==> size(#[trigger] cd(y, 32_767)) == y * grid_step(),
        forall|k: int|
            0 <= k < before.frames() ==> 20000 * distance(size(#[trigger] before.samples()[c][k]), 0)
                + heaviest(mode, target) * twice_error(slack) + 20000 * slack <= 20000 * (32_767
                * grid_step()),
    ensures
        forall|k: int| k < 0 ==> #[trigger] errors(k) == 0,
        forall|k: int|
            k < before.frames() ==> 2 * distance(#[trigger] errors(k), 0) <= twice_error(slack),
        forall|n: int|
            0 <= n < before.frames() ==> {
                let off = size(#[trigger] after.samples()[c][n]) - size(before.samples()[c][n]);
                distance(
                    10000 * off,
                    if mode == DitherMode::Shaped {
                        10000 * errors(n) - 20000 * errors(n - 1) + 10000 * errors(n - 2)
                    } else {
                        10000 * errors(n) - 20330 * errors(n - 1) + 21650 * errors(n - 2) - 19590
                            * errors(n - 3) + 15900 * errors(n - 4) - 6149 * errors(n - 5)
                    },
                ) <= 20000 * slack
            },
{
    let grid = grid_of(target);
    let taps = mode.curve()->0.taps();
    let samples = before.samples();
    lemma_weights(mode, strength, before.sample_rate);
    let noise = choose|noise: Seq<spec_fn(nat) -> int>| #[trigger]
        dithers(noise, mode.shapes_at(target), before.channels@.len(), before.frames(), seed)
            && quantized_with(
                before,
                after,
                target,
                mode,
                strength,
                correlation,
                seed,
                noise,
                zero,
                value,
                aim,
                noisy,
                miss,
                flat,
                code,
            );
    assert(samples[c].len() == before.frames());
    assert forall|k: nat| -0x20_0000_0000_0000 <= #[trigger] noise[c](k) <= 0x20_0000_0000_0000 by {}
    let errors = law_errors_are_filtered(
        samples[c],
        taps,
        zero,
        noise[c],
        grid,
        a,
        ny,
        m,
        size,
        num,
        slack,
        before.frames(),
    );
    let codes = |k: nat| code_at(samples[c], taps, zero, noise[c], grid, a, ny, m, k) as int;
    assert forall|n: int| 0 <= n < before.frames() implies ({
        let off = size(#[trigger] after.samples()[c][n]) - size(before.samples()[c][n]);
        distance(
            10000 * off,
            if mode == DitherMode::Shaped {
                10000 * errors(n) - 20000 * errors(n - 1) + 10000 * errors(n - 2)
            } else {
                10000 * errors(n) - 20330 * errors(n - 1) + 21650 * errors(n - 2) - 19590 * errors(
                    n - 3,
                ) + 15900 * errors(n - 4) - 6149 * errors(n - 5)
            },
        ) <= 20000 * slack
    }) by {
        let y = quantized_code(
            before.samples(),
            before.sample_rate,
            target,
            mode,
            strength,
            correlation,
            seed,
            noise,
            zero,
            n as nat,
            c as nat,
            v,
            a,
            ny,
            m,
            fl,
        );
        assert(after.samples()[c][n] == cd(y, 32_767));
        assert(y == codes(n as nat));
        law_snapping_goes_to_the_nearest(
            ny(
                a(
                    samples[c][n],
                    taps,
                    history_at(samples[c], taps, zero, noise[c], grid, a, ny, m, n as nat),
                    grid.max,
                ),
                noise[c](n as nat) as i64,
            ),
            grid.lo as int,
            grid.hi as int,
        );
        assert(size(cd(y, 32_767)) == y * grid_step());
        lemma_curves(errors, n);
        assert(distance(
            10000 * (codes(n as nat) * grid_step() - size(samples[c][n])),
            10000 * errors(n) - filtered(taps, errors, n, taps.len() as int),
        ) <= 20000 * slack);
    }
    errors
}

/// The curves, written out.
proof fn lemma_curves(errors: spec_fn(int) -> int, n: int)
    ensures
        ({
            let gentle = DitherMode::Shaped.curve()->0.taps();
            let ear = DitherMode::Psychoacoustic.curve()->0.taps();
            &&& filtered(gentle, errors, n, gentle.len() as int) == 20000 * errors(n - 1) - 10000
                * errors(n - 2)
            &&& filtered(ear, errors, n, ear.len() as int) == 20330 * errors(n - 1) - 21650 * errors(
                n - 2,
            ) + 19590 * errors(n - 3) - 15900 * errors(n - 4) + 6149 * errors(n - 5)
        }),
{
    let gentle = DitherMode::Shaped.curve()->0.taps();
    let ear = DitherMode::Psychoacoustic.curve()->0.taps();
    assert(gentle.len() == 2 && gentle[0] == 20000 && gentle[1] == -10000);
    assert(ear.len() == 5 && ear[0] == 20330 && ear[1] == -21650 && ear[2] == 19590 && ear[3]
        == -15900 && ear[4] == 6149);
    assert(filtered(gentle, errors, n, 0) == 0);
    assert(filtered(gentle, errors, n, 1) == 20000 * errors(n - 1));
    assert(gentle[1] * errors(n - 2) == -10000 * errors(n - 2)) by (nonlinear_arith)
        requires
            gentle[1] == -10000,
    ;
    assert(filtered(gentle, errors, n, 2) == 20000 * errors(n - 1) - 10000 * errors(n - 2));
    assert(filtered(ear, errors, n, 0) == 0);
    assert(filtered(ear, errors, n, 1) == 20330 * errors(n - 1));
    assert(ear[1] * errors(n - 2) == -21650 * errors(n - 2)) by (nonlinear_arith)
        requires
            ear[1] == -21650,
    ;
    assert(filtered(ear, errors, n, 2) == 20330 * errors(n - 1) - 21650 * errors(n - 2));
    let three = 20330 * errors(n - 1) - 21650 * errors(n - 2) + 19590 * errors(n - 3);
    assert(filtered(ear, errors, n, 3) == three);
    assert(ear[3] * errors(n - 4) == -15900 * errors(n - 4)) by (nonlinear_arith)
        requires
            ear[3] == -15900,
    ;
    assert(filtered(ear, errors, n, 4) == three - 15900 * errors(n - 4));
    assert(filtered(ear, errors, n, 5) == three - 15900 * errors(n - 4) + 6149 * errors(n - 5));
}

} // verus!

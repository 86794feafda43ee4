//! The error-feedback noise shaper.
//!
//! The shaper moves the noise of quantization and dither to where the ear is less sensitive.
//! One instance serves one channel: a shared error history would spoil the noise transfer.
//!
//! Arithmetic on samples is handed in by the caller:
//! - `aim(x, taps, hist, max)`: the sample scaled to the grid, less the shaped sum of past
//!   errors;
//! - `noisy(u, n)`: the bits of `u` plus `n * 2^-53`;
//! - `miss(y, u)`: the error `y - u`;
//! - `code(y, max)`: the sample that stands for the code `y`.
use vstd::prelude::*;
use crate::closures::{accepts2, computes2};
use crate::dither::ShapingCurve;
use crate::dither::TpdfDither;
use crate::dither::multichannel::drawn;
use crate::dither::noise::triangular;
use crate::level::Level;

verus! {

/// Whatever `f` returns is the value of `s`, which looks at the contents of the two lists.
pub open spec fn aims<S, F: Fn(S, &Vec<i32>, &Vec<S>, i32) -> S>(
    f: F,
    s: spec_fn(S, Seq<i32>, Seq<S>, i32) -> S,
) -> bool {
    forall|x: S, t: &Vec<i32>, h: &Vec<S>, m: i32, r: S| #[trigger]
        f.ensures((x, t, h, m), r) ==> r == s(x, t@, h@, m)
}

/// `f` accepts every argument.
pub open spec fn aim_accepts<S, F: Fn(S, &Vec<i32>, &Vec<S>, i32) -> S>(f: F) -> bool {
    forall|x: S, t: &Vec<i32>, h: &Vec<S>, m: i32| #[trigger] f.requires((x, t, h, m))
}

/// The quantization grid: full scale is `max`, codes run from `lo` to `hi`.
#[derive(Clone, Copy, Debug, PartialEq, Eq, Structural)]
pub struct Grid {
    pub max: i32,
    pub lo: i32,
    pub hi: i32,
}

impl Grid {
    /// There is a code.
    pub open spec fn well_formed(self) -> bool {
        self.lo <= self.hi
    }

    /// `y` is a code of the grid.
    pub open spec fn has(self, y: int) -> bool {
        self.lo <= y <= self.hi
    }
}

/// The code of one shaped sample.
pub open spec fn shaped_code<S>(
    x: S,
    taps: Seq<i32>,
    hist: Seq<S>,
    noise: i64,
    grid: Grid,
    aim: spec_fn(S, Seq<i32>, Seq<S>, i32) -> S,
    noisy: spec_fn(S, i64) -> Level,
) -> i32 {
    noisy(aim(x, taps, hist, grid.max), noise).snapped(grid.lo as int, grid.hi as int) as i32
}

/// The error history after one shaped sample, newest first.
pub open spec fn shaped_history<S>(
    x: S,
    taps: Seq<i32>,
    hist: Seq<S>,
    noise: i64,
    grid: Grid,
    aim: spec_fn(S, Seq<i32>, Seq<S>, i32) -> S,
    noisy: spec_fn(S, i64) -> Level,
    miss: spec_fn(i32, S) -> S,
) -> Seq<S> {
    let y = shaped_code(x, taps, hist, noise, grid, aim, noisy);
    seq![miss(y, aim(x, taps, hist, grid.max))] + hist.drop_last()
}

/// Put `e` in front of the history and drop the oldest error.
pub fn push_error<S: Copy>(hist: &mut Vec<S>, e: S)
    requires
        old(hist)@.len() > 0,
    ensures
        final(hist)@ == seq![e] + old(hist)@.drop_last(),
{
    let _ = hist.pop();
    hist.insert(0, e);
    assert(hist@ =~= seq![e] + old(hist)@.drop_last());
}

/// Quantize one sample with error feedback. The total error (dither, rounding and clamping)
/// is fed back, so that the dither is shaped too.
pub fn shape_sample<
    S: Copy,
    A: Fn(S, &Vec<i32>, &Vec<S>, i32) -> S,
    N: Fn(S, i64) -> Level,
    M: Fn(i32, S) -> S,
>(
    x: S,
    taps: &Vec<i32>,
    hist: &mut Vec<S>,
    noise: i64,
    grid: Grid,
    aim: &A,
    noisy: &N,
    miss: &M,
) -> (y: i32)
    requires
        aim_accepts(*aim),
        accepts2(*noisy),
        accepts2(*miss),
        grid.well_formed(),
        old(hist)@.len() > 0,
    ensures
        grid.has(y as int),
        final(hist)@.len() == old(hist)@.len(),
        forall|a: spec_fn(S, Seq<i32>, Seq<S>, i32) -> S, n: spec_fn(S, i64) -> Level|
            aims(*aim, a) && computes2(*noisy, n) ==> y == #[trigger] shaped_code(
                x,
                taps@,
                old(hist)@,
                noise,
                grid,
                a,
                n,
            ),
        forall|
            a: spec_fn(S, Seq<i32>, Seq<S>, i32) -> S,
            n: spec_fn(S, i64) -> Level,
            m: spec_fn(i32, S) -> S,
        |
            aims(*aim, a) && computes2(*noisy, n) && computes2(*miss, m) ==> final(hist)@
                == #[trigger] shaped_history(x, taps@, old(hist)@, noise, grid, a, n, m),
{
    let u = aim(x, taps, &*hist, grid.max);
    let w: Level = noisy(u, noise);
    let y = w.snap(grid.lo, grid.hi);
    let e = miss(y, u);
    push_error(hist, e);
    y
}

impl ShapingCurve {
    /// The taps of the error feedback, in ten-thousandths.
    pub open spec fn taps(self) -> Seq<i32> {
        match self {
            ShapingCurve::Gentle => seq![20000i32, -10000 as i32],
            ShapingCurve::Psychoacoustic => seq![20330i32, -21650 as i32, 19590, -15900 as i32, 6149],
        }
    }

    /// The taps of the error feedback, in ten-thousandths. The gentle curve is a second-order
    /// high-pass with a null at DC. The psychoacoustic one is the published five-tap
    /// "minimally audible" curve with its dip near 4 kHz at 44.1 kHz.
    pub fn coeffs(self) -> (r: Vec<i32>)
        ensures
            r@ == self.taps(),
            r@.len() > 0,
    {
        let r = match self {
            ShapingCurve::Gentle => vec![20000, -10000],
            ShapingCurve::Psychoacoustic => vec![20330, -21650, 19590, -15900, 6149],
        };
        assert(r@ =~= self.taps());
        r
    }
}

/// `n` times `zero`.
pub open spec fn blank_history<S>(zero: S, n: nat) -> Seq<S> {
    Seq::new(n, |i: int| zero)
}

/// A history of `n` zero errors.
pub fn new_history<S: Copy>(zero: S, n: usize) -> (r: Vec<S>)
    ensures
        r@ == blank_history(zero, n as nat),
{
    let mut r: Vec<S> = Vec::new();
    while r.len() < n
        invariant
            r@.len() <= n,
            forall|i: int| 0 <= i < r@.len() ==> #[trigger] r@[i] == zero,
        decreases n - r.len(),
    {
        r.push(zero);
    }
    assert(r@ =~= blank_history(zero, n as nat));
    r
}

/// A noise shaper for one channel.
pub struct NoiseShaper<S> {
    dither: TpdfDither,
    coeffs: Vec<i32>,
    hist: Vec<S>,
}

impl<S: Copy> NoiseShaper<S> {
    /// Word `i` of the words that the dither will be made of.
    pub closed spec fn word(self, i: nat) -> u64 {
        self.dither.word(i)
    }

    /// The noise that the samples will get.
    pub open spec fn stream(self) -> spec_fn(nat) -> int {
        |k: nat| triangular(self.word(2 * k), self.word(2 * k + 1))
    }

    /// The noise that the next sample gets.
    pub open spec fn next_noise(self) -> i64 {
        triangular(self.word(0), self.word(1)) as i64
    }

    /// The taps of the error feedback.
    pub closed spec fn taps(self) -> Seq<i32> {
        self.coeffs@
    }

    /// Past errors, newest first.
    pub closed spec fn history(self) -> Seq<S> {
        self.hist@
    }

    /// A shaper without past errors.
    pub fn new(curve: ShapingCurve, seed: Option<u64>, zero: S) -> (r: NoiseShaper<S>)
        ensures
            r.taps() == curve.taps(),
            r.history() == blank_history(zero, curve.taps().len()),
            r.history().len() > 0,
            drawn(r.stream(), seed),
    {
        let coeffs = curve.coeffs();
        let hist = new_history(zero, coeffs.len());
        let dither = TpdfDither::new(seed);
        let r = NoiseShaper { dither, coeffs, hist };
        assert(r.stream() =~= dither.stream());
        r
    }

    /// Quantize one sample in `[-1, 1]` to the grid. Returns its code.
    pub fn quantize<
        A: Fn(S, &Vec<i32>, &Vec<S>, i32) -> S,
        N: Fn(S, i64) -> Level,
        M: Fn(i32, S) -> S,
    >(&mut self, sample: S, grid: Grid, aim: &A, noisy: &N, miss: &M) -> (y: i32)
        requires
            aim_accepts(*aim),
            accepts2(*noisy),
            accepts2(*miss),
            grid.well_formed(),
            old(self).history().len() > 0,
        ensures
            grid.has(y as int),
            final(self).taps() == old(self).taps(),
            final(self).history().len() == old(self).history().len(),
            forall|i: nat| #[trigger] final(self).word(i) == old(self).word(i + 2),
            forall|a: spec_fn(S, Seq<i32>, Seq<S>, i32) -> S, n: spec_fn(S, i64) -> Level|
                aims(*aim, a) && computes2(*noisy, n) ==> y == #[trigger] shaped_code(
                    sample,
                    old(self).taps(),
                    old(self).history(),
                    old(self).next_noise(),
                    grid,
                    a,
                    n,
                ),
            forall|
                a: spec_fn(S, Seq<i32>, Seq<S>, i32) -> S,
                n: spec_fn(S, i64) -> Level,
                m: spec_fn(i32, S) -> S,
            |
                aims(*aim, a) && computes2(*noisy, n) && computes2(*miss, m) ==> final(self).history()
                    == #[trigger] shaped_history(
                    sample,
                    old(self).taps(),
                    old(self).history(),
                    old(self).next_noise(),
                    grid,
                    a,
                    n,
                    m,
                ),
    {
        let noise = self.dither.sample_lsb();
        assert(noise == old(self).next_noise());
        shape_sample(sample, &self.coeffs, &mut self.hist, noise, grid, aim, noisy, miss)
    }
}

/// The error history before sample `k` of a channel that `noise` dithers.
pub open spec fn history_at<S>(
    samples: Seq<S>,
    taps: Seq<i32>,
    zero: S,
    noise: spec_fn(nat) -> int,
    grid: Grid,
    aim: spec_fn(S, Seq<i32>, Seq<S>, i32) -> S,
    noisy: spec_fn(S, i64) -> Level,
    miss: spec_fn(i32, S) -> S,
    k: nat,
) -> Seq<S>
    decreases k,
{
    if k == 0 {
        blank_history(zero, taps.len())
    } else {
        let j = (k - 1) as nat;
        shaped_history(
            samples[j as int],
            taps,
            history_at(samples, taps, zero, noise, grid, aim, noisy, miss, j),
            noise(j) as i64,
            grid,
            aim,
            noisy,
            miss,
        )
    }
}

/// The code of sample `k` of a channel that `noise` dithers.
pub open spec fn code_at<S>(
    samples: Seq<S>,
    taps: Seq<i32>,
    zero: S,
    noise: spec_fn(nat) -> int,
    grid: Grid,
    aim: spec_fn(S, Seq<i32>, Seq<S>, i32) -> S,
    noisy: spec_fn(S, i64) -> Level,
    miss: spec_fn(i32, S) -> S,
    k: nat,
) -> i32 {
    shaped_code(
        samples[k as int],
        taps,
        history_at(samples, taps, zero, noise, grid, aim, noisy, miss, k),
        noise(k) as i64,
        grid,
        aim,
        noisy,
    )
}

/// `codes` are the codes of the first samples of a channel that `noise` dithers.
pub open spec fn shaped_with<
    S,
    A: Fn(S, &Vec<i32>, &Vec<S>, i32) -> S,
    N: Fn(S, i64) -> Level,
    M: Fn(i32, S) -> S,
>(
    codes: Seq<i32>,
    samples: Seq<S>,
    taps: Seq<i32>,
    zero: S,
    noise: spec_fn(nat) -> int,
    grid: Grid,
    aim: A,
    noisy: N,
    miss: M,
) -> bool {
    forall|
        a: spec_fn(S, Seq<i32>, Seq<S>, i32) -> S,
        n: spec_fn(S, i64) -> Level,
        m: spec_fn(i32, S) -> S,
        k: nat,
    |
        aims(aim, a) && computes2(noisy, n) && computes2(miss, m) && k < codes.len()
            ==> codes[k as int] == #[trigger] code_at(
            samples,
            taps,
            zero,
            noise,
            grid,
            a,
            n,
            m,
            k,
        )
}

/// Quantize a whole channel. Returns the codes.
pub fn shape_channel<
    S: Copy,
    A: Fn(S, &Vec<i32>, &Vec<S>, i32) -> S,
    N: Fn(S, i64) -> Level,
    M: Fn(i32, S) -> S,
>(
    samples: &Vec<S>,
    curve: ShapingCurve,
    seed: Option<u64>,
    zero: S,
    grid: Grid,
    aim: &A,
    noisy: &N,
    miss: &M,
) -> (codes: Vec<i32>)
    requires
        aim_accepts(*aim),
        accepts2(*noisy),
        accepts2(*miss),
        grid.well_formed(),
    ensures
        codes@.len() == samples@.len(),
        forall|k: int| 0 <= k < codes@.len() ==> grid.has(#[trigger] codes@[k] as int),
        exists|noise: spec_fn(nat) -> int| #[trigger]
            drawn(noise, seed) && shaped_with(
                codes@,
                samples@,
                curve.taps(),
                zero,
                noise,
                grid,
                *aim,
                *noisy,
                *miss,
            ),
{
    let mut shaper = NoiseShaper::new(curve, seed, zero);
    let ghost start = shaper;
    let ghost noise = shaper.stream();
    let mut codes: Vec<i32> = Vec::new();
    let mut k: usize = 0;
    while k < samples.len()
        invariant
            aim_accepts(*aim),
            accepts2(*noisy),
            accepts2(*miss),
            grid.well_formed(),
            noise == start.stream(),
            k <= samples@.len(),
            codes@.len() == k,
            shaper.taps() == curve.taps(),
            shaper.history().len() > 0,
            forall|j: int| 0 <= j < codes@.len() ==> grid.has(#[trigger] codes@[j] as int),
            forall|i: nat| #[trigger] shaper.word(i) == start.word(2 * k as nat + i),
            forall|
                a: spec_fn(S, Seq<i32>, Seq<S>, i32) -> S,
                n: spec_fn(S, i64) -> Level,
                m: spec_fn(i32, S) -> S,
            |
                aims(*aim, a) && computes2(*noisy, n) && computes2(*miss, m) ==> shaper.history()
                    == #[trigger] history_at(
                    samples@,
                    curve.taps(),
                    zero,
                    noise,
                    grid,
                    a,
                    n,
                    m,
                    k as nat,
                ),
            shaped_with(codes@, samples@, curve.taps(), zero, noise, grid, *aim, *noisy, *miss),
        decreases samples.len() - k,
    {
        let ghost before = shaper;
        let ghost done = codes@;
        let y = shaper.quantize(samples[k], grid, aim, noisy, miss);
        codes.push(y);
        proof {
            assert(before.word(0) == start.word(2 * k as nat + 0));
            assert(before.word(1) == start.word(2 * k as nat + 1));
            assert(noise(k as nat) as i64 == before.next_noise());
            assert forall|i: nat| #[trigger] shaper.word(i) == start.word(2 * (k + 1) as nat + i) by {
                assert(before.word(i + 2) == start.word(2 * k as nat + (i + 2)));
            }
            assert forall|
                a: spec_fn(S, Seq<i32>, Seq<S>, i32) -> S,
                n: spec_fn(S, i64) -> Level,
                m: spec_fn(i32, S) -> S,
            |
                aims(*aim, a) && computes2(*noisy, n) && computes2(*miss, m) implies shaper.history()
                == #[trigger] history_at(
                samples@,
                curve.taps(),
                zero,
                noise,
                grid,
                a,
                n,
                m,
                (k + 1) as nat,
            ) by {
                let h = history_at(samples@, curve.taps(), zero, noise, grid, a, n, m, k as nat);
                assert(before.history() == h);
                assert(shaper.history() == shaped_history(
                    samples@[k as int],
                    before.taps(),
                    before.history(),
                    before.next_noise(),
                    grid,
                    a,
                    n,
                    m,
                ));
            }
            assert forall|
                a: spec_fn(S, Seq<i32>, Seq<S>, i32) -> S,
                n: spec_fn(S, i64) -> Level,
                m: spec_fn(i32, S) -> S,
                j: nat,
            |
                aims(*aim, a) && computes2(*noisy, n) && computes2(*miss, m) && j < codes@.len()
                    implies codes@[j as int] == #[trigger] code_at(
                samples@,
                curve.taps(),
                zero,
                noise,
                grid,
                a,
                n,
                m,
                j,
            ) by {
                if j < k {
                    assert(codes@[j as int] == done[j as int]);
                } else {
                    let h = history_at(samples@, curve.taps(), zero, noise, grid, a, n, m, k as nat);
                    assert(before.history() == h);
                    assert(y == shaped_code(
                        samples@[k as int],
                        before.taps(),
                        before.history(),
                        before.next_noise(),
                        grid,
                        a,
                        n,
                    ));
                }
            }
        }
        k = k + 1;
    }
    assert(drawn(noise, seed));
    codes
}

} // verus!

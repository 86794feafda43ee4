//! Bit-depth reduction.
//!
//! The full-precision samples are quantized once, with dither. Arithmetic on samples is handed
//! in by the caller:
//! - `value(x)`: the bits of a sample;
//! - `aim`, `noisy` and `miss`: as the noise shaper takes them;
//! - `flat(x, n, max)`: the bits of the clamped sample scaled to the grid, with `n * 2^-53`
//!   steps of noise added;
//! - `code(y, max)`: the sample that stands for the code `y`.
use vstd::prelude::*;
use crate::audio::buffer::{planar, rectangular, AudioBuffer, OutputSampleFormat};
use crate::audio::io_write::{flac_value, pcm_value};
use crate::closures::{accepts1, accepts2, accepts3, computes1, computes2, computes3};
use crate::config::{DitherCorrelation, DitherMode, DitherStrength};
use crate::dither::{ShapingCurve, TpdfDither};
use crate::dither::mbit_plus::{self, channel_noise, mbit_code, setup_for, strength_of, MbitPlusStrength};
use crate::dither::multichannel::{
    channel_seed, drawn, law_first_channel_uses_the_base_seed, noise_at, per_channel_seed,
};
use crate::dither::shaper::{aim_accepts, aims, code_at, shape_channel, shaped_with, Grid};
use crate::level::Level;
use crate::refusal::Refusal;

verus! {

/// What a bit-depth step did.
#[derive(Debug, Clone, Copy)]
pub struct BitDepthApplyResult {
    pub reduced: bool,
    pub dithered: bool,
    /// Whether error-feedback noise shaping ran (only ever together with dither).
    pub shaped: bool,
    /// The family of noise shaping that the quantizer used.
    pub shaping_tag: Option<&'static str>,
}

/// The precision of a format among the others.
pub open spec fn rank(format: OutputSampleFormat) -> int {
    match format {
        OutputSampleFormat::F32 => 3,
        OutputSampleFormat::S24 => 2,
        OutputSampleFormat::S16 => 1,
    }
}

/// Going from `current` to `target` loses precision.
pub open spec fn reduces(current: OutputSampleFormat, target: OutputSampleFormat) -> bool {
    rank(target) < rank(current)
}

/// The MBIT+ quantizer serves this mode and format.
pub open spec fn uses_mbit_plus(mode: DitherMode, target: OutputSampleFormat) -> bool {
    mode == DitherMode::MbitPlus && target == OutputSampleFormat::S16
}

/// The mode to use when none is given.
pub open spec fn mode_or_default(mode: Option<DitherMode>) -> DitherMode {
    match mode {
        Some(m) => m,
        None => DitherMode::Tpdf,
    }
}

/// The strength to use when none is given.
pub open spec fn strength_or_default(strength: Option<DitherStrength>) -> DitherStrength {
    match strength {
        Some(s) => s,
        None => DitherStrength::Normal,
    }
}

/// The correlation to use when none is given.
pub open spec fn correlation_or_default(correlation: Option<DitherCorrelation>) -> DitherCorrelation {
    match correlation {
        Some(c) => c,
        None => DitherCorrelation::Decorrelated,
    }
}

/// The label of the noise shaping that a step from `current` to `target` uses, if it quantizes
/// and shapes at all.
pub open spec fn shaping_label(
    current: OutputSampleFormat,
    target: OutputSampleFormat,
    mode: DitherMode,
) -> Option<Seq<char>> {
    if !reduces(current, target) {
        None
    } else if uses_mbit_plus(mode, target) {
        Some("mbit+"@)
    } else if mode.shapes_at(target) {
        Some(mode.curve()->0.label())
    } else {
        None
    }
}

/// The view of a label.
pub open spec fn tag_view(tag: Option<&'static str>) -> Option<Seq<char>> {
    match tag {
        Some(t) => Some(t@),
        None => None,
    }
}

/// The precision of a format among the others.
pub fn bit_depth_rank(format: OutputSampleFormat) -> (r: u8)
    ensures
        r == rank(format),
{
    match format {
        OutputSampleFormat::F32 => 3,
        OutputSampleFormat::S24 => 2,
        OutputSampleFormat::S16 => 1,
    }
}

/// Whether going from `current` to `target` loses precision.
pub fn is_reduction(current: OutputSampleFormat, target: OutputSampleFormat) -> (r: bool)
    ensures
        r == reduces(current, target),
{
    bit_depth_rank(target) < bit_depth_rank(current)
}

/// Whether the MBIT+ quantizer serves this mode and format.
pub fn is_mbit_plus(mode: DitherMode, target: OutputSampleFormat) -> (r: bool)
    ensures
        r == uses_mbit_plus(mode, target),
{
    mode == DitherMode::MbitPlus && target == OutputSampleFormat::S16
}

/// The grid with the largest code `max`.
pub open spec fn grid_with(max: int) -> Grid {
    Grid { max: max as i32, lo: -max as i32, hi: max as i32 }
}

/// The grid of an integer format.
pub open spec fn grid_of(target: OutputSampleFormat) -> Grid {
    grid_with(target.grid_max()->0)
}

/// The code of a sample that is dithered and not shaped.
pub open spec fn flat_code<S>(
    x: S,
    noise: i64,
    grid: Grid,
    flat: spec_fn(S, i64, i32) -> Level,
) -> i32 {
    flat(x, noise, grid.max).snapped(grid.lo as int, grid.hi as int) as i32
}

/// The code of sample `n` of channel `c`, where `noise` holds a stream of noise for every
/// channel. The MBIT+ quantizer draws its noise by itself.
pub open spec fn quantized_code<S>(
    samples: Seq<Seq<S>>,
    rate: u32,
    target: OutputSampleFormat,
    mode: DitherMode,
    strength: DitherStrength,
    correlation: DitherCorrelation,
    seed: Option<u64>,
    noise: Seq<spec_fn(nat) -> int>,
    zero: S,
    n: nat,
    c: nat,
    value: spec_fn(S) -> Level,
    aim: spec_fn(S, Seq<i32>, Seq<S>, i32) -> S,
    noisy: spec_fn(S, i64) -> Level,
    miss: spec_fn(i32, S) -> S,
    flat: spec_fn(S, i64, i32) -> Level,
) -> i32 {
    let grid = grid_of(target);
    if uses_mbit_plus(mode, target) {
        mbit_code(
            setup_for(rate, strength_of(strength), correlation, seed, zero, grid),
            samples,
            n,
            c,
            value,
            aim,
            noisy,
            miss,
        )
    } else if mode.shapes_at(target) {
        code_at(
            samples[c as int],
            mode.curve()->0.taps(),
            zero,
            noise[c as int],
            grid,
            aim,
            noisy,
            miss,
            n,
        )
    } else {
        flat_code(samples[c as int][n as int], noise[c as int](n) as i64, grid, flat)
    }
}

/// `noise` holds a stream of noise for every channel: each number lies between one step below
/// and one step above zero, and a seed, when there is one, decides them all. The shaped
/// quantizer has a generator for every channel; the flat one draws from one generator for all
/// channels, one channel after the other.
pub open spec fn dithers(
    noise: Seq<spec_fn(nat) -> int>,
    shaped: bool,
    channels: nat,
    frames: nat,
    seed: Option<u64>,
) -> bool {
    &&& noise.len() == channels
    &&& forall|c: int, n: nat|
        0 <= c < channels ==> -0x20_0000_0000_0000 <= #[trigger] noise[c](n) < 0x20_0000_0000_0000
            && (seed matches Some(s) ==> noise[c](n) == if shaped {
            noise_at(channel_seed(s, c), n)
        } else {
            noise_at(s, (c * frames + n) as nat)
        })
}

/// `x` stands for a code of the grid.
pub open spec fn stands_for_a_code<S>(x: S, grid: Grid, code: spec_fn(i32, i32) -> S) -> bool {
    exists|y: i32| grid.has(y as int) && x == #[trigger] code(y, grid.max)
}

/// Every sample of `after` stands for the code of its sample in `before`, with this noise.
pub open spec fn quantized_with<
    S,
    V: Fn(S) -> Level,
    A: Fn(S, &Vec<i32>, &Vec<S>, i32) -> S,
    N: Fn(S, i64) -> Level,
    M: Fn(i32, S) -> S,
    F: Fn(S, i64, i32) -> Level,
    C: Fn(i32, i32) -> S,
>(
    before: AudioBuffer<S>,
    after: AudioBuffer<S>,
    target: OutputSampleFormat,
    mode: DitherMode,
    strength: DitherStrength,
    correlation: DitherCorrelation,
    seed: Option<u64>,
    noise: Seq<spec_fn(nat) -> int>,
    zero: S,
    value: V,
    aim: A,
    noisy: N,
    miss: M,
    flat: F,
    code: C,
) -> bool {
    forall|
        v: spec_fn(S) -> Level,
        a: spec_fn(S, Seq<i32>, Seq<S>, i32) -> S,
        ny: spec_fn(S, i64) -> Level,
        m: spec_fn(i32, S) -> S,
        fl: spec_fn(S, i64, i32) -> Level,
        cd: spec_fn(i32, i32) -> S,
        n: nat,
        c: nat,
    |
        computes1(value, v) && aims(aim, a) && computes2(noisy, ny) && computes2(miss, m) && computes3(
            flat,
            fl,
        ) && computes2(code, cd) && n < before.frames() && c < before.channels@.len()
            ==> after.samples()[c as int][n as int] == #[trigger] cd(
            quantized_code(
                before.samples(),
                before.sample_rate,
                target,
                mode,
                strength,
                correlation,
                seed,
                noise,
                zero,
                n,
                c,
                v,
                a,
                ny,
                m,
                fl,
            ),
            grid_of(target).max,
        )
}

/// Every sample of `after` stands for a code of the grid, and it is the code of its sample in
/// `before` with noise that fits the seed.
pub open spec fn well_quantized<
    S,
    V: Fn(S) -> Level,
    A: Fn(S, &Vec<i32>, &Vec<S>, i32) -> S,
    N: Fn(S, i64) -> Level,
    M: Fn(i32, S) -> S,
    F: Fn(S, i64, i32) -> Level,
    C: Fn(i32, i32) -> S,
>(
    before: AudioBuffer<S>,
    after: AudioBuffer<S>,
    target: OutputSampleFormat,
    mode: DitherMode,
    strength: DitherStrength,
    correlation: DitherCorrelation,
    seed: Option<u64>,
    zero: S,
    value: V,
    aim: A,
    noisy: N,
    miss: M,
    flat: F,
    code: C,
) -> bool {
    &&& forall|cd: spec_fn(i32, i32) -> S, c: int, n: int|
        computes2(code, cd) && 0 <= c < before.channels@.len() && 0 <= n < before.frames()
            ==> #[trigger] stands_for_a_code(after.samples()[c][n], grid_of(target), cd)
    &&& exists|noise: Seq<spec_fn(nat) -> int>| #[trigger]
        dithers(noise, mode.shapes_at(target), before.channels@.len(), before.frames(), seed)
            && quantized_with(
            before,
            after,
            target,
            mode,
            strength,
            correlation,
            seed,
            noise,
            zero,
            value,
            aim,
            noisy,
            miss,
            flat,
            code,
        )
}

/// Quantize every channel with its own noise shaper.
fn shaped_codes<
    S: Copy,
    A: Fn(S, &Vec<i32>, &Vec<S>, i32) -> S,
    N: Fn(S, i64) -> Level,
    M: Fn(i32, S) -> S,
>(
    channels: &Vec<Vec<S>>,
    frames: usize,
    curve: ShapingCurve,
    seed: Option<u64>,
    zero: S,
    grid: Grid,
    aim: &A,
    noisy: &N,
    miss: &M,
) -> (codes: Vec<Vec<i32>>)
    requires
        rectangular(planar(channels@), frames as nat),
        aim_accepts(*aim),
        accepts2(*noisy),
        accepts2(*miss),
        grid.well_formed(),
    ensures
        codes@.len() == channels@.len(),
        rectangular(planar(codes@), frames as nat),
        forall|c: int, n: int|
            0 <= c < channels@.len() && 0 <= n < frames ==> grid.has(#[trigger] codes@[c]@[n] as int),
        exists|noise: Seq<spec_fn(nat) -> int>| #[trigger]
            dithers(noise, true, channels@.len(), frames as nat, seed) && forall|c: int|
                0 <= c < channels@.len() ==> shaped_with(
                    (#[trigger] codes@[c])@,
                    planar(channels@)[c],
                    curve.taps(),
                    zero,
                    noise[c],
                    grid,
                    *aim,
                    *noisy,
                    *miss,
                ),
{
    let ghost samples = planar(channels@);
    let ghost mut noise: Seq<spec_fn(nat) -> int> = Seq::empty();
    let mut codes: Vec<Vec<i32>> = Vec::new();
    while codes.len() < channels.len()
        invariant
            samples == planar(channels@),
            rectangular(samples, frames as nat),
            aim_accepts(*aim),
            accepts2(*noisy),
            accepts2(*miss),
            grid.well_formed(),
            codes@.len() <= channels@.len(),
            forall|c: int| 0 <= c < codes@.len() ==> (#[trigger] codes@[c])@.len() == frames,
            forall|c: int, n: int|
                0 <= c < codes@.len() && 0 <= n < frames ==> grid.has(#[trigger] codes@[c]@[n] as int),
            dithers(noise, true, codes@.len(), frames as nat, seed),
            forall|c: int|
                0 <= c < codes@.len() ==> shaped_with(
                    (#[trigger] codes@[c])@,
                    samples[c],
                    curve.taps(),
                    zero,
                    noise[c],
                    grid,
                    *aim,
                    *noisy,
                    *miss,
                ),
        decreases channels.len() - codes.len(),
    {
        let c = codes.len();
        assert(samples[c as int].len() == frames);
        let own_seed = per_channel_seed(seed, c);
        let own = shape_channel(
            &channels[c],
            curve,
            own_seed,
            zero,
            grid,
            aim,
            noisy,
            miss,
        );
        assert(channels@[c as int]@ == samples[c as int]);
        let ghost before = codes@;
        let ghost sofar = noise;
        codes.push(own);
        proof {
            let stream = choose|stream: spec_fn(nat) -> int| #[trigger]
                drawn(stream, own_seed) && shaped_with(
                    own@,
                    samples[c as int],
                    curve.taps(),
                    zero,
                    stream,
                    grid,
                    *aim,
                    *noisy,
                    *miss,
                );
            noise = noise.push(stream);
            assert forall|d: int, n: nat| 0 <= d < codes@.len() implies -0x20_0000_0000_0000
                <= #[trigger] noise[d](n) < 0x20_0000_0000_0000 && (seed matches Some(s) ==> noise[d](n)
                == noise_at(channel_seed(s, d), n)) by {
                if d < c {
                    assert(noise[d] == sofar[d]);
                    assert(sofar[d](n) == noise[d](n));
                } else {
                    assert(noise[d] == stream);
                }
            }
            assert forall|d: int| 0 <= d < codes@.len() implies shaped_with(
                (#[trigger] codes@[d])@,
                samples[d],
                curve.taps(),
                zero,
                noise[d],
                grid,
                *aim,
                *noisy,
                *miss,
            ) by {
                if d < c {
                    assert(codes@[d] == before[d]);
                    assert(noise[d] == sofar[d]);
                }
            }
        }
    }
    codes
}

/// Quantize every channel with flat dither. The channels share one stream of noise.
fn flat_codes<S: Copy, F: Fn(S, i64, i32) -> Level>(
    channels: &Vec<Vec<S>>,
    frames: usize,
    seed: Option<u64>,
    grid: Grid,
    flat: &F,
) -> (codes: Vec<Vec<i32>>)
    requires
        rectangular(planar(channels@), frames as nat),
        accepts3(*flat),
        grid.well_formed(),
    ensures
        codes@.len() == channels@.len(),
        rectangular(planar(codes@), frames as nat),
        forall|c: int, n: int|
            0 <= c < channels@.len() && 0 <= n < frames ==> grid.has(#[trigger] codes@[c]@[n] as int),
        exists|noise: Seq<spec_fn(nat) -> int>| #[trigger]
            dithers(noise, false, channels@.len(), frames as nat, seed) && forall|
                fl: spec_fn(S, i64, i32) -> Level,
                n: nat,
                c: nat,
            |
                computes3(*flat, fl) && n < frames && c < channels@.len()
                    ==> codes@[c as int]@[n as int] == #[trigger] flat_code(
                    planar(channels@)[c as int][n as int],
                    noise[c as int](n) as i64,
                    grid,
                    fl,
                ),
{
    let ghost samples = planar(channels@);
    let ghost f = frames as nat;
    let mut dither = TpdfDither::new(seed);
    let ghost start = dither;
    let ghost noise = Seq::new(
        channels@.len(),
        |c: int| |n: nat| start.stream()((c * f + n) as nat),
    );
    let mut codes: Vec<Vec<i32>> = Vec::new();
    proof {
        assert(0 * f == 0) by (nonlinear_arith);
        assert(dither.after(start, 0));
        assert forall|c: int, n: nat| 0 <= c < channels@.len() implies -0x20_0000_0000_0000
            <= #[trigger] noise[c](n) < 0x20_0000_0000_0000 && (seed matches Some(s) ==> noise[c](n)
            == noise_at(s, (c * f + n) as nat)) by {
            assert(noise[c](n) == start.stream()((c * f + n) as nat));
        }
    }
    while codes.len() < channels.len()
        invariant
            samples == planar(channels@),
            f == frames,
            rectangular(samples, f),
            accepts3(*flat),
            grid.well_formed(),
            codes@.len() <= channels@.len(),
            noise == Seq::new(channels@.len(), |c: int| |n: nat| start.stream()((c * f + n) as nat)),
            dither.after(start, codes@.len() * f),
            forall|c: int| 0 <= c < codes@.len() ==> (#[trigger] codes@[c])@.len() == frames,
            forall|c: int, n: int|
                0 <= c < codes@.len() && 0 <= n < frames ==> grid.has(#[trigger] codes@[c]@[n] as int),
            forall|fl: spec_fn(S, i64, i32) -> Level, n: nat, c: nat|
                computes3(*flat, fl) && n < frames && c < codes@.len()
                    ==> codes@[c as int]@[n as int] == #[trigger] flat_code(
                    samples[c as int][n as int],
                    noise[c as int](n) as i64,
                    grid,
                    fl,
                ),
        decreases channels.len() - codes.len(),
    {
        let c = codes.len();
        assert(samples[c as int].len() == frames);
        let mut own: Vec<i32> = Vec::new();
        while own.len() < frames
            invariant
                samples == planar(channels@),
                f == frames,
                c < channels@.len(),
                samples[c as int].len() == frames,
                accepts3(*flat),
                grid.well_formed(),
                own@.len() <= frames,
                noise == Seq::new(
                    channels@.len(),
                    |c: int| |n: nat| start.stream()((c * f + n) as nat),
                ),
                dither.after(start, (c as nat) * f + own@.len()),
                forall|n: int| 0 <= n < own@.len() ==> grid.has(#[trigger] own@[n] as int),
                forall|fl: spec_fn(S, i64, i32) -> Level, n: nat|
                    computes3(*flat, fl) && n < own@.len() ==> own@[n as int] == #[trigger] flat_code(
                        samples[c as int][n as int],
                        noise[c as int](n) as i64,
                        grid,
                        fl,
                    ),
            decreases frames - own.len(),
        {
            let n = own.len();
            let x = channels[c][n];
            assert(x == samples[c as int][n as int]);
            let ghost before = dither;
            let step = dither.sample_lsb();
            proof {
                before.lemma_step(dither, start, (c as nat) * f + n as nat);
                assert(step == noise[c as int](n as nat));
            }
            let w: Level = flat(x, step, grid.max);
            own.push(w.snap(grid.lo, grid.hi));
        }
        codes.push(own);
        proof {
            assert((c + 1) * f == c * f + f) by (nonlinear_arith);
        }
    }
    assert(dithers(noise, false, channels@.len(), f, seed));
    codes
}

/// Quantize a buffer to an integer format. Returns the codes of every channel.
fn quantize_codes<
    S: Copy,
    V: Fn(S) -> Level,
    A: Fn(S, &Vec<i32>, &Vec<S>, i32) -> S,
    N: Fn(S, i64) -> Level,
    M: Fn(i32, S) -> S,
    F: Fn(S, i64, i32) -> Level,
>(
    channels: &Vec<Vec<S>>,
    frames: usize,
    rate: u32,
    target: OutputSampleFormat,
    grid: Grid,
    mode: DitherMode,
    strength: DitherStrength,
    correlation: DitherCorrelation,
    seed: Option<u64>,
    zero: S,
    value: &V,
    aim: &A,
    noisy: &N,
    miss: &M,
    flat: &F,
) -> (codes: Vec<Vec<i32>>)
    requires
        rectangular(planar(channels@), frames as nat),
        target.grid_max() is Some,
        grid == grid_of(target),
        accepts1(*value),
        aim_accepts(*aim),
        accepts2(*noisy),
        accepts2(*miss),
        accepts3(*flat),
    ensures
        codes@.len() == channels@.len(),
        rectangular(planar(codes@), frames as nat),
        forall|c: int, n: int|
            0 <= c < channels@.len() && 0 <= n < frames ==> grid_of(target).has(
                #[trigger] codes@[c]@[n] as int,
            ),
        exists|noise: Seq<spec_fn(nat) -> int>| #[trigger]
            dithers(noise, mode.shapes_at(target), channels@.len(), frames as nat, seed) && forall|
                v: spec_fn(S) -> Level,
                a: spec_fn(S, Seq<i32>, Seq<S>, i32) -> S,
                ny: spec_fn(S, i64) -> Level,
                m: spec_fn(i32, S) -> S,
                fl: spec_fn(S, i64, i32) -> Level,
                n: nat,
                c: nat,
            |
                computes1(*value, v) && aims(*aim, a) && computes2(*noisy, ny) && computes2(*miss, m)
                    && computes3(*flat, fl) && n < frames && c < channels@.len()
                    ==> codes@[c as int]@[n as int] == #[trigger] quantized_code(
                    planar(channels@),
                    rate,
                    target,
                    mode,
                    strength,
                    correlation,
                    seed,
                    noise,
                    zero,
                    n,
                    c,
                    v,
                    a,
                    ny,
                    m,
                    fl,
                ),
{
    if is_mbit_plus(mode, target) {
        let codes = mbit_plus::quantize(
            channels,
            frames,
            rate,
            MbitPlusStrength::from_config(strength),
            correlation,
            seed,
            zero,
            grid,
            value,
            aim,
            noisy,
            miss,
        );
        proof {
            lemma_noise_exists(channels@.len(), frames as nat, seed);
            let noise = choose|noise: Seq<spec_fn(nat) -> int>| #[trigger]
                dithers(noise, false, channels@.len(), frames as nat, seed);
            assert(dithers(noise, mode.shapes_at(target), channels@.len(), frames as nat, seed));
            assert forall|
                v: spec_fn(S) -> Level,
                a: spec_fn(S, Seq<i32>, Seq<S>, i32) -> S,
                ny: spec_fn(S, i64) -> Level,
                m: spec_fn(i32, S) -> S,
                fl: spec_fn(S, i64, i32) -> Level,
                n: nat,
                c: nat,
            |
                computes1(*value, v) && aims(*aim, a) && computes2(*noisy, ny) && computes2(*miss, m)
                    && computes3(*flat, fl) && n < frames && c < channels@.len()
                    implies codes@[c as int]@[n as int] == #[trigger] quantized_code(
                planar(channels@),
                rate,
                target,
                mode,
                strength,
                correlation,
                seed,
                noise,
                zero,
                n,
                c,
                v,
                a,
                ny,
                m,
                fl,
            ) by {
                assert(codes@[c as int]@[n as int] == mbit_code(
                    setup_for(rate, strength_of(strength), correlation, seed, zero, grid),
                    planar(channels@),
                    n,
                    c,
                    v,
                    a,
                    ny,
                    m,
                ));
            }
        }
        return codes;
    }
    if mode.shapes(target) {
        if let Some(curve) = mode.shaping_curve() {
            let codes = shaped_codes(channels, frames, curve, seed, zero, grid, aim, noisy, miss);
            proof {
                let noise = choose|noise: Seq<spec_fn(nat) -> int>| #[trigger]
                    dithers(noise, true, channels@.len(), frames as nat, seed) && forall|c: int|
                        0 <= c < channels@.len() ==> shaped_with(
                            (#[trigger] codes@[c])@,
                            planar(channels@)[c],
                            curve.taps(),
                            zero,
                            noise[c],
                            grid,
                            *aim,
                            *noisy,
                            *miss,
                        );
                assert(dithers(noise, mode.shapes_at(target), channels@.len(), frames as nat, seed));
                assert forall|
                    v: spec_fn(S) -> Level,
                    a: spec_fn(S, Seq<i32>, Seq<S>, i32) -> S,
                    ny: spec_fn(S, i64) -> Level,
                    m: spec_fn(i32, S) -> S,
                    fl: spec_fn(S, i64, i32) -> Level,
                    n: nat,
                    c: nat,
                |
                    computes1(*value, v) && aims(*aim, a) && computes2(*noisy, ny) && computes2(*miss, m)
                        && computes3(*flat, fl) && n < frames && c < channels@.len()
                        implies codes@[c as int]@[n as int] == #[trigger] quantized_code(
                    planar(channels@),
                    rate,
                    target,
                    mode,
                    strength,
                    correlation,
                    seed,
                    noise,
                    zero,
                    n,
                    c,
                    v,
                    a,
                    ny,
                    m,
                    fl,
                ) by {
                    assert(planar(codes@)[c as int].len() == frames);
                    assert(codes@[c as int]@[n as int] == code_at(
                        planar(channels@)[c as int],
                        curve.taps(),
                        zero,
                        noise[c as int],
                        grid,
                        a,
                        ny,
                        m,
                        n,
                    ));
                }
            }
            return codes;
        }
    }
    flat_codes(channels, frames, seed, grid, flat)
}

/// There is noise for every seed.
proof fn lemma_noise_exists(channels: nat, frames: nat, seed: Option<u64>)
    ensures
        exists|noise: Seq<spec_fn(nat) -> int>| #[trigger]
            dithers(noise, false, channels, frames, seed),
{
    let s = match seed {
        Some(s) => s,
        None => 0,
    };
    let noise = Seq::new(channels, |c: int| |n: nat| noise_at(s, (c * frames + n) as nat));
    assert(dithers(noise, false, channels, frames, seed));
}

/// The samples that stand for some codes.
fn samples_of<S, C: Fn(i32, i32) -> S>(codes: &Vec<Vec<i32>>, frames: usize, max: i32, code: &C) -> (r: Vec<
    Vec<S>,
>)
    requires
        rectangular(planar(codes@), frames as nat),
        accepts2(*code),
    ensures
        r@.len() == codes@.len(),
        rectangular(planar(r@), frames as nat),
        forall|cd: spec_fn(i32, i32) -> S, c: int, n: int|
            computes2(*code, cd) && 0 <= c < codes@.len() && 0 <= n < frames ==> r@[c]@[n]
                == #[trigger] cd(codes@[c]@[n], max),
{
    let mut r: Vec<Vec<S>> = Vec::new();
    while r.len() < codes.len()
        invariant
            rectangular(planar(codes@), frames as nat),
            accepts2(*code),
            r@.len() <= codes@.len(),
            forall|c: int| 0 <= c < r@.len() ==> (#[trigger] r@[c])@.len() == frames,
            forall|cd: spec_fn(i32, i32) -> S, c: int, n: int|
                computes2(*code, cd) && 0 <= c < r@.len() && 0 <= n < frames ==> r@[c]@[n]
                    == #[trigger] cd(codes@[c]@[n], max),
        decreases codes.len() - r.len(),
    {
        let c = r.len();
        assert(planar(codes@)[c as int].len() == frames);
        let mut own: Vec<S> = Vec::new();
        while own.len() < frames
            invariant
                c < codes@.len(),
                codes@[c as int]@.len() == frames,
                accepts2(*code),
                own@.len() <= frames,
                forall|cd: spec_fn(i32, i32) -> S, n: int|
                    computes2(*code, cd) && 0 <= n < own@.len() ==> own@[n] == #[trigger] cd(
                        codes@[c as int]@[n],
                        max,
                    ),
            decreases frames - own.len(),
        {
            let n = own.len();
            own.push(code(codes[c][n], max));
        }
        r.push(own);
    }
    r
}

/// Bring a buffer to the precision of `target`. A reduction is always dithered: asking for one
/// without dither is refused, and then nothing changes.
pub fn apply<
    S: Copy,
    V: Fn(S) -> Level,
    A: Fn(S, &Vec<i32>, &Vec<S>, i32) -> S,
    N: Fn(S, i64) -> Level,
    M: Fn(i32, S) -> S,
    F: Fn(S, i64, i32) -> Level,
    C: Fn(i32, i32) -> S,
>(
    buffer: &mut AudioBuffer<S>,
    current: &mut OutputSampleFormat,
    target: OutputSampleFormat,
    dither_mode: Option<DitherMode>,
    dither_strength: Option<DitherStrength>,
    dither_correlation: Option<DitherCorrelation>,
    seed: Option<u64>,
    zero: S,
    value: &V,
    aim: &A,
    noisy: &N,
    miss: &M,
    flat: &F,
    code: &C,
) -> (r: Result<BitDepthApplyResult, Refusal>)
    requires
        old(buffer).well_formed(),
        accepts1(*value),
        aim_accepts(*aim),
        accepts2(*noisy),
        accepts2(*miss),
        accepts3(*flat),
        accepts2(*code),
    ensures
        r is Err <==> reduces(*old(current), target) && mode_or_default(dither_mode) == DitherMode::Off,
        r matches Err(e) ==> e@
            == "bit-depth reduction without dither (dither = \"none\") is not allowed"@
            && *final(buffer) == *old(buffer) && *final(current) == *old(current),
        r matches Ok(done) ==> {
            let mode = mode_or_default(dither_mode);
            &&& done.reduced == reduces(*old(current), target)
            &&& done.dithered == done.reduced
            &&& done.shaped == (done.reduced && (mode.shapes_at(target) || uses_mbit_plus(mode, target)))
            &&& tag_view(done.shaping_tag) == shaping_label(*old(current), target, mode)
            &&& *final(current) == target
            &&& final(buffer).out_format == target
            &&& final(buffer).sample_rate == old(buffer).sample_rate
            &&& final(buffer).src_info == old(buffer).src_info
            &&& final(buffer).well_formed()
            &&& final(buffer).channels@.len() == old(buffer).channels@.len()
            &&& final(buffer).frames() == old(buffer).frames()
            &&& !done.reduced ==> final(buffer).channels == old(buffer).channels
        },
        r is Ok && reduces(*old(current), target) ==> well_quantized(
            *old(buffer),
            *final(buffer),
            target,
            mode_or_default(dither_mode),
            strength_or_default(dither_strength),
            correlation_or_default(dither_correlation),
            seed,
            zero,
            *value,
            *aim,
            *noisy,
            *miss,
            *flat,
            *code,
        ),
{
    let mode = match dither_mode {
        Some(m) => m,
        None => DitherMode::Tpdf,
    };
    let reduced = is_reduction(*current, target);
    if reduced && mode == DitherMode::Off {
        return Err(
            Refusal::of("bit-depth reduction without dither (dither = \"none\") is not allowed"),
        );
    }
    let shaped = reduced && (mode.shapes(target) || is_mbit_plus(mode, target));
    let shaping_tag: Option<&'static str> = if !shaped {
        None
    } else if is_mbit_plus(mode, target) {
        Some("mbit+")
    } else {
        match mode.shaping_curve() {
            Some(curve) => Some(curve.tag()),
            None => None,
        }
    };
    *current = target;
    buffer.out_format = target;
    if reduced {
        // Nothing reduces to f32, so there is a grid.
        if let Some((max, lo, hi)) = target.int_grid() {
            let frames = buffer.frame_len();
            let strength = match dither_strength {
                Some(s) => s,
                None => DitherStrength::Normal,
            };
            let correlation = match dither_correlation {
                Some(c) => c,
                None => DitherCorrelation::Decorrelated,
            };
            let grid = Grid { max, lo, hi };
            let codes = quantize_codes(
                &buffer.channels,
                frames,
                buffer.sample_rate,
                target,
                grid,
                mode,
                strength,
                correlation,
                seed,
                zero,
                value,
                aim,
                noisy,
                miss,
                flat,
            );
            buffer.channels = samples_of(&codes, frames, max, code);
            proof {
                assert(grid == grid_of(target));
                assert(buffer.frames() == frames) by {
                    if buffer.channels@.len() > 0 {
                        assert(planar(buffer.channels@)[0].len() == frames);
                    }
                }
                assert forall|cd: spec_fn(i32, i32) -> S, c: int, n: int|
                    computes2(*code, cd) && 0 <= c < old(buffer).channels@.len() && 0 <= n < old(
                        buffer,
                    ).frames() implies #[trigger] stands_for_a_code(
                    buffer.samples()[c][n],
                    grid_of(target),
                    cd,
                ) by {
                    let y = codes@[c]@[n];
                    assert(grid_of(target).has(y as int));
                    assert(buffer.samples()[c][n] == cd(y, grid_of(target).max));
                }
            }
        }
    }
    Ok(BitDepthApplyResult { reduced, dithered: reduced, shaped, shaping_tag })
}

// ---------------------------------------------------------------------------
// Laws.
// ---------------------------------------------------------------------------

/// A seed makes the dither reproducible: with the same seed, whatever noise was drawn in two
/// runs, every sample gets the same code.
pub proof fn law_seed_decides_the_codes<S>(
    samples: Seq<Seq<S>>,
    frames: nat,
    rate: u32,
    target: OutputSampleFormat,
    mode: DitherMode,
    strength: DitherStrength,
    correlation: DitherCorrelation,
    seed: u64,
    first: Seq<spec_fn(nat) -> int>,
    second: Seq<spec_fn(nat) -> int>,
    zero: S,
    n: nat,
    c: nat,
    value: spec_fn(S) -> Level,
    aim: spec_fn(S, Seq<i32>, Seq<S>, i32) -> S,
    noisy: spec_fn(S, i64) -> Level,
    miss: spec_fn(i32, S) -> S,
    flat: spec_fn(S, i64, i32) -> Level,
)
    requires
        c < samples.len(),
        dithers(first, mode.shapes_at(target), samples.len(), frames, Some(seed)),
        dithers(second, mode.shapes_at(target), samples.len(), frames, Some(seed)),
    ensures
        quantized_code(
            samples,
            rate,
            target,
            mode,
            strength,
            correlation,
            Some(seed),
            first,
            zero,
            n,
            c,
            value,
            aim,
            noisy,
            miss,
            flat,
        ) == quantized_code(
            samples,
            rate,
            target,
            mode,
            strength,
            correlation,
            Some(seed),
            second,
            zero,
            n,
            c,
            value,
            aim,
            noisy,
            miss,
            flat,
        ),
{
    assert forall|k: nat| #[trigger] first[c as int](k) == second[c as int](k) by {}
    assert(first[c as int] =~= second[c as int]);
}

/// Noise shaping is for 16 bits: at every other format all modes quantize a sample to the code
/// that flat dither gives it.
pub proof fn law_modes_agree_beyond_16_bits<S>(
    samples: Seq<Seq<S>>,
    rate: u32,
    target: OutputSampleFormat,
    mode: DitherMode,
    strength: DitherStrength,
    correlation: DitherCorrelation,
    seed: Option<u64>,
    noise: Seq<spec_fn(nat) -> int>,
    zero: S,
    n: nat,
    c: nat,
    value: spec_fn(S) -> Level,
    aim: spec_fn(S, Seq<i32>, Seq<S>, i32) -> S,
    noisy: spec_fn(S, i64) -> Level,
    miss: spec_fn(i32, S) -> S,
    flat: spec_fn(S, i64, i32) -> Level,
)
    requires
        target != OutputSampleFormat::S16,
    ensures
        !mode.shapes_at(target),
        quantized_code(
            samples,
            rate,
            target,
            mode,
            strength,
            correlation,
            seed,
            noise,
            zero,
            n,
            c,
            value,
            aim,
            noisy,
            miss,
            flat,
        ) == flat_code(
            samples[c as int][n as int],
            noise[c as int](n) as i64,
            grid_of(target),
            flat,
        ),
{
}

/// The first channel of a buffer comes out as it would alone: with the same seed, every sample
/// of it gets the code that it gets in a buffer of that channel only. The one exception is the
/// MBIT+ dither of two channels with mid and side noise.
pub proof fn law_first_channel_is_as_alone<S>(
    samples: Seq<Seq<S>>,
    frames: nat,
    rate: u32,
    target: OutputSampleFormat,
    mode: DitherMode,
    strength: DitherStrength,
    correlation: DitherCorrelation,
    seed: u64,
    whole: Seq<spec_fn(nat) -> int>,
    alone: Seq<spec_fn(nat) -> int>,
    zero: S,
    n: nat,
    value: spec_fn(S) -> Level,
    aim: spec_fn(S, Seq<i32>, Seq<S>, i32) -> S,
    noisy: spec_fn(S, i64) -> Level,
    miss: spec_fn(i32, S) -> S,
    flat: spec_fn(S, i64, i32) -> Level,
)
    requires
        samples.len() > 0,
        dithers(whole, mode.shapes_at(target), samples.len(), frames, Some(seed)),
        dithers(alone, mode.shapes_at(target), 1, frames, Some(seed)),
        !(uses_mbit_plus(mode, target) && correlation == DitherCorrelation::MidSide && samples.len()
            == 2),
    ensures
        quantized_code(
            samples,
            rate,
            target,
            mode,
            strength,
            correlation,
            Some(seed),
            whole,
            zero,
            n,
            0,
            value,
            aim,
            noisy,
            miss,
            flat,
        ) == quantized_code(
            seq![samples[0]],
            rate,
            target,
            mode,
            strength,
            correlation,
            Some(seed),
            alone,
            zero,
            n,
            0,
            value,
            aim,
            noisy,
            miss,
            flat,
        ),
{
    law_first_channel_uses_the_base_seed(seed);
    if uses_mbit_plus(mode, target) {
        let setup = setup_for(
            rate,
            strength_of(strength),
            correlation,
            Some(seed),
            zero,
            grid_of(target),
        );
        assert(channel_noise(setup, samples.len(), 0) =~= channel_noise(setup, 1, 0));
    } else {
        assert forall|k: nat| #[trigger] whole[0](k) == alone[0](k) by {}
        assert(whole[0] =~= alone[0]);
    }
}

/// Two buffers have as many channels and frames.
pub open spec fn same_shape<S>(one: AudioBuffer<S>, other: AudioBuffer<S>) -> bool {
    &&& one.well_formed() && other.well_formed()
    &&& one.channels@.len() == other.channels@.len()
    &&& one.frames() == other.frames()
}

/// Reduction with a seed is reproducible: two buffers that a buffer was reduced to, with the
/// same seed and settings, hold the same samples.
pub proof fn law_seeded_reduction_is_reproducible<
    S,
    V: Fn(S) -> Level,
    A: Fn(S, &Vec<i32>, &Vec<S>, i32) -> S,
    N: Fn(S, i64) -> Level,
    M: Fn(i32, S) -> S,
    F: Fn(S, i64, i32) -> Level,
    C: Fn(i32, i32) -> S,
>(
    before: AudioBuffer<S>,
    one: AudioBuffer<S>,
    two: AudioBuffer<S>,
    target: OutputSampleFormat,
    mode: DitherMode,
    strength: DitherStrength,
    correlation: DitherCorrelation,
    seed: u64,
    zero: S,
    value: V,
    aim: A,
    noisy: N,
    miss: M,
    flat: F,
    code: C,
    v: spec_fn(S) -> Level,
    a: spec_fn(S, Seq<i32>, Seq<S>, i32) -> S,
    ny: spec_fn(S, i64) -> Level,
    m: spec_fn(i32, S) -> S,
    fl: spec_fn(S, i64, i32) -> Level,
    cd: spec_fn(i32, i32) -> S,
)
    requires
        computes1(value, v),
        aims(aim, a),
        computes2(noisy, ny),
        computes2(miss, m),
        computes3(flat, fl),
        computes2(code, cd),
        same_shape(before, one),
        same_shape(before, two),
        well_quantized(
            before,
            one,
            target,
            mode,
            strength,
            correlation,
            Some(seed),
            zero,
            value,
            aim,
            noisy,
            miss,
            flat,
            code,
        ),
        well_quantized(
            before,
            two,
            target,
            mode,
            strength,
            correlation,
            Some(seed),
            zero,
            value,
            aim,
            noisy,
            miss,
            flat,
            code,
        ),
    ensures
        one.samples() == two.samples(),
{
    let first = choose|noise: Seq<spec_fn(nat) -> int>| #[trigger]
        dithers(noise, mode.shapes_at(target), before.channels@.len(), before.frames(), Some(seed))
            && quantized_with(
                before,
                one,
                target,
                mode,
                strength,
                correlation,
                Some(seed),
                noise,
                zero,
                value,
                aim,
                noisy,
                miss,
                flat,
                code,
            );
    let second = choose|noise: Seq<spec_fn(nat) -> int>| #[trigger]
        dithers(noise, mode.shapes_at(target), before.channels@.len(), before.frames(), Some(seed))
            && quantized_with(
                before,
                two,
                target,
                mode,
                strength,
                correlation,
                Some(seed),
                noise,
                zero,
                value,
                aim,
                noisy,
                miss,
                flat,
                code,
            );
    assert forall|c: int, n: int|
        0 <= c < before.channels@.len() && 0 <= n < before.frames() implies one.samples()[c][n]
        == two.samples()[c][n] by {
        law_seed_decides_the_codes(
            before.samples(),
            before.frames(),
            before.sample_rate,
            target,
            mode,
            strength,
            correlation,
            seed,
            first,
            second,
            zero,
            n as nat,
            c as nat,
            v,
            a,
            ny,
            m,
            fl,
        );
        let y = quantized_code(
            before.samples(),
            before.sample_rate,
            target,
            mode,
            strength,
            correlation,
            Some(seed),
            first,
            zero,
            n as nat,
            c as nat,
            v,
            a,
            ny,
            m,
            fl,
        );
        assert(one.samples()[c][n] == cd(y, grid_of(target).max));
        assert(two.samples()[c][n] == cd(y, grid_of(target).max));
    }
    lemma_same_samples(one, two);
}

/// Beyond 16 bits the mode makes no difference: two buffers that a buffer was reduced to, with
/// the same seed and in whatever modes, hold the same samples.
pub proof fn law_reduction_beyond_16_bits_goes_by_no_mode<
    S,
    V: Fn(S) -> Level,
    A: Fn(S, &Vec<i32>, &Vec<S>, i32) -> S,
    N: Fn(S, i64) -> Level,
    M: Fn(i32, S) -> S,
    F: Fn(S, i64, i32) -> Level,
    C: Fn(i32, i32) -> S,
>(
    before: AudioBuffer<S>,
    one: AudioBuffer<S>,
    two: AudioBuffer<S>,
    target: OutputSampleFormat,
    mode: DitherMode,
    other: DitherMode,
    strength: DitherStrength,
    correlation: DitherCorrelation,
    seed: u64,
    zero: S,
    value: V,
    aim: A,
    noisy: N,
    miss: M,
    flat: F,
    code: C,
    v: spec_fn(S) -> Level,
    a: spec_fn(S, Seq<i32>, Seq<S>, i32) -> S,
    ny: spec_fn(S, i64) -> Level,
    m: spec_fn(i32, S) -> S,
    fl: spec_fn(S, i64, i32) -> Level,
    cd: spec_fn(i32, i32) -> S,
)
    requires
        computes1(value, v),
        aims(aim, a),
        computes2(noisy, ny),
        computes2(miss, m),
        computes3(flat, fl),
        computes2(code, cd),
        target != OutputSampleFormat::S16,
        same_shape(before, one),
        same_shape(before, two),
        well_quantized(
            before,
            one,
            target,
            mode,
            strength,
            correlation,
            Some(seed),
            zero,
            value,
            aim,
            noisy,
            miss,
            flat,
            code,
        ),
        well_quantized(
            before,
            two,
            target,
            other,
            strength,
            correlation,
            Some(seed),
            zero,
            value,
            aim,
            noisy,
            miss,
            flat,
            code,
        ),
    ensures
        one.samples() == two.samples(),
{
    let first = choose|noise: Seq<spec_fn(nat) -> int>| #[trigger]
        dithers(noise, mode.shapes_at(target), before.channels@.len(), before.frames(), Some(seed))
            && quantized_with(
                before,
                one,
                target,
                mode,
                strength,
                correlation,
                Some(seed),
                noise,
                zero,
                value,
                aim,
                noisy,
                miss,
                flat,
                code,
            );
    let second = choose|noise: Seq<spec_fn(nat) -> int>| #[trigger]
        dithers(noise, other.shapes_at(target), before.channels@.len(), before.frames(), Some(seed))
            && quantized_with(
                before,
                two,
                target,
                other,
                strength,
                correlation,
                Some(seed),
                noise,
                zero,
                value,
                aim,
                noisy,
                miss,
                flat,
                code,
            );
    assert forall|c: int, n: int|
        0 <= c < before.channels@.len() && 0 <= n < before.frames() implies one.samples()[c][n]
        == two.samples()[c][n] by {
        let x = quantized_code(
            before.samples(),
            before.sample_rate,
            target,
            mode,
            strength,
            correlation,
            Some(seed),
            first,
            zero,
            n as nat,
            c as nat,
            v,
            a,
            ny,
            m,
            fl,
        );
        let y = quantized_code(
            before.samples(),
            before.sample_rate,
            target,
            other,
            strength,
            correlation,
            Some(seed),
            second,
            zero,
            n as nat,
            c as nat,
            v,
            a,
            ny,
            m,
            fl,
        );
        assert(first[c](n as nat) == second[c](n as nat));
        assert(one.samples()[c][n] == cd(x, grid_of(target).max));
        assert(two.samples()[c][n] == cd(y, grid_of(target).max));
    }
    lemma_same_samples(one, two);
}

/// Buffers of one shape hold the same samples when they agree everywhere.
proof fn lemma_same_samples<S>(one: AudioBuffer<S>, other: AudioBuffer<S>)
    requires
        same_shape(one, other),
        forall|c: int, n: int|
            0 <= c < one.channels@.len() && 0 <= n < one.frames() ==> one.samples()[c][n]
                == other.samples()[c][n],
    ensures
        one.samples() == other.samples(),
{
    assert forall|c: int| 0 <= c < one.channels@.len() implies one.samples()[c] == other.samples()[c] by {
        assert(one.samples()[c].len() == one.frames());
        assert(other.samples()[c].len() == one.frames());
        assert(one.samples()[c] =~= other.samples()[c]);
    }
    assert(one.samples() =~= other.samples());
}

/// The first channel is reduced as it would be alone: with the same seed, its samples are those
/// that the channel is reduced to in a buffer of its own. The one exception is the MBIT+ dither
/// of two channels with mid and side noise.
pub proof fn law_first_channel_is_reduced_as_alone<
    S,
    V: Fn(S) -> Level,
    A: Fn(S, &Vec<i32>, &Vec<S>, i32) -> S,
    N: Fn(S, i64) -> Level,
    M: Fn(i32, S) -> S,
    F: Fn(S, i64, i32) -> Level,
    C: Fn(i32, i32) -> S,
>(
    before: AudioBuffer<S>,
    after: AudioBuffer<S>,
    mono: AudioBuffer<S>,
    mono_after: AudioBuffer<S>,
    target: OutputSampleFormat,
    mode: DitherMode,
    strength: DitherStrength,
    correlation: DitherCorrelation,
    seed: u64,
    zero: S,
    value: V,
    aim: A,
    noisy: N,
    miss: M,
    flat: F,
    code: C,
    v: spec_fn(S) -> Level,
    a: spec_fn(S, Seq<i32>, Seq<S>, i32) -> S,
    ny: spec_fn(S, i64) -> Level,
    m: spec_fn(i32, S) -> S,
    fl: spec_fn(S, i64, i32) -> Level,
    cd: spec_fn(i32, i32) -> S,
)
    requires
        computes1(value, v),
        aims(aim, a),
        computes2(noisy, ny),
        computes2(miss, m),
        computes3(flat, fl),
        computes2(code, cd),
        before.channels@.len() > 0,
        mono.samples() == seq![before.samples()[0]],
        mono.sample_rate == before.sample_rate,
        same_shape(before, after),
        same_shape(mono, mono_after),
        !(uses_mbit_plus(mode, target) && correlation == DitherCorrelation::MidSide
            && before.channels@.len() == 2),
        well_quantized(
            before,
            after,
            target,
            mode,
            strength,
            correlation,
            Some(seed),
            zero,
            value,
            aim,
            noisy,
            miss,
            flat,
            code,
        ),
        well_quantized(
            mono,
            mono_after,
            target,
            mode,
            strength,
            correlation,
            Some(seed),
            zero,
            value,
            aim,
            noisy,
            miss,
            flat,
            code,
        ),
    ensures
        after.samples()[0] == mono_after.samples()[0],
{
    let whole = choose|noise: Seq<spec_fn(nat) -> int>| #[trigger]
        dithers(noise, mode.shapes_at(target), before.channels@.len(), before.frames(), Some(seed))
            && quantized_with(
                before,
                after,
                target,
                mode,
                strength,
                correlation,
                Some(seed),
                noise,
                zero,
                value,
                aim,
                noisy,
                miss,
                flat,
                code,
            );
    let alone = choose|noise: Seq<spec_fn(nat) -> int>| #[trigger]
        dithers(noise, mode.shapes_at(target), mono.channels@.len(), mono.frames(), Some(seed))
            && quantized_with(
                mono,
                mono_after,
                target,
                mode,
                strength,
                correlation,
                Some(seed),
                noise,
                zero,
                value,
                aim,
                noisy,
                miss,
                flat,
                code,
            );
    let frames = before.frames();
    assert(mono.samples().len() == 1);
    assert(mono.samples()[0] == before.samples()[0]);
    assert(mono.frames() == frames);
    assert forall|n: int| 0 <= n < frames implies after.samples()[0][n]
        == mono_after.samples()[0][n] by {
        law_first_channel_is_as_alone(
            before.samples(),
            frames,
            before.sample_rate,
            target,
            mode,
            strength,
            correlation,
            seed,
            whole,
            alone,
            zero,
            n as nat,
            v,
            a,
            ny,
            m,
            fl,
        );
        let x = quantized_code(
            before.samples(),
            before.sample_rate,
            target,
            mode,
            strength,
            correlation,
            Some(seed),
            whole,
            zero,
            n as nat,
            0,
            v,
            a,
            ny,
            m,
            fl,
        );
        let y = quantized_code(
            mono.samples(),
            mono.sample_rate,
            target,
            mode,
            strength,
            correlation,
            Some(seed),
            alone,
            zero,
            n as nat,
            0,
            v,
            a,
            ny,
            m,
            fl,
        );
        assert(after.samples()[0][n] == cd(x, grid_of(target).max));
        assert(mono_after.samples()[0][n] == cd(y, grid_of(target).max));
    }
    assert(after.samples()[0].len() == frames);
    assert(mono_after.samples()[0].len() == frames);
    assert(after.samples()[0] =~= mono_after.samples()[0]);
}

/// A buffer is quantized once: at the precision that a reduction leads to there is nothing left
/// to reduce, and nothing ever reduces to f32.
pub proof fn law_reduction_happens_once(current: OutputSampleFormat, target: OutputSampleFormat)
    ensures
        !reduces(target, target),
        reduces(current, target) ==> !reduces(target, current) && target.grid_max() is Some,
{
}

/// Writing a quantized buffer does not quantize it again: a sample that stands for a code of
/// the grid is written as that code, if scaling it comes within half a step of the code.
pub proof fn law_quantized_samples_are_written_as_their_codes<S>(
    x: S,
    target: OutputSampleFormat,
    code: spec_fn(i32, i32) -> S,
    scale: spec_fn(S, i32) -> Level,
)
    requires
        target.grid_max() is Some,
        stands_for_a_code(x, grid_of(target), code),
        forall|y: i32|
            grid_of(target).has(y as int) ==> scale(
                #[trigger] code(y, grid_of(target).max),
                grid_of(target).max,
            ).finite() && scale(code(y, grid_of(target).max), grid_of(target).max).rounded_away()
                == y,
    ensures
        exists|y: i32|
            grid_of(target).has(y as int) && x == #[trigger] code(y, grid_of(target).max)
                && pcm_value(x, target.grid_max()->0, scale) == y && flac_value(
                x,
                target.grid_max()->0,
                scale,
            ) == y,
{
    let grid = grid_of(target);
    let y = choose|y: i32| grid.has(y as int) && x == #[trigger] code(y, grid.max);
    assert(pcm_value(code(y, grid.max), target.grid_max()->0, scale) == y);
    assert(flac_value(code(y, grid.max), target.grid_max()->0, scale) == y);
}

/// A step reduces the bit depth exactly when it goes from floating point to an integer format
/// or from 24 to 16 bits.
pub proof fn law_reductions(current: OutputSampleFormat, target: OutputSampleFormat)
    ensures
        reduces(current, target) <==> (current == OutputSampleFormat::F32 && target
            != OutputSampleFormat::F32) || (current == OutputSampleFormat::S24 && target
            == OutputSampleFormat::S16),
{
}

/// Without a choice the dither is triangular, of normal strength and decorrelated; a choice is
/// kept.
pub proof fn law_dither_choices(
    mode: Option<DitherMode>,
    strength: Option<DitherStrength>,
    correlation: Option<DitherCorrelation>,
)
    ensures
        mode is None ==> mode_or_default(mode) == DitherMode::Tpdf,
        strength is None ==> strength_or_default(strength) == DitherStrength::Normal,
        correlation is None ==> correlation_or_default(correlation) == DitherCorrelation::Decorrelated,
        mode matches Some(m) ==> mode_or_default(mode) == m,
        strength matches Some(s) ==> strength_or_default(strength) == s,
        correlation matches Some(c) ==> correlation_or_default(correlation) == c,
{
}

/// The label tells how noise is shaped: only when a step reduces to 16 bits, and then by the
/// mode. Triangular dither shapes nothing.
pub proof fn law_labels_tell_the_shaping(
    current: OutputSampleFormat,
    target: OutputSampleFormat,
    mode: DitherMode,
)
    ensures
        shaping_label(current, target, mode) is Some <==> target == OutputSampleFormat::S16 && current
            != OutputSampleFormat::S16 && mode != DitherMode::Tpdf && mode != DitherMode::Off,
        shaping_label(current, target, mode) matches Some(label) ==> label == (match mode {
            DitherMode::Shaped => "gentle"@,
            DitherMode::Psychoacoustic => "psychoacoustic"@,
            _ => "mbit+"@,
        }),
{
}

/// With a seed no two samples get the same number of the noise of a generator: flat dither goes
/// through one stream, channel after channel, and shaped dither has a stream for every channel.
pub proof fn law_seeded_noise_is_dealt_out(
    noise: Seq<spec_fn(nat) -> int>,
    channels: nat,
    frames: nat,
    seed: u64,
    c: int,
    n: nat,
)
    requires
        0 <= c < channels,
        n < frames,
    ensures
        dithers(noise, false, channels, frames, Some(seed)) ==> noise[c](n) == noise_at(
            seed,
            (c * frames + n) as nat,
        ),
        dithers(noise, true, channels, frames, Some(seed)) ==> noise[c](n) == noise_at(
            channel_seed(seed, c),
            n,
        ),
        dithers(noise, false, channels, frames, None) || dithers(noise, true, channels, frames, None)
            ==> -0x20_0000_0000_0000 <= noise[c](n) < 0x20_0000_0000_0000,
{
}

} // verus!

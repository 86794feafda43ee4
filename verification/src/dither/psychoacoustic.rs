//! Psychoacoustic analysis: how a signal is cut into frames, and how spectra are folded into
//! critical bands and back.
//!
//! The spectra themselves are computed by the caller; figures are of the caller's type.
use vstd::prelude::*;
use crate::closures::{accepts1, accepts2, accepts3, computes1, computes2, computes3};
use crate::closures::accepts_ref;
use crate::dither::shaper::blank_history;

verus! {

/// Frame length in samples.
pub const FRAME_SIZE: usize = 1024;

/// Distance between the starts of consecutive frames.
pub const HOP_SIZE: usize = 512;

/// Number of critical bands.
pub const NUM_BARK_BANDS: usize = 24;

/// Upper frequency limit (Hz) of each critical band.
pub const BARK_UPPER: [u32; 24] = [
    100,
    200,
    300,
    400,
    510,
    630,
    770,
    920,
    1080,
    1270,
    1480,
    1720,
    2000,
    2320,
    2700,
    3150,
    3700,
    4400,
    5300,
    6400,
    7700,
    9500,
    12000,
    15500,
];

/// Upper frequency limit (Hz) of each critical band.
pub open spec fn bark_upper() -> Seq<u32> {
    seq![
        100u32,
        200,
        300,
        400,
        510,
        630,
        770,
        920,
        1080,
        1270,
        1480,
        1720,
        2000,
        2320,
        2700,
        3150,
        3700,
        4400,
        5300,
        6400,
        7700,
        9500,
        12000,
        15500,
    ]
}

/// The frequency of bin `k` is at most `upper` Hz. Bins run from 0 Hz to half the sample rate.
pub open spec fn bin_at_most(k: int, sample_rate: int, num_bins: int, upper: int) -> bool {
    k * sample_rate <= upper * (2 * (num_bins - 1))
}

/// The first band from `z` on that reaches up to bin `k`; the last band takes what is above.
pub open spec fn band_from(k: int, sample_rate: int, num_bins: int, z: int) -> int
    decreases 24 - z,
{
    if z >= 23 {
        23
    } else if bin_at_most(k, sample_rate, num_bins, bark_upper()[z] as int) {
        z
    } else {
        band_from(k, sample_rate, num_bins, z + 1)
    }
}

/// The critical band of FFT bin `k`.
pub open spec fn band_of(k: int, sample_rate: int, num_bins: int) -> int {
    if num_bins == 1 {
        23
    } else {
        band_from(k, sample_rate, num_bins, 0)
    }
}

proof fn lemma_band_range(k: int, sample_rate: int, num_bins: int, z: int)
    requires
        0 <= z,
    ensures
        0 <= band_from(k, sample_rate, num_bins, z) <= 23,
    decreases 24 - z,
{
    if z < 23 {
        lemma_band_range(k, sample_rate, num_bins, z + 1);
    }
}

/// The critical band of FFT bin `k`.
pub fn bin_to_bark_band(k: usize, sample_rate: u32, num_bins: usize) -> (z: usize)
    requires
        num_bins > 0,
    ensures
        z == band_of(k as int, sample_rate as int, num_bins as int),
        z < NUM_BARK_BANDS,
{
    if num_bins == 1 {
        return 23;
    }
    let uppers: [u32; 24] = BARK_UPPER;
    assert(uppers@ =~= bark_upper());
    proof {
        assert((k as int) * (sample_rate as int) <= 0xFFFF_FFFF_FFFF_FFFF * 0xFFFF_FFFF)
            by (nonlinear_arith)
            requires
                k <= 0xFFFF_FFFF_FFFF_FFFF,
                sample_rate <= 0xFFFF_FFFF,
        ;
        lemma_band_range(k as int, sample_rate as int, num_bins as int, 0);
    }
    let scaled: u128 = (k as u128) * (sample_rate as u128);
    let span: u128 = 2 * ((num_bins - 1) as u128);
    let mut z: usize = 0;
    while z < 23
        invariant
            uppers@ == bark_upper(),
            z <= 23,
            num_bins > 1,
            scaled == k * sample_rate,
            span == 2 * (num_bins - 1),
            band_from(k as int, sample_rate as int, num_bins as int, 0) == band_from(
                k as int,
                sample_rate as int,
                num_bins as int,
                z as int,
            ),
        decreases 23 - z,
    {
        let upper = uppers[z] as u128;
        proof {
            assert((upper as int) * (span as int) <= 0xFFFF_FFFF * (2 * 0xFFFF_FFFF_FFFF_FFFF))
                by (nonlinear_arith)
                requires
                    0 <= upper <= 0xFFFF_FFFF,
                    0 <= span <= 2 * 0xFFFF_FFFF_FFFF_FFFF,
            ;
        }
        if scaled <= upper * span {
            return z;
        }
        z = z + 1;
    }
    23
}

// ---------------------------------------------------------------------------
// Frames.
// ---------------------------------------------------------------------------

/// The frame that starts at sample `pos`; past the end of the signal it is filled with
/// `zero`.
pub open spec fn frame_from<S>(signal: Seq<S>, pos: int, zero: S) -> Seq<S> {
    Seq::new(
        1024,
        |i: int|
            if pos + i < signal.len() {
                signal[pos + i]
            } else {
                zero
            },
    )
}

/// The number of frames of a signal of `len` samples: one per started hop, at least one.
pub open spec fn frame_count(len: nat) -> nat {
    if len <= 512 {
        1
    } else {
        (len + 511) / 512
    }
}

/// The thresholds of a signal: one spectrum per analysis frame.
#[derive(Debug, Clone)]
pub struct PsychoacousticAnalysis<T> {
    /// The threshold of every bin of every frame.
    pub thresholds: Vec<Vec<T>>,
    pub num_bins: usize,
    pub sample_rate: u32,
}

fn cut_frame<S: Copy>(signal: &Vec<S>, pos: usize, zero: S) -> (frame: Vec<S>)
    requires
        pos < signal@.len() || pos == 0,
    ensures
        frame@ == frame_from(signal@, pos as int, zero),
{
    let mut frame: Vec<S> = Vec::new();
    let mut i: usize = 0;
    while i < FRAME_SIZE
        invariant
            pos < signal@.len() || pos == 0,
            i <= FRAME_SIZE,
            frame@ == frame_from(signal@, pos as int, zero).take(i as int),
        decreases FRAME_SIZE - i,
    {
        let whole = signal.len();
        let s = if pos < whole && i < whole - pos {
            signal[pos + i]
        } else {
            zero
        };
        frame.push(s);
        proof {
            let all = frame_from(signal@, pos as int, zero);
            assert(all.take(i + 1) =~= all.take(i as int).push(all[i as int]));
        }
        i = i + 1;
    }
    assert(frame_from(signal@, pos as int, zero).take(1024) =~= frame_from(signal@, pos as int, zero));
    frame
}

/// Whatever `f` returns of a list is the value of `s`, which looks at its contents.
pub open spec fn reads_list<S, T, F: Fn(&Vec<S>) -> Vec<T>>(f: F, s: spec_fn(Seq<S>) -> Seq<T>) -> bool {
    forall|v: &Vec<S>, r: Vec<T>| #[trigger] f.ensures((v,), r) ==> r@ == s(v@)
}

/// `threshold` gives a figure for every bin of a frame.
pub open spec fn gives_all_bins<S, T, F: Fn(&Vec<S>) -> Vec<T>>(threshold: F) -> bool {
    forall|frame: &Vec<S>, r: Vec<T>| #[trigger] threshold.ensures((frame,), r) ==> r@.len() == 513
}

impl<T> PsychoacousticAnalysis<T> {
    /// There is a frame.
    pub open spec fn well_formed(self) -> bool {
        self.thresholds@.len() > 0
    }

    /// This is the analysis of a signal: a row of thresholds for every frame, with one for every
    /// bin, as `threshold` gives them.
    pub open spec fn analyzes<S, F: Fn(&Vec<S>) -> Vec<T>>(
        self,
        signal: Seq<S>,
        sample_rate: u32,
        zero: S,
        threshold: F,
    ) -> bool {
        &&& self.num_bins == 513
        &&& self.sample_rate == sample_rate
        &&& self.thresholds@.len() == frame_count(signal.len())
        &&& forall|i: int|
            0 <= i < self.thresholds@.len() ==> (#[trigger] self.thresholds@[i])@.len()
                == self.num_bins
        &&& forall|t: spec_fn(Seq<S>) -> Seq<T>, i: int|
            reads_list(threshold, t) && 0 <= i < self.thresholds@.len() ==> self.thresholds@[i]@
                == #[trigger] t(frame_from(signal, 512 * i, zero))
    }

    /// Analyze a mono signal frame by frame. `threshold` gives the thresholds of one frame of
    /// samples, one for each bin. The last frames are filled with `zero`, so that the whole
    /// signal is covered.
    pub fn analyze<S: Copy, F: Fn(&Vec<S>) -> Vec<T>>(
        signal: &Vec<S>,
        sample_rate: u32,
        zero: S,
        threshold: &F,
    ) -> (r: PsychoacousticAnalysis<T>)
        requires
            accepts_ref(*threshold),
            gives_all_bins(*threshold),
        ensures
            r.well_formed(),
            r.analyzes(signal@, sample_rate, zero, *threshold),
    {
        let mut thresholds: Vec<Vec<T>> = Vec::new();
        let mut pos: usize = 0;
        loop
            invariant_except_break
                pos == 512 * thresholds@.len(),
                pos < signal@.len() || pos == 0,
            invariant
                accepts_ref(*threshold),
                gives_all_bins(*threshold),
                forall|i: int| 0 <= i < thresholds@.len() ==> (#[trigger] thresholds@[i])@.len() == 513,
                forall|t: spec_fn(Seq<S>) -> Seq<T>, i: int|
                    reads_list(*threshold, t) && 0 <= i < thresholds@.len() ==> thresholds@[i]@
                        == #[trigger] t(frame_from(signal@, 512 * i, zero)),
            ensures
                thresholds@.len() == frame_count(signal@.len()),
            decreases signal@.len() - pos,
        {
            let frame = cut_frame(signal, pos, zero);
            let one = threshold(&frame);
            thresholds.push(one);
            // Stop once the next frame would start past the signal.
            if signal.len() <= HOP_SIZE || pos >= signal.len() - HOP_SIZE {
                break;
            }
            pos = pos + HOP_SIZE;
        }
        PsychoacousticAnalysis { thresholds, num_bins: FRAME_SIZE / 2 + 1, sample_rate }
    }

    /// The thresholds of the frame that sample `n` belongs to; past the end the last frame's.
    pub fn threshold_for_sample(&self, n: usize) -> (r: &Vec<T>)
        requires
            self.well_formed(),
        ensures
            *r == self.thresholds@[if n / 512 < self.thresholds@.len() {
                (n / 512) as int
            } else {
                self.thresholds@.len() - 1
            }],
    {
        let last = self.thresholds.len() - 1;
        let frame = if n / HOP_SIZE < last {
            n / HOP_SIZE
        } else {
            last
        };
        &self.thresholds[frame]
    }

    /// The number of frames.
    pub fn num_frames(&self) -> (r: usize)
        ensures
            r == self.thresholds@.len(),
    {
        self.thresholds.len()
    }
}

// ---------------------------------------------------------------------------
// Critical bands.
// ---------------------------------------------------------------------------

/// The sum of the first `n` figures that fall into band `z`, starting from `zero`.
pub open spec fn band_sum<T>(
    power: Seq<T>,
    sample_rate: int,
    num_bins: int,
    z: int,
    n: int,
    zero: T,
    plus: spec_fn(T, T) -> T,
) -> T
    decreases n,
{
    if n <= 0 {
        zero
    } else {
        let rest = band_sum(power, sample_rate, num_bins, z, n - 1, zero, plus);
        if band_of(n - 1, sample_rate, num_bins) == z {
            plus(rest, power[n - 1])
        } else {
            rest
        }
    }
}

/// How many of the first `n` bins fall into band `z`.
pub open spec fn band_size(sample_rate: int, num_bins: int, z: int, n: int) -> int
    decreases n,
{
    if n <= 0 {
        0
    } else {
        band_size(sample_rate, num_bins, z, n - 1) + if band_of(n - 1, sample_rate, num_bins) == z {
            1int
        } else {
            0
        }
    }
}

/// Fold the figures of the bins into critical bands: the mean of each band, `zero` for a band
/// without bins. `mean(s, n)` is the `n`-th part of the sum `s`.
pub fn power_to_bark_bands<T: Copy, P: Fn(T, T) -> T, D: Fn(T, usize) -> T>(
    power: &Vec<T>,
    sample_rate: u32,
    num_bins: usize,
    zero: T,
    plus: &P,
    mean: &D,
) -> (bands: Vec<T>)
    requires
        num_bins > 0,
        accepts2(*plus),
        accepts2(*mean),
    ensures
        bands@.len() == NUM_BARK_BANDS,
        forall|p: spec_fn(T, T) -> T, d: spec_fn(T, usize) -> T, z: int|
            #![trigger computes2(*plus, p), computes2(*mean, d), bands@[z]]
            computes2(*plus, p) && computes2(*mean, d) && 0 <= z < 24 ==> {
                let n = power@.len() as int;
                let size = band_size(sample_rate as int, num_bins as int, z, n);
                bands@[z] == if size > 0 {
                    d(
                        band_sum(power@, sample_rate as int, num_bins as int, z, n, zero, p),
                        size as usize,
                    )
                } else {
                    zero
                }
            },
{
    let mut sums: Vec<T> = Vec::new();
    let mut sizes: Vec<usize> = Vec::new();
    while sums.len() < NUM_BARK_BANDS
        invariant
            sums@.len() <= NUM_BARK_BANDS,
            sizes@.len() == sums@.len(),
            forall|z: int| 0 <= z < sums@.len() ==> #[trigger] sums@[z] == zero,
            forall|z: int| 0 <= z < sums@.len() ==> #[trigger] sizes@[z] == 0,
        decreases NUM_BARK_BANDS - sums.len(),
    {
        sums.push(zero);
        sizes.push(0);
    }
    let mut k: usize = 0;
    while k < power.len()
        invariant
            num_bins > 0,
            accepts2(*plus),
            k <= power@.len(),
            sums@.len() == 24,
            sizes@.len() == 24,
            forall|z: int|
                0 <= z < 24 ==> #[trigger] sizes@[z] == band_size(
                    sample_rate as int,
                    num_bins as int,
                    z,
                    k as int,
                ) && sizes@[z] <= k,
            forall|p: spec_fn(T, T) -> T, z: int|
                computes2(*plus, p) && 0 <= z < 24 ==> sums@[z] == #[trigger] band_sum(
                    power@,
                    sample_rate as int,
                    num_bins as int,
                    z,
                    k as int,
                    zero,
                    p,
                ),
        decreases power.len() - k,
    {
        let z = bin_to_bark_band(k, sample_rate, num_bins);
        let ghost before = sums@;
        assert(sizes@[z as int] <= k);
        let total = plus(sums[z], power[k]);
        let size = sizes[z];
        sums.set(z, total);
        sizes.set(z, size + 1);
        proof {
            assert forall|p: spec_fn(T, T) -> T, y: int| computes2(*plus, p) && 0 <= y < 24 implies sums@[y]
                == #[trigger] band_sum(
                power@,
                sample_rate as int,
                num_bins as int,
                y,
                k + 1,
                zero,
                p,
            ) by {
                assert(before[y] == band_sum(
                    power@,
                    sample_rate as int,
                    num_bins as int,
                    y,
                    k as int,
                    zero,
                    p,
                ));
            }
        }
        k = k + 1;
    }
    let mut bands: Vec<T> = Vec::new();
    let mut z: usize = 0;
    while z < NUM_BARK_BANDS
        invariant
            accepts2(*mean),
            z <= 24,
            bands@.len() == z,
            sums@.len() == 24,
            sizes@.len() == 24,
            forall|d: spec_fn(T, usize) -> T, y: int|
                #![trigger computes2(*mean, d), bands@[y]]
                computes2(*mean, d) && 0 <= y < z ==> bands@[y] == if sizes@[y] > 0 {
                    d(sums@[y], sizes@[y])
                } else {
                    zero
                },
        decreases 24 - z,
    {
        let one = if sizes[z] > 0 {
            mean(sums[z], sizes[z])
        } else {
            zero
        };
        bands.push(one);
        z = z + 1;
    }
    proof {
        assert forall|p: spec_fn(T, T) -> T, d: spec_fn(T, usize) -> T, z: int|
            #![trigger computes2(*plus, p), computes2(*mean, d), bands@[z]]
            computes2(*plus, p) && computes2(*mean, d) && 0 <= z < 24 implies ({
            let n = power@.len() as int;
            let size = band_size(sample_rate as int, num_bins as int, z, n);
            bands@[z] == if size > 0 {
                d(
                    band_sum(power@, sample_rate as int, num_bins as int, z, n, zero, p),
                    size as usize,
                )
            } else {
                zero
            }
        }) by {
            let n = power@.len() as int;
            assert(sums@[z] == band_sum(power@, sample_rate as int, num_bins as int, z, n, zero, p));
            assert(sizes@[z] == band_size(sample_rate as int, num_bins as int, z, n));
        }
    }
    bands
}

/// Give every bin the figure of its band, or the floor of the bin where that is higher.
/// `highest` is the larger of two figures.
pub fn bark_to_bins<T: Copy, M: Fn(T, T) -> T>(
    bark_threshold: &Vec<T>,
    sample_rate: u32,
    num_bins: usize,
    floor: &Vec<T>,
    highest: &M,
) -> (bins: Vec<T>)
    requires
        num_bins > 0,
        accepts2(*highest),
        bark_threshold@.len() == NUM_BARK_BANDS,
        floor@.len() >= num_bins,
    ensures
        bins@.len() == num_bins,
        forall|m: spec_fn(T, T) -> T, k: int|
            #![trigger computes2(*highest, m), bins@[k]]
            computes2(*highest, m) && 0 <= k < num_bins ==> bins@[k] == m(
                bark_threshold@[band_of(k, sample_rate as int, num_bins as int)],
                floor@[k],
            ),
{
    let mut bins: Vec<T> = Vec::new();
    let mut k: usize = 0;
    while k < num_bins
        invariant
            num_bins > 0,
            accepts2(*highest),
            bark_threshold@.len() == NUM_BARK_BANDS,
            floor@.len() >= num_bins,
            k <= num_bins,
            bins@.len() == k,
            forall|m: spec_fn(T, T) -> T, j: int|
                #![trigger computes2(*highest, m), bins@[j]]
                computes2(*highest, m) && 0 <= j < k ==> bins@[j] == m(
                    bark_threshold@[band_of(j, sample_rate as int, num_bins as int)],
                    floor@[j],
                ),
        decreases num_bins - k,
    {
        let z = bin_to_bark_band(k, sample_rate, num_bins);
        bins.push(highest(bark_threshold[z], floor[k]));
        k = k + 1;
    }
    bins
}

/// The bands around band `z` of `n` that its tonality is taken from: one to each side.
pub open spec fn tone_window<T>(bands: Seq<T>, z: int) -> Seq<T> {
    bands.subrange(
        if z > 0 {
            z - 1
        } else {
            0
        },
        if z + 2 < bands.len() {
            z + 2
        } else {
            bands.len() as int
        },
    )
}

/// Whatever `f` returns of a list is the value of `s`, which looks at its contents.
pub open spec fn tells<T, F: Fn(&Vec<T>) -> T>(f: F, s: spec_fn(Seq<T>) -> T) -> bool {
    forall|v: &Vec<T>, x: T| #[trigger] f.ensures((v,), x) ==> x == s(v@)
}

/// The tonality of every band. `tone` gives it for the figures of a band and its neighbours.
pub fn bark_tonality<T: Copy, F: Fn(&Vec<T>) -> T>(bark_power: &Vec<T>, tone: &F) -> (r: Vec<T>)
    requires
        accepts_ref(*tone),
    ensures
        r@.len() == bark_power@.len(),
        forall|t: spec_fn(Seq<T>) -> T, z: int|
            tells(*tone, t) && 0 <= z < bark_power@.len() ==> r@[z] == #[trigger] t(tone_window(bark_power@, z)),
{
    let n = bark_power.len();
    let mut r: Vec<T> = Vec::new();
    let mut z: usize = 0;
    while z < n
        invariant
            accepts_ref(*tone),
            n == bark_power@.len(),
            z <= n,
            r@.len() == z,
            forall|t: spec_fn(Seq<T>) -> T, y: int|
                tells(*tone, t) && 0 <= y < z ==> r@[y] == #[trigger] t(tone_window(bark_power@, y)),
        decreases n - z,
    {
        let lo: usize = if z > 0 {
            z - 1
        } else {
            0
        };
        let hi: usize = if n - z > 2 {
            z + 2
        } else {
            n
        };
        let mut window: Vec<T> = Vec::new();
        let mut i: usize = lo;
        assert(bark_power@.subrange(lo as int, lo as int) =~= Seq::<T>::empty());
        while i < hi
            invariant
                lo <= i <= hi <= bark_power@.len(),
                window@ == bark_power@.subrange(lo as int, i as int),
            decreases hi - i,
        {
            window.push(bark_power[i]);
            assert(bark_power@.subrange(lo as int, i + 1) =~= bark_power@.subrange(
                lo as int,
                i as int,
            ).push(bark_power@[i as int]));
            i = i + 1;
        }
        assert(window@ == tone_window(bark_power@, z as int));
        r.push(tone(&window));
        z = z + 1;
    }
    r
}

/// What band `z` receives from the first `n` maskers. Silent maskers give nothing.
pub open spec fn excitation<T>(
    power: Seq<T>,
    z: int,
    n: int,
    zero: T,
    silent: spec_fn(T) -> bool,
    spread: spec_fn(T, T, i64) -> T,
) -> T
    decreases n,
{
    if n <= 0 {
        zero
    } else {
        let rest = excitation(power, z, n - 1, zero, silent, spread);
        if silent(power[n - 1]) {
            rest
        } else {
            spread(rest, power[n - 1], (z - (n - 1)) as i64)
        }
    }
}

/// Spread the figures of the bands over all bands: `spread(a, p, d)` is `a` plus what a masker
/// of power `p` gives to the band `d` places above it.
pub fn spreading_function<T: Copy, Q: Fn(T) -> bool, F: Fn(T, T, i64) -> T>(
    bark_power: &Vec<T>,
    zero: T,
    silent: &Q,
    spread: &F,
) -> (r: Vec<T>)
    requires
        accepts1(*silent),
        accepts3(*spread),
        bark_power@.len() <= 0x7FFF_FFFF,
    ensures
        r@.len() == bark_power@.len(),
        forall|q: spec_fn(T) -> bool, f: spec_fn(T, T, i64) -> T, z: int|
            computes1(*silent, q) && computes3(*spread, f) && 0 <= z < bark_power@.len() ==> r@[z]
                == #[trigger] excitation(bark_power@, z, bark_power@.len() as int, zero, q, f),
{
    let n = bark_power.len();
    let mut r: Vec<T> = Vec::new();
    let mut z: usize = 0;
    while z < n
        invariant
            accepts1(*silent),
            accepts3(*spread),
            n == bark_power@.len(),
            n <= 0x7FFF_FFFF,
            z <= n,
            r@.len() == z,
            forall|q: spec_fn(T) -> bool, f: spec_fn(T, T, i64) -> T, y: int|
                computes1(*silent, q) && computes3(*spread, f) && 0 <= y < z ==> r@[y]
                    == #[trigger] excitation(bark_power@, y, n as int, zero, q, f),
        decreases n - z,
    {
        let mut total = zero;
        let mut m: usize = 0;
        while m < n
            invariant
                accepts1(*silent),
                accepts3(*spread),
                n == bark_power@.len(),
                n <= 0x7FFF_FFFF,
                z < n,
                m <= n,
                forall|q: spec_fn(T) -> bool, f: spec_fn(T, T, i64) -> T|
                    computes1(*silent, q) && computes3(*spread, f) ==> total == #[trigger] excitation(
                        bark_power@,
                        z as int,
                        m as int,
                        zero,
                        q,
                        f,
                    ),
            decreases n - m,
        {
            let ghost before = total;
            let p = bark_power[m];
            let quiet: bool = silent(p);
            if !quiet {
                total = spread(total, p, z as i64 - m as i64);
            }
            proof {
                assert forall|q: spec_fn(T) -> bool, f: spec_fn(T, T, i64) -> T|
                    computes1(*silent, q) && computes3(*spread, f) implies total
                    == #[trigger] excitation(bark_power@, z as int, m + 1, zero, q, f) by {
                    assert(before == excitation(bark_power@, z as int, m as int, zero, q, f));
                }
            }
            m = m + 1;
        }
        r.push(total);
        z = z + 1;
    }
    r
}

// ---------------------------------------------------------------------------
// The threshold of a frame.
// ---------------------------------------------------------------------------

/// The arithmetic of the masking model, on figures of the caller's type.
#[verifier::reject_recursive_types(T)]
pub struct MaskingModel<T> {
    pub zero: T,
    pub plus: spec_fn(T, T) -> T,
    /// The `n`-th part of a sum.
    pub mean: spec_fn(T, usize) -> T,
    /// The tonality of a band and its neighbours.
    pub tone: spec_fn(Seq<T>) -> T,
    /// A masker of this power masks nothing.
    pub silent: spec_fn(T) -> bool,
    /// An excitation plus what a masker gives to a band at some distance.
    pub spread: spec_fn(T, T, i64) -> T,
    /// The threshold of a band, from its excitation and its tonality.
    pub weigh: spec_fn(T, T) -> T,
    /// The larger of two figures.
    pub highest: spec_fn(T, T) -> T,
}

impl<T> MaskingModel<T> {
    /// The mean power of band `z`.
    pub open spec fn band_power(self, power: Seq<T>, sample_rate: u32, z: int) -> T {
        let n = power.len() as int;
        let size = band_size(sample_rate as int, n, z, n);
        if size > 0 {
            (self.mean)(
                band_sum(power, sample_rate as int, n, z, n, self.zero, self.plus),
                size as usize,
            )
        } else {
            self.zero
        }
    }

    /// The mean power of every band.
    pub open spec fn bands(self, power: Seq<T>, sample_rate: u32) -> Seq<T> {
        Seq::new(24, |z: int| self.band_power(power, sample_rate, z))
    }

    /// The threshold of band `z`.
    pub open spec fn band_threshold(self, bands: Seq<T>, z: int) -> T {
        (self.weigh)(
            excitation(bands, z, bands.len() as int, self.zero, self.silent, self.spread),
            (self.tone)(tone_window(bands, z)),
        )
    }

    /// The threshold of every bin of a power spectrum: that of its band, or the floor of the
    /// bin where that is higher.
    pub open spec fn threshold(self, power: Seq<T>, sample_rate: u32, floor: Seq<T>) -> Seq<T> {
        let bands = self.bands(power, sample_rate);
        Seq::new(
            power.len(),
            |k: int|
                (self.highest)(
                    self.band_threshold(bands, band_of(k, sample_rate as int, power.len() as int)),
                    floor[k],
                ),
        )
    }
}

/// The masking threshold of every bin of a power spectrum. `weigh(e, t)` is the threshold of a
/// band with excitation `e` and tonality `t`; the other functions are those of the single
/// steps.
pub fn masking_threshold<
    T: Copy,
    P: Fn(T, T) -> T,
    D: Fn(T, usize) -> T,
    N: Fn(&Vec<T>) -> T,
    Q: Fn(T) -> bool,
    F: Fn(T, T, i64) -> T,
    W: Fn(T, T) -> T,
    M: Fn(T, T) -> T,
>(
    power: &Vec<T>,
    sample_rate: u32,
    floor: &Vec<T>,
    zero: T,
    plus: &P,
    mean: &D,
    tone: &N,
    silent: &Q,
    spread: &F,
    weigh: &W,
    highest: &M,
) -> (bins: Vec<T>)
    requires
        0 < power@.len() <= floor@.len(),
        accepts2(*plus),
        accepts2(*mean),
        accepts_ref(*tone),
        accepts1(*silent),
        accepts3(*spread),
        accepts2(*weigh),
        accepts2(*highest),
    ensures
        bins@.len() == power@.len(),
        forall|m: MaskingModel<T>|
            m.zero == zero && computes2(*plus, m.plus) && computes2(*mean, m.mean) && tells(
                *tone,
                m.tone,
            ) && computes1(*silent, m.silent) && computes3(*spread, m.spread) && computes2(
                *weigh,
                m.weigh,
            ) && computes2(*highest, m.highest) ==> bins@ == #[trigger] m.threshold(
                power@,
                sample_rate,
                floor@,
            ),
{
    let bands = power_to_bark_bands(power, sample_rate, power.len(), zero, plus, mean);
    let tonality = bark_tonality(&bands, tone);
    let excited = spreading_function(&bands, zero, silent, spread);
    let mut thresholds: Vec<T> = Vec::new();
    let mut z: usize = 0;
    while z < NUM_BARK_BANDS
        invariant
            accepts2(*weigh),
            z <= 24,
            excited@.len() == 24,
            tonality@.len() == 24,
            thresholds@.len() == z,
            forall|w: spec_fn(T, T) -> T, y: int|
                #![trigger computes2(*weigh, w), thresholds@[y]]
                computes2(*weigh, w) && 0 <= y < z ==> thresholds@[y] == w(excited@[y], tonality@[y]),
        decreases 24 - z,
    {
        thresholds.push(weigh(excited[z], tonality[z]));
        z = z + 1;
    }
    let bins = bark_to_bins(&thresholds, sample_rate, power.len(), floor, highest);
    proof {
        assert forall|m: MaskingModel<T>|
            m.zero == zero && computes2(*plus, m.plus) && computes2(*mean, m.mean) && tells(
                *tone,
                m.tone,
            ) && computes1(*silent, m.silent) && computes3(*spread, m.spread) && computes2(
                *weigh,
                m.weigh,
            ) && computes2(*highest, m.highest) implies bins@ == #[trigger] m.threshold(
            power@,
            sample_rate,
            floor@,
        ) by {
            assert(bands@ =~= m.bands(power@, sample_rate));
            let whole = m.threshold(power@, sample_rate, floor@);
            assert forall|k: int| 0 <= k < bins@.len() implies bins@[k] == whole[k] by {
                let y = band_of(k, sample_rate as int, power@.len() as int);
                lemma_band_range(k, sample_rate as int, power@.len() as int, 0);
                assert(0 <= y < 24);
                assert(tonality@[y] == (m.tone)(tone_window(bands@, y)));
                assert(excited@[y] == excitation(bands@, y, 24, zero, m.silent, m.spread));
                assert(thresholds@[y] == (m.weigh)(excited@[y], tonality@[y]));
            }
            assert(bins@ =~= whole);
        }
    }
    bins
}

// ---------------------------------------------------------------------------
// Laws.
// ---------------------------------------------------------------------------

/// The frames cover the whole signal: every sample is in the frame of its hop.
pub proof fn law_frames_cover_the_signal<S>(signal: Seq<S>, n: int, zero: S)
    requires
        0 <= n < signal.len(),
    ensures
        n / 512 < frame_count(signal.len()),
        frame_from(signal, 512 * (n / 512), zero)[n % 512] == signal[n],
{
}

/// The larger of a figure and a floor is at least the floor.
pub open spec fn keeps_the_floor<T>(
    m: MaskingModel<T>,
    floor: Seq<T>,
    at_most: spec_fn(T, T) -> bool,
) -> bool {
    forall|a: T, k: int|
        0 <= k < floor.len() ==> at_most(floor[k], #[trigger] (m.highest)(a, floor[k]))
}

/// A threshold is never below the floor of its bin, if the larger of a figure and a floor is at
/// least the floor.
pub proof fn law_thresholds_stay_above_the_floor<T>(
    m: MaskingModel<T>,
    power: Seq<T>,
    sample_rate: u32,
    floor: Seq<T>,
    at_most: spec_fn(T, T) -> bool,
    k: int,
)
    requires
        0 <= k < power.len() <= floor.len(),
        keeps_the_floor(m, floor, at_most),
    ensures
        at_most(floor[k], m.threshold(power, sample_rate, floor)[k]),
{
}

/// The model gives nothing for nothing: sums, means, excitations and thresholds of zero are
/// zero, and the larger of zero and a floor is the floor.
pub open spec fn quiet_for_silence<T>(m: MaskingModel<T>, floor: Seq<T>) -> bool {
    &&& (m.plus)(m.zero, m.zero) == m.zero
    &&& forall|n: usize| n > 0 ==> #[trigger] (m.mean)(m.zero, n) == m.zero
    &&& (m.silent)(m.zero)
    &&& forall|n: nat|
        (m.weigh)(m.zero, #[trigger] (m.tone)(blank_history(m.zero, n))) == m.zero
    &&& forall|k: int| 0 <= k < floor.len() ==> (m.highest)(m.zero, #[trigger] floor[k]) == floor[k]
}

/// Silence has the floor for its threshold.
pub proof fn law_silence_gives_the_floor<T>(
    m: MaskingModel<T>,
    n: nat,
    sample_rate: u32,
    floor: Seq<T>,
)
    requires
        0 < n <= floor.len(),
        n <= usize::MAX,
        quiet_for_silence(m, floor),
    ensures
        m.threshold(blank_history(m.zero, n), sample_rate, floor) == floor.take(n as int),
{
    let power = blank_history(m.zero, n);
    let bands = m.bands(power, sample_rate);
    assert forall|z: int| 0 <= z < 24 implies #[trigger] bands[z] == m.zero by {
        lemma_sum_of_nothing(m, power, sample_rate as int, n as int, z, n as int);
        lemma_band_size(sample_rate as int, n as int, z, n as int);
    }
    assert forall|k: int| 0 <= k < n implies #[trigger] m.threshold(power, sample_rate, floor)[k]
        == floor[k] by {
        let z = band_of(k, sample_rate as int, n as int);
        lemma_band_range(k, sample_rate as int, n as int, 0);
        lemma_excitation_of_nothing(m, bands, z, 24);
        let window = tone_window(bands, z);
        assert(window =~= blank_history(m.zero, window.len()));
    }
    assert(m.threshold(power, sample_rate, floor) =~= floor.take(n as int));
}

/// A band has at most as many bins as there are.
proof fn lemma_band_size(sample_rate: int, num_bins: int, z: int, n: int)
    requires
        0 <= n,
    ensures
        0 <= band_size(sample_rate, num_bins, z, n) <= n,
    decreases n,
{
    if n > 0 {
        lemma_band_size(sample_rate, num_bins, z, n - 1);
    }
}

proof fn lemma_sum_of_nothing<T>(
    m: MaskingModel<T>,
    power: Seq<T>,
    sample_rate: int,
    num_bins: int,
    z: int,
    n: int,
)
    requires
        (m.plus)(m.zero, m.zero) == m.zero,
        n <= power.len(),
        forall|k: int| 0 <= k < power.len() ==> #[trigger] power[k] == m.zero,
    ensures
        band_sum(power, sample_rate, num_bins, z, n, m.zero, m.plus) == m.zero,
    decreases n,
{
    if n > 0 {
        lemma_sum_of_nothing(m, power, sample_rate, num_bins, z, n - 1);
        assert(power[n - 1] == m.zero);
    }
}

proof fn lemma_excitation_of_nothing<T>(m: MaskingModel<T>, bands: Seq<T>, z: int, n: int)
    requires
        (m.silent)(m.zero),
        n <= bands.len(),
        forall|k: int| 0 <= k < bands.len() ==> #[trigger] bands[k] == m.zero,
    ensures
        excitation(bands, z, n, m.zero, m.silent, m.spread) == m.zero,
    decreases n,
{
    if n > 0 {
        lemma_excitation_of_nothing(m, bands, z, n - 1);
        assert(bands[n - 1] == m.zero);
    }
}

/// No signal lowers a threshold: in every frame and bin the threshold of a signal is at least
/// that of silence of the same length, which is the absolute threshold, the same in every frame
/// and positive. `power_of` is the power spectrum of a frame.
pub proof fn law_no_signal_lowers_a_threshold<S, T>(
    m: MaskingModel<T>,
    power_of: spec_fn(Seq<S>) -> Seq<T>,
    signal: Seq<S>,
    zero: S,
    sample_rate: u32,
    floor: Seq<T>,
    at_most: spec_fn(T, T) -> bool,
    positive: spec_fn(T) -> bool,
    i: int,
    k: int,
)
    requires
        forall|frame: Seq<S>| (#[trigger] power_of(frame)).len() == 513,
        power_of(blank_history(zero, 1024)) == blank_history(m.zero, 513),
        floor.len() == 513,
        quiet_for_silence(m, floor),
        keeps_the_floor(m, floor, at_most),
        forall|j: int| 0 <= j < floor.len() ==> positive(#[trigger] floor[j]),
        0 <= i < frame_count(signal.len()),
        0 <= k < 513,
    ensures
        ({
            let silence = blank_history(zero, signal.len());
            let of = |s: Seq<S>|
                m.threshold(power_of(frame_from(s, 512 * i, zero)), sample_rate, floor);
            &&& frame_count(silence.len()) == frame_count(signal.len())
            &&& of(silence) == floor
            &&& at_most(of(silence)[k], of(signal)[k])
            &&& positive(of(silence)[k])
        }),
{
    let silence = blank_history(zero, signal.len());
    assert(frame_from(silence, 512 * i, zero) =~= blank_history(zero, 1024));
    law_silence_gives_the_floor(m, 513, sample_rate, floor);
    assert(floor.take(513) =~= floor);
    let power = power_of(frame_from(signal, 512 * i, zero));
    assert(power.len() == 513);
    law_thresholds_stay_above_the_floor(m, power, sample_rate, floor, at_most, k);
}

/// An analysis never goes below that of silence: in every frame and bin the threshold of a
/// signal is at least the one of silence of the same length. The thresholds of silence are
/// positive and the same in every frame. Here the thresholds of a frame come from the masking
/// model and the power spectrum of the frame.
pub proof fn law_analysis_stays_above_that_of_silence<S, T, F: Fn(&Vec<S>) -> Vec<T>>(
    m: MaskingModel<T>,
    power_of: spec_fn(Seq<S>) -> Seq<T>,
    signal: Seq<S>,
    zero: S,
    sample_rate: u32,
    floor: Seq<T>,
    at_most: spec_fn(T, T) -> bool,
    positive: spec_fn(T) -> bool,
    threshold: F,
    of_signal: PsychoacousticAnalysis<T>,
    of_silence: PsychoacousticAnalysis<T>,
    i: int,
    k: int,
)
    requires
        forall|frame: Seq<S>| (#[trigger] power_of(frame)).len() == 513,
        power_of(blank_history(zero, 1024)) == blank_history(m.zero, 513),
        floor.len() == 513,
        quiet_for_silence(m, floor),
        keeps_the_floor(m, floor, at_most),
        forall|j: int| 0 <= j < floor.len() ==> positive(#[trigger] floor[j]),
        reads_list(threshold, |frame: Seq<S>| m.threshold(power_of(frame), sample_rate, floor)),
        of_signal.analyzes(signal, sample_rate, zero, threshold),
        of_silence.analyzes(blank_history(zero, signal.len()), sample_rate, zero, threshold),
        0 <= i < of_signal.thresholds@.len(),
        0 <= k < of_signal.num_bins,
    ensures
        of_silence.thresholds@.len() == of_signal.thresholds@.len(),
        of_silence.thresholds@[i]@ == of_silence.thresholds@[0]@,
        at_most(of_silence.thresholds@[i]@[k], of_signal.thresholds@[i]@[k]),
        positive(of_silence.thresholds@[i]@[k]),
{
    let t = |frame: Seq<S>| m.threshold(power_of(frame), sample_rate, floor);
    let silence = blank_history(zero, signal.len());
    law_no_signal_lowers_a_threshold(
        m,
        power_of,
        signal,
        zero,
        sample_rate,
        floor,
        at_most,
        positive,
        i,
        k,
    );
    law_no_signal_lowers_a_threshold(
        m,
        power_of,
        signal,
        zero,
        sample_rate,
        floor,
        at_most,
        positive,
        0,
        k,
    );
    assert(of_signal.thresholds@[i]@ == t(frame_from(signal, 512 * i, zero)));
    assert(of_silence.thresholds@[i]@ == t(frame_from(silence, 512 * i, zero)));
    assert(of_silence.thresholds@[0]@ == t(frame_from(silence, 512 * 0int, zero)));
}

/// Every bin belongs to one of the critical bands, and higher bins to the same or higher
/// bands.
pub proof fn law_bands_rise_with_frequency(j: nat, k: nat, sample_rate: nat, num_bins: nat)
    requires
        j <= k,
        1 <= num_bins,
    ensures
        0 <= band_of(j as int, sample_rate as int, num_bins as int) <= band_of(
            k as int,
            sample_rate as int,
            num_bins as int,
        ) < NUM_BARK_BANDS,
{
    lemma_bands_rise(j as int, k as int, sample_rate as int, num_bins as int, 0);
}

proof fn lemma_bands_rise(j: int, k: int, sample_rate: int, num_bins: int, z: int)
    requires
        0 <= j <= k,
        0 <= sample_rate,
        0 <= z <= 23,
    ensures
        0 <= band_from(j, sample_rate, num_bins, z) <= band_from(k, sample_rate, num_bins, z) <= 23,
    decreases 24 - z,
{
    lemma_band_range(j, sample_rate, num_bins, z);
    lemma_band_range(k, sample_rate, num_bins, z);
    lemma_band_floor(k, sample_rate, num_bins, z);
    assert(j * sample_rate <= k * sample_rate) by (nonlinear_arith)
        requires
            0 <= j <= k,
            0 <= sample_rate,
    ;
    if z < 23 {
        lemma_bands_rise(j, k, sample_rate, num_bins, z + 1);
        lemma_band_floor(k, sample_rate, num_bins, z + 1);
    }
}

proof fn lemma_band_floor(k: int, sample_rate: int, num_bins: int, z: int)
    requires
        0 <= z <= 23,
    ensures
        band_from(k, sample_rate, num_bins, z) >= z,
    decreases 24 - z,
{
    if z < 23 {
        lemma_band_floor(k, sample_rate, num_bins, z + 1);
    }
}

/// The bands are the critical bands of hearing: their upper limits are the 24 published ones,
/// and a bin belongs to the lowest band that reaches up to its frequency, which is `k` times the
/// sample rate over twice the number of bins less one. The last band takes everything above.
pub proof fn law_bins_belong_to_the_band_of_their_frequency(k: nat, sample_rate: nat, num_bins: nat)
    requires
        2 <= num_bins,
    ensures
        ({
            let limits: Seq<int> = seq![
                100, 200, 300, 400, 510, 630, 770, 920, 1080, 1270, 1480, 1720, 2000, 2320, 2700,
                3150, 3700, 4400, 5300, 6400, 7700, 9500, 12000, 15500,
            ];
            let z = band_of(k as int, sample_rate as int, num_bins as int);
            &&& 0 <= z < 24
            &&& z < 23 ==> k * sample_rate <= limits[z] * (2 * (num_bins - 1))
            &&& z > 0 ==> k * sample_rate > limits[z - 1] * (2 * (num_bins - 1))
        }),
{
    lemma_band_range(k as int, sample_rate as int, num_bins as int, 0);
    lemma_band_is_lowest(k as int, sample_rate as int, num_bins as int, 0);
}

proof fn lemma_band_is_lowest(k: int, sample_rate: int, num_bins: int, z: int)
    requires
        0 <= z <= 23,
    ensures
        ({
            let b = band_from(k, sample_rate, num_bins, z);
            &&& z <= b <= 23
            &&& b < 23 ==> bin_at_most(k, sample_rate, num_bins, bark_upper()[b] as int)
            &&& b > z ==> !bin_at_most(k, sample_rate, num_bins, bark_upper()[b - 1] as int)
        }),
    decreases 24 - z,
{
    if z < 23 {
        lemma_band_is_lowest(k, sample_rate, num_bins, z + 1);
    }
}

/// Frames overlap by half: a sample stands in the first half of the frame of its hop and in the
/// second half of the frame before. A frame has 1024 samples, and what lies past the end of the
/// signal is filled up.
pub proof fn law_frames_overlap_by_half<S>(signal: Seq<S>, n: int, i: int, pos: int, zero: S)
    requires
        0 <= n < signal.len(),
        0 <= i < 1024,
        0 <= pos,
    ensures
        frame_from(signal, pos, zero).len() == 1024,
        frame_from(signal, 512 * (n / 512), zero)[n % 512] == signal[n],
        n >= 512 ==> frame_from(signal, 512 * (n / 512 - 1), zero)[512 + n % 512] == signal[n],
        pos + i >= signal.len() ==> frame_from(signal, pos, zero)[i] == zero,
{
}

/// There are no more frames than needed: the last one starts inside the signal, and a signal
/// that is no longer than a hop has one.
pub proof fn law_the_last_frame_starts_inside(len: nat)
    ensures
        frame_count(len) >= 1,
        len > 0 ==> 512 * (frame_count(len) - 1) < len <= 512 * frame_count(len),
        len == 0 ==> frame_count(len) == 1,
{
}

/// The sum of the first `n` powers.
pub open spec fn power_sum(power: Seq<int>, n: int) -> int
    decreases n,
{
    if n <= 0 {
        0
    } else {
        power_sum(power, n - 1) + power[n - 1]
    }
}

/// What the first `b` bands hold together of the first `n` powers.
pub open spec fn held_by_bands(power: Seq<int>, sample_rate: int, num_bins: int, b: int, n: int) -> int
    decreases b,
{
    if b <= 0 {
        0
    } else {
        held_by_bands(power, sample_rate, num_bins, b - 1, n) + band_sum(
            power,
            sample_rate,
            num_bins,
            b - 1,
            n,
            0,
            |x: int, y: int| x + y,
        )
    }
}

/// How many of the first `n` bins the first `b` bands have together.
pub open spec fn bins_of_bands(sample_rate: int, num_bins: int, b: int, n: int) -> int
    decreases b,
{
    if b <= 0 {
        0
    } else {
        bins_of_bands(sample_rate, num_bins, b - 1, n) + band_size(sample_rate, num_bins, b - 1, n)
    }
}

/// No power is lost and none is counted twice: the 24 bands together hold the power of all bins,
/// and have all bins.
pub proof fn law_bands_hold_all_power(power: Seq<int>, sample_rate: nat, num_bins: nat, n: int)
    requires
        1 <= num_bins,
        0 <= n <= power.len(),
    ensures
        held_by_bands(power, sample_rate as int, num_bins as int, 24, n) == power_sum(power, n),
        bins_of_bands(sample_rate as int, num_bins as int, 24, n) == n,
    decreases n,
{
    let rate = sample_rate as int;
    let bins = num_bins as int;
    if n > 0 {
        law_bands_hold_all_power(power, sample_rate, num_bins, n - 1);
        lemma_band_range(n - 1, rate, bins, 0);
        lemma_one_band_gains(power, rate, bins, 24, n);
    } else {
        lemma_empty_bands(power, rate, bins, 24);
    }
}

proof fn lemma_empty_bands(power: Seq<int>, sample_rate: int, num_bins: int, b: int)
    ensures
        held_by_bands(power, sample_rate, num_bins, b, 0) == 0,
        bins_of_bands(sample_rate, num_bins, b, 0) == 0,
    decreases b,
{
    if b > 0 {
        lemma_empty_bands(power, sample_rate, num_bins, b - 1);
    }
}

proof fn lemma_one_band_gains(power: Seq<int>, sample_rate: int, num_bins: int, b: int, n: int)
    requires
        n > 0,
        0 <= band_of(n - 1, sample_rate, num_bins),
    ensures
        held_by_bands(power, sample_rate, num_bins, b, n) == held_by_bands(
            power,
            sample_rate,
            num_bins,
            b,
            n - 1,
        ) + if band_of(n - 1, sample_rate, num_bins) < b {
            power[n - 1]
        } else {
            0
        },
        bins_of_bands(sample_rate, num_bins, b, n) == bins_of_bands(
            sample_rate,
            num_bins,
            b,
            n - 1,
        ) + if band_of(n - 1, sample_rate, num_bins) < b {
            1int
        } else {
            0
        },
    decreases b,
{
    if b > 0 {
        lemma_one_band_gains(power, sample_rate, num_bins, b - 1, n);
    }
}

/// The mean of a band is that of its bins: where all bins of a band have the same power, the sum
/// is that power times the number of bins.
pub proof fn law_even_bands_keep_their_power(
    power: Seq<int>,
    level: int,
    sample_rate: nat,
    num_bins: nat,
    z: int,
    n: int,
)
    requires
        0 <= n <= power.len(),
        forall|k: int|
            0 <= k < n && band_of(k, sample_rate as int, num_bins as int) == z
                ==> #[trigger] power[k] == level,
    ensures
        band_sum(
            power,
            sample_rate as int,
            num_bins as int,
            z,
            n,
            0,
            |x: int, y: int| x + y,
        ) == level * band_size(sample_rate as int, num_bins as int, z, n),
    decreases n,
{
    if n > 0 {
        law_even_bands_keep_their_power(power, level, sample_rate, num_bins, z, n - 1);
        let before = band_size(sample_rate as int, num_bins as int, z, n - 1);
        assert(level * (before + 1) == level * before + level) by (nonlinear_arith);
        if band_of(n - 1, sample_rate as int, num_bins as int) == z {
            assert(power[n - 1] == level);
        }
    } else {
        assert(level * 0 == 0);
    }
}

/// A single masker excites every band by what it spreads over the distance between them. The
/// distance is positive for bands above the masker.
pub proof fn law_a_masker_spreads_to_every_band<T>(
    power: Seq<T>,
    z: int,
    masker: int,
    n: int,
    zero: T,
    silent: spec_fn(T) -> bool,
    spread: spec_fn(T, T, i64) -> T,
)
    requires
        0 <= masker < power.len() <= 24,
        0 <= z < power.len(),
        0 <= n <= power.len(),
        !silent(power[masker]),
        forall|m: int| 0 <= m < power.len() && m != masker ==> silent(#[trigger] power[m]),
    ensures
        excitation(power, z, n, zero, silent, spread) == if masker < n {
            spread(zero, power[masker], (z - masker) as i64)
        } else {
            zero
        },
    decreases n,
{
    if n > 0 {
        law_a_masker_spreads_to_every_band(power, z, masker, n - 1, zero, silent, spread);
        if n - 1 != masker {
            assert(silent(power[n - 1]));
        }
    }
}

/// What all maskers give to band `z` together.
pub open spec fn given_by_all(power: Seq<int>, z: int, n: int, gain: spec_fn(int, int) -> int) -> int
    decreases n,
{
    if n <= 0 {
        0
    } else {
        given_by_all(power, z, n - 1, gain) + gain(power[n - 1], z - (n - 1))
    }
}

/// Every masker counts: if what a masker gives is added to what is there, the excitation of a
/// band is the sum over all maskers.
pub proof fn law_excitations_add_up(
    power: Seq<int>,
    z: int,
    n: int,
    gain: spec_fn(int, int) -> int,
)
    requires
        0 <= n <= power.len() <= 24,
        0 <= z < 24,
    ensures
        excitation(
            power,
            z,
            n,
            0,
            |p: int| false,
            |a: int, p: int, d: i64| a + gain(p, d as int),
        ) == given_by_all(power, z, n, gain),
    decreases n,
{
    if n > 0 {
        law_excitations_add_up(power, z, n - 1, gain);
    }
}

/// The tonality of a band is taken from the band and the bands next to it.
pub proof fn law_tonality_looks_at_the_neighbours<T>(bands: Seq<T>, z: int)
    requires
        0 <= z < bands.len(),
    ensures
        0 < z < bands.len() - 1 ==> tone_window(bands, z) == seq![bands[z - 1], bands[z], bands[z + 1]],
        z == 0 && bands.len() > 1 ==> tone_window(bands, z) == seq![bands[0], bands[1]],
        z > 0 && z == bands.len() - 1 ==> tone_window(bands, z) == seq![bands[z - 1], bands[z]],
        bands.len() == 1 ==> tone_window(bands, z) == seq![bands[0]],
{
    let w = tone_window(bands, z);
    if 0 < z < bands.len() - 1 {
        assert(w =~= seq![bands[z - 1], bands[z], bands[z + 1]]);
    } else if z > 0 {
        assert(w =~= seq![bands[z - 1], bands[z]]);
    } else if bands.len() > 1 {
        assert(w =~= seq![bands[0], bands[1]]);
    } else {
        assert(w =~= seq![bands[0]]);
    }
}

/// Bins of the same band share a threshold, up to their floors: it comes from the excitation and
/// the tonality of their band.
pub proof fn law_bins_take_the_threshold_of_their_band<T>(
    m: MaskingModel<T>,
    power: Seq<T>,
    sample_rate: u32,
    floor: Seq<T>,
    k: int,
)
    requires
        0 <= k < power.len() <= floor.len(),
    ensures
        ({
            let z = band_of(k, sample_rate as int, power.len() as int);
            let bands = m.bands(power, sample_rate);
            &&& bands.len() == 24
            &&& m.threshold(power, sample_rate, floor).len() == power.len()
            &&& m.threshold(power, sample_rate, floor)[k] == (m.highest)(
                (m.weigh)(
                    excitation(bands, z, 24, m.zero, m.silent, m.spread),
                    (m.tone)(tone_window(bands, z)),
                ),
                floor[k],
            )
        }),
{
}

/// Every frame is analyzed: row `i` of an analysis holds the thresholds of the frame that starts
/// at sample `512 * i`, one for each of the 513 bins, from the first frame to the last.
pub proof fn law_every_frame_is_analyzed<S, T, F: Fn(&Vec<S>) -> Vec<T>>(
    a: PsychoacousticAnalysis<T>,
    signal: Seq<S>,
    sample_rate: u32,
    zero: S,
    threshold: F,
    t: spec_fn(Seq<S>) -> Seq<T>,
    i: int,
)
    requires
        a.analyzes(signal, sample_rate, zero, threshold),
        reads_list(threshold, t),
        0 <= i < frame_count(signal.len()),
    ensures
        a.num_bins == 513,
        a.sample_rate == sample_rate,
        a.thresholds@.len() == frame_count(signal.len()),
        a.thresholds@[i]@.len() == 513,
        a.thresholds@[i]@ == t(frame_from(signal, 512 * i, zero)),
{
}

/// The power of a band is the mean of its bins, however few there are, and zero without bins.
pub proof fn law_bands_have_the_mean_of_their_bins<T>(
    m: MaskingModel<T>,
    power: Seq<T>,
    sample_rate: u32,
    z: int,
)
    requires
        0 <= z < 24,
    ensures
        ({
            let n = power.len() as int;
            let bins = band_size(sample_rate as int, n, z, n);
            let sum = band_sum(power, sample_rate as int, n, z, n, m.zero, m.plus);
            &&& bins >= 1 ==> m.bands(power, sample_rate)[z] == (m.mean)(sum, bins as usize)
            &&& bins < 1 ==> m.bands(power, sample_rate)[z] == m.zero
        }),
{
}

} // verus!

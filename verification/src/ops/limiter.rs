//! Oversampled true-peak limiter.
//!
//! 1. Band-limited 4x upsampling estimates the peaks between samples.
//! 2. The gain that keeps each oversampled peak at the ceiling.
//! 3. A sliding minimum spreads that gain ahead, so that attenuation starts before the peak.
//! 4. A forward pass with instant attack and controlled release.
//! 5. The same gain curve is applied to every channel, which keeps their balance.
//!
//! Gains are bit patterns of non-negative numbers, whose order is the order of their bits.
use std::collections::VecDeque;
use vstd::prelude::*;
use crate::audio::buffer::{AudioBuffer, planar, rectangular};
use crate::closures::{accepts1, accepts2, accepts3, computes1, computes2, computes3};
use crate::config::LimiterCharacter;
use crate::level::Level;

verus! {

/// Oversampling factor of the peak detector.
pub const OVERSAMPLE: usize = 4;

/// Taps per branch of the interpolator.
pub const FIR_TAPS_PER_PHASE: usize = 12;

/// The bits of the gain 1.
pub const UNITY: u64 = 0x3FF0_0000_0000_0000;

/// How the limiter is asked to behave. So far it behaves in one way whatever is asked: a fixed
/// release rate, no soft clipping, and one envelope for all channels.
#[derive(Clone, Copy, Debug, PartialEq, Eq, Structural)]
pub struct LimiterOptions {
    pub character: LimiterCharacter,
    pub soft_clip: bool,
    pub link_channels: bool,
}

// ---------------------------------------------------------------------------
// Sliding minimum.
// ---------------------------------------------------------------------------

/// `m` is the least of `values[lo..hi]`.
pub open spec fn is_least(values: Seq<u64>, lo: int, hi: int, m: u64) -> bool {
    &&& exists|k: int| lo <= k < hi && #[trigger] values[k] == m
    &&& forall|k: int| lo <= k < hi ==> m <= #[trigger] values[k]
}

/// The first index of the window of `window` values that ends with index `i`.
pub open spec fn window_start(i: int, window: int) -> int {
    let w = if window < 1 {
        1
    } else {
        window
    };
    if i + 1 - w < 0 {
        0
    } else {
        i + 1 - w
    }
}

/// The index after the last one of the window of `window` values that starts at index `i`,
/// among `n` values.
pub open spec fn window_end(i: int, window: int, n: int) -> int {
    let w = if window < 1 {
        1
    } else {
        window
    };
    if i + w > n {
        n
    } else {
        i + w
    }
}

/// The indices increase, and so do their values.
spec fn ascending(d: Seq<usize>, values: Seq<u64>) -> bool {
    forall|a: int, b: int|
        0 <= a < b < d.len() ==> (#[trigger] d[a] < #[trigger] d[b] && values[d[a] as int]
            < values[d[b] as int])
}

/// All indices lie in `lo..hi`.
spec fn inside(d: Seq<usize>, lo: int, hi: int) -> bool {
    forall|a: int| 0 <= a < d.len() ==> lo <= #[trigger] d[a] < hi
}

/// Some index of `d`, not before `k`, has a value not above that of `k`.
spec fn covered(d: Seq<usize>, values: Seq<u64>, k: int) -> bool {
    exists|a: int| 0 <= a < d.len() && k <= #[trigger] d[a] && values[d[a] as int] <= values[k]
}

proof fn lemma_front_leaves(d: Seq<usize>, values: Seq<u64>, k: int)
    requires
        d.len() > 0,
        covered(d, values, k),
        d[0] < k,
    ensures
        covered(d.skip(1), values, k),
{
    let a = choose|a: int| 0 <= a < d.len() && k <= #[trigger] d[a] && values[d[a] as int] <= values[k];
    assert(d.skip(1)[a - 1] == d[a]);
}

proof fn lemma_back_leaves(d: Seq<usize>, values: Seq<u64>, k: int, v: u64)
    requires
        d.len() > 0,
        covered(d, values, k),
        values[d.last() as int] >= v,
    ensures
        v <= values[k] || covered(d.drop_last(), values, k),
{
    let a = choose|a: int| 0 <= a < d.len() && k <= #[trigger] d[a] && values[d[a] as int] <= values[k];
    if a < d.len() - 1 {
        assert(d.drop_last()[a] == d[a]);
    }
}

proof fn lemma_index_enters(d: Seq<usize>, values: Seq<u64>, k: int, i: usize)
    requires
        k <= i,
        values[i as int] <= values[k] || covered(d, values, k),
    ensures
        covered(d.push(i), values, k),
{
    if values[i as int] <= values[k] {
        assert(d.push(i)[d.len() as int] == i);
    } else {
        let a = choose|a: int| 0 <= a < d.len() && k <= #[trigger] d[a] && values[d[a] as int] <= values[k];
        assert(d.push(i)[a] == d[a]);
    }
}

proof fn lemma_front_is_least(d: Seq<usize>, values: Seq<u64>, lo: int, hi: int)
    requires
        d.len() > 0,
        ascending(d, values),
        inside(d, lo, hi),
        forall|k: int| lo <= k < hi ==> #[trigger] covered(d, values, k),
    ensures
        is_least(values, lo, hi, values[d[0] as int]),
{
    let m = values[d[0] as int];
    assert forall|k: int| lo <= k < hi implies m <= #[trigger] values[k] by {
        assert(covered(d, values, k));
        let a = choose|a: int|
            0 <= a < d.len() && k <= #[trigger] d[a] && values[d[a] as int] <= values[k];
        if a > 0 {
            assert(d[0] < d[a]);
        }
    }
}

/// Sliding minimum over the window that ends at each value, in linear time.
///
/// `result[i] = min(values[max(0, i - window + 1) ..= i])`
pub fn sliding_min_backward(values: &Vec<u64>, window: usize) -> (result: Vec<u64>)
    ensures
        result@.len() == values@.len(),
        forall|i: int|
            0 <= i < values@.len() ==> is_least(
                values@,
                window_start(i, window as int),
                i + 1,
                #[trigger] result@[i],
            ),
{
    let n = values.len();
    let mut result: Vec<u64> = Vec::new();
    let mut deque: VecDeque<usize> = VecDeque::new();
    let mut i: usize = 0;
    while i < n
        invariant
            n == values@.len(),
            i <= n,
            result@.len() == i,
            ascending(deque@, values@),
            inside(deque@, window_start(i - 1, window as int), i as int),
            forall|k: int|
                window_start(i - 1, window as int) <= k < i ==> #[trigger] covered(deque@, values@, k),
            forall|j: int|
                0 <= j < i ==> is_least(
                    values@,
                    window_start(j, window as int),
                    j + 1,
                    #[trigger] result@[j],
                ),
        decreases n - i,
    {
        let ghost lo = window_start(i as int, window as int);
        // Indices that have fallen out of the window leave at the front.
        while deque.len() > 0 && i - deque[0] >= window
            invariant
                n == values@.len(),
                i < n,
                lo == window_start(i as int, window as int),
                ascending(deque@, values@),
                inside(deque@, 0, i as int),
                forall|k: int| lo <= k < i ==> #[trigger] covered(deque@, values@, k),
            decreases deque.len(),
        {
            let ghost before = deque@;
            let _ = deque.pop_front();
            proof {
                assert(deque@ =~= before.skip(1));
                assert forall|k: int| lo <= k < i implies #[trigger] covered(deque@, values@, k) by {
                    assert(covered(before, values@, k));
                    lemma_front_leaves(before, values@, k);
                }
            }
        }
        assert(inside(deque@, lo, i as int)) by {
            assert forall|a: int| 0 <= a < deque@.len() implies lo <= #[trigger] deque@[a] < i by {
                if a > 0 {
                    assert(deque@[0] < deque@[a]);
                }
            }
        }
        // Larger values can no longer be a minimum once this one is in the window.
        while deque.len() > 0 && values[deque[deque.len() - 1]] >= values[i]
            invariant
                n == values@.len(),
                i < n,
                ascending(deque@, values@),
                0 <= lo,
                inside(deque@, lo, i as int),
                forall|k: int|
                    lo <= k < i ==> values@[i as int] <= values@[k] || #[trigger] covered(
                        deque@,
                        values@,
                        k,
                    ),
            decreases deque.len(),
        {
            let ghost before = deque@;
            let _ = deque.pop_back();
            proof {
                assert(deque@ =~= before.drop_last());
                assert forall|k: int| lo <= k < i implies values@[i as int] <= values@[k]
                    || #[trigger] covered(deque@, values@, k) by {
                    if values@[i as int] > values@[k] {
                        assert(covered(before, values@, k));
                        lemma_back_leaves(before, values@, k, values@[i as int]);
                    }
                }
            }
        }
        let ghost before = deque@;
        deque.push_back(i);
        let least = values[deque[0]];
        proof {
            assert(deque@ =~= before.push(i));
            assert forall|a: int, b: int| 0 <= a < b < deque@.len() implies (#[trigger] deque@[a]
                < #[trigger] deque@[b] && values@[deque@[a] as int] < values@[deque@[b] as int]) by {
                if b == before.len() {
                    if a < before.len() - 1 {
                        assert(before[a] < before[before.len() - 1]);
                    }
                } else {
                    assert(before[a] < before[b]);
                }
            }
            assert forall|k: int| lo <= k < i + 1 implies #[trigger] covered(deque@, values@, k) by {
                if k < i {
                    assert(values@[i as int] <= values@[k] || covered(before, values@, k));
                }
                lemma_index_enters(before, values@, k, i);
            }
            lemma_front_is_least(deque@, values@, lo, i + 1);
        }
        result.push(least);
        i = i + 1;
    }
    result
}

/// The values in reverse order.
fn reversed(values: &Vec<u64>) -> (r: Vec<u64>)
    ensures
        r@ == values@.reverse(),
{
    let mut r: Vec<u64> = Vec::new();
    let mut i: usize = values.len();
    while i > 0
        invariant
            i <= values@.len(),
            r@.len() == values@.len() - i,
            forall|k: int| 0 <= k < r@.len() ==> r@[k] == values@[values@.len() - 1 - k],
        decreases i,
    {
        i = i - 1;
        r.push(values[i]);
    }
    assert(r@ =~= values@.reverse());
    r
}

/// Sliding minimum over the window that starts at each value, in linear time.
///
/// `result[i] = min(values[i .. min(i + window, n)])`
pub fn sliding_min_forward(values: &Vec<u64>, window: usize) -> (result: Vec<u64>)
    ensures
        result@.len() == values@.len(),
        forall|i: int|
            0 <= i < values@.len() ==> is_least(
                values@,
                i,
                window_end(i, window as int, values@.len() as int),
                #[trigger] result@[i],
            ),
{
    let rev = reversed(values);
    let bwd = sliding_min_backward(&rev, window);
    let result = reversed(&bwd);
    proof {
        let n = values@.len() as int;
        assert forall|i: int| 0 <= i < n implies is_least(
            values@,
            i,
            window_end(i, window as int, n),
            #[trigger] result@[i],
        ) by {
            let j = n - 1 - i;
            let m = bwd@[j];
            assert(is_least(rev@, window_start(j, window as int), j + 1, m));
            let k = choose|k: int| window_start(j, window as int) <= k < j + 1 && #[trigger] rev@[k] == m;
            assert(values@[n - 1 - k] == m);
            assert forall|k: int| i <= k < window_end(i, window as int, n) implies m <= #[trigger] values@[k] by {
                assert(rev@[n - 1 - k] == values@[k]);
            }
        }
    }
    result
}

/// The least of `values[lo..hi]`.
pub open spec fn least(values: Seq<u64>, lo: int, hi: int) -> u64
    decreases hi - lo,
{
    if hi <= lo + 1 {
        values[lo]
    } else {
        let rest = least(values, lo, hi - 1);
        if values[hi - 1] < rest {
            values[hi - 1]
        } else {
            rest
        }
    }
}

proof fn lemma_least(values: Seq<u64>, lo: int, hi: int)
    requires
        lo < hi,
    ensures
        is_least(values, lo, hi, least(values, lo, hi)),
    decreases hi - lo,
{
    if hi > lo + 1 {
        lemma_least(values, lo, hi - 1);
        let m = least(values, lo, hi - 1);
        let k = choose|k: int| lo <= k < hi - 1 && #[trigger] values[k] == m;
        assert(values[hi - 1] < m || values[k] == m);
    } else {
        assert(values[lo] == least(values, lo, hi));
    }
}

/// A window has one least value.
pub proof fn law_least_is_unique(values: Seq<u64>, lo: int, hi: int, m: u64)
    requires
        lo < hi,
        is_least(values, lo, hi, m),
    ensures
        m == least(values, lo, hi),
{
    lemma_least(values, lo, hi);
}

// ---------------------------------------------------------------------------
// Oversampling.
// ---------------------------------------------------------------------------

/// The sum over the first `j` taps of `kernel` around sample `i`; samples beyond the edges
/// do not count. Tap `j` meets the sample `j - 5` places after `i`.
pub open spec fn tap_sum<S, K>(
    signal: Seq<S>,
    kernel: Seq<K>,
    i: int,
    j: int,
    zero: S,
    mac: spec_fn(S, S, K) -> S,
) -> S
    decreases j,
{
    if j <= 0 {
        zero
    } else {
        let acc = tap_sum(signal, kernel, i, j - 1, zero, mac);
        let at = i + (j - 1) - (FIR_TAPS_PER_PHASE / 2 - 1);
        if 0 <= at < signal.len() {
            mac(acc, signal[at], kernel[j - 1])
        } else {
            acc
        }
    }
}

/// The oversampled signal: position `4 * i + p` holds what branch `p` reconstructs after
/// sample `i`.
pub open spec fn oversampled<S, K>(
    signal: Seq<S>,
    kernels: Seq<Seq<K>>,
    zero: S,
    mac: spec_fn(S, S, K) -> S,
) -> Seq<S> {
    Seq::new(
        4 * signal.len(),
        |k: int| tap_sum(signal, kernels[k % 4], k / 4, kernels[k % 4].len() as int, zero, mac),
    )
}

/// One output of the interpolator.
fn interpolate<S: Copy, K: Copy, M: Fn(S, S, K) -> S>(
    signal: &Vec<S>,
    kernel: &Vec<K>,
    i: usize,
    zero: S,
    mac: &M,
) -> (r: S)
    requires
        accepts3(*mac),
        i < signal@.len(),
    ensures
        forall|m: spec_fn(S, S, K) -> S| computes3(*mac, m) ==> r == #[trigger] tap_sum(
            signal@,
            kernel@,
            i as int,
            kernel@.len() as int,
            zero,
            m,
        ),
{
    let n = signal.len();
    let mut acc = zero;
    let mut j: usize = 0;
    while j < kernel.len()
        invariant
            n == signal@.len(),
            i < n,
            j <= kernel@.len(),
            accepts3(*mac),
            forall|m: spec_fn(S, S, K) -> S| computes3(*mac, m) ==> acc == #[trigger] tap_sum(
                signal@,
                kernel@,
                i as int,
                j as int,
                zero,
                m,
            ),
        decreases kernel.len() - j,
    {
        let ghost before = acc;
        let back: usize = FIR_TAPS_PER_PHASE / 2 - 1;
        if j >= back {
            if j - back < n - i {
                acc = mac(acc, signal[i + (j - back)], kernel[j]);
            }
        } else if i >= back - j {
            acc = mac(acc, signal[i - (back - j)], kernel[j]);
        }
        proof {
            assert forall|m: spec_fn(S, S, K) -> S| computes3(*mac, m) implies acc
                == #[trigger] tap_sum(signal@, kernel@, i as int, j + 1, zero, m) by {
                assert(before == tap_sum(signal@, kernel@, i as int, j as int, zero, m));
            }
        }
        j = j + 1;
    }
    acc
}

/// 4x band-limited upsampling with one kernel per branch.
pub fn upsample_fir_4x<S: Copy, K: Copy, M: Fn(S, S, K) -> S>(
    signal: &Vec<S>,
    kernels: &Vec<Vec<K>>,
    zero: S,
    mac: &M,
) -> (out: Vec<S>)
    requires
        accepts3(*mac),
        kernels@.len() == OVERSAMPLE,
        4 * signal@.len() <= usize::MAX,
    ensures
        out@.len() == 4 * signal@.len(),
        forall|m: spec_fn(S, S, K) -> S| computes3(*mac, m) ==> out@ == #[trigger] oversampled(
            signal@,
            planar(kernels@),
            zero,
            m,
        ),
{
    let mut out: Vec<S> = Vec::new();
    let mut i: usize = 0;
    while i < signal.len()
        invariant
            accepts3(*mac),
            kernels@.len() == OVERSAMPLE,
            i <= signal@.len(),
            out@.len() == 4 * i,
            forall|m: spec_fn(S, S, K) -> S| computes3(*mac, m) ==> out@ == (#[trigger] oversampled(
                signal@,
                planar(kernels@),
                zero,
                m,
            )).take(4 * i),
        decreases signal.len() - i,
    {
        let mut p: usize = 0;
        while p < OVERSAMPLE
            invariant
                accepts3(*mac),
                kernels@.len() == OVERSAMPLE,
                i < signal@.len(),
                p <= OVERSAMPLE,
                out@.len() == 4 * i + p,
                forall|m: spec_fn(S, S, K) -> S| computes3(*mac, m) ==> out@ == (#[trigger] oversampled(
                    signal@,
                    planar(kernels@),
                    zero,
                    m,
                )).take(4 * i + p),
            decreases OVERSAMPLE - p,
        {
            let v = interpolate(signal, &kernels[p], i, zero, mac);
            out.push(v);
            proof {
                let k = 4 * i + p;
                assert(k % 4 == p && k / 4 == i);
                assert forall|m: spec_fn(S, S, K) -> S| computes3(*mac, m) implies out@ == (
                #[trigger] oversampled(signal@, planar(kernels@), zero, m)).take(k + 1) by {
                    let whole = oversampled(signal@, planar(kernels@), zero, m);
                    assert(whole[k] == tap_sum(
                        signal@,
                        kernels@[p as int]@,
                        i as int,
                        kernels@[p as int]@.len() as int,
                        zero,
                        m,
                    ));
                    assert(whole.take(k + 1) =~= whole.take(k).push(whole[k]));
                }
            }
            p = p + 1;
        }
        i = i + 1;
    }
    proof {
        assert forall|m: spec_fn(S, S, K) -> S| computes3(*mac, m) implies out@
            == #[trigger] oversampled(signal@, planar(kernels@), zero, m) by {
            let whole = oversampled(signal@, planar(kernels@), zero, m);
            assert(whole.take(4 * signal@.len() as int) =~= whole);
        }
    }
    out
}

// ---------------------------------------------------------------------------
// The gain curve.
// ---------------------------------------------------------------------------

/// The largest magnitude at position `k` over the first `c` signals.
pub open spec fn peak_at(signals: Seq<Seq<Level>>, k: int, c: int) -> Level
    decreases c,
{
    if c <= 0 {
        Level { bits: 0 }
    } else {
        peak_at(signals, k, c - 1).larger(signals[c - 1][k].absolute())
    }
}

/// The gain that brings a peak down to the ceiling: 1 below it, `ratio(p)` above it.
pub open spec fn instant_gain(p: Level, ceiling: Level, ratio: spec_fn(Level) -> Level) -> u64 {
    if ceiling.below(p) {
        ratio(p).bits
    } else {
        UNITY
    }
}

/// The gain curve after look-ahead.
pub open spec fn look_ahead_gains(gains: Seq<u64>, window: int) -> Seq<u64> {
    Seq::new(
        gains.len(),
        |i: int| least(gains, i, window_end(i, window, gains.len() as int)),
    )
}

/// The gain at position `i` after attack and release: reduction is immediate, recovery goes
/// one `release` step at a time and ends at 1.
pub open spec fn smoothed(targets: Seq<u64>, release: spec_fn(u64) -> u64, i: int) -> u64
    decreases i,
{
    if i <= 0 {
        targets[0]
    } else {
        let prev = smoothed(targets, release, i - 1);
        if targets[i] <= prev {
            targets[i]
        } else if release(prev) < UNITY {
            release(prev)
        } else {
            UNITY
        }
    }
}

/// The look-ahead in oversampled frames: one millisecond, rounded, and at least one.
pub open spec fn look_ahead_of(sample_rate: u32) -> int {
    let frames = (4 * sample_rate + 500) / 1000;
    if frames < 1 {
        1
    } else {
        frames
    }
}

/// The look-ahead in oversampled frames.
pub fn look_ahead_frames(sample_rate: u32) -> (r: usize)
    ensures
        r == look_ahead_of(sample_rate),
{
    let frames: u64 = (4 * (sample_rate as u64) + 500) / 1000;
    if frames < 1 {
        1
    } else {
        frames as usize
    }
}

/// Attack and release: the smoothed gain curve for the given targets.
pub fn smooth_gains<R: Fn(u64) -> u64>(targets: &Vec<u64>, release: &R) -> (r: Vec<u64>)
    requires
        accepts1(*release),
    ensures
        r@.len() == targets@.len(),
        forall|rel: spec_fn(u64) -> u64, i: int|
            computes1(*release, rel) && 0 <= i < targets@.len() ==> r@[i] == #[trigger] smoothed(
                targets@,
                rel,
                i,
            ),
{
    let mut r: Vec<u64> = Vec::new();
    let mut i: usize = 0;
    while i < targets.len()
        invariant
            accepts1(*release),
            i <= targets@.len(),
            r@.len() == i,
            forall|rel: spec_fn(u64) -> u64, k: int|
                computes1(*release, rel) && 0 <= k < i ==> r@[k] == #[trigger] smoothed(
                    targets@,
                    rel,
                    k,
                ),
        decreases targets.len() - i,
    {
        let target = targets[i];
        let next: u64 = if i == 0 {
            target
        } else {
            let prev = r[i - 1];
            if target <= prev {
                target
            } else {
                let recovered = release(prev);
                if recovered < UNITY {
                    recovered
                } else {
                    UNITY
                }
            }
        };
        proof {
            assert forall|rel: spec_fn(u64) -> u64| computes1(*release, rel) implies next
                == #[trigger] smoothed(targets@, rel, i as int) by {
                if i > 0 {
                    assert(r@[i - 1] == smoothed(targets@, rel, i - 1));
                }
            }
        }
        r.push(next);
        i = i + 1;
    }
    r
}

/// The oversampled figures of every channel.
pub open spec fn oversampled_levels<S, K>(
    samples: Seq<Seq<S>>,
    kernels: Seq<Seq<K>>,
    zero: S,
    mac: spec_fn(S, S, K) -> S,
    value: spec_fn(S) -> Level,
) -> Seq<Seq<Level>> {
    Seq::new(
        samples.len(),
        |c: int|
            {
                let up = oversampled(samples[c], kernels, zero, mac);
                Seq::new(up.len(), |k: int| value(up[k]))
            },
    )
}

/// The combined peak envelope of all channels, `n` frames long before oversampling.
pub open spec fn envelope_of<S, K>(
    samples: Seq<Seq<S>>,
    n: nat,
    kernels: Seq<Seq<K>>,
    zero: S,
    mac: spec_fn(S, S, K) -> S,
    value: spec_fn(S) -> Level,
) -> Seq<Level> {
    let signals = oversampled_levels(samples, kernels, zero, mac, value);
    Seq::new(4 * n, |k: int| peak_at(signals, k, samples.len() as int))
}

/// The targets of the gain curve for a peak envelope.
pub open spec fn gain_targets(
    envelope: Seq<Level>,
    sample_rate: u32,
    ceiling: Level,
    ratio: spec_fn(Level) -> Level,
) -> Seq<u64> {
    let gains = Seq::new(
        envelope.len(),
        |k: int| instant_gain(envelope[k], ceiling, ratio),
    );
    look_ahead_gains(gains, look_ahead_of(sample_rate))
}

/// The samples after limiting: one gain curve, applied to every channel.
pub open spec fn limited<S, K>(
    samples: Seq<Seq<S>>,
    n: nat,
    sample_rate: u32,
    kernels: Seq<Seq<K>>,
    zero: S,
    mac: spec_fn(S, S, K) -> S,
    value: spec_fn(S) -> Level,
    ceiling: Level,
    ratio: spec_fn(Level) -> Level,
    release: spec_fn(u64) -> u64,
    scale: spec_fn(S, u64) -> S,
) -> Seq<Seq<S>> {
    let targets = gain_targets(
        envelope_of(samples, n, kernels, zero, mac, value),
        sample_rate,
        ceiling,
        ratio,
    );
    Seq::new(
        samples.len(),
        |c: int|
            Seq::new(
                samples[c].len(),
                |i: int| scale(samples[c][i], smoothed(targets, release, 4 * i)),
            ),
    )
}

/// The combined peak envelope of all channels.
fn peak_envelope<S: Copy, K: Copy, M: Fn(S, S, K) -> S, V: Fn(S) -> Level>(
    channels: &Vec<Vec<S>>,
    n: usize,
    kernels: &Vec<Vec<K>>,
    zero: S,
    mac: &M,
    value: &V,
) -> (envelope: Vec<Level>)
    requires
        accepts3(*mac),
        accepts1(*value),
        kernels@.len() == OVERSAMPLE,
        4 * n <= usize::MAX,
        rectangular(planar(channels@), n as nat),
    ensures
        envelope@.len() == 4 * n,
        forall|m: spec_fn(S, S, K) -> S, v: spec_fn(S) -> Level|
            computes3(*mac, m) && computes1(*value, v) ==> envelope@ == #[trigger] envelope_of(
                planar(channels@),
                n as nat,
                planar(kernels@),
                zero,
                m,
                v,
            ),
{
    let ghost samples = planar(channels@);
    let ghost taps = planar(kernels@);
    let mut envelope: Vec<Level> = Vec::new();
    let mut k: usize = 0;
    while k < 4 * n
        invariant
            k <= 4 * n <= usize::MAX,
            envelope@.len() == k,
            forall|j: int| 0 <= j < k ==> envelope@[j] == (Level { bits: 0 }),
        decreases 4 * n - k,
    {
        envelope.push(Level { bits: 0 });
        k = k + 1;
    }
    let mut c: usize = 0;
    while c < channels.len()
        invariant
            accepts3(*mac),
            accepts1(*value),
            kernels@.len() == OVERSAMPLE,
            4 * n <= usize::MAX,
            samples == planar(channels@),
            taps == planar(kernels@),
            rectangular(samples, n as nat),
            c <= channels@.len(),
            envelope@.len() == 4 * n,
            forall|m: spec_fn(S, S, K) -> S, v: spec_fn(S) -> Level, j: int|
                computes3(*mac, m) && computes1(*value, v) && 0 <= j < 4 * n ==> envelope@[j]
                    == #[trigger] peak_at(
                    oversampled_levels(samples, taps, zero, m, v),
                    j,
                    c as int,
                ),
        decreases channels.len() - c,
    {
        assert(samples[c as int].len() == n);
        let up = upsample_fir_4x(&channels[c], kernels, zero, mac);
        let ghost before = envelope@;
        let mut k: usize = 0;
        while k < 4 * n
            invariant
                accepts1(*value),
                k <= 4 * n <= usize::MAX,
                up@.len() == 4 * n,
                samples == planar(channels@),
                taps == planar(kernels@),
                c < channels@.len(),
                samples[c as int] == channels@[c as int]@,
                envelope@.len() == 4 * n,
                before.len() == 4 * n,
                forall|m: spec_fn(S, S, K) -> S| computes3(*mac, m) ==> up@ == #[trigger] oversampled(
                    samples[c as int],
                    taps,
                    zero,
                    m,
                ),
                forall|j: int| k <= j < 4 * n ==> envelope@[j] == before[j],
                forall|m: spec_fn(S, S, K) -> S, v: spec_fn(S) -> Level, j: int|
                    computes3(*mac, m) && computes1(*value, v) && 0 <= j < 4 * n ==> before[j]
                        == #[trigger] peak_at(
                        oversampled_levels(samples, taps, zero, m, v),
                        j,
                        c as int,
                    ),
                forall|m: spec_fn(S, S, K) -> S, v: spec_fn(S) -> Level, j: int|
                    computes3(*mac, m) && computes1(*value, v) && 0 <= j < k ==> envelope@[j]
                        == #[trigger] peak_at(
                        oversampled_levels(samples, taps, zero, m, v),
                        j,
                        c + 1,
                    ),
            decreases 4 * n - k,
        {
            let l: Level = value(up[k]);
            let next = envelope[k].max(l.abs());
            proof {
                assert forall|m: spec_fn(S, S, K) -> S, v: spec_fn(S) -> Level|
                    computes3(*mac, m) && computes1(*value, v) implies next == #[trigger] peak_at(
                    oversampled_levels(samples, taps, zero, m, v),
                    k as int,
                    c + 1,
                ) by {
                    assert(before[k as int] == peak_at(
                        oversampled_levels(samples, taps, zero, m, v),
                        k as int,
                        c as int,
                    ));
                    assert(up@ == oversampled(samples[c as int], taps, zero, m));
                    assert(oversampled_levels(samples, taps, zero, m, v)[c as int][k as int] == l);
                }
            }
            envelope.set(k, next);
            k = k + 1;
        }
        c = c + 1;
    }
    proof {
        assert forall|m: spec_fn(S, S, K) -> S, v: spec_fn(S) -> Level|
            computes3(*mac, m) && computes1(*value, v) implies envelope@ == #[trigger] envelope_of(
            samples,
            n as nat,
            taps,
            zero,
            m,
            v,
        ) by {
            let whole = envelope_of(samples, n as nat, taps, zero, m, v);
            assert forall|j: int| 0 <= j < 4 * n implies envelope@[j] == whole[j] by {
                assert(envelope@[j] == peak_at(
                    oversampled_levels(samples, taps, zero, m, v),
                    j,
                    channels@.len() as int,
                ));
            }
            assert(envelope@ =~= whole);
        }
    }
    envelope
}

/// The targets of the gain curve for a peak envelope.
fn targets_for<Q: Fn(Level) -> Level>(
    envelope: &Vec<Level>,
    sample_rate: u32,
    ceiling: Level,
    ratio: &Q,
) -> (targets: Vec<u64>)
    requires
        accepts1(*ratio),
    ensures
        targets@.len() == envelope@.len(),
        forall|q: spec_fn(Level) -> Level| computes1(*ratio, q) ==> targets@ == #[trigger] gain_targets(
            envelope@,
            sample_rate,
            ceiling,
            q,
        ),
{
    let mut gains: Vec<u64> = Vec::new();
    let mut k: usize = 0;
    while k < envelope.len()
        invariant
            accepts1(*ratio),
            k <= envelope@.len(),
            gains@.len() == k,
            forall|q: spec_fn(Level) -> Level, j: int|
                computes1(*ratio, q) && 0 <= j < k ==> gains@[j] == #[trigger] instant_gain(
                    envelope@[j],
                    ceiling,
                    q,
                ),
        decreases envelope.len() - k,
    {
        let p = envelope[k];
        let g: u64 = if ceiling.is_below(p) {
            let l: Level = ratio(p);
            l.bits
        } else {
            UNITY
        };
        gains.push(g);
        k = k + 1;
    }
    let targets = sliding_min_forward(&gains, look_ahead_frames(sample_rate));
    proof {
        let window = look_ahead_of(sample_rate);
        let n = gains@.len() as int;
        assert(targets@ =~= look_ahead_gains(gains@, window)) by {
            assert forall|i: int| 0 <= i < n implies targets@[i] == look_ahead_gains(gains@, window)[i] by {
                assert(is_least(gains@, i, window_end(i, window, n), targets@[i]));
                law_least_is_unique(gains@, i, window_end(i, window, n), targets@[i]);
            }
        }
        assert forall|q: spec_fn(Level) -> Level| computes1(*ratio, q) implies targets@
            == #[trigger] gain_targets(envelope@, sample_rate, ceiling, q) by {
            let all = Seq::new(
                envelope@.len(),
                |k: int| instant_gain(envelope@[k], ceiling, q),
            );
            assert forall|j: int| 0 <= j < n implies gains@[j] == all[j] by {
                assert(gains@[j] == instant_gain(envelope@[j], ceiling, q));
            }
            assert(gains@ =~= all);
        }
    }
    targets
}

/// Apply the limiter in place.
///
/// The caller hands in the kernels of the interpolator and the arithmetic on samples:
/// `mac(a, s, t)` is `a + s * t`, `value` the bits of a sample, `ratio(p)` the quotient of
/// the ceiling and `p`, `release(g)` one recovery step, `scale(s, g)` the sample `s` at gain
/// `g`. `ceiling` is the linear ceiling.
pub fn apply_true_peak_limit<
    S: Copy,
    K: Copy,
    M: Fn(S, S, K) -> S,
    V: Fn(S) -> Level,
    Q: Fn(Level) -> Level,
    R: Fn(u64) -> u64,
    G: Fn(S, u64) -> S,
>(
    buffer: &mut AudioBuffer<S>,
    kernels: &Vec<Vec<K>>,
    zero: S,
    mac: &M,
    value: &V,
    ceiling: Level,
    ratio: &Q,
    release: &R,
    scale: &G,
)
    requires
        accepts3(*mac),
        accepts1(*value),
        accepts1(*ratio),
        accepts1(*release),
        accepts2(*scale),
        kernels@.len() == OVERSAMPLE,
        old(buffer).well_formed(),
        4 * old(buffer).frames() <= usize::MAX,
    ensures
        final(buffer).sample_rate == old(buffer).sample_rate,
        final(buffer).src_info == old(buffer).src_info,
        final(buffer).out_format == old(buffer).out_format,
        final(buffer).well_formed(),
        forall|
            m: spec_fn(S, S, K) -> S,
            v: spec_fn(S) -> Level,
            q: spec_fn(Level) -> Level,
            rel: spec_fn(u64) -> u64,
            g: spec_fn(S, u64) -> S,
        |
            computes3(*mac, m) && computes1(*value, v) && computes1(*ratio, q) && computes1(
                *release,
                rel,
            ) && computes2(*scale, g) ==> final(buffer).samples() == #[trigger] limited(
                old(buffer).samples(),
                old(buffer).frames(),
                old(buffer).sample_rate,
                planar(kernels@),
                zero,
                m,
                v,
                ceiling,
                q,
                rel,
                g,
            ),
{
    let n = buffer.frame_len();
    let ghost samples = buffer.samples();
    let ghost taps = planar(kernels@);
    if n == 0 {
        proof {
            assert forall|
                m: spec_fn(S, S, K) -> S,
                v: spec_fn(S) -> Level,
                q: spec_fn(Level) -> Level,
                rel: spec_fn(u64) -> u64,
                g: spec_fn(S, u64) -> S,
            |
                samples == #[trigger] limited(
                    samples,
                    0,
                    buffer.sample_rate,
                    taps,
                    zero,
                    m,
                    v,
                    ceiling,
                    q,
                    rel,
                    g,
                ) by {
                let whole = limited(
                    samples,
                    0,
                    buffer.sample_rate,
                    taps,
                    zero,
                    m,
                    v,
                    ceiling,
                    q,
                    rel,
                    g,
                );
                assert forall|c: int| 0 <= c < samples.len() implies samples[c] == whole[c] by {
                    assert(samples[c].len() == 0);
                    assert(samples[c] =~= whole[c]);
                }
                assert(samples =~= whole);
            }
        }
        return;
    }
    let envelope = peak_envelope(&buffer.channels, n, kernels, zero, mac, value);
    let targets = targets_for(&envelope, buffer.sample_rate, ceiling, ratio);
    let curve = smooth_gains(&targets, release);
    let mut out: Vec<Vec<S>> = Vec::new();
    let mut c: usize = 0;
    while c < buffer.channels.len()
        invariant
            accepts2(*scale),
            c <= buffer.channels@.len(),
            samples == planar(buffer.channels@),
            rectangular(samples, n as nat),
            curve@.len() == 4 * n,
            4 * n <= usize::MAX,
            out@.len() == c,
            forall|d: int|
                0 <= d < c ==> #[trigger] out@[d]@.len() == n && forall|g: spec_fn(S, u64) -> S, i: int|
                    computes2(*scale, g) && 0 <= i < n ==> out@[d]@[i] == #[trigger] g(
                        samples[d][i],
                        curve@[4 * i],
                    ),
        decreases buffer.channels.len() - c,
    {
        assert(samples[c as int].len() == n);
        let mut channel: Vec<S> = Vec::new();
        let mut i: usize = 0;
        while i < n
            invariant
                accepts2(*scale),
                i <= n,
                c < buffer.channels@.len(),
                samples[c as int] == buffer.channels@[c as int]@,
                samples[c as int].len() == n,
                curve@.len() == 4 * n,
                4 * n <= usize::MAX,
                channel@.len() == i,
                forall|g: spec_fn(S, u64) -> S, k: int|
                    computes2(*scale, g) && 0 <= k < i ==> channel@[k] == #[trigger] g(
                        samples[c as int][k],
                        curve@[4 * k],
                    ),
            decreases n - i,
        {
            channel.push(scale(buffer.channels[c][i], curve[4 * i]));
            i = i + 1;
        }
        out.push(channel);
        c = c + 1;
    }
    buffer.channels = out;
    proof {
        assert forall|
            m: spec_fn(S, S, K) -> S,
            v: spec_fn(S) -> Level,
            q: spec_fn(Level) -> Level,
            rel: spec_fn(u64) -> u64,
            g: spec_fn(S, u64) -> S,
        |
            computes3(*mac, m) && computes1(*value, v) && computes1(*ratio, q) && computes1(
                *release,
                rel,
            ) && computes2(*scale, g) implies buffer.samples() == #[trigger] limited(
            old(buffer).samples(),
            old(buffer).frames(),
            old(buffer).sample_rate,
            planar(kernels@),
            zero,
            m,
            v,
            ceiling,
            q,
            rel,
            g,
        ) by {
            assert(envelope@ == envelope_of(samples, n as nat, taps, zero, m, v));
            assert(targets@ == gain_targets(envelope@, buffer.sample_rate, ceiling, q));
            let whole = limited(
                samples,
                n as nat,
                buffer.sample_rate,
                taps,
                zero,
                m,
                v,
                ceiling,
                q,
                rel,
                g,
            );
            assert forall|d: int| 0 <= d < samples.len() implies buffer.samples()[d] == whole[d] by {
                assert(out@[d]@.len() == n);
                assert(samples[d].len() == n);
                assert forall|i: int| 0 <= i < n implies out@[d]@[i] == whole[d][i] by {
                    assert(curve@[4 * i] == smoothed(targets@, rel, 4 * i));
                    assert(out@[d]@[i] == g(samples[d][i], curve@[4 * i]));
                }
                assert(buffer.samples()[d] =~= whole[d]);
            }
            assert(buffer.samples() =~= whole);
        }
        assert forall|d: int| 0 <= d < buffer.samples().len() implies (
        #[trigger] buffer.samples()[d]).len() == buffer.frames() by {
            assert(out@[d]@.len() == n);
            assert(out@[0]@.len() == n);
        }
    }
}

// ---------------------------------------------------------------------------
// Laws.
// ---------------------------------------------------------------------------

/// A signal whose envelope stays at or below the ceiling keeps the gain 1 throughout.
pub proof fn law_quiet_signal_keeps_unity_gain(
    envelope: Seq<Level>,
    sample_rate: u32,
    ceiling: Level,
    ratio: spec_fn(Level) -> Level,
    release: spec_fn(u64) -> u64,
    i: int,
)
    requires
        forall|k: int| 0 <= k < envelope.len() ==> !ceiling.below(#[trigger] envelope[k]),
        0 <= i < envelope.len(),
    ensures
        smoothed(gain_targets(envelope, sample_rate, ceiling, ratio), release, i) == UNITY,
    decreases i,
{
    let gains = Seq::new(envelope.len(), |k: int| instant_gain(envelope[k], ceiling, ratio));
    let n = gains.len() as int;
    lemma_least(gains, i, window_end(i, look_ahead_of(sample_rate), n));
    if i > 0 {
        law_quiet_signal_keeps_unity_gain(envelope, sample_rate, ceiling, ratio, release, i - 1);
    }
}

/// The limiter never amplifies: where the ratios it is given are at most 1, so is every gain
/// of the curve.
pub proof fn law_gain_is_at_most_unity(
    envelope: Seq<Level>,
    sample_rate: u32,
    ceiling: Level,
    ratio: spec_fn(Level) -> Level,
    release: spec_fn(u64) -> u64,
    i: int,
)
    requires
        forall|p: Level| ceiling.below(p) ==> (#[trigger] ratio(p)).bits <= UNITY,
        0 <= i < envelope.len(),
    ensures
        smoothed(gain_targets(envelope, sample_rate, ceiling, ratio), release, i) <= UNITY,
    decreases i,
{
    let gains = Seq::new(envelope.len(), |k: int| instant_gain(envelope[k], ceiling, ratio));
    let n = gains.len() as int;
    lemma_least(gains, i, window_end(i, look_ahead_of(sample_rate), n));
    if i > 0 {
        law_gain_is_at_most_unity(envelope, sample_rate, ceiling, ratio, release, i - 1);
    }
}

/// The limiter never mutes or turns a signal over: where the ratios it is given are above 0 and
/// at most 1, and recovery leads from a gain above 0 to a gain above 0, every gain of the curve
/// is above 0 and at most 1. (The patterns of such numbers are ordered as the numbers are.)
pub proof fn law_gain_stays_positive(
    envelope: Seq<Level>,
    sample_rate: u32,
    ceiling: Level,
    ratio: spec_fn(Level) -> Level,
    release: spec_fn(u64) -> u64,
    i: int,
)
    requires
        forall|p: Level| ceiling.below(p) ==> 0 < (#[trigger] ratio(p)).bits <= UNITY,
        forall|g: u64| 0 < g <= UNITY ==> #[trigger] release(g) > 0,
        0 <= i < envelope.len(),
    ensures
        0 < smoothed(gain_targets(envelope, sample_rate, ceiling, ratio), release, i) <= UNITY,
    decreases i,
{
    let gains = Seq::new(envelope.len(), |k: int| instant_gain(envelope[k], ceiling, ratio));
    let n = gains.len() as int;
    let end = window_end(i, look_ahead_of(sample_rate), n);
    lemma_least(gains, i, end);
    let k = choose|k: int| i <= k < end && #[trigger] gains[k] == least(gains, i, end);
    assert(0 < gains[k] <= UNITY);
    if i > 0 {
        law_gain_stays_positive(envelope, sample_rate, ceiling, ratio, release, i - 1);
    }
}

/// Attenuation starts before the peak: within the look-ahead before a peak the target gain
/// is already at most the gain that the peak needs.
pub proof fn law_attenuation_starts_before_the_peak(
    envelope: Seq<Level>,
    sample_rate: u32,
    ceiling: Level,
    ratio: spec_fn(Level) -> Level,
    i: int,
    peak: int,
)
    requires
        0 <= i <= peak < envelope.len(),
        peak < i + look_ahead_of(sample_rate),
    ensures
        gain_targets(envelope, sample_rate, ceiling, ratio)[i] <= instant_gain(
            envelope[peak],
            ceiling,
            ratio,
        ),
{
    let gains = Seq::new(envelope.len(), |k: int| instant_gain(envelope[k], ceiling, ratio));
    lemma_least(gains, i, window_end(i, look_ahead_of(sample_rate), gains.len() as int));
    assert(gains[peak] == instant_gain(envelope[peak], ceiling, ratio));
}

/// The attack is instantaneous: wherever the target gain falls, the curve meets it at once.
pub proof fn law_attack_is_instantaneous(targets: Seq<u64>, release: spec_fn(u64) -> u64, i: int)
    requires
        0 <= i < targets.len(),
        i == 0 || targets[i] <= smoothed(targets, release, i - 1),
    ensures
        smoothed(targets, release, i) == targets[i],
{
}

/// The gain is low enough when a peak arrives: it is at most the gain that the peak needs, or
/// the curve is recovering there, from a gain below the one that the peak needs and by at most
/// one release step.
pub proof fn law_gain_is_low_enough_at_the_peak(
    envelope: Seq<Level>,
    sample_rate: u32,
    ceiling: Level,
    ratio: spec_fn(Level) -> Level,
    release: spec_fn(u64) -> u64,
    i: int,
)
    requires
        0 <= i < envelope.len(),
    ensures
        ({
            let targets = gain_targets(envelope, sample_rate, ceiling, ratio);
            let needed = instant_gain(envelope[i], ceiling, ratio);
            let gain = smoothed(targets, release, i);
            let before = smoothed(targets, release, i - 1);
            gain <= needed || (i > 0 && before < targets[i] <= needed && gain <= release(before))
        }),
{
    law_attenuation_starts_before_the_peak(envelope, sample_rate, ceiling, ratio, i, i);
}

/// The gain `g` is no more than what brings the peak `p` down to the ceiling, but for one
/// release step.
pub open spec fn brings_down(
    g: u64,
    p: Level,
    ceiling: Level,
    ratio: spec_fn(Level) -> Level,
    release: spec_fn(u64) -> u64,
) -> bool {
    let needed = instant_gain(p, ceiling, ratio);
    g <= needed || exists|before: u64| before < needed && g <= #[trigger] release(before)
}

/// No sample is left above the ceiling, but for one release step. `seen(x, p)` says that `p` is
/// no less than the sample `x`, and `held(y)` that `y` does not exceed the ceiling; the sizes
/// of both margins are those of the arithmetic that is handed in. The interpolator has to see
/// the samples themselves, a larger peak sees all that a smaller one sees, and a gain that
/// brings a peak down has to hold every sample that the peak sees.
pub proof fn law_limited_samples_are_held<S, K>(
    samples: Seq<Seq<S>>,
    n: nat,
    sample_rate: u32,
    kernels: Seq<Seq<K>>,
    zero: S,
    mac: spec_fn(S, S, K) -> S,
    value: spec_fn(S) -> Level,
    ceiling: Level,
    ratio: spec_fn(Level) -> Level,
    release: spec_fn(u64) -> u64,
    scale: spec_fn(S, u64) -> S,
    seen: spec_fn(S, Level) -> bool,
    held: spec_fn(S) -> bool,
    c: int,
    i: int,
)
    requires
        rectangular(samples, n),
        0 <= c < samples.len(),
        0 <= i < n,
        ({
            let at = value(oversampled(samples[c], kernels, zero, mac)[4 * i]);
            !at.nan() && seen(samples[c][i], at.absolute())
        }),
        forall|x: S, p: Level, q: Level|
            #[trigger] seen(x, p) && p.at_most(q) ==> #[trigger] seen(x, q),
        forall|x: S, p: Level, g: u64|
            #[trigger] seen(x, p) && brings_down(g, p, ceiling, ratio, release) ==> held(
                #[trigger] scale(x, g),
            ),
    ensures
        held(
            limited(
                samples,
                n,
                sample_rate,
                kernels,
                zero,
                mac,
                value,
                ceiling,
                ratio,
                release,
                scale,
            )[c][i],
        ),
{
    let signals = oversampled_levels(samples, kernels, zero, mac, value);
    let envelope = envelope_of(samples, n, kernels, zero, mac, value);
    let targets = gain_targets(envelope, sample_rate, ceiling, ratio);
    let k = 4 * i;
    assert(samples[c].len() == n);
    assert(signals[c][k] == value(oversampled(samples[c], kernels, zero, mac)[k]));
    lemma_peak_covers(signals, k, samples.len() as int, c);
    assert(seen(samples[c][i], signals[c][k].absolute()));
    assert(seen(samples[c][i], envelope[k]));
    law_gain_is_low_enough_at_the_peak(envelope, sample_rate, ceiling, ratio, release, k);
    let gain = smoothed(targets, release, k);
    let before = smoothed(targets, release, k - 1);
    assert(brings_down(gain, envelope[k], ceiling, ratio, release)) by {
        if gain > instant_gain(envelope[k], ceiling, ratio) {
            assert(gain <= release(before));
        }
    }
    assert(held(scale(samples[c][i], gain)));
}

/// The combined peak is a number, and no channel that has one exceeds it.
proof fn lemma_peak_covers(signals: Seq<Seq<Level>>, k: int, c: int, j: int)
    requires
        0 <= c,
    ensures
        !peak_at(signals, k, c).nan(),
        0 <= j < c && !signals[j][k].nan() ==> signals[j][k].absolute().at_most(
            peak_at(signals, k, c),
        ),
    decreases c,
{
    if c > 0 {
        lemma_peak_covers(signals, k, c - 1, j);
    }
}

/// The gain is no lower than it has to be: some target up to here accounts for it, raised by
/// the recovery since then. So a gain below 1 goes back to a peak, and it does not outlast it.
pub proof fn law_gain_is_no_lower_than_needed(
    targets: Seq<u64>,
    release: spec_fn(u64) -> u64,
    step: nat,
    i: int,
)
    requires
        forall|g: u64| g < UNITY ==> #[trigger] release(g) >= g + step,
        forall|k: int| 0 <= k < targets.len() ==> #[trigger] targets[k] <= UNITY,
        0 <= i < targets.len(),
    ensures
        exists|j: int|
            0 <= j <= i && {
                ||| smoothed(targets, release, i) >= 0x3FF0_0000_0000_0000
                ||| smoothed(targets, release, i) >= #[trigger] targets[j] + step * (i - j)
            },
    decreases i,
{
    let gain = smoothed(targets, release, i);
    if i == 0 || targets[i] <= smoothed(targets, release, i - 1) {
        assert(gain >= targets[i] + step * (i - i)) by {
            assert(step * 0 == 0) by (nonlinear_arith);
        }
    } else {
        law_gain_is_no_lower_than_needed(targets, release, step, i - 1);
        let prev = smoothed(targets, release, i - 1);
        let j = choose|j: int|
            0 <= j <= i - 1 && {
                ||| prev >= 0x3FF0_0000_0000_0000
                ||| prev >= #[trigger] targets[j] + step * (i - 1 - j)
            };
        assert(step * (i - j) == step * (i - 1 - j) + step) by (nonlinear_arith);
        assert(prev < targets[i] <= UNITY);
        assert(release(prev) >= prev + step);
        assert(gain >= UNITY || gain >= targets[j] + step * (i - j));
    }
}

/// The limiter lets go: where every release step raises a gain below 1 by at least `step`, the
/// gain is 1 again after as many positions without a peak as it takes to climb there.
pub proof fn law_gain_recovers(
    targets: Seq<u64>,
    release: spec_fn(u64) -> u64,
    step: nat,
    from: int,
    i: int,
)
    requires
        forall|g: u64| g < UNITY ==> #[trigger] release(g) >= g + step,
        0 <= from < i < targets.len(),
        step * (i - from) >= 0x3FF0_0000_0000_0000,
        forall|k: int| from < k <= i ==> #[trigger] targets[k] == 0x3FF0_0000_0000_0000,
    ensures
        smoothed(targets, release, i) == 0x3FF0_0000_0000_0000,
{
    lemma_climbs(targets, release, step, from, i);
}

proof fn lemma_climbs(
    targets: Seq<u64>,
    release: spec_fn(u64) -> u64,
    step: nat,
    from: int,
    i: int,
)
    requires
        forall|g: u64| g < UNITY ==> #[trigger] release(g) >= g + step,
        0 <= from <= i < targets.len(),
        forall|k: int| from < k <= i ==> #[trigger] targets[k] == UNITY,
    ensures
        smoothed(targets, release, i) >= UNITY || smoothed(targets, release, i) >= step * (i - from),
        i > from ==> smoothed(targets, release, i) <= UNITY,
    decreases i - from,
{
    if i > from {
        lemma_climbs(targets, release, step, from, i - 1);
        let prev = smoothed(targets, release, i - 1);
        assert(step * (i - from) == step * (i - 1 - from) + step) by (nonlinear_arith);
        assert(prev < UNITY ==> release(prev) >= prev + step);
        assert(targets[i] == UNITY);
    } else {
        assert(step * 0 == 0) by (nonlinear_arith);
    }
}

/// One release step at a time: the gain rises by no more than a release step from one position
/// to the next, and not beyond 1.
pub proof fn law_release_is_gradual(targets: Seq<u64>, release: spec_fn(u64) -> u64, i: int)
    requires
        0 < i < targets.len(),
    ensures
        ({
            let before = smoothed(targets, release, i - 1);
            let gain = smoothed(targets, release, i);
            gain <= before || (gain <= release(before) && gain <= 0x3FF0_0000_0000_0000)
        }),
{
}

/// A peak that is over does not turn the rest down: from the time on that the gain takes to
/// recover after the last peak, samples are left as they are, where the gain 1 leaves a sample
/// as it is.
pub proof fn law_samples_long_after_the_last_peak_are_untouched<S, K>(
    samples: Seq<Seq<S>>,
    n: nat,
    sample_rate: u32,
    kernels: Seq<Seq<K>>,
    zero: S,
    mac: spec_fn(S, S, K) -> S,
    value: spec_fn(S) -> Level,
    ceiling: Level,
    ratio: spec_fn(Level) -> Level,
    release: spec_fn(u64) -> u64,
    scale: spec_fn(S, u64) -> S,
    step: nat,
    from: int,
    c: int,
    i: int,
)
    requires
        rectangular(samples, n),
        0 <= c < samples.len(),
        0 <= from < 4 * i < 4 * n,
        forall|g: u64| g < UNITY ==> #[trigger] release(g) >= g + step,
        step * (4 * i - from) >= 0x3FF0_0000_0000_0000,
        forall|d: int, k: int|
            0 <= d < samples.len() && from < k < 4 * n ==> {
                let x = value(#[trigger] oversampled(samples[d], kernels, zero, mac)[k]);
                !ceiling.below(x.absolute())
            },
        !ceiling.below(Level { bits: 0 }),
        scale(samples[c][i], 0x3FF0_0000_0000_0000) == samples[c][i],
    ensures
        limited(
            samples,
            n,
            sample_rate,
            kernels,
            zero,
            mac,
            value,
            ceiling,
            ratio,
            release,
            scale,
        )[c][i] == samples[c][i],
{
    let signals = oversampled_levels(samples, kernels, zero, mac, value);
    let envelope = envelope_of(samples, n, kernels, zero, mac, value);
    let targets = gain_targets(envelope, sample_rate, ceiling, ratio);
    let gains = Seq::new(envelope.len(), |k: int| instant_gain(envelope[k], ceiling, ratio));
    assert(samples[c].len() == n);
    assert forall|k: int| from < k < 4 * n implies #[trigger] gains[k] == UNITY by {
        assert forall|d: int| 0 <= d < samples.len() implies !ceiling.below(
            (#[trigger] signals[d])[k].absolute(),
        ) by {
            assert(samples[d].len() == n);
            assert(signals[d][k] == value(oversampled(samples[d], kernels, zero, mac)[k]));
        }
        lemma_peak_is_quiet(signals, k, samples.len() as int, ceiling);
    }
    assert forall|k: int| from < k <= 4 * i implies #[trigger] targets[k] == 0x3FF0_0000_0000_0000 by {
        let end = window_end(k, look_ahead_of(sample_rate), gains.len() as int);
        lemma_least(gains, k, end);
        let w = choose|w: int| k <= w < end && #[trigger] gains[w] == least(gains, k, end);
        assert(gains[w] == UNITY);
    }
    law_gain_recovers(targets, release, step, from, 4 * i);
}

/// The combined peak of quiet channels is quiet.
proof fn lemma_peak_is_quiet(signals: Seq<Seq<Level>>, k: int, c: int, ceiling: Level)
    requires
        0 <= c <= signals.len(),
        forall|d: int| 0 <= d < c ==> !ceiling.below((#[trigger] signals[d])[k].absolute()),
        !ceiling.below(Level { bits: 0 }),
    ensures
        !ceiling.below(peak_at(signals, k, c)),
    decreases c,
{
    if c > 0 {
        lemma_peak_is_quiet(signals, k, c - 1, ceiling);
        assert(!ceiling.below(signals[c - 1][k].absolute()));
    }
}

/// The look-ahead is a millisecond of the oversampled signal, to the nearest frame, and at
/// least one frame.
pub proof fn law_look_ahead_is_a_millisecond(sample_rate: u32)
    ensures
        look_ahead_of(sample_rate) >= 1,
        look_ahead_of(sample_rate) == 1 || -500 <= 1000 * look_ahead_of(sample_rate) - 4
            * sample_rate <= 500,
        look_ahead_of(sample_rate) == 1 ==> 4 * sample_rate < 1500,
{
}

/// No attenuation without a peak: a target below 1 is the gain that a peak within the
/// look-ahead needs, and every peak within it is heeded.
pub proof fn law_targets_are_those_of_peaks_ahead(
    envelope: Seq<Level>,
    sample_rate: u32,
    ceiling: Level,
    ratio: spec_fn(Level) -> Level,
    i: int,
)
    requires
        0 <= i < envelope.len(),
    ensures
        ({
            let target = gain_targets(envelope, sample_rate, ceiling, ratio)[i];
            let ahead = look_ahead_of(sample_rate);
            &&& exists|k: int|
                i <= k < i + ahead && k < envelope.len() && target == (if ceiling.below(
                    #[trigger] envelope[k],
                ) {
                    ratio(envelope[k]).bits
                } else {
                    0x3FF0_0000_0000_0000
                })
            &&& forall|k: int|
                i <= k < i + ahead && k < envelope.len() && ceiling.below(#[trigger] envelope[k])
                    ==> target <= ratio(envelope[k]).bits
        }),
{
    let gains = Seq::new(envelope.len(), |k: int| instant_gain(envelope[k], ceiling, ratio));
    let end = window_end(i, look_ahead_of(sample_rate), gains.len() as int);
    lemma_least(gains, i, end);
    let k = choose|k: int| i <= k < end && #[trigger] gains[k] == least(gains, i, end);
    assert(envelope[k] == envelope[k]);
    assert forall|j: int|
        i <= j < i + look_ahead_of(sample_rate) && j < envelope.len() && ceiling.below(
            #[trigger] envelope[j],
        ) implies gain_targets(envelope, sample_rate, ceiling, ratio)[i] <= ratio(envelope[j]).bits by {
        assert(gains[j] == ratio(envelope[j]).bits);
    }
}

/// The envelope is the largest peak over all channels: no channel that reads a number exceeds
/// it, and it is the peak of a channel, or 0.
pub proof fn law_envelope_is_the_largest_peak<S, K>(
    samples: Seq<Seq<S>>,
    n: nat,
    kernels: Seq<Seq<K>>,
    zero: S,
    mac: spec_fn(S, S, K) -> S,
    value: spec_fn(S) -> Level,
    k: int,
)
    requires
        rectangular(samples, n),
        0 <= k < 4 * n,
    ensures
        ({
            let peak = envelope_of(samples, n, kernels, zero, mac, value)[k];
            &&& forall|c: int|
                0 <= c < samples.len() ==> {
                    let x = value(oversampled(#[trigger] samples[c], kernels, zero, mac)[k]);
                    x.nan() || x.absolute().at_most(peak)
                }
            &&& peak.bits == 0 || exists|c: int|
                0 <= c < samples.len() && peak == value(
                    oversampled(#[trigger] samples[c], kernels, zero, mac)[k],
                ).absolute()
        }),
{
    let signals = oversampled_levels(samples, kernels, zero, mac, value);
    let count = samples.len() as int;
    assert forall|c: int| 0 <= c < count implies ({
        let x = value(oversampled(#[trigger] samples[c], kernels, zero, mac)[k]);
        x.nan() || x.absolute().at_most(peak_at(signals, k, count))
    }) by {
        assert(samples[c].len() == n);
        assert(signals[c][k] == value(oversampled(samples[c], kernels, zero, mac)[k]));
        lemma_peak_covers(signals, k, count, c);
    }
    lemma_peak_is_met(signals, k, count);
    if peak_at(signals, k, count).bits != 0 {
        let c = choose|c: int|
            0 <= c < count && peak_at(signals, k, count) == (#[trigger] signals[c])[k].absolute();
        assert(samples[c].len() == n);
        assert(signals[c][k] == value(oversampled(samples[c], kernels, zero, mac)[k]));
    }
}

proof fn lemma_peak_is_met(signals: Seq<Seq<Level>>, k: int, c: int)
    requires
        0 <= c <= signals.len(),
    ensures
        peak_at(signals, k, c).bits == 0 || exists|d: int|
            0 <= d < c && peak_at(signals, k, c) == (#[trigger] signals[d])[k].absolute(),
    decreases c,
{
    if c > 0 {
        lemma_peak_is_met(signals, k, c - 1);
        let rest = peak_at(signals, k, c - 1);
        assert(signals[c - 1] == signals[c - 1]);
        lemma_peak_covers(signals, k, c - 1, 0);
        if rest.bits != 0 {
            let d = choose|d: int| 0 <= d < c - 1 && rest == (#[trigger] signals[d])[k].absolute();
            assert(0 <= d < c && rest == signals[d][k].absolute());
        }
    }
}

/// Every sample of `after` is the sample of its channel and frame in `before`, at the gain of
/// the frame.
pub open spec fn at_gains<S>(
    before: Seq<Seq<S>>,
    after: Seq<Seq<S>>,
    gains: Seq<u64>,
    scale: spec_fn(S, u64) -> S,
) -> bool {
    forall|c: int, i: int|
        0 <= c < before.len() && 0 <= i < gains.len() ==> (#[trigger] after[c][i]) == scale(
            before[c][i],
            gains[i],
        )
}

/// One gain curve serves all channels, and every sample is its own sample at that gain.
pub proof fn law_channels_share_the_gain<S, K>(
    samples: Seq<Seq<S>>,
    n: nat,
    sample_rate: u32,
    kernels: Seq<Seq<K>>,
    zero: S,
    mac: spec_fn(S, S, K) -> S,
    value: spec_fn(S) -> Level,
    ceiling: Level,
    ratio: spec_fn(Level) -> Level,
    release: spec_fn(u64) -> u64,
    scale: spec_fn(S, u64) -> S,
)
    requires
        rectangular(samples, n),
    ensures
        ({
            let after = limited(
                samples,
                n,
                sample_rate,
                kernels,
                zero,
                mac,
                value,
                ceiling,
                ratio,
                release,
                scale,
            );
            &&& after.len() == samples.len()
            &&& rectangular(after, n)
            &&& exists|gains: Seq<u64>| gains.len() == n && #[trigger] at_gains(samples, after, gains, scale)
        }),
{
    let after = limited(
        samples,
        n,
        sample_rate,
        kernels,
        zero,
        mac,
        value,
        ceiling,
        ratio,
        release,
        scale,
    );
    let targets = gain_targets(
        envelope_of(samples, n, kernels, zero, mac, value),
        sample_rate,
        ceiling,
        ratio,
    );
    let gains = Seq::new(n, |i: int| smoothed(targets, release, 4 * i));
    assert forall|c: int| 0 <= c < after.len() implies (#[trigger] after[c]).len() == n by {
        assert(samples[c].len() == n);
    }
    assert forall|c: int, i: int| 0 <= c < samples.len() && 0 <= i < gains.len() implies (
    #[trigger] after[c][i]) == scale(samples[c][i], gains[i]) by {
        assert(samples[c].len() == n);
    }
    assert(at_gains(samples, after, gains, scale));
}

/// A tap of the interpolator meets the sample that many places on: a branch whose only tap is
/// number `j` gives back, at every sample, the sample `j - 5` places later, and silence beyond
/// the edges. Branch `p` stands at every fourth position, from position `p` on.
pub proof fn law_taps_meet_their_samples<S, K>(
    signal: Seq<S>,
    kernels: Seq<Seq<K>>,
    zero: S,
    mac: spec_fn(S, S, K) -> S,
    p: int,
    j: int,
    i: int,
)
    requires
        0 <= p < 4,
        0 <= j < kernels[p].len(),
        0 <= i < signal.len(),
        forall|a: S, x: S, q: int|
            0 <= q < kernels[p].len() && q != j ==> #[trigger] mac(a, x, kernels[p][q]) == a,
        forall|x: S| #[trigger] mac(zero, x, kernels[p][j]) == x,
    ensures
        oversampled(signal, kernels, zero, mac).len() == 4 * signal.len(),
        oversampled(signal, kernels, zero, mac)[4 * i + p] == if 0 <= i + j - 5 < signal.len() {
            signal[i + j - 5]
        } else {
            zero
        },
{
    assert((4 * i + p) % 4 == p && (4 * i + p) / 4 == i);
    lemma_single_tap(signal, kernels[p], i, j, kernels[p].len() as int, zero, mac);
}

proof fn lemma_single_tap<S, K>(
    signal: Seq<S>,
    kernel: Seq<K>,
    i: int,
    j: int,
    n: int,
    zero: S,
    mac: spec_fn(S, S, K) -> S,
)
    requires
        0 <= n <= kernel.len(),
        0 <= j < kernel.len(),
        forall|a: S, x: S, q: int|
            0 <= q < kernel.len() && q != j ==> #[trigger] mac(a, x, kernel[q]) == a,
        forall|x: S| #[trigger] mac(zero, x, kernel[j]) == x,
    ensures
        tap_sum(signal, kernel, i, n, zero, mac) == if n > j && 0 <= i + j - 5 < signal.len() {
            signal[i + j - 5]
        } else {
            zero
        },
    decreases n,
{
    if n > 0 {
        lemma_single_tap(signal, kernel, i, j, n - 1, zero, mac);
    }
}

/// A window around position `i` holds as many values as it is wide, at least one, or fewer where
/// the values end.
pub proof fn law_windows_are_as_wide_as_they_can_be(i: int, window: int, n: int)
    requires
        0 <= i < n,
    ensures
        ({
            let wide = if window < 1 {
                1
            } else {
                window
            };
            let start = window_start(i, window);
            let end = window_end(i, window, n);
            &&& 0 <= start <= i && i + 1 - start <= wide
            &&& start == 0 || i + 1 - start == wide
            &&& i < end <= n && end - i <= wide
            &&& end == n || end - i == wide
        }),
{
}

} // verus!

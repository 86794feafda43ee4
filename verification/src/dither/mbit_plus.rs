//! MBIT+ quantization: error feedback with a fixed, ear-weighted curve, constant triangular
//! dither, and blanking of silence.
//!
//! After about 50 ms below half a step a channel is blanked for as long as it stays there: its
//! samples are rendered as silence, and past errors are forgotten. Digital silence stays silent.
//! A channel has its own noise and its own past errors: what the others hold does not matter.
use vstd::prelude::*;
use vstd::arithmetic::power2::{lemma2_to64, lemma2_to64_rest, lemma_pow2_adds, pow2};
use crate::audio::buffer::{planar, rectangular};
use crate::closures::{accepts1, accepts2, computes1, computes2};
use crate::config::{DitherCorrelation, DitherStrength};
use crate::dither::multichannel::{
    DEFAULT_SEED, MultiChannelDither, channel_seed, frame_noise, noise_at, values,
};
use crate::dither::shaper::{
    Grid,
    aim_accepts,
    aims,
    blank_history,
    new_history,
    push_error,
    shape_sample,
    shaped_code,
    shaped_history,
};
use crate::level::{Level, law_order_is_the_order_of_values};

verus! {

/// The bits of half a step of the 16-bit grid: samples below it count as silence.
pub const HALF_STEP: u64 = 0x3EF0_0020_0040_0080;

/// How strongly noise is shaped.
#[derive(Clone, Copy, Debug, PartialEq, Eq, Structural)]
pub enum MbitPlusStrength {
    /// Two taps, about 7.8 dB of total noise.
    Low,
    /// Five taps, about 10.5 dB of total noise.
    Normal,
    /// Seven taps, about 13 dB of total noise.
    High,
}

/// The rates that taps are tuned for.
#[derive(Clone, Copy, Debug, PartialEq, Eq, Structural)]
pub enum RateTable {
    Hz44100,
    Hz48000,
    Hz88200,
    Hz96000,
}

/// The table for a sample rate: its own, else the one of 44.1 kHz within 5 kHz of it, else the
/// one of 48 kHz.
pub open spec fn rate_table(sample_rate: u32) -> RateTable {
    if sample_rate == 48_000 {
        RateTable::Hz48000
    } else if sample_rate == 88_200 {
        RateTable::Hz88200
    } else if sample_rate == 96_000 {
        RateTable::Hz96000
    } else if 39_100 < sample_rate < 49_100 {
        RateTable::Hz44100
    } else {
        RateTable::Hz48000
    }
}

fn table_for(sample_rate: u32) -> (r: RateTable)
    ensures
        r == rate_table(sample_rate),
{
    match sample_rate {
        44_100 => RateTable::Hz44100,
        48_000 => RateTable::Hz48000,
        88_200 => RateTable::Hz88200,
        96_000 => RateTable::Hz96000,
        _ => if 39_100 < sample_rate && sample_rate < 49_100 {
            RateTable::Hz44100
        } else {
            RateTable::Hz48000
        },
    }
}

impl MbitPlusStrength {
    /// The taps for a rate table, in ten-thousandths.
    pub open spec fn taps_for(self, table: RateTable) -> Seq<i32> {
        match (self, table) {
            (MbitPlusStrength::Low, RateTable::Hz44100) => seq![13300i32, -4100 as i32],
            (MbitPlusStrength::Low, RateTable::Hz48000) => seq![13000i32, -3950 as i32],
            (MbitPlusStrength::Low, RateTable::Hz88200) => seq![13100i32, -4120 as i32],
            (MbitPlusStrength::Low, RateTable::Hz96000) => seq![12900i32, -3870 as i32],
            (MbitPlusStrength::Normal, RateTable::Hz44100) => seq![18500i32, -15300 as i32, 7600, -1200 as i32, 0],
            (MbitPlusStrength::Normal, RateTable::Hz48000) => seq![18200i32, -15000 as i32, 7400, -1150 as i32, 0],
            (MbitPlusStrength::Normal, RateTable::Hz88200) => seq![18600i32, -15600 as i32, 7750, -1250 as i32, 0],
            (MbitPlusStrength::Normal, RateTable::Hz96000) => seq![18300i32, -15300 as i32, 7600, -1200 as i32, 0],
            (MbitPlusStrength::High, RateTable::Hz44100) => seq![20500i32, -21400 as i32, 16200, -8900 as i32, 3100, -500 as i32, 0],
            (MbitPlusStrength::High, RateTable::Hz48000) => seq![20100i32, -21000 as i32, 15900, -8700 as i32, 3000, -480 as i32, 0],
            (MbitPlusStrength::High, RateTable::Hz88200) => seq![20700i32, -21800 as i32, 16500, -9100 as i32, 3200, -520 as i32, 0],
            (MbitPlusStrength::High, RateTable::Hz96000) => seq![20300i32, -21500 as i32, 16200, -8950 as i32, 3150, -500 as i32, 0],
        }
    }

    /// The taps for a sample rate, in ten-thousandths.
    pub open spec fn taps(self, sample_rate: u32) -> Seq<i32> {
        self.taps_for(rate_table(sample_rate))
    }

    /// The strength that a configuration asks for.
    pub fn from_config(value: DitherStrength) -> (r: MbitPlusStrength)
        ensures
            r == strength_of(value),
    {
        match value {
            DitherStrength::Low => MbitPlusStrength::Low,
            DitherStrength::Normal => MbitPlusStrength::Normal,
            DitherStrength::High => MbitPlusStrength::High,
        }
    }

    /// The taps of the error feedback for a sample rate, in ten-thousandths.
    pub fn coeffs_for_rate(self, sample_rate: u32) -> (r: Vec<i32>)
        ensures
            r@ == self.taps(sample_rate),
            r@.len() > 0,
    {
        let table = table_for(sample_rate);
        let r: Vec<i32> = match self {
            MbitPlusStrength::Low => match table {
                RateTable::Hz44100 => vec![13300, -4100],
                RateTable::Hz48000 => vec![13000, -3950],
                RateTable::Hz88200 => vec![13100, -4120],
                RateTable::Hz96000 => vec![12900, -3870],
            },
            MbitPlusStrength::Normal => match table {
                RateTable::Hz44100 => vec![18500, -15300, 7600, -1200, 0],
                RateTable::Hz48000 => vec![18200, -15000, 7400, -1150, 0],
                RateTable::Hz88200 => vec![18600, -15600, 7750, -1250, 0],
                RateTable::Hz96000 => vec![18300, -15300, 7600, -1200, 0],
            },
            MbitPlusStrength::High => match table {
                RateTable::Hz44100 => vec![20500, -21400, 16200, -8900, 3100, -500, 0],
                RateTable::Hz48000 => vec![20100, -21000, 15900, -8700, 3000, -480, 0],
                RateTable::Hz88200 => vec![20700, -21800, 16500, -9100, 3200, -520, 0],
                RateTable::Hz96000 => vec![20300, -21500, 16200, -8950, 3150, -500, 0],
            },
        };
        assert(r@ =~= self.taps(sample_rate));
        r
    }
}

/// The strength that a configuration asks for.
pub open spec fn strength_of(value: DitherStrength) -> MbitPlusStrength {
    match value {
        DitherStrength::Low => MbitPlusStrength::Low,
        DitherStrength::Normal => MbitPlusStrength::Normal,
        DitherStrength::High => MbitPlusStrength::High,
    }
}

/// The state of one channel.
#[derive(Debug, Clone)]
pub struct ChannelState<S> {
    /// Past errors, newest first.
    pub error_hist: Vec<S>,
    /// How many samples in a row were below half a step.
    pub blanking_count: usize,
    /// After how many such samples the channel is blanked.
    pub blanking_threshold: usize,
}

/// The sample is below half a step.
pub open spec fn is_quiet(x: Level) -> bool {
    x.absolute().below(Level { bits: HALF_STEP })
}

/// The count of quiet samples after a sample, and whether the channel is blanked for it.
pub open spec fn blanking(count: int, threshold: int, x: Level) -> (int, bool) {
    if is_quiet(x) {
        (count + 1, count + 1 > threshold)
    } else {
        (0, false)
    }
}

/// The blanking threshold: 50 ms.
pub open spec fn threshold_of(sample_rate: u32) -> int {
    (sample_rate / 20) as int
}

impl<S: Copy> ChannelState<S> {
    /// A channel without past errors.
    pub fn new(coeffs_len: usize, sample_rate: u32, zero: S) -> (r: ChannelState<S>)
        ensures
            r.error_hist@ == blank_history(zero, coeffs_len as nat),
            r.blanking_count == 0,
            r.blanking_threshold == threshold_of(sample_rate),
    {
        ChannelState {
            error_hist: new_history(zero, coeffs_len),
            blanking_count: 0,
            blanking_threshold: (sample_rate / 20) as usize,
        }
    }

    /// Put a new error in front of the history.
    pub fn push_error(&mut self, e: S)
        requires
            old(self).error_hist@.len() > 0,
        ensures
            final(self).error_hist@ == seq![e] + old(self).error_hist@.drop_last(),
            final(self).blanking_count == old(self).blanking_count,
            final(self).blanking_threshold == old(self).blanking_threshold,
    {
        push_error(&mut self.error_hist, e);
    }

    /// Forget past errors. The count of quiet samples goes on.
    pub fn reset(&mut self, zero: S)
        ensures
            final(self).error_hist@ == blank_history(zero, old(self).error_hist@.len()),
            final(self).blanking_count == old(self).blanking_count,
            final(self).blanking_threshold == old(self).blanking_threshold,
    {
        self.error_hist = new_history(zero, self.error_hist.len());
    }

    /// Count a sample, and say whether the channel is blanked for it.
    pub fn should_blank(&mut self, sample: Level) -> (r: bool)
        requires
            old(self).blanking_count < usize::MAX,
        ensures
            (final(self).blanking_count as int, r) == blanking(
                old(self).blanking_count as int,
                old(self).blanking_threshold as int,
                sample,
            ),
            final(self).error_hist == old(self).error_hist,
            final(self).blanking_threshold == old(self).blanking_threshold,
    {
        if sample.abs().is_below(Level { bits: HALF_STEP }) {
            self.blanking_count = self.blanking_count + 1;
            self.blanking_count > self.blanking_threshold
        } else {
            self.blanking_count = 0;
            false
        }
    }
}

// ---------------------------------------------------------------------------
// The quantizer.
// ---------------------------------------------------------------------------

/// The state of one channel: its past errors, newest first, and how many samples in a row were
/// quiet.
#[verifier::ext_equal]
pub struct CellState<S> {
    pub hist: Seq<S>,
    pub count: int,
}

/// What is fixed while a buffer is quantized.
pub struct MbitSetup<S> {
    pub taps: Seq<i32>,
    pub threshold: int,
    pub correlation: DitherCorrelation,
    pub base: u64,
    pub zero: S,
    pub grid: Grid,
}

/// The channel is silenced for this sample: blanked, or digital silence.
pub open spec fn silenced<S>(setup: MbitSetup<S>, st: CellState<S>, x: Level) -> bool {
    blanking(st.count, setup.threshold, x).1 || x.magnitude() == 0
}

/// The code of sample `x`.
pub open spec fn cell_code<S>(
    setup: MbitSetup<S>,
    st: CellState<S>,
    x: S,
    noise: i64,
    value: spec_fn(S) -> Level,
    aim: spec_fn(S, Seq<i32>, Seq<S>, i32) -> S,
    noisy: spec_fn(S, i64) -> Level,
) -> i32 {
    if silenced(setup, st, value(x)) {
        0
    } else {
        shaped_code(x, setup.taps, st.hist, noise, setup.grid, aim, noisy)
    }
}

/// The state after sample `x`. The quiet samples are counted whether they are silenced or not.
pub open spec fn cell_state<S>(
    setup: MbitSetup<S>,
    st: CellState<S>,
    x: S,
    noise: i64,
    value: spec_fn(S) -> Level,
    aim: spec_fn(S, Seq<i32>, Seq<S>, i32) -> S,
    noisy: spec_fn(S, i64) -> Level,
    miss: spec_fn(i32, S) -> S,
) -> CellState<S> {
    CellState {
        hist: if silenced(setup, st, value(x)) {
            blank_history(setup.zero, setup.taps.len())
        } else {
            shaped_history(x, setup.taps, st.hist, noise, setup.grid, aim, noisy, miss)
        },
        count: blanking(st.count, setup.threshold, value(x)).0,
    }
}

/// The state of a channel before its sample `n`.
pub open spec fn state_at<S>(
    setup: MbitSetup<S>,
    signal: Seq<S>,
    noise: spec_fn(nat) -> int,
    n: nat,
    value: spec_fn(S) -> Level,
    aim: spec_fn(S, Seq<i32>, Seq<S>, i32) -> S,
    noisy: spec_fn(S, i64) -> Level,
    miss: spec_fn(i32, S) -> S,
) -> CellState<S>
    decreases n,
{
    if n > 0 {
        let k = (n - 1) as nat;
        cell_state(
            setup,
            state_at(setup, signal, noise, k, value, aim, noisy, miss),
            signal[k as int],
            noise(k) as i64,
            value,
            aim,
            noisy,
            miss,
        )
    } else {
        CellState { hist: blank_history(setup.zero, setup.taps.len()), count: 0 }
    }
}

/// The noise of channel `c` out of `channels`, frame by frame.
pub open spec fn channel_noise<S>(setup: MbitSetup<S>, channels: nat, c: nat) -> spec_fn(nat) -> int {
    |k: nat| frame_noise(setup.correlation, channels, setup.base, k)[c as int]
}

/// The code of sample `n` of channel `c`.
pub open spec fn mbit_code<S>(
    setup: MbitSetup<S>,
    samples: Seq<Seq<S>>,
    n: nat,
    c: nat,
    value: spec_fn(S) -> Level,
    aim: spec_fn(S, Seq<i32>, Seq<S>, i32) -> S,
    noisy: spec_fn(S, i64) -> Level,
    miss: spec_fn(i32, S) -> S,
) -> i32 {
    let noise = channel_noise(setup, samples.len(), c);
    cell_code(
        setup,
        state_at(setup, samples[c as int], noise, n, value, aim, noisy, miss),
        samples[c as int][n as int],
        noise(n) as i64,
        value,
        aim,
        noisy,
    )
}

/// The setup for a buffer.
pub open spec fn setup_for<S>(
    sample_rate: u32,
    strength: MbitPlusStrength,
    correlation: DitherCorrelation,
    seed: Option<u64>,
    zero: S,
    grid: Grid,
) -> MbitSetup<S> {
    MbitSetup {
        taps: strength.taps(sample_rate),
        threshold: threshold_of(sample_rate),
        correlation,
        base: match seed {
            Some(s) => s,
            None => DEFAULT_SEED,
        },
        zero,
        grid,
    }
}

impl<S> ChannelState<S> {
    /// What changes from sample to sample. The blanking threshold does not: it stands in the
    /// setup.
    pub open spec fn cell(self) -> CellState<S> {
        CellState { hist: self.error_hist@, count: self.blanking_count as int }
    }
}

/// `codes` holds the code of every sample.
pub open spec fn quantized_by<
    S,
    V: Fn(S) -> Level,
    A: Fn(S, &Vec<i32>, &Vec<S>, i32) -> S,
    N: Fn(S, i64) -> Level,
    M: Fn(i32, S) -> S,
>(
    samples: Seq<Seq<S>>,
    frames: nat,
    codes: Seq<Seq<i32>>,
    setup: MbitSetup<S>,
    value: V,
    aim: A,
    noisy: N,
    miss: M,
) -> bool {
    forall|
        v: spec_fn(S) -> Level,
        a: spec_fn(S, Seq<i32>, Seq<S>, i32) -> S,
        ny: spec_fn(S, i64) -> Level,
        m: spec_fn(i32, S) -> S,
        n: nat,
        c: nat,
    |
        computes1(value, v) && aims(aim, a) && computes2(noisy, ny) && computes2(miss, m) && n < frames
            && c < samples.len() ==> codes[c as int][n as int] == #[trigger] mbit_code(
            setup,
            samples,
            n,
            c,
            v,
            a,
            ny,
            m,
        )
}

/// Quantize a buffer of planar channels. Returns the codes of every channel.
pub fn quantize<
    S: Copy,
    V: Fn(S) -> Level,
    A: Fn(S, &Vec<i32>, &Vec<S>, i32) -> S,
    N: Fn(S, i64) -> Level,
    M: Fn(i32, S) -> S,
>(
    channels: &Vec<Vec<S>>,
    frames: usize,
    sample_rate: u32,
    strength: MbitPlusStrength,
    correlation: DitherCorrelation,
    seed: Option<u64>,
    zero: S,
    grid: Grid,
    value: &V,
    aim: &A,
    noisy: &N,
    miss: &M,
) -> (codes: Vec<Vec<i32>>)
    requires
        rectangular(planar(channels@), frames as nat),
        accepts1(*value),
        aim_accepts(*aim),
        accepts2(*noisy),
        accepts2(*miss),
        grid.well_formed(),
        grid.has(0),
    ensures
        codes@.len() == channels@.len(),
        rectangular(planar(codes@), frames as nat),
        forall|c: int, n: int|
            0 <= c < channels@.len() && 0 <= n < frames ==> grid.has(#[trigger] codes@[c]@[n] as int),
        quantized_by(
            planar(channels@),
            frames as nat,
            planar(codes@),
            setup_for(sample_rate, strength, correlation, seed, zero, grid),
            *value,
            *aim,
            *noisy,
            *miss,
        ),
{
    let ghost samples = planar(channels@);
    let ghost setup = setup_for(sample_rate, strength, correlation, seed, zero, grid);
    let count = channels.len();
    let coeffs = strength.coeffs_for_rate(sample_rate);
    let mut states: Vec<ChannelState<S>> = Vec::new();
    let mut codes: Vec<Vec<i32>> = Vec::new();
    while states.len() < count
        invariant
            states@.len() <= count,
            codes@.len() == states@.len(),
            forall|i: int|
                0 <= i < states@.len() ==> (#[trigger] states@[i]).error_hist@ == blank_history(
                    zero,
                    coeffs@.len(),
                ) && states@[i].blanking_count == 0 && states@[i].blanking_threshold == threshold_of(
                    sample_rate,
                ),
            forall|i: int| 0 <= i < codes@.len() ==> (#[trigger] codes@[i])@.len() == 0,
        decreases count - states.len(),
    {
        states.push(ChannelState::new(coeffs.len(), sample_rate, zero));
        codes.push(Vec::new());
    }
    let mut dither = MultiChannelDither::new(count, correlation, seed);
    let mut n: usize = 0;
    while n < frames
        invariant
            n <= frames,
            count == channels@.len(),
            samples == planar(channels@),
            setup == setup_for(sample_rate, strength, correlation, seed, zero, grid),
            coeffs@ == setup.taps,
            coeffs@.len() > 0,
            rectangular(samples, frames as nat),
            accepts1(*value),
            aim_accepts(*aim),
            accepts2(*noisy),
            accepts2(*miss),
            grid.well_formed(),
            grid.has(0),
            dither.well_formed(),
            dither.channels() == count,
            dither.mode() == correlation,
            dither.after(setup.base, n as nat),
            states@.len() == count,
            codes@.len() == count,
            forall|i: int|
                0 <= i < count ==> (#[trigger] states@[i]).error_hist@.len() == coeffs@.len()
                    && states@[i].blanking_threshold == setup.threshold && states@[i].blanking_count
                    <= n,
            forall|i: int| 0 <= i < count ==> (#[trigger] codes@[i])@.len() == n,
            forall|c: int, k: int|
                0 <= c < count && 0 <= k < n ==> grid.has(#[trigger] codes@[c]@[k] as int),
            forall|
                v: spec_fn(S) -> Level,
                a: spec_fn(S, Seq<i32>, Seq<S>, i32) -> S,
                ny: spec_fn(S, i64) -> Level,
                m: spec_fn(i32, S) -> S,
                c: nat,
            |
                computes1(*value, v) && aims(*aim, a) && computes2(*noisy, ny) && computes2(*miss, m)
                    && c < count ==> states@[c as int].cell() == #[trigger] state_at(
                    setup,
                    samples[c as int],
                    channel_noise(setup, count as nat, c),
                    n as nat,
                    v,
                    a,
                    ny,
                    m,
                ),
            forall|
                v: spec_fn(S) -> Level,
                a: spec_fn(S, Seq<i32>, Seq<S>, i32) -> S,
                ny: spec_fn(S, i64) -> Level,
                m: spec_fn(i32, S) -> S,
                k: nat,
                c: nat,
            |
                computes1(*value, v) && aims(*aim, a) && computes2(*noisy, ny) && computes2(*miss, m)
                    && k < n && c < count ==> codes@[c as int]@[k as int] == #[trigger] mbit_code(
                    setup,
                    samples,
                    k,
                    c,
                    v,
                    a,
                    ny,
                    m,
                ),
        decreases frames - n,
    {
        let dither_samples = dither.sample_lsb_all();
        assert(values(dither_samples@) == frame_noise(
            setup.correlation,
            count as nat,
            setup.base,
            n as nat,
        ));
        let mut ch: usize = 0;
        while ch < count
            invariant
                n < frames,
                ch <= count,
                count == channels@.len(),
                samples == planar(channels@),
                setup == setup_for(sample_rate, strength, correlation, seed, zero, grid),
                coeffs@ == setup.taps,
                coeffs@.len() > 0,
                rectangular(samples, frames as nat),
                accepts1(*value),
                aim_accepts(*aim),
                accepts2(*noisy),
                accepts2(*miss),
                grid.well_formed(),
                grid.has(0),
                dither_samples@.len() == count,
                values(dither_samples@) == frame_noise(
                    setup.correlation,
                    count as nat,
                    setup.base,
                    n as nat,
                ),
                states@.len() == count,
                codes@.len() == count,
                forall|i: int|
                    0 <= i < count ==> (#[trigger] states@[i]).error_hist@.len() == coeffs@.len()
                        && states@[i].blanking_threshold == setup.threshold,
                forall|i: int| 0 <= i < ch ==> (#[trigger] states@[i]).blanking_count <= n + 1,
                forall|i: int| ch <= i < count ==> (#[trigger] states@[i]).blanking_count <= n,
                forall|i: int| 0 <= i < ch ==> (#[trigger] codes@[i])@.len() == n + 1,
                forall|i: int| ch <= i < count ==> (#[trigger] codes@[i])@.len() == n,
                forall|c: int, k: int|
                    0 <= c < count && 0 <= k < codes@[c]@.len() ==> grid.has(
                        #[trigger] codes@[c]@[k] as int,
                    ),
                forall|
                    v: spec_fn(S) -> Level,
                    a: spec_fn(S, Seq<i32>, Seq<S>, i32) -> S,
                    ny: spec_fn(S, i64) -> Level,
                    m: spec_fn(i32, S) -> S,
                    c: nat,
                    t: nat,
                |
                    computes1(*value, v) && aims(*aim, a) && computes2(*noisy, ny) && computes2(
                        *miss,
                        m,
                    ) && c < count && t == (if c < ch {
                        n + 1
                    } else {
                        n as int
                    }) ==> states@[c as int].cell() == #[trigger] state_at(
                        setup,
                        samples[c as int],
                        channel_noise(setup, count as nat, c),
                        t,
                        v,
                        a,
                        ny,
                        m,
                    ),
                forall|
                    v: spec_fn(S) -> Level,
                    a: spec_fn(S, Seq<i32>, Seq<S>, i32) -> S,
                    ny: spec_fn(S, i64) -> Level,
                    m: spec_fn(i32, S) -> S,
                    k: nat,
                    c: nat,
                |
                    computes1(*value, v) && aims(*aim, a) && computes2(*noisy, ny) && computes2(
                        *miss,
                        m,
                    ) && c < count && k < codes@[c as int]@.len() ==> codes@[c as int]@[k as int]
                        == #[trigger] mbit_code(setup, samples, k, c, v, a, ny, m),
            decreases count - ch,
        {
            assert(samples[ch as int].len() == frames);
            let ghost before = states@;
            let ghost old_codes = codes@;
            let x = channels[ch][n];
            let noise = dither_samples[ch];
            assert(noise == values(dither_samples@)[ch as int]);
            assert(noise == channel_noise(setup, count as nat, ch as nat)(n as nat));
            let level: Level = value(x);
            let code: i32;
            if states[ch].should_blank(level) || level.magnitude_bits() == 0 {
                states[ch].reset(zero);
                code = 0;
            } else {
                code = shape_sample(
                    x,
                    &coeffs,
                    &mut states[ch].error_hist,
                    noise,
                    grid,
                    aim,
                    noisy,
                    miss,
                );
            }
            codes[ch].push(code);
            proof {
                assert forall|
                    v: spec_fn(S) -> Level,
                    a: spec_fn(S, Seq<i32>, Seq<S>, i32) -> S,
                    ny: spec_fn(S, i64) -> Level,
                    m: spec_fn(i32, S) -> S,
                    c: nat,
                    t: nat,
                |
                    computes1(*value, v) && aims(*aim, a) && computes2(*noisy, ny) && computes2(
                        *miss,
                        m,
                    ) && c < count && t == (if c < ch + 1 {
                        n + 1
                    } else {
                        n as int
                    }) implies states@[c as int].cell() == #[trigger] state_at(
                    setup,
                    samples[c as int],
                    channel_noise(setup, count as nat, c),
                    t,
                    v,
                    a,
                    ny,
                    m,
                ) by {
                    let stream = channel_noise(setup, count as nat, c);
                    if c == ch {
                        let st = state_at(setup, samples[c as int], stream, n as nat, v, a, ny, m);
                        assert(before[c as int].cell() == st);
                        assert(states@[c as int].cell() =~= cell_state(setup, st, x, noise, v, a, ny, m));
                    } else {
                        assert(states@[c as int] == before[c as int]);
                        assert(before[c as int].cell() == state_at(
                            setup,
                            samples[c as int],
                            stream,
                            t,
                            v,
                            a,
                            ny,
                            m,
                        ));
                    }
                }
                assert forall|
                    v: spec_fn(S) -> Level,
                    a: spec_fn(S, Seq<i32>, Seq<S>, i32) -> S,
                    ny: spec_fn(S, i64) -> Level,
                    m: spec_fn(i32, S) -> S,
                    k: nat,
                    c: nat,
                |
                    computes1(*value, v) && aims(*aim, a) && computes2(*noisy, ny) && computes2(
                        *miss,
                        m,
                    ) && c < count && k < codes@[c as int]@.len() implies codes@[c as int]@[k as int]
                    == #[trigger] mbit_code(setup, samples, k, c, v, a, ny, m) by {
                    if c == ch && k == n {
                        let stream = channel_noise(setup, count as nat, c);
                        assert(before[c as int].cell() == state_at(
                            setup,
                            samples[c as int],
                            stream,
                            n as nat,
                            v,
                            a,
                            ny,
                            m,
                        ));
                    } else {
                        assert(codes@[c as int]@[k as int] == old_codes[c as int]@[k as int]);
                    }
                }
                assert forall|c: int, k: int| 0 <= c < count && 0 <= k < codes@[c]@.len() implies grid.has(
                    #[trigger] codes@[c]@[k] as int,
                ) by {
                    if c == ch && k == n {
                    } else {
                        assert(codes@[c]@[k] == old_codes[c]@[k]);
                    }
                }
            }
            ch = ch + 1;
        }
        n = n + 1;
    }
    codes
}

// ---------------------------------------------------------------------------
// Laws.
// ---------------------------------------------------------------------------

/// Digital silence is rendered as digital silence, and leaves no past errors behind.
pub proof fn law_silence_stays_silent<S>(
    setup: MbitSetup<S>,
    samples: Seq<Seq<S>>,
    n: nat,
    c: nat,
    value: spec_fn(S) -> Level,
    aim: spec_fn(S, Seq<i32>, Seq<S>, i32) -> S,
    noisy: spec_fn(S, i64) -> Level,
    miss: spec_fn(i32, S) -> S,
)
    requires
        c < samples.len(),
        n < samples[c as int].len(),
        value(samples[c as int][n as int]).magnitude() == 0,
    ensures
        mbit_code(setup, samples, n, c, value, aim, noisy, miss) == 0,
        state_at(
            setup,
            samples[c as int],
            channel_noise(setup, samples.len(), c),
            n + 1,
            value,
            aim,
            noisy,
            miss,
        ).hist == blank_history(setup.zero, setup.taps.len()),
{
}

/// A channel is blanked while it stays below half a step for longer than the threshold: every
/// quiet sample that comes after as many quiet samples as the threshold says has the code 0.
pub proof fn law_quiet_stretches_are_blanked<S>(
    setup: MbitSetup<S>,
    samples: Seq<Seq<S>>,
    start: nat,
    n: nat,
    c: nat,
    value: spec_fn(S) -> Level,
    aim: spec_fn(S, Seq<i32>, Seq<S>, i32) -> S,
    noisy: spec_fn(S, i64) -> Level,
    miss: spec_fn(i32, S) -> S,
)
    requires
        c < samples.len(),
        0 <= setup.threshold,
        start + setup.threshold <= n < samples[c as int].len(),
        forall|k: int|
            start <= k <= n ==> is_quiet(value(#[trigger] samples[c as int][k])),
    ensures
        mbit_code(setup, samples, n, c, value, aim, noisy, miss) == 0,
{
    lemma_quiet_count(
        setup,
        samples[c as int],
        channel_noise(setup, samples.len(), c),
        start,
        n,
        value,
        aim,
        noisy,
        miss,
    );
    assert(is_quiet(value(samples[c as int][n as int])));
}

/// At least as many quiet samples are counted as came since `start`.
proof fn lemma_quiet_count<S>(
    setup: MbitSetup<S>,
    signal: Seq<S>,
    noise: spec_fn(nat) -> int,
    start: nat,
    n: nat,
    value: spec_fn(S) -> Level,
    aim: spec_fn(S, Seq<i32>, Seq<S>, i32) -> S,
    noisy: spec_fn(S, i64) -> Level,
    miss: spec_fn(i32, S) -> S,
)
    requires
        start <= n <= signal.len(),
        forall|k: int| start <= k < n ==> is_quiet(value(#[trigger] signal[k])),
    ensures
        state_at(setup, signal, noise, n, value, aim, noisy, miss).count >= n - start,
    decreases n,
{
    if n > start {
        let k = (n - 1) as nat;
        lemma_quiet_count(setup, signal, noise, start, k, value, aim, noisy, miss);
        assert(is_quiet(value(signal[k as int])));
    } else if n > 0 {
        lemma_count_is_a_count(setup, signal, noise, n, value, aim, noisy, miss);
    }
}

/// The quiet count is never negative.
proof fn lemma_count_is_a_count<S>(
    setup: MbitSetup<S>,
    signal: Seq<S>,
    noise: spec_fn(nat) -> int,
    n: nat,
    value: spec_fn(S) -> Level,
    aim: spec_fn(S, Seq<i32>, Seq<S>, i32) -> S,
    noisy: spec_fn(S, i64) -> Level,
    miss: spec_fn(i32, S) -> S,
)
    ensures
        state_at(setup, signal, noise, n, value, aim, noisy, miss).count >= 0,
    decreases n,
{
    if n > 0 {
        lemma_count_is_a_count(setup, signal, noise, (n - 1) as nat, value, aim, noisy, miss);
    }
}

/// A quiet sample after as many quiet samples as the threshold says is blanked; with fewer
/// before it, it is only counted.
pub proof fn law_blanking_comes_after_the_threshold(count: int, threshold: int, x: Level)
    requires
        0 <= count,
        is_quiet(x),
    ensures
        blanking(count, threshold, x).1 <==> count >= threshold,
        blanking(count, threshold, x).0 == count + 1,
{
}

/// A channel does not depend on the others: its codes are decided by its own samples, whatever
/// the other channels hold, silence included.
pub proof fn law_channels_are_independent<S>(
    setup: MbitSetup<S>,
    one: Seq<Seq<S>>,
    other: Seq<Seq<S>>,
    n: nat,
    c: nat,
    value: spec_fn(S) -> Level,
    aim: spec_fn(S, Seq<i32>, Seq<S>, i32) -> S,
    noisy: spec_fn(S, i64) -> Level,
    miss: spec_fn(i32, S) -> S,
)
    requires
        one.len() == other.len(),
        c < one.len(),
        one[c as int] == other[c as int],
    ensures
        mbit_code(setup, one, n, c, value, aim, noisy, miss) == mbit_code(
            setup,
            other,
            n,
            c,
            value,
            aim,
            noisy,
            miss,
        ),
{
}

/// A channel is quantized by itself: two buffers that agree on a channel, quantized with the
/// same setup, agree on the codes of that channel, whatever the other channels hold, silence
/// included.
pub proof fn law_channels_are_quantized_independently<
    S,
    V: Fn(S) -> Level,
    A: Fn(S, &Vec<i32>, &Vec<S>, i32) -> S,
    N: Fn(S, i64) -> Level,
    M: Fn(i32, S) -> S,
>(
    setup: MbitSetup<S>,
    one: Seq<Seq<S>>,
    other: Seq<Seq<S>>,
    frames: nat,
    codes_of_one: Seq<Seq<i32>>,
    codes_of_other: Seq<Seq<i32>>,
    c: nat,
    value: V,
    aim: A,
    noisy: N,
    miss: M,
    v: spec_fn(S) -> Level,
    a: spec_fn(S, Seq<i32>, Seq<S>, i32) -> S,
    ny: spec_fn(S, i64) -> Level,
    m: spec_fn(i32, S) -> S,
)
    requires
        computes1(value, v),
        aims(aim, a),
        computes2(noisy, ny),
        computes2(miss, m),
        one.len() == other.len(),
        c < one.len(),
        one[c as int] == other[c as int],
        codes_of_one.len() == one.len(),
        codes_of_other.len() == other.len(),
        rectangular(codes_of_one, frames),
        rectangular(codes_of_other, frames),
        quantized_by(one, frames, codes_of_one, setup, value, aim, noisy, miss),
        quantized_by(other, frames, codes_of_other, setup, value, aim, noisy, miss),
    ensures
        codes_of_one[c as int] == codes_of_other[c as int],
{
    assert forall|n: int| 0 <= n < frames implies codes_of_one[c as int][n]
        == codes_of_other[c as int][n] by {
        law_channels_are_independent(setup, one, other, n as nat, c, v, a, ny, m);
        assert(codes_of_one[c as int][n] == mbit_code(setup, one, n as nat, c, v, a, ny, m));
        assert(codes_of_other[c as int][n] == mbit_code(setup, other, n as nat, c, v, a, ny, m));
    }
    assert(codes_of_one[c as int] =~= codes_of_other[c as int]);
}

/// Decorrelated channels have streams of their own: the noise of a channel comes from the seed
/// of the channel alone, and no frame goes without it.
pub proof fn law_decorrelated_channels_have_their_own_noise<S>(
    setup: MbitSetup<S>,
    channels: nat,
    n: nat,
    c: nat,
)
    requires
        setup.correlation == DitherCorrelation::Decorrelated,
        c < channels,
    ensures
        channel_noise(setup, channels, c)(n) == noise_at(channel_seed(setup.base, c as int), n),
{
}

/// Every strength has taps for every rate.
pub proof fn law_taps_exist_for_every_rate(strength: MbitPlusStrength, sample_rate: u32)
    ensures
        strength.taps(sample_rate).len() == (match strength {
            MbitPlusStrength::Low => 2nat,
            MbitPlusStrength::Normal => 5,
            MbitPlusStrength::High => 7,
        }),
{
}

/// A channel is blanked after 50 ms.
pub proof fn law_blanking_waits_fifty_milliseconds(sample_rate: u32)
    ensures
        1000 * threshold_of(sample_rate) <= 50 * sample_rate < 1000 * (threshold_of(sample_rate) + 1),
{
}

/// Quiet is what lies below half a step of the 16-bit grid, which has 32767 steps to full
/// scale.
pub proof fn law_quiet_is_below_half_a_step(x: Level)
    requires
        x.finite(),
    ensures
        65_534 * x.abs_units() < pow2(1074) - pow2(1014) <==> is_quiet(x),
{
    let half = Level { bits: HALF_STEP };
    assert(half.significand() == 0x10_0020_0040_0080 && half.exponent() == 1006);
    lemma2_to64();
    lemma2_to64_rest();
    lemma_pow2_adds(8, 1006);
    lemma_pow2_adds(64, 1006);
    lemma_pow2_adds(4, 1070);
    let p = pow2(1006) as int;
    assert(65_534 * (0x10_0020_0040_0080 * p) == 16 * (0x1_0000_0000_0000_0000 * p) - 256 * p)
        by (nonlinear_arith);
    assert(65_534 * half.abs_units() == pow2(1074) - pow2(1014));
    let a = x.absolute();
    assert(a.magnitude() == x.magnitude() && !a.negative());
    law_order_is_the_order_of_values(a, half);
    assert(a.units() == x.abs_units());
}

/// A sample is rendered as it is, shaped and dithered, unless it is zero or the channel has been
/// quiet for as many samples as the threshold says: with a sample above half a step among the
/// last ones, or too few samples before it, it is not blanked.
pub proof fn law_only_long_quiet_is_blanked<S>(
    setup: MbitSetup<S>,
    samples: Seq<Seq<S>>,
    loud: nat,
    n: nat,
    c: nat,
    value: spec_fn(S) -> Level,
    aim: spec_fn(S, Seq<i32>, Seq<S>, i32) -> S,
    noisy: spec_fn(S, i64) -> Level,
    miss: spec_fn(i32, S) -> S,
)
    requires
        c < samples.len(),
        n < samples[c as int].len(),
        value(samples[c as int][n as int]).magnitude() != 0,
        n < setup.threshold || (loud <= n <= loud + setup.threshold && !is_quiet(
            value(samples[c as int][loud as int]),
        )),
    ensures
        ({
            let noise = channel_noise(setup, samples.len(), c);
            let past = state_at(setup, samples[c as int], noise, n, value, aim, noisy, miss).hist;
            let target = aim(samples[c as int][n as int], setup.taps, past, setup.grid.max);
            mbit_code(setup, samples, n, c, value, aim, noisy, miss) == noisy(
                target,
                noise(n) as i64,
            ).snapped(setup.grid.lo as int, setup.grid.hi as int) as i32
        }),
{
    let noise = channel_noise(setup, samples.len(), c);
    let signal = samples[c as int];
    lemma_count_is_short(setup, signal, noise, n, value, aim, noisy, miss);
    if n >= setup.threshold {
        if loud < n {
            lemma_count_since(setup, signal, noise, loud, n, value, aim, noisy, miss);
        }
    }
}

proof fn lemma_count_is_short<S>(
    setup: MbitSetup<S>,
    signal: Seq<S>,
    noise: spec_fn(nat) -> int,
    n: nat,
    value: spec_fn(S) -> Level,
    aim: spec_fn(S, Seq<i32>, Seq<S>, i32) -> S,
    noisy: spec_fn(S, i64) -> Level,
    miss: spec_fn(i32, S) -> S,
)
    ensures
        state_at(setup, signal, noise, n, value, aim, noisy, miss).count <= n,
    decreases n,
{
    if n > 0 {
        lemma_count_is_short(setup, signal, noise, (n - 1) as nat, value, aim, noisy, miss);
    }
}

proof fn lemma_count_since<S>(
    setup: MbitSetup<S>,
    signal: Seq<S>,
    noise: spec_fn(nat) -> int,
    loud: nat,
    n: nat,
    value: spec_fn(S) -> Level,
    aim: spec_fn(S, Seq<i32>, Seq<S>, i32) -> S,
    noisy: spec_fn(S, i64) -> Level,
    miss: spec_fn(i32, S) -> S,
)
    requires
        loud < n,
        !is_quiet(value(signal[loud as int])),
    ensures
        state_at(setup, signal, noise, n, value, aim, noisy, miss).count <= n - loud - 1,
    decreases n,
{
    if n > loud + 1 {
        lemma_count_since(setup, signal, noise, loud, (n - 1) as nat, value, aim, noisy, miss);
    }
}

/// The taps that the configured strength gives at a rate, in ten-thousandths. The tuned rates
/// are 44.1, 48, 88.2 and 96 kHz; any other rate uses the taps of 44.1 kHz if it is less than
/// 5 kHz away from it, and those of 48 kHz otherwise.
pub proof fn law_tuned_taps(strength: DitherStrength, sample_rate: u32)
    ensures
        ({
            let rate: int = if sample_rate == 48_000 || sample_rate == 88_200 || sample_rate == 96_000 {
                sample_rate as int
            } else if -5_000 < sample_rate - 44_100 < 5_000 {
                44_100
            } else {
                48_000
            };
            let tuned: Seq<int> = match strength {
                DitherStrength::Low => if rate == 44_100 {
                    seq![13_300, -4_100]
                } else if rate == 48_000 {
                    seq![13_000, -3_950]
                } else if rate == 88_200 {
                    seq![13_100, -4_120]
                } else {
                    seq![12_900, -3_870]
                },
                DitherStrength::Normal => if rate == 44_100 {
                    seq![18_500, -15_300, 7_600, -1_200, 0]
                } else if rate == 48_000 {
                    seq![18_200, -15_000, 7_400, -1_150, 0]
                } else if rate == 88_200 {
                    seq![18_600, -15_600, 7_750, -1_250, 0]
                } else {
                    seq![18_300, -15_300, 7_600, -1_200, 0]
                },
                DitherStrength::High => if rate == 44_100 {
                    seq![20_500, -21_400, 16_200, -8_900, 3_100, -500, 0]
                } else if rate == 48_000 {
                    seq![20_100, -21_000, 15_900, -8_700, 3_000, -480, 0]
                } else if rate == 88_200 {
                    seq![20_700, -21_800, 16_500, -9_100, 3_200, -520, 0]
                } else {
                    seq![20_300, -21_500, 16_200, -8_950, 3_150, -500, 0]
                },
            };
            let taps = strength_of(strength).taps(sample_rate);
            taps.len() == tuned.len() && forall|i: int| 0 <= i < taps.len() ==> #[trigger] taps[i] == tuned[i]
        }),
{
}

} // verus!

//! Dither for several channels, related in one of three ways:
//!
//! - decorrelated: every channel has its own noise;
//! - correlated: all channels share one noise;
//! - mid-side: independent noise on mid and side of a stereo pair. With any other number of
//!   channels mid-side is decorrelated.
use vstd::prelude::*;
use rand::rngs::StdRng;
use crate::config::DitherCorrelation;
use vstd::arithmetic::div_mod::lemma_fundamental_div_mod;
use crate::dither::noise::{
    law_noise_is_the_sum_of_two_words, next_triangular, rng_word, seeded, seeded_word, triangular,
};

verus! {

/// The seed that is used when none is given.
pub const DEFAULT_SEED: u64 = 0xDEAD_BEEF_CAFE_F00D;

/// Spreads channel numbers over the seeds.
pub const CHANNEL_MIX: u64 = 0x9E37_79B9_7F4A_7C15;

/// The seed of a channel.
pub open spec fn channel_seed(base: u64, channel: int) -> u64 {
    base ^ vstd::wrapping::u64_specs::wrapping_mul(channel as u64, CHANNEL_MIX)
}

/// The seed of a channel, when there is a seed.
pub fn per_channel_seed(seed: Option<u64>, channel: usize) -> (r: Option<u64>)
    ensures
        match seed {
            None => r is None,
            Some(s) => r == Some(channel_seed(s, channel as int)),
        },
{
    match seed {
        None => None,
        Some(s) => Some(s ^ (channel as u64).wrapping_mul(CHANNEL_MIX)),
    }
}

/// Multi-channel triangular dither.
pub struct MultiChannelDither {
    shared_rng: StdRng,
    per_ch_rngs: Vec<StdRng>,
    correlation: DitherCorrelation,
    num_channels: usize,
}

/// The channels have their own noise in this mode.
pub open spec fn own_noise(correlation: DitherCorrelation) -> bool {
    correlation != DitherCorrelation::Correlated
}

/// Noise number `k` of a channel, or of the shared noise, that `seed` starts.
pub open spec fn noise_at(seed: u64, k: nat) -> int {
    triangular(seeded_word(seed, 2 * k), seeded_word(seed, 2 * k + 1))
}

/// A stream of noise: each number lies between one step below and one step above zero, and a
/// seed, when there is one, decides them all.
pub open spec fn drawn(noise: spec_fn(nat) -> int, seed: Option<u64>) -> bool {
    forall|k: nat|
        -0x20_0000_0000_0000 <= #[trigger] noise(k) < 0x20_0000_0000_0000 && (seed matches Some(s)
            ==> noise(k) == noise_at(s, k))
}

/// A stream of noise for every channel, each from the seed of its channel.
pub open spec fn drawn_per_channel(
    noise: Seq<spec_fn(nat) -> int>,
    channels: nat,
    seed: Option<u64>,
) -> bool {
    noise.len() == channels && forall|c: int|
        0 <= c < channels ==> drawn(
            #[trigger] noise[c],
            match seed {
                Some(s) => Some(channel_seed(s, c)),
                None => None,
            },
        )
}

/// The noise of all channels in frame `k`, for the base seed `base`.
pub open spec fn frame_noise(
    correlation: DitherCorrelation,
    channels: nat,
    base: u64,
    k: nat,
) -> Seq<int> {
    if correlation == DitherCorrelation::Correlated {
        Seq::new(channels, |c: int| noise_at(base, k))
    } else if correlation == DitherCorrelation::MidSide && channels == 2 {
        let mid = noise_at(channel_seed(base, 0), k);
        let side = noise_at(channel_seed(base, 1), k);
        seq![(mid + side) / 2, (mid - side) / 2]
    } else {
        Seq::new(channels, |c: int| noise_at(channel_seed(base, c), k))
    }
}

/// The values of a sequence of machine integers.
pub open spec fn values(s: Seq<i64>) -> Seq<int> {
    Seq::new(s.len(), |i: int| s[i] as int)
}

impl MultiChannelDither {
    /// The number of channels.
    pub closed spec fn channels(self) -> nat {
        self.num_channels as nat
    }

    /// The correlation mode.
    pub closed spec fn mode(self) -> DitherCorrelation {
        self.correlation
    }

    /// There is one generator per channel.
    pub closed spec fn well_formed(self) -> bool {
        self.per_ch_rngs@.len() == self.num_channels
    }

    /// This is the dither of the base seed `base` after `k` frames.
    pub closed spec fn after(self, base: u64, k: nat) -> bool {
        let own: nat = if own_noise(self.correlation) {
            2 * k
        } else {
            0
        };
        let shared: nat = if own_noise(self.correlation) {
            0
        } else {
            2 * k
        };
        &&& forall|i: nat| #[trigger] rng_word(self.shared_rng, i) == seeded_word(base, shared + i)
        &&& forall|c: int, i: nat|
            0 <= c < self.per_ch_rngs@.len() ==> #[trigger] rng_word(self.per_ch_rngs@[c], i)
                == seeded_word(channel_seed(base, c), own + i)
    }

    /// Dither for `num_channels` channels. Without a seed a fixed one is used.
    pub fn new(num_channels: usize, correlation: DitherCorrelation, seed: Option<u64>) -> (r:
        MultiChannelDither)
        ensures
            r.well_formed(),
            r.channels() == num_channels,
            r.mode() == correlation,
            r.after(
                match seed {
                    Some(s) => s,
                    None => DEFAULT_SEED,
                },
                0,
            ),
    {
        let base_seed = match seed {
            Some(s) => s,
            None => DEFAULT_SEED,
        };
        let shared_rng = seeded(base_seed);
        let mut per_ch_rngs: Vec<StdRng> = Vec::new();
        let mut ch: usize = 0;
        while ch < num_channels
            invariant
                ch <= num_channels,
                per_ch_rngs@.len() == ch,
                forall|c: int, i: nat|
                    0 <= c < ch ==> #[trigger] rng_word(per_ch_rngs@[c], i) == seeded_word(
                        channel_seed(base_seed, c),
                        i,
                    ),
            decreases num_channels - ch,
        {
            let per_ch_seed = base_seed ^ (ch as u64).wrapping_mul(CHANNEL_MIX);
            per_ch_rngs.push(seeded(per_ch_seed));
            ch = ch + 1;
        }
        MultiChannelDither { shared_rng, per_ch_rngs, correlation, num_channels }
    }

    /// The noise of all channels for one frame, each in `[-1, 1]` steps of the quantizer, in
    /// units of `2^-53` of a step.
    pub fn sample_lsb_all(&mut self) -> (r: Vec<i64>)
        requires
            old(self).well_formed(),
        ensures
            final(self).well_formed(),
            final(self).channels() == old(self).channels(),
            final(self).mode() == old(self).mode(),
            r@.len() == old(self).channels(),
            forall|i: int| 0 <= i < r@.len() ==> -0x20_0000_0000_0000 <= #[trigger] r@[i] <= 0x20_0000_0000_0000,
            forall|base: u64, k: nat| #[trigger] old(self).after(base, k) ==> final(self).after(
                base,
                k + 1,
            ) && values(r@) == frame_noise(old(self).mode(), old(self).channels(), base, k),
    {
        match self.correlation {
            DitherCorrelation::Decorrelated => self.sample_decorrelated(),
            DitherCorrelation::Correlated => self.sample_correlated(),
            DitherCorrelation::MidSide => self.sample_mid_side(),
        }
    }

    fn sample_decorrelated(&mut self) -> (r: Vec<i64>)
        requires
            old(self).well_formed(),
            own_noise(old(self).mode()),
            old(self).mode() == DitherCorrelation::MidSide ==> old(self).channels() != 2,
        ensures
            final(self).well_formed(),
            final(self).channels() == old(self).channels(),
            final(self).mode() == old(self).mode(),
            r@.len() == old(self).channels(),
            forall|i: int| 0 <= i < r@.len() ==> -0x20_0000_0000_0000 <= #[trigger] r@[i] <= 0x20_0000_0000_0000,
            forall|base: u64, k: nat| #[trigger] old(self).after(base, k) ==> final(self).after(
                base,
                k + 1,
            ) && values(r@) == frame_noise(old(self).mode(), old(self).channels(), base, k),
    {
        let mut out: Vec<i64> = Vec::new();
        let mut ch: usize = 0;
        let ghost start = *self;
        while ch < self.per_ch_rngs.len()
            invariant
                start == *old(self),
                self.shared_rng == start.shared_rng,
                self.correlation == start.correlation,
                self.num_channels == start.num_channels,
                self.per_ch_rngs@.len() == start.per_ch_rngs@.len(),
                ch <= self.per_ch_rngs@.len(),
                out@.len() == ch,
                forall|c: int|
                    0 <= c < ch ==> #[trigger] out@[c] == triangular(
                        rng_word(start.per_ch_rngs@[c], 0),
                        rng_word(start.per_ch_rngs@[c], 1),
                    ),
                forall|c: int, i: nat|
                    0 <= c < ch ==> #[trigger] rng_word(self.per_ch_rngs@[c], i) == rng_word(
                        start.per_ch_rngs@[c],
                        i + 2,
                    ),
                forall|c: int|
                    ch <= c < self.per_ch_rngs@.len() ==> self.per_ch_rngs@[c] == start.per_ch_rngs@[c],
            decreases self.per_ch_rngs.len() - ch,
        {
            let x = next_triangular(&mut self.per_ch_rngs[ch]);
            out.push(x);
            ch = ch + 1;
        }
        proof {
            assert forall|base: u64, k: nat| #[trigger] start.after(base, k) implies self.after(
                base,
                k + 1,
            ) && values(out@) == frame_noise(start.mode(), start.channels(), base, k) by {
                assert forall|c: int, i: nat| 0 <= c < self.per_ch_rngs@.len() implies #[trigger] rng_word(
                    self.per_ch_rngs@[c],
                    i,
                ) == seeded_word(channel_seed(base, c), 2 * (k + 1) + i) by {
                    assert(rng_word(start.per_ch_rngs@[c], i + 2) == seeded_word(
                        channel_seed(base, c),
                        2 * k + (i + 2),
                    ));
                }
                assert(values(out@) =~= frame_noise(start.mode(), start.channels(), base, k));
            }
        }
        out
    }

    fn sample_correlated(&mut self) -> (r: Vec<i64>)
        requires
            old(self).well_formed(),
            old(self).mode() == DitherCorrelation::Correlated,
        ensures
            final(self).well_formed(),
            final(self).channels() == old(self).channels(),
            final(self).mode() == old(self).mode(),
            r@.len() == old(self).channels(),
            forall|i: int| 0 <= i < r@.len() ==> -0x20_0000_0000_0000 <= #[trigger] r@[i] <= 0x20_0000_0000_0000,
            forall|base: u64, k: nat| #[trigger] old(self).after(base, k) ==> final(self).after(
                base,
                k + 1,
            ) && values(r@) == frame_noise(old(self).mode(), old(self).channels(), base, k),
    {
        let ghost start = *self;
        let shared = next_triangular(&mut self.shared_rng);
        let mut out: Vec<i64> = Vec::new();
        while out.len() < self.num_channels
            invariant
                out@.len() <= self.num_channels,
                forall|i: int| 0 <= i < out@.len() ==> #[trigger] out@[i] == shared,
            decreases self.num_channels - out.len(),
        {
            out.push(shared);
        }
        proof {
            assert forall|base: u64, k: nat| #[trigger] start.after(base, k) implies self.after(
                base,
                k + 1,
            ) && values(out@) == frame_noise(start.mode(), start.channels(), base, k) by {
                assert forall|i: nat| #[trigger] rng_word(self.shared_rng, i) == seeded_word(
                    base,
                    2 * (k + 1) + i,
                ) by {
                    assert(rng_word(start.shared_rng, i + 2) == seeded_word(base, 2 * k + (i + 2)));
                }
                assert(values(out@) =~= frame_noise(start.mode(), start.channels(), base, k));
            }
        }
        out
    }

    fn sample_mid_side(&mut self) -> (r: Vec<i64>)
        requires
            old(self).well_formed(),
            old(self).mode() == DitherCorrelation::MidSide,
        ensures
            final(self).well_formed(),
            final(self).channels() == old(self).channels(),
            final(self).mode() == old(self).mode(),
            r@.len() == old(self).channels(),
            forall|i: int| 0 <= i < r@.len() ==> -0x20_0000_0000_0000 <= #[trigger] r@[i] <= 0x20_0000_0000_0000,
            forall|base: u64, k: nat| #[trigger] old(self).after(base, k) ==> final(self).after(
                base,
                k + 1,
            ) && values(r@) == frame_noise(old(self).mode(), old(self).channels(), base, k),
    {
        if self.num_channels != 2 {
            return self.sample_decorrelated();
        }
        let ghost start = *self;
        let mid = next_triangular(&mut self.per_ch_rngs[0]);
        let side = next_triangular(&mut self.per_ch_rngs[1]);
        // Both are even, so the halves are exact.
        let left: i64 = half(mid + side);
        let right: i64 = half(mid - side);
        let mut out: Vec<i64> = Vec::new();
        out.push(left);
        out.push(right);
        proof {
            assert forall|base: u64, k: nat| #[trigger] start.after(base, k) implies self.after(
                base,
                k + 1,
            ) && values(out@) == frame_noise(start.mode(), start.channels(), base, k) by {
                assert forall|c: int, i: nat| 0 <= c < self.per_ch_rngs@.len() implies #[trigger] rng_word(
                    self.per_ch_rngs@[c],
                    i,
                ) == seeded_word(channel_seed(base, c), 2 * (k + 1) + i) by {
                    assert(rng_word(start.per_ch_rngs@[c], i + 2) == seeded_word(
                        channel_seed(base, c),
                        2 * k + (i + 2),
                    ));
                }
                assert(values(out@) =~= frame_noise(start.mode(), start.channels(), base, k));
            }
        }
        out
    }
}

/// Half of an even number.
fn half(n: i64) -> (r: i64)
    requires
        n % 2 == 0,
    ensures
        r == n as int / 2,
{
    if n >= 0 {
        n / 2
    } else {
        -((-(n + 2)) / 2) - 1
    }
}

// ---------------------------------------------------------------------------
// Laws.
// ---------------------------------------------------------------------------

/// Correlated dither is the same on every channel.
pub proof fn law_correlated_noise_is_identical(channels: nat, base: u64, k: nat, a: int, b: int)
    requires
        0 <= a < channels,
        0 <= b < channels,
    ensures
        frame_noise(DitherCorrelation::Correlated, channels, base, k)[a] == frame_noise(
            DitherCorrelation::Correlated,
            channels,
            base,
            k,
        )[b],
{
}

/// Mid-side dither is decorrelated dither unless there are exactly two channels.
pub proof fn law_mid_side_needs_a_stereo_pair(channels: nat, base: u64, k: nat)
    requires
        channels != 2,
    ensures
        frame_noise(DitherCorrelation::MidSide, channels, base, k) == frame_noise(
            DitherCorrelation::Decorrelated,
            channels,
            base,
            k,
        ),
{
}

/// Mid and side of a mid-side pair are independent noise: their sum and difference are those
/// of the channels' own generators.
pub proof fn law_mid_side_sum_and_difference(base: u64, k: nat)
    ensures
        ({
            let n = frame_noise(DitherCorrelation::MidSide, 2, base, k);
            &&& n[0] + n[1] == noise_at(channel_seed(base, 0), k)
            &&& n[0] - n[1] == noise_at(channel_seed(base, 1), k)
        }),
{
}

/// Noise never exceeds one step of the quantizer, in any mode.
pub proof fn law_frame_noise_is_within_one_step(
    correlation: DitherCorrelation,
    channels: nat,
    base: u64,
    k: nat,
    c: int,
)
    requires
        0 <= c < channels,
    ensures
        -0x20_0000_0000_0000 <= frame_noise(correlation, channels, base, k)[c] <= 0x20_0000_0000_0000,
{
}

/// The first channel uses the base seed itself, so a mono signal and the first channel of a
/// multi-channel one get the same noise.
pub proof fn law_first_channel_uses_the_base_seed(base: u64)
    ensures
        channel_seed(base, 0) == base,
{
    assert(vstd::wrapping::u64_specs::wrapping_mul(0u64, CHANNEL_MIX) == 0);
    assert(base ^ 0u64 == base) by (bit_vector);
}

/// Number `k` of a stream of noise is made of the words `2 * k` and `2 * k + 1` of its
/// generator, so no word is used twice.
pub proof fn law_noise_numbers_have_words_of_their_own(seed: u64, k: nat)
    ensures
        ({
            let sum = seeded_word(seed, 2 * k) + seeded_word(seed, 2 * k + 1)
                - 0x1_0000_0000_0000_0000;
            sum - 8192 < 2048 * noise_at(seed, k) <= sum
        }),
{
    law_noise_is_the_sum_of_two_words(seeded_word(seed, 2 * k), seeded_word(seed, 2 * k + 1));
}

/// No two channels have the same seed.
pub proof fn law_channels_have_seeds_of_their_own(base: u64, a: u64, b: u64)
    requires
        a != b,
    ensures
        channel_seed(base, a as int) != channel_seed(base, b as int),
{
    if channel_seed(base, a as int) == channel_seed(base, b as int) {
        let p = vstd::wrapping::u64_specs::wrapping_mul(a, CHANNEL_MIX);
        let q = vstd::wrapping::u64_specs::wrapping_mul(b, CHANNEL_MIX);
        assert(base ^ p == base ^ q ==> p == q) by (bit_vector);
        let range: int = 0x1_0000_0000_0000_0000;
        let mix = CHANNEL_MIX as int;
        lemma_fundamental_div_mod(a * mix, range);
        lemma_fundamental_div_mod(b * mix, range);
        let t = (a * mix) / range - (b * mix) / range;
        let d = a - b;
        let inverse: int = 0xF1DE_83E1_9937_733D;
        let rest: int = 0x957B_BF35_006E_D677;
        assert(d * mix == range * t) by (nonlinear_arith)
            requires
                d == a - b,
                a * mix == range * ((a * mix) / range) + p,
                b * mix == range * ((b * mix) / range) + p,
                t == (a * mix) / range - (b * mix) / range,
        ;
        assert(mix * inverse == 1 + rest * range);
        let w = t * inverse - d * rest;
        assert(d == range * w) by (nonlinear_arith)
            requires
                d * mix == range * t,
                mix * inverse == 1 + rest * range,
                w == t * inverse - d * rest,
        {
            assert((d * mix) * inverse == d * (mix * inverse));
            assert(d * (1 + rest * range) == d + range * (d * rest));
            assert((range * t) * inverse == range * (t * inverse));
        }
        assert(w == 0) by (nonlinear_arith)
            requires
                d == range * w,
                -range < d < range,
                range > 0,
        ;
    }
}

/// The noise of a channel comes from the seed of that channel, that of correlated channels from
/// the base seed, frame after frame.
pub proof fn law_noise_comes_from_the_seed_of_the_channel(
    channels: nat,
    base: u64,
    k: nat,
    c: int,
)
    requires
        0 <= c < channels,
    ensures
        ({
            let own = channel_seed(base, c);
            let words = seeded_word(own, 2 * k) + seeded_word(own, 2 * k + 1)
                - 0x1_0000_0000_0000_0000;
            let noise = frame_noise(DitherCorrelation::Decorrelated, channels, base, k)[c];
            words - 8192 < 2048 * noise <= words
        }),
        ({
            let words = seeded_word(base, 2 * k) + seeded_word(base, 2 * k + 1)
                - 0x1_0000_0000_0000_0000;
            let noise = frame_noise(DitherCorrelation::Correlated, channels, base, k)[c];
            words - 8192 < 2048 * noise <= words
        }),
{
    law_noise_numbers_have_words_of_their_own(channel_seed(base, c), k);
    law_noise_numbers_have_words_of_their_own(base, k);
}

} // verus!

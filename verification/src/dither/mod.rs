//! Dither and noise shaping for bit-depth reduction.
use vstd::prelude::*;
use rand::rngs::StdRng;
use self::multichannel::drawn;
use self::noise::{next_triangular, rng_word, seeded, seeded_word, triangular, unseeded};

pub mod adaptive_mbit;
pub mod mbit_plus;
pub mod multichannel;
pub mod noise;
pub mod psychoacoustic;
pub mod scene;
pub mod shaper;

verus! {

/// The noise-transfer curve of the error-feedback shaper: a gentle high-pass, or the
/// published curve that is weighted to the ear's sensitivity.
#[derive(Clone, Copy, Debug, PartialEq, Eq, Structural)]
pub enum ShapingCurve {
    Gentle,
    Psychoacoustic,
}

impl ShapingCurve {
    /// The label of the curve.
    pub open spec fn label(self) -> Seq<char> {
        match self {
            ShapingCurve::Gentle => "gentle"@,
            ShapingCurve::Psychoacoustic => "psychoacoustic"@,
        }
    }

    /// Short label for the dry-run summary.
    pub fn tag(self) -> (r: &'static str)
        ensures
            r@ == self.label(),
    {
        match self {
            ShapingCurve::Gentle => "gentle",
            ShapingCurve::Psychoacoustic => "psychoacoustic",
        }
    }
}

/// Triangular (TPDF) dither.
pub struct TpdfDither {
    rng: StdRng,
}

impl TpdfDither {
    /// Word `i` of the words that the dither will be made of.
    pub closed spec fn word(self, i: nat) -> u64 {
        rng_word(self.rng, i)
    }

    /// The noise that the dither will give.
    pub open spec fn stream(self) -> spec_fn(nat) -> int {
        |k: nat| triangular(self.word(2 * k), self.word(2 * k + 1))
    }

    /// This is what the dither `start` has become after `n` samples.
    pub open spec fn after(self, start: TpdfDither, n: nat) -> bool {
        forall|i: nat| #[trigger] self.word(i) == start.word(2 * n + i)
    }

    /// The next sample after `n` others is the next one of the stream.
    pub proof fn lemma_step(self, next: TpdfDither, start: TpdfDither, n: nat)
        requires
            self.after(start, n),
            forall|i: nat| #[trigger] next.word(i) == self.word(i + 2),
        ensures
            next.after(start, n + 1),
            triangular(self.word(0), self.word(1)) == start.stream()(n),
    {
        assert(self.word(0) == start.word(2 * n + 0));
        assert(self.word(1) == start.word(2 * n + 1));
        assert forall|i: nat| #[trigger] next.word(i) == start.word(2 * (n + 1) + i) by {
            assert(self.word(i + 2) == start.word(2 * n + (i + 2)));
        }
    }

    /// Dither from a seed, which makes it reproducible, or from the operating system.
    pub fn new(seed: Option<u64>) -> (r: TpdfDither)
        ensures
            seed matches Some(s) ==> forall|i: nat| #[trigger] r.word(i) == seeded_word(s, i),
            drawn(r.stream(), seed),
    {
        let rng = match seed {
            Some(seed) => seeded(seed),
            None => unseeded(),
        };
        TpdfDither { rng }
    }

    /// One sample of noise in `[-1, 1)` steps of the quantizer, in units of `2^-53` of a step.
    /// It is added before rounding and never subtracted.
    pub fn sample_lsb(&mut self) -> (r: i64)
        ensures
            r == triangular(old(self).word(0), old(self).word(1)),
            forall|i: nat| #[trigger] final(self).word(i) == old(self).word(i + 2),
    {
        next_triangular(&mut self.rng)
    }
}

} // verus!

//! Sample-rate conversion.
//!
//! The conversion itself is done by a resampler that the caller hands in. What is fed to it,
//! which part of its output is kept and how long the result is are decided here: the result is
//! aligned with the source and `round(frames * target_rate / source_rate)` frames long.
use vstd::prelude::*;
use vstd::arithmetic::div_mod::*;
use vstd::arithmetic::mul::*;
use crate::audio::buffer::{planar, rectangular, AudioBuffer};
use crate::audio::planar::{empty_channels, interleave, interleaved, law_interleaved_order};
use crate::config::ResampleQuality;

verus! {

// ---------------------------------------------------------------------------
// Quality tiers.
// ---------------------------------------------------------------------------

/// How a sinc resampler interpolates between the entries of its table.
#[derive(Clone, Copy, Debug, PartialEq, Eq, Structural)]
pub enum Interpolation {
    Linear,
    Quadratic,
    Cubic,
}

/// The window of a sinc resampler.
#[derive(Clone, Copy, Debug, PartialEq, Eq, Structural)]
pub enum Window {
    Hann,
    Blackman,
    BlackmanHarris,
    BlackmanHarris2,
}

/// The parameters of a sinc resampler. The cutoff is in thousandths.
#[derive(Clone, Copy, Debug, PartialEq, Eq, Structural)]
pub struct SincPlan {
    pub sinc_len: usize,
    pub cutoff: u32,
    pub oversampling_factor: usize,
    pub interpolation: Interpolation,
    pub window: Window,
}

/// The recipe of a multi-stage resampler.
#[derive(Clone, Copy, Debug, PartialEq, Eq, Structural)]
pub enum Recipe {
    Low,
    Medium,
    High,
    VeryHigh,
}

/// The parameters of a multi-stage resampler. Every tier keeps the passband as flat as
/// possible.
#[derive(Clone, Copy, Debug, PartialEq, Eq, Structural)]
pub struct StagedPlan {
    pub recipe: Recipe,
    /// Keep the ratio as accurate as possible.
    pub precise_clock: bool,
}

/// The tier to use when none is given.
pub open spec fn tier_or_default(quality: Option<ResampleQuality>) -> ResampleQuality {
    match quality {
        Some(q) => q,
        None => ResampleQuality::Hq,
    }
}

/// The tier to use.
pub fn tier(quality: Option<ResampleQuality>) -> (r: ResampleQuality)
    ensures
        r == tier_or_default(quality),
{
    match quality {
        Some(q) => q,
        None => ResampleQuality::Hq,
    }
}

/// The parameters of the multi-stage resampler for a tier.
pub fn soxr_quality(quality: Option<ResampleQuality>) -> (r: StagedPlan)
    ensures
        r.recipe == (match tier_or_default(quality) {
            ResampleQuality::Lq => Recipe::Low,
            ResampleQuality::Mq => Recipe::Medium,
            ResampleQuality::Hq => Recipe::High,
            ResampleQuality::Vhq => Recipe::VeryHigh,
        }),
        r.precise_clock == (tier_or_default(quality) == ResampleQuality::Vhq),
{
    match tier(quality) {
        ResampleQuality::Lq => StagedPlan { recipe: Recipe::Low, precise_clock: false },
        ResampleQuality::Mq => StagedPlan { recipe: Recipe::Medium, precise_clock: false },
        ResampleQuality::Hq => StagedPlan { recipe: Recipe::High, precise_clock: false },
        ResampleQuality::Vhq => StagedPlan { recipe: Recipe::VeryHigh, precise_clock: true },
    }
}

/// The parameters of the sinc resampler for a tier.
pub open spec fn sinc_plan(quality: ResampleQuality) -> SincPlan {
    match quality {
        ResampleQuality::Lq => SincPlan {
            sinc_len: 96,
            cutoff: 900,
            oversampling_factor: 64,
            interpolation: Interpolation::Linear,
            window: Window::Hann,
        },
        ResampleQuality::Mq => SincPlan {
            sinc_len: 128,
            cutoff: 920,
            oversampling_factor: 96,
            interpolation: Interpolation::Quadratic,
            window: Window::Blackman,
        },
        ResampleQuality::Hq => SincPlan {
            sinc_len: 192,
            cutoff: 945,
            oversampling_factor: 128,
            interpolation: Interpolation::Cubic,
            window: Window::BlackmanHarris,
        },
        ResampleQuality::Vhq => SincPlan {
            sinc_len: 256,
            cutoff: 950,
            oversampling_factor: 160,
            interpolation: Interpolation::Cubic,
            window: Window::BlackmanHarris2,
        },
    }
}

/// The parameters of the sinc resampler for a tier.
pub fn quality_params(quality: Option<ResampleQuality>) -> (r: SincPlan)
    ensures
        r == sinc_plan(tier_or_default(quality)),
{
    match tier(quality) {
        ResampleQuality::Lq => SincPlan {
            sinc_len: 96,
            cutoff: 900,
            oversampling_factor: 64,
            interpolation: Interpolation::Linear,
            window: Window::Hann,
        },
        ResampleQuality::Mq => SincPlan {
            sinc_len: 128,
            cutoff: 920,
            oversampling_factor: 96,
            interpolation: Interpolation::Quadratic,
            window: Window::Blackman,
        },
        ResampleQuality::Hq => SincPlan {
            sinc_len: 192,
            cutoff: 945,
            oversampling_factor: 128,
            interpolation: Interpolation::Cubic,
            window: Window::BlackmanHarris,
        },
        ResampleQuality::Vhq => SincPlan {
            sinc_len: 256,
            cutoff: 950,
            oversampling_factor: 160,
            interpolation: Interpolation::Cubic,
            window: Window::BlackmanHarris2,
        },
    }
}

/// How many frames the sinc resampler takes at a time.
pub fn chunk_size(in_frames: usize) -> (r: usize)
    ensures
        r == (if in_frames < 64 {
            64
        } else if in_frames > 4096 {
            4096
        } else {
            in_frames as int
        }),
{
    if in_frames < 64 {
        64
    } else if in_frames > 4096 {
        4096
    } else {
        in_frames
    }
}

// ---------------------------------------------------------------------------
// The length of the result.
// ---------------------------------------------------------------------------

/// `frames * target / source`, rounded to the nearest integer, halves up.
pub open spec fn resampled_len(frames: int, source: int, target: int) -> int {
    (2 * frames * target + source) / (2 * source)
}

/// The number of frames after conversion, or `None` when they cannot be counted.
pub fn expected_frames(in_frames: usize, source_rate: u32, target_rate: u32) -> (r: Option<usize>)
    requires
        source_rate > 0,
    ensures
        match r {
            Some(n) => n == resampled_len(in_frames as int, source_rate as int, target_rate as int),
            None => resampled_len(in_frames as int, source_rate as int, target_rate as int)
                > usize::MAX,
        },
{
    let f: u128 = in_frames as u128;
    let t: u128 = target_rate as u128;
    let s: u128 = source_rate as u128;
    assert(2 * f * t + s <= 2 * 0x1_0000_0000_0000_0000 * 0x1_0000_0000 + 0x1_0000_0000
        && 2 * f * t >= 0 && 2 * f <= 0x2_0000_0000_0000_0000) by (nonlinear_arith)
        requires
            0 <= f < 0x1_0000_0000_0000_0000,
            0 <= t < 0x1_0000_0000,
            0 <= s < 0x1_0000_0000,
    ;
    let n: u128 = (2 * f * t + s) / (2 * s);
    if n <= usize::MAX as u128 {
        Some(n as usize)
    } else {
        None
    }
}

// ---------------------------------------------------------------------------
// Keeping the aligned part of an interleaved stream.
// ---------------------------------------------------------------------------

/// Frame `i` of channel `c` of the result: the stream starts with `delay` frames in which the
/// resampler fills up, and what it did not produce is silence.
pub open spec fn aligned_sample<S>(
    stream: Seq<S>,
    channels: int,
    produced: int,
    delay: int,
    zero: S,
    c: int,
    i: int,
) -> S {
    if delay + i < produced {
        stream[(delay + i) * channels + c]
    } else {
        zero
    }
}

/// The frames `delay..delay + expected` of an interleaved stream, of which `produced` frames
/// were produced, as planar channels.
pub fn aligned<S: Copy>(
    stream: &Vec<S>,
    channels: usize,
    produced: usize,
    delay: usize,
    expected: usize,
    zero: S,
) -> (r: Vec<Vec<S>>)
    requires
        produced * channels <= stream@.len(),
    ensures
        r@.len() == channels,
        rectangular(planar(r@), expected as nat),
        forall|c: int, i: int|
            0 <= c < channels && 0 <= i < expected ==> #[trigger] r@[c]@[i] == aligned_sample(
                stream@,
                channels as int,
                produced as int,
                delay as int,
                zero,
                c,
                i,
            ),
{
    let len = stream.len();
    let mut r: Vec<Vec<S>> = Vec::new();
    while r.len() < channels
        invariant
            len == stream@.len(),
            produced * channels <= stream@.len(),
            r@.len() <= channels,
            forall|c: int| 0 <= c < r@.len() ==> (#[trigger] r@[c])@.len() == expected,
            forall|c: int, i: int|
                0 <= c < r@.len() && 0 <= i < expected ==> #[trigger] r@[c]@[i] == aligned_sample(
                    stream@,
                    channels as int,
                    produced as int,
                    delay as int,
                    zero,
                    c,
                    i,
                ),
        decreases channels - r.len(),
    {
        let c = r.len();
        let mut own: Vec<S> = Vec::new();
        while own.len() < expected
            invariant
                c < channels,
                len == stream@.len(),
                produced * channels <= stream@.len(),
                own@.len() <= expected,
                forall|i: int|
                    0 <= i < own@.len() ==> #[trigger] own@[i] == aligned_sample(
                        stream@,
                        channels as int,
                        produced as int,
                        delay as int,
                        zero,
                        c as int,
                        i,
                    ),
            decreases expected - own.len(),
        {
            let i = own.len();
            let x: S = if delay < produced && i < produced - delay {
                let at = delay + i;
                assert(0 <= at * channels && at * channels + c < produced * channels)
                    by (nonlinear_arith)
                    requires
                        0 <= at < produced,
                        0 <= c < channels,
                ;
                stream[at * channels + c]
            } else {
                zero
            };
            own.push(x);
        }
        r.push(own);
    }
    r
}

/// Resample through a resampler of interleaved samples. `run` gets the interleaved input, the
/// number of channels and the number of frames that are wanted; it returns its whole output, how
/// many frames it produced and how many of them come before the first aligned one.
pub fn through_interleaved<S: Copy, E, R: Fn(&Vec<S>, usize, usize) -> Result<(Vec<S>, usize, usize), E>>(
    channels: &Vec<Vec<S>>,
    frames: usize,
    expected: usize,
    zero: S,
    run: &R,
) -> (r: Result<Vec<Vec<S>>, E>)
    requires
        rectangular(planar(channels@), frames as nat),
        forall|i: &Vec<S>, c: usize, n: usize| #[trigger] run.requires((i, c, n)),
        forall|i: &Vec<S>, c: usize, n: usize, o: (Vec<S>, usize, usize)| #[trigger]
            run.ensures((i, c, n), Ok::<(Vec<S>, usize, usize), E>(o)) ==> o.1 * c <= o.0@.len(),
    ensures
        r matches Ok(out) ==> out@.len() == channels@.len() && rectangular(
            planar(out@),
            expected as nat,
        ),
        forall|s: spec_fn(Seq<S>, int, int) -> Result<(Seq<S>, int, int), E>|
            #[trigger] runs(*run, s) ==> match s(
                interleaved(planar(channels@), frames as nat),
                channels@.len() as int,
                expected as int,
            ) {
                Err(e) => r == Err::<Vec<Vec<S>>, E>(e),
                Ok((stream, produced, delay)) => r matches Ok(out) && forall|c: int, i: int|
                    0 <= c < channels@.len() && 0 <= i < expected ==> #[trigger] out@[c]@[i]
                        == aligned_sample(
                        stream,
                        channels@.len() as int,
                        produced,
                        delay,
                        zero,
                        c,
                        i,
                    ),
            },
{
    let input = interleave(channels, frames);
    let count = channels.len();
    match run(&input, count, expected) {
        Err(e) => Err(e),
        Ok(done) => {
            let (stream, produced, delay) = done;
            Ok(aligned(&stream, count, produced, delay, expected, zero))
        },
    }
}

/// Whatever `f` returns is the value of `s`.
pub open spec fn runs<S, E, F: Fn(&Vec<S>, usize, usize) -> Result<(Vec<S>, usize, usize), E>>(
    f: F,
    s: spec_fn(Seq<S>, int, int) -> Result<(Seq<S>, int, int), E>,
) -> bool {
    forall|i: &Vec<S>, c: usize, n: usize, r: Result<(Vec<S>, usize, usize), E>| #[trigger]
        f.ensures((i, c, n), r) ==> s(i@, c as int, n as int) == (match r {
            Ok(o) => Ok::<(Seq<S>, int, int), E>((o.0@, o.1 as int, o.2 as int)),
            Err(e) => Err::<(Seq<S>, int, int), E>(e),
        })
}

/// Spare frames that an output stream is given beyond what is wanted.
pub const MARGIN: usize = 16_384;

/// The output of a resampler that is drained: `produced` of `capacity` frames are filled.
#[derive(Clone, Copy, Debug, PartialEq, Eq, Structural)]
pub struct Drain {
    pub produced: usize,
    pub capacity: usize,
}

impl Drain {
    /// What was produced fits.
    pub open spec fn well_formed(self) -> bool {
        self.produced <= self.capacity
    }

    /// An empty output for `expected` aligned frames after `delay` others, or `None` when it
    /// cannot be that long.
    pub fn new(expected: usize, delay: usize) -> (r: Option<Drain>)
        ensures
            match r {
                Some(d) => d.well_formed() && d.produced == 0 && d.capacity == expected + delay
                    + MARGIN,
                None => expected + delay + MARGIN > usize::MAX,
            },
    {
        match expected.checked_add(delay) {
            None => None,
            Some(n) => match n.checked_add(MARGIN) {
                None => None,
                Some(capacity) => Some(Drain { produced: 0, capacity }),
            },
        }
    }

    /// Whether the output has to grow before the resampler is asked again. It then grows by the
    /// margin.
    pub fn is_full(&self) -> (r: bool)
        ensures
            r == (self.produced >= self.capacity),
    {
        self.produced >= self.capacity
    }

    /// The output grew by the margin. Nothing changes when it cannot.
    pub fn grow(&mut self) -> (r: bool)
        ensures
            r <==> old(self).capacity + MARGIN <= usize::MAX,
            final(self).produced == old(self).produced,
            final(self).capacity == if r {
                old(self).capacity + MARGIN
            } else {
                old(self).capacity as int
            },
    {
        match self.capacity.checked_add(MARGIN) {
            Some(capacity) => {
                self.capacity = capacity;
                true
            },
            None => false,
        }
    }

    /// The resampler produced `frames` more frames. Returns whether it is drained: it is when
    /// it stops producing.
    pub fn record(&mut self, frames: usize) -> (done: bool)
        requires
            old(self).produced + frames <= old(self).capacity,
        ensures
            done == (frames == 0),
            final(self).produced == old(self).produced + frames,
            final(self).capacity == old(self).capacity,
            final(self).well_formed(),
    {
        self.produced = self.produced + frames;
        frames == 0
    }
}

// ---------------------------------------------------------------------------
// Feeding a resampler in chunks.
// ---------------------------------------------------------------------------

/// What a resampler is fed: a chunk of the size it asks for, the shorter rest, or nothing, to
/// make it give out what it holds back.
pub enum Feed<S> {
    Chunk(Vec<Vec<S>>),
    Rest(Vec<Vec<S>>),
    Flush,
}

/// The mathematical model of a [`Feed`].
pub enum FeedView<S> {
    Chunk(Seq<Seq<S>>),
    Rest(Seq<Seq<S>>),
    Flush,
}

impl<S> View for Feed<S> {
    type V = FeedView<S>;

    open spec fn view(&self) -> FeedView<S> {
        match self {
            Feed::Chunk(c) => FeedView::Chunk(planar(c@)),
            Feed::Rest(c) => FeedView::Rest(planar(c@)),
            Feed::Flush => FeedView::Flush,
        }
    }
}

/// Whatever `f` returns is the value of `s`.
pub open spec fn steps<S, R, E, F: Fn(R, Feed<S>) -> Result<(R, Vec<Vec<S>>), E>>(
    f: F,
    s: spec_fn(R, FeedView<S>) -> Result<(R, Seq<Seq<S>>), E>,
) -> bool {
    forall|r: R, x: Feed<S>, o: Result<(R, Vec<Vec<S>>), E>| #[trigger]
        f.ensures((r, x), o) ==> s(r, x@) == (match o {
            Ok(p) => Ok::<(R, Seq<Seq<S>>), E>((p.0, planar(p.1@))),
            Err(e) => Err::<(R, Seq<Seq<S>>), E>(e),
        })
}

/// Whatever `f` returns is the value of `s`.
pub open spec fn asks<R, F: Fn(&R) -> usize>(f: F, s: spec_fn(R) -> int) -> bool {
    forall|r: &R, n: usize| #[trigger] f.ensures((r,), n) ==> n == s(*r)
}

/// The frames `from..to` of planar channels.
pub open spec fn window<S>(channels: Seq<Seq<S>>, from: int, to: int) -> Seq<Seq<S>> {
    Seq::new(channels.len(), |c: int| channels[c].subrange(from, to))
}

/// The channels `a`, each followed by its counterpart in `b`, as far as `b` has one.
pub open spec fn extended<S>(a: Seq<Seq<S>>, b: Seq<Seq<S>>) -> Seq<Seq<S>> {
    Seq::new(
        a.len(),
        |c: int|
            if c < b.len() {
                a[c] + b[c]
            } else {
                a[c]
            },
    )
}

/// Where feeding the whole chunks leads to: the resampler, the frames consumed and the output.
pub open spec fn after_chunks<S, R, E>(
    samples: Seq<Seq<S>>,
    frames: int,
    r: R,
    cursor: int,
    out: Seq<Seq<S>>,
    needed: spec_fn(R) -> int,
    step: spec_fn(R, FeedView<S>) -> Result<(R, Seq<Seq<S>>), E>,
) -> Result<(R, int, Seq<Seq<S>>), E>
    decreases frames - cursor,
{
    let n = needed(r);
    if n <= 0 || cursor + n > frames {
        Ok((r, cursor, out))
    } else {
        match step(r, FeedView::Chunk(window(samples, cursor, cursor + n))) {
            Err(e) => Err(e),
            Ok((r2, o)) => after_chunks(
                samples,
                frames,
                r2,
                cursor + n,
                extended(out, o),
                needed,
                step,
            ),
        }
    }
}

/// The number of frames that a resampler gave out.
pub open spec fn given<S>(out: Seq<Seq<S>>) -> nat {
    if out.len() == 0 {
        0
    } else {
        out[0].len()
    }
}

/// The output after flushing at most `times` times.
pub open spec fn after_flushing<S, R, E>(
    r: R,
    out: Seq<Seq<S>>,
    times: nat,
    step: spec_fn(R, FeedView<S>) -> Result<(R, Seq<Seq<S>>), E>,
) -> Result<Seq<Seq<S>>, E>
    decreases times,
{
    if times == 0 {
        Ok(out)
    } else {
        match step(r, FeedView::Flush) {
            Err(e) => Err(e),
            Ok((r2, o)) => if given(o) == 0 {
                Ok(extended(out, o))
            } else {
                after_flushing(r2, extended(out, o), (times - 1) as nat, step)
            },
        }
    }
}

/// The whole output of a resampler that was fed the channels.
pub open spec fn chunked<S, R, E>(
    samples: Seq<Seq<S>>,
    frames: int,
    r: R,
    needed: spec_fn(R) -> int,
    step: spec_fn(R, FeedView<S>) -> Result<(R, Seq<Seq<S>>), E>,
) -> Result<Seq<Seq<S>>, E> {
    let start = Seq::new(samples.len(), |c: int| Seq::<S>::empty());
    match after_chunks(samples, frames, r, 0, start, needed, step) {
        Err(e) => Err(e),
        Ok((r2, cursor, out)) => if cursor < frames {
            match step(r2, FeedView::Rest(window(samples, cursor, frames))) {
                Err(e) => Err(e),
                Ok((r3, o)) => after_flushing(r3, extended(out, o), 3, step),
            }
        } else {
            after_flushing(r2, out, 3, step)
        },
    }
}

/// The samples `from..to` of a channel.
fn slice_of<S: Copy>(channel: &Vec<S>, from: usize, to: usize) -> (r: Vec<S>)
    requires
        from <= to <= channel@.len(),
    ensures
        r@ == channel@.subrange(from as int, to as int),
{
    let mut r: Vec<S> = Vec::new();
    let mut i: usize = from;
    while i < to
        invariant
            from <= i <= to <= channel@.len(),
            r@ == channel@.subrange(from as int, i as int),
        decreases to - i,
    {
        r.push(channel[i]);
        i = i + 1;
        assert(r@ =~= channel@.subrange(from as int, i as int));
    }
    r
}

/// The frames `from..to` of planar channels.
fn window_of<S: Copy>(channels: &Vec<Vec<S>>, frames: usize, from: usize, to: usize) -> (r: Vec<Vec<S>>)
    requires
        rectangular(planar(channels@), frames as nat),
        from <= to <= frames,
    ensures
        planar(r@) == window(planar(channels@), from as int, to as int),
{
    let ghost samples = planar(channels@);
    let mut r: Vec<Vec<S>> = Vec::new();
    while r.len() < channels.len()
        invariant
            samples == planar(channels@),
            rectangular(samples, frames as nat),
            from <= to <= frames,
            r@.len() <= channels@.len(),
            forall|c: int|
                0 <= c < r@.len() ==> (#[trigger] r@[c])@ == samples[c].subrange(from as int, to as int),
        decreases channels.len() - r.len(),
    {
        let c = r.len();
        assert(samples[c as int].len() == frames);
        r.push(slice_of(&channels[c], from, to));
    }
    assert(planar(r@) =~= window(samples, from as int, to as int));
    r
}

/// Append the channels of `src` to those of `dst`.
pub fn append_non_interleaved<S: Copy>(dst: &mut Vec<Vec<S>>, src: &Vec<Vec<S>>)
    ensures
        final(dst)@.len() == old(dst)@.len(),
        planar(final(dst)@) == extended(planar(old(dst)@), planar(src@)),
{
    let ghost start = planar(dst@);
    let ghost more = planar(src@);
    let mut c: usize = 0;
    while c < dst.len() && c < src.len()
        invariant
            start == planar(old(dst)@),
            more == planar(src@),
            dst@.len() == start.len(),
            c <= dst@.len(),
            c <= src@.len(),
            forall|d: int| 0 <= d < c ==> (#[trigger] dst@[d])@ == start[d] + more[d],
            forall|d: int| c <= d < dst@.len() ==> (#[trigger] dst@[d])@ == start[d],
        decreases dst.len() - c,
    {
        let mut own: Vec<S> = Vec::new();
        std::mem::swap(&mut own, &mut dst[c]);
        let mut i: usize = 0;
        while i < src[c].len()
            invariant
                c < src@.len(),
                c < start.len(),
                more == planar(src@),
                i <= src@[c as int]@.len(),
                own@ == start[c as int] + more[c as int].take(i as int),
            decreases src[c as int].len() - i,
        {
            own.push(src[c][i]);
            i = i + 1;
            assert(own@ =~= start[c as int] + more[c as int].take(i as int));
        }
        assert(more[c as int].take(i as int) =~= more[c as int]);
        dst.set(c, own);
        c = c + 1;
    }
    assert(planar(dst@) =~= extended(start, more));
}

/// Run a resampler that takes chunks over planar channels: whole chunks while they last, then
/// the shorter rest, then up to three times nothing, until it gives out no more. Returns all of
/// its output.
pub fn through_chunks<
    S: Copy,
    R,
    E,
    N: Fn(&R) -> usize,
    T: Fn(R, Feed<S>) -> Result<(R, Vec<Vec<S>>), E>,
>(channels: &Vec<Vec<S>>, frames: usize, resampler: R, needed: &N, step: &T) -> (r: Result<
    Vec<Vec<S>>,
    E,
>)
    requires
        rectangular(planar(channels@), frames as nat),
        forall|s: &R| #[trigger] needed.requires((s,)),
        forall|s: &R, n: usize| #[trigger] needed.ensures((s,), n) ==> n > 0,
        forall|s: R, x: Feed<S>| #[trigger] step.requires((s, x)),
    ensures
        r matches Ok(out) ==> out@.len() == channels@.len(),
        forall|n: spec_fn(R) -> int, t: spec_fn(R, FeedView<S>) -> Result<(R, Seq<Seq<S>>), E>|
            asks(*needed, n) && steps(*step, t) ==> match #[trigger] chunked(
                planar(channels@),
                frames as int,
                resampler,
                n,
                t,
            ) {
                Ok(out) => r matches Ok(o) && planar(o@) == out,
                Err(e) => r == Err::<Vec<Vec<S>>, E>(e),
            },
{
    let ghost samples = planar(channels@);
    let ghost start = resampler;
    let ghost blank = Seq::new(samples.len(), |c: int| Seq::<S>::empty());
    let mut state = resampler;
    let mut out: Vec<Vec<S>> = empty_channels(channels.len());
    let mut cursor: usize = 0;
    assert(planar(out@) =~= blank);
    let mut size: usize = needed(&state);
    while size <= frames - cursor
        invariant
            samples == planar(channels@),
            start == resampler,
            blank == Seq::new(samples.len(), |c: int| Seq::<S>::empty()),
            rectangular(samples, frames as nat),
            forall|s: &R| #[trigger] needed.requires((s,)),
            forall|s: &R, n: usize| #[trigger] needed.ensures((s,), n) ==> n > 0,
            forall|s: R, x: Feed<S>| #[trigger] step.requires((s, x)),
            cursor <= frames,
            size > 0,
            needed.ensures((&state,), size),
            out@.len() == channels@.len(),
            forall|n: spec_fn(R) -> int, t: spec_fn(R, FeedView<S>) -> Result<(R, Seq<Seq<S>>), E>|
                asks(*needed, n) && steps(*step, t) ==> #[trigger] after_chunks(
                    samples,
                    frames as int,
                    start,
                    0,
                    blank,
                    n,
                    t,
                ) == after_chunks(
                    samples,
                    frames as int,
                    state,
                    cursor as int,
                    planar(out@),
                    n,
                    t,
                ),
        decreases frames - cursor,
    {
        let chunk = window_of(channels, frames, cursor, cursor + size);
        let ghost before = state;
        let feed = Feed::Chunk(chunk);
        let done = match step(state, feed) {
            Err(e) => {
                proof {
                    assert forall|
                        n: spec_fn(R) -> int,
                        t: spec_fn(R, FeedView<S>) -> Result<(R, Seq<Seq<S>>), E>,
                    | asks(*needed, n) && steps(*step, t) implies #[trigger] chunked(
                        samples,
                        frames as int,
                        start,
                        n,
                        t,
                    ) == Err::<Seq<Seq<S>>, E>(e) by {
                        assert(size == n(before));
                        assert(t(before, feed@) == Err::<(R, Seq<Seq<S>>), E>(e));
                    }
                }
                return Err(e);
            },
            Ok(done) => done,
        };
        let (next, given) = done;
        let ghost out_before = planar(out@);
        append_non_interleaved(&mut out, &given);
        let ghost taken = size;
        let ghost cursor_before = cursor;
        cursor = cursor + size;
        state = next;
        size = needed(&state);
        proof {
            assert forall|
                n: spec_fn(R) -> int,
                t: spec_fn(R, FeedView<S>) -> Result<(R, Seq<Seq<S>>), E>,
            | asks(*needed, n) && steps(*step, t) implies #[trigger] after_chunks(
                samples,
                frames as int,
                start,
                0,
                blank,
                n,
                t,
            ) == after_chunks(
                samples,
                frames as int,
                state,
                cursor as int,
                planar(out@),
                n,
                t,
            ) by {
                assert(taken == n(before));
                assert(t(before, feed@) == Ok::<(R, Seq<Seq<S>>), E>((state, planar(given@))));
                assert(after_chunks(
                    samples,
                    frames as int,
                    before,
                    cursor_before as int,
                    out_before,
                    n,
                    t,
                ) == after_chunks(
                    samples,
                    frames as int,
                    state,
                    cursor as int,
                    planar(out@),
                    n,
                    t,
                ));
            }
        }
    }
    let ghost mid = state;
    let ghost mid_out = planar(out@);
    proof {
        assert forall|
            n: spec_fn(R) -> int,
            t: spec_fn(R, FeedView<S>) -> Result<(R, Seq<Seq<S>>), E>,
        | asks(*needed, n) && steps(*step, t) implies #[trigger] after_chunks(
            samples,
            frames as int,
            start,
            0,
            blank,
            n,
            t,
        ) == Ok::<(R, int, Seq<Seq<S>>), E>((mid, cursor as int, mid_out)) by {
            assert(size == n(mid));
        }
    }
    if cursor < frames {
        let rest = window_of(channels, frames, cursor, frames);
        let feed = Feed::Rest(rest);
        let done = match step(state, feed) {
            Err(e) => {
                proof {
                    assert forall|
                        n: spec_fn(R) -> int,
                        t: spec_fn(R, FeedView<S>) -> Result<(R, Seq<Seq<S>>), E>,
                    | asks(*needed, n) && steps(*step, t) implies #[trigger] chunked(
                        samples,
                        frames as int,
                        start,
                        n,
                        t,
                    ) == Err::<Seq<Seq<S>>, E>(e) by {
                        assert(t(mid, feed@) == Err::<(R, Seq<Seq<S>>), E>(e));
                    }
                }
                return Err(e);
            },
            Ok(done) => done,
        };
        let (next, given) = done;
        append_non_interleaved(&mut out, &given);
        state = next;
        proof {
            assert forall|
                n: spec_fn(R) -> int,
                t: spec_fn(R, FeedView<S>) -> Result<(R, Seq<Seq<S>>), E>,
            | asks(*needed, n) && steps(*step, t) implies #[trigger] chunked(
                samples,
                frames as int,
                start,
                n,
                t,
            ) == after_flushing(state, planar(out@), 3, t) by {
                assert(t(mid, feed@) == Ok::<(R, Seq<Seq<S>>), E>((state, planar(given@))));
            }
        }
    }
    flushed(state, out, step)
}

/// Make a resampler give out what it holds back, and append it to `out`.
fn flushed<S: Copy, R, E, T: Fn(R, Feed<S>) -> Result<(R, Vec<Vec<S>>), E>>(
    resampler: R,
    out: Vec<Vec<S>>,
    step: &T,
) -> (r: Result<Vec<Vec<S>>, E>)
    requires
        forall|s: R, x: Feed<S>| #[trigger] step.requires((s, x)),
    ensures
        r matches Ok(o) ==> o@.len() == out@.len(),
        forall|t: spec_fn(R, FeedView<S>) -> Result<(R, Seq<Seq<S>>), E>| #[trigger]
            steps(*step, t) ==> match after_flushing(resampler, planar(out@), 3, t) {
                Ok(o) => r matches Ok(v) && planar(v@) == o,
                Err(e) => r == Err::<Vec<Vec<S>>, E>(e),
            },
{
    let ghost start = resampler;
    let ghost start_out = planar(out@);
    let mut state = resampler;
    let mut all = out;
    let mut times: usize = 3;
    while times > 0
        invariant
            forall|s: R, x: Feed<S>| #[trigger] step.requires((s, x)),
            times <= 3,
            all@.len() == out@.len(),
            start == resampler,
            start_out == planar(out@),
            forall|t: spec_fn(R, FeedView<S>) -> Result<(R, Seq<Seq<S>>), E>| #[trigger]
                steps(*step, t) ==> after_flushing(start, start_out, 3, t) == after_flushing(
                    state,
                    planar(all@),
                    times as nat,
                    t,
                ),
        decreases times,
    {
        let ghost before = state;
        let feed: Feed<S> = Feed::Flush;
        let done = match step(state, feed) {
            Err(e) => {
                assert forall|t: spec_fn(R, FeedView<S>) -> Result<(R, Seq<Seq<S>>), E>| #[trigger]
                    steps(*step, t) implies after_flushing(start, start_out, 3, t) == Err::<
                    Seq<Seq<S>>,
                    E,
                >(e) by {
                    assert(t(before, feed@) == Err::<(R, Seq<Seq<S>>), E>(e));
                }
                return Err(e);
            },
            Ok(done) => done,
        };
        let (next, more) = done;
        let produced = if more.len() == 0 {
            0
        } else {
            more[0].len()
        };
        append_non_interleaved(&mut all, &more);
        state = next;
        times = times - 1;
        proof {
            assert(produced == given(planar(more@)));
            assert forall|t: spec_fn(R, FeedView<S>) -> Result<(R, Seq<Seq<S>>), E>| #[trigger]
                steps(*step, t) implies after_flushing(start, start_out, 3, t) == (if produced == 0 {
                Ok::<Seq<Seq<S>>, E>(planar(all@))
            } else {
                after_flushing(state, planar(all@), times as nat, t)
            }) by {
                assert(t(before, feed@) == Ok::<(R, Seq<Seq<S>>), E>((state, planar(more@))));
            }
        }
        if produced == 0 {
            return Ok(all);
        }
    }
    Ok(all)
}

// ---------------------------------------------------------------------------
// The step.
// ---------------------------------------------------------------------------

/// `samples` cut or filled up with `zero` to `n` samples.
pub open spec fn fitted<S>(samples: Seq<S>, n: int, zero: S) -> Seq<S> {
    Seq::new(
        n as nat,
        |i: int|
            if i < samples.len() {
                samples[i]
            } else {
                zero
            },
    )
}

/// Cut a channel, or fill it up, to `n` samples.
pub fn fit_length<S: Copy>(channel: &mut Vec<S>, n: usize, zero: S)
    ensures
        final(channel)@ == fitted(old(channel)@, n as int, zero),
{
    if channel.len() > n {
        channel.truncate(n);
    }
    while channel.len() < n
        invariant
            channel@.len() <= n,
            channel@ == fitted(old(channel)@, channel@.len() as int, zero),
            channel@.len() < n ==> channel@.len() >= old(channel)@.len(),
        decreases n - channel.len(),
    {
        channel.push(zero);
        assert(channel@ =~= fitted(old(channel)@, channel@.len() as int, zero));
    }
    assert(channel@ =~= fitted(old(channel)@, n as int, zero));
}

/// Whatever `f` returns is the value of `s`.
pub open spec fn converts<
    S,
    E,
    F: Fn(&Vec<Vec<S>>, u32, u32, ResampleQuality, usize) -> Result<Vec<Vec<S>>, E>,
>(
    f: F,
    s: spec_fn(Seq<Seq<S>>, u32, u32, ResampleQuality, int) -> Result<Seq<Seq<S>>, E>,
) -> bool {
    forall|c: &Vec<Vec<S>>, a: u32, b: u32, q: ResampleQuality, n: usize, r: Result<Vec<Vec<S>>, E>|
        #[trigger]
        f.ensures((c, a, b, q, n), r) ==> s(planar(c@), a, b, q, n as int) == (match r {
            Ok(o) => Ok::<Seq<Seq<S>>, E>(planar(o@)),
            Err(e) => Err::<Seq<Seq<S>>, E>(e),
        })
}

/// There is nothing to convert.
pub open spec fn no_work<S>(b: AudioBuffer<S>, target_rate: u32) -> bool {
    target_rate == b.sample_rate || b.channels@.len() == 0 || b.frames() == 0
}

/// Resample `buffer` to `target_rate` in place. `convert` gets the channels, the two rates, the
/// tier and the number of frames that are wanted. When it fails, nothing changes.
pub fn apply<
    S: Copy,
    E,
    C: Fn(&Vec<Vec<S>>, u32, u32, ResampleQuality, usize) -> Result<Vec<Vec<S>>, E>,
>(
    buffer: &mut AudioBuffer<S>,
    target_rate: u32,
    quality: Option<ResampleQuality>,
    zero: S,
    convert: &C,
) -> (r: Result<(), E>)
    requires
        old(buffer).well_formed(),
        !no_work(*old(buffer), target_rate) ==> old(buffer).sample_rate > 0 && resampled_len(
            old(buffer).frames() as int,
            old(buffer).sample_rate as int,
            target_rate as int,
        ) <= usize::MAX,
        forall|c: &Vec<Vec<S>>, a: u32, b: u32, q: ResampleQuality, n: usize| #[trigger]
            convert.requires((c, a, b, q, n)),
        forall|c: &Vec<Vec<S>>, a: u32, b: u32, q: ResampleQuality, n: usize, o: Vec<Vec<S>>|
            #[trigger]
            convert.ensures((c, a, b, q, n), Ok::<Vec<Vec<S>>, E>(o)) ==> o@.len() == c@.len(),
    ensures
        final(buffer).well_formed(),
        final(buffer).src_info == old(buffer).src_info,
        final(buffer).out_format == old(buffer).out_format,
        final(buffer).channels@.len() == old(buffer).channels@.len(),
        r is Err ==> *final(buffer) == *old(buffer) && !no_work(*old(buffer), target_rate),
        r is Ok ==> final(buffer).sample_rate == target_rate,
        r is Ok && no_work(*old(buffer), target_rate) ==> final(buffer).channels == old(
            buffer,
        ).channels,
        r is Ok && !no_work(*old(buffer), target_rate) ==> final(buffer).frames() == resampled_len(
            old(buffer).frames() as int,
            old(buffer).sample_rate as int,
            target_rate as int,
        ),
        !no_work(*old(buffer), target_rate) ==> forall|
            s: spec_fn(Seq<Seq<S>>, u32, u32, ResampleQuality, int) -> Result<Seq<Seq<S>>, E>,
        | #[trigger]
            converts(*convert, s) ==> {
                let n = resampled_len(
                    old(buffer).frames() as int,
                    old(buffer).sample_rate as int,
                    target_rate as int,
                );
                match s(
                    old(buffer).samples(),
                    old(buffer).sample_rate,
                    target_rate,
                    tier_or_default(quality),
                    n,
                ) {
                    Err(e) => r == Err::<(), E>(e),
                    Ok(out) => r is Ok && forall|c: int|
                        0 <= c < old(buffer).channels@.len() ==> #[trigger] final(buffer).samples()[c]
                            == fitted(out[c], n, zero),
                }
            },
{
    if target_rate == buffer.sample_rate {
        return Ok(());
    }
    let in_frames = buffer.frame_len();
    if buffer.channels.len() == 0 || in_frames == 0 {
        buffer.sample_rate = target_rate;
        return Ok(());
    }
    let expected: usize = match expected_frames(in_frames, buffer.sample_rate, target_rate) {
        Some(n) => n,
        None => 0,
    };
    let mut out = match convert(
        &buffer.channels,
        buffer.sample_rate,
        target_rate,
        tier(quality),
        expected,
    ) {
        Err(e) => {
            return Err(e);
        },
        Ok(out) => out,
    };
    let ghost raw = planar(out@);
    let mut c: usize = 0;
    while c < out.len()
        invariant
            c <= out@.len(),
            out@.len() == raw.len(),
            forall|d: int| 0 <= d < c ==> (#[trigger] out@[d])@ == fitted(raw[d], expected as int, zero),
            forall|d: int| c <= d < out@.len() ==> (#[trigger] out@[d])@ == raw[d],
        decreases out.len() - c,
    {
        let mut own: Vec<S> = Vec::new();
        std::mem::swap(&mut own, &mut out[c]);
        fit_length(&mut own, expected, zero);
        out.set(c, own);
        c = c + 1;
    }
    buffer.channels = out;
    buffer.sample_rate = target_rate;
    proof {
        assert forall|d: int| 0 <= d < buffer.channels@.len() implies #[trigger] buffer.samples()[d]
            == fitted(raw[d], expected as int, zero) by {
            assert(buffer.channels@[d]@ == fitted(raw[d], expected as int, zero));
        }
        assert(buffer.samples()[0].len() == expected);
    }
    Ok(())
}

// ---------------------------------------------------------------------------
// Laws.
// ---------------------------------------------------------------------------

/// The length of the result is the exact ratio, to within half a frame.
pub proof fn law_length_is_within_half_a_frame(frames: nat, source: nat, target: nat)
    requires
        source > 0,
    ensures
        ({
            let n = resampled_len(frames as int, source as int, target as int);
            &&& n >= 0
            &&& 2 * frames * target - source < 2 * n * source <= 2 * frames * target + source
        }),
{
    let num = 2 * frames * target + source;
    let den = 2 * source;
    let n = num as int / den as int;
    assert(num >= 0) by (nonlinear_arith)
        requires
            num == 2 * frames * target + source,
    ;
    lemma_fundamental_div_mod(num as int, den as int);
    lemma_mod_bound(num as int, den as int);
    assert(n >= 0) by {
        lemma_div_pos_is_pos(num as int, den as int);
    }
    assert(den * n == 2 * n * source) by (nonlinear_arith)
        requires
            den == 2 * source,
    ;
}

/// Keeping the rate keeps the length.
pub proof fn law_same_rate_keeps_the_length(frames: nat, rate: nat)
    requires
        rate > 0,
    ensures
        resampled_len(frames as int, rate as int, rate as int) == frames,
{
    let f = frames as int;
    let r = rate as int;
    assert(2 * f * r + r == f * (2 * r) + r) by (nonlinear_arith);
    lemma_fundamental_div_mod_converse(2 * f * r + r, 2 * r, f, r);
}

/// Converting up and back restores the length.
pub proof fn law_up_and_back_restores_the_length(frames: nat, low: nat, high: nat)
    requires
        0 < low < high,
    ensures
        resampled_len(
            resampled_len(frames as int, low as int, high as int),
            high as int,
            low as int,
        ) == frames,
{
    let f = frames as int;
    let l = low as int;
    let h = high as int;
    let up = resampled_len(f, l, h);
    law_length_is_within_half_a_frame(frames, low, high);
    // 2 f h - l < 2 up l <= 2 f h + l, and l < h.
    assert(f * (2 * h) <= 2 * up * l + h && 2 * up * l + h < (f + 1) * (2 * h)) by (nonlinear_arith)
        requires
            2 * f * h - l < 2 * up * l <= 2 * f * h + l,
            0 < l < h,
    ;
    let rem = 2 * up * l + h - f * (2 * h);
    assert((f + 1) * (2 * h) == f * (2 * h) + 2 * h) by (nonlinear_arith);
    lemma_fundamental_div_mod_converse(2 * up * l + h, 2 * h, f, rem);
}

/// A resampler is fed every frame once, in order, and all it gives is kept, in order: one that
/// gives back what it is fed, and holds nothing back, leaves the audio as it is.
pub proof fn law_every_frame_is_fed_once<S, R, E>(
    samples: Seq<Seq<S>>,
    frames: nat,
    r: R,
    needed: spec_fn(R) -> int,
    step: spec_fn(R, FeedView<S>) -> Result<(R, Seq<Seq<S>>), E>,
)
    requires
        rectangular(samples, frames),
        forall|a: R, x: Seq<Seq<S>>|
            (#[trigger] step(a, FeedView::Chunk(x))) matches Ok((b, o)) && o == x,
        forall|a: R, x: Seq<Seq<S>>|
            (#[trigger] step(a, FeedView::Rest(x))) matches Ok((b, o)) && o == x,
        forall|a: R| (#[trigger] step(a, FeedView::Flush)) matches Ok((b, o)) && o.len() == 0,
    ensures
        chunked(samples, frames as int, r, needed, step) == Ok::<Seq<Seq<S>>, E>(samples),
{
    let start = Seq::new(samples.len(), |c: int| Seq::<S>::empty());
    assert(start =~= window(samples, 0, 0)) by {
        assert forall|c: int| 0 <= c < samples.len() implies start[c] == samples[c].subrange(0, 0) by {
            assert(samples[c].len() == frames);
            assert(start[c] =~= samples[c].subrange(0, 0));
        }
    }
    lemma_fed_in_order(samples, frames as int, r, 0, needed, step);
    let (r2, cursor, out) = after_chunks(samples, frames as int, r, 0, start, needed, step)->Ok_0;
    let whole = window(samples, 0, frames as int);
    assert(whole =~= samples) by {
        assert forall|c: int| 0 <= c < samples.len() implies whole[c] == samples[c] by {
            assert(samples[c].len() == frames);
            assert(whole[c] =~= samples[c]);
        }
    }
    if cursor < frames {
        let (r3, o) = step(r2, FeedView::Rest(window(samples, cursor, frames as int)))->Ok_0;
        lemma_windows_join(samples, frames as int, cursor, frames as int);
        let flushed = step(r3, FeedView::Flush)->Ok_0.1;
        assert(extended(samples, flushed) =~= samples);
    } else {
        let flushed = step(r2, FeedView::Flush)->Ok_0.1;
        assert(extended(samples, flushed) =~= samples);
    }
}

/// Two windows that meet are one.
proof fn lemma_windows_join<S>(samples: Seq<Seq<S>>, frames: int, at: int, to: int)
    requires
        rectangular(samples, frames as nat),
        0 <= at <= to <= frames,
    ensures
        extended(window(samples, 0, at), window(samples, at, to)) == window(samples, 0, to),
{
    let both = extended(window(samples, 0, at), window(samples, at, to));
    assert forall|c: int| 0 <= c < samples.len() implies both[c] == window(samples, 0, to)[c] by {
        assert(samples[c].len() == frames);
        assert(both[c] =~= samples[c].subrange(0, to));
    }
    assert(both =~= window(samples, 0, to));
}

proof fn lemma_fed_in_order<S, R, E>(
    samples: Seq<Seq<S>>,
    frames: int,
    r: R,
    cursor: int,
    needed: spec_fn(R) -> int,
    step: spec_fn(R, FeedView<S>) -> Result<(R, Seq<Seq<S>>), E>,
)
    requires
        rectangular(samples, frames as nat),
        0 <= cursor <= frames,
        forall|a: R, x: Seq<Seq<S>>|
            (#[trigger] step(a, FeedView::Chunk(x))) matches Ok((b, o)) && o == x,
    ensures
        after_chunks(samples, frames, r, cursor, window(samples, 0, cursor), needed, step) matches Ok(
            done,
        ) && cursor <= done.1 <= frames && done.2 == window(samples, 0, done.1),
    decreases frames - cursor,
{
    let n = needed(r);
    if !(n <= 0 || cursor + n > frames) {
        let x = window(samples, cursor, cursor + n);
        let (r2, o) = step(r, FeedView::Chunk(x))->Ok_0;
        lemma_windows_join(samples, frames, cursor, cursor + n);
        lemma_fed_in_order(samples, frames, r2, cursor + n, needed, step);
    }
}

/// The result is aligned with the source: where a resampler gives the frames of some channels
/// after `delay` others, the channels come out as they are, followed by silence.
pub proof fn law_delay_is_taken_off<S>(
    channels: Seq<Seq<S>>,
    frames: nat,
    lead: Seq<S>,
    delay: nat,
    zero: S,
    c: int,
    i: int,
)
    requires
        0 <= c < channels.len(),
        0 <= i,
        rectangular(channels, frames),
        lead.len() == delay * channels.len(),
    ensures
        aligned_sample(
            lead + interleaved(channels, frames),
            channels.len() as int,
            (delay + frames) as int,
            delay as int,
            zero,
            c,
            i,
        ) == if i < frames {
            channels[c][i]
        } else {
            zero
        },
{
    if i < frames {
        law_interleaved_order(channels, frames, c, i);
        let w = channels.len() as int;
        assert((delay + i) * w + c == delay * w + (i * w + c)) by (nonlinear_arith);
        assert(delay * w >= 0) by (nonlinear_arith)
            requires
                w >= 0,
        ;
    }
}

/// Fitting cuts or fills up at the end: what fits is kept as it is, the rest is silence.
pub proof fn law_fitting_keeps_the_start<S>(samples: Seq<S>, n: nat, zero: S)
    ensures
        fitted(samples, n as int, zero).len() == n,
        n <= samples.len() ==> fitted(samples, n as int, zero) == samples.take(n as int),
        n >= samples.len() ==> fitted(samples, n as int, zero) == samples + Seq::new(
            (n - samples.len()) as nat,
            |i: int| zero,
        ),
{
    if n <= samples.len() {
        assert(fitted(samples, n as int, zero) =~= samples.take(n as int));
    }
    if n >= samples.len() {
        assert(fitted(samples, n as int, zero) =~= samples + Seq::new(
            (n - samples.len()) as nat,
            |i: int| zero,
        ));
    }
}

/// A better tier has a longer filter with a higher cutoff and a finer table, from 96 taps at
/// 0.9 of the band to 256 taps at 0.95. Without a choice the tier is the second best.
pub proof fn law_tiers_rise()
    ensures
        ({
            let lq = sinc_plan(ResampleQuality::Lq);
            let mq = sinc_plan(ResampleQuality::Mq);
            let hq = sinc_plan(ResampleQuality::Hq);
            let vhq = sinc_plan(ResampleQuality::Vhq);
            &&& lq.sinc_len == 96 && mq.sinc_len == 128 && hq.sinc_len == 192 && vhq.sinc_len == 256
            &&& lq.cutoff == 900 && mq.cutoff == 920 && hq.cutoff == 945 && vhq.cutoff == 950
            &&& lq.oversampling_factor == 64 && mq.oversampling_factor == 96
                && hq.oversampling_factor == 128 && vhq.oversampling_factor == 160
            &&& lq.interpolation is Linear && mq.interpolation is Quadratic && hq.interpolation is Cubic
                && vhq.interpolation is Cubic
            &&& lq.window is Hann && mq.window is Blackman && hq.window is BlackmanHarris
                && vhq.window is BlackmanHarris2
        }),
        tier_or_default(None) is Hq,
        forall|q: ResampleQuality| #[trigger] tier_or_default(Some(q)) == q,
{
}

/// There is nothing to convert exactly when the rate is the target already or there are no
/// samples.
pub proof fn law_work_is_needed_for_samples_at_another_rate<S>(b: AudioBuffer<S>, target_rate: u32)
    ensures
        !no_work(b, target_rate) <==> b.sample_rate != target_rate && b.channels@.len() > 0 && b.frames()
            > 0,
{
}

/// The number of frames that were given out is that of every channel.
pub proof fn law_frames_given_out<S>(out: Seq<Seq<S>>, n: nat)
    requires
        rectangular(out, n),
    ensures
        out.len() > 0 ==> given(out) == n,
        out.len() == 0 ==> given(out) == 0,
{
}

} // verus!

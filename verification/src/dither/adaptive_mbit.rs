//! Adaptive noise shaping: one filter per analysis frame, blended between frames.
//!
//! The filters themselves are designed by the caller, from the thresholds of a frame.
use vstd::prelude::*;
use crate::audio::buffer::planar;
use crate::closures::{accepts3, computes3};
use crate::dither::psychoacoustic::{HOP_SIZE, PsychoacousticAnalysis};
use crate::dither::shaper::{blank_history, new_history};

verus! {

/// The most taps of an adaptive filter.
pub const MAX_FILTER_ORDER: usize = 9;

/// An adaptive noise shaper: the taps of every frame.
#[derive(Debug, Clone)]
pub struct AdaptiveShaper<T> {
    coeffs_per_frame: Vec<Vec<T>>,
}

/// Whatever `f` returns for a spectrum and an order is the value of `s`, which looks at the
/// contents of the spectrum.
pub open spec fn designs<T, F: Fn(&Vec<T>, usize) -> Vec<T>>(
    f: F,
    s: spec_fn(Seq<T>, usize) -> Seq<T>,
) -> bool {
    forall|v: &Vec<T>, n: usize, r: Vec<T>| #[trigger] f.ensures((v, n), r) ==> r@ == s(v@, n)
}

/// The taps at sample `n`: those of its frame, blended with those of the next frame. `blend`
/// mixes two taps at the given place in the hop; a tap that the next frame lacks counts as
/// `zero`. From the last frame on there is nothing to blend with.
pub open spec fn taps_at<T>(
    frames: Seq<Seq<T>>,
    n: nat,
    zero: T,
    blend: spec_fn(T, T, usize) -> T,
) -> Seq<T> {
    let f = n / 512;
    if frames.len() == 0 {
        blank_history(zero, 9)
    } else if f + 1 >= frames.len() {
        frames.last()
    } else {
        let cur = frames[f as int];
        let next = frames[f as int + 1];
        Seq::new(
            cur.len(),
            |k: int|
                blend(
                    cur[k],
                    if k < next.len() {
                        next[k]
                    } else {
                        zero
                    },
                    (n % 512) as usize,
                ),
        )
    }
}

/// The number of taps that a filter for `bins` bins is designed with when `order` are asked
/// for: at least one, at most half the transform.
pub fn design_order(bins: usize, order: usize) -> (r: usize)
    requires
        bins > 0,
    ensures
        1 <= r,
        r == (if order <= bins - 1 && order >= 1 {
            order as int
        } else if bins - 1 >= 1 && order >= 1 {
            bins - 1
        } else {
            1
        }),
{
    let half = bins - 1;
    let low = if order < half {
        order
    } else {
        half
    };
    if low < 1 {
        1
    } else {
        low
    }
}

/// The order that is used when `order` is asked for.
pub open spec fn capped_order(order: usize) -> usize {
    if order < MAX_FILTER_ORDER {
        order
    } else {
        MAX_FILTER_ORDER
    }
}

impl<T: Copy> AdaptiveShaper<T> {
    /// The taps of every frame.
    pub closed spec fn frames(self) -> Seq<Seq<T>> {
        planar(self.coeffs_per_frame@)
    }

    /// Design a shaper from an analysis. `design(spectrum, order)` gives the taps of one
    /// frame; the order is at most `MAX_FILTER_ORDER`.
    pub fn from_analysis<F: Fn(&Vec<T>, usize) -> Vec<T>>(
        analysis: &PsychoacousticAnalysis<T>,
        target_order: usize,
        design: &F,
    ) -> (r: AdaptiveShaper<T>)
        requires
            crate::closures::accepts_ref_with(*design),
        ensures
            r.frames().len() == analysis.thresholds@.len(),
            forall|d: spec_fn(Seq<T>, usize) -> Seq<T>, i: int|
                designs(*design, d) && 0 <= i < analysis.thresholds@.len() ==> r.frames()[i]
                    == #[trigger] d(
                    analysis.thresholds@[i]@,
                    capped_order(target_order),
                ),
    {
        let order = if target_order < MAX_FILTER_ORDER {
            target_order
        } else {
            MAX_FILTER_ORDER
        };
        let mut coeffs_per_frame: Vec<Vec<T>> = Vec::new();
        let mut i: usize = 0;
        while i < analysis.thresholds.len()
            invariant
                crate::closures::accepts_ref_with(*design),
                i <= analysis.thresholds@.len(),
                coeffs_per_frame@.len() == i,
                forall|d: spec_fn(Seq<T>, usize) -> Seq<T>, j: int|
                    designs(*design, d) && 0 <= j < i ==> coeffs_per_frame@[j]@ == #[trigger] d(
                        analysis.thresholds@[j]@,
                        order,
                    ),
            decreases analysis.thresholds.len() - i,
        {
            coeffs_per_frame.push(design(&analysis.thresholds[i], order));
            i = i + 1;
        }
        AdaptiveShaper { coeffs_per_frame }
    }

    /// The taps at sample `n`.
    pub fn coeffs_for_sample<B: Fn(T, T, usize) -> T>(&self, n: usize, zero: T, blend: &B) -> (r: Vec<
        T,
    >)
        requires
            accepts3(*blend),
        ensures
            forall|b: spec_fn(T, T, usize) -> T| computes3(*blend, b) ==> r@ == #[trigger] taps_at(
                self.frames(),
                n as nat,
                zero,
                b,
            ),
            self.frames().len() > 0 && n / 512 + 1 >= self.frames().len() ==> r@
                == self.frames().last(),
    {
        let count = self.coeffs_per_frame.len();
        if count == 0 {
            return new_history(zero, MAX_FILTER_ORDER);
        }
        let frame = n / HOP_SIZE;
        let place = n % HOP_SIZE;
        if frame >= count - 1 {
            let last = copied(&self.coeffs_per_frame[count - 1]);
            assert(self.frames().last() == last@);
            return last;
        }
        let cur = &self.coeffs_per_frame[frame];
        let next = &self.coeffs_per_frame[frame + 1];
        let mut out: Vec<T> = Vec::new();
        let mut k: usize = 0;
        while k < cur.len()
            invariant
                accepts3(*blend),
                k <= cur@.len(),
                out@.len() == k,
                forall|b: spec_fn(T, T, usize) -> T, j: int|
                    #![trigger computes3(*blend, b), out@[j]]
                    computes3(*blend, b) && 0 <= j < k ==> out@[j] == b(
                        cur@[j],
                        if j < next@.len() {
                            next@[j]
                        } else {
                            zero
                        },
                        place,
                    ),
            decreases cur.len() - k,
        {
            let after = if k < next.len() {
                next[k]
            } else {
                zero
            };
            out.push(blend(cur[k], after, place));
            k = k + 1;
        }
        proof {
            assert forall|b: spec_fn(T, T, usize) -> T| computes3(*blend, b) implies out@
                == #[trigger] taps_at(self.frames(), n as nat, zero, b) by {
                let whole = taps_at(self.frames(), n as nat, zero, b);
                assert(self.frames()[frame as int] == cur@);
                assert(self.frames()[frame + 1] == next@);
                assert(out@ =~= whole);
            }
        }
        out
    }

    /// The number of frames.
    pub fn num_frames(&self) -> (r: usize)
        ensures
            r == self.frames().len(),
    {
        self.coeffs_per_frame.len()
    }

    /// The number of taps of the first frame, none without frames.
    pub fn order(&self) -> (r: usize)
        ensures
            r == (if self.frames().len() == 0 {
                0
            } else {
                self.frames()[0].len()
            }),
    {
        if self.coeffs_per_frame.len() == 0 {
            0
        } else {
            self.coeffs_per_frame[0].len()
        }
    }

    /// The taps of every frame.
    pub fn frame_coeffs(&self) -> (r: &Vec<Vec<T>>)
        ensures
            planar(r@) == self.frames(),
    {
        &self.coeffs_per_frame
    }
}

fn copied<T: Copy>(v: &Vec<T>) -> (r: Vec<T>)
    ensures
        r@ == v@,
{
    let mut r: Vec<T> = Vec::new();
    let mut i: usize = 0;
    while i < v.len()
        invariant
            i <= v@.len(),
            r@ == v@.take(i as int),
        decreases v.len() - i,
    {
        r.push(v[i]);
        assert(v@.take(i + 1) =~= v@.take(i as int).push(v@[i as int]));
        i = i + 1;
    }
    assert(v@.take(v@.len() as int) =~= v@);
    r
}

/// At the start of a frame the taps are exactly those of the frame, if blending at the start
/// of a hop keeps the first tap.
pub proof fn law_frame_starts_are_exact<T>(
    frames: Seq<Seq<T>>,
    f: nat,
    zero: T,
    blend: spec_fn(T, T, usize) -> T,
)
    requires
        f < frames.len(),
        forall|a: T, b: T| #[trigger] blend(a, b, 0) == a,
    ensures
        taps_at(frames, 512 * f, zero, blend) == frames[f as int],
{
    assert((512 * f) / 512 == f && (512 * f) % 512 == 0);
    assert(taps_at(frames, 512 * f, zero, blend) =~= frames[f as int]);
}

/// Between two frames the taps are blended by the place in the hop of 512 samples; a tap that
/// the next frame lacks counts as zero.
pub proof fn law_taps_are_blended_between_frames<T>(
    frames: Seq<Seq<T>>,
    f: nat,
    place: usize,
    k: int,
    zero: T,
    blend: spec_fn(T, T, usize) -> T,
)
    requires
        f + 1 < frames.len(),
        place < 512,
        0 <= k < frames[f as int].len(),
    ensures
        taps_at(frames, 512 * f + place as nat, zero, blend).len() == frames[f as int].len(),
        k < frames[f as int + 1].len() ==> taps_at(frames, 512 * f + place as nat, zero, blend)[k]
            == blend(frames[f as int][k], frames[f as int + 1][k], place),
        k >= frames[f as int + 1].len() ==> taps_at(frames, 512 * f + place as nat, zero, blend)[k]
            == blend(frames[f as int][k], zero, place),
{
    assert((512 * f + place as nat) / 512 == f && (512 * f + place as nat) % 512 == place);
}

/// From the last frame on the taps stay those of the last frame. Without frames all nine taps
/// are zero.
pub proof fn law_taps_stay_those_of_the_last_frame<T>(
    frames: Seq<Seq<T>>,
    n: nat,
    k: int,
    zero: T,
    blend: spec_fn(T, T, usize) -> T,
)
    ensures
        frames.len() > 0 && n >= 512 * (frames.len() - 1) ==> taps_at(frames, n, zero, blend)
            == frames[frames.len() - 1],
        frames.len() == 0 ==> taps_at(frames, n, zero, blend).len() == 9,
        frames.len() == 0 && 0 <= k < 9 ==> taps_at(frames, n, zero, blend)[k] == zero,
{
}

/// A filter has the taps that were asked for, and at most nine.
pub proof fn law_filters_have_at_most_nine_taps(order: usize)
    ensures
        capped_order(order) <= 9,
        order <= 9 ==> capped_order(order) == order,
        order > 9 ==> capped_order(order) == 9,
{
}

} // verus!

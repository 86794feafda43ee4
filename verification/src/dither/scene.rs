//! Scene-adaptive MBIT+ quantization.
//!
//! Every frame is judged as a whole: its scene decides how much dither is added, how the noise
//! of the channels is related and how strongly past errors are fed back. The judgement is
//! arithmetic on samples and is handed in by the caller:
//! - `observe(states, frame)`: the channel states and the scene after a frame has come in;
//! - `aim(state, scene, x, max)`: the sample scaled to the grid, less the shaped past errors;
//! - `noisy(u, scene, base, side)`: the bits of `u` plus the noise of the channel, made of the
//!   shared noise and, on all channels but the first, noise of its own;
//! - `settle(state, scene, y, u)`: the channel state after code `y` stood for `u`.
use vstd::prelude::*;
use vstd::arithmetic::power2::{lemma2_to64, lemma2_to64_rest, lemma_pow2_adds, pow2};
use crate::audio::buffer::{planar, rectangular};
use crate::audio::planar::frame_at;
use crate::dither::TpdfDither;
use crate::dither::multichannel::{
    channel_seed, drawn, drawn_per_channel, law_first_channel_uses_the_base_seed, per_channel_seed,
};
use crate::dither::shaper::Grid;
use crate::level::{Level, law_order_is_the_order_of_values, law_snapping_goes_to_the_nearest};

verus! {

/// The bits of 20.
pub const WIDE_DYNAMICS_DB: u64 = 0x4034_0000_0000_0000;

/// The bits of -8.
pub const LOUD_LUFS: u64 = 0xC020_0000_0000_0000;

/// How the quantizer treats a scene.
#[derive(Clone, Copy, Debug, PartialEq, Eq, Structural)]
pub enum AdaptiveMode {
    Transparent,
    Balanced,
    Aggressive,
}

/// The mode for a loudness and a dynamic range.
pub open spec fn mode_for(lufs: Level, dynamic_range: Level) -> AdaptiveMode {
    if (Level { bits: WIDE_DYNAMICS_DB }).below(dynamic_range) {
        AdaptiveMode::Transparent
    } else if (Level { bits: LOUD_LUFS }).below(lufs) {
        AdaptiveMode::Aggressive
    } else {
        AdaptiveMode::Balanced
    }
}

/// The mode for a loudness and a dynamic range: wide dynamics are left alone, loud material
/// hides the most noise.
pub fn select_mode(lufs: Level, dynamic_range: Level) -> (r: AdaptiveMode)
    ensures
        r == mode_for(lufs, dynamic_range),
{
    if (Level { bits: WIDE_DYNAMICS_DB }).is_below(dynamic_range) {
        AdaptiveMode::Transparent
    } else if (Level { bits: LOUD_LUFS }).is_below(lufs) {
        AdaptiveMode::Aggressive
    } else {
        AdaptiveMode::Balanced
    }
}

/// The weight of a tap at a frequency, in hundredths.
pub fn noise_shape(freq_hz: u32, mode: AdaptiveMode) -> (r: i32)
    ensures
        r == (match mode {
            AdaptiveMode::Transparent => 30int,
            AdaptiveMode::Balanced => if freq_hz > 8_000 {
                180
            } else if freq_hz < 200 {
                60
            } else {
                100
            },
            AdaptiveMode::Aggressive => if freq_hz > 10_000 {
                250
            } else {
                120
            },
        }),
{
    match mode {
        AdaptiveMode::Transparent => 30,
        AdaptiveMode::Balanced => {
            if freq_hz > 8_000 {
                180
            } else if freq_hz < 200 {
                60
            } else {
                100
            }
        },
        AdaptiveMode::Aggressive => {
            if freq_hz > 10_000 {
                250
            } else {
                120
            }
        },
    }
}

/// The scene after a frame has come in, as a mathematical function.
pub open spec fn observes<S, St, Sc, F: Fn(&Vec<St>, &Vec<S>) -> (Vec<St>, Sc)>(
    f: F,
    s: spec_fn(Seq<St>, Seq<S>) -> (Seq<St>, Sc),
) -> bool {
    forall|v: &Vec<St>, x: &Vec<S>, r: (Vec<St>, Sc)| #[trigger]
        f.ensures((v, x), r) ==> r.0@ == s(v@, x@).0 && r.1 == s(v@, x@).1
}

/// Whatever `f` returns is the value of `s`.
pub open spec fn scene_aims<S, St, Sc, F: Fn(&St, &Sc, S, i32) -> S>(
    f: F,
    s: spec_fn(St, Sc, S, i32) -> S,
) -> bool {
    forall|t: &St, c: &Sc, x: S, m: i32, r: S| #[trigger] f.ensures((t, c, x, m), r) ==> r == s(
        *t,
        *c,
        x,
        m,
    )
}

/// Whatever `f` returns is the value of `s`.
pub open spec fn scene_noisy<S, Sc, F: Fn(S, &Sc, i64, Option<i64>) -> Level>(
    f: F,
    s: spec_fn(S, Sc, i64, Option<i64>) -> Level,
) -> bool {
    forall|u: S, c: &Sc, b: i64, d: Option<i64>, r: Level| #[trigger]
        f.ensures((u, c, b, d), r) ==> r == s(u, *c, b, d)
}

/// Whatever `f` returns is the value of `s`.
pub open spec fn scene_settles<S, St, Sc, F: Fn(&St, &Sc, i32, S) -> St>(
    f: F,
    s: spec_fn(St, Sc, i32, S) -> St,
) -> bool {
    forall|t: &St, c: &Sc, y: i32, u: S, r: St| #[trigger] f.ensures((t, c, y, u), r) ==> r == s(
        *t,
        *c,
        y,
        u,
    )
}

/// The noise of a channel's own in frame `n`; the first channel has none.
pub open spec fn side_noise(noise: Seq<spec_fn(nat) -> int>, c: int, n: nat) -> Option<i64> {
    if c == 0 {
        None
    } else {
        Some(noise[c](n) as i64)
    }
}

/// The code of channel `c` in frame `n`. The noise of the first channel is the shared one.
pub open spec fn scene_code<S, St, Sc>(
    state: St,
    scene: Sc,
    x: S,
    noise: Seq<spec_fn(nat) -> int>,
    c: int,
    n: nat,
    grid: Grid,
    aim: spec_fn(St, Sc, S, i32) -> S,
    noisy: spec_fn(S, Sc, i64, Option<i64>) -> Level,
) -> i32 {
    noisy(
        aim(state, scene, x, grid.max),
        scene,
        noise[0](n) as i64,
        side_noise(noise, c, n),
    ).snapped(grid.lo as int, grid.hi as int) as i32
}

/// The channel states before frame `n`.
pub open spec fn states_before<S, St, Sc>(
    samples: Seq<Seq<S>>,
    n: nat,
    init: St,
    noise: Seq<spec_fn(nat) -> int>,
    grid: Grid,
    observe: spec_fn(Seq<St>, Seq<S>) -> (Seq<St>, Sc),
    aim: spec_fn(St, Sc, S, i32) -> S,
    noisy: spec_fn(S, Sc, i64, Option<i64>) -> Level,
    settle: spec_fn(St, Sc, i32, S) -> St,
) -> Seq<St>
    decreases n,
{
    if n == 0 {
        Seq::new(samples.len(), |c: int| init)
    } else {
        let m = (n - 1) as nat;
        let before = states_before(samples, m, init, noise, grid, observe, aim, noisy, settle);
        let (seen, scene) = observe(before, frame_at(samples, m as int));
        Seq::new(
            samples.len(),
            |c: int|
                settle(
                    seen[c],
                    scene,
                    scene_code(seen[c], scene, samples[c][m as int], noise, c, m, grid, aim, noisy),
                    aim(seen[c], scene, samples[c][m as int], grid.max),
                ),
        )
    }
}

/// The code of sample `n` of channel `c` of a buffer that `noise` dithers.
pub open spec fn scene_code_at<S, St, Sc>(
    samples: Seq<Seq<S>>,
    n: nat,
    c: int,
    init: St,
    noise: Seq<spec_fn(nat) -> int>,
    grid: Grid,
    observe: spec_fn(Seq<St>, Seq<S>) -> (Seq<St>, Sc),
    aim: spec_fn(St, Sc, S, i32) -> S,
    noisy: spec_fn(S, Sc, i64, Option<i64>) -> Level,
    settle: spec_fn(St, Sc, i32, S) -> St,
) -> i32 {
    let before = states_before(samples, n, init, noise, grid, observe, aim, noisy, settle);
    let (seen, scene) = observe(before, frame_at(samples, n as int));
    scene_code(seen[c], scene, samples[c][n as int], noise, c, n, grid, aim, noisy)
}

/// Quantize a buffer of planar channels. Returns the codes of every channel.
pub fn quantize_mbit_plus<
    S: Copy,
    St: Copy,
    Sc,
    O: Fn(&Vec<St>, &Vec<S>) -> (Vec<St>, Sc),
    A: Fn(&St, &Sc, S, i32) -> S,
    N: Fn(S, &Sc, i64, Option<i64>) -> Level,
    T: Fn(&St, &Sc, i32, S) -> St,
>(
    channels: &Vec<Vec<S>>,
    frames: usize,
    init: St,
    seed: Option<u64>,
    grid: Grid,
    observe: &O,
    aim: &A,
    noisy: &N,
    settle: &T,
) -> (codes: Vec<Vec<i32>>)
    requires
        rectangular(planar(channels@), frames as nat),
        grid.well_formed(),
        forall|v: &Vec<St>, x: &Vec<S>| #[trigger] observe.requires((v, x)),
        forall|v: &Vec<St>, x: &Vec<S>, r: (Vec<St>, Sc)| #[trigger]
            observe.ensures((v, x), r) ==> r.0@.len() == v@.len(),
        forall|t: &St, c: &Sc, x: S, m: i32| #[trigger] aim.requires((t, c, x, m)),
        forall|u: S, c: &Sc, b: i64, d: Option<i64>| #[trigger] noisy.requires((u, c, b, d)),
        forall|t: &St, c: &Sc, y: i32, u: S| #[trigger] settle.requires((t, c, y, u)),
    ensures
        codes@.len() == channels@.len(),
        rectangular(planar(codes@), frames as nat),
        forall|c: int, n: int|
            0 <= c < channels@.len() && 0 <= n < frames ==> grid.has(#[trigger] codes@[c]@[n] as int),
        exists|noise: Seq<spec_fn(nat) -> int>| #[trigger]
            drawn_per_channel(noise, channels@.len(), seed) && forall|
                o: spec_fn(Seq<St>, Seq<S>) -> (Seq<St>, Sc),
                a: spec_fn(St, Sc, S, i32) -> S,
                ny: spec_fn(S, Sc, i64, Option<i64>) -> Level,
                t: spec_fn(St, Sc, i32, S) -> St,
                n: nat,
                c: int,
            |
                observes(*observe, o) && scene_aims(*aim, a) && scene_noisy(*noisy, ny)
                    && scene_settles(*settle, t) && n < frames && 0 <= c < channels@.len()
                    ==> codes@[c]@[n as int] == #[trigger] scene_code_at(
                    planar(channels@),
                    n,
                    c,
                    init,
                    noise,
                    grid,
                    o,
                    a,
                    ny,
                    t,
                ),
{
    let ghost samples = planar(channels@);
    let count = channels.len();
    let mut states: Vec<St> = Vec::new();
    let mut own: Vec<TpdfDither> = Vec::new();
    let mut codes: Vec<Vec<i32>> = Vec::new();
    while states.len() < count
        invariant
            states@.len() <= count,
            own@.len() == states@.len(),
            codes@.len() == states@.len(),
            forall|c: int| 0 <= c < states@.len() ==> #[trigger] states@[c] == init,
            forall|c: int| 0 <= c < codes@.len() ==> (#[trigger] codes@[c])@.len() == 0,
            forall|c: int|
                0 <= c < own@.len() ==> drawn(
                    (#[trigger] own@[c]).stream(),
                    match seed {
                        Some(s) => Some(channel_seed(s, c)),
                        None => None,
                    },
                ),
        decreases count - states.len(),
    {
        let c = states.len();
        own.push(TpdfDither::new(per_channel_seed(seed, c)));
        states.push(init);
        codes.push(Vec::new());
    }
    let mut shared = TpdfDither::new(seed);
    let ghost first = shared;
    let ghost firsts = own@;
    let ghost noise: Seq<spec_fn(nat) -> int> = Seq::new(
        count as nat,
        |c: int|
            if c == 0 {
                first.stream()
            } else {
                firsts[c].stream()
            },
    );
    proof {
        assert forall|c: int| 0 <= c < count implies drawn(
            #[trigger] noise[c],
            match seed {
                Some(s) => Some(channel_seed(s, c)),
                None => None,
            },
        ) by {
            if let Some(s) = seed {
                law_first_channel_uses_the_base_seed(s);
            }
        }
        assert forall|
            o: spec_fn(Seq<St>, Seq<S>) -> (Seq<St>, Sc),
            a: spec_fn(St, Sc, S, i32) -> S,
            ny: spec_fn(S, Sc, i64, Option<i64>) -> Level,
            t: spec_fn(St, Sc, i32, S) -> St,
        | states@ == #[trigger] states_before(samples, 0, init, noise, grid, o, a, ny, t) by {
            assert(states@ =~= states_before(samples, 0, init, noise, grid, o, a, ny, t));
        }
    }
    let mut n: usize = 0;
    while n < frames
        invariant
            n <= frames,
            count == channels@.len(),
            samples == planar(channels@),
            rectangular(samples, frames as nat),
            grid.well_formed(),
            forall|v: &Vec<St>, x: &Vec<S>| #[trigger] observe.requires((v, x)),
            forall|v: &Vec<St>, x: &Vec<S>, r: (Vec<St>, Sc)| #[trigger]
                observe.ensures((v, x), r) ==> r.0@.len() == v@.len(),
            forall|t: &St, c: &Sc, x: S, m: i32| #[trigger] aim.requires((t, c, x, m)),
            forall|u: S, c: &Sc, b: i64, d: Option<i64>| #[trigger] noisy.requires((u, c, b, d)),
            forall|t: &St, c: &Sc, y: i32, u: S| #[trigger] settle.requires((t, c, y, u)),
            states@.len() == count,
            own@.len() == count,
            codes@.len() == count,
            forall|c: int| 0 <= c < count ==> (#[trigger] codes@[c])@.len() == n,
            forall|c: int, k: int|
                0 <= c < count && 0 <= k < n ==> grid.has(#[trigger] codes@[c]@[k] as int),
            noise.len() == count,
            count > 0 ==> noise[0] == first.stream(),
            forall|c: int| 1 <= c < count ==> #[trigger] noise[c] == firsts[c].stream(),
            shared.after(first, n as nat),
            forall|c: int|
                1 <= c < count ==> (#[trigger] own@[c]).after(firsts[c], n as nat),
            forall|
                o: spec_fn(Seq<St>, Seq<S>) -> (Seq<St>, Sc),
                a: spec_fn(St, Sc, S, i32) -> S,
                ny: spec_fn(S, Sc, i64, Option<i64>) -> Level,
                t: spec_fn(St, Sc, i32, S) -> St,
            |
                observes(*observe, o) && scene_aims(*aim, a) && scene_noisy(*noisy, ny)
                    && scene_settles(*settle, t) ==> states@ == #[trigger] states_before(
                    samples,
                    n as nat,
                    init,
                    noise,
                    grid,
                    o,
                    a,
                    ny,
                    t,
                ),
            forall|
                o: spec_fn(Seq<St>, Seq<S>) -> (Seq<St>, Sc),
                a: spec_fn(St, Sc, S, i32) -> S,
                ny: spec_fn(S, Sc, i64, Option<i64>) -> Level,
                t: spec_fn(St, Sc, i32, S) -> St,
                k: nat,
                c: int,
            |
                observes(*observe, o) && scene_aims(*aim, a) && scene_noisy(*noisy, ny)
                    && scene_settles(*settle, t) && k < n && 0 <= c < count ==> codes@[c]@[k as int]
                    == #[trigger] scene_code_at(samples, k, c, init, noise, grid, o, a, ny, t),
        decreases frames - n,
    {
        let ghost before = states@;
        let ghost shared_before = shared;
        let ghost old_codes = codes@;
        let mut frame: Vec<S> = Vec::new();
        while frame.len() < count
            invariant
                frame@.len() <= count,
                count == channels@.len(),
                samples == planar(channels@),
                n < frames,
                rectangular(samples, frames as nat),
                forall|c: int| 0 <= c < frame@.len() ==> #[trigger] frame@[c] == samples[c][n as int],
            decreases count - frame.len(),
        {
            let c = frame.len();
            assert(samples[c as int].len() == frames);
            frame.push(channels[c][n]);
        }
        assert(frame@ =~= frame_at(samples, n as int));
        let (seen, scene) = observe(&states, &frame);
        let base = shared.sample_lsb();
        proof {
            shared_before.lemma_step(shared, first, n as nat);
        }
        let mut after: Vec<St> = Vec::new();
        let mut ch: usize = 0;
        while ch < count
            invariant
                n < frames,
                ch <= count,
                count == channels@.len(),
                samples == planar(channels@),
                grid.well_formed(),
                forall|t: &St, c: &Sc, x: S, m: i32| #[trigger] aim.requires((t, c, x, m)),
                forall|u: S, c: &Sc, b: i64, d: Option<i64>| #[trigger] noisy.requires((u, c, b, d)),
                forall|t: &St, c: &Sc, y: i32, u: S| #[trigger] settle.requires((t, c, y, u)),
                seen@.len() == count,
                frame@.len() == count,
                forall|c: int| 0 <= c < count ==> #[trigger] frame@[c] == samples[c][n as int],
                after@.len() == ch,
                own@.len() == count,
                codes@.len() == count,
                old_codes.len() == count,
                forall|c: int| 0 <= c < count ==> (#[trigger] old_codes[c])@.len() == n,
                forall|c: int| ch <= c < count ==> #[trigger] codes@[c] == old_codes[c],
                forall|c: int|
                    0 <= c < ch ==> (#[trigger] codes@[c])@.len() == n + 1 && grid.has(
                        codes@[c]@[n as int] as int,
                    ) && codes@[c]@.take(n as int) == old_codes[c]@,
                noise.len() == count,
                count > 0 ==> base == noise[0](n as nat),
                forall|c: int| 1 <= c < count ==> #[trigger] noise[c] == firsts[c].stream(),
                forall|c: int|
                    1 <= c < ch ==> (#[trigger] own@[c]).after(firsts[c], (n + 1) as nat),
                forall|c: int|
                    1 <= c < count && ch <= c ==> (#[trigger] own@[c]).after(firsts[c], n as nat),
                forall|
                    a: spec_fn(St, Sc, S, i32) -> S,
                    ny: spec_fn(S, Sc, i64, Option<i64>) -> Level,
                    c: int,
                |
                    scene_aims(*aim, a) && scene_noisy(*noisy, ny) && 0 <= c < ch ==> codes@[c]@[n as int]
                        == #[trigger] scene_code(
                        seen@[c],
                        scene,
                        samples[c][n as int],
                        noise,
                        c,
                        n as nat,
                        grid,
                        a,
                        ny,
                    ),
                forall|
                    a: spec_fn(St, Sc, S, i32) -> S,
                    t: spec_fn(St, Sc, i32, S) -> St,
                    c: int,
                |
                    #![trigger scene_aims(*aim, a), scene_settles(*settle, t), after@[c]]
                    scene_aims(*aim, a) && scene_settles(*settle, t) && 0 <= c < ch ==> after@[c] == t(
                        seen@[c],
                        scene,
                        codes@[c]@[n as int],
                        a(seen@[c], scene, samples[c][n as int], grid.max),
                    ),
            decreases count - ch,
        {
            let x = frame[ch];
            let ghost own_before = own@;
            let side: Option<i64> = if ch == 0 {
                None
            } else {
                let step = own[ch].sample_lsb();
                Some(step)
            };
            proof {
                if ch > 0 {
                    own_before[ch as int].lemma_step(own@[ch as int], firsts[ch as int], n as nat);
                }
                assert(side == side_noise(noise, ch as int, n as nat));
            }
            let state = seen[ch];
            let u = aim(&state, &scene, x, grid.max);
            let w: Level = noisy(u, &scene, base, side);
            let y = w.snap(grid.lo, grid.hi);
            let ghost codes_before = codes@;
            codes[ch].push(y);
            after.push(settle(&state, &scene, y, u));
            proof {
                assert(codes@[ch as int]@.take(n as int) =~= old_codes[ch as int]@);
                assert forall|c: int| 0 <= c < count && c != ch implies #[trigger] codes@[c]
                    == codes_before[c] by {}
                assert forall|
                    a: spec_fn(St, Sc, S, i32) -> S,
                    ny: spec_fn(S, Sc, i64, Option<i64>) -> Level,
                    c: int,
                |
                    scene_aims(*aim, a) && scene_noisy(*noisy, ny) && 0 <= c < ch + 1 implies codes@[c]@[n as int]
                    == #[trigger] scene_code(
                    seen@[c],
                    scene,
                    samples[c][n as int],
                    noise,
                    c,
                    n as nat,
                    grid,
                    a,
                    ny,
                ) by {
                    if c < ch {
                        assert(codes@[c] == codes_before[c]);
                    }
                }
                assert forall|
                    a: spec_fn(St, Sc, S, i32) -> S,
                    t: spec_fn(St, Sc, i32, S) -> St,
                    c: int,
                |
                    #![trigger scene_aims(*aim, a), scene_settles(*settle, t), after@[c]]
                    scene_aims(*aim, a) && scene_settles(*settle, t) && 0 <= c < ch + 1 implies after@[c]
                    == t(
                    seen@[c],
                    scene,
                    codes@[c]@[n as int],
                    a(seen@[c], scene, samples[c][n as int], grid.max),
                ) by {
                    if c < ch {
                        assert(codes@[c] == codes_before[c]);
                    }
                }
            }
            ch = ch + 1;
        }
        states = after;
        n = n + 1;
        proof {
            let m = (n - 1) as nat;
            assert forall|c: int, k: int| 0 <= c < count && 0 <= k < n implies grid.has(
                #[trigger] codes@[c]@[k] as int,
            ) by {
                if k < m {
                    assert(codes@[c]@[k] == codes@[c]@.take(m as int)[k]);
                    assert(grid.has(old_codes[c]@[k] as int));
                }
            }
            assert forall|
                o: spec_fn(Seq<St>, Seq<S>) -> (Seq<St>, Sc),
                a: spec_fn(St, Sc, S, i32) -> S,
                ny: spec_fn(S, Sc, i64, Option<i64>) -> Level,
                t: spec_fn(St, Sc, i32, S) -> St,
            |
                observes(*observe, o) && scene_aims(*aim, a) && scene_noisy(*noisy, ny)
                    && scene_settles(*settle, t) implies states@ == #[trigger] states_before(
                samples,
                n as nat,
                init,
                noise,
                grid,
                o,
                a,
                ny,
                t,
            ) by {
                assert(before == states_before(samples, m, init, noise, grid, o, a, ny, t));
                let whole = states_before(samples, n as nat, init, noise, grid, o, a, ny, t);
                assert(seen@ == o(before, frame_at(samples, m as int)).0);
                assert forall|c: int| 0 <= c < count implies states@[c] == whole[c] by {
                    assert(codes@[c]@[m as int] == scene_code(
                        seen@[c],
                        scene,
                        samples[c][m as int],
                        noise,
                        c,
                        m,
                        grid,
                        a,
                        ny,
                    ));
                }
                assert(states@ =~= whole);
            }
            assert forall|
                o: spec_fn(Seq<St>, Seq<S>) -> (Seq<St>, Sc),
                a: spec_fn(St, Sc, S, i32) -> S,
                ny: spec_fn(S, Sc, i64, Option<i64>) -> Level,
                t: spec_fn(St, Sc, i32, S) -> St,
                k: nat,
                c: int,
            |
                observes(*observe, o) && scene_aims(*aim, a) && scene_noisy(*noisy, ny)
                    && scene_settles(*settle, t) && k < n && 0 <= c < count implies codes@[c]@[k as int]
                == #[trigger] scene_code_at(samples, k, c, init, noise, grid, o, a, ny, t) by {
                if k < m {
                    assert(codes@[c]@[k as int] == codes@[c]@.take(m as int)[k as int]);
                    assert(old_codes[c]@[k as int] == scene_code_at(
                        samples,
                        k,
                        c,
                        init,
                        noise,
                        grid,
                        o,
                        a,
                        ny,
                        t,
                    ));
                } else {
                    assert(before == states_before(samples, m, init, noise, grid, o, a, ny, t));
                    assert(codes@[c]@[m as int] == scene_code(
                        seen@[c],
                        scene,
                        samples[c][m as int],
                        noise,
                        c,
                        m,
                        grid,
                        a,
                        ny,
                    ));
                }
            }
        }
    }
    assert(drawn_per_channel(noise, channels@.len(), seed));
    codes
}

/// Wide dynamics, above 20 dB, are left alone. Of the rest what is louder than -8 LUFS is
/// treated aggressively, and what remains is balanced.
pub proof fn law_modes_by_dynamics_and_loudness(lufs: Level, dynamic_range: Level)
    requires
        lufs.finite(),
        dynamic_range.finite(),
    ensures
        mode_for(lufs, dynamic_range) == AdaptiveMode::Transparent <==> dynamic_range.units() > 20
            * pow2(1074),
        mode_for(lufs, dynamic_range) == AdaptiveMode::Aggressive <==> dynamic_range.units() <= 20
            * pow2(1074) && lufs.units() > -8 * pow2(1074),
{
    let wide = Level { bits: WIDE_DYNAMICS_DB };
    let loud = Level { bits: LOUD_LUFS };
    assert(wide.significand() == 20 * 0x1_0000_0000_0000 && wide.exponent() == 1026);
    assert(loud.significand() == 8 * 0x2_0000_0000_0000 && loud.exponent() == 1025);
    lemma2_to64();
    lemma2_to64_rest();
    lemma_pow2_adds(48, 1026);
    lemma_pow2_adds(49, 1025);
    let p = pow2(1026) as int;
    assert((20 * 0x1_0000_0000_0000) * p == 20 * (0x1_0000_0000_0000 * p)) by (nonlinear_arith);
    let q = pow2(1025) as int;
    assert((8 * 0x2_0000_0000_0000) * q == 8 * (0x2_0000_0000_0000 * q)) by (nonlinear_arith);
    law_order_is_the_order_of_values(wide, dynamic_range);
    law_order_is_the_order_of_values(loud, lufs);
}

/// Every sample is quantized from itself: without feedback, and with noise that goes by no
/// scene, the code of a sample is the code nearest to the scaled sample of its own channel and
/// frame, plus the shared noise of that frame and, on all channels but the first, the channel's
/// own noise of that frame.
pub proof fn law_every_sample_is_quantized_from_itself<S, St, Sc>(
    samples: Seq<Seq<S>>,
    n: nat,
    c: int,
    init: St,
    noise: Seq<spec_fn(nat) -> int>,
    grid: Grid,
    observe: spec_fn(Seq<St>, Seq<S>) -> (Seq<St>, Sc),
    aim: spec_fn(St, Sc, S, i32) -> S,
    noisy: spec_fn(S, Sc, i64, Option<i64>) -> Level,
    settle: spec_fn(St, Sc, i32, S) -> St,
    scaled: spec_fn(S, i32) -> S,
    total: spec_fn(S, int, int) -> Level,
)
    requires
        grid.well_formed(),
        0 <= c < samples.len(),
        n < samples[c].len(),
        forall|t: St, s: Sc, x: S, m: i32| #[trigger] aim(t, s, x, m) == scaled(x, m),
        forall|u: S, s: Sc, b: i64, d: Option<i64>| #[trigger]
            noisy(u, s, b, d) == total(
                u,
                b as int,
                match d {
                    Some(e) => e as int,
                    None => 0,
                },
            ),
        -0x20_0000_0000_0000 <= noise[0](n) <= 0x20_0000_0000_0000,
        -0x20_0000_0000_0000 <= noise[c](n) <= 0x20_0000_0000_0000,
    ensures
        ({
            let w = total(
                scaled(samples[c][n as int], grid.max),
                noise[0](n),
                if c == 0 {
                    0
                } else {
                    noise[c](n)
                },
            );
            let y = scene_code_at(samples, n, c, init, noise, grid, observe, aim, noisy, settle);
            &&& grid.has(y as int)
            &&& w.finite() && y < grid.hi ==> 2 * w.units() <= (2 * y + 1) * pow2(1074)
            &&& w.finite() && y > grid.lo ==> (2 * y - 1) * pow2(1074) <= 2 * w.units()
        }),
{
    let before = states_before(samples, n, init, noise, grid, observe, aim, noisy, settle);
    let (seen, scene) = observe(before, frame_at(samples, n as int));
    let x = samples[c][n as int];
    let side = side_noise(noise, c, n);
    let u = aim(seen[c], scene, x, grid.max);
    let w = noisy(u, scene, noise[0](n) as i64, side);
    law_snapping_goes_to_the_nearest(w, grid.lo as int, grid.hi as int);
}

/// A channel settles on its own code: if frames change no state by themselves, the state of a
/// channel after a frame comes from its state before, its code and what the code stood for. The
/// scene is judged from the samples that all channels have in the frame.
pub proof fn law_channels_settle_on_their_codes<S, St, Sc>(
    samples: Seq<Seq<S>>,
    n: nat,
    c: int,
    init: St,
    noise: Seq<spec_fn(nat) -> int>,
    grid: Grid,
    observe: spec_fn(Seq<St>, Seq<S>) -> (Seq<St>, Sc),
    aim: spec_fn(St, Sc, S, i32) -> S,
    noisy: spec_fn(S, Sc, i64, Option<i64>) -> Level,
    settle: spec_fn(St, Sc, i32, S) -> St,
    judged: spec_fn(Seq<S>) -> Sc,
)
    requires
        0 <= c < samples.len(),
        forall|t: Seq<St>, f: Seq<S>| #[trigger] observe(t, f) == (t, judged(f)),
    ensures
        ({
            let at = |k: nat|
                states_before(samples, k, init, noise, grid, observe, aim, noisy, settle)[c];
            let scene = judged(Seq::new(samples.len(), |j: int| samples[j][n as int]));
            let y = scene_code_at(samples, n, c, init, noise, grid, observe, aim, noisy, settle);
            &&& at(0) == init
            &&& at(n + 1) == settle(
                at(n),
                scene,
                y,
                aim(at(n), scene, samples[c][n as int], grid.max),
            )
        }),
{
    assert(frame_at(samples, n as int) =~= Seq::new(samples.len(), |j: int| samples[j][n as int]));
    let before = states_before(samples, n, init, noise, grid, observe, aim, noisy, settle);
    assert(observe(before, frame_at(samples, n as int)) == (
        before,
        judged(frame_at(samples, n as int)),
    ));
}

} // verus!

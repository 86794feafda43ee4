//! Moving samples between planar channels and one interleaved sequence.
use vstd::prelude::*;
use vstd::arithmetic::div_mod::*;
use vstd::arithmetic::mul::*;
use crate::audio::buffer::{planar, rectangular};

verus! {

/// Frame `i`: the sample of every channel.
pub open spec fn frame_at<S>(channels: Seq<Seq<S>>, i: int) -> Seq<S> {
    Seq::new(channels.len(), |c: int| channels[c][i])
}

/// The first `n` frames, one after the other.
pub open spec fn interleaved<S>(channels: Seq<Seq<S>>, n: nat) -> Seq<S>
    decreases n,
{
    if n == 0 {
        Seq::empty()
    } else {
        interleaved(channels, (n - 1) as nat) + frame_at(channels, n - 1)
    }
}

/// `channels` after the first `k` samples of `flat` were dealt out to them in turn, starting
/// with the first channel.
pub open spec fn dealt<S>(channels: Seq<Seq<S>>, flat: Seq<S>, k: nat) -> Seq<Seq<S>>
    decreases k,
{
    if k == 0 {
        channels
    } else {
        let before = dealt(channels, flat, (k - 1) as nat);
        let c = (k - 1) % channels.len() as int;
        before.update(c, before[c].push(flat[k - 1]))
    }
}

/// The channels `a` followed by the channels `b`, each by its counterpart.
pub open spec fn appended<S>(a: Seq<Seq<S>>, b: Seq<Seq<S>>) -> Seq<Seq<S>> {
    Seq::new(a.len(), |c: int| a[c] + b[c])
}

/// The frames of planar channels as one interleaved sequence.
pub fn interleave<S: Copy>(channels: &Vec<Vec<S>>, frames: usize) -> (out: Vec<S>)
    requires
        rectangular(planar(channels@), frames as nat),
    ensures
        out@ == interleaved(planar(channels@), frames as nat),
{
    let ghost samples = planar(channels@);
    let mut out: Vec<S> = Vec::new();
    let mut i: usize = 0;
    while i < frames
        invariant
            samples == planar(channels@),
            rectangular(samples, frames as nat),
            i <= frames,
            out@ == interleaved(samples, i as nat),
        decreases frames - i,
    {
        let ghost before = out@;
        let mut c: usize = 0;
        while c < channels.len()
            invariant
                samples == planar(channels@),
                rectangular(samples, frames as nat),
                i < frames,
                c <= channels@.len(),
                out@ == before + frame_at(samples, i as int).take(c as int),
            decreases channels.len() - c,
        {
            assert(samples[c as int].len() == frames);
            out.push(channels[c][i]);
            proof {
                let f = frame_at(samples, i as int);
                assert(f.take(c + 1) =~= f.take(c as int).push(f[c as int]));
                assert(out@ =~= before + f.take(c + 1));
            }
            c = c + 1;
        }
        assert(frame_at(samples, i as int).take(channels@.len() as int) =~= frame_at(
            samples,
            i as int,
        ));
        i = i + 1;
    }
    out
}

/// Deal the samples of one packet out to the channels.
pub fn deal<S: Copy>(channels: &mut Vec<Vec<S>>, flat: &Vec<S>)
    requires
        old(channels)@.len() > 0,
    ensures
        planar(final(channels)@) == dealt(planar(old(channels)@), flat@, flat@.len()),
{
    let ghost start = planar(channels@);
    let n = channels.len();
    let mut k: usize = 0;
    let mut c: usize = 0;
    while k < flat.len()
        invariant
            n == channels@.len(),
            n == start.len(),
            n > 0,
            k <= flat@.len(),
            c == k % n,
            planar(channels@) == dealt(start, flat@, k as nat),
        decreases flat.len() - k,
    {
        let ghost before = channels@;
        let x = flat[k];
        channels[c].push(x);
        proof {
            assert(planar(channels@) =~= planar(before).update(c as int, planar(before)[c as int].push(x)));
            if c + 1 == n {
                lemma_next_round(k as int, n as int);
            } else {
                lemma_same_round(k as int, n as int);
            }
        }
        c = if c + 1 == n {
            0
        } else {
            c + 1
        };
        k = k + 1;
    }
}

proof fn lemma_next_round(k: int, n: int)
    requires
        n > 0,
        k >= 0,
        k % n == n - 1,
    ensures
        (k + 1) % n == 0,
{
    lemma_fundamental_div_mod(k, n);
    assert(k + 1 == n * (k / n + 1)) by (nonlinear_arith)
        requires
            k == n * (k / n) + (n - 1),
    ;
    lemma_fundamental_div_mod_converse(k + 1, n, k / n + 1, 0);
}

proof fn lemma_same_round(k: int, n: int)
    requires
        n > 0,
        k >= 0,
        k % n + 1 < n,
    ensures
        (k + 1) % n == k % n + 1,
{
    lemma_fundamental_div_mod(k, n);
    lemma_mul_is_commutative(n, k / n);
    lemma_fundamental_div_mod_converse(k + 1, n, k / n, k % n + 1);
}

/// An empty sequence per channel, `count` of them.
pub fn empty_channels<S>(count: usize) -> (r: Vec<Vec<S>>)
    ensures
        r@.len() == count,
        forall|c: int| 0 <= c < count ==> (#[trigger] r@[c])@ == Seq::<S>::empty(),
{
    let mut r: Vec<Vec<S>> = Vec::new();
    let mut c: usize = 0;
    while c < count
        invariant
            c <= count,
            r@.len() == c,
            forall|d: int| 0 <= d < c ==> (#[trigger] r@[d])@ == Seq::<S>::empty(),
        decreases count - c,
    {
        r.push(Vec::new());
        c = c + 1;
    }
    r
}

/// The number of interleaved samples.
pub proof fn lemma_interleaved_len<S>(channels: Seq<Seq<S>>, n: nat)
    ensures
        interleaved(channels, n).len() == n * channels.len(),
    decreases n,
{
    if n > 0 {
        lemma_interleaved_len(channels, (n - 1) as nat);
        assert(n * channels.len() == (n - 1) * channels.len() + channels.len()) by (nonlinear_arith);
    } else {
        assert(0 * channels.len() == 0) by (nonlinear_arith);
    }
}

/// Sample `c` of frame `i` stands at position `i * channels + c`.
pub proof fn lemma_interleaved_at<S>(channels: Seq<Seq<S>>, n: nat, i: int, c: int)
    requires
        0 <= i < n,
        0 <= c < channels.len(),
    ensures
        0 <= i * channels.len() + c < interleaved(channels, n).len(),
        interleaved(channels, n)[i * channels.len() + c] == channels[c][i],
    decreases n,
{
    lemma_interleaved_len(channels, n);
    lemma_interleaved_len(channels, (n - 1) as nat);
    let w = channels.len() as int;
    assert(i * w + c < (i + 1) * w) by (nonlinear_arith)
        requires
            c < w,
    ;
    assert((i + 1) * w <= n * w) by (nonlinear_arith)
        requires
            i + 1 <= n,
            w >= 0,
    ;
    assert(i * w >= 0) by (nonlinear_arith)
        requires
            i >= 0,
            w >= 0,
    ;
    if i < n - 1 {
        lemma_interleaved_at(channels, (n - 1) as nat, i, c);
    }
}

/// Dealing out never changes how many channels there are.
proof fn lemma_dealt_len<S>(channels: Seq<Seq<S>>, flat: Seq<S>, k: nat)
    requires
        channels.len() > 0,
    ensures
        dealt(channels, flat, k).len() == channels.len(),
    decreases k,
{
    if k > 0 {
        lemma_dealt_len(channels, flat, (k - 1) as nat);
    }
}

/// Dealing out `c` samples of the frame after `n` whole frames.
proof fn lemma_dealt_prefix<S>(start: Seq<Seq<S>>, samples: Seq<Seq<S>>, total: nat, n: nat, c: nat)
    requires
        start.len() == samples.len(),
        start.len() > 0,
        c <= start.len(),
        n < total || (n == total && c == 0),
        rectangular(samples, total),
    ensures
        ({
            let flat = interleaved(samples, total);
            let d = dealt(start, flat, n * start.len() + c);
            &&& d.len() == start.len()
            &&& forall|j: int|
                0 <= j < c ==> #[trigger] d[j] == start[j] + samples[j].take(n as int + 1)
            &&& forall|j: int|
                c <= j < start.len() ==> #[trigger] d[j] == start[j] + samples[j].take(n as int)
        }),
    decreases n, c,
{
    let w = start.len();
    let flat = interleaved(samples, total);
    let d = dealt(start, flat, n * w + c);
    lemma_dealt_len(start, flat, n * w + c);
    if c > 0 {
        lemma_dealt_prefix(start, samples, total, n, (c - 1) as nat);
        let k: nat = n * w + c;
        lemma_interleaved_at(samples, total, n as int, c - 1);
        assert((n * w + (c - 1)) % w as int == c - 1) by {
            lemma_fundamental_div_mod_converse(n * w + (c - 1), w as int, n as int, c - 1);
        }
        assert(n * w == w * n) by (nonlinear_arith);
        let before = dealt(start, flat, (k - 1) as nat);
        let x = flat[k - 1];
        assert(x == samples[c - 1][n as int]);
        assert(d == before.update(c - 1, before[c - 1].push(x)));
        assert(samples[c - 1].len() == total);
        assert(samples[c - 1].take(n as int).push(x) =~= samples[c - 1].take(n as int + 1));
        assert((start[c - 1] + samples[c - 1].take(n as int)).push(x) =~= start[c - 1]
            + samples[c - 1].take(n as int + 1));
    } else if n > 0 {
        lemma_dealt_prefix(start, samples, total, (n - 1) as nat, w);
        assert((n - 1) * w + w == n * w) by (nonlinear_arith);
    } else {
        assert(0 * w == 0) by (nonlinear_arith);
        assert forall|j: int| 0 <= j < w implies #[trigger] d[j] == start[j] + samples[j].take(0) by {
            assert(start[j] + samples[j].take(0) =~= start[j]);
        }
    }
}

/// Interleaving and dealing out are inverse: dealing the interleaved frames of some channels
/// out appends to every channel exactly its own samples.
pub proof fn law_dealing_undoes_interleaving<S>(start: Seq<Seq<S>>, samples: Seq<Seq<S>>, n: nat)
    requires
        start.len() == samples.len(),
        start.len() > 0,
        rectangular(samples, n),
    ensures
        dealt(start, interleaved(samples, n), interleaved(samples, n).len()) == appended(start, samples),
{
    lemma_interleaved_len(samples, n);
    lemma_dealt_prefix(start, samples, n, n, 0);
    let d = dealt(start, interleaved(samples, n), interleaved(samples, n).len());
    assert(n * start.len() + 0 == interleaved(samples, n).len());
    assert forall|j: int| 0 <= j < start.len() implies d[j] == appended(start, samples)[j] by {
        assert(samples[j].len() == n);
        assert(samples[j].take(n as int) =~= samples[j]);
    }
    assert(d =~= appended(start, samples));
}

/// Only the samples that are dealt out matter.
proof fn lemma_dealt_depends_on_prefix<S>(channels: Seq<Seq<S>>, a: Seq<S>, b: Seq<S>, k: nat)
    requires
        k <= a.len(),
        k <= b.len(),
        forall|i: int| 0 <= i < k ==> a[i] == b[i],
    ensures
        dealt(channels, a, k) == dealt(channels, b, k),
    decreases k,
{
    if k > 0 {
        lemma_dealt_depends_on_prefix(channels, a, b, (k - 1) as nat);
    }
}

proof fn lemma_dealt_after_whole_frames<S>(channels: Seq<Seq<S>>, a: Seq<S>, b: Seq<S>, k: nat)
    requires
        channels.len() > 0,
        a.len() % channels.len() == 0,
        k <= b.len(),
    ensures
        dealt(dealt(channels, a, a.len()), b, k) == dealt(channels, a + b, a.len() + k),
    decreases k,
{
    let w = channels.len() as int;
    lemma_dealt_len(channels, a, a.len());
    if k == 0 {
        lemma_dealt_depends_on_prefix(channels, a, a + b, a.len());
    } else {
        let j = (k - 1) as nat;
        lemma_dealt_after_whole_frames(channels, a, b, j);
        lemma_small_mod(j % channels.len(), channels.len());
        lemma_add_mod_noop(a.len() as int, j as int, w);
        assert((a.len() + j) as int % w == j as int % w);
        assert((a + b)[(a.len() + j) as int] == b[j as int]);
    }
}

/// How a stream is cut into packets does not matter, as long as packets hold whole frames:
/// dealing out two packets one after the other is dealing out the two as one.
pub proof fn law_packets_can_be_joined<S>(channels: Seq<Seq<S>>, a: Seq<S>, b: Seq<S>)
    requires
        channels.len() > 0,
        a.len() % channels.len() == 0,
    ensures
        dealt(dealt(channels, a, a.len()), b, b.len()) == dealt(channels, a + b, (a + b).len()),
{
    lemma_dealt_after_whole_frames(channels, a, b, b.len());
}

/// Interleaved samples stand frame by frame, and in a frame in the order of the channels.
pub proof fn law_interleaved_order<S>(channels: Seq<Seq<S>>, n: nat, c: int, i: int)
    requires
        0 <= c < channels.len(),
        0 <= i < n,
    ensures
        interleaved(channels, n).len() == n * channels.len(),
        0 <= i * channels.len() + c < n * channels.len(),
        interleaved(channels, n)[i * channels.len() + c] == channels[c][i],
{
    lemma_interleaved_len(channels, n);
    lemma_interleaved_at(channels, n, i, c);
}

/// Dealing samples out gives a channel every sample of its place in a frame, in their order.
pub proof fn law_dealt_order<S>(start: Seq<Seq<S>>, flat: Seq<S>, n: nat, c: int)
    requires
        0 <= c < start.len(),
        flat.len() == n * start.len(),
    ensures
        dealt(start, flat, flat.len())[c] == start[c] + Seq::new(
            n,
            |i: int| flat[i * start.len() + c],
        ),
{
    let w = start.len() as int;
    let samples = Seq::new(start.len(), |d: int| Seq::new(n, |i: int| flat[i * w + d]));
    lemma_interleaved_len(samples, n);
    assert forall|k: int| 0 <= k < flat.len() implies interleaved(samples, n)[k] == flat[k] by {
        let i = k / w;
        let d = k % w;
        lemma_fundamental_div_mod(k, w);
        lemma_mod_bound(k, w);
        assert(w * i == i * w) by (nonlinear_arith);
        assert(0 <= i < n) by (nonlinear_arith)
            requires
                k == i * w + d,
                0 <= d < w,
                0 <= k < n * w,
        ;
        law_interleaved_order(samples, n, d, i);
    }
    assert(interleaved(samples, n) =~= flat);
    law_dealing_undoes_interleaving(start, samples, n);
}

} // verus!

//! Decoding: which track is read, and how its packets become planar channels.
//!
//! The container and the codec are read by the caller, who hands over what a container says
//! of its tracks and the decoded packets one by one.
use vstd::prelude::*;
use crate::audio::buffer::{AudioBuffer, OutputSampleFormat, SourceInfo, planar};
use crate::audio::planar::{dealt, deal, empty_channels};
use crate::refusal::Refusal;

verus! {

/// What a container says of a track.
#[derive(Clone, Copy, Debug, PartialEq, Eq, Structural)]
pub struct TrackInfo {
    pub id: u32,
    /// The track has a codec.
    pub decodable: bool,
    pub sample_rate: Option<u32>,
}

/// The first of the tracks from `i` on that has a codec.
pub open spec fn first_decodable(tracks: Seq<TrackInfo>, i: int) -> Option<TrackInfo>
    decreases tracks.len() - i,
{
    if i >= tracks.len() {
        None
    } else if tracks[i].decodable {
        Some(tracks[i])
    } else {
        first_decodable(tracks, i + 1)
    }
}

/// The first track that has a codec.
pub fn select_track(tracks: &Vec<TrackInfo>) -> (r: Option<TrackInfo>)
    ensures
        r == first_decodable(tracks@, 0),
{
    let mut i: usize = 0;
    while i < tracks.len()
        invariant
            i <= tracks@.len(),
            first_decodable(tracks@, 0) == first_decodable(tracks@, i as int),
        decreases tracks.len() - i,
    {
        if tracks[i].decodable {
            return Some(tracks[i]);
        }
        i = i + 1;
    }
    None
}

/// The source rate, without decoding the audio.
pub fn probe_source_rate(tracks: &Vec<TrackInfo>, path: &str) -> (r: Result<u32, Refusal>)
    ensures
        match r {
            Ok(rate) => first_decodable(tracks@, 0) matches Some(t) && t.sample_rate == Some(rate),
            Err(e) => (first_decodable(tracks@, 0) matches Some(t) ==> t.sample_rate is None) && e@
                == "missing sample rate in stream metadata: "@ + path@,
        },
{
    if let Some(track) = select_track(tracks) {
        if let Some(rate) = track.sample_rate {
            return Ok(rate);
        }
    }
    let mut m = String::from_str("missing sample rate in stream metadata: ");
    m.append(path);
    Err(Refusal::new(m))
}

/// A decode in progress: the track that is read, and the channels so far.
#[derive(Debug)]
pub struct Decoding<S> {
    pub track_id: u32,
    pub sample_rate: u32,
    pub channels: Vec<Vec<S>>,
}

/// `count` channels without samples.
pub open spec fn silent_channels<S>(count: nat) -> Seq<Seq<S>> {
    Seq::new(count, |c: int| Seq::<S>::empty())
}

impl<S: Copy> Decoding<S> {
    /// The samples so far.
    pub open spec fn samples(self) -> Seq<Seq<S>> {
        planar(self.channels@)
    }

    /// Choose the track to decode.
    pub fn start(tracks: &Vec<TrackInfo>) -> (r: Result<Decoding<S>, Refusal>)
        ensures
            match r {
                Ok(d) => first_decodable(tracks@, 0) matches Some(t) && t.id == d.track_id
                    && t.sample_rate == Some(d.sample_rate) && d.samples() == Seq::<Seq<S>>::empty(),
                Err(e) => match first_decodable(tracks@, 0) {
                    None => e@ == "no decodable audio track found"@,
                    Some(t) => t.sample_rate is None && e@ == "missing sample rate in stream metadata"@,
                },
            },
    {
        match select_track(tracks) {
            None => Err(Refusal::of("no decodable audio track found")),
            Some(track) => match track.sample_rate {
                None => Err(Refusal::of("missing sample rate in stream metadata")),
                Some(sample_rate) => {
                    let channels: Vec<Vec<S>> = Vec::new();
                    assert(planar(channels@) =~= Seq::<Seq<S>>::empty());
                    Ok(Decoding { track_id: track.id, sample_rate, channels })
                },
            },
        }
    }

    /// Whether packets of the given track belong to this decode.
    pub fn wants(&self, track_id: u32) -> (r: bool)
        ensures
            r == (track_id == self.track_id),
    {
        track_id == self.track_id
    }

    /// Take in the interleaved samples of one packet. The first packet decides how many
    /// channels there are.
    pub fn push_packet(&mut self, samples: &Vec<S>, spec_channels: usize)
        requires
            spec_channels > 0,
        ensures
            final(self).track_id == old(self).track_id,
            final(self).sample_rate == old(self).sample_rate,
            final(self).samples() == dealt(
                if old(self).samples().len() == 0 {
                    silent_channels(spec_channels as nat)
                } else {
                    old(self).samples()
                },
                samples@,
                samples@.len(),
            ),
    {
        if self.channels.len() == 0 {
            self.channels = empty_channels(spec_channels);
            assert(planar(self.channels@) =~= silent_channels::<S>(spec_channels as nat));
        }
        deal(&mut self.channels, samples);
    }

    /// The decoded buffer. Decoding is lossless in itself: the samples are those of the
    /// packets.
    pub fn finish(self, path: &str) -> (r: Result<AudioBuffer<S>, Refusal>)
        ensures
            match r {
                Ok(b) => self.samples().len() > 0 && b.samples() == self.samples() && b.sample_rate
                    == self.sample_rate && b.out_format == OutputSampleFormat::F32 && b.src_info.path@
                    == path@ && b.src_info.channels == self.samples().len() && b.src_info.sample_rate
                    == self.sample_rate && b.src_info.codec@ == "decoded"@,
                Err(e) => self.samples().len() == 0 && e@ == "decoded stream has no audio samples"@,
            },
    {
        if self.channels.len() == 0 {
            return Err(Refusal::of("decoded stream has no audio samples"));
        }
        let count = self.channels.len();
        Ok(
            AudioBuffer {
                channels: self.channels,
                sample_rate: self.sample_rate,
                src_info: SourceInfo {
                    path: String::from_str(path),
                    channels: count,
                    sample_rate: self.sample_rate,
                    codec: String::from_str("decoded"),
                },
                out_format: OutputSampleFormat::F32,
            },
        )
    }
}

/// The track that is read is the first one with a codec: no track before it has one, and one
/// is found whenever there is one.
pub proof fn law_first_track_with_a_codec_is_read(tracks: Seq<TrackInfo>)
    ensures
        match first_decodable(tracks, 0) {
            Some(t) => t.decodable && exists|i: int|
                0 <= i < tracks.len() && #[trigger] tracks[i] == t && forall|j: int|
                    0 <= j < i ==> !(#[trigger] tracks[j]).decodable,
            None => forall|j: int| 0 <= j < tracks.len() ==> !(#[trigger] tracks[j]).decodable,
        },
{
    lemma_first_decodable(tracks, 0);
}

proof fn lemma_first_decodable(tracks: Seq<TrackInfo>, i: int)
    requires
        0 <= i <= tracks.len(),
        forall|j: int| 0 <= j < i ==> !(#[trigger] tracks[j]).decodable,
    ensures
        match first_decodable(tracks, i) {
            Some(t) => t.decodable && exists|k: int|
                0 <= k < tracks.len() && #[trigger] tracks[k] == t && forall|j: int|
                    0 <= j < k ==> !(#[trigger] tracks[j]).decodable,
            None => forall|j: int| 0 <= j < tracks.len() ==> !(#[trigger] tracks[j]).decodable,
        },
    decreases tracks.len() - i,
{
    if i < tracks.len() && !tracks[i].decodable {
        lemma_first_decodable(tracks, i + 1);
    }
}

} // verus!

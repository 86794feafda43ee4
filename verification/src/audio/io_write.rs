//! WAV, Broadcast WAV, FLAC and MP3 output.
//!
//! PCM is encoded by `hound` and `flacenc`. A Broadcast WAV is a WAV with one more chunk, so
//! sample encoding is the same for both.
use vstd::prelude::*;
use vstd::arithmetic::power2::{lemma_pow2_adds, lemma_pow2_pos, lemma_pow2_unfold, pow2};
use crate::audio::buffer::{AudioBuffer, OutputSampleFormat, planar, rectangular};
use crate::audio::planar::{
    interleave, interleaved, law_interleaved_order, lemma_interleaved_len,
};
use crate::closures::{accepts2, computes2};
use crate::config::{MP3_BITRATES, mp3_bitrates};
use crate::refusal::Refusal;
use crate::level::{law_snapping_goes_to_the_nearest, lemma_hundredfold, Level};
use crate::text::{self, digits, starts_with};
use vstd::utf8::{encode_utf8, is_ascii_chars, is_ascii_chars_encode_utf8};

verus! {

// ---------------------------------------------------------------------------
// Little-endian integers.
// ---------------------------------------------------------------------------

/// The two bytes of `n`, lowest first.
pub open spec fn le16(n: int) -> Seq<u8> {
    seq![(n % 256) as u8, (n / 256 % 256) as u8]
}

/// The four bytes of `n`, lowest first.
pub open spec fn le32(n: int) -> Seq<u8> {
    seq![
        (n % 256) as u8,
        (n / 256 % 256) as u8,
        (n / 65536 % 256) as u8,
        (n / 16777216 % 256) as u8,
    ]
}

/// The number whose four bytes, lowest first, stand at position `i` of `s`.
pub open spec fn le32_value(s: Seq<u8>, i: int) -> int {
    s[i] + 256 * s[i + 1] + 65536 * s[i + 2] + 16777216 * s[i + 3]
}

/// Writing and reading four bytes are inverse.
pub proof fn lemma_le32(n: int)
    requires
        0 <= n < 0x1_0000_0000,
    ensures
        le32_value(le32(n), 0) == n,
{
}

/// Four bytes written at position `i` of `s` are read back from there.
proof fn lemma_le32_at(s: Seq<u8>, i: int, n: int)
    requires
        0 <= n < 0x1_0000_0000,
        0 <= i,
        i + 4 <= s.len(),
        s.subrange(i, i + 4) == le32(n),
    ensures
        le32_value(s, i) == n,
{
    lemma_le32(n);
    let t = s.subrange(i, i + 4);
    assert(t[0] == s[i] && t[1] == s[i + 1] && t[2] == s[i + 2] && t[3] == s[i + 3]);
}

fn push_le16(out: &mut Vec<u8>, n: u16)
    ensures
        final(out)@ == old(out)@ + le16(n as int),
{
    out.push((n % 256) as u8);
    out.push((n / 256) as u8);
    assert(out@ =~= old(out)@ + le16(n as int));
}

fn push_le32(out: &mut Vec<u8>, n: u32)
    ensures
        final(out)@ == old(out)@ + le32(n as int),
{
    out.push((n % 256) as u8);
    out.push((n / 256 % 256) as u8);
    out.push((n / 65536 % 256) as u8);
    out.push((n / 16777216) as u8);
    assert(out@ =~= old(out)@ + le32(n as int));
}

fn push_bytes(out: &mut Vec<u8>, data: &[u8])
    ensures
        final(out)@ == old(out)@ + data@,
{
    out.extend_from_slice(data);
    assert(out@ =~= old(out)@ + data@);
}

fn push_zeros(out: &mut Vec<u8>, n: usize)
    ensures
        final(out)@ == old(out)@ + zeros(n as nat),
{
    let mut i: usize = 0;
    assert(out@ =~= old(out)@ + zeros(0));
    while i < n
        invariant
            i <= n,
            out@ == old(out)@ + zeros(i as nat),
        decreases n - i,
    {
        out.push(0);
        i = i + 1;
        assert(out@ =~= old(out)@ + zeros(i as nat));
    }
}

/// `n` zero bytes.
pub open spec fn zeros(n: nat) -> Seq<u8> {
    Seq::new(n, |i: int| 0u8)
}

// ---------------------------------------------------------------------------
// Broadcast WAV (bext) chunk: EBU Tech 3285 v2 with EBU R128 loudness metadata.
// ---------------------------------------------------------------------------

/// Broadcast WAV metadata. The loudness figures are those of the delivered signal.
#[derive(Debug, Clone)]
pub struct BextMetadata {
    pub description: String,
    pub integrated_lufs: Level,
    pub loudness_range_lu: Level,
    pub max_true_peak_dbtp: Level,
    pub max_momentary_lufs: Level,
    pub max_short_term_lufs: Level,
    pub sample_rate: u32,
    pub channels: usize,
    pub bits: u16,
}

/// The bytes `data` in a field of `len` bytes, cut off or padded with zeros.
pub open spec fn fixed_field(data: Seq<u8>, len: nat) -> Seq<u8> {
    if data.len() >= len {
        data.take(len as int)
    } else {
        data + zeros((len - data.len()) as nat)
    }
}

/// A loudness figure in hundredths, or the "not used" mark when it is not finite.
pub open spec fn r128_code(value: Level) -> int {
    if value.finite() {
        value.times_hundred().snapped(-32768, 32767)
    } else {
        0x7FFF
    }
}

/// A signed 16-bit integer as its unsigned twin.
pub open spec fn unsigned16(n: int) -> int {
    if n < 0 {
        n + 65536
    } else {
        n
    }
}

/// The bytes of a loudness field.
pub open spec fn r128_bytes(value: Level) -> Seq<u8> {
    le16(unsigned16(r128_code(value)))
}

impl BextMetadata {
    /// The coding history: one line that describes the PCM source.
    pub open spec fn history(self) -> Seq<char> {
        "A=PCM,F="@ + digits(self.sample_rate as nat) + ",W="@ + digits(self.bits as nat) + ",M="@ + (
        if self.channels >= 2 {
            "stereo"@
        } else {
            "mono"@
        }) + ",T=mint\r\n"@
    }

    /// The fixed part of the chunk: description, originator, reference, date, time, time
    /// reference, version 2, UMID, the five loudness fields, reserved bytes.
    pub open spec fn fixed_part(self) -> Seq<u8> {
        fixed_field(encode_utf8(self.description@), 256) + fixed_field(encode_utf8("mint"@), 32)
            + fixed_field(encode_utf8(""@), 32) + fixed_field(encode_utf8(""@), 10) + fixed_field(
            encode_utf8(""@),
            8,
        ) + le32(0) + le32(0) + le16(2) + zeros(64) + r128_bytes(self.integrated_lufs) + r128_bytes(
            self.loudness_range_lu,
        ) + r128_bytes(self.max_true_peak_dbtp) + r128_bytes(self.max_momentary_lufs) + r128_bytes(
            self.max_short_term_lufs,
        ) + zeros(180)
    }

    /// The data of the chunk.
    pub open spec fn data(self) -> Seq<u8> {
        self.fixed_part() + encode_utf8(self.history())
    }

    /// Serialize the data of the chunk, without its header.
    pub fn to_bytes(&self) -> (v: Vec<u8>)
        ensures
            v@ == self.data(),
    {
        let mut v: Vec<u8> = Vec::new();
        push_fixed_str(&mut v, self.description.as_str(), 256);
        push_fixed_str(&mut v, "mint", 32);
        push_fixed_str(&mut v, "", 32);
        // No date and time: the output does not depend on the wall clock.
        push_fixed_str(&mut v, "", 10);
        push_fixed_str(&mut v, "", 8);
        push_le32(&mut v, 0);
        push_le32(&mut v, 0);
        // Version 2 has the loudness fields.
        push_le16(&mut v, 2);
        push_zeros(&mut v, 64);
        push_r128_field(&mut v, self.integrated_lufs);
        push_r128_field(&mut v, self.loudness_range_lu);
        push_r128_field(&mut v, self.max_true_peak_dbtp);
        push_r128_field(&mut v, self.max_momentary_lufs);
        push_r128_field(&mut v, self.max_short_term_lufs);
        push_zeros(&mut v, 180);
        assert(v@ =~= self.fixed_part());
        let mut history = String::from_str("A=PCM,F=");
        history.append(text::number(self.sample_rate as u64).as_str());
        history.append(",W=");
        history.append(text::number(self.bits as u64).as_str());
        history.append(",M=");
        history.append(
            if self.channels >= 2 {
                "stereo"
            } else {
                "mono"
            },
        );
        history.append(",T=mint\r\n");
        push_bytes(&mut v, history.as_str().as_bytes());
        v
    }
}

/// Copy `s` into a field of `len` bytes, cutting it off or padding it with zeros.
pub fn push_fixed_str(out: &mut Vec<u8>, s: &str, len: usize)
    ensures
        final(out)@ == old(out)@ + fixed_field(encode_utf8(s@), len as nat),
{
    let bytes = s.as_bytes();
    let ghost data = encode_utf8(s@);
    let n = bytes.len();
    let mut i: usize = 0;
    assert(out@ =~= old(out)@ + data.take(0));
    while i < n && i < len
        invariant
            bytes@ == data,
            n == data.len(),
            i <= n,
            i <= len,
            out@ == old(out)@ + data.take(i as int),
        decreases n - i,
    {
        out.push(bytes[i]);
        assert(data.take(i + 1) =~= data.take(i as int).push(data[i as int]));
        assert(out@ =~= old(out)@ + data.take(i + 1));
        i = i + 1;
    }
    if i < len {
        assert(data.take(n as int) =~= data);
        push_zeros(out, len - i);
        assert(out@ =~= old(out)@ + fixed_field(data, len as nat));
    }
}

/// The code of a loudness field.
pub fn r128_field(value: Level) -> (r: i32)
    ensures
        r == r128_code(value),
        -32768 <= r <= 32767,
{
    if value.is_finite() {
        value.hundredfold().snap(-32768, 32767)
    } else {
        0x7FFF
    }
}

fn push_r128_field(out: &mut Vec<u8>, value: Level)
    ensures
        final(out)@ == old(out)@ + r128_bytes(value),
{
    let code = r128_field(value);
    let raw: u16 = if code < 0 {
        (code + 65536) as u16
    } else {
        code as u16
    };
    push_le16(out, raw);
}

// ---------------------------------------------------------------------------
// RIFF chunks.
// ---------------------------------------------------------------------------

/// `RIFF`.
pub open spec fn riff_tag() -> Seq<u8> {
    seq![0x52u8, 0x49, 0x46, 0x46]
}

/// `WAVE`.
pub open spec fn wave_tag() -> Seq<u8> {
    seq![0x57u8, 0x41, 0x56, 0x45]
}

/// `s` starts with the 12-byte header of a WAVE stream.
pub open spec fn is_wave(s: Seq<u8>) -> bool {
    s.len() >= 12 && s.subrange(0, 4) == riff_tag() && s.subrange(8, 12) == wave_tag()
}

/// A chunk: its name, the length of its data, the data, and a pad byte when the data has an
/// odd length.
pub open spec fn chunk(id: Seq<u8>, data: Seq<u8>) -> Seq<u8> {
    id + le32(data.len() as int % 0x1_0000_0000) + data + zeros((data.len() % 2) as nat)
}

/// The top-level size of `wav` after a chunk with `data` was added, if it fits.
pub open spec fn grown_size(wav: Seq<u8>, id: Seq<u8>, data: Seq<u8>) -> Option<int> {
    let size = le32_value(wav, 4) + chunk(id, data).len() % 0x1_0000_0000;
    if size < 0x1_0000_0000 {
        Some(size)
    } else {
        None
    }
}

/// `wav` with a chunk added right after its header.
pub open spec fn spliced(wav: Seq<u8>, id: Seq<u8>, data: Seq<u8>) -> Result<Seq<u8>, Seq<char>> {
    if !is_wave(wav) {
        Err("not a RIFF/WAVE stream"@)
    } else {
        match grown_size(wav, id, data) {
            None => Err("RIFF size overflow"@),
            Some(size) => Ok(
                riff_tag() + le32(size) + wave_tag() + chunk(id, data) + wav.skip(12),
            ),
        }
    }
}

/// Insert a chunk right after the header and correct the top-level size. The order of chunks
/// is free in WAVE, and readers skip chunks that they do not know.
pub fn splice_chunk_after_wave(wav: &Vec<u8>, id: &[u8; 4], data: &Vec<u8>) -> (r: Result<
    Vec<u8>,
    Refusal,
>)
    ensures
        match r {
            Ok(out) => spliced(wav@, id@, data@) == Ok::<Seq<u8>, Seq<char>>(out@),
            Err(e) => spliced(wav@, id@, data@) == Err::<Seq<u8>, Seq<char>>(e@),
        },
{
    if wav.len() < 12 || wav[0] != 0x52 || wav[1] != 0x49 || wav[2] != 0x46 || wav[3] != 0x46
        || wav[8] != 0x57 || wav[9] != 0x41 || wav[10] != 0x56 || wav[11] != 0x45 {
        proof {
            if is_wave(wav@) {
                assert(wav@.subrange(0, 4)[0] == 0x52 && wav@.subrange(0, 4)[1] == 0x49);
                assert(wav@.subrange(0, 4)[2] == 0x46 && wav@.subrange(0, 4)[3] == 0x46);
                assert(wav@.subrange(8, 12)[0] == 0x57 && wav@.subrange(8, 12)[1] == 0x41);
                assert(wav@.subrange(8, 12)[2] == 0x56 && wav@.subrange(8, 12)[3] == 0x45);
            }
        }
        return Err(Refusal::of("not a RIFF/WAVE stream"));
    }
    proof {
        assert(wav@.subrange(0, 4) =~= riff_tag());
        assert(wav@.subrange(8, 12) =~= wave_tag());
    }
    let size: u64 = (data.len() as u64) % 0x1_0000_0000;
    let pad: u64 = (data.len() as u64) % 2;
    let mut piece: Vec<u8> = Vec::new();
    push_bytes(&mut piece, id);
    push_le32(&mut piece, size as u32);
    push_bytes(&mut piece, data.as_slice());
    // Chunks are aligned to words; the pad byte is not counted in the size.
    push_zeros(&mut piece, pad as usize);
    assert(piece@ =~= chunk(id@, data@));
    let old_size: u64 = wav[4] as u64 + 256 * (wav[5] as u64) + 65536 * (wav[6] as u64) + 16777216 * (
    wav[7] as u64);
    let new_size: u64 = old_size + (piece.len() as u64) % 0x1_0000_0000;
    if new_size >= 0x1_0000_0000 {
        return Err(Refusal::of("RIFF size overflow"));
    }
    let mut out: Vec<u8> = Vec::new();
    out.push(0x52);
    out.push(0x49);
    out.push(0x46);
    out.push(0x46);
    assert(out@ =~= riff_tag());
    push_le32(&mut out, new_size as u32);
    let ghost sofar = out@;
    out.push(0x57);
    out.push(0x41);
    out.push(0x56);
    out.push(0x45);
    assert(out@ =~= sofar + wave_tag());
    push_bytes(&mut out, piece.as_slice());
    let ghost head = out@;
    let mut i: usize = 12;
    assert(out@ =~= head + wav@.subrange(12, 12));
    while i < wav.len()
        invariant
            12 <= i <= wav@.len(),
            out@ == head + wav@.subrange(12, i as int),
        decreases wav.len() - i,
    {
        out.push(wav[i]);
        assert(wav@.subrange(12, i + 1) =~= wav@.subrange(12, i as int).push(wav@[i as int]));
        assert(out@ =~= head + wav@.subrange(12, i + 1));
        i = i + 1;
    }
    assert(wav@.subrange(12, wav@.len() as int) =~= wav@.skip(12));
    Ok(out)
}

/// The chunks of a stream after its header, by name and data, as a reader walks them. The
/// walk ends at the first chunk that is not complete.
pub open spec fn chunks(s: Seq<u8>) -> Seq<(Seq<u8>, Seq<u8>)>
    decreases s.len(),
{
    if s.len() < 8 {
        Seq::empty()
    } else {
        let size = le32_value(s, 4);
        if s.len() < 8 + size {
            Seq::empty()
        } else {
            let next = 8 + size + size % 2;
            let rest = if next <= s.len() {
                s.skip(next)
            } else {
                Seq::empty()
            };
            seq![(s.subrange(0, 4), s.subrange(8, 8 + size))] + chunks(rest)
        }
    }
}

/// Splicing adds one chunk and keeps all others: a reader of the new stream finds the new
/// chunk first, with exactly its data, and then the chunks of the old stream.
#[verifier::spinoff_prover]
#[verifier::rlimit(40)]
pub proof fn law_splicing_adds_one_chunk(wav: Seq<u8>, id: Seq<u8>, data: Seq<u8>)
    requires
        id.len() == 4,
        data.len() < 0x1_0000_0000,
    ensures
        spliced(wav, id, data) matches Ok(out) ==> is_wave(out) && chunks(out.skip(12)) == seq![
            (id, data),
        ] + chunks(wav.skip(12)),
{
    if let Ok(out) = spliced(wav, id, data) {
        let n = data.len() as int;
        let body = out.skip(12);
        assert(out.subrange(0, 4) =~= riff_tag());
        assert(out.subrange(8, 12) =~= wave_tag());
        assert(body =~= chunk(id, data) + wav.skip(12));
        assert(body.subrange(4, 8) =~= le32(n));
        lemma_le32_at(body, 4, n);
        assert(body.subrange(0, 4) =~= id);
        assert(body.subrange(8, 8 + n) =~= data);
        assert(body.skip(8 + n + n % 2) =~= wav.skip(12));
    }
}

/// The top-level size of a spliced stream counts all its bytes but the first eight, if that
/// of the stream did.
#[verifier::spinoff_prover]
#[verifier::rlimit(30)]
pub proof fn law_splicing_keeps_the_size_right(wav: Seq<u8>, id: Seq<u8>, data: Seq<u8>)
    requires
        id.len() == 4,
        data.len() + 9 < 0x1_0000_0000,
        wav.len() >= 12,
        le32_value(wav, 4) == wav.len() - 8,
    ensures
        spliced(wav, id, data) matches Ok(out) ==> le32_value(out, 4) == out.len() - 8,
{
    if let Ok(out) = spliced(wav, id, data) {
        let size = grown_size(wav, id, data)->0;
        let c = chunk(id, data);
        assert(c.len() == 8 + data.len() + data.len() % 2);
        assert(out.len() == wav.len() + c.len());
        assert(out.subrange(4, 8) =~= le32(size));
        lemma_le32_at(out, 4, size);
    }
}

/// The fixed part of a `bext` chunk has the 602 bytes that version 2 of the format lays
/// down; the version stands at byte 346 and the loudness fields at bytes 412 to 421.
#[verifier::spinoff_prover]
#[verifier::rlimit(30)]
pub proof fn law_bext_layout(meta: BextMetadata)
    ensures
        meta.fixed_part().len() == 602,
        meta.data().subrange(346, 348) == le16(2),
        meta.data().subrange(412, 414) == r128_bytes(meta.integrated_lufs),
        meta.data().subrange(414, 416) == r128_bytes(meta.loudness_range_lu),
        meta.data().subrange(416, 418) == r128_bytes(meta.max_true_peak_dbtp),
        meta.data().subrange(418, 420) == r128_bytes(meta.max_momentary_lufs),
        meta.data().subrange(420, 422) == r128_bytes(meta.max_short_term_lufs),
{
    let d = meta.data();
    assert(meta.fixed_part().len() == 602);
    assert(d.subrange(346, 348) =~= le16(2));
    assert(d.subrange(412, 414) =~= r128_bytes(meta.integrated_lufs));
    assert(d.subrange(414, 416) =~= r128_bytes(meta.loudness_range_lu));
    assert(d.subrange(416, 418) =~= r128_bytes(meta.max_true_peak_dbtp));
    assert(d.subrange(418, 420) =~= r128_bytes(meta.max_momentary_lufs));
    assert(d.subrange(420, 422) =~= r128_bytes(meta.max_short_term_lufs));
}

// ---------------------------------------------------------------------------
// PCM in WAV files.
// ---------------------------------------------------------------------------

/// The bytes of one sample of `width` bytes (two or three), in two's complement, lowest
/// first.
pub open spec fn sample_bytes(v: int, width: int) -> Seq<u8> {
    if width == 2 {
        le16(unsigned16(v))
    } else {
        let raw = if v < 0 {
            v + 16777216
        } else {
            v
        };
        seq![(raw % 256) as u8, (raw / 256 % 256) as u8, (raw / 65536 % 256) as u8]
    }
}

/// The bytes of the samples, one after the other.
pub open spec fn pcm_bytes(samples: Seq<i32>, width: int) -> Seq<u8>
    decreases samples.len(),
{
    if samples.len() == 0 {
        Seq::empty()
    } else {
        pcm_bytes(samples.drop_last(), width) + sample_bytes(samples.last() as int, width)
    }
}

/// Every sample can be written with `bits` bits.
pub open spec fn codes_fit(samples: Seq<i32>, bits: u16) -> bool {
    let half: int = if bits == 16 {
        32768
    } else {
        8388608
    };
    forall|i: int| 0 <= i < samples.len() ==> -half <= #[trigger] samples[i] < half
}

/// The sample of `width` bytes (two or three) at position `i` of `s`, as a reader takes it: in
/// two's complement, lowest byte first.
pub open spec fn sample_value(s: Seq<u8>, width: int, i: int) -> int {
    if width == 2 {
        let raw = s[i] + 256 * s[i + 1];
        if raw >= 32768 {
            raw - 65536
        } else {
            raw
        }
    } else {
        let raw = s[i] + 256 * s[i + 1] + 65536 * s[i + 2];
        if raw >= 8388608 {
            raw - 16777216
        } else {
            raw
        }
    }
}

/// The bytes of sample `k`, where samples are two bytes wide.
#[verifier::spinoff_prover]
#[verifier::rlimit(30)]
proof fn lemma_two_bytes(samples: Seq<i32>, k: int)
    requires
        0 <= k < samples.len(),
    ensures
        pcm_bytes(samples, 2).len() == 2 * samples.len(),
        pcm_bytes(samples, 2).subrange(2 * k, 2 * k + 2) == sample_bytes(samples[k] as int, 2),
    decreases samples.len(),
{
    let front = samples.drop_last();
    let before = pcm_bytes(front, 2);
    let last = sample_bytes(samples.last() as int, 2);
    assert(last.len() == 2);
    if front.len() > 0 {
        lemma_two_bytes(front, 0);
    }
    assert(before.len() == 2 * front.len());
    let all = before + last;
    if k < front.len() {
        lemma_two_bytes(front, k);
        assert(all.subrange(2 * k, 2 * k + 2) =~= before.subrange(2 * k, 2 * k + 2));
    } else {
        assert(all.subrange(2 * k, 2 * k + 2) =~= last);
    }
}

/// The bytes of sample `k`, where samples are three bytes wide.
#[verifier::spinoff_prover]
#[verifier::rlimit(30)]
proof fn lemma_three_bytes(samples: Seq<i32>, k: int)
    requires
        0 <= k < samples.len(),
    ensures
        pcm_bytes(samples, 3).len() == 3 * samples.len(),
        pcm_bytes(samples, 3).subrange(3 * k, 3 * k + 3) == sample_bytes(samples[k] as int, 3),
    decreases samples.len(),
{
    let front = samples.drop_last();
    let before = pcm_bytes(front, 3);
    let last = sample_bytes(samples.last() as int, 3);
    assert(last.len() == 3);
    if front.len() > 0 {
        lemma_three_bytes(front, 0);
    }
    assert(before.len() == 3 * front.len());
    let all = before + last;
    if k < front.len() {
        lemma_three_bytes(front, k);
        assert(all.subrange(3 * k, 3 * k + 3) =~= before.subrange(3 * k, 3 * k + 3));
    } else {
        assert(all.subrange(3 * k, 3 * k + 3) =~= last);
    }
}

/// Sample encoding is lossless: a reader finds sample `k` of a 16-bit or 24-bit stream at the
/// position of its bytes, with the value that was written.
#[verifier::spinoff_prover]
#[verifier::rlimit(30)]
pub proof fn law_samples_read_back(samples: Seq<i32>, bits: u16, k: int)
    requires
        bits == 16 || bits == 24,
        codes_fit(samples, bits),
        0 <= k < samples.len(),
    ensures
        pcm_bytes(samples, bits as int / 8).len() == samples.len() * (bits as int / 8),
        sample_value(pcm_bytes(samples, bits as int / 8), bits as int / 8, k * (bits as int / 8))
            == samples[k],
{
    if bits == 16 {
        lemma_two_bytes(samples, k);
        let bytes = pcm_bytes(samples, 2);
        let one = bytes.subrange(2 * k, 2 * k + 2);
        assert(bytes[2 * k] == one[0] && bytes[2 * k + 1] == one[1]);
    } else {
        lemma_three_bytes(samples, k);
        let bytes = pcm_bytes(samples, 3);
        let one = bytes.subrange(3 * k, 3 * k + 3);
        assert(bytes[3 * k] == one[0] && bytes[3 * k + 1] == one[1] && bytes[3 * k + 2] == one[2]);
    }
}

/// The length of the header that comes before the samples.
pub open spec fn wav_header_len(channels: int, bits: u16) -> int {
    if channels > 2 || bits > 16 {
        68
    } else {
        44
    }
}

/// A WAV file can hold `count` samples in `channels` channels: the counts and sizes fit the
/// fields of the header.
pub open spec fn wav_limits(channels: int, count: int, sample_rate: int, bits: u16) -> bool {
    let width = bits as int / 8;
    &&& bits == 16 || bits == 24
    &&& 1 <= channels <= 65535
    &&& 1 <= sample_rate
    &&& sample_rate * width * channels <= 0xFFFF_FFFF
    &&& count * width + 68 <= 0xFFFF_FFFF
    &&& count % channels == 0
}

/// The refusals of the WAV writer.
#[verifier::external_type_specification]
#[verifier::external_body]
pub struct ExWavError(hound::Error);

/// The WAV file that `hound` writes for integer samples.
pub uninterp spec fn hound_wav(channels: u16, sample_rate: u32, bits: u16, samples: Seq<i32>) -> Seq<
    u8,
>;

/// Calls `hound::WavWriter::new` on a cursor in memory, `write_sample` for each sample in
/// order, and `finalize`.
///
/// Trusted: within the limits of the header fields, with samples that fit the bit depth and
/// make up whole frames, writing to memory succeeds, and the bytes are a function of the
/// arguments. The file starts with `RIFF`, the number of the bytes after the eighth, and
/// `WAVE`; its header has 44 bytes, or 68 for more than two channels or more than 16 bits;
/// what follows are the samples, in two's complement, lowest byte first.
#[verifier::external_body]
fn write_wav_in_memory(channels: u16, sample_rate: u32, bits: u16, samples: &Vec<i32>) -> (r: Result<
    Vec<u8>,
    hound::Error,
>)
    requires
        wav_limits(channels as int, samples@.len() as int, sample_rate as int, bits),
        codes_fit(samples@, bits),
    ensures
        r is Ok,
        r matches Ok(b) ==> b@ == hound_wav(channels, sample_rate, bits, samples@),
        r matches Ok(b) ==> is_wave(b@) && le32_value(b@, 4) == b@.len() - 8,
        r matches Ok(b) ==> b@.len() == wav_header_len(channels as int, bits) + samples@.len() * (bits
            as int / 8),
        r matches Ok(b) ==> b@.skip(wav_header_len(channels as int, bits)) == pcm_bytes(
            samples@,
            bits as int / 8,
        ),
{
    let sample_format = hound::SampleFormat::Int;
    let spec = hound::WavSpec { channels, sample_rate, bits_per_sample: bits, sample_format };
    let mut cursor = std::io::Cursor::new(Vec::<u8>::new());
    let mut writer = hound::WavWriter::new(&mut cursor, spec)?;
    for sample in samples {
        writer.write_sample(*sample)?;
    }
    writer.finalize()?;
    Ok(cursor.into_inner())
}

/// The interleaved codes of planar channels.
pub open spec fn frame_codes(channels: Seq<Vec<i32>>, frames: nat) -> Seq<i32> {
    interleaved(planar(channels), frames)
}

/// Whether a WAV file can hold these channels.
pub fn wav_fits(channels: usize, frames: usize, sample_rate: u32, bits: u16) -> (r: bool)
    ensures
        r == (channels > 0 && wav_limits(
            channels as int,
            frames * channels,
            sample_rate as int,
            bits,
        )),
{
    if !(bits == 16 || bits == 24) || channels == 0 || channels > 65535 || sample_rate == 0 {
        return false;
    }
    let width: u128 = (bits / 8) as u128;
    proof {
        assert((sample_rate as int) * (width as int) <= 0xFFFF_FFFF * 3) by (nonlinear_arith)
            requires
                sample_rate <= 0xFFFF_FFFFu32,
                width <= 3,
                width >= 0,
        ;
        let a = (sample_rate as int) * (width as int);
        assert(a * channels <= 0xFFFF_FFFF * 3 * 65535) by (nonlinear_arith)
            requires
                0 <= a <= 0xFFFF_FFFF * 3,
                channels <= 65535,
        ;
        assert(frames * channels <= 0xFFFF_FFFF_FFFF_FFFF * 65535) by (nonlinear_arith)
            requires
                frames <= 0xFFFF_FFFF_FFFF_FFFF,
                channels <= 65535,
        ;
        let b = frames * channels;
        assert(b * width <= 0xFFFF_FFFF_FFFF_FFFF * 65535 * 3) by (nonlinear_arith)
            requires
                0 <= b <= 0xFFFF_FFFF_FFFF_FFFF * 65535,
                width <= 3,
                width >= 0,
        ;
        vstd::arithmetic::div_mod::lemma_mod_multiples_basic(frames as int, channels as int);
    }
    let rate_bytes: u128 = (sample_rate as u128) * width * (channels as u128);
    let count: u128 = (frames as u128) * (channels as u128);
    rate_bytes <= 0xFFFF_FFFF && count * width + 68 <= 0xFFFF_FFFF
}

proof fn lemma_codes_fit(samples: Seq<Seq<i32>>, n: nat, bits: u16)
    requires
        forall|c: int| 0 <= c < samples.len() ==> codes_fit(#[trigger] samples[c], bits),
        forall|c: int| 0 <= c < samples.len() ==> (#[trigger] samples[c]).len() >= n,
    ensures
        codes_fit(interleaved(samples, n), bits),
    decreases n,
{
    if n > 0 {
        lemma_codes_fit(samples, (n - 1) as nat, bits);
        let last = crate::audio::planar::frame_at(samples, n - 1);
        let before = interleaved(samples, (n - 1) as nat);
        let all = interleaved(samples, n);
        let half: int = if bits == 16 {
            32768
        } else {
            8388608
        };
        assert forall|i: int| 0 <= i < all.len() implies -half <= #[trigger] all[i] < half by {
            if i < before.len() {
                assert(all[i] == before[i]);
            } else {
                let c = i - before.len();
                assert(all[i] == last[c]);
                assert(codes_fit(samples[c], bits));
                assert(samples[c][n - 1] == last[c]);
            }
        }
    }
}

/// Encode planar integer codes as a WAV file.
fn encode_wav(channels: &Vec<Vec<i32>>, frames: usize, sample_rate: u32, bits: u16) -> (r: Result<
    Vec<u8>,
    Refusal,
>)
    requires
        rectangular(planar(channels@), frames as nat),
        channels@.len() > 0,
        wav_limits(channels@.len() as int, frames * channels@.len(), sample_rate as int, bits),
        codes_fit(frame_codes(channels@, frames as nat), bits),
    ensures
        r is Ok,
        r matches Ok(b) ==> b@ == hound_wav(
            channels@.len() as u16,
            sample_rate,
            bits,
            frame_codes(channels@, frames as nat),
        ),
        r matches Ok(b) ==> is_wave(b@) && le32_value(b@, 4) == b@.len() - 8,
        r matches Ok(b) ==> b@.len() == wav_header_len(channels@.len() as int, bits) + frames
            * channels@.len() * (bits as int / 8),
        r matches Ok(b) ==> b@.skip(wav_header_len(channels@.len() as int, bits)) == pcm_bytes(
            frame_codes(channels@, frames as nat),
            bits as int / 8,
        ),
{
    let flat = interleave(channels, frames);
    proof {
        lemma_interleaved_len(planar(channels@), frames as nat);
    }
    match write_wav_in_memory(channels.len() as u16, sample_rate, bits, &flat) {
        Ok(b) => Ok(b),
        Err(_) => Err(Refusal::of("failed to finalize wav writer")),
    }
}

/// Add a `bext` chunk to a WAV file in memory, or leave it plain.
pub fn with_bext(wav: Vec<u8>, bext: Option<&BextMetadata>) -> (r: Result<Vec<u8>, Refusal>)
    ensures
        match bext {
            None => r == Ok::<Vec<u8>, Refusal>(wav),
            Some(meta) => match r {
                Ok(out) => spliced(wav@, bext_tag(), meta.data()) == Ok::<Seq<u8>, Seq<char>>(out@),
                Err(e) => spliced(wav@, bext_tag(), meta.data()) is Err && e@
                    == "failed to splice bext chunk: "@ + spliced(
                    wav@,
                    bext_tag(),
                    meta.data(),
                )->Err_0,
            },
        },
{
    match bext {
        None => Ok(wav),
        Some(meta) => {
            let data = meta.to_bytes();
            let id: [u8; 4] = [0x62, 0x65, 0x78, 0x74];
            assert(id@ =~= bext_tag());
            match splice_chunk_after_wave(&wav, &id, &data) {
                Ok(out) => Ok(out),
                Err(e) => {
                    let mut m = String::from_str("failed to splice bext chunk: ");
                    m.append(e.message.as_str());
                    Err(Refusal::new(m))
                },
            }
        },
    }
}

/// `bext`.
pub open spec fn bext_tag() -> Seq<u8> {
    seq![0x62u8, 0x65, 0x78, 0x74]
}

// ---------------------------------------------------------------------------
// FLAC.
// ---------------------------------------------------------------------------

/// `fLaC`.
pub open spec fn flac_tag() -> Seq<u8> {
    seq![0x66u8, 0x4C, 0x61, 0x43]
}

/// The audio that a FLAC stream holds, as the FLAC format defines it: the interleaved
/// samples, the number of channels, the bits per sample and the sample rate.
pub uninterp spec fn flac_audio(stream: Seq<u8>) -> (Seq<i32>, nat, nat, nat);

/// A FLAC header has 36 bits for the number of frames.
pub open spec fn flac_countable(frames: nat) -> bool {
    frames < 0x10_0000_0000
}

/// The highest rate that the encoder takes.
pub open spec fn flac_max_rate() -> nat {
    96_000
}

/// FLAC holds this many channels.
pub open spec fn flac_channels(channels: nat) -> bool {
    1 <= channels <= 8
}

/// The encoder takes these samples: the number of channels, the bit depth, the rate and every
/// sample are in range.
pub open spec fn flac_takes(samples: Seq<i32>, channels: nat, bits: nat, rate: nat) -> bool {
    &&& flac_channels(channels)
    &&& bits == 16 || bits == 24
    &&& rate <= flac_max_rate()
    &&& codes_fit(samples, bits as u16)
}

/// Calls `flacenc::encode_with_fixed_block_size` with the default configuration on a
/// `MemSource`, and `Stream::write`. It encodes on the calling thread, which gives the same
/// stream as worker threads do and leaves nothing to the machine.
///
/// Trusted: a rate above the highest one, samples of 32 bits, a number of channels that the
/// format does not have and a sample beyond the bit depth are refused: the first two when the
/// stream is set up, the third there or when the buffer of a block is made, the last before its
/// block is encoded.
/// Anything else that can be counted is encoded: the source cannot fail, the frame numbers fit
/// and writing to memory does not fail. FLAC is lossless, so the stream holds exactly the
/// samples, channels, bit depth and rate that were handed over, and it starts with `fLaC`.
/// Which of the many streams that hold this audio comes out depends on floating-point analysis
/// and is left open, as is what the encoder says of what it refuses. The smallest block size in
/// the header counts a short last block; the samples are not affected.
#[verifier::external_body]
fn write_flac_in_memory(samples: &Vec<i32>, channels: usize, bits: usize, rate: u32) -> (r: Result<
    Vec<u8>,
    String,
>)
    requires
        bits == 16 || bits == 24 || bits == 32,
        channels > 0 ==> samples@.len() % channels as nat == 0,
    ensures
        !flac_takes(samples@, channels as nat, bits as nat, rate as nat) ==> r is Err && starts_with(
            r->Err_0@,
            "flac encode failed: "@,
        ),
        flac_takes(samples@, channels as nat, bits as nat, rate as nat) && flac_countable(
            samples@.len() / channels as nat,
        ) ==> r is Ok && flac_audio(r->Ok_0@) == (
            samples@,
            channels as nat,
            bits as nat,
            rate as nat,
        ),
        r matches Ok(b) ==> b@.len() >= 4 && b@.subrange(0, 4) == flac_tag(),
{
    let mut config = flacenc::config::Encoder::default();
    config.multithread = false;
    let config = flacenc::error::Verify::into_verified(config)
        .map_err(|e| format!("invalid flac encoder config: {:?}", e.1))?;
    let source = flacenc::source::MemSource::from_samples(samples, channels, bits, rate as usize);
    let stream = flacenc::encode_with_fixed_block_size(&config, source, config.block_size)
        .map_err(|e| format!("flac encode failed: {e:?}"))?;
    let mut sink = flacenc::bitsink::ByteSink::new();
    flacenc::component::BitRepr::write(&stream, &mut sink)
        .map_err(|_| String::from("flac bitstream serialization failed"))?;
    Ok(sink.as_slice().to_vec())
}

/// Encode planar integer codes as FLAC. What the encoder does not take is refused.
fn encode_flac(channels: &Vec<Vec<i32>>, frames: usize, sample_rate: u32, bits: usize) -> (r: Result<
    Vec<u8>,
    Refusal,
>)
    requires
        rectangular(planar(channels@), frames as nat),
        bits == 16 || bits == 24 || bits == 32,
    ensures
        ({
            let codes = frame_codes(channels@, frames as nat);
            let taken = flac_takes(codes, channels@.len(), bits as nat, sample_rate as nat);
            &&& !taken ==> (r matches Err(e) && starts_with(e@, "flac encode failed: "@))
            &&& taken && flac_countable(frames as nat) ==> (r matches Ok(b) && flac_audio(b@) == (
                codes,
                channels@.len(),
                bits as nat,
                sample_rate as nat,
            ))
        }),
        r matches Ok(b) ==> b@.len() >= 4 && b@.subrange(0, 4) == flac_tag(),
{
    let flat = interleave(channels, frames);
    proof {
        lemma_interleaved_len(planar(channels@), frames as nat);
        if channels@.len() > 0 {
            vstd::arithmetic::div_mod::lemma_mod_multiples_basic(
                frames as int,
                channels@.len() as int,
            );
            vstd::arithmetic::div_mod::lemma_div_by_multiple(frames as int, channels@.len() as int);
        }
    }
    match write_flac_in_memory(&flat, channels.len(), bits, sample_rate) {
        Ok(b) => Ok(b),
        Err(m) => Err(Refusal::new(m)),
    }
}

// ---------------------------------------------------------------------------
// Codes and MP3.
// ---------------------------------------------------------------------------

/// The code of a sample: the integer nearest to the sample times `max`, between `lo` and `hi`.
/// `scale(x, max)` is the sample times `max`.
pub open spec fn scaled_code<S>(
    x: S,
    max: int,
    lo: int,
    hi: int,
    scale: spec_fn(S, i32) -> Level,
) -> i32 {
    scale(x, max as i32).snapped(lo, hi) as i32
}

/// The codes, between `lo` and `hi`, of every sample of a buffer.
pub open spec fn scaled_codes<S>(
    b: AudioBuffer<S>,
    max: int,
    lo: int,
    hi: int,
    scale: spec_fn(S, i32) -> Level,
) -> Seq<Seq<i32>> {
    Seq::new(
        b.channels@.len(),
        |c: int|
            Seq::new(
                b.frames(),
                |n: int| scaled_code(b.samples()[c][n], max, lo, hi, scale),
            ),
    )
}

/// The code of a sample in a WAV file: samples beyond full scale are held at it, whether or not
/// `scale` clamps them to full scale first.
pub open spec fn pcm_value<S>(x: S, max: int, scale: spec_fn(S, i32) -> Level) -> i32 {
    scaled_code(x, max, -max, max, scale)
}

/// The codes of a buffer in a WAV file.
pub open spec fn pcm_values<S>(b: AudioBuffer<S>, scale: spec_fn(S, i32) -> Level) -> Seq<Seq<i32>> {
    let max = b.out_format.grid_max()->0;
    scaled_codes(b, max, -max, max, scale)
}

/// The largest code of `bits` bits.
pub open spec fn full_scale(bits: nat) -> int {
    pow2((bits - 1) as nat) - 1
}

/// The code of a sample that is handed to the FLAC encoder, which refuses samples beyond the bit
/// depth by itself.
pub open spec fn flac_value<S>(x: S, max: int, scale: spec_fn(S, i32) -> Level) -> i32 {
    scaled_code(x, max, i32::MIN as int, i32::MAX as int, scale)
}

/// The codes of a buffer that are handed to the FLAC encoder.
pub open spec fn flac_values<S>(
    b: AudioBuffer<S>,
    bits: nat,
    scale: spec_fn(S, i32) -> Level,
) -> Seq<Seq<i32>> {
    scaled_codes(b, full_scale(bits), i32::MIN as int, i32::MAX as int, scale)
}

/// The codes of every sample of a buffer, channel by channel.
fn codes_between<S: Copy, Q: Fn(S, i32) -> Level>(
    buffer: &AudioBuffer<S>,
    max: i32,
    lo: i32,
    hi: i32,
    scale: &Q,
) -> (r: Vec<Vec<i32>>)
    requires
        buffer.well_formed(),
        lo <= hi,
        accepts2(*scale),
    ensures
        r@.len() == buffer.channels@.len(),
        rectangular(planar(r@), buffer.frames()),
        forall|c: int, n: int|
            0 <= c < r@.len() && 0 <= n < buffer.frames() ==> lo <= #[trigger] r@[c]@[n] <= hi,
        forall|sc: spec_fn(S, i32) -> Level| computes2(*scale, sc) ==> planar(r@)
            == #[trigger] scaled_codes(*buffer, max as int, lo as int, hi as int, sc),
{
    let frames = buffer.frame_len();
    let mut r: Vec<Vec<i32>> = Vec::new();
    while r.len() < buffer.channels.len()
        invariant
            buffer.well_formed(),
            frames == buffer.frames(),
            lo <= hi,
            accepts2(*scale),
            r@.len() <= buffer.channels@.len(),
            forall|c: int| 0 <= c < r@.len() ==> (#[trigger] r@[c])@.len() == frames,
            forall|c: int, n: int|
                0 <= c < r@.len() && 0 <= n < frames ==> lo <= #[trigger] r@[c]@[n] <= hi,
            forall|sc: spec_fn(S, i32) -> Level, c: int|
                computes2(*scale, sc) && 0 <= c < r@.len() ==> r@[c]@ == #[trigger] scaled_codes(
                    *buffer,
                    max as int,
                    lo as int,
                    hi as int,
                    sc,
                )[c],
        decreases buffer.channels.len() - r.len(),
    {
        let c = r.len();
        assert(buffer.samples()[c as int].len() == frames);
        let mut own: Vec<i32> = Vec::new();
        while own.len() < frames
            invariant
                c < buffer.channels@.len(),
                buffer.channels@[c as int]@.len() == frames,
                lo <= hi,
                accepts2(*scale),
                own@.len() <= frames,
                forall|n: int| 0 <= n < own@.len() ==> lo <= #[trigger] own@[n] <= hi,
                forall|sc: spec_fn(S, i32) -> Level, n: int|
                    computes2(*scale, sc) && 0 <= n < own@.len() ==> own@[n] == #[trigger] scaled_code(
                        buffer.samples()[c as int][n],
                        max as int,
                        lo as int,
                        hi as int,
                        sc,
                    ),
            decreases frames - own.len(),
        {
            let n = own.len();
            let scaled: Level = scale(buffer.channels[c][n], max);
            own.push(scaled.snap(lo, hi));
        }
        proof {
            assert forall|sc: spec_fn(S, i32) -> Level| computes2(*scale, sc) implies own@
                == #[trigger] scaled_codes(*buffer, max as int, lo as int, hi as int, sc)[c as int] by {
                let all = scaled_codes(*buffer, max as int, lo as int, hi as int, sc)[c as int];
                assert forall|n: int| 0 <= n < frames implies own@[n] == all[n] by {
                    assert(own@[n] == scaled_code(
                        buffer.samples()[c as int][n],
                        max as int,
                        lo as int,
                        hi as int,
                        sc,
                    ));
                }
                assert(own@ =~= all);
            }
        }
        r.push(own);
    }
    proof {
        assert forall|sc: spec_fn(S, i32) -> Level| computes2(*scale, sc) implies planar(r@)
            == #[trigger] scaled_codes(*buffer, max as int, lo as int, hi as int, sc) by {
            let all = scaled_codes(*buffer, max as int, lo as int, hi as int, sc);
            assert forall|c: int| 0 <= c < r@.len() implies planar(r@)[c] == all[c] by {}
            assert(planar(r@) =~= all);
        }
    }
    r
}

/// The WAV file of a quantized buffer, without metadata.
pub open spec fn plain_wav<S>(b: AudioBuffer<S>, scale: spec_fn(S, i32) -> Level) -> Seq<u8> {
    hound_wav(
        b.channels@.len() as u16,
        b.sample_rate,
        b.out_format.bits(),
        interleaved(pcm_values(b, scale), b.frames()),
    )
}

/// The bytes that come before the samples in the WAV file of a quantized buffer.
pub open spec fn lead_len<S>(b: AudioBuffer<S>, bext: Option<&BextMetadata>) -> int {
    wav_header_len(b.channels@.len() as int, b.out_format.bits()) + match bext {
        None => 0,
        Some(meta) => chunk(bext_tag(), meta.data()).len() as int,
    }
}

/// The bytes that the samples of a quantized buffer take.
pub open spec fn audio_len<S>(b: AudioBuffer<S>) -> int {
    b.frames() * b.channels@.len() * (b.out_format.bits() as int / 8)
}

proof fn lemma_digits_are_ascii(n: nat, width: nat)
    requires
        width > 0,
        n < vstd::arithmetic::power::pow(10, width),
    ensures
        digits(n).len() <= width,
        is_ascii_chars(digits(n)),
    decreases width,
{
    reveal_with_fuel(vstd::arithmetic::power::pow, 2);
    if n >= 10 {
        lemma_digits_are_ascii(n / 10, (width - 1) as nat);
    }
}

/// ASCII text joined to ASCII text.
proof fn lemma_joined_ascii(one: Seq<char>, other: Seq<char>)
    requires
        is_ascii_chars(one),
        is_ascii_chars(other),
    ensures
        is_ascii_chars(one + other),
        (one + other).len() == one.len() + other.len(),
{
}

/// The coding history is a short line of ASCII.
#[verifier::spinoff_prover]
#[verifier::rlimit(30)]
proof fn lemma_history_is_short(meta: BextMetadata)
    ensures
        is_ascii_chars(meta.history()),
        meta.history().len() < 100,
{
    reveal_strlit("A=PCM,F=");
    reveal_strlit(",W=");
    reveal_strlit(",M=");
    reveal_strlit("stereo");
    reveal_strlit("mono");
    reveal_strlit(",T=mint\r\n");
    assert(vstd::arithmetic::power::pow(10, 10) == 10_000_000_000) by {
        reveal_with_fuel(vstd::arithmetic::power::pow, 11);
    }
    lemma_digits_are_ascii(meta.sample_rate as nat, 10);
    lemma_digits_are_ascii(meta.bits as nat, 10);
    let layout = if meta.channels >= 2 {
        "stereo"@
    } else {
        "mono"@
    };
    let rate = "A=PCM,F="@ + digits(meta.sample_rate as nat);
    lemma_joined_ascii("A=PCM,F="@, digits(meta.sample_rate as nat));
    lemma_joined_ascii(rate, ",W="@);
    lemma_joined_ascii(rate + ",W="@, digits(meta.bits as nat));
    let width = rate + ",W="@ + digits(meta.bits as nat);
    lemma_joined_ascii(width, ",M="@);
    lemma_joined_ascii(width + ",M="@, layout);
    lemma_joined_ascii(width + ",M="@ + layout, ",T=mint\r\n"@);
}

/// A `bext` chunk takes less than a kilobyte.
proof fn lemma_bext_is_small(meta: BextMetadata)
    ensures
        meta.data().len() < 1000,
{
    law_bext_layout(meta);
    lemma_history_is_short(meta);
    is_ascii_chars_encode_utf8(meta.history());
}

/// What becomes of a WAV file when a small chunk is added.
#[verifier::spinoff_prover]
#[verifier::rlimit(30)]
proof fn lemma_spliced(wav: Seq<u8>, header: int, id: Seq<u8>, data: Seq<u8>)
    requires
        is_wave(wav),
        le32_value(wav, 4) == wav.len() - 8,
        12 <= header <= wav.len(),
        id.len() == 4,
        data.len() < 1000,
    ensures
        ({
            let added = chunk(id, data);
            match spliced(wav, id, data) {
                Ok(out) => wav.len() + added.len() - 8 <= 0xFFFF_FFFF && is_wave(out) && le32_value(
                    out,
                    4,
                ) == out.len() - 8 && out.skip(header + added.len()) == wav.skip(header),
                Err(why) => wav.len() + added.len() - 8 > 0xFFFF_FFFF && why == "RIFF size overflow"@,
            }
        }),
{
    law_splicing_keeps_the_size_right(wav, id, data);
    law_bext_keeps_the_samples(wav, header, id, data);
    if let Ok(out) = spliced(wav, id, data) {
        assert(out.subrange(0, 4) =~= riff_tag());
        assert(out.subrange(8, 12) =~= wave_tag());
    }
}

/// The WAV file of a quantized buffer, without metadata.
#[verifier::spinoff_prover]
#[verifier::rlimit(30)]
fn write_plain_wav<S: Copy, Q: Fn(S, i32) -> Level>(buffer: &AudioBuffer<S>, scale: &Q) -> (r: Result<
    Vec<u8>,
    Refusal,
>)
    requires
        buffer.well_formed(),
        buffer.out_format.grid_max() is Some,
        wav_limits(
            buffer.channels@.len() as int,
            (buffer.frames() * buffer.channels@.len()) as int,
            buffer.sample_rate as int,
            buffer.out_format.bits(),
        ),
        accepts2(*scale),
    ensures
        r is Ok,
        forall|sc: spec_fn(S, i32) -> Level| computes2(*scale, sc) ==> r->Ok_0@ == #[trigger] plain_wav(
            *buffer,
            sc,
        ),
        is_wave(r->Ok_0@),
        le32_value(r->Ok_0@, 4) == r->Ok_0@.len() - 8,
        r->Ok_0@.len() == lead_len(*buffer, None) + audio_len(*buffer),
        forall|sc: spec_fn(S, i32) -> Level| computes2(*scale, sc) ==> r->Ok_0@.skip(
            lead_len(*buffer, None),
        ) == pcm_bytes(
            interleaved(#[trigger] pcm_values(*buffer, sc), buffer.frames()),
            buffer.out_format.bits() as int / 8,
        ),
{
    let frames = buffer.frame_len();
    let bits = buffer.out_format.bits_per_sample();
    let max: i32 = match buffer.out_format.int_grid() {
        Some((max, _, _)) => max,
        None => 0,
    };
    let codes = codes_between(buffer, max, -max, max, scale);
    proof {
        assert forall|c: int| 0 <= c < codes@.len() implies codes_fit(
            #[trigger] planar(codes@)[c],
            bits,
        ) by {
            assert(planar(codes@)[c] == codes@[c]@);
        }
        lemma_codes_fit(planar(codes@), frames as nat, bits);
        assert(frames * codes@.len() == buffer.frames() * buffer.channels@.len());
    }
    encode_wav(&codes, frames, buffer.sample_rate, bits)
}

/// The WAV file of a buffer that was quantized to an integer format, with a `bext` chunk when
/// there is metadata. A file that would grow beyond what its size field can hold is refused.
/// Otherwise the top-level size counts the whole file, and the file ends with the codes of
/// the samples.
#[verifier::spinoff_prover]
#[verifier::rlimit(30)]
pub fn write_wav<S: Copy, Q: Fn(S, i32) -> Level>(
    buffer: &AudioBuffer<S>,
    bext: Option<&BextMetadata>,
    scale: &Q,
) -> (r: Result<Vec<u8>, Refusal>)
    requires
        buffer.well_formed(),
        buffer.out_format.grid_max() is Some,
        wav_limits(
            buffer.channels@.len() as int,
            (buffer.frames() * buffer.channels@.len()) as int,
            buffer.sample_rate as int,
            buffer.out_format.bits(),
        ),
        accepts2(*scale),
    ensures
        forall|sc: spec_fn(S, i32) -> Level| computes2(*scale, sc) ==> {
            let wav = #[trigger] plain_wav(*buffer, sc);
            match bext {
                None => r matches Ok(out) && out@ == wav,
                Some(meta) => match spliced(wav, bext_tag(), meta.data()) {
                    Ok(whole) => r matches Ok(out) && out@ == whole,
                    Err(why) => r matches Err(e) && e@ == "failed to splice bext chunk: "@ + why,
                },
            }
        },
        r is Ok <==> (bext is Some ==> lead_len(*buffer, bext) + audio_len(*buffer) - 8 <= 0xFFFF_FFFF),
        r matches Err(e) ==> e@ == "failed to splice bext chunk: "@ + "RIFF size overflow"@,
        r matches Ok(out) ==> is_wave(out@) && le32_value(out@, 4) == out@.len() - 8,
        forall|sc: spec_fn(S, i32) -> Level| computes2(*scale, sc) ==> (r matches Ok(out) ==> out@.skip(
            lead_len(*buffer, bext),
        ) == pcm_bytes(
            interleaved(#[trigger] pcm_values(*buffer, sc), buffer.frames()),
            buffer.out_format.bits() as int / 8,
        )),
{
    match write_plain_wav(buffer, scale) {
        Err(e) => Err(e),
        Ok(wav) => {
            proof {
                if let Some(meta) = bext {
                    lemma_bext_is_small(*meta);
                    lemma_spliced(wav@, lead_len(*buffer, None), bext_tag(), meta.data());
                }
            }
            with_bext(wav, bext)
        },
    }
}

/// The FLAC file of a buffer that was quantized to `bits_per_sample` bits, the width of a sample
/// format. The encoder takes one to eight channels, 16 or 24 bits, rates up to the highest one
/// and samples within the bit depth; others are refused.
pub fn write_flac<S: Copy, Q: Fn(S, i32) -> Level>(
    buffer: &AudioBuffer<S>,
    bits_per_sample: usize,
    scale: &Q,
) -> (r: Result<Vec<u8>, Refusal>)
    requires
        buffer.well_formed(),
        bits_per_sample == 16 || bits_per_sample == 24 || bits_per_sample == 32,
        accepts2(*scale),
    ensures
        forall|sc: spec_fn(S, i32) -> Level| computes2(*scale, sc) ==> {
            let bits = bits_per_sample as nat;
            let codes = interleaved(
                #[trigger] flac_values(*buffer, bits_per_sample as nat, sc),
                buffer.frames(),
            );
            let channels = buffer.channels@.len();
            let taken = flac_takes(codes, channels, bits, buffer.sample_rate as nat);
            &&& !taken ==> (r matches Err(e) && starts_with(e@, "flac encode failed: "@))
            &&& taken && flac_countable(buffer.frames()) ==> (r matches Ok(out) && flac_audio(out@)
                == (codes, channels, bits, buffer.sample_rate as nat))
        },
        bits_per_sample == 32 || !flac_channels(buffer.channels@.len()) || buffer.sample_rate
            > flac_max_rate() ==> (r matches Err(e) && starts_with(e@, "flac encode failed: "@)),
        r matches Ok(out) ==> out@.len() >= 4 && out@.subrange(0, 4) == flac_tag(),
{
    let frames = buffer.frame_len();
    let max: i32 = if bits_per_sample == 16 {
        32_767
    } else if bits_per_sample == 24 {
        8_388_607
    } else {
        i32::MAX
    };
    proof {
        vstd::arithmetic::power2::lemma2_to64();
    }
    let codes = codes_between(buffer, max, i32::MIN, i32::MAX, scale);
    encode_flac(&codes, frames, buffer.sample_rate, bits_per_sample)
}

/// The place of an MP3 bitrate in the table of bitrates.
pub fn map_bitrate(kbps: u32) -> (r: Result<usize, Refusal>)
    ensures
        match r {
            Ok(i) => i < mp3_bitrates().len() && mp3_bitrates()[i as int] == kbps,
            Err(e) => !mp3_bitrates().contains(kbps) && e@ == "unsupported MP3 bitrate: "@ + digits(
                kbps as nat,
            ) + " kbps"@,
        },
{
    let table: [u32; 16] = MP3_BITRATES;
    assert(table@ =~= mp3_bitrates());
    let mut i: usize = 0;
    while i < 16
        invariant
            table@ == mp3_bitrates(),
            i <= 16,
            forall|k: int| 0 <= k < i ==> mp3_bitrates()[k] != kbps,
        decreases 16 - i,
    {
        if table[i] == kbps {
            return Ok(i);
        }
        i = i + 1;
    }
    let mut m = String::from_str("unsupported MP3 bitrate: ");
    m.append(text::number(kbps as u64).as_str());
    m.append(" kbps");
    Err(Refusal::new(m))
}

/// MP3 carries one or two channels.
pub fn check_mp3_channels(channels: usize) -> (r: Result<(), Refusal>)
    ensures
        match r {
            Ok(_) => 1 <= channels <= 2,
            Err(e) => !(1 <= channels <= 2) && e@ == "MP3 supports mono or stereo only (got "@ + digits(
                channels as nat,
            ) + " channels)"@,
        },
{
    if channels == 0 || channels > 2 {
        let mut m = String::from_str("MP3 supports mono or stereo only (got ");
        m.append(text::number(channels as u64).as_str());
        m.append(" channels)");
        return Err(Refusal::new(m));
    }
    Ok(())
}

/// A `bext` chunk does not touch the audio: the samples stand at the end of the spliced file
/// just as they did in the plain one.
#[verifier::spinoff_prover]
#[verifier::rlimit(30)]
pub proof fn law_bext_keeps_the_samples(wav: Seq<u8>, header: int, id: Seq<u8>, data: Seq<u8>)
    requires
        id.len() == 4,
        12 <= header <= wav.len(),
    ensures
        spliced(wav, id, data) matches Ok(out) ==> out.skip(header + chunk(id, data).len())
            == wav.skip(header),
{
    if let Ok(out) = spliced(wav, id, data) {
        assert(out.skip(header + chunk(id, data).len()) =~= wav.skip(header));
    }
}

/// `y` is the integer from `lo` to `hi` that is nearest to a figure: the figure is at most half
/// a step away from it, or beyond the end of the range that it is.
pub open spec fn is_nearest_code(y: int, figure: Level, lo: int, hi: int) -> bool {
    &&& lo <= y <= hi
    &&& figure.finite() && y < hi ==> 2 * figure.units() <= (2 * y + 1) * pow2(1074)
    &&& figure.finite() && y > lo ==> (2 * y - 1) * pow2(1074) <= 2 * figure.units()
    &&& figure.nan() ==> y == 0
    &&& !figure.nan() && !figure.finite() ==> y == (if figure.negative() {
        lo
    } else {
        hi
    })
}

/// A WAV file holds its own audio: a reader finds, at the place of frame `n` and channel `c`, the
/// integer nearest to the scaled sample of that frame and channel, held at full scale.
pub proof fn law_wav_holds_every_sample<S>(
    b: AudioBuffer<S>,
    scale: spec_fn(S, i32) -> Level,
    c: int,
    n: int,
)
    requires
        b.well_formed(),
        b.out_format == OutputSampleFormat::S16 || b.out_format == OutputSampleFormat::S24,
        0 <= c < b.channels@.len(),
        0 <= n < b.frames(),
    ensures
        ({
            let (width, max): (int, int) = if b.out_format == OutputSampleFormat::S16 {
                (2, 32_767)
            } else {
                (3, 8_388_607)
            };
            let bytes = pcm_bytes(
                interleaved(pcm_values(b, scale), b.frames()),
                b.out_format.bits() as int / 8,
            );
            let place = (n * b.channels@.len() + c) * width;
            &&& bytes.len() == b.frames() * b.channels@.len() * width
            &&& is_nearest_code(
                sample_value(bytes, width, place),
                scale(b.samples()[c][n], max as i32),
                -max,
                max,
            )
        }),
{
    let bits = b.out_format.bits();
    let max = b.out_format.grid_max()->0;
    let values = pcm_values(b, scale);
    let flat = interleaved(values, b.frames());
    assert(rectangular(values, b.frames()));
    assert forall|d: int| 0 <= d < values.len() implies codes_fit(#[trigger] values[d], bits) by {
        assert forall|k: int| 0 <= k < values[d].len() implies -max <= #[trigger] values[d][k] <= max by {
            law_snapping_goes_to_the_nearest(scale(b.samples()[d][k], max as i32), -max, max);
        }
    }
    lemma_codes_fit(values, b.frames(), bits);
    lemma_interleaved_len(values, b.frames());
    law_interleaved_order(values, b.frames(), c, n);
    law_samples_read_back(flat, bits, n * values.len() + c);
    law_snapping_goes_to_the_nearest(scale(b.samples()[c][n], max as i32), -max, max);
}

/// The FLAC encoder is handed its own audio: at the place of frame `n` and channel `c` stands the
/// integer nearest to the scaled sample of that frame and channel.
pub proof fn law_flac_is_handed_every_sample<S>(
    b: AudioBuffer<S>,
    bits: nat,
    scale: spec_fn(S, i32) -> Level,
    c: int,
    n: int,
)
    requires
        bits == 16 || bits == 24 || bits == 32,
        0 <= c < b.channels@.len(),
        0 <= n < b.frames(),
    ensures
        ({
            let max: i32 = if bits == 16 {
                32_767
            } else if bits == 24 {
                8_388_607
            } else {
                2_147_483_647
            };
            let codes = interleaved(flac_values(b, bits, scale), b.frames());
            &&& codes.len() == b.frames() * b.channels@.len()
            &&& is_nearest_code(
                codes[n * b.channels@.len() + c] as int,
                scale(b.samples()[c][n], max),
                -2_147_483_648,
                2_147_483_647,
            )
        }),
{
    vstd::arithmetic::power2::lemma2_to64();
    let values = flac_values(b, bits, scale);
    lemma_interleaved_len(values, b.frames());
    law_interleaved_order(values, b.frames(), c, n);
    law_snapping_goes_to_the_nearest(
        scale(b.samples()[c][n], full_scale(bits) as i32),
        i32::MIN as int,
        i32::MAX as int,
    );
}

/// A loudness field holds hundredths: the integer nearest to a hundred times the figure, as far
/// as 16 bits go. What is not finite is marked as not used.
pub proof fn law_loudness_fields_are_hundredths(value: Level)
    ensures
        !value.finite() ==> r128_code(value) == 0x7FFF,
        value.finite() ==> -32768 <= r128_code(value) <= 32767,
        value.finite() && value.abs_units() <= pow2(1090) ==> ({
            let code = r128_code(value);
            let off = 200 * value.units();
            &&& code < 32767 ==> off <= (2 * code + 1) * pow2(1074) + pow2(1046)
            &&& code > -32768 ==> (2 * code - 1) * pow2(1074) - pow2(1046) <= off
        }),
{
    if value.finite() {
        let h = value.times_hundred();
        law_snapping_goes_to_the_nearest(h, -32768, 32767);
        if value.abs_units() <= pow2(1090) {
            lemma_pow2_adds(7, 1090);
            vstd::arithmetic::power2::lemma2_to64();
            lemma_pow2_unfold(1098);
            lemma_hundredfold(value);
            lemma_pow2_adds(53, 1045);
            lemma_pow2_unfold(1046);
            lemma_pow2_pos(53);
            let off = h.units() - 100 * value.units();
            let one = pow2(53) as int;
            let most = pow2(1045) as int;
            assert(-most <= off <= most) by (nonlinear_arith)
                requires
                    -(one * most) <= one * off <= one * most,
                    one > 0,
            ;
        }
    }
}

/// The fields of text are cut off or padded: what fits stands at the start, the rest is zero.
pub proof fn law_text_fields_are_cut_or_padded(data: Seq<u8>, len: nat, i: int)
    requires
        0 <= i < len,
    ensures
        fixed_field(data, len).len() == len,
        fixed_field(data, len)[i] == if i < data.len() {
            data[i]
        } else {
            0
        },
{
}

/// The metadata starts with the description and the originator, and ends with a line that tells
/// the rate, the width and whether there is more than one channel.
#[verifier::spinoff_prover]
#[verifier::rlimit(30)]
pub proof fn law_bext_texts(meta: BextMetadata)
    ensures
        meta.data().subrange(0, 256) == fixed_field(encode_utf8(meta.description@), 256),
        meta.data().subrange(256, 288) == fixed_field(encode_utf8("mint"@), 32),
        meta.data().skip(602) == encode_utf8(
            "A=PCM,F="@ + digits(meta.sample_rate as nat) + ",W="@ + digits(meta.bits as nat) + ",M="@
                + (if meta.channels < 2 {
                "mono"@
            } else {
                "stereo"@
            }) + ",T=mint\r\n"@,
        ),
{
    law_bext_layout(meta);
    let d = meta.data();
    assert(d.subrange(0, 256) =~= fixed_field(encode_utf8(meta.description@), 256));
    assert(d.subrange(256, 288) =~= fixed_field(encode_utf8("mint"@), 32));
    assert(d.skip(602) =~= encode_utf8(meta.history()));
}

/// What a WAV file can hold is what its header can count: whole frames of 1 to 65535 channels,
/// at a rate, in bytes a second too, and with a size that 32 bits hold.
pub proof fn law_wav_limits(channels: int, count: int, sample_rate: int, bits: u16)
    ensures
        bits == 16 || bits == 24 ==> (wav_limits(channels, count, sample_rate, bits) <==> {
            &&& 1 <= channels < 65536
            &&& count % channels == 0
            &&& 1 <= sample_rate
            &&& sample_rate * (bits as int / 8) * channels < 0x1_0000_0000
            &&& count * (bits as int / 8) < 0x1_0000_0000 - 68
        }),
        wav_limits(channels, count, sample_rate, bits) ==> bits == 16 || bits == 24,
{
}

/// FLAC takes one to eight channels of 16 or 24 bits at up to 96 kHz, and every sample must fit
/// the bit depth. Frames are counted in 36 bits.
pub proof fn law_flac_limits(samples: Seq<i32>, channels: nat, bits: nat, rate: nat, frames: nat)
    ensures
        flac_countable(frames) <==> frames <= 0xF_FFFF_FFFF,
        flac_takes(samples, channels, bits, rate) <==> 1 <= channels <= 8 && rate <= 96_000 && ((bits
            == 16 && forall|k: int|
            0 <= k < samples.len() ==> -32_768 <= #[trigger] samples[k] <= 32_767) || (bits == 24
            && forall|k: int|
            0 <= k < samples.len() ==> -8_388_608 <= #[trigger] samples[k] <= 8_388_607)),
{
}

/// The samples of a quantized buffer take two or three bytes each. They come after a header of
/// 44 bytes, of 68 bytes for more than two channels or more than 16 bits, and after the
/// broadcast chunk, whose eight bytes of head are followed by an even number of bytes.
pub proof fn law_wav_lengths<S>(b: AudioBuffer<S>, meta: BextMetadata)
    ensures
        b.out_format == OutputSampleFormat::S16 ==> audio_len(b) == b.frames() * b.channels@.len() * 2,
        b.out_format == OutputSampleFormat::S24 ==> audio_len(b) == b.frames() * b.channels@.len() * 3,
        b.out_format == OutputSampleFormat::S16 && b.channels@.len() <= 2 ==> lead_len(b, None) == 44,
        b.out_format == OutputSampleFormat::S24 || b.channels@.len() > 2 ==> lead_len(b, None) == 68,
        lead_len(b, Some(&meta)) - lead_len(b, None) == 8 + meta.data().len() + meta.data().len() % 2,
{
}

/// A WAVE stream starts with the letters `RIFF`, four bytes of length, and the letters `WAVE`.
pub proof fn law_wave_streams(s: Seq<u8>)
    ensures
        is_wave(s) <==> s.len() >= 12 && s[0] == 0x52 && s[1] == 0x49 && s[2] == 0x46 && s[3] == 0x46
            && s[8] == 0x57 && s[9] == 0x41 && s[10] == 0x56 && s[11] == 0x45,
{
    if s.len() >= 12 {
        let head = s.subrange(0, 4);
        let kind = s.subrange(8, 12);
        assert(head[0] == s[0] && head[1] == s[1] && head[2] == s[2] && head[3] == s[3]);
        assert(kind[0] == s[8] && kind[1] == s[9] && kind[2] == s[10] && kind[3] == s[11]);
        if s[0] == 0x52 && s[1] == 0x49 && s[2] == 0x46 && s[3] == 0x46 {
            assert(head =~= riff_tag());
        }
        if s[8] == 0x57 && s[9] == 0x41 && s[10] == 0x56 && s[11] == 0x45 {
            assert(kind =~= wave_tag());
        }
    }
}

} // verus!

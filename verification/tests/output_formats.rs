use std::io::Cursor;

use mint::audio::buffer::{AudioBuffer, OutputSampleFormat, SourceInfo};
use mint::audio::io_read::{Decoding, TrackInfo};
use mint::audio::io_write::{self, BextMetadata};
use mint::level::Level;

fn level(x: f64) -> Level {
    Level { bits: x.to_bits() }
}

fn scale(x: f64, max: i32) -> Level {
    level(x.clamp(-1.0, 1.0) * max as f64)
}

/// 0.5 s stereo 997 Hz tone at -6 dBFS, values in [-1, 1].
fn buffer(format: OutputSampleFormat) -> AudioBuffer<f64> {
    let rate = 48_000;
    let n = rate as usize / 2;
    let tone = |phase: f64| -> Vec<f64> {
        (0..n)
            .map(|i| 0.5 * (2.0 * std::f64::consts::PI * 997.0 * i as f64 / rate as f64 + phase).sin())
            .collect()
    };
    of(vec![tone(0.0), tone(0.3)], rate, format)
}

fn of(channels: Vec<Vec<f64>>, rate: u32, format: OutputSampleFormat) -> AudioBuffer<f64> {
    let count = channels.len();
    AudioBuffer {
        channels,
        sample_rate: rate,
        src_info: SourceInfo {
            path: "t.wav".to_string(),
            channels: count,
            sample_rate: rate,
            codec: "test".to_string(),
        },
        out_format: format,
    }
}

fn bext() -> BextMetadata {
    BextMetadata {
        description: "test".to_string(),
        integrated_lufs: level(-23.0),
        loudness_range_lu: level(6.0),
        max_true_peak_dbtp: level(-1.0),
        max_momentary_lufs: level(-12.0),
        max_short_term_lufs: level(-13.0),
        sample_rate: 48_000,
        channels: 2,
        bits: 24,
    }
}

/// Decode a file in memory.
fn decode(bytes: Vec<u8>) -> AudioBuffer<f64> {
    let stream = symphonia::core::io::MediaSourceStream::new(Box::new(Cursor::new(bytes)), Default::default());
    let mut hint = symphonia::core::probe::Hint::new();
    hint.with_extension("wav");
    let probed = symphonia::default::get_probe()
        .format(&hint, stream, &symphonia::core::formats::FormatOptions::default(), &symphonia::core::meta::MetadataOptions::default())
        .expect("probe");
    let mut format = probed.format;
    let tracks: Vec<TrackInfo> = format
        .tracks()
        .iter()
        .map(|t| TrackInfo {
            id: t.id,
            decodable: t.codec_params.codec != symphonia::core::codecs::CODEC_TYPE_NULL,
            sample_rate: t.codec_params.sample_rate,
        })
        .collect();
    let params = format.tracks()[0].codec_params.clone();
    let mut decoder = symphonia::default::get_codecs()
        .make(&params, &symphonia::core::codecs::DecoderOptions::default())
        .expect("decoder");
    let mut decoding: Decoding<f64> = Decoding::start(&tracks).expect("a track");
    while let Ok(packet) = format.next_packet() {
        if !decoding.wants(packet.track_id()) {
            continue;
        }
        let decoded = decoder.decode(&packet).expect("packet");
        let spec = *decoded.spec();
        let mut samples = symphonia::core::audio::SampleBuffer::<f64>::new(decoded.capacity() as u64, spec);
        samples.copy_interleaved_ref(decoded);
        decoding.push_packet(&samples.samples().to_vec(), spec.channels.count());
    }
    decoding.finish("memory.wav").expect("samples")
}

/// Locate a RIFF chunk by id, returning the offset of its 8-byte header.
fn find_chunk(wav: &[u8], id: &[u8; 4]) -> Option<usize> {
    let mut p = 12; // skip "RIFF"<size>"WAVE"
    while p + 8 <= wav.len() {
        let size = u32::from_le_bytes([wav[p + 4], wav[p + 5], wav[p + 6], wav[p + 7]]) as usize;
        if &wav[p..p + 4] == id {
            return Some(p);
        }
        p += 8 + size + (size & 1); // chunks are word-aligned
    }
    None
}

#[test]
fn wav_bext_chunk_carries_r128_loudness_and_stays_decodable() {
    let buf = buffer(OutputSampleFormat::S24);
    let bytes = io_write::write_wav(&buf, Some(&bext()), &scale).expect("write bext wav");

    assert_eq!(&bytes[0..4], b"RIFF");
    assert_eq!(&bytes[8..12], b"WAVE");

    let pos = find_chunk(&bytes, b"bext").expect("bext chunk present");
    let data = &bytes[pos + 8..];
    // Fixed bext v2 offsets.
    assert_eq!(u16::from_le_bytes([data[346], data[347]]), 2, "bext version 2");
    assert_eq!(i16::from_le_bytes([data[412], data[413]]), -2300, "LoudnessValue x100");
    assert_eq!(i16::from_le_bytes([data[414], data[415]]), 600, "LoudnessRange x100");
    assert_eq!(i16::from_le_bytes([data[416], data[417]]), -100, "MaxTruePeak x100");

    // The spliced file must still decode as valid audio.
    let decoded = decode(bytes);
    assert_eq!(decoded.channels_count(), 2);
    assert!(decoded.frame_len() > 0);
    assert_eq!(decoded.frame_len(), buf.frame_len());
}

#[test]
fn wav_without_bext_has_no_bext_chunk() {
    let buf = buffer(OutputSampleFormat::S16);
    let bytes = io_write::write_wav(&buf, None, &scale).expect("write plain wav");
    assert!(find_chunk(&bytes, b"bext").is_none(), "no bext when not requested");
}

#[test]
fn flac_output_has_flac_marker() {
    let buf = buffer(OutputSampleFormat::S24);
    let bytes = io_write::write_flac(&buf, 24, &scale).expect("write flac");
    assert_eq!(&bytes[0..4], b"fLaC", "FLAC stream marker");
    assert!(bytes.len() > 100, "non-trivial flac output");
}

/// Hand-build a mono 64-bit IEEE-float WAV: a minimal RIFF/WAVE header with a 16-byte
/// `fmt ` chunk (format tag 3, 64 bits per sample) followed by little-endian samples.
fn f64_wav(sample_rate: u32, samples: &[f64]) -> Vec<u8> {
    let bytes_per_sample = 8u32;
    let data_len = samples.len() as u32 * bytes_per_sample;
    let byte_rate = sample_rate * bytes_per_sample; // mono

    let mut buf: Vec<u8> = Vec::new();
    buf.extend_from_slice(b"RIFF");
    buf.extend_from_slice(&(36 + data_len).to_le_bytes());
    buf.extend_from_slice(b"WAVE");

    buf.extend_from_slice(b"fmt ");
    buf.extend_from_slice(&16u32.to_le_bytes()); // chunk size
    buf.extend_from_slice(&3u16.to_le_bytes()); // WAVE_FORMAT_IEEE_FLOAT
    buf.extend_from_slice(&1u16.to_le_bytes()); // channels = mono
    buf.extend_from_slice(&sample_rate.to_le_bytes());
    buf.extend_from_slice(&byte_rate.to_le_bytes());
    buf.extend_from_slice(&8u16.to_le_bytes()); // block align (1ch * 8 bytes)
    buf.extend_from_slice(&64u16.to_le_bytes()); // bits per sample

    buf.extend_from_slice(b"data");
    buf.extend_from_slice(&data_len.to_le_bytes());
    for s in samples {
        buf.extend_from_slice(&s.to_le_bytes());
    }
    buf
}

#[test]
fn reads_64bit_float_wav_losslessly() {
    // Values deliberately chosen to be UNREPRESENTABLE in f32: each differs from
    // its own f32 round-trip, so bit-exact recovery proves the input path keeps
    // full f64 precision rather than funneling through f32.
    let samples = vec![
        0.1_f64,
        -0.3_f64,
        1.0_f64 / 3.0_f64,
        0.123_456_789_012_345_67_f64,
        -0.987_654_321_098_765_4_f64,
    ];
    // Sanity-check the premise: these would change if passed through f32.
    assert!(
        samples.iter().any(|&s| (s as f32) as f64 != s),
        "test values must not be f32-representable, else the test proves nothing"
    );

    let buffer = decode(f64_wav(48_000, &samples));

    assert_eq!(buffer.sample_rate, 48_000);
    assert_eq!(buffer.channels.len(), 1);
    assert_eq!(
        buffer.channels[0], samples,
        "f64 samples must be bit-exact, not truncated to f32 at the input boundary"
    );
    assert_eq!(buffer.src_info.codec, "decoded");
    assert_eq!(buffer.src_info.path, "memory.wav");
    assert_eq!(buffer.out_format, OutputSampleFormat::F32);
}

#[test]
fn wav_samples_read_back_as_the_codes_that_were_written() {
    let codes = vec![vec![0, 1, -1, 32_767, -32_767], vec![5, -5, 1000, -1000, 7]];
    let channels: Vec<Vec<f64>> = codes
        .iter()
        .map(|c: &Vec<i32>| c.iter().map(|&y| y as f64 / 32_767.0).collect())
        .collect();
    let bytes =
        io_write::write_wav(&of(channels, 44_100, OutputSampleFormat::S16), None, &scale).unwrap();
    let mut reader = hound::WavReader::new(Cursor::new(bytes)).unwrap();
    assert_eq!(reader.spec().sample_rate, 44_100);
    assert_eq!(reader.spec().bits_per_sample, 16);
    assert_eq!(reader.spec().channels, 2);
    let read: Vec<i32> = reader.samples::<i32>().map(|s| s.unwrap()).collect();
    assert_eq!(read, vec![0, 5, 1, -5, -1, 1000, 32_767, -1000, -32_767, 7]);
}

#[test]
fn samples_beyond_full_scale_are_held_at_it() {
    let scale_freely = |x: f64, max: i32| level(x * max as f64);
    let buf = of(vec![vec![2.0, -2.0, f64::NAN]], 48_000, OutputSampleFormat::S24);
    let bytes = io_write::write_wav(&buf, None, &scale_freely).unwrap();
    let mut reader = hound::WavReader::new(Cursor::new(bytes)).unwrap();
    let read: Vec<i32> = reader.samples::<i32>().map(|s| s.unwrap()).collect();
    assert_eq!(read, vec![8_388_607, -8_388_607, 0]);
}

#[test]
fn metadata_does_not_touch_the_samples() {
    let buf = buffer(OutputSampleFormat::S16);
    let plain = io_write::write_wav(&buf, None, &scale).unwrap();
    let tagged = io_write::write_wav(&buf, Some(&bext()), &scale).unwrap();
    let a = find_chunk(&plain, b"data").unwrap();
    let b = find_chunk(&tagged, b"data").unwrap();
    assert_eq!(plain[a..], tagged[b..]);
    let size = u32::from_le_bytes([tagged[4], tagged[5], tagged[6], tagged[7]]) as usize;
    assert_eq!(size, tagged.len() - 8);
}

#[test]
fn flac_samples_read_back_as_the_codes_that_were_written() {
    // Two whole blocks of the encoder.
    let codes: Vec<Vec<i32>> = vec![
        (0..8192).map(|i| (i * 7919) % 16_000_001 - 8_000_000).collect(),
        (0..8192).map(|i| if i % 3 == 0 { 8_388_607 } else { -i }).collect(),
    ];
    let channels: Vec<Vec<f64>> =
        codes.iter().map(|c| c.iter().map(|&y| y as f64 / 8_388_607.0).collect()).collect();
    let bytes =
        io_write::write_flac(&of(channels, 44_100, OutputSampleFormat::S24), 24, &scale).unwrap();
    let read = decode(bytes);
    assert_eq!(read.sample_rate, 44_100);
    let back: Vec<Vec<i32>> = read
        .channels
        .iter()
        .map(|c| c.iter().map(|&x| (x * 8_388_608.0).round() as i32).collect())
        .collect();
    assert_eq!(back, codes);
}

#[test]
fn flac_is_the_stream_that_worker_threads_give() {
    let codes: Vec<i32> = (0..20_000).map(|i| (i * 7919) % 60_001 - 30_000).collect();
    let config =
        flacenc::error::Verify::into_verified(flacenc::config::Encoder::default()).unwrap();
    assert!(config.multithread);
    let source = flacenc::source::MemSource::from_samples(&codes, 1, 16, 44_100);
    let stream =
        flacenc::encode_with_fixed_block_size(&config, source, config.block_size).unwrap();
    let mut sink = flacenc::bitsink::ByteSink::new();
    flacenc::component::BitRepr::write(&stream, &mut sink).unwrap();

    let samples: Vec<f64> = codes.iter().map(|&y| y as f64 / 32_767.0).collect();
    let buf = of(vec![samples], 44_100, OutputSampleFormat::S16);
    assert_eq!(io_write::write_flac(&buf, buf.out_format.bits_per_sample() as usize, &scale).unwrap(), sink.as_slice());
}

#[test]
fn flac_refuses_rates_that_the_encoder_does_not_take() {
    for rate in [96_001, 192_000, 1_000_000, u32::MAX] {
        let buf = of(vec![vec![0.0; 5000]], rate, OutputSampleFormat::S16);
        let err = io_write::write_flac(&buf, buf.out_format.bits_per_sample() as usize, &scale).unwrap_err();
        assert!(err.message.starts_with("flac encode failed: "), "{}", err.message);
    }
}

#[test]
fn flac_refuses_other_numbers_of_channels() {
    for count in [0, 9, 257] {
        let buf = of(vec![vec![0.25; 10]; count], 44_100, OutputSampleFormat::S16);
        let err = io_write::write_flac(&buf, buf.out_format.bits_per_sample() as usize, &scale).unwrap_err();
        assert!(err.message.starts_with("flac encode failed: "), "{}", err.message);
        assert!(err.message.contains("channels"), "{}", err.message);
    }
}

#[test]
fn flac_refuses_samples_of_32_bits() {
    let buf = of(vec![vec![0.25; 10]], 44_100, OutputSampleFormat::F32);
    let err = io_write::write_flac(&buf, 32, &scale).unwrap_err();
    assert!(err.message.starts_with("flac encode failed: "), "{}", err.message);
}

#[test]
fn flac_refuses_samples_beyond_the_bit_depth() {
    let scale_freely = |x: f64, max: i32| level(x * max as f64);
    for format in [OutputSampleFormat::S16, OutputSampleFormat::S24] {
        for beyond in [1.5, -1.5, 1e30, f64::NEG_INFINITY] {
            let mut channels = vec![vec![0.25; 5000]; 2];
            channels[1][4500] = beyond;
            let buf = of(channels, 44_100, format);
            let bits = format.bits_per_sample() as usize;
            let err = io_write::write_flac(&buf, bits, &scale_freely).unwrap_err();
            assert!(err.message.starts_with("flac encode failed: "), "{}", err.message);
        }
    }
    // One code below minus full scale is within the bit depth.
    let lowest = -32_768.0 / 32_767.0;
    let channels = vec![vec![lowest; 4096], vec![f64::NAN; 4096]];
    let buf = of(channels, 44_100, OutputSampleFormat::S16);
    let read = decode(io_write::write_flac(&buf, 16, &scale_freely).unwrap());
    assert!(read.channels[0].iter().all(|&x| x == -1.0));
    assert!(read.channels[1].iter().all(|&x| x == 0.0));
}

#[test]
fn flac_samples_of_a_short_last_block_read_back() {
    let codes: Vec<Vec<i32>> = vec![
        (0..9001).map(|i| (i * 97) % 65_000 - 32_500).collect(),
        (0..9001).map(|i| if i % 5 == 0 { -32_768 } else { 32_767 - i }).collect(),
    ];
    let channels: Vec<Vec<f64>> =
        codes.iter().map(|c| c.iter().map(|&y| y as f64 / 32_767.0).collect()).collect();
    let scale_freely = |x: f64, max: i32| level(x * max as f64);
    let mut bytes =
        io_write::write_flac(&of(channels, 48_000, OutputSampleFormat::S16), 16, &scale_freely).unwrap();
    // The reader goes by the smallest block size, which here counts the last block.
    bytes[8] = bytes[10];
    bytes[9] = bytes[11];
    let read = decode(bytes);
    let back: Vec<Vec<i32>> = read
        .channels
        .iter()
        .map(|c| c.iter().map(|&x| (x * 32_768.0).round() as i32).collect())
        .collect();
    assert_eq!(back, codes);
}

#[test]
fn flac_takes_every_length_layout_and_rate_up_to_the_highest() {
    let wave = |n: usize, c: usize| -> Vec<f64> {
        (0..n)
            .map(|i| match c % 3 {
                0 => (i as f64 * 0.01).sin(),
                1 => if i % 2 == 0 { 1.0 } else { -1.0 },
                _ => ((i * 2_654_435_761) % 65_536) as f64 / 32_768.0 - 1.0,
            })
            .collect()
    };
    for format in [OutputSampleFormat::S16, OutputSampleFormat::S24] {
        for n in [0, 1, 2, 15, 16, 31, 63, 64, 65, 255, 256, 4095, 4096, 4097, 9000] {
            for rate in [0, 1, 44_100, 65_537, 96_000] {
                let buf = of(vec![wave(n, 0), wave(n, 1)], rate, format);
                let bytes = io_write::write_flac(&buf, buf.out_format.bits_per_sample() as usize, &scale).expect("flac");
                assert_eq!(&bytes[0..4], b"fLaC");
            }
        }
        for count in 1..=8 {
            let buf = of((0..count).map(|c| wave(4096, c)).collect(), 48_000, format);
            let read = decode(io_write::write_flac(&buf, buf.out_format.bits_per_sample() as usize, &scale).expect("flac"));
            assert_eq!(read.channels_count(), count);
            let max = if format == OutputSampleFormat::S16 { 32_767.0 } else { 8_388_607.0 };
            for (got, want) in read.channels.iter().zip(&buf.channels) {
                for (g, w) in got.iter().zip(want) {
                    assert_eq!((g * (max + 1.0)).round(), (w * max).round());
                }
            }
        }
    }
}

#[test]
fn wav_limits_are_those_of_the_format() {
    assert!(io_write::wav_fits(2, 48_000, 48_000, 16));
    assert!(io_write::wav_fits(65_535, 1, 1, 24));
    assert!(!io_write::wav_fits(0, 10, 48_000, 16));
    assert!(!io_write::wav_fits(65_536, 1, 1, 16));
    assert!(!io_write::wav_fits(2, 48_000, 0, 16));
    assert!(!io_write::wav_fits(2, 2_000_000_000, 48_000, 24));
    assert!(!io_write::wav_fits(2, 10, 48_000, 32));
}

#[test]
fn splicing_refuses_what_is_not_a_wave() {
    let err = io_write::splice_chunk_after_wave(&vec![1, 2, 3], b"bext", &vec![0]).unwrap_err();
    assert_eq!(err.message, "not a RIFF/WAVE stream");
    let mut full = b"RIFF\xFF\xFF\xFF\xFFWAVE".to_vec();
    let err = io_write::splice_chunk_after_wave(&full, b"bext", &vec![0]).unwrap_err();
    assert_eq!(err.message, "RIFF size overflow");
    let err = io_write::with_bext(full.clone(), Some(&bext())).unwrap_err();
    assert_eq!(err.message, "failed to splice bext chunk: RIFF size overflow");
    full[4..8].copy_from_slice(&4u32.to_le_bytes());
    let out = io_write::splice_chunk_after_wave(&full, b"abcd", &vec![9]).unwrap();
    assert_eq!(out, b"RIFF\x0E\x00\x00\x00WAVEabcd\x01\x00\x00\x00\x09\x00".to_vec());
}

#[test]
fn loudness_fields_are_hundredths() {
    assert_eq!(io_write::r128_field(level(-23.0)), -2300);
    assert_eq!(io_write::r128_field(level(0.005)), 1);
    assert_eq!(io_write::r128_field(level(-14.126)), -1413);
    assert_eq!(io_write::r128_field(level(f64::NEG_INFINITY)), 0x7FFF);
    assert_eq!(io_write::r128_field(level(f64::NAN)), 0x7FFF);
    assert_eq!(io_write::r128_field(level(1e9)), 32_767);
    assert_eq!(io_write::r128_field(level(-1e9)), -32_768);
}

#[test]
fn fixed_fields_are_cut_or_padded() {
    let mut out = vec![7u8];
    io_write::push_fixed_str(&mut out, "abc", 5);
    assert_eq!(out, vec![7, 97, 98, 99, 0, 0]);
    let mut out = Vec::new();
    io_write::push_fixed_str(&mut out, "abcdef", 3);
    assert_eq!(out, b"abc".to_vec());
}

#[test]
fn bext_data_has_the_fixed_layout() {
    let data = bext().to_bytes();
    assert_eq!(&data[0..4], b"test");
    assert_eq!(&data[256..260], b"mint");
    assert!(data.len() > 602);
    assert_eq!(i16::from_le_bytes([data[418], data[419]]), -1200);
    assert_eq!(i16::from_le_bytes([data[420], data[421]]), -1300);
}

#[test]
fn bitrates_are_looked_up_in_the_table() {
    assert_eq!(io_write::map_bitrate(8).unwrap(), 0);
    assert_eq!(io_write::map_bitrate(192).unwrap(), 12);
    assert_eq!(io_write::map_bitrate(320).unwrap(), 15);
    assert_eq!(
        io_write::map_bitrate(333).unwrap_err().message,
        "unsupported MP3 bitrate: 333 kbps"
    );
}

#[test]
fn mp3_takes_one_or_two_channels() {
    assert!(io_write::check_mp3_channels(1).is_ok());
    assert!(io_write::check_mp3_channels(2).is_ok());
    assert_eq!(
        io_write::check_mp3_channels(6).unwrap_err().message,
        "MP3 supports mono or stereo only (got 6 channels)"
    );
    assert!(io_write::check_mp3_channels(0).is_err());
}

#[test]
fn tracks_without_a_codec_or_a_rate_are_refused() {
    let track = |id: u32, decodable: bool, sample_rate: Option<u32>| TrackInfo {
        id,
        decodable,
        sample_rate,
    };
    let none: Vec<TrackInfo> = vec![track(1, false, Some(48_000))];
    assert_eq!(
        Decoding::<f64>::start(&none).unwrap_err().message,
        "no decodable audio track found"
    );
    let rateless = vec![track(1, true, None)];
    assert_eq!(
        Decoding::<f64>::start(&rateless).unwrap_err().message,
        "missing sample rate in stream metadata"
    );
    let second = vec![track(1, false, Some(1)), track(2, true, Some(44_100)), track(3, true, None)];
    let decoding = Decoding::<f64>::start(&second).unwrap();
    assert!(decoding.wants(2) && !decoding.wants(1));
    assert_eq!(
        decoding.finish("x").unwrap_err().message,
        "decoded stream has no audio samples"
    );
    assert_eq!(mint::audio::io_read::probe_source_rate(&second, "a.wav").unwrap(), 44_100);
    assert_eq!(
        mint::audio::io_read::probe_source_rate(&rateless, "a.wav").unwrap_err().message,
        "missing sample rate in stream metadata: a.wav"
    );
}

#[test]
fn packets_can_be_cut_anywhere_between_frames() {
    let tracks = vec![TrackInfo { id: 9, decodable: true, sample_rate: Some(8_000) }];
    let all: Vec<i32> = (0..12).collect();
    let run = |cuts: &[usize]| {
        let mut decoding = Decoding::<i32>::start(&tracks).unwrap();
        let mut from = 0;
        for &to in cuts {
            decoding.push_packet(&all[from..to].to_vec(), 3);
            from = to;
        }
        decoding.finish("p").unwrap().channels
    };
    let whole = run(&[12]);
    assert_eq!(whole, vec![vec![0, 3, 6, 9], vec![1, 4, 7, 10], vec![2, 5, 8, 11]]);
    assert_eq!(run(&[3, 9, 12]), whole);
    assert_eq!(mint::audio::planar::interleave(&whole, 4), all);
}

use wav_cue::chunk_id::ChunkId;
use wav_cue::cue::{
    cue_from_wav, cue_points_past_end, cue_to_wav, sample_from_timestamp, ScaledTimestamp,
};
use wav_cue::decode::read;
use wav_cue::encode::size_wav_file;
use wav_cue::error::{Field, TimestampError, WaveError};
use wav_cue::format::{BitsPerSample, Channels, Format, SamplesPerSec};
use wav_cue::reader::CountingReader;
use wav_cue::wave::WaveFile;
use wav_cue::writer::CountingWriter;

fn push_u32(out: &mut Vec<u8>, v: u32) {
    out.extend_from_slice(&v.to_le_bytes());
}

fn push_u16(out: &mut Vec<u8>, v: u16) {
    out.extend_from_slice(&v.to_le_bytes());
}

fn fmt_chunk(rate: u32, bits: u16, size: u32) -> Vec<u8> {
    let align = bits / 8;
    let mut out = Vec::new();
    out.extend_from_slice(b"fmt ");
    push_u32(&mut out, size);
    push_u16(&mut out, 1);
    push_u16(&mut out, 1);
    push_u32(&mut out, rate);
    push_u32(&mut out, rate * align as u32);
    push_u16(&mut out, align);
    push_u16(&mut out, bits);
    if size == 18 {
        push_u16(&mut out, 0);
    }
    out
}

fn cue_chunk(points: &[u32]) -> Vec<u8> {
    let mut out = Vec::new();
    out.extend_from_slice(b"cue ");
    push_u32(&mut out, 4 + 24 * points.len() as u32);
    push_u32(&mut out, points.len() as u32);
    for (i, p) in points.iter().enumerate() {
        push_u32(&mut out, i as u32 + 1);
        push_u32(&mut out, *p);
        out.extend_from_slice(b"data");
        push_u32(&mut out, 0);
        push_u32(&mut out, 0);
        push_u32(&mut out, *p);
    }
    out
}

fn data_chunk(data: &[u8]) -> Vec<u8> {
    let mut out = Vec::new();
    out.extend_from_slice(b"data");
    push_u32(&mut out, data.len() as u32);
    out.extend_from_slice(data);
    if data.len() % 2 == 1 {
        out.push(0);
    }
    out
}

fn riff(chunks: &[Vec<u8>]) -> Vec<u8> {
    let body: Vec<u8> = chunks.concat();
    let mut out = Vec::new();
    out.extend_from_slice(b"RIFF");
    push_u32(&mut out, body.len() as u32 + 4);
    out.extend_from_slice(b"WAVE");
    out.extend_from_slice(&body);
    out
}

fn sample_file() -> Vec<u8> {
    riff(&[fmt_chunk(44100, 16, 16), cue_chunk(&[0, 3, 7]), data_chunk(&[1, 2, 3, 4, 5])])
}

fn mono16(rate: SamplesPerSec) -> Format {
    Format {
        channels: Channels::One,
        samples_per_sec: rate,
        bits_per_sample: BitsPerSample::Sixteen,
    }
}

fn stamp(ts: f32, hz: u32) -> ScaledTimestamp {
    ScaledTimestamp { timestamp_bits: ts.to_bits(), scaled_bits: (ts * hz as f32).to_bits() }
}

#[test]
fn decode_sample_file() {
    let wav = read(&sample_file()).unwrap();
    assert_eq!(wav.fmt, mono16(SamplesPerSec::Hz44100));
    assert_eq!(wav.cue, Some(vec![0, 3, 7]));
    assert_eq!(wav.data, vec![1, 2, 3, 4, 5]);
}

#[test]
fn reencode_is_byte_exact() {
    let bytes = sample_file();
    let wav = read(&bytes).unwrap();
    assert_eq!(wav_cue::encode::write(&wav).unwrap(), bytes);
    let plain = riff(&[fmt_chunk(11025, 8, 16), data_chunk(&[9, 8])]);
    assert_eq!(wav_cue::encode::write(&read(&plain).unwrap()).unwrap(), plain);
}

#[test]
fn extended_fmt_reencodes_as_sixteen_bytes() {
    let bytes = riff(&[fmt_chunk(22050, 8, 18), data_chunk(&[1, 2])]);
    let wav = read(&bytes).unwrap();
    let plain = riff(&[fmt_chunk(22050, 8, 16), data_chunk(&[1, 2])]);
    assert_eq!(wav_cue::encode::write(&wav).unwrap(), plain);
}

#[test]
fn encoded_length_matches_size() {
    let wav = WaveFile { fmt: mono16(SamplesPerSec::Hz22000), cue: Some(vec![5]), data: vec![0; 7] };
    let (total, cue, data) = size_wav_file(&wav).unwrap();
    assert_eq!(total, 4 + 24 + 8 + 28 + 8 + 7 + 1);
    assert_eq!(cue, 28);
    assert_eq!(data, 7);
    let bytes = wav_cue::encode::write(&wav).unwrap();
    assert_eq!(bytes.len(), total as usize + 8);
    assert_eq!(total % 2, 0);
    let empty = WaveFile { fmt: mono16(SamplesPerSec::Hz22000), cue: None, data: vec![] };
    assert_eq!(size_wav_file(&empty).unwrap(), (36, 0, 0));
}

#[test]
fn encoder_derives_header_fields() {
    let wav = WaveFile { fmt: mono16(SamplesPerSec::Hz22040), cue: None, data: vec![] };
    let bytes = wav_cue::encode::write(&wav).unwrap();
    assert_eq!(&bytes[28..32], &(22040u32 * 2).to_le_bytes());
    assert_eq!(&bytes[32..34], &2u16.to_le_bytes());
}

#[test]
fn fmt_size_twenty_is_rejected() {
    let mut fmt = fmt_chunk(44100, 16, 16);
    fmt[4] = 20;
    fmt.extend_from_slice(&[0, 0, 0, 0]);
    let bytes = riff(&[fmt, data_chunk(&[1, 2])]);
    assert_eq!(
        read(&bytes).err(),
        Some(WaveError::UnsupportedValue { field: Field::FmtChunkSize, actual: 20, at: 16 })
    );
}

#[test]
fn two_data_chunks_are_rejected() {
    let bytes = riff(&[fmt_chunk(44100, 16, 16), data_chunk(&[1, 2]), data_chunk(&[3, 4])]);
    assert_eq!(
        read(&bytes).err(),
        Some(WaveError::WrongValue { field: Field::BytesRead, expected: 56, actual: 46, at: 46 })
    );
    let dup = riff(&[fmt_chunk(44100, 16, 16), cue_chunk(&[1]), cue_chunk(&[1]), data_chunk(&[])]);
    assert_eq!(
        read(&dup).err(),
        Some(WaveError::DuplicateChunk { id: ChunkId::new(*b"cue "), at: 72 })
    );
    let fmt2 = riff(&[fmt_chunk(44100, 16, 16), fmt_chunk(44100, 16, 16), data_chunk(&[])]);
    assert_eq!(
        read(&fmt2).err(),
        Some(WaveError::DuplicateChunk { id: ChunkId::new(*b"fmt "), at: 36 })
    );
}

#[test]
fn riff_size_mismatch_is_rejected() {
    let mut bytes = sample_file();
    let declared = u32::from_le_bytes([bytes[4], bytes[5], bytes[6], bytes[7]]);
    for delta in [1u32, 2, 100] {
        bytes[4..8].copy_from_slice(&(declared + delta).to_le_bytes());
        assert_eq!(
            read(&bytes).err(),
            Some(WaveError::WrongValue {
                field: Field::RiffChunkSize,
                expected: declared,
                actual: declared + delta,
                at: 4,
            })
        );
    }
    let mut longer = sample_file();
    longer.push(0);
    assert!(read(&longer).is_err());
}

#[test]
fn unknown_chunk_and_bad_tags_are_rejected() {
    let mut list = b"LIST".to_vec();
    list.extend_from_slice(&[0, 0, 0, 0]);
    let bytes = riff(&[fmt_chunk(44100, 16, 16), list, data_chunk(&[])]);
    assert_eq!(
        read(&bytes).err(),
        Some(WaveError::UnknownChunk { id: ChunkId::new(*b"LIST"), at: 36 })
    );
    let mut bad = sample_file();
    bad[8] = b'X';
    assert!(matches!(
        read(&bad).err(),
        Some(WaveError::WrongChunkId { field: Field::RiffFormType, at: 8, .. })
    ));
    let mut bad = sample_file();
    bad[0] = b'r';
    assert!(matches!(
        read(&bad).err(),
        Some(WaveError::WrongChunkId { field: Field::RiffChunkId, at: 0, .. })
    ));
}

#[test]
fn fmt_field_errors() {
    let rate = riff(&[fmt_chunk(48000, 16, 16), data_chunk(&[])]);
    assert_eq!(
        read(&rate).err(),
        Some(WaveError::UnsupportedValue { field: Field::FmtSamplesPerSec, actual: 48000, at: 24 })
    );
    let bits = riff(&[fmt_chunk(44100, 24, 16), data_chunk(&[])]);
    assert!(matches!(
        read(&bits).err(),
        Some(WaveError::UnsupportedValue { field: Field::FmtBitsPerSample, actual: 24, .. })
    ));
    let mut align = fmt_chunk(44100, 16, 16);
    align[20] = 3;
    let align = riff(&[align, data_chunk(&[])]);
    assert_eq!(
        read(&align).err(),
        Some(WaveError::WrongValue { field: Field::FmtBlockAlign, expected: 2, actual: 3, at: 32 })
    );
    let mut avg = fmt_chunk(44100, 16, 16);
    avg[16] = 0;
    let avg = riff(&[avg, data_chunk(&[])]);
    assert!(matches!(
        read(&avg).err(),
        Some(WaveError::WrongValue { field: Field::FmtAvgBytesPerSec, at: 28, .. })
    ));
    let mut tag = fmt_chunk(44100, 16, 16);
    tag[8] = 3;
    let tag = riff(&[tag, data_chunk(&[])]);
    assert!(matches!(
        read(&tag).err(),
        Some(WaveError::WrongValue { field: Field::FmtFormatTag, expected: 1, actual: 3, .. })
    ));
    let mut stereo = fmt_chunk(44100, 16, 16);
    stereo[10] = 2;
    let stereo = riff(&[stereo, data_chunk(&[])]);
    assert!(matches!(
        read(&stereo).err(),
        Some(WaveError::UnsupportedValue { field: Field::FmtChannels, actual: 2, .. })
    ));
    let mut ext = fmt_chunk(44100, 16, 18);
    ext[24] = 1;
    let ext = riff(&[ext, data_chunk(&[])]);
    assert!(matches!(
        read(&ext).err(),
        Some(WaveError::WrongValue { field: Field::FmtExtensionSize, actual: 1, .. })
    ));
}

#[test]
fn cue_point_errors() {
    let mut bytes = sample_file();
    bytes[48] = 2;
    assert!(matches!(
        read(&bytes).err(),
        Some(WaveError::WrongValue { field: Field::CuePointId, expected: 1, actual: 2, .. })
    ));
    let mut bytes = sample_file();
    bytes[60] = 1;
    assert!(matches!(
        read(&bytes).err(),
        Some(WaveError::WrongValue { field: Field::CuePointChunkStart, .. })
    ));
    let mut bytes = sample_file();
    bytes[64] = 1;
    assert!(matches!(
        read(&bytes).err(),
        Some(WaveError::WrongValue { field: Field::CuePointBlockStart, .. })
    ));
    let mut bytes = sample_file();
    bytes[68] = 9;
    assert!(matches!(
        read(&bytes).err(),
        Some(WaveError::WrongValue { field: Field::CuePointSampleStart, expected: 0, actual: 9, .. })
    ));
    let mut bytes = sample_file();
    bytes[56] = b'D';
    assert!(matches!(
        read(&bytes).err(),
        Some(WaveError::WrongChunkId { field: Field::CuePointDataChunkId, .. })
    ));
}

#[test]
fn empty_cue_chunk_is_too_small() {
    let mut cue = b"cue ".to_vec();
    cue.extend_from_slice(&4u32.to_le_bytes());
    cue.extend_from_slice(&0u32.to_le_bytes());
    let bytes = riff(&[fmt_chunk(44100, 16, 16), cue, data_chunk(&[])]);
    assert_eq!(
        read(&bytes).err(),
        Some(WaveError::CueChunkTooSmall { size: 4, at: 40 })
    );
}

#[test]
fn cue_count_overflow_is_size_mismatch() {
    let mut cue = b"cue ".to_vec();
    cue.extend_from_slice(&28u32.to_le_bytes());
    cue.extend_from_slice(&0x0AAA_AAABu32.to_le_bytes());
    cue.extend_from_slice(&[0; 24]);
    let bytes = riff(&[fmt_chunk(44100, 16, 16), cue, data_chunk(&[])]);
    assert_eq!(
        read(&bytes).err(),
        Some(WaveError::CueSizeMismatch { size: 28, count: 0x0AAA_AAAB, at: 40 })
    );
}

#[test]
fn data_padding_and_eof() {
    let mut bytes = riff(&[fmt_chunk(44100, 16, 16), data_chunk(&[1, 2, 3])]);
    let last = bytes.len() - 1;
    bytes[last] = 7;
    assert!(matches!(
        read(&bytes).err(),
        Some(WaveError::WrongValue { field: Field::DataPadding, expected: 0, actual: 7, .. })
    ));
    let mut short = sample_file();
    short.truncate(30);
    let n = short.len() as u32 - 8;
    short[4..8].copy_from_slice(&n.to_le_bytes());
    assert!(matches!(read(&short).err(), Some(WaveError::UnexpectedEof { .. })));
    let no_data = riff(&[fmt_chunk(44100, 16, 16)]);
    assert_eq!(read(&no_data).err(), Some(WaveError::UnexpectedEof { at: 36 }));
}

#[test]
fn extraction_without_cue_chunk_fails() {
    let wav = WaveFile { fmt: mono16(SamplesPerSec::Hz44100), cue: None, data: vec![] };
    assert_eq!(cue_from_wav(&wav).err(), Some(WaveError::NoCuePoints));
    let with = WaveFile { fmt: mono16(SamplesPerSec::Hz44100), cue: Some(vec![]), data: vec![] };
    let points = cue_from_wav(&with).unwrap();
    assert!(points.sample_starts.is_empty());
    assert_eq!(points.samples_per_sec, SamplesPerSec::Hz44100);
}

#[test]
fn cue_points_beyond_data_are_listed() {
    let wav = WaveFile {
        fmt: mono16(SamplesPerSec::Hz44100),
        cue: Some(vec![0, 2, 3, 10]),
        data: vec![0; 5],
    };
    assert_eq!(cue_points_past_end(&wav), vec![3, 4]);
}

#[test]
fn timestamp_domain() {
    assert_eq!(sample_from_timestamp(0f32.to_bits(), 0f32.to_bits()), Ok(0));
    assert_eq!(sample_from_timestamp((-0f32).to_bits(), (-0f32).to_bits()), Ok(0));
    let nan = f32::NAN;
    assert_eq!(sample_from_timestamp(nan.to_bits(), nan.to_bits()), Err(TimestampError::NotANumber));
    let inf = f32::INFINITY;
    assert_eq!(sample_from_timestamp(inf.to_bits(), inf.to_bits()), Err(TimestampError::Infinite));
    let s = stamp(-1.5, 44100);
    assert_eq!(sample_from_timestamp(s.timestamp_bits, s.scaled_bits), Err(TimestampError::Negative));
    let s = stamp(100_000.0, 44100);
    assert_eq!(sample_from_timestamp(s.timestamp_bits, s.scaled_bits), Err(TimestampError::TooLarge));
    let s = stamp(1e30, 44100);
    assert_eq!(sample_from_timestamp(s.timestamp_bits, s.scaled_bits), Err(TimestampError::TooLarge));
}

#[test]
fn timestamp_rounding() {
    let s = stamp(1.5, 22050);
    assert_eq!(sample_from_timestamp(s.timestamp_bits, s.scaled_bits), Ok(33075));
    assert_eq!(sample_from_timestamp(1f32.to_bits(), 2.5f32.to_bits()), Ok(3));
    assert_eq!(sample_from_timestamp(1f32.to_bits(), 2.4f32.to_bits()), Ok(2));
    assert_eq!(sample_from_timestamp(1f32.to_bits(), 0.49f32.to_bits()), Ok(0));
    assert_eq!(sample_from_timestamp(1f32.to_bits(), 0.5f32.to_bits()), Ok(1));
    assert_eq!(sample_from_timestamp(1f32.to_bits(), 4294967040f32.to_bits()), Ok(4294967040));
    assert_eq!(
        sample_from_timestamp(1f32.to_bits(), 4294967296f32.to_bits()),
        Err(TimestampError::TooLarge)
    );
    let tiny = f32::from_bits(1);
    assert_eq!(sample_from_timestamp(tiny.to_bits(), tiny.to_bits()), Ok(0));
}

#[test]
fn apply_replaces_cue_points_atomically() {
    let mut wav = WaveFile { fmt: mono16(SamplesPerSec::Hz44100), cue: Some(vec![9]), data: vec![] };
    let bad = vec![stamp(1.0, 44100), stamp(-1.0, 44100)];
    assert_eq!(
        cue_to_wav(&mut wav, &bad).err(),
        Some(WaveError::InvalidTimestamp { index: 1, kind: TimestampError::Negative })
    );
    assert_eq!(wav.cue, Some(vec![9]));
    let good = vec![stamp(0.0, 44100), stamp(1.0, 44100), stamp(0.5, 44100)];
    cue_to_wav(&mut wav, &good).unwrap();
    assert_eq!(wav.cue, Some(vec![0, 44100, 22050]));
}

#[test]
fn extract_then_apply_round_trip() {
    for rate in [
        SamplesPerSec::Hz11025,
        SamplesPerSec::Hz22000,
        SamplesPerSec::Hz22040,
        SamplesPerSec::Hz22050,
        SamplesPerSec::Hz44100,
    ] {
        let starts = vec![0u32, 1, 7, 1000, 44099, 123457, 1_000_000];
        let wav = WaveFile { fmt: mono16(rate), cue: Some(starts.clone()), data: vec![] };
        let points = cue_from_wav(&wav).unwrap();
        let hz = points.samples_per_sec.as_u32();
        let stamps: Vec<ScaledTimestamp> =
            points.sample_starts.iter().map(|s| stamp(*s as f32 / hz as f32, hz)).collect();
        let mut target = WaveFile { fmt: mono16(rate), cue: None, data: vec![] };
        cue_to_wav(&mut target, &stamps).unwrap();
        let back = target.cue.unwrap();
        for (a, b) in starts.iter().zip(back.iter()) {
            assert!((*a as i64 - *b as i64).abs() <= 1, "{} vs {}", a, b);
        }
    }
}

#[test]
fn format_value_tables() {
    assert_eq!(Channels::from_u16(1), Some(Channels::One));
    assert_eq!(Channels::from_u16(2), None);
    assert_eq!(Channels::One.as_u16(), 1);
    assert_eq!(BitsPerSample::from_u16(8), Some(BitsPerSample::Eight));
    assert_eq!(BitsPerSample::from_u16(16), Some(BitsPerSample::Sixteen));
    assert_eq!(BitsPerSample::from_u16(24), None);
    assert_eq!(BitsPerSample::Sixteen.as_u16(), 16);
    assert_eq!(BitsPerSample::Eight.block_align(Channels::One), 1);
    assert_eq!(BitsPerSample::Sixteen.block_align(Channels::One), 2);
    for v in [11025u32, 22000, 22040, 22050, 44100] {
        assert_eq!(SamplesPerSec::from_u32(v).unwrap().as_u32(), v);
    }
    assert_eq!(SamplesPerSec::from_u32(48000), None);
}

#[test]
fn odd_data_is_padded() {
    let wav = WaveFile { fmt: mono16(SamplesPerSec::Hz44100), cue: None, data: vec![5; 3] };
    assert_eq!(size_wav_file(&wav).unwrap(), (40, 0, 3));
    let bytes = wav_cue::encode::write(&wav).unwrap();
    assert_eq!(bytes.len(), 48);
    assert_eq!(&bytes[36..48], &[b'd', b'a', b't', b'a', 3, 0, 0, 0, 5, 5, 5, 0]);
}

#[test]
fn counting_reader_and_writer() {
    let bytes = [1u8, 2, 3, 4, 5, 6, 7];
    let mut r = CountingReader::new(&bytes);
    assert_eq!(r.read_u16(), Ok(0x0201));
    assert_eq!(r.read_u32(), Ok(0x0605_0403));
    assert_eq!((r.offset, r.prev), (6, 2));
    assert_eq!(r.read_u8(), Ok(7));
    assert_eq!(r.read_u8(), Err(WaveError::UnexpectedEof { at: 7 }));
    let mut r = CountingReader::new(&bytes);
    let mut buf = vec![0u8; 3];
    r.read_exact(&mut buf).unwrap();
    assert_eq!(buf, vec![1, 2, 3]);
    assert_eq!(r.read_chunk_id().unwrap(), ChunkId::new([4, 5, 6, 7]));

    let mut w = CountingWriter::new(vec![9]);
    w.write_u32(0x0403_0201);
    w.write_u16(0x0605);
    w.write_u8(7);
    w.write_all(&[8]);
    assert_eq!(w.offset, 8);
    assert_eq!(w.into_inner(), vec![9, 1, 2, 3, 4, 5, 6, 7, 8]);
}

#[test]
fn faults_after_cue_chunk_are_reported() {
    let fmt_after = riff(&[fmt_chunk(44100, 16, 16), cue_chunk(&[1]), fmt_chunk(44100, 16, 16)]);
    assert_eq!(
        read(&fmt_after).err(),
        Some(WaveError::DuplicateChunk { id: ChunkId::new(*b"fmt "), at: 72 })
    );
    let mut list = b"LIST".to_vec();
    list.extend_from_slice(&[0, 0, 0, 0]);
    let unknown = riff(&[fmt_chunk(44100, 16, 16), cue_chunk(&[1]), list, data_chunk(&[])]);
    assert_eq!(
        read(&unknown).err(),
        Some(WaveError::UnknownChunk { id: ChunkId::new(*b"LIST"), at: 72 })
    );
}

#[test]
fn tag_errors_name_field_and_offset() {
    let mut bad = sample_file();
    bad[12] = b'F';
    assert_eq!(
        read(&bad).err(),
        Some(WaveError::WrongChunkId {
            field: Field::FmtChunkId,
            expected: ChunkId::new(*b"fmt "),
            actual: ChunkId::new(*b"Fmt "),
            at: 12,
        })
    );
    let mut bad = sample_file();
    bad[56] = b'D';
    assert_eq!(
        read(&bad).err(),
        Some(WaveError::WrongChunkId {
            field: Field::CuePointDataChunkId,
            expected: ChunkId::new(*b"data"),
            actual: ChunkId::new(*b"Data"),
            at: 56,
        })
    );
}

#[test]
fn extraction_keeps_offsets_past_the_end() {
    let wav = WaveFile {
        fmt: mono16(SamplesPerSec::Hz44100),
        cue: Some(vec![0, 22050, 44100]),
        data: vec![0u8; 4],
    };
    let points = cue_from_wav(&wav).unwrap();
    assert_eq!(points.sample_starts, vec![0, 22050, 44100]);
    assert_eq!(points.samples_per_sec, SamplesPerSec::Hz44100);
    assert_eq!(cue_points_past_end(&wav), vec![2, 3]);
}

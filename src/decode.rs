use crate::bytes::{
    le16, le32, lemma_le16_injective, lemma_le32_injective, lemma_occurs_at_concat, occurs_at,
};
use crate::chunk_id::ChunkId;
use crate::error::{Field, WaveError};
use crate::format::{is_supported_rate, BitsPerSample, Channels, Format, SamplesPerSec};
use crate::reader::CountingReader;
use crate::wave::{
    cue_chunk_bytes, cue_id, cue_point_bytes, cue_records, cue_size, cue_tag, data_chunk_bytes,
    data_id, data_tag, decodes_to, encodable, fmt_body, fmt_chunk_bytes, fmt_ext, fmt_id, fmt_size,
    fmt_tag, lemma_cue_records_len, lemma_sizes, opt_cue_bytes, pad, riff_id, riff_size, riff_tag,
    wav_bytes, wave_id, wave_tag, WaveFile, WaveSpec, WAVE_FORMAT_PCM,
};
use vstd::prelude::*;

verus! {

broadcast use crate::bytes::group_le_len;

pub proof fn lemma_occurs_sub(b: Seq<u8>, off: int, x: Seq<u8>, i: int, j: int)
    requires
        occurs_at(b, off, x),
        0 <= i <= j <= x.len(),
    ensures
        b.subrange(off + i, off + j) == x.subrange(i, j),
        off + j <= b.len(),
{
    assert(b.subrange(off + i, off + j) =~= b.subrange(off, off + x.len()).subrange(i, j));
}

/// The twelve bytes that open a container of `total` bytes.
pub open spec fn riff_header(total: int) -> Seq<u8> {
    riff_tag() + le32((total - 8) as u32) + wave_tag()
}

pub proof fn lemma_fmt_body_fields(b: Seq<u8>, o: int, f: Format)
    requires
        occurs_at(b, o, fmt_body(f)),
    ensures
        o + 16 <= b.len(),
        b.subrange(o, o + 2) == le16(1),
        b.subrange(o + 2, o + 4) == le16(f.channels.value()),
        b.subrange(o + 4, o + 8) == le32(f.samples_per_sec.value()),
        b.subrange(o + 8, o + 12) == le32(f.avg_bytes_per_sec()),
        b.subrange(o + 12, o + 14) == le16(f.block_align()),
        b.subrange(o + 14, o + 16) == le16(f.bits_per_sample.value()),
{
    let x = fmt_body(f);
    lemma_occurs_sub(b, o, x, 0, 2);
    assert(x.subrange(0, 2) =~= le16(1));
    lemma_occurs_sub(b, o, x, 2, 4);
    assert(x.subrange(2, 4) =~= le16(f.channels.value()));
    lemma_occurs_sub(b, o, x, 4, 8);
    assert(x.subrange(4, 8) =~= le32(f.samples_per_sec.value()));
    lemma_occurs_sub(b, o, x, 8, 12);
    assert(x.subrange(8, 12) =~= le32(f.avg_bytes_per_sec()));
    lemma_occurs_sub(b, o, x, 12, 14);
    assert(x.subrange(12, 14) =~= le16(f.block_align()));
    lemma_occurs_sub(b, o, x, 14, 16);
    assert(x.subrange(14, 16) =~= le16(f.bits_per_sample.value()));
}

pub proof fn lemma_fmt_parts(b: Seq<u8>, o: int, f: Format, ext: bool)
    ensures
        occurs_at(b, o, fmt_chunk_bytes(f, ext)) <==> (occurs_at(b, o, fmt_tag()) && occurs_at(
            b,
            o + 4,
            le32(fmt_size(ext)),
        ) && occurs_at(b, o + 8, fmt_body(f)) && occurs_at(b, o + 24, fmt_ext(ext))),
{
    let t = fmt_tag();
    let z = le32(fmt_size(ext));
    let y = fmt_body(f);
    let e = fmt_ext(ext);
    lemma_occurs_at_concat(b, o, t + z + y, e);
    lemma_occurs_at_concat(b, o, t + z, y);
    lemma_occurs_at_concat(b, o, t, z);
}

/// `e` reports a tag field `field` at `at` that holds `actual` where `expected` belongs.
pub open spec fn wrong_id(e: WaveError, field: Field, expected: Seq<u8>, actual: Seq<u8>, at: int) -> bool {
    e matches WaveError::WrongChunkId { field: f, expected: x, actual: y, at: a } && f == field
        && x@ == expected && y@ == actual && a == at
}

/// `r` is the error `e`, when there is one.
pub open spec fn reports<T>(r: Result<T, WaveError>, e: Option<WaveError>) -> bool {
    match e {
        Some(x) => r == Err::<T, WaveError>(x),
        None => true,
    }
}

/// The sixteen bytes at `o` hold these descriptor fields.
pub open spec fn fmt_raw_at(
    b: Seq<u8>,
    o: int,
    tag: u16,
    ch: u16,
    hz: u32,
    avg: u32,
    ba: u16,
    bits: u16,
) -> bool {
    &&& 0 <= o && o + 16 <= b.len()
    &&& le16(tag) == b.subrange(o, o + 2)
    &&& le16(ch) == b.subrange(o + 2, o + 4)
    &&& le32(hz) == b.subrange(o + 4, o + 8)
    &&& le32(avg) == b.subrange(o + 8, o + 12)
    &&& le16(ba) == b.subrange(o + 12, o + 14)
    &&& le16(bits) == b.subrange(o + 14, o + 16)
}

/// The first descriptor field at `o` that fails its check, in the order they are checked.
pub open spec fn fmt_fields_error(
    o: int,
    tag: u16,
    ch: u16,
    hz: u32,
    avg: u32,
    ba: u16,
    bits: u16,
) -> Option<WaveError> {
    if tag != 1 {
        Some(WaveError::WrongValue { field: Field::FmtFormatTag, expected: 1, actual: tag as u32, at: o as u32 })
    } else if ch != 1 {
        Some(WaveError::UnsupportedValue { field: Field::FmtChannels, actual: ch as u32, at: (o + 2) as u32 })
    } else if !is_supported_rate(hz) {
        Some(WaveError::UnsupportedValue { field: Field::FmtSamplesPerSec, actual: hz, at: (o + 4) as u32 })
    } else if bits != 8 && bits != 16 {
        Some(
            WaveError::UnsupportedValue {
                field: Field::FmtBitsPerSample,
                actual: bits as u32,
                at: (o + 14) as u32,
            },
        )
    } else if ba != bits / 8 {
        Some(
            WaveError::WrongValue {
                field: Field::FmtBlockAlign,
                expected: (bits / 8) as u32,
                actual: ba as u32,
                at: (o + 12) as u32,
            },
        )
    } else if avg != hz * ba {
        Some(
            WaveError::WrongValue {
                field: Field::FmtAvgBytesPerSec,
                expected: (hz * ba) as u32,
                actual: avg,
                at: (o + 8) as u32,
            },
        )
    } else {
        None
    }
}

/// Reads a chunk tag and its size.
pub fn read_chunk_header(read: &mut CountingReader) -> (r: Result<(ChunkId, u32), WaveError>)
    requires
        old(read).wf(),
    ensures
        final(read).inner@ == old(read).inner@,
        final(read).wf(),
        match r {
            Ok((id, size)) => {
                &&& old(read).has(8)
                &&& final(read).offset == old(read).offset + 8
                &&& final(read).prev == old(read).offset + 4
                &&& id@ == old(read).next(4)
                &&& le32(size) == old(read).bytes().subrange(
                    old(read).offset + 4,
                    old(read).offset + 8,
                )
                &&& forall|x: u32| #[trigger]
                    le32(x) == old(read).bytes().subrange(old(read).offset + 4, old(read).offset + 8)
                        ==> x == size
            },
            Err(e) => !old(read).has(8) && e is UnexpectedEof,
        },
{
    let chunk_id = match read.read_chunk_id() {
        Ok(id) => id,
        Err(e) => return Err(e),
    };
    let chunk_size = match read.read_u32() {
        Ok(v) => v,
        Err(e) => return Err(e),
    };
    Ok((chunk_id, chunk_size))
}

/// Reads the RIFF header of a buffer of `total_size` bytes: tag, size `total_size - 8`, `WAVE`.
pub fn read_riff_chunk(read: &mut CountingReader, total_size: u32) -> (r: Result<(), WaveError>)
    requires
        old(read).wf(),
        old(read).offset == 0,
        total_size == old(read).bytes().len(),
    ensures
        final(read).inner@ == old(read).inner@,
        final(read).wf(),
        r is Ok <==> (total_size >= 12 && occurs_at(old(read).bytes(), 0, riff_header(total_size as int))),
        r is Ok ==> final(read).offset == 12,
        forall|v: u32|
            total_size >= 8 && old(read).bytes().subrange(0, 4) == riff_tag() && #[trigger] le32(v)
                == old(read).bytes().subrange(4, 8) && v != total_size - 8 ==> r == Err::<(), WaveError>(
                WaveError::WrongValue {
                    field: Field::RiffChunkSize,
                    expected: (total_size - 8) as u32,
                    actual: v,
                    at: 4,
                },
            ),
        total_size >= 8 && old(read).bytes().subrange(0, 4) != riff_tag() ==> (r matches Err(e)
            && wrong_id(e, Field::RiffChunkId, riff_tag(), old(read).bytes().subrange(0, 4), 0)),
        total_size >= 12 && old(read).bytes().subrange(0, 4) == riff_tag() && le32(
            (total_size - 8) as u32,
        ) == old(read).bytes().subrange(4, 8) && old(read).bytes().subrange(8, 12) != wave_tag()
            ==> (r matches Err(e) && wrong_id(
            e,
            Field::RiffFormType,
            wave_tag(),
            old(read).bytes().subrange(8, 12),
            8,
        )),
{
    let ghost b = read.bytes();
    proof {
        if total_size >= 12 && occurs_at(b, 0, riff_header(total_size as int)) {
            lemma_occurs_sub(b, 0, riff_header(total_size as int), 0, 4);
            lemma_occurs_sub(b, 0, riff_header(total_size as int), 4, 8);
            lemma_occurs_sub(b, 0, riff_header(total_size as int), 8, 12);
            assert(riff_header(total_size as int).subrange(0, 4) =~= riff_tag());
            assert(riff_header(total_size as int).subrange(4, 8) =~= le32((total_size - 8) as u32));
            assert(riff_header(total_size as int).subrange(8, 12) =~= wave_tag());
        }
    }
    let (chunk_id, chunk_size) = match read_chunk_header(read) {
        Ok(h) => h,
        Err(e) => return Err(e),
    };
    if !(chunk_id == riff_id()) {
        return Err(
            WaveError::WrongChunkId {
                field: Field::RiffChunkId,
                expected: riff_id(),
                actual: chunk_id,
                at: 0,
            },
        );
    }
    let expected_size: u32 = if total_size >= 8 {
        total_size - 8
    } else {
        0
    };
    if chunk_size != expected_size {
        return Err(
            WaveError::WrongValue {
                field: Field::RiffChunkSize,
                expected: expected_size,
                actual: chunk_size,
                at: 4,
            },
        );
    }
    let form_type = match read.read_chunk_id() {
        Ok(id) => id,
        Err(e) => return Err(e),
    };
    if !(form_type == wave_id()) {
        return Err(
            WaveError::WrongChunkId {
                field: Field::RiffFormType,
                expected: wave_id(),
                actual: form_type,
                at: 8,
            },
        );
    }
    assert(b.subrange(0, 12) =~= riff_header(total_size as int));
    Ok(())
}

/// The sixteen descriptor bytes of a `fmt ` chunk at the reader's offset: PCM, mono, a supported
/// rate and depth, and block align and average bytes per second that agree with them.
#[verifier::spinoff_prover]
#[verifier::rlimit(100)]
pub fn read_fmt_fields(read: &mut CountingReader) -> (r: Result<Format, WaveError>)
    requires
        old(read).wf(),
    ensures
        final(read).inner@ == old(read).inner@,
        final(read).wf(),
        r matches Ok(f) ==> occurs_at(old(read).bytes(), old(read).offset as int, fmt_body(f))
            && final(read).offset == old(read).offset + 16,
        (exists|f: Format| occurs_at(old(read).bytes(), old(read).offset as int, fmt_body(f)))
            ==> r is Ok,
        forall|v: u16|
            old(read).has(2) && #[trigger] le16(v) == old(read).next(2) && v != 1 ==> r == Err::<Format, WaveError>(
                WaveError::WrongValue {
                    field: Field::FmtFormatTag,
                    expected: 1,
                    actual: v as u32,
                    at: old(read).offset,
                },
            ),
        forall|c: u16|
            old(read).has(4) && old(read).next(2) == le16(1) && #[trigger] le16(c) == old(
                read,
            ).bytes().subrange(old(read).offset + 2, old(read).offset + 4) && c != 1 ==> r == Err::<Format, WaveError>(
                WaveError::UnsupportedValue {
                    field: Field::FmtChannels,
                    actual: c as u32,
                    at: (old(read).offset + 2) as u32,
                },
            ),
        forall|tag: u16, ch: u16, hz: u32, avg: u32, ba: u16, bits: u16|
            #[trigger] fmt_raw_at(old(read).bytes(), old(read).offset as int, tag, ch, hz, avg, ba, bits)
                ==> reports(r, fmt_fields_error(old(read).offset as int, tag, ch, hz, avg, ba, bits)),
{
    let ghost b = read.bytes();
    let ghost o = read.offset as int;
    let ghost present = exists|f: Format| occurs_at(b, o, fmt_body(f));
    let ghost f0 = choose|f: Format| occurs_at(b, o, fmt_body(f));
    proof {
        if present {
            lemma_fmt_body_fields(b, o, f0);
        }
    }
    let format_tag = match read.read_u16() {
        Ok(v) => v,
        Err(e) => return Err(e),
    };
    if format_tag != WAVE_FORMAT_PCM {
        return Err(
            WaveError::WrongValue {
                field: Field::FmtFormatTag,
                expected: WAVE_FORMAT_PCM as u32,
                actual: format_tag as u32,
                at: read.prev,
            },
        );
    }
    let channels = match read.read_u16() {
        Ok(v) => v,
        Err(e) => return Err(e),
    };
    let channels = match Channels::from_u16(channels) {
        Some(c) => c,
        None => {
            return Err(
                WaveError::UnsupportedValue {
                    field: Field::FmtChannels,
                    actual: channels as u32,
                    at: read.prev,
                },
            );
        },
    };
    let samples_per_sec = match read.read_u32() {
        Ok(v) => v,
        Err(e) => return Err(e),
    };
    let samples_per_sec = match SamplesPerSec::from_u32(samples_per_sec) {
        Some(s) => s,
        None => {
            return Err(
                WaveError::UnsupportedValue {
                    field: Field::FmtSamplesPerSec,
                    actual: samples_per_sec,
                    at: read.prev,
                },
            );
        },
    };
    let avg_bytes_per_sec = match read.read_u32() {
        Ok(v) => v,
        Err(e) => return Err(e),
    };
    let avg_bytes_per_sec_pos = read.prev;
    let block_align = match read.read_u16() {
        Ok(v) => v,
        Err(e) => return Err(e),
    };
    let block_align_pos = read.prev;
    let bits_per_sample = match read.read_u16() {
        Ok(v) => v,
        Err(e) => return Err(e),
    };
    let bits_per_sample = match BitsPerSample::from_u16(bits_per_sample) {
        Some(s) => s,
        None => {
            return Err(
                WaveError::UnsupportedValue {
                    field: Field::FmtBitsPerSample,
                    actual: bits_per_sample as u32,
                    at: read.prev,
                },
            );
        },
    };
    let expected_block_align = bits_per_sample.block_align(channels);
    if block_align != expected_block_align {
        return Err(
            WaveError::WrongValue {
                field: Field::FmtBlockAlign,
                expected: expected_block_align as u32,
                actual: block_align as u32,
                at: block_align_pos,
            },
        );
    }
    let rate = samples_per_sec.as_u32();
    assert(block_align <= 2 && rate <= 44100);
    assert(rate * block_align <= 88200) by (nonlinear_arith)
        requires
            block_align <= 2,
            rate <= 44100,
    ;
    let expected_avg_bytes_per_sec = rate * block_align as u32;
    if avg_bytes_per_sec != expected_avg_bytes_per_sec {
        return Err(
            WaveError::WrongValue {
                field: Field::FmtAvgBytesPerSec,
                expected: expected_avg_bytes_per_sec,
                actual: avg_bytes_per_sec,
                at: avg_bytes_per_sec_pos,
            },
        );
    }
    let fmt = Format { channels, samples_per_sec, bits_per_sample };
    assert(b.subrange(o, o + 16) =~= fmt_body(fmt));
    Ok(fmt)
}

pub proof fn lemma_fmt_body_unique(b: Seq<u8>, o: int, f1: Format, f2: Format)
    requires
        occurs_at(b, o, fmt_body(f1)),
        occurs_at(b, o, fmt_body(f2)),
    ensures
        f1 == f2,
{
    lemma_fmt_body_fields(b, o, f1);
    lemma_fmt_body_fields(b, o, f2);
    lemma_le16_injective(f1.channels.value(), f2.channels.value());
    lemma_le32_injective(f1.samples_per_sec.value(), f2.samples_per_sec.value());
    lemma_le16_injective(f1.bits_per_sample.value(), f2.bits_per_sample.value());
}

/// The `fmt ` chunk at the reader's offset: its tag, a size of 16, or of 18 with a zero
/// extension size, and a descriptor that `read_fmt_fields` accepts.
pub fn read_fmt_chunk(read: &mut CountingReader) -> (r: Result<Format, WaveError>)
    requires
        old(read).wf(),
    ensures
        final(read).inner@ == old(read).inner@,
        final(read).wf(),
        r matches Ok(f) ==> (occurs_at(old(read).bytes(), old(read).offset as int, fmt_chunk_bytes(f, false))
            && final(read).offset == old(read).offset + 24) || (occurs_at(
            old(read).bytes(),
            old(read).offset as int,
            fmt_chunk_bytes(f, true),
        ) && final(read).offset == old(read).offset + 26),
        forall|f: Format, ext: bool|
            #[trigger] occurs_at(old(read).bytes(), old(read).offset as int, fmt_chunk_bytes(f, ext))
                ==> r == Ok::<Format, WaveError>(f),
        forall|v: u32|
            old(read).has(8) && old(read).next(4) == fmt_tag() && #[trigger] le32(v) == old(
                read,
            ).bytes().subrange(old(read).offset + 4, old(read).offset + 8) && v != 16 && v != 18
                ==> r == Err::<Format, WaveError>(
                WaveError::UnsupportedValue {
                    field: Field::FmtChunkSize,
                    actual: v,
                    at: (old(read).offset + 4) as u32,
                },
            ),
        old(read).has(8) && old(read).next(4) != fmt_tag() ==> (r matches Err(e) && wrong_id(
            e,
            Field::FmtChunkId,
            fmt_tag(),
            old(read).next(4),
            old(read).offset as int,
        )),
        forall|tag: u16, ch: u16, hz: u32, avg: u32, ba: u16, bits: u16|
            old(read).has(8) && old(read).next(4) == fmt_tag() && (le32(16) == old(
                read,
            ).bytes().subrange(old(read).offset + 4, old(read).offset + 8) || le32(18) == old(
                read,
            ).bytes().subrange(old(read).offset + 4, old(read).offset + 8)) && #[trigger] fmt_raw_at(
                old(read).bytes(),
                old(read).offset + 8,
                tag,
                ch,
                hz,
                avg,
                ba,
                bits,
            ) ==> reports(r, fmt_fields_error(old(read).offset + 8, tag, ch, hz, avg, ba, bits)),
        forall|v: u16|
            old(read).has(26) && old(read).next(4) == fmt_tag() && le32(18) == old(
                read,
            ).bytes().subrange(old(read).offset + 4, old(read).offset + 8) && (exists|f: Format|
                occurs_at(old(read).bytes(), old(read).offset + 8, fmt_body(f))) && #[trigger] le16(v)
                == old(read).bytes().subrange(old(read).offset + 24, old(read).offset + 26) && v != 0
                ==> r == Err::<Format, WaveError>(
                WaveError::WrongValue {
                    field: Field::FmtExtensionSize,
                    expected: 0,
                    actual: v as u32,
                    at: (old(read).offset + 24) as u32,
                },
            ),
{
    let ghost b = read.bytes();
    let o = read.offset;
    let ghost present = exists|f: Format, ext: bool| occurs_at(b, o as int, fmt_chunk_bytes(f, ext));
    let ghost (f0, ext0) = choose|f: Format, ext: bool| occurs_at(b, o as int, fmt_chunk_bytes(f, ext));
    proof {
        if present {
            lemma_fmt_parts(b, o as int, f0, ext0);
            assert(fmt_ext(ext0).len() == if ext0 { 2int } else { 0int });
        }
    }
    let (chunk_id, chunk_size) = match read_chunk_header(read) {
        Ok(h) => h,
        Err(e) => return Err(e),
    };
    if !(chunk_id == fmt_id()) {
        return Err(
            WaveError::WrongChunkId {
                field: Field::FmtChunkId,
                expected: fmt_id(),
                actual: chunk_id,
                at: o,
            },
        );
    }
    if !(chunk_size == 16 || chunk_size == 18) {
        return Err(
            WaveError::UnsupportedValue { field: Field::FmtChunkSize, actual: chunk_size, at: o + 4 },
        );
    }
    let fmt = match read_fmt_fields(read) {
        Ok(f) => f,
        Err(e) => return Err(e),
    };
    if chunk_size == 18 {
        let extension_size = match read.read_u16() {
            Ok(v) => v,
            Err(e) => return Err(e),
        };
        if extension_size != 0 {
            return Err(
                WaveError::WrongValue {
                    field: Field::FmtExtensionSize,
                    expected: 0,
                    actual: extension_size as u32,
                    at: read.prev,
                },
            );
        }
    }
    proof {
        let ext = chunk_size == 18;
        assert(b.subrange(o as int, o + 4) == fmt_tag());
        assert(le32(fmt_size(ext)) == b.subrange(o + 4, o + 8));
        assert(fmt_ext(ext) =~= b.subrange(o + 24, o + 24 + fmt_ext(ext).len()));
        lemma_fmt_parts(b, o as int, fmt, ext);
        assert forall|f: Format, e: bool| #[trigger] occurs_at(b, o as int, fmt_chunk_bytes(f, e))
            implies fmt == f by {
            lemma_fmt_parts(b, o as int, f, e);
            lemma_fmt_body_unique(b, o + 8, fmt, f);
        }
    }
    Ok(fmt)
}

pub proof fn lemma_cue_point_fields(b: Seq<u8>, o: int, index: u32, p: u32)
    requires
        occurs_at(b, o, cue_point_bytes(index, p)),
    ensures
        o + 24 <= b.len(),
        b.subrange(o, o + 4) == le32(index),
        b.subrange(o + 4, o + 8) == le32(p),
        b.subrange(o + 8, o + 12) == data_tag(),
        b.subrange(o + 12, o + 16) == le32(0),
        b.subrange(o + 16, o + 20) == le32(0),
        b.subrange(o + 20, o + 24) == le32(p),
{
    let x = cue_point_bytes(index, p);
    lemma_occurs_sub(b, o, x, 0, 4);
    assert(x.subrange(0, 4) =~= le32(index));
    lemma_occurs_sub(b, o, x, 4, 8);
    assert(x.subrange(4, 8) =~= le32(p));
    lemma_occurs_sub(b, o, x, 8, 12);
    assert(x.subrange(8, 12) =~= data_tag());
    lemma_occurs_sub(b, o, x, 12, 16);
    assert(x.subrange(12, 16) =~= le32(0));
    lemma_occurs_sub(b, o, x, 16, 20);
    assert(x.subrange(16, 20) =~= le32(0));
    lemma_occurs_sub(b, o, x, 20, 24);
    assert(x.subrange(20, 24) =~= le32(p));
}

/// Cue point record number `index` at the reader's offset: id `index`, tag `data`, chunk and
/// block start 0, and a sample start equal to the position, which is returned.
#[verifier::spinoff_prover]
pub fn read_cue_point(read: &mut CountingReader, index: u32) -> (r: Result<u32, WaveError>)
    requires
        old(read).wf(),
    ensures
        final(read).inner@ == old(read).inner@,
        final(read).wf(),
        r matches Ok(p) ==> occurs_at(old(read).bytes(), old(read).offset as int, cue_point_bytes(index, p))
            && final(read).offset == old(read).offset + 24,
        forall|p: u32|
            #[trigger] occurs_at(old(read).bytes(), old(read).offset as int, cue_point_bytes(index, p))
                ==> r == Ok::<u32, WaveError>(p),
        forall|v: u32|
            old(read).has(4) && #[trigger] le32(v) == old(read).next(4) && v != index ==> r
                == Err::<u32, WaveError>(
                WaveError::WrongValue {
                    field: Field::CuePointId,
                    expected: index,
                    actual: v,
                    at: old(read).offset,
                },
            ),
        old(read).has(12) && le32(index) == old(read).next(4) && old(read).bytes().subrange(
            old(read).offset + 8,
            old(read).offset + 12,
        ) != data_tag() ==> (r matches Err(e) && wrong_id(
            e,
            Field::CuePointDataChunkId,
            data_tag(),
            old(read).bytes().subrange(old(read).offset + 8, old(read).offset + 12),
            old(read).offset + 8,
        )),
        forall|v: u32|
            old(read).has(16) && le32(index) == old(read).next(4) && old(read).bytes().subrange(
                old(read).offset + 8,
                old(read).offset + 12,
            ) == data_tag() && #[trigger] le32(v) == old(read).bytes().subrange(
                old(read).offset + 12,
                old(read).offset + 16,
            ) && v != 0 ==> r == Err::<u32, WaveError>(
                WaveError::WrongValue {
                    field: Field::CuePointChunkStart,
                    expected: 0,
                    actual: v,
                    at: (old(read).offset + 12) as u32,
                },
            ),
        forall|v: u32|
            old(read).has(20) && le32(index) == old(read).next(4) && old(read).bytes().subrange(
                old(read).offset + 8,
                old(read).offset + 12,
            ) == data_tag() && le32(0) == old(read).bytes().subrange(
                old(read).offset + 12,
                old(read).offset + 16,
            ) && #[trigger] le32(v) == old(read).bytes().subrange(
                old(read).offset + 16,
                old(read).offset + 20,
            ) && v != 0 ==> r == Err::<u32, WaveError>(
                WaveError::WrongValue {
                    field: Field::CuePointBlockStart,
                    expected: 0,
                    actual: v,
                    at: (old(read).offset + 16) as u32,
                },
            ),
        forall|p: u32, v: u32|
            #![trigger le32(p), le32(v)]
            old(read).has(24) && le32(index) == old(read).next(4) && le32(p) == old(
                read,
            ).bytes().subrange(old(read).offset + 4, old(read).offset + 8) && old(
                read,
            ).bytes().subrange(old(read).offset + 8, old(read).offset + 12) == data_tag() && le32(0)
                == old(read).bytes().subrange(old(read).offset + 12, old(read).offset + 16) && le32(
                0,
            ) == old(read).bytes().subrange(old(read).offset + 16, old(read).offset + 20) && le32(v)
                == old(read).bytes().subrange(old(read).offset + 20, old(read).offset + 24) && v
                != p ==> r == Err::<u32, WaveError>(
                WaveError::WrongValue {
                    field: Field::CuePointSampleStart,
                    expected: p,
                    actual: v,
                    at: (old(read).offset + 20) as u32,
                },
            ),
{
    let ghost b = read.bytes();
    let ghost o = read.offset as int;
    let ghost present = exists|p: u32| occurs_at(b, o, cue_point_bytes(index, p));
    let ghost p0 = choose|p: u32| occurs_at(b, o, cue_point_bytes(index, p));
    proof {
        if present {
            lemma_cue_point_fields(b, o, index, p0);
        }
    }
    let id = match read.read_u32() {
        Ok(v) => v,
        Err(e) => return Err(e),
    };
    if id != index {
        return Err(
            WaveError::WrongValue { field: Field::CuePointId, expected: index, actual: id, at: read.prev },
        );
    }
    let position = match read.read_u32() {
        Ok(v) => v,
        Err(e) => return Err(e),
    };
    let data_chunk_id = match read.read_chunk_id() {
        Ok(v) => v,
        Err(e) => return Err(e),
    };
    if !(data_chunk_id == data_id()) {
        return Err(
            WaveError::WrongChunkId {
                field: Field::CuePointDataChunkId,
                expected: data_id(),
                actual: data_chunk_id,
                at: read.prev,
            },
        );
    }
    let chunk_start = match read.read_u32() {
        Ok(v) => v,
        Err(e) => return Err(e),
    };
    if chunk_start != 0 {
        return Err(
            WaveError::WrongValue {
                field: Field::CuePointChunkStart,
                expected: 0,
                actual: chunk_start,
                at: read.prev,
            },
        );
    }
    let block_start = match read.read_u32() {
        Ok(v) => v,
        Err(e) => return Err(e),
    };
    if block_start != 0 {
        return Err(
            WaveError::WrongValue {
                field: Field::CuePointBlockStart,
                expected: 0,
                actual: block_start,
                at: read.prev,
            },
        );
    }
    let sample_start = match read.read_u32() {
        Ok(v) => v,
        Err(e) => return Err(e),
    };
    if sample_start != position {
        return Err(
            WaveError::WrongValue {
                field: Field::CuePointSampleStart,
                expected: position,
                actual: sample_start,
                at: read.prev,
            },
        );
    }
    assert(b.subrange(o, o + 24) =~= cue_point_bytes(index, position));
    proof {
        assert forall|p: u32| #[trigger] occurs_at(b, o, cue_point_bytes(index, p)) implies p
            == position by {
            lemma_cue_point_fields(b, o, index, p);
        }
    }
    Ok(position)
}

pub proof fn lemma_cue_records_occurs(b: Seq<u8>, base: int, c: Seq<u32>, i: int)
    requires
        occurs_at(b, base, cue_records(c)),
        0 <= i < c.len(),
    ensures
        occurs_at(b, base + 24 * i, cue_point_bytes((i + 1) as u32, c[i])),
    decreases c.len(),
{
    let d = c.drop_last();
    lemma_cue_records_len(d);
    lemma_occurs_at_concat(b, base, cue_records(d), cue_point_bytes(c.len() as u32, c.last()));
    if i < c.len() - 1 {
        lemma_cue_records_occurs(b, base, d, i);
        assert(d[i] == c[i]);
    }
}

/// The cue chunk contents of `c` (count, then records) stand at `o` under a size field `size`.
pub open spec fn cue_body_at(b: Seq<u8>, o: int, size: u32, c: Seq<u32>) -> bool {
    &&& c.len() >= 1
    &&& size == cue_size(c.len())
    &&& occurs_at(b, o, le32(c.len() as u32) + cue_records(c))
}

/// The body of a cue chunk of size `chunk_size` at the reader's offset, just after its size
/// field: a count of at least one and `count` cue point records numbered from 1.
#[verifier::spinoff_prover]
pub fn read_cue_chunk(read: &mut CountingReader, chunk_size: u32) -> (r: Result<Vec<u32>, WaveError>)
    requires
        old(read).wf(),
        old(read).offset >= 4,
    ensures
        final(read).inner@ == old(read).inner@,
        final(read).wf(),
        r matches Ok(c) ==> cue_body_at(old(read).bytes(), old(read).offset as int, chunk_size, c@)
            && final(read).offset == old(read).offset + chunk_size,
        forall|c: Seq<u32>|
            #[trigger] cue_body_at(old(read).bytes(), old(read).offset as int, chunk_size, c)
                ==> (r matches Ok(v) && v@ == c),
        chunk_size < 28 ==> r == Err::<Vec<u32>, WaveError>(
            WaveError::CueChunkTooSmall { size: chunk_size, at: (old(read).offset - 4) as u32 },
        ),
        forall|n: u32|
            chunk_size >= 28 && old(read).has(4) && #[trigger] le32(n) == old(read).next(4)
                && chunk_size != 4 + 24 * n ==> r == Err::<Vec<u32>, WaveError>(
                WaveError::CueSizeMismatch {
                    size: chunk_size,
                    count: n,
                    at: (old(read).offset - 4) as u32,
                },
            ),
{
    let ghost b = read.bytes();
    let o = read.offset;
    let chunk_size_pos = o - 4;
    proof {
        assert forall|c: Seq<u32>| #[trigger] cue_body_at(b, o as int, chunk_size, c) implies occurs_at(
            b,
            o as int,
            le32(c.len() as u32),
        ) && occurs_at(b, o + 4, cue_records(c)) by {
            lemma_occurs_at_concat(b, o as int, le32(c.len() as u32), cue_records(c));
        }
    }
    if chunk_size < 28 {
        return Err(WaveError::CueChunkTooSmall { size: chunk_size, at: chunk_size_pos });
    }
    let cue_point_count = match read.read_u32() {
        Ok(v) => v,
        Err(e) => return Err(e),
    };
    let expected_size: u64 = 4 + 24 * (cue_point_count as u64);
    if chunk_size as u64 != expected_size {
        return Err(
            WaveError::CueSizeMismatch {
                size: chunk_size,
                count: cue_point_count,
                at: chunk_size_pos,
            },
        );
    }
    let ghost base = o + 4;
    let mut cue: Vec<u32> = Vec::new();
    assert(cue_records(cue@) =~= Seq::<u8>::empty());
    assert(b.subrange(base, base) =~= Seq::<u8>::empty());
    proof {
        assert forall|c: Seq<u32>| #[trigger] cue_body_at(b, o as int, chunk_size, c) implies cue@
            == c.subrange(0, 0) by {
            assert(cue@ =~= c.subrange(0, 0));
        }
    }
    let mut i: u32 = 0;
    while i < cue_point_count
        invariant
            0 <= i <= cue_point_count,
            cue@.len() == i,
            b == old(read).bytes(),
            o == old(read).offset,
            base == o + 4,
            read.wf(),
            read.inner@ == b,
            read.offset == base + 24 * i,
            chunk_size == 4 + 24 * cue_point_count,
            occurs_at(b, base, cue_records(cue@)),
            o + 4 <= b.len(),
            le32(cue_point_count) == b.subrange(o as int, o + 4),
            forall|n: u32| #[trigger] le32(n) == b.subrange(o as int, o + 4) ==> n == cue_point_count,
            forall|c: Seq<u32>| #[trigger]
                cue_body_at(b, o as int, chunk_size, c) ==> c.len() == cue_point_count
                    && occurs_at(b, base, cue_records(c)) && cue@ == c.subrange(0, i as int),
        decreases cue_point_count - i,
    {
        let ghost off_before = read.offset as int;
        assert(read.bytes() == b);
        let index: u32 = i + 1;
        let res = read_cue_point(read, index);
        proof {
            assert forall|c: Seq<u32>| #[trigger] cue_body_at(b, o as int, chunk_size, c) implies res
                == Ok::<u32, WaveError>(c[i as int]) by {
                lemma_cue_records_occurs(b, base, c, i as int);
                assert(occurs_at(b, off_before, cue_point_bytes(index, c[i as int])));
            }
        }
        let position = match res {
            Ok(p) => p,
            Err(e) => return Err(e),
        };
        proof {
            lemma_cue_records_len(cue@);
            lemma_occurs_at_concat(b, base, cue_records(cue@), cue_point_bytes((i + 1) as u32, position));
        }
        let ghost prev_cue = cue@;
        cue.push(position);
        proof {
            assert(cue@.drop_last() =~= prev_cue);
            assert(cue_records(cue@) == cue_records(cue@.drop_last()) + cue_point_bytes(
                (i + 1) as u32,
                position,
            ));
            assert forall|c: Seq<u32>| #[trigger] cue_body_at(b, o as int, chunk_size, c) implies cue@
                == c.subrange(0, i + 1) by {
                assert(cue@ =~= c.subrange(0, i + 1));
            }
        }
        i = i + 1;
    }
    proof {
        lemma_cue_records_len(cue@);
        lemma_occurs_at_concat(b, o as int, le32(cue@.len() as u32), cue_records(cue@));
        assert forall|c: Seq<u32>| #[trigger] cue_body_at(b, o as int, chunk_size, c) implies cue@
            == c by {
            assert(c.subrange(0, i as int) =~= c);
        }
    }
    Ok(cue)
}

/// A data payload of `chunk_size` bytes at the reader's offset, and a zero pad byte after it
/// when `chunk_size` is odd.
#[verifier::spinoff_prover]
pub fn read_data_chunk(read: &mut CountingReader, chunk_size: u32) -> (r: Result<Vec<u8>, WaveError>)
    requires
        old(read).wf(),
    ensures
        final(read).inner@ == old(read).inner@,
        final(read).wf(),
        r matches Ok(d) ==> d@.len() == chunk_size && occurs_at(
            old(read).bytes(),
            old(read).offset as int,
            d@ + pad(d@.len()),
        ) && final(read).offset == old(read).offset + chunk_size + chunk_size % 2,
        forall|d: Seq<u8>|
            d.len() == chunk_size && #[trigger] occurs_at(old(read).bytes(), old(read).offset as int, d + pad(d.len()))
                ==> (r matches Ok(v) && v@ == d),
        !old(read).has(chunk_size as int) ==> r == Err::<Vec<u8>, WaveError>(
            WaveError::UnexpectedEof { at: old(read).offset },
        ),
        old(read).has(chunk_size + 1) && chunk_size % 2 == 1 && old(read).bytes()[old(read).offset
            + chunk_size] != 0 ==> r == Err::<Vec<u8>, WaveError>(
            WaveError::WrongValue {
                field: Field::DataPadding,
                expected: 0,
                actual: old(read).bytes()[old(read).offset + chunk_size] as u32,
                at: (old(read).offset + chunk_size) as u32,
            },
        ),
{
    let ghost b = read.bytes();
    let o = read.offset;
    let mut buf: Vec<u8> = Vec::new();
    let n = chunk_size as usize;
    while buf.len() < n
        invariant
            buf@.len() <= n,
        decreases n - buf@.len(),
    {
        buf.push(0);
    }
    proof {
        assert forall|d: Seq<u8>|
            d.len() == chunk_size && #[trigger] occurs_at(b, o as int, d + pad(d.len())) implies b.subrange(
            o as int,
            o + chunk_size,
        ) == d && (chunk_size % 2 == 1 ==> o + chunk_size + 1 <= b.len() && b[o + chunk_size] == 0) by {
            lemma_occurs_at_concat(b, o as int, d, pad(d.len()));
            if chunk_size % 2 == 1 {
                assert(b.subrange(o + chunk_size, o + chunk_size + 1)[0] == b[o + chunk_size]);
            }
        }
    }
    match read.read_exact(&mut buf) {
        Ok(()) => {},
        Err(e) => return Err(e),
    }
    assert((chunk_size & 1) == 1 <==> chunk_size % 2 == 1) by (bit_vector);
    if (chunk_size & 1) == 1 {
        let padding = match read.read_u8() {
            Ok(v) => v,
            Err(e) => return Err(e),
        };
        assert(seq![padding][0] == b.subrange(o + chunk_size, o + chunk_size + 1)[0]);
        if padding != 0 {
            return Err(
                WaveError::WrongValue {
                    field: Field::DataPadding,
                    expected: 0,
                    actual: padding as u32,
                    at: read.prev,
                },
            );
        }
    }
    proof {
        lemma_occurs_at_concat(b, o as int, buf@, pad(buf@.len()));
        if chunk_size % 2 == 1 {
            assert(b.subrange(o + chunk_size, o + chunk_size + 1) =~= pad(buf@.len()));
        } else {
            assert(b.subrange(o + chunk_size, o + chunk_size) =~= pad(buf@.len()));
        }
    }
    Ok(buf)
}

pub proof fn lemma_tags_distinct()
    ensures
        fmt_tag() != cue_tag(),
        fmt_tag() != data_tag(),
        cue_tag() != data_tag(),
        le32(16) != le32(18),
{
    assert(fmt_tag()[0] != cue_tag()[0]);
    assert(fmt_tag()[0] != data_tag()[0]);
    assert(cue_tag()[0] != data_tag()[0]);
    reveal(le32);
    assert(((16u32 & 0xff) as u8) != ((18u32 & 0xff) as u8)) by (bit_vector);
    assert(le32(16)[0] != le32(18)[0]);
}

/// Where the chunks of `w`'s encoding stand, when `b` is that encoding.
pub open spec fn wav_parts_at(b: Seq<u8>, w: WaveSpec, ext: bool) -> bool {
    let p1 = 12 + fmt_chunk_bytes(w.fmt, ext).len() as int;
    let p2 = p1 + opt_cue_bytes(w.cue).len() as int;
    &&& occurs_at(b, 0, riff_tag() + le32(riff_size(w, ext) as u32) + wave_tag())
    &&& occurs_at(b, 12, fmt_chunk_bytes(w.fmt, ext))
    &&& occurs_at(b, p1, opt_cue_bytes(w.cue))
    &&& occurs_at(b, p2, data_chunk_bytes(w.data))
    &&& b.len() == p2 + data_chunk_bytes(w.data).len()
}

pub proof fn lemma_wav_parts(b: Seq<u8>, w: WaveSpec, ext: bool)
    ensures
        b == wav_bytes(w, ext) <==> wav_parts_at(b, w, ext),
{
    let h = riff_tag() + le32(riff_size(w, ext) as u32) + wave_tag();
    let f = fmt_chunk_bytes(w.fmt, ext);
    let c = opt_cue_bytes(w.cue);
    let d = data_chunk_bytes(w.data);
    assert(h.len() == 12);
    lemma_occurs_at_concat(b, 0, h + f + c, d);
    lemma_occurs_at_concat(b, 0, h + f, c);
    lemma_occurs_at_concat(b, 0, h, f);
    if b == wav_bytes(w, ext) {
        assert(b.subrange(0, b.len() as int) =~= b);
    }
    if wav_parts_at(b, w, ext) {
        assert(b.subrange(0, b.len() as int) =~= b);
    }
}

pub proof fn lemma_cue_chunk_parts(b: Seq<u8>, p: int, c: Seq<u32>)
    ensures
        occurs_at(b, p, cue_chunk_bytes(c)) <==> (occurs_at(b, p, cue_tag()) && occurs_at(
            b,
            p + 4,
            le32(cue_size(c.len()) as u32),
        ) && occurs_at(b, p + 8, le32(c.len() as u32) + cue_records(c))),
{
    let t = cue_tag();
    let z = le32(cue_size(c.len()) as u32);
    let n = le32(c.len() as u32);
    let r = cue_records(c);
    assert(cue_chunk_bytes(c) =~= (t + z) + (n + r));
    lemma_occurs_at_concat(b, p, t + z, n + r);
    lemma_occurs_at_concat(b, p, t, z);
}

pub proof fn lemma_data_chunk_parts(b: Seq<u8>, p: int, d: Seq<u8>)
    ensures
        occurs_at(b, p, data_chunk_bytes(d)) <==> (occurs_at(b, p, data_tag()) && occurs_at(
            b,
            p + 4,
            le32(d.len() as u32),
        ) && occurs_at(b, p + 8, d + pad(d.len()))),
{
    let t = data_tag();
    let z = le32(d.len() as u32);
    assert(data_chunk_bytes(d) =~= (t + z) + (d + pad(d.len())));
    lemma_occurs_at_concat(b, p, t + z, d + pad(d.len()));
    lemma_occurs_at_concat(b, p, t, z);
}

pub open spec fn opt_view(c: Option<Vec<u32>>) -> Option<Seq<u32>> {
    match c {
        Some(v) => Some(v@),
        None => None,
    }
}

/// The chunks after `fmt `: an optional cue chunk, then the data chunk.
pub open spec fn tail_bytes(cue: Option<Seq<u32>>, data: Seq<u8>) -> Seq<u8> {
    opt_cue_bytes(cue) + data_chunk_bytes(data)
}

/// The sizes of these chunks fit their fields, and a cue chunk holds at least one cue point.
pub open spec fn tail_ok(cue: Option<Seq<u32>>, data: Seq<u8>) -> bool {
    &&& match cue {
        Some(c) => c.len() >= 1 && cue_size(c.len()) <= u32::MAX,
        None => true,
    }
    &&& data.len() <= u32::MAX
}

pub proof fn lemma_tail_parts(b: Seq<u8>, p: int, cue: Option<Seq<u32>>, data: Seq<u8>)
    requires
        occurs_at(b, p, tail_bytes(cue, data)),
    ensures
        match cue {
            Some(c) => {
                &&& occurs_at(b, p, cue_tag())
                &&& occurs_at(b, p + 4, le32(cue_size(c.len()) as u32))
                &&& occurs_at(b, p + 8, le32(c.len() as u32) + cue_records(c))
            },
            None => true,
        },
        ({
            let p2 = p + opt_cue_bytes(cue).len() as int;
            &&& occurs_at(b, p2, data_tag())
            &&& occurs_at(b, p2 + 4, le32(data.len() as u32))
            &&& occurs_at(b, p2 + 8, data + pad(data.len()))
        }),
        opt_cue_bytes(cue).len() == match cue {
            Some(c) => 8 + cue_size(c.len()),
            None => 0,
        },
{
    lemma_occurs_at_concat(b, p, opt_cue_bytes(cue), data_chunk_bytes(data));
    if let Some(c) = cue {
        lemma_cue_chunk_parts(b, p, c);
        lemma_cue_records_len(c);
    }
    lemma_data_chunk_parts(b, p + opt_cue_bytes(cue).len(), data);
}

/// The position after the `fmt ` chunk.
pub open spec fn fmt_end(ext: bool) -> int {
    if ext {
        38
    } else {
        36
    }
}

/// A chunk header at `p` that the scan refuses, as (is a duplicate, its tag, its position):
/// a second `fmt `, a second cue chunk once one was read, or any tag but `cue ` and `data`.
pub open spec fn header_fault(b: Seq<u8>, p: int, cue_seen: bool) -> Option<(bool, Seq<u8>, int)> {
    if 0 <= p && p + 8 <= b.len() {
        let t = b.subrange(p, p + 4);
        if t == fmt_tag() || (cue_seen && t == cue_tag()) {
            Some((true, t, p))
        } else if t != cue_tag() && t != data_tag() {
            Some((false, t, p))
        } else {
            None
        }
    } else {
        None
    }
}

/// `e` is the duplicate-chunk or unknown-chunk error for the fault `f`.
pub open spec fn reports_fault(e: WaveError, f: (bool, Seq<u8>, int)) -> bool {
    if f.0 {
        e matches WaveError::DuplicateChunk { id, at } && id@ == f.1 && at == f.2
    } else {
        e matches WaveError::UnknownChunk { id, at } && id@ == f.1 && at == f.2
    }
}

/// A cue chunk holding `c` stands at `p`.
pub open spec fn cue_chunk_at(b: Seq<u8>, p: int, c: Seq<u32>) -> bool {
    &&& occurs_at(b, p, cue_tag())
    &&& occurs_at(b, p + 4, le32(cue_size(c.len()) as u32))
    &&& cue_body_at(b, p + 8, cue_size(c.len()) as u32, c)
}

/// Each refused header that the scan from `p` meets, first or after a cue chunk, is what `r`
/// reports.
pub open spec fn scan_faults_reported<T>(b: Seq<u8>, p: int, r: Result<T, WaveError>) -> bool {
    &&& (header_fault(b, p, false) matches Some(f) ==> (r matches Err(e) && reports_fault(e, f)))
    &&& forall|c: Seq<u32>| #[trigger]
        cue_chunk_at(b, p, c) ==> (header_fault(b, p + 8 + cue_size(c.len()), true) matches Some(f)
            ==> (r matches Err(e) && reports_fault(e, f)))
}

/// The chunks after `fmt `: a cue chunk or the data chunk; after a cue chunk, the data chunk.
/// A second `fmt ` or cue chunk is a duplicate; any other tag is unknown. Reading stops after
/// the data chunk.
#[verifier::spinoff_prover]
#[verifier::rlimit(100)]
pub fn read_cue_and_data(read: &mut CountingReader) -> (r: Result<(Option<Vec<u32>>, Vec<u8>), WaveError>)
    requires
        old(read).wf(),
        old(read).offset >= 4,
    ensures
        final(read).inner@ == old(read).inner@,
        final(read).wf(),
        r matches Ok((c, d)) ==> tail_ok(opt_view(c), d@) && occurs_at(
            old(read).bytes(),
            old(read).offset as int,
            tail_bytes(opt_view(c), d@),
        ) && final(read).offset == old(read).offset + tail_bytes(opt_view(c), d@).len(),
        forall|c: Option<Seq<u32>>, d: Seq<u8>|
            tail_ok(c, d) && #[trigger] occurs_at(old(read).bytes(), old(read).offset as int, tail_bytes(c, d))
                ==> (r matches Ok((c2, d2)) && opt_view(c2) == c && d2@ == d),
        scan_faults_reported(old(read).bytes(), old(read).offset as int, r),
{
    let ghost b = read.bytes();
    let at1 = read.offset;
    let ghost present = exists|c: Option<Seq<u32>>, d: Seq<u8>|
        tail_ok(c, d) && occurs_at(b, at1 as int, tail_bytes(c, d));
    let ghost (c0, d0) = choose|c: Option<Seq<u32>>, d: Seq<u8>|
        tail_ok(c, d) && occurs_at(b, at1 as int, tail_bytes(c, d));
    proof {
        lemma_tags_distinct();
        if present {
            lemma_tail_parts(b, at1 as int, c0, d0);
        }
    }
    let (id1, size1) = match read_chunk_header(read) {
        Ok(h) => h,
        Err(e) => return Err(e),
    };
    let mut cue: Option<Vec<u32>> = None;
    let ghost mut p2: int = at1 as int;
    let data_size: u32;
    if id1 == cue_id() {
        assert(read.bytes() == b);
        proof {
            if present {
                assert(c0 is Some);
                assert(cue_body_at(b, read.offset as int, size1, c0->Some_0));
            }
        }
        let ghost cue_off = read.offset as int;
        let res_c = read_cue_chunk(read, size1);
        proof {
            assert forall|c: Seq<u32>| #[trigger] cue_chunk_at(b, at1 as int, c) implies (res_c matches Ok(
                v,
            ) && v@ == c) by {
                assert(cue_body_at(b, cue_off, size1, c));
            }
        }
        let c = match res_c {
            Ok(c) => c,
            Err(e) => return Err(e),
        };
        let at2 = read.offset;
        proof {
            p2 = at2 as int;
        }
        let (id2, size2) = match read_chunk_header(read) {
            Ok(h) => h,
            Err(e) => return Err(e),
        };
        if !(id2 == data_id()) {
            if id2 == fmt_id() {
                return Err(WaveError::DuplicateChunk { id: id2, at: at2 });
            } else if id2 == cue_id() {
                return Err(WaveError::DuplicateChunk { id: id2, at: at2 });
            } else {
                return Err(WaveError::UnknownChunk { id: id2, at: at2 });
            }
        }
        cue = Some(c);
        data_size = size2;
    } else if id1 == data_id() {
        data_size = size1;
    } else if id1 == fmt_id() {
        return Err(WaveError::DuplicateChunk { id: id1, at: at1 });
    } else {
        return Err(WaveError::UnknownChunk { id: id1, at: at1 });
    }
    assert(read.bytes() == b);
    let ghost data_off = read.offset as int;
    proof {
        if present {
            assert(occurs_at(b, data_off, d0 + pad(d0.len())));
            assert(d0.len() == data_size);
        }
    }
    let data = match read_data_chunk(read, data_size) {
        Ok(d) => d,
        Err(e) => return Err(e),
    };
    proof {
        let cv = opt_view(cue);
        if let Some(c) = cv {
            lemma_cue_chunk_parts(b, at1 as int, c);
            lemma_cue_records_len(c);
        }
        lemma_data_chunk_parts(b, p2, data@);
        lemma_occurs_at_concat(b, at1 as int, opt_cue_bytes(cv), data_chunk_bytes(data@));
        assert forall|c: Option<Seq<u32>>, d: Seq<u8>|
            tail_ok(c, d) && #[trigger] occurs_at(b, at1 as int, tail_bytes(c, d)) implies cv == c
            && data@ == d by {
            lemma_tail_parts(b, at1 as int, c, d);
            if let Some(cs) = c {
                assert(cue_body_at(b, at1 + 8, size1, cs));
            }
            assert(occurs_at(b, data_off, d + pad(d.len())));
        }
    }
    Ok((cue, data))
}

/// Facts on the encoding of `w` that the decoder relies on, part by part.
pub proof fn lemma_top_layout(b: Seq<u8>, w: WaveSpec, ext: bool)
    requires
        decodes_to(b, w),
        ext == (b == wav_bytes(w, true)),
    ensures
        b == wav_bytes(w, ext),
        wav_parts_at(b, w, ext),
        occurs_at(b, 0, riff_header(b.len() as int)),
        occurs_at(b, 12, fmt_chunk_bytes(w.fmt, ext)),
        occurs_at(b, 16, le32(fmt_size(ext))),
        tail_ok(w.cue, w.data),
        occurs_at(b, 12 + fmt_chunk_bytes(w.fmt, ext).len() as int, tail_bytes(w.cue, w.data)),
        b.len() == 12 + fmt_chunk_bytes(w.fmt, ext).len() + tail_bytes(w.cue, w.data).len(),
{
    lemma_wav_parts(b, w, ext);
    lemma_sizes(w, ext);
    lemma_fmt_parts(b, 12, w.fmt, ext);
    assert(riff_header(b.len() as int) =~= riff_tag() + le32(riff_size(w, ext) as u32) + wave_tag());
    let p1 = 12 + fmt_chunk_bytes(w.fmt, ext).len() as int;
    lemma_occurs_at_concat(b, p1, opt_cue_bytes(w.cue), data_chunk_bytes(w.data));
    if let Some(c) = w.cue {
        assert(cue_size(c.len()) <= b.len());
    }
}

/// Decodes a whole container of `total_size` bytes: RIFF header, `fmt ` chunk, an optional cue
/// chunk, then the data chunk, which must end the buffer.
#[verifier::spinoff_prover]
#[verifier::rlimit(100)]
pub fn read_wav_file(read: &mut CountingReader, total_size: u32) -> (r: Result<WaveFile, WaveError>)
    requires
        old(read).wf(),
        old(read).offset == 0,
        total_size == old(read).bytes().len(),
    ensures
        r matches Ok(w) ==> decodes_to(old(read).bytes(), w@),
        forall|w: WaveSpec| #[trigger] decodes_to(old(read).bytes(), w) ==> (r matches Ok(v) && v@ == w),
        forall|v: u32|
            total_size >= 8 && old(read).bytes().subrange(0, 4) == riff_tag() && #[trigger] le32(v)
                == old(read).bytes().subrange(4, 8) && v != total_size - 8 ==> r == Err::<WaveFile, WaveError>(
                WaveError::WrongValue {
                    field: Field::RiffChunkSize,
                    expected: (total_size - 8) as u32,
                    actual: v,
                    at: 4,
                },
            ),
        forall|v: u32|
            total_size >= 20 && occurs_at(old(read).bytes(), 0, riff_header(total_size as int))
                && old(read).bytes().subrange(12, 16) == fmt_tag() && #[trigger] le32(v) == old(
                read,
            ).bytes().subrange(16, 20) && v != 16 && v != 18 ==> r == Err::<WaveFile, WaveError>(
                WaveError::UnsupportedValue { field: Field::FmtChunkSize, actual: v, at: 16 },
            ),
        r is Ok ==> final(read).offset == total_size,
        forall|f: Format, ext: bool|
            total_size >= 12 && occurs_at(old(read).bytes(), 0, riff_header(total_size as int))
                && #[trigger] occurs_at(old(read).bytes(), 12, fmt_chunk_bytes(f, ext))
                ==> scan_faults_reported(old(read).bytes(), fmt_end(ext), r),
        forall|f: Format, ext: bool, c: Option<Seq<u32>>, d: Seq<u8>|
            #![trigger occurs_at(old(read).bytes(), 12, fmt_chunk_bytes(f, ext)), occurs_at(old(read).bytes(), fmt_end(ext), tail_bytes(c, d))]
            total_size >= 12 && occurs_at(old(read).bytes(), 0, riff_header(total_size as int))
                && occurs_at(old(read).bytes(), 12, fmt_chunk_bytes(f, ext)) && tail_ok(c, d)
                && occurs_at(old(read).bytes(), fmt_end(ext), tail_bytes(c, d)) && fmt_end(ext)
                + tail_bytes(c, d).len() != total_size ==> r == Err::<WaveFile, WaveError>(
                WaveError::WrongValue {
                    field: Field::BytesRead,
                    expected: total_size,
                    actual: (fmt_end(ext) + tail_bytes(c, d).len()) as u32,
                    at: (fmt_end(ext) + tail_bytes(c, d).len()) as u32,
                },
            ),
{
    let ghost b = read.bytes();
    let ghost present = exists|w: WaveSpec| decodes_to(b, w);
    let ghost w0 = choose|w: WaveSpec| decodes_to(b, w);
    let ghost ext0 = b == wav_bytes(w0, true);
    proof {
        lemma_tags_distinct();
        if present {
            lemma_top_layout(b, w0, ext0);
        }
    }
    match read_riff_chunk(read, total_size) {
        Ok(()) => {},
        Err(e) => return Err(e),
    }
    assert(read.bytes() == b);
    let ghost fmt_off = read.offset as int;
    let res_f = read_fmt_chunk(read);
    proof {
        assert forall|f: Format, e: bool| #[trigger] occurs_at(b, 12, fmt_chunk_bytes(f, e)) implies res_f
            == Ok::<Format, WaveError>(f) by {
            assert(occurs_at(b, fmt_off, fmt_chunk_bytes(f, e)));
        }
    }
    let fmt = match res_f {
        Ok(f) => f,
        Err(e) => return Err(e),
    };
    let ghost ext = read.offset == 38;
    let ghost p = read.offset as int;
    proof {
        lemma_fmt_parts(b, 12, fmt, ext);
        assert forall|f: Format, e: bool| #[trigger] occurs_at(b, 12, fmt_chunk_bytes(f, e)) implies fmt_end(
            e,
        ) == p by {
            lemma_fmt_parts(b, 12, f, e);
        }
    }
    assert(read.bytes() == b);
    let res_s = read_cue_and_data(read);
    proof {
        assert forall|c: Option<Seq<u32>>, d: Seq<u8>|
            tail_ok(c, d) && #[trigger] occurs_at(b, p, tail_bytes(c, d)) implies (res_s matches Ok(
            (c2, d2),
        ) && opt_view(c2) == c && d2@ == d && read.offset == p + tail_bytes(c, d).len()) by {
            assert(occurs_at(b, p, tail_bytes(c, d)));
        }
    }
    let (cue, data) = match res_s {
        Ok(t) => t,
        Err(e) => return Err(e),
    };
    if read.offset != total_size {
        return Err(
            WaveError::WrongValue {
                field: Field::BytesRead,
                expected: total_size,
                actual: read.offset,
                at: read.offset,
            },
        );
    }
    let wav = WaveFile { fmt, cue, data };
    proof {
        assert(opt_view(cue) == wav@.cue);
        lemma_sizes(wav@, ext);
        lemma_wav_parts(b, wav@, ext);
        lemma_occurs_at_concat(
            b,
            12 + fmt_chunk_bytes(fmt, ext).len() as int,
            opt_cue_bytes(wav@.cue),
            data_chunk_bytes(wav@.data),
        );
        assert(riff_tag() + le32(riff_size(wav@, ext) as u32) + wave_tag() =~= riff_header(
            b.len() as int,
        ));
        assert forall|w: WaveSpec| #[trigger] decodes_to(b, w) implies wav@ == w by {
            let e = b == wav_bytes(w, true);
            lemma_top_layout(b, w, e);
        }
    }
    Ok(wav)
}

/// Decodes a container held whole in `buf`.
pub fn read(buf: &[u8]) -> (r: Result<WaveFile, WaveError>)
    ensures
        buf@.len() > u32::MAX ==> r == Err::<WaveFile, WaveError>(WaveError::FileTooLarge),
        r matches Ok(w) ==> decodes_to(buf@, w@),
        forall|w: WaveSpec| #[trigger] decodes_to(buf@, w) ==> (r matches Ok(v) && v@ == w),
        forall|v: u32|
            8 <= buf@.len() <= u32::MAX && buf@.subrange(0, 4) == riff_tag() && #[trigger] le32(v)
                == buf@.subrange(4, 8) && v != buf@.len() - 8 ==> r == Err::<WaveFile, WaveError>(
                WaveError::WrongValue {
                    field: Field::RiffChunkSize,
                    expected: (buf@.len() - 8) as u32,
                    actual: v,
                    at: 4,
                },
            ),
        forall|v: u32|
            20 <= buf@.len() <= u32::MAX && occurs_at(buf@, 0, riff_header(buf@.len() as int))
                && buf@.subrange(12, 16) == fmt_tag() && #[trigger] le32(v) == buf@.subrange(16, 20) && v != 16 && v != 18 ==> r == Err::<WaveFile, WaveError>(
                WaveError::UnsupportedValue { field: Field::FmtChunkSize, actual: v, at: 16 },
            ),
        forall|f: Format, ext: bool|
            12 <= buf@.len() <= u32::MAX && occurs_at(buf@, 0, riff_header(buf@.len() as int))
                && #[trigger] occurs_at(buf@, 12, fmt_chunk_bytes(f, ext)) ==> scan_faults_reported(
                buf@,
                fmt_end(ext),
                r,
            ),
        forall|f: Format, ext: bool, c: Option<Seq<u32>>, d: Seq<u8>|
            #![trigger occurs_at(buf@, 12, fmt_chunk_bytes(f, ext)), occurs_at(buf@, fmt_end(ext), tail_bytes(c, d))]
            12 <= buf@.len() <= u32::MAX && occurs_at(buf@, 0, riff_header(buf@.len() as int))
                && occurs_at(buf@, 12, fmt_chunk_bytes(f, ext)) && tail_ok(c, d) && occurs_at(
                buf@,
                fmt_end(ext),
                tail_bytes(c, d),
            ) && fmt_end(ext) + tail_bytes(c, d).len() != buf@.len() ==> r == Err::<WaveFile, WaveError>(
                WaveError::WrongValue {
                    field: Field::BytesRead,
                    expected: buf@.len() as u32,
                    actual: (fmt_end(ext) + tail_bytes(c, d).len()) as u32,
                    at: (fmt_end(ext) + tail_bytes(c, d).len()) as u32,
                },
            ),
{
    if buf.len() > 0xffff_ffff {
        return Err(WaveError::FileTooLarge);
    }
    let total_size = buf.len() as u32;
    let mut read = CountingReader::new(buf);
    assert(read.bytes() == buf@);
    read_wav_file(&mut read, total_size)
}

/// A buffer whose RIFF size field differs from its length minus eight, by any amount, is the
/// encoding of no container, so `read` rejects it.
pub proof fn lemma_riff_size_mismatch_rejected(b: Seq<u8>, v: u32, w: WaveSpec)
    requires
        b.len() >= 8,
        le32(v) == b.subrange(4, 8),
        v != b.len() - 8,
    ensures
        !decodes_to(b, w),
{
    if decodes_to(b, w) {
        let ext = b == wav_bytes(w, true);
        lemma_top_layout(b, w, ext);
        lemma_occurs_sub(b, 0, riff_header(b.len() as int), 4, 8);
        assert(riff_header(b.len() as int).subrange(4, 8) =~= le32((b.len() - 8) as u32));
        lemma_le32_injective(v, (b.len() - 8) as u32);
    }
}

/// Decoding a buffer and encoding the result gives the buffer back, byte for byte, whenever
/// its `fmt ` chunk has size 16; the 18-byte form comes back in the 16-byte form.
pub proof fn lemma_reencode_exact(b: Seq<u8>, w: WaveSpec)
    requires
        decodes_to(b, w),
        b.subrange(16, 20) == le32(16),
    ensures
        encodable(w),
        wav_bytes(w, false) == b,
{
    let ext = b == wav_bytes(w, true);
    lemma_top_layout(b, w, ext);
    lemma_tags_distinct();
    lemma_sizes(w, false);
    assert(!ext);
}

} // verus!

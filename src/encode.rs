use crate::bytes::{le16, le32};
use crate::chunk_id::ChunkId;
use crate::error::WaveError;
use crate::format::Format;
use crate::wave::{
    cue_id, cue_point_bytes, cue_records, cue_size, cue_tag, data_id, data_tag, encodable,
    fmt_chunk_bytes, fmt_id, lemma_sizes, opt_cue_bytes, pad, riff_id, riff_size, riff_tag,
    wav_bytes, wave_id, wave_tag, WaveFile, WaveSpec, WAVE_FORMAT_PCM,
};
use crate::writer::CountingWriter;
use vstd::prelude::*;

verus! {

broadcast use crate::bytes::group_le_len;

/// The cue chunk alone would push the RIFF size past 32 bits.
pub open spec fn cue_overflows(w: WaveSpec) -> bool {
    match w.cue {
        Some(c) => 44 + cue_size(c.len()) > u32::MAX,
        None => false,
    }
}

/// The error that encoding a non-encodable `w` reports.
pub open spec fn size_error(w: WaveSpec) -> WaveError {
    if cue_overflows(w) {
        WaveError::TooManyCuePoints
    } else if w.data.len() > u32::MAX {
        WaveError::DataTooLarge
    } else {
        WaveError::FileTooLarge
    }
}

pub open spec fn cue_size_of(w: WaveSpec) -> int {
    match w.cue {
        Some(c) => cue_size(c.len()),
        None => 0,
    }
}

/// The RIFF chunk size, the cue chunk size (0 without cue points) and the data size of `wav`.
pub fn size_wav_file(wav: &WaveFile) -> (r: Result<(u32, u32, u32), WaveError>)
    ensures
        match r {
            Ok((total, cue, data)) => encodable(wav@) && total == riff_size(wav@, false) && cue
                == cue_size_of(wav@) && data == wav@.data.len(),
            Err(e) => !encodable(wav@) && e == size_error(wav@),
        },
{
    proof {
        lemma_sizes(wav@, false);
    }
    let riff_size: u64 = 4;
    let header_size: u64 = 8;
    let fmt_size: u64 = header_size + 16;
    let mut chunk_size: u64 = riff_size + fmt_size + header_size;
    let cue_size: u64 = match &wav.cue {
        Some(cue) => {
            if cue.len() > 0xffff_ffff {
                return Err(WaveError::TooManyCuePoints);
            }
            let cue_size: u64 = 24 * (cue.len() as u64) + 4;
            chunk_size = chunk_size + header_size + cue_size;
            if chunk_size > 0xffff_ffff {
                return Err(WaveError::TooManyCuePoints);
            }
            cue_size
        },
        None => 0,
    };
    if wav.data.len() > 0xffff_ffff {
        return Err(WaveError::DataTooLarge);
    }
    let data_size: u64 = wav.data.len() as u64;
    let data_pad: u64 = data_size % 2;
    let chunk_size: u64 = chunk_size + data_size + data_pad;
    if chunk_size > 0xffff_ffff {
        return Err(WaveError::FileTooLarge);
    }
    if (chunk_size as u32) as usize > usize::MAX - 8 {
        return Err(WaveError::FileTooLarge);
    }
    Ok((chunk_size as u32, cue_size as u32, data_size as u32))
}

pub fn write_chunk_header(write: &mut CountingWriter, chunk_id: ChunkId, size: u32)
    requires
        old(write).offset + 8 <= usize::MAX,
    ensures
        final(write)@ == old(write)@ + chunk_id@ + le32(size),
        final(write).offset == old(write).offset + 8,
{
    let b = chunk_id.bytes();
    write.write_all(&b);
    write.write_u32(size);
}

pub fn write_riff_chunk(write: &mut CountingWriter, size: u32)
    requires
        old(write).offset + 12 <= usize::MAX,
    ensures
        final(write)@ == old(write)@ + riff_tag() + le32(size) + wave_tag(),
        final(write).offset == old(write).offset + 12,
{
    write_chunk_header(write, riff_id(), size);
    let b = wave_id().bytes();
    write.write_all(&b);
}

pub fn write_fmt_chunk(write: &mut CountingWriter, fmt: &Format)
    requires
        old(write).offset + 24 <= usize::MAX,
    ensures
        final(write)@ == old(write)@ + fmt_chunk_bytes(*fmt, false),
        final(write).offset == old(write).offset + 24,
{
    write_chunk_header(write, fmt_id(), 16);
    let block_align = fmt.bits_per_sample.block_align(fmt.channels);
    let samples_per_sec = fmt.samples_per_sec.as_u32();
    assert(block_align <= 2 && samples_per_sec <= 44100);
    assert(samples_per_sec * block_align <= 88200) by (nonlinear_arith)
        requires
            block_align <= 2,
            samples_per_sec <= 44100,
    ;
    let avg_bytes_per_sec = samples_per_sec * block_align as u32;
    write.write_u16(WAVE_FORMAT_PCM);
    write.write_u16(fmt.channels.as_u16());
    write.write_u32(samples_per_sec);
    write.write_u32(avg_bytes_per_sec);
    write.write_u16(block_align);
    write.write_u16(fmt.bits_per_sample.as_u16());
    assert(final(write)@ =~= old(write)@ + fmt_chunk_bytes(*fmt, false));
}

pub fn write_cue_point(write: &mut CountingWriter, index: u32, position: u32)
    requires
        old(write).offset + 24 <= usize::MAX,
    ensures
        final(write)@ == old(write)@ + cue_point_bytes(index, position),
        final(write).offset == old(write).offset + 24,
{
    write.write_u32(index);
    write.write_u32(position);
    let b = data_id().bytes();
    write.write_all(&b);
    write.write_u32(0);
    write.write_u32(0);
    write.write_u32(position);
    assert(final(write)@ =~= old(write)@ + cue_point_bytes(index, position));
}

pub fn write_cue_chunk(write: &mut CountingWriter, cue: &[u32], size: u32)
    requires
        cue@.len() <= u32::MAX,
        old(write).offset + 12 + 24 * cue@.len() <= usize::MAX,
    ensures
        final(write)@ == old(write)@ + cue_tag() + le32(size) + le32(cue@.len() as u32)
            + cue_records(cue@),
        final(write).offset == old(write).offset + 12 + 24 * cue@.len(),
{
    write_chunk_header(write, cue_id(), size);
    let cue_point_count = cue.len() as u32;
    write.write_u32(cue_point_count);
    let ghost start = write@;
    let mut i: usize = 0;
    while i < cue.len()
        invariant
            0 <= i <= cue@.len(),
            cue@.len() <= u32::MAX,
            old(write).offset + 12 + 24 * cue@.len() <= usize::MAX,
            write.offset == old(write).offset + 12 + 24 * i,
            write@ == start + cue_records(cue@.subrange(0, i as int)),
        decreases cue@.len() - i,
    {
        write_cue_point(write, (i + 1) as u32, cue[i]);
        assert(cue@.subrange(0, i + 1).drop_last() =~= cue@.subrange(0, i as int));
        assert(write@ =~= start + cue_records(cue@.subrange(0, i + 1)));
        i = i + 1;
    }
    assert(cue@.subrange(0, cue@.len() as int) =~= cue@);
}

pub fn write_data_chunk(write: &mut CountingWriter, data: &[u8], size: u32)
    requires
        old(write).offset + 8 + data@.len() + size % 2 <= usize::MAX,
    ensures
        final(write)@ == old(write)@ + data_tag() + le32(size) + data@ + pad(size as nat),
        final(write).offset == old(write).offset + 8 + data@.len() + (size % 2),
{
    write_chunk_header(write, data_id(), size);
    write.write_all(data);
    assert((size & 1) == 1 <==> size % 2 == 1) by (bit_vector);
    if (size & 1) == 1 {
        write.write_u8(0);
    }
    assert(final(write)@ =~= old(write)@ + data_tag() + le32(size) + data@ + pad(size as nat));
}

pub fn write_wav_file(write: &mut CountingWriter, wav: &WaveFile) -> (r: Result<(), WaveError>)
    requires
        encodable(wav@) ==> old(write).offset + riff_size(wav@, false) + 8 <= usize::MAX,
    ensures
        match r {
            Ok(()) => encodable(wav@) && final(write)@ == old(write)@ + wav_bytes(wav@, false)
                && final(write).offset == old(write).offset + wav_bytes(wav@, false).len(),
            Err(e) => !encodable(wav@) && e == size_error(wav@) && final(write)@ == old(write)@
                && final(write).offset == old(write).offset,
        },
{
    let (total_size, cue_size, data_size) = match size_wav_file(wav) {
        Ok(sizes) => sizes,
        Err(e) => return Err(e),
    };
    proof {
        lemma_sizes(wav@, false);
    }
    write_riff_chunk(write, total_size);
    write_fmt_chunk(write, &wav.fmt);
    let ghost mid = write@;
    match &wav.cue {
        Some(cue) => {
            write_cue_chunk(write, cue.as_slice(), cue_size);
        },
        None => {},
    }
    assert(write@ == mid + opt_cue_bytes(wav@.cue));
    assert(write.offset == old(write).offset + 12 + 24 + opt_cue_bytes(wav@.cue).len());
    write_data_chunk(write, wav.data.as_slice(), data_size);
    assert(final(write)@ =~= old(write)@ + wav_bytes(wav@, false));
    Ok(())
}

/// The container bytes of `wav`, with a 16-byte `fmt ` chunk and derived header fields.
pub fn write(wav: &WaveFile) -> (r: Result<Vec<u8>, WaveError>)
    ensures
        match r {
            Ok(b) => encodable(wav@) && b@ == wav_bytes(wav@, false),
            Err(e) => !encodable(wav@) && e == size_error(wav@),
        },
{
    let mut write = CountingWriter::new(Vec::new());
    let r = write_wav_file(&mut write, wav);
    match r {
        Ok(()) => {
            let out = write.into_inner();
            assert(out@ =~= wav_bytes(wav@, false));
            Ok(out)
        },
        Err(e) => Err(e),
    }
}

/// The encoding of an encodable container is eight bytes longer than the RIFF size, that size
/// is even, and the size of a cue chunk is a multiple of four.
pub proof fn lemma_encoded_len(w: WaveSpec)
    requires
        encodable(w),
    ensures
        wav_bytes(w, false).len() == riff_size(w, false) + 8,
        riff_size(w, false) % 2 == 0,
        cue_size_of(w) % 4 == 0,
{
    lemma_sizes(w, false);
}

} // verus!

use crate::bytes::{le16, le32};
use crate::chunk_id::ChunkId;
use crate::format::Format;
use vstd::prelude::*;

verus! {

broadcast use crate::bytes::group_le_len;

/// A decoded container: format, cue sample offsets if a cue chunk was present, audio bytes.
pub struct WaveFile {
    pub fmt: Format,
    pub cue: Option<Vec<u32>>,
    pub data: Vec<u8>,
}

/// The mathematical value of a `WaveFile`.
pub struct WaveSpec {
    pub fmt: Format,
    pub cue: Option<Seq<u32>>,
    pub data: Seq<u8>,
}

impl View for WaveFile {
    type V = WaveSpec;

    open spec fn view(&self) -> WaveSpec {
        WaveSpec {
            fmt: self.fmt,
            cue: match self.cue {
                Some(c) => Some(c@),
                None => None,
            },
            data: self.data@,
        }
    }
}

pub open spec fn riff_tag() -> Seq<u8> {
    seq![0x52u8, 0x49u8, 0x46u8, 0x46u8]
}

pub open spec fn wave_tag() -> Seq<u8> {
    seq![0x57u8, 0x41u8, 0x56u8, 0x45u8]
}

pub open spec fn fmt_tag() -> Seq<u8> {
    seq![0x66u8, 0x6du8, 0x74u8, 0x20u8]
}

pub open spec fn cue_tag() -> Seq<u8> {
    seq![0x63u8, 0x75u8, 0x65u8, 0x20u8]
}

pub open spec fn data_tag() -> Seq<u8> {
    seq![0x64u8, 0x61u8, 0x74u8, 0x61u8]
}

pub fn riff_id() -> (r: ChunkId)
    ensures
        r@ == riff_tag(),
{
    let r = ChunkId::new([0x52, 0x49, 0x46, 0x46]);
    assert(r@ =~= riff_tag());
    r
}

pub fn wave_id() -> (r: ChunkId)
    ensures
        r@ == wave_tag(),
{
    let r = ChunkId::new([0x57, 0x41, 0x56, 0x45]);
    assert(r@ =~= wave_tag());
    r
}

pub fn fmt_id() -> (r: ChunkId)
    ensures
        r@ == fmt_tag(),
{
    let r = ChunkId::new([0x66, 0x6d, 0x74, 0x20]);
    assert(r@ =~= fmt_tag());
    r
}

pub fn cue_id() -> (r: ChunkId)
    ensures
        r@ == cue_tag(),
{
    let r = ChunkId::new([0x63, 0x75, 0x65, 0x20]);
    assert(r@ =~= cue_tag());
    r
}

pub fn data_id() -> (r: ChunkId)
    ensures
        r@ == data_tag(),
{
    let r = ChunkId::new([0x64, 0x61, 0x74, 0x61]);
    assert(r@ =~= data_tag());
    r
}

/// The format tag of uncompressed PCM.
pub const WAVE_FORMAT_PCM: u16 = 1;

/// The sixteen bytes of a PCM format descriptor.
pub open spec fn fmt_body(f: Format) -> Seq<u8> {
    le16(1) + le16(f.channels.value()) + le32(f.samples_per_sec.value()) + le32(
        f.avg_bytes_per_sec(),
    ) + le16(f.block_align()) + le16(f.bits_per_sample.value())
}

/// The size field of a `fmt ` chunk: 16, or 18 with a zero-length extension.
pub open spec fn fmt_size(ext: bool) -> u32 {
    if ext {
        18
    } else {
        16
    }
}

pub open spec fn fmt_ext(ext: bool) -> Seq<u8> {
    if ext {
        le16(0)
    } else {
        Seq::empty()
    }
}

/// A whole `fmt ` chunk.
pub open spec fn fmt_chunk_bytes(f: Format, ext: bool) -> Seq<u8> {
    fmt_tag() + le32(fmt_size(ext)) + fmt_body(f) + fmt_ext(ext)
}

/// One cue point record: id, position, `data`, chunk start 0, block start 0, sample start.
pub open spec fn cue_point_bytes(index: u32, position: u32) -> Seq<u8> {
    le32(index) + le32(position) + data_tag() + le32(0) + le32(0) + le32(position)
}

/// The cue point records of `cue`, numbered from 1.
pub open spec fn cue_records(cue: Seq<u32>) -> Seq<u8>
    decreases cue.len(),
{
    if cue.len() == 0 {
        Seq::empty()
    } else {
        cue_records(cue.drop_last()) + cue_point_bytes(cue.len() as u32, cue.last())
    }
}

/// The size field of a cue chunk holding `n` cue points.
pub open spec fn cue_size(n: nat) -> int {
    4 + 24 * n as int
}

pub open spec fn cue_chunk_bytes(cue: Seq<u32>) -> Seq<u8> {
    cue_tag() + le32(cue_size(cue.len()) as u32) + le32(cue.len() as u32) + cue_records(cue)
}

pub open spec fn opt_cue_bytes(cue: Option<Seq<u32>>) -> Seq<u8> {
    match cue {
        Some(c) => cue_chunk_bytes(c),
        None => Seq::empty(),
    }
}

/// One zero byte after a payload of odd length.
pub open spec fn pad(n: nat) -> Seq<u8> {
    if n % 2 == 1 {
        seq![0u8]
    } else {
        Seq::empty()
    }
}

pub open spec fn data_chunk_bytes(d: Seq<u8>) -> Seq<u8> {
    data_tag() + le32(d.len() as u32) + d + pad(d.len())
}

/// The RIFF chunk size: everything after the RIFF size field.
pub open spec fn riff_size(w: WaveSpec, ext: bool) -> int {
    4 + fmt_chunk_bytes(w.fmt, ext).len() as int + opt_cue_bytes(w.cue).len() + data_chunk_bytes(
        w.data,
    ).len()
}

/// The container bytes of `w`; `ext` selects the 18-byte `fmt ` chunk.
pub open spec fn wav_bytes(w: WaveSpec, ext: bool) -> Seq<u8> {
    riff_tag() + le32(riff_size(w, ext) as u32) + wave_tag() + fmt_chunk_bytes(w.fmt, ext)
        + opt_cue_bytes(w.cue) + data_chunk_bytes(w.data)
}

/// Every size field of `w`'s encoding fits in 32 bits, and the whole encoding in memory.
pub open spec fn encodable(w: WaveSpec) -> bool {
    riff_size(w, false) <= u32::MAX && riff_size(w, false) + 8 <= usize::MAX
}

/// `b` is the encoding of `w` with the 16- or the 18-byte `fmt ` chunk, and its length fits in
/// 32 bits; a cue chunk, if present, holds at least one cue point.
pub open spec fn decodes_to(b: Seq<u8>, w: WaveSpec) -> bool {
    b.len() <= u32::MAX && (match w.cue {
        Some(c) => c.len() >= 1,
        None => true,
    }) && (b == wav_bytes(w, false) || b == wav_bytes(w, true))
}

pub proof fn lemma_cue_records_len(cue: Seq<u32>)
    ensures
        cue_records(cue).len() == 24 * cue.len(),
    decreases cue.len(),
{
    if cue.len() > 0 {
        lemma_cue_records_len(cue.drop_last());
    }
}

pub proof fn lemma_sizes(w: WaveSpec, ext: bool)
    ensures
        fmt_chunk_bytes(w.fmt, ext).len() == if ext { 26int } else { 24int },
        opt_cue_bytes(w.cue).len() == match w.cue {
            Some(c) => 8 + cue_size(c.len()),
            None => 0,
        },
        data_chunk_bytes(w.data).len() == 8 + w.data.len() + w.data.len() % 2,
        wav_bytes(w, ext).len() == riff_size(w, ext) + 8,
{
    if let Some(c) = w.cue {
        lemma_cue_records_len(c);
    }
}

} // verus!

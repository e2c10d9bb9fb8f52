use crate::error::{TimestampError, WaveError};
use crate::format::{BitsPerSample, SamplesPerSec};
use crate::wave::WaveFile;
use vstd::arithmetic::power2::{lemma2_to64, lemma_pow2_adds, lemma_pow2_strictly_increases, pow2};
use vstd::bits::{lemma_u64_shl_is_mul, lemma_u64_shr_is_div};
use vstd::prelude::*;

verus! {

/// Cue points as sample offsets, with the sample rate that gives them meaning.
pub struct SamplePoints {
    pub samples_per_sec: SamplesPerSec,
    pub sample_starts: Vec<u32>,
}

/// The cue points of `wav` with its sample rate; a file without a cue chunk has none to give.
pub fn cue_from_wav(wav: &WaveFile) -> (r: Result<SamplePoints, WaveError>)
    ensures
        wav.cue is None <==> r == Err::<SamplePoints, WaveError>(WaveError::NoCuePoints),
        wav.cue is Some <==> r is Ok,
        r matches Ok(p) ==> wav.cue matches Some(c) && p.sample_starts@ == c@
            && p.samples_per_sec == wav.fmt.samples_per_sec,
{
    match &wav.cue {
        Some(c) => Ok(SamplePoints { samples_per_sec: wav.fmt.samples_per_sec, sample_starts: c.clone() }),
        None => Err(WaveError::NoCuePoints),
    }
}

/// Whole samples in `data` at the given depth.
pub open spec fn sample_count_of(data_len: nat, bits: BitsPerSample) -> nat {
    data_len / bits.bytes() as nat
}

/// The 1-based numbers of the cue points of `cue` that lie beyond `count`, in order.
pub open spec fn past_end(cue: Seq<u32>, count: nat) -> Seq<usize>
    decreases cue.len(),
{
    if cue.len() == 0 {
        Seq::empty()
    } else {
        past_end(cue.drop_last(), count) + if cue.last() > count {
            seq![cue.len() as usize]
        } else {
            Seq::empty()
        }
    }
}

/// The cue points of `wav` whose sample start lies beyond the last whole sample of its data.
/// They are kept as they are; callers may warn about them.
pub fn cue_points_past_end(wav: &WaveFile) -> (r: Vec<usize>)
    ensures
        r@ == match wav.cue {
            Some(c) => past_end(c@, sample_count_of(wav.data@.len(), wav.fmt.bits_per_sample)),
            None => Seq::empty(),
        },
{
    let bytes_per_sample: usize = match wav.fmt.bits_per_sample {
        BitsPerSample::Eight => 1,
        BitsPerSample::Sixteen => 2,
    };
    let sample_count = wav.data.len() / bytes_per_sample;
    let mut out: Vec<usize> = Vec::new();
    match &wav.cue {
        Some(c) => {
            let mut i: usize = 0;
            while i < c.len()
                invariant
                    0 <= i <= c@.len(),
                    sample_count == sample_count_of(wav.data@.len(), wav.fmt.bits_per_sample),
                    out@ == past_end(c@.subrange(0, i as int), sample_count as nat),
                decreases c@.len() - i,
            {
                assert(c@.subrange(0, i + 1).drop_last() =~= c@.subrange(0, i as int));
                if c[i] as usize > sample_count {
                    out.push(i + 1);
                }
                i = i + 1;
            }
            assert(c@.subrange(0, c@.len() as int) =~= c@);
        },
        None => {},
    }
    out
}

/// The biased exponent field of a single-precision bit pattern.
pub open spec fn f32_exponent(bits: u32) -> u32 {
    (bits / 0x80_0000 % 0x100) as u32
}

pub open spec fn f32_fraction(bits: u32) -> u32 {
    (bits % 0x80_0000) as u32
}

pub open spec fn f32_is_negative(bits: u32) -> bool {
    bits >= 0x8000_0000
}

pub open spec fn f32_is_nan(bits: u32) -> bool {
    f32_exponent(bits) == 0xff && f32_fraction(bits) != 0
}

pub open spec fn f32_is_infinite(bits: u32) -> bool {
    f32_exponent(bits) == 0xff && f32_fraction(bits) == 0
}

/// Positive or negative zero.
pub open spec fn f32_is_zero(bits: u32) -> bool {
    f32_exponent(bits) == 0 && f32_fraction(bits) == 0
}

/// The magnitude of a finite value is `significand * 2^(exponent - 150)`.
pub open spec fn f32_significand(bits: u32) -> nat {
    if f32_exponent(bits) == 0 {
        f32_fraction(bits) as nat
    } else {
        (f32_fraction(bits) + 0x80_0000) as nat
    }
}

pub open spec fn f32_scale(bits: u32) -> int {
    if f32_exponent(bits) == 0 {
        1
    } else {
        f32_exponent(bits) as int
    }
}

/// The magnitude of a finite value rounded to the nearest integer, halves away from zero.
pub open spec fn f32_rounded_magnitude(bits: u32) -> nat {
    let e = f32_scale(bits);
    if e >= 150 {
        f32_significand(bits) * pow2((e - 150) as nat)
    } else {
        (f32_significand(bits) + pow2((149 - e) as nat)) / pow2((150 - e) as nat)
    }
}

/// The sample offset for a timestamp with bit pattern `ts`, whose product with the sample rate
/// has bit pattern `scaled`. Zero is offset 0; infinite, NaN and negative timestamps are
/// rejected, and so is a rounded product that does not fit 32 bits.
pub open spec fn sample_of(ts: u32, scaled: u32) -> Result<u32, TimestampError> {
    if f32_is_infinite(ts) {
        Err(TimestampError::Infinite)
    } else if f32_is_nan(ts) {
        Err(TimestampError::NotANumber)
    } else if f32_is_zero(ts) {
        Ok(0)
    } else if f32_is_negative(ts) {
        Err(TimestampError::Negative)
    } else if f32_is_nan(scaled) {
        Err(TimestampError::NotANumber)
    } else if f32_is_negative(scaled) {
        Err(TimestampError::Negative)
    } else if f32_is_infinite(scaled) {
        Err(TimestampError::TooLarge)
    } else if f32_rounded_magnitude(scaled) > u32::MAX {
        Err(TimestampError::TooLarge)
    } else {
        Ok(f32_rounded_magnitude(scaled) as u32)
    }
}

/// A zero timestamp maps to offset 0; an infinite, NaN or negative one is rejected, and so is
/// one whose rounded product with the sample rate exceeds the 32-bit range.
pub proof fn lemma_timestamp_domain(ts: u32, scaled: u32)
    ensures
        f32_is_zero(ts) ==> sample_of(ts, scaled) == Ok::<u32, TimestampError>(0),
        f32_is_nan(ts) ==> sample_of(ts, scaled) == Err::<u32, TimestampError>(
            TimestampError::NotANumber,
        ),
        f32_is_infinite(ts) ==> sample_of(ts, scaled) == Err::<u32, TimestampError>(
            TimestampError::Infinite,
        ),
        f32_is_negative(ts) && !f32_is_zero(ts) ==> sample_of(ts, scaled) is Err,
        !f32_is_nan(ts) && !f32_is_infinite(ts) && !f32_is_zero(ts) && !f32_is_nan(scaled)
            && f32_exponent(scaled) != 0xff && f32_rounded_magnitude(scaled) > u32::MAX
            ==> sample_of(ts, scaled) is Err,
        sample_of(ts, scaled) matches Ok(v) ==> f32_is_zero(ts) || v == f32_rounded_magnitude(
            scaled,
        ),
{
}

/// The rounded magnitude of the finite value with bit pattern `bits`, if it fits 32 bits.
fn rounded_magnitude(bits: u32) -> (r: Option<u32>)
    requires
        f32_exponent(bits) != 0xff,
    ensures
        r == if f32_rounded_magnitude(bits) <= u32::MAX {
            Some(f32_rounded_magnitude(bits) as u32)
        } else {
            None::<u32>
        },
{
    proof {
        lemma2_to64();
    }
    let exponent: u32 = bits / 0x80_0000 % 0x100;
    let fraction: u32 = bits % 0x80_0000;
    let significand: u64 = if exponent == 0 {
        fraction as u64
    } else {
        fraction as u64 + 0x80_0000
    };
    let e: u32 = if exponent == 0 {
        1
    } else {
        exponent
    };
    assert(significand == f32_significand(bits) && e == f32_scale(bits));
    if e >= 150 {
        let sh: u64 = (e - 150) as u64;
        if sh >= 9 {
            proof {
                if sh > 9 {
                    lemma_pow2_strictly_increases(9, sh as nat);
                }
                assert(significand >= 0x80_0000);
                assert(significand * pow2(sh as nat) > u32::MAX) by (nonlinear_arith)
                    requires
                        significand >= 0x80_0000,
                        pow2(sh as nat) >= 0x200,
                ;
            }
            return None;
        }
        proof {
            assert(pow2(sh as nat) <= 0x100) by {
                if sh < 8 {
                    lemma_pow2_strictly_increases(sh as nat, 8);
                }
            }
            assert(significand * pow2(sh as nat) <= u64::MAX) by (nonlinear_arith)
                requires
                    significand < 0x100_0000,
                    pow2(sh as nat) <= 0x100,
            ;
            lemma_u64_shl_is_mul(significand, sh);
        }
        let v: u64 = significand << sh;
        if v > 0xffff_ffff {
            return None;
        }
        Some(v as u32)
    } else {
        let s: u64 = (150 - e) as u64;
        if s >= 26 {
            proof {
                let p: int = pow2((149 - e) as nat) as int;
                if 149 - e > 25 {
                    lemma_pow2_strictly_increases(25, (149 - e) as nat);
                }
                lemma_pow2_adds((149 - e) as nat, 1);
                assert(pow2((150 - e) as nat) == p * 2);
                assert((significand as int + p) / (p * 2) == 0) by (nonlinear_arith)
                    requires
                        significand < 0x100_0000,
                        p >= 0x200_0000,
                ;
            }
            return Some(0);
        }
        proof {
            if s - 1 < 25 {
                lemma_pow2_strictly_increases((s - 1) as nat, 25);
            }
            assert(1 * pow2((s - 1) as nat) <= u64::MAX);
            lemma_u64_shl_is_mul(1u64, (s - 1) as u64);
        }
        let half: u64 = 1u64 << (s - 1);
        proof {
            lemma_u64_shr_is_div((significand + half) as u64, s);
            lemma_pow2_adds((s - 1) as nat, 1);
            assert(pow2(s as nat) == half * 2);
            assert((significand + half) / (half * 2) <= 0xffff_ffff) by (nonlinear_arith)
                requires
                    significand < 0x100_0000,
                    half >= 1,
            ;
        }
        let v: u64 = (significand + half) >> s;
        Some(v as u32)
    }
}

/// The sample offset for one timestamp; see `sample_of`.
pub fn sample_from_timestamp(ts_bits: u32, scaled_bits: u32) -> (r: Result<u32, TimestampError>)
    ensures
        r == sample_of(ts_bits, scaled_bits),
{
    let exponent: u32 = ts_bits / 0x80_0000 % 0x100;
    let fraction: u32 = ts_bits % 0x80_0000;
    if exponent == 0xff && fraction == 0 {
        return Err(TimestampError::Infinite);
    }
    if exponent == 0xff {
        return Err(TimestampError::NotANumber);
    }
    if exponent == 0 && fraction == 0 {
        return Ok(0);
    }
    if ts_bits >= 0x8000_0000 {
        return Err(TimestampError::Negative);
    }
    let scaled_exponent: u32 = scaled_bits / 0x80_0000 % 0x100;
    let scaled_fraction: u32 = scaled_bits % 0x80_0000;
    if scaled_exponent == 0xff && scaled_fraction != 0 {
        return Err(TimestampError::NotANumber);
    }
    if scaled_bits >= 0x8000_0000 {
        return Err(TimestampError::Negative);
    }
    if scaled_exponent == 0xff {
        return Err(TimestampError::TooLarge);
    }
    match rounded_magnitude(scaled_bits) {
        Some(v) => Ok(v),
        None => Err(TimestampError::TooLarge),
    }
}

/// A timestamp in seconds and its product with a sample rate, both as single-precision bit
/// patterns.
#[derive(Clone, Copy)]
pub struct ScaledTimestamp {
    pub timestamp_bits: u32,
    pub scaled_bits: u32,
}

pub open spec fn sample_of_stamp(s: ScaledTimestamp) -> Result<u32, TimestampError> {
    sample_of(s.timestamp_bits, s.scaled_bits)
}

/// Replaces the cue points of `wav` with the offsets of `stamps`, all or none: on the first
/// timestamp that cannot be converted, `wav` is left as it was.
pub fn cue_to_wav(wav: &mut WaveFile, stamps: &Vec<ScaledTimestamp>) -> (r: Result<(), WaveError>)
    ensures
        final(wav).fmt == old(wav).fmt,
        final(wav).data@ == old(wav).data@,
        (forall|i: int| 0 <= i < stamps@.len() ==> (#[trigger] sample_of_stamp(stamps@[i])) is Ok)
            <==> r is Ok,
        r is Ok ==> (final(wav).cue matches Some(c) && c@.len() == stamps@.len() && forall|i: int|
            0 <= i < stamps@.len() ==> sample_of_stamp(stamps@[i]) == Ok::<u32, TimestampError>(
                #[trigger] c@[i],
            )),
        r matches Err(e) ==> final(wav)@ == old(wav)@ && exists|i: int|
            0 <= i < stamps@.len() && (forall|j: int|
                0 <= j < i ==> (#[trigger] sample_of_stamp(stamps@[j])) is Ok) && (
            #[trigger] sample_of_stamp(stamps@[i]) matches Err(k) && e == (
            WaveError::InvalidTimestamp { index: i as usize, kind: k })),
{
    let mut starts: Vec<u32> = Vec::new();
    let mut i: usize = 0;
    while i < stamps.len()
        invariant
            0 <= i <= stamps@.len(),
            starts@.len() == i,
            forall|j: int|
                0 <= j < i ==> sample_of_stamp(stamps@[j]) == Ok::<u32, TimestampError>(
                    #[trigger] starts@[j],
                ),
        decreases stamps@.len() - i,
    {
        let s = stamps[i];
        match sample_from_timestamp(s.timestamp_bits, s.scaled_bits) {
            Ok(v) => starts.push(v),
            Err(kind) => {
                assert(sample_of_stamp(stamps@[i as int]) == Err::<u32, TimestampError>(kind));
                assert(forall|j: int| 0 <= j < i ==> (#[trigger] sample_of_stamp(stamps@[j])) is Ok)
                    by {
                    assert forall|j: int| 0 <= j < i implies (#[trigger] sample_of_stamp(
                        stamps@[j],
                    )) is Ok by {
                        assert(sample_of_stamp(stamps@[j]) == Ok::<u32, TimestampError>(starts@[j]));
                    }
                }
                return Err(WaveError::InvalidTimestamp { index: i, kind });
            },
        }
        i = i + 1;
    }
    assert forall|j: int| 0 <= j < stamps@.len() implies (#[trigger] sample_of_stamp(
        stamps@[j],
    )) is Ok by {
        assert(sample_of_stamp(stamps@[j]) == Ok::<u32, TimestampError>(starts@[j]));
    }
    wav.cue = Some(starts);
    Ok(())
}

} // verus!

//! Samples: their storage as bytes, their magnitudes and their batches.

use byteorder::ByteOrder;
use vstd::prelude::*;

verus! {

/// The number of bytes that one stored sample takes.
pub const SAMPLE_BYTES: usize = 4;

/// The number of samples in one batch of a playback.
pub const BATCH_SAMPLES: usize = 10_000;

/// The greatest magnitude that a sample can have: the root of twice 2^30,
/// rounded down.
pub const MAX_MAGNITUDE: u32 = 46_340;

/// A complex baseband sample: in-phase and quadrature part.
#[derive(Debug, Clone, Copy, PartialEq, Eq, Structural)]
pub struct Sample {
    pub re: i16,
    pub im: i16,
}

/// Why stored samples could not be read.
#[derive(Debug, Clone, Copy, PartialEq, Eq, Structural)]
pub enum DataError {
    /// The number of bytes is no multiple of four.
    InvalidLength,
}

/// The signed 16-bit number that two bytes spell in little-endian order,
/// in two's complement.
pub open spec fn le_i16(low: u8, high: u8) -> int {
    let unsigned = low + 256 * high;
    if unsigned < 32_768 {
        unsigned
    } else {
        unsigned - 65_536
    }
}

/// Two pairs of bytes that spell the same number are the same pair.
pub proof fn lemma_le_i16_injective(low: u8, high: u8, other_low: u8, other_high: u8)
    requires
        le_i16(low, high) == le_i16(other_low, other_high),
    ensures
        low == other_low,
        high == other_high,
{
}

/// `bytes` store `samples`: four bytes for each sample, the in-phase part
/// before the quadrature part, each as a little-endian signed 16-bit
/// number.
pub open spec fn stores(bytes: Seq<u8>, samples: Seq<Sample>) -> bool {
    &&& bytes.len() == 4 * samples.len()
    &&& forall|i: int|
        0 <= i < samples.len() ==> (#[trigger] samples[i]).re == le_i16(bytes[4 * i], bytes[4 * i + 1])
            && samples[i].im == le_i16(bytes[4 * i + 2], bytes[4 * i + 3])
}

/// The same bytes store one sequence of samples only, and the same samples
/// are stored by one sequence of bytes only: writing and then reading gives
/// back what was written.
pub proof fn lemma_stores_one_to_one(
    bytes: Seq<u8>,
    samples: Seq<Sample>,
    other_bytes: Seq<u8>,
    other_samples: Seq<Sample>,
)
    requires
        stores(bytes, samples),
        stores(other_bytes, other_samples),
    ensures
        bytes == other_bytes ==> samples == other_samples,
        samples == other_samples ==> bytes == other_bytes,
{
    if bytes == other_bytes {
        assert forall|i: int| 0 <= i < samples.len() implies samples[i] == other_samples[i] by {
            assert(samples[i].re == other_samples[i].re);
            assert(samples[i].im == other_samples[i].im);
        }
        assert(samples =~= other_samples);
    }
    if samples == other_samples {
        assert forall|k: int| 0 <= k < bytes.len() implies bytes[k] == other_bytes[k] by {
            let i = k / 4;
            assert(samples[i] == other_samples[i]);
            lemma_le_i16_injective(
                bytes[4 * i],
                bytes[4 * i + 1],
                other_bytes[4 * i],
                other_bytes[4 * i + 1],
            );
            lemma_le_i16_injective(
                bytes[4 * i + 2],
                bytes[4 * i + 3],
                other_bytes[4 * i + 2],
                other_bytes[4 * i + 3],
            );
        }
        assert(bytes =~= other_bytes);
    }
}

/// `byteorder::LittleEndian::read_i16` on the two bytes `low` and `high`:
/// the signed 16-bit number with `low` as its low and `high` as its high
/// byte.
#[verifier::external_body]
fn read_i16_le(low: u8, high: u8) -> (value: i16)
    ensures
        value == le_i16(low, high),
{
    byteorder::LittleEndian::read_i16(&[low, high])
}

/// `byteorder::LittleEndian::write_i16` into a buffer of two bytes: the low
/// byte of `value` first, then its high byte.
#[verifier::external_body]
fn write_i16_le(value: i16) -> (bytes: [u8; 2])
    ensures
        le_i16(bytes[0], bytes[1]) == value,
{
    let mut buf = [0u8; 2];
    byteorder::LittleEndian::write_i16(&mut buf, value);
    buf
}

/// Reads samples from their stored form. Fails exactly where the number of
/// bytes is no multiple of four.
pub fn samples_from_bytes(bytes: &[u8]) -> (read: Result<Vec<Sample>, DataError>)
    ensures
        match read {
            Ok(samples) => stores(bytes@, samples@),
            Err(error) => bytes@.len() % 4 != 0 && error == DataError::InvalidLength,
        },
        bytes@.len() % 4 == 0 ==> read is Ok,
{
    if bytes.len() % SAMPLE_BYTES != 0 {
        return Err(DataError::InvalidLength);
    }
    let count: usize = bytes.len() / SAMPLE_BYTES;
    let mut data: Vec<Sample> = Vec::new();
    let mut i: usize = 0;
    while i < count
        invariant
            i <= count,
            bytes@.len() == 4 * count,
            bytes@.len() <= usize::MAX,
            data@.len() == i,
            forall|k: int|
                0 <= k < i ==> (#[trigger] data@[k]).re == le_i16(bytes@[4 * k], bytes@[4 * k + 1])
                    && data@[k].im == le_i16(bytes@[4 * k + 2], bytes@[4 * k + 3]),
        decreases count - i,
    {
        let re: i16 = read_i16_le(bytes[4 * i], bytes[4 * i + 1]);
        let im: i16 = read_i16_le(bytes[4 * i + 2], bytes[4 * i + 3]);
        data.push(Sample { re, im });
        i += 1;
    }
    Ok(data)
}

/// Writes samples in their stored form.
pub fn samples_to_bytes(data: &[Sample]) -> (bytes: Vec<u8>)
    ensures
        stores(bytes@, data@),
{
    let mut buf: Vec<u8> = Vec::new();
    let mut i: usize = 0;
    while i < data.len()
        invariant
            i <= data@.len(),
            buf@.len() == 4 * i,
            forall|k: int|
                0 <= k < i ==> (#[trigger] data@[k]).re == le_i16(buf@[4 * k], buf@[4 * k + 1])
                    && data@[k].im == le_i16(buf@[4 * k + 2], buf@[4 * k + 3]),
        decreases data@.len() - i,
    {
        let re: [u8; 2] = write_i16_le(data[i].re);
        let im: [u8; 2] = write_i16_le(data[i].im);
        let ghost before = buf@;
        buf.push(re[0]);
        buf.push(re[1]);
        buf.push(im[0]);
        buf.push(im[1]);
        proof {
            assert forall|k: int| 0 <= k < i implies (#[trigger] data@[k]).re == le_i16(
                buf@[4 * k],
                buf@[4 * k + 1],
            ) && data@[k].im == le_i16(buf@[4 * k + 2], buf@[4 * k + 3]) by {
                assert(buf@[4 * k] == before[4 * k]);
                assert(buf@[4 * k + 1] == before[4 * k + 1]);
                assert(buf@[4 * k + 2] == before[4 * k + 2]);
                assert(buf@[4 * k + 3] == before[4 * k + 3]);
            }
        }
        i += 1;
    }
    buf
}

/// The power of a sample: the sum of the squares of its two parts.
pub open spec fn power(sample: Sample) -> int {
    sample.re * sample.re + sample.im * sample.im
}

/// `root` is the square root of `value`, rounded down.
pub open spec fn is_floor_root(root: int, value: int) -> bool {
    0 <= root && root * root <= value < (root + 1) * (root + 1)
}

/// The rounded-down roots of two values stand in the order of the values.
pub proof fn lemma_floor_root_monotonic(root: int, value: int, other_root: int, other_value: int)
    requires
        is_floor_root(root, value),
        is_floor_root(other_root, other_value),
        value <= other_value,
    ensures
        root <= other_root,
{
    if root > other_root {
        assert((other_root + 1) * (other_root + 1) <= root * root) by (nonlinear_arith)
            requires
                0 <= other_root,
                other_root + 1 <= root,
        ;
    }
}

/// The square root of `value`, rounded down.
pub fn floor_root(value: u32) -> (root: u32)
    ensures
        is_floor_root(root as int, value as int),
{
    let target: u64 = value as u64;
    let mut low: u64 = 0;
    let mut high: u64 = 65_536;
    while low + 1 < high
        invariant
            low < high <= 65_536,
            low * low <= target < high * high,
        decreases high - low,
    {
        let mid: u64 = (low + high) / 2;
        assert(mid * mid <= 65_536 * 65_536) by (nonlinear_arith)
            requires
                mid <= 65_536,
        ;
        if mid * mid <= target {
            low = mid;
        } else {
            high = mid;
        }
    }
    low as u32
}

/// The magnitude of one sample: the root of its power, rounded down.
pub fn magnitude(sample: Sample) -> (level: u32)
    ensures
        is_floor_root(level as int, power(sample)),
        level <= MAX_MAGNITUDE,
{
    let re: i64 = sample.re as i64;
    let im: i64 = sample.im as i64;
    assert(0 <= re * re <= 32_768 * 32_768 && 0 <= im * im <= 32_768 * 32_768)
        by (nonlinear_arith)
        requires
            -32_768 <= re <= 32_767,
            -32_768 <= im <= 32_767,
    ;
    let total: i64 = re * re + im * im;
    let level: u32 = floor_root(total as u32);
    proof {
        if level > MAX_MAGNITUDE {
            assert(level * level >= 46_341 * 46_341) by (nonlinear_arith)
                requires
                    level >= 46_341,
            ;
        }
    }
    level
}

/// The magnitudes of `samples` are `levels`, sample by sample.
pub open spec fn magnitudes_of(levels: Seq<u32>, samples: Seq<Sample>) -> bool {
    &&& levels.len() == samples.len()
    &&& forall|i: int|
        0 <= i < samples.len() ==> is_floor_root((#[trigger] levels[i]) as int, power(samples[i]))
}

/// Calculates the magnitude of every sample of the buffer, in its order.
pub fn get_magnitude(buf: &[Sample]) -> (result: Vec<u32>)
    ensures
        magnitudes_of(result@, buf@),
{
    let mut result: Vec<u32> = Vec::new();
    let mut i: usize = 0;
    while i < buf.len()
        invariant
            i <= buf@.len(),
            result@.len() == i,
            forall|k: int|
                0 <= k < i ==> is_floor_root((#[trigger] result@[k]) as int, power(buf@[k])),
        decreases buf@.len() - i,
    {
        result.push(magnitude(buf[i]));
        i += 1;
    }
    result
}

/// A stronger sample never has the lesser magnitude.
pub proof fn lemma_magnitude_monotonic(levels: Seq<u32>, samples: Seq<Sample>, i: int, j: int)
    requires
        magnitudes_of(levels, samples),
        0 <= i < samples.len(),
        0 <= j < samples.len(),
        power(samples[i]) <= power(samples[j]),
    ensures
        levels[i] <= levels[j],
{
    lemma_floor_root_monotonic(
        levels[i] as int,
        power(samples[i]),
        levels[j] as int,
        power(samples[j]),
    );
}

/// The samples of batch `index` of a recording of `total` samples, as the
/// index of the first and the index behind the last: batches of 10 000
/// samples, the last one with what is left. `None` behind the last batch.
pub open spec fn batch_of(total: int, index: int) -> Option<(int, int)> {
    if 0 <= index && index * 10_000 < total {
        Some(
            (
                index * 10_000,
                if (index + 1) * 10_000 <= total {
                    (index + 1) * 10_000
                } else {
                    total
                },
            ),
        )
    } else {
        None
    }
}

/// Finds the bounds of batch `index` of a recording of `total` samples.
pub fn batch_bounds(total: usize, index: usize) -> (bounds: Option<(usize, usize)>)
    ensures
        match bounds {
            Some((start, end)) => batch_of(total as int, index as int) == Some(
                (start as int, end as int),
            ),
            None => batch_of(total as int, index as int) is None,
        },
        bounds matches Some((start, end)) ==> start < end <= total && end - start <= BATCH_SAMPLES,
{
    if index >= total / BATCH_SAMPLES + 1 {
        return None;
    }
    let start: usize = index * BATCH_SAMPLES;
    if start >= total {
        return None;
    }
    let end: usize = if total - start >= BATCH_SAMPLES {
        start + BATCH_SAMPLES
    } else {
        total
    };
    Some((start, end))
}

} // verus!

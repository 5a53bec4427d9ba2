//! From magnitude samples to validated frames: the preamble detector, the
//! Manchester extractor and the scan of a batch.
//!
//! At two samples per microsecond one bit of the payload takes two samples:
//! a pulse in the first sample is a one, a pulse in the second a zero. A
//! frame is a preamble of 16 samples and a payload of 224.

use crate::adsb::bits::{
    bit_at, field, lemma_field_bound, lemma_field_same_bits, lemma_value_of_bits_bound,
    read_field, value_of_bits,
};
use crate::adsb::crc::{
    adsb_crc, crc_of_prefix, data_part, first_recovering_bit, flip_bit,
    lemma_first_recovering_bit_is_first, recovered_frame, try_crc_recovery,
};
use vstd::arithmetic::power2::{lemma2_to64, lemma_pow2_strictly_increases};
use vstd::prelude::*;
use vstd::slice::{slice_subrange, slice_to_vec};

verus! {

/// The number of samples of the preamble.
pub const PREAMBLE_SAMPLES: usize = 16;

/// The number of samples that the detector looks at: the preamble and the first
/// byte of the payload.
pub const WINDOW_SAMPLES: usize = 32;

/// The number of samples of the payload: 112 bits of two samples.
pub const PAYLOAD_SAMPLES: usize = 224;

/// The number of samples of a whole frame.
pub const FRAME_SAMPLES: usize = 240;

/// The number of bytes of a frame.
pub const FRAME_BYTES: usize = 14;

/// The number of ambiguous bits that one byte may hold.
pub const MAX_BYTE_ERRORS: u8 = 2;

/// Whether sample `k` of the preamble carries a pulse: the pulses stand at
/// 0, 2, 7 and 9.
pub open spec fn is_preamble_high(k: int) -> bool {
    k == 0 || k == 2 || k == 7 || k == 9
}

/// Whether sample `k` of the window carries a pulse when the five bits of
/// the downlink format, which follow the preamble, are 10001: the pulses
/// stand at 0, 3, 5, 7 and 8 past the preamble.
pub open spec fn is_df17_high(k: int) -> bool {
    k == 16 || k == 19 || k == 21 || k == 23 || k == 24
}

/// Every sample of the preamble without a pulse lies strictly below every
/// sample with one.
pub open spec fn preamble_shape(window: Seq<u32>) -> bool {
    forall|high: int, low: int|
        0 <= high < 16 && 0 <= low < 16 && is_preamble_high(high) && !is_preamble_high(low)
            ==> #[trigger] window[low] < #[trigger] window[high]
}

/// In the ten samples of the downlink format, no sample with a pulse lies
/// below a sample without one.
pub open spec fn df17_shape(window: Seq<u32>) -> bool {
    forall|high: int, low: int|
        16 <= high < 26 && 16 <= low < 26 && is_df17_high(high) && !is_df17_high(low)
            ==> #[trigger] window[low] <= #[trigger] window[high]
}

/// The lesser of two levels.
pub open spec fn lesser(a: u32, b: u32) -> u32 {
    if a <= b {
        a
    } else {
        b
    }
}

/// The reference level of a preamble: the least of its four pulses.
pub open spec fn reference_level(window: Seq<u32>) -> u32 {
    lesser(lesser(window[0], window[2]), lesser(window[7], window[9]))
}

/// Nine tenths of a level, rounded down.
pub open spec fn derated(level: u32) -> u32 {
    (level * 9 / 10) as u32
}

/// What the detector finds in a window of 32 samples: the threshold, which is
/// the derated reference level, where the window has the shape of a
/// preamble followed by the downlink format 17, and nothing otherwise.
pub open spec fn detected(window: Seq<u32>) -> Option<u32> {
    if preamble_shape(window) && df17_shape(window) {
        Some(derated(reference_level(window)))
    } else {
        None
    }
}

/// A window in which every pulse of the preamble and of the downlink
/// format lies strictly above every sample without a pulse is let through,
/// with nine tenths of its weakest preamble pulse as the threshold. A window
/// in which a sample of the preamble without a pulse reaches a pulse is not
/// let through, whatever follows the preamble.
pub proof fn lemma_detection_by_shape(window: Seq<u32>)
    ensures
        preamble_shape(window) && (forall|high: int, low: int|
            16 <= high < 26 && 16 <= low < 26 && is_df17_high(high) && !is_df17_high(low)
                ==> #[trigger] window[low] < #[trigger] window[high]) ==> detected(window) == Some(
            derated(reference_level(window)),
        ),
        !preamble_shape(window) ==> detected(window) is None,
        detected(window) is Some <==> preamble_shape(window) && df17_shape(window),
{
}

fn min_level(a: u32, b: u32) -> (least: u32)
    ensures
        least == lesser(a, b),
{
    if a <= b {
        a
    } else {
        b
    }
}

fn max_level(a: u32, b: u32) -> (most: u32)
    ensures
        most >= a,
        most >= b,
        most == a || most == b,
{
    if a >= b {
        a
    } else {
        b
    }
}

/// Nine tenths of a level, rounded down.
pub fn derate(level: u32) -> (threshold: u32)
    ensures
        threshold == derated(level),
{
    ((level as u64) * 9 / 10) as u32
}

/// Applies the detector to the 32 samples of `mags` that start at `at`.
pub fn detect_at(mags: &[u32], at: usize) -> (found: Option<u32>)
    requires
        at + WINDOW_SAMPLES <= mags@.len(),
    ensures
        found == detected(mags@.subrange(at as int, at + WINDOW_SAMPLES)),
{
    let ghost window = mags@.subrange(at as int, at + WINDOW_SAMPLES);
    assert(forall|k: int| 0 <= k < 32 ==> window[k] == mags@[at + k]);
    let reference: u32 = min_level(
        min_level(mags[at], mags[at + 2]),
        min_level(mags[at + 7], mags[at + 9]),
    );
    let mut floor: u32 = max_level(mags[at + 1], mags[at + 3]);
    floor = max_level(floor, max_level(mags[at + 4], mags[at + 5]));
    floor = max_level(floor, max_level(mags[at + 6], mags[at + 8]));
    floor = max_level(floor, max_level(mags[at + 10], mags[at + 11]));
    floor = max_level(floor, max_level(mags[at + 12], mags[at + 13]));
    floor = max_level(floor, max_level(mags[at + 14], mags[at + 15]));
    if floor >= reference {
        assert(!preamble_shape(window)) by {
            assert(window[0] == mags@[at + 0] && window[2] == mags@[at + 2]);
            assert(window[7] == mags@[at + 7] && window[9] == mags@[at + 9]);
            assert(window[1] == mags@[at + 1] && window[3] == mags@[at + 3]);
            assert(window[4] == mags@[at + 4] && window[5] == mags@[at + 5]);
            assert(window[6] == mags@[at + 6] && window[8] == mags@[at + 8]);
            assert(window[10] == mags@[at + 10] && window[11] == mags@[at + 11]);
            assert(window[12] == mags@[at + 12] && window[13] == mags@[at + 13]);
            assert(window[14] == mags@[at + 14] && window[15] == mags@[at + 15]);
        }
        return None;
    }
    let base: usize = at + PREAMBLE_SAMPLES;
    let pulse: u32 = min_level(
        min_level(min_level(mags[base], mags[base + 3]), min_level(mags[base + 5], mags[base + 7])),
        mags[base + 8],
    );
    let mut gap: u32 = max_level(mags[base + 1], mags[base + 2]);
    gap = max_level(gap, max_level(mags[base + 4], mags[base + 6]));
    gap = max_level(gap, mags[base + 9]);
    if pulse < gap {
        assert(!df17_shape(window)) by {
            assert(window[16] == mags@[base + 0] && window[19] == mags@[base + 3]);
            assert(window[21] == mags@[base + 5] && window[23] == mags@[base + 7]);
            assert(window[24] == mags@[base + 8] && window[17] == mags@[base + 1]);
            assert(window[18] == mags@[base + 2] && window[20] == mags@[base + 4]);
            assert(window[22] == mags@[base + 6] && window[25] == mags@[base + 9]);
        }
        return None;
    }
    assert(preamble_shape(window));
    assert(df17_shape(window));
    Some(derate(reference))
}

/// Checks a window of 32 samples, the preamble and the first byte, for the
/// shape of an extended squitter. Returns the threshold for the payload,
/// followed by two zeros in the places of signal and noise power.
pub fn check_for_adsb_packet(buf: [u32; 32]) -> (found: Option<(u32, i32, i32)>)
    ensures
        found == match detected(buf@) {
            Some(threshold) => Some((threshold, 0i32, 0i32)),
            None => None,
        },
{
    assert(buf@.subrange(0, 32) =~= buf@);
    match detect_at(buf.as_slice(), 0) {
        Some(threshold) => Some((threshold, 0, 0)),
        None => None,
    }
}

/// The rule by which a pair of samples is read as a bit.
#[derive(Debug, Clone, Copy, PartialEq, Eq, Structural)]
pub enum DecisionRule {
    /// A sample carries a pulse where it lies above the threshold.
    Threshold(u32),
    /// The greater sample of the pair carries the pulse.
    Relative,
}

/// Whether the first and the second sample of a pair carry a pulse.
pub open spec fn chip_flags(first: u32, second: u32, rule: DecisionRule) -> (bool, bool) {
    match rule {
        DecisionRule::Threshold(high) => (first > high, second > high),
        DecisionRule::Relative => (first > second, first <= second),
    }
}

/// A pair is a bit where exactly one of its samples carries a pulse; any
/// other pair is ambiguous.
pub open spec fn pair_valid(flags: (bool, bool)) -> bool {
    flags.0 != flags.1
}

/// What is kept of a pair: its flags where it is a bit, and no pulse at all
/// where it is ambiguous.
pub open spec fn recorded(flags: (bool, bool)) -> (bool, bool) {
    if pair_valid(flags) {
        flags
    } else {
        (false, false)
    }
}

/// The flags of bit `j` of payload byte `b`.
pub open spec fn bit_flags(buf: Seq<u32>, b: int, j: int, rule: DecisionRule) -> (bool, bool) {
    chip_flags(buf[16 * b + 2 * j], buf[16 * b + 2 * j + 1], rule)
}

/// The number of ambiguous bits among the first `n` bits of payload byte
/// `b`.
pub open spec fn ambiguous_bits(buf: Seq<u32>, b: int, n: nat, rule: DecisionRule) -> nat
    decreases n,
{
    if n == 0 {
        0
    } else {
        ambiguous_bits(buf, b, (n - 1) as nat, rule) + (if pair_valid(
            bit_flags(buf, b, n - 1, rule),
        ) {
            0nat
        } else {
            1nat
        })
    }
}

/// A byte is accepted with up to two ambiguous bits.
pub open spec fn byte_accepted(buf: Seq<u32>, b: int, rule: DecisionRule) -> bool {
    ambiguous_bits(buf, b, 8, rule) <= MAX_BYTE_ERRORS
}

/// Every byte of the payload is accepted.
pub open spec fn payload_accepted(buf: Seq<u32>, rule: DecisionRule) -> bool {
    forall|b: int| 0 <= b < buf.len() / 16 ==> #[trigger] byte_accepted(buf, b, rule)
}

/// Pair `j` of a symbol: bit `15 - 2j` says whether the first sample carried
/// a pulse, bit `14 - 2j` whether the second did.
pub open spec fn symbol_pair(symbol: u16, j: int) -> (bool, bool) {
    (
        (symbol >> ((15 - 2 * j) as u16)) & 1u16 == 1u16,
        (symbol >> ((14 - 2 * j) as u16)) & 1u16 == 1u16,
    )
}

/// The symbol holds what is kept of the eight pairs of payload byte `b`.
pub open spec fn symbol_records(symbol: u16, buf: Seq<u32>, b: int, rule: DecisionRule) -> bool {
    forall|j: int| 0 <= j < 8 ==> #[trigger] symbol_pair(symbol, j) == recorded(bit_flags(buf, b, j, rule))
}

/// The symbols hold what is kept of the payload, one symbol for each 16
/// samples.
pub open spec fn symbols_record(symbols: Seq<u16>, buf: Seq<u32>, rule: DecisionRule) -> bool {
    &&& symbols.len() == buf.len() / 16
    &&& forall|b: int| 0 <= b < symbols.len() ==> symbol_records(#[trigger] symbols[b], buf, b, rule)
}

/// Setting one bit of a symbol leaves every other bit as it was.
proof fn lemma_set_bit(symbol: u16, p: u16, q: u16)
    by (bit_vector)
    requires
        p < 16,
        q < 16,
    ensures
        ((symbol | (1u16 << p)) >> q) & 1u16 == (if q == p {
            1u16
        } else {
            (symbol >> q) & 1u16
        }),
{
}

/// A symbol of zeros holds no pulse.
proof fn lemma_zero_symbol(q: u16)
    by (bit_vector)
    requires
        q < 16,
    ensures
        (0u16 >> q) & 1u16 == 0u16,
{
}

/// Reads the payload pair by pair into one symbol for each 16 samples.
/// Gives up at the third ambiguous bit within one byte.
pub fn extract_manchester(buf: &Vec<u32>, rule: DecisionRule) -> (found: Option<Vec<u16>>)
    requires
        buf@.len() % 16 == 0,
    ensures
        match found {
            Some(symbols) => payload_accepted(buf@, rule) && symbols_record(symbols@, buf@, rule),
            None => !payload_accepted(buf@, rule),
        },
{
    let mut result: Vec<u16> = Vec::new();
    let blocks: usize = buf.len() / 16;
    let mut block: usize = 0;
    while block < blocks
        invariant
            buf@.len() % 16 == 0,
            buf@.len() <= usize::MAX,
            blocks == buf@.len() / 16,
            block <= blocks,
            result@.len() == block,
            forall|b: int| 0 <= b < block ==> #[trigger] byte_accepted(buf@, b, rule),
            forall|b: int| 0 <= b < block ==> symbol_records(#[trigger] result@[b], buf@, b, rule),
        decreases blocks - block,
    {
        let mut symbol: u16 = 0;
        let mut errors: u8 = 0;
        let mut bit: usize = 0;
        proof {
            assert forall|j: int| 0 <= j < 8 implies #[trigger] symbol_pair(symbol, j) == (
                false,
                false,
            ) by {
                lemma_zero_symbol((15 - 2 * j) as u16);
                lemma_zero_symbol((14 - 2 * j) as u16);
            }
        }
        while bit < 8
            invariant
                buf@.len() % 16 == 0,
                buf@.len() <= usize::MAX,
                blocks == buf@.len() / 16,
                block < blocks,
                bit <= 8,
                errors <= MAX_BYTE_ERRORS,
                errors == ambiguous_bits(buf@, block as int, bit as nat, rule),
                forall|j: int|
                    0 <= j < bit ==> #[trigger] symbol_pair(symbol, j) == recorded(
                        bit_flags(buf@, block as int, j, rule),
                    ),
                forall|j: int| bit <= j < 8 ==> #[trigger] symbol_pair(symbol, j) == (false, false),
            decreases 8 - bit,
        {
            assert(16 * (block + 1) <= buf@.len() <= usize::MAX);
            let i: usize = block * 16 + bit * 2;
            let first_level: u32 = buf[i];
            let second_level: u32 = buf[i + 1];
            let (first, second): (bool, bool) = match rule {
                DecisionRule::Threshold(high) => (first_level > high, second_level > high),
                DecisionRule::Relative => (first_level > second_level, first_level <= second_level),
            };
            assert((first, second) == bit_flags(buf@, block as int, bit as int, rule));
            let ghost before = symbol;
            if first != second {
                let first_place: u16 = (15 - bit * 2) as u16;
                let second_place: u16 = (14 - bit * 2) as u16;
                if first {
                    symbol = symbol | (1u16 << first_place);
                }
                if second {
                    symbol = symbol | (1u16 << second_place);
                }
                proof {
                    let place: u16 = if first { first_place } else { second_place };
                    assert(symbol == before | (1u16 << place));
                    assert(symbol_pair(before, bit as int) == (false, false));
                    assert forall|j: int| 0 <= j < 8 implies #[trigger] symbol_pair(symbol, j) == (
                    if j == bit {
                        (first, second)
                    } else {
                        symbol_pair(before, j)
                    }) by {
                        let upper: u16 = (15 - 2 * j) as u16;
                        let lower: u16 = (14 - 2 * j) as u16;
                        lemma_set_bit(before, place, upper);
                        lemma_set_bit(before, place, lower);
                        if j == bit {
                            assert(upper == first_place && lower == second_place);
                        } else {
                            assert(upper != place && lower != place);
                        }
                    }
                }
            } else {
                errors += 1;
                if errors > MAX_BYTE_ERRORS {
                    proof {
                        lemma_ambiguous_bits_grow(buf@, block as int, (bit + 1) as nat, 8, rule);
                        assert(!byte_accepted(buf@, block as int, rule));
                    }
                    return None;
                }
            }
            bit += 1;
        }
        result.push(symbol);
        block += 1;
    }
    Some(result)
}

/// The count of ambiguous bits never falls as more bits are counted.
pub proof fn lemma_ambiguous_bits_grow(buf: Seq<u32>, b: int, n: nat, m: nat, rule: DecisionRule)
    requires
        n <= m,
    ensures
        ambiguous_bits(buf, b, n, rule) <= ambiguous_bits(buf, b, m, rule),
    decreases m,
{
    if n < m {
        lemma_ambiguous_bits_grow(buf, b, n, (m - 1) as nat, rule);
    }
}

/// Reads the payload into symbols by comparing the two samples of each pair
/// with each other. No pair is ambiguous under this rule, so the payload is
/// always read; `high` is not consulted.
pub fn extract_manchester_relative(buf: Vec<u32>, high: u32) -> (found: Option<Vec<u16>>)
    requires
        buf@.len() % 16 == 0,
    ensures
        match found {
            Some(symbols) => symbols_record(symbols@, buf@, DecisionRule::Relative),
            None => false,
        },
        payload_accepted(buf@, DecisionRule::Relative),
{
    proof {
        assert forall|b: int| 0 <= b < buf@.len() / 16 implies #[trigger] byte_accepted(
            buf@,
            b,
            DecisionRule::Relative,
        ) by {
            lemma_relative_never_ambiguous(buf@, b, 8);
        }
    }
    extract_manchester(&buf, DecisionRule::Relative)
}

/// Under the relative rule no bit is ambiguous.
pub proof fn lemma_relative_never_ambiguous(buf: Seq<u32>, b: int, n: nat)
    ensures
        ambiguous_bits(buf, b, n, DecisionRule::Relative) == 0,
    decreases n,
{
    if n > 0 {
        lemma_relative_never_ambiguous(buf, b, (n - 1) as nat);
    }
}

/// Reads the payload into symbols by comparing each sample with the
/// threshold `high`. A pair whose samples lie on the same side of the
/// threshold is ambiguous; the third such pair within one byte makes the
/// whole payload unreadable.
pub fn extract_manchester_threshold(buf: Vec<u32>, high: u32) -> (found: Option<Vec<u16>>)
    requires
        buf@.len() % 16 == 0,
    ensures
        match found {
            Some(symbols) => payload_accepted(buf@, DecisionRule::Threshold(high))
                && symbols_record(symbols@, buf@, DecisionRule::Threshold(high)),
            None => !payload_accepted(buf@, DecisionRule::Threshold(high)),
        },
{
    extract_manchester(&buf, DecisionRule::Threshold(high))
}

/// A pair is a one where its first sample carries the pulse.
pub open spec fn is_one(flags: (bool, bool)) -> bool {
    flags.0 && !flags.1
}

/// The number of pairs among the first `n` of a symbol that are no bit.
pub open spec fn symbol_errors(symbol: u16, n: nat) -> nat
    decreases n,
{
    if n == 0 {
        0
    } else {
        symbol_errors(symbol, (n - 1) as nat) + (if pair_valid(symbol_pair(symbol, n - 1)) {
            0nat
        } else {
            1nat
        })
    }
}

/// A symbol is accepted with up to two pairs that are no bit.
pub open spec fn symbol_accepted(symbol: u16) -> bool {
    symbol_errors(symbol, 8) <= MAX_BYTE_ERRORS
}

/// The eight bits of a symbol, first pair first. A pair that is no bit
/// counts as a zero.
pub open spec fn symbol_bits(symbol: u16) -> Seq<bool> {
    Seq::new(8, |j: int| is_one(symbol_pair(symbol, j)))
}

/// The byte that a symbol stands for.
pub open spec fn symbol_byte(symbol: u16) -> u8 {
    value_of_bits(symbol_bits(symbol)) as u8
}

/// Every symbol is accepted.
pub open spec fn symbols_accepted(raw: Seq<u16>) -> bool {
    forall|b: int| 0 <= b < raw.len() ==> symbol_accepted(#[trigger] raw[b])
}

/// The bytes that the symbols stand for, where every symbol is accepted.
pub open spec fn decoded_bytes(raw: Seq<u16>) -> Option<Seq<u8>> {
    if symbols_accepted(raw) {
        Some(Seq::new(raw.len(), |b: int| symbol_byte(raw[b])))
    } else {
        None
    }
}

/// Decodes one symbol into its byte; `None` where more than two of its
/// pairs are no bit.
pub fn decode_symbol(encoded: u16) -> (decoded: Option<u8>)
    ensures
        decoded == (if symbol_accepted(encoded) {
            Some(symbol_byte(encoded))
        } else {
            None
        }),
{
    let ghost bits = symbol_bits(encoded);
    let mut byte: u8 = 0;
    let mut errors: u8 = 0;
    let mut i: u16 = 0;
    assert(bits.take(0) =~= Seq::<bool>::empty());
    while i < 8
        invariant
            i <= 8,
            bits == symbol_bits(encoded),
            byte == value_of_bits(bits.take(i as int)),
            errors == symbol_errors(encoded, i as nat),
            errors <= i,
        decreases 8 - i,
    {
        let hi: bool = (encoded >> (15 - i * 2)) & 1u16 == 1u16;
        let lo: bool = (encoded >> (14 - i * 2)) & 1u16 == 1u16;
        assert((hi, lo) == symbol_pair(encoded, i as int));
        if hi == lo {
            errors += 1;
        }
        proof {
            lemma_value_of_bits_bound(bits.take(i as int));
            lemma2_to64();
            if i < 7 {
                lemma_pow2_strictly_increases(i as nat, 7);
            }
            assert(bits.take(i + 1).drop_last() =~= bits.take(i as int));
            assert(bits.take(i + 1).last() == is_one((hi, lo)));
        }
        byte = 2 * byte + (if hi && !lo { 1 } else { 0 });
        i += 1;
    }
    assert(bits.take(8) =~= bits);
    if errors > MAX_BYTE_ERRORS {
        None
    } else {
        Some(byte)
    }
}

/// Decodes the symbols into bytes, a one for a pulse in the first sample of
/// a pair and a zero for a pulse in the second. A pair without a pulse, or
/// with two, is no bit: it counts as a zero, and the third such pair within
/// one symbol makes the whole buffer undecodable.
pub fn decode_packet(raw_buf: Vec<u16>) -> (decoded: Option<Vec<u8>>)
    ensures
        match decoded {
            Some(bytes) => decoded_bytes(raw_buf@) == Some(bytes@),
            None => decoded_bytes(raw_buf@) is None,
        },
{
    let mut result: Vec<u8> = Vec::new();
    let mut b: usize = 0;
    while b < raw_buf.len()
        invariant
            b <= raw_buf@.len(),
            result@.len() == b,
            forall|k: int| 0 <= k < b ==> symbol_accepted(#[trigger] raw_buf@[k]),
            forall|k: int| 0 <= k < b ==> #[trigger] result@[k] == symbol_byte(raw_buf@[k]),
        decreases raw_buf@.len() - b,
    {
        match decode_symbol(raw_buf[b]) {
            Some(byte) => {
                result.push(byte);
            },
            None => {
                assert(!symbol_accepted(raw_buf@[b as int]));
                return None;
            },
        }
        b += 1;
    }
    assert(result@ =~= Seq::new(raw_buf@.len(), |k: int| symbol_byte(raw_buf@[k])));
    Some(result)
}

/// The eight bits of payload byte `b`, first bit first. An ambiguous bit
/// counts as a zero.
pub open spec fn payload_bits(buf: Seq<u32>, b: int, rule: DecisionRule) -> Seq<bool> {
    Seq::new(8, |j: int| is_one(recorded(bit_flags(buf, b, j, rule))))
}

/// The bytes that the payload holds, one for each 16 samples, where every
/// byte is accepted.
pub open spec fn demodulated(buf: Seq<u32>, rule: DecisionRule) -> Option<Seq<u8>> {
    if payload_accepted(buf, rule) {
        Some(
            Seq::new(
                (buf.len() / 16) as nat,
                |b: int| value_of_bits(payload_bits(buf, b, rule)) as u8,
            ),
        )
    } else {
        None
    }
}

/// A symbol that holds what is kept of a payload byte has as many pairs
/// that are no bit as the byte has ambiguous bits.
pub proof fn lemma_symbol_errors_match(
    symbol: u16,
    buf: Seq<u32>,
    b: int,
    n: nat,
    rule: DecisionRule,
)
    requires
        symbol_records(symbol, buf, b, rule),
        n <= 8,
    ensures
        symbol_errors(symbol, n) == ambiguous_bits(buf, b, n, rule),
    decreases n,
{
    if n > 0 {
        lemma_symbol_errors_match(symbol, buf, b, (n - 1) as nat, rule);
        assert(symbol_pair(symbol, n - 1) == recorded(bit_flags(buf, b, n - 1, rule)));
    }
}

/// Decoding the symbols that hold what is kept of a payload gives the bytes
/// of the payload.
pub proof fn lemma_decoded_symbols(symbols: Seq<u16>, buf: Seq<u32>, rule: DecisionRule)
    requires
        symbols_record(symbols, buf, rule),
    ensures
        decoded_bytes(symbols) == demodulated(buf, rule),
{
    assert forall|b: int| 0 <= b < symbols.len() implies symbol_accepted(symbols[b])
        == byte_accepted(buf, b, rule) by {
        lemma_symbol_errors_match(symbols[b], buf, b, 8, rule);
    }
    if payload_accepted(buf, rule) {
        assert(symbols_accepted(symbols)) by {
            assert forall|b: int| 0 <= b < symbols.len() implies symbol_accepted(
                #[trigger] symbols[b],
            ) by {
                assert(byte_accepted(buf, b, rule));
            }
        }
        let decoded = Seq::new(symbols.len(), |b: int| symbol_byte(symbols[b]));
        let expected = Seq::new(
            (buf.len() / 16) as nat,
            |b: int| value_of_bits(payload_bits(buf, b, rule)) as u8,
        );
        assert forall|b: int| 0 <= b < symbols.len() implies decoded[b] == expected[b] by {
            assert(symbol_records(symbols[b], buf, b, rule));
            assert(symbol_bits(symbols[b]) =~= payload_bits(buf, b, rule));
        }
        assert(decoded =~= expected);
    } else {
        let b = choose|b: int| 0 <= b < buf.len() / 16 && !#[trigger] byte_accepted(buf, b, rule);
        assert(!symbol_accepted(symbols[b]));
    }
}

/// The parity that a frame carries in its last three bytes.
pub open spec fn parity_of(frame: Seq<u8>) -> u32 {
    field(frame, 8 * (frame.len() - 3), 24) as u32
}

/// The parity computed over the data of a frame equals the parity that the
/// frame carries.
pub open spec fn frame_passes(frame: Seq<u8>) -> bool {
    adsb_crc(data_part(frame)) == parity_of(frame)
}

/// What validation makes of a frame: the frame itself where it passes, and
/// otherwise the frame with the first data bit inverted that makes it pass,
/// if there is one.
pub open spec fn validated(frame: Seq<u8>) -> Option<Seq<u8>> {
    if frame_passes(frame) {
        Some(frame)
    } else {
        recovered_frame(frame, parity_of(frame))
    }
}

/// The frame that a payload of 224 samples holds: read by the relative
/// rule, then validated.
pub open spec fn extracted_frame(buf: Seq<u32>) -> Option<Seq<u8>> {
    match demodulated(buf, DecisionRule::Relative) {
        Some(frame) => validated(frame),
        None => None,
    }
}

/// Inverting a data bit leaves the length of a frame and the parity that it
/// carries as they were.
pub proof fn lemma_flip_keeps_parity(frame: Seq<u8>, k: int)
    requires
        frame.len() >= 3,
        0 <= k < 8 * (frame.len() - 3),
    ensures
        flip_bit(frame, k).len() == frame.len(),
        parity_of(flip_bit(frame, k)) == parity_of(frame),
{
    let flipped = flip_bit(frame, k);
    let from = 8 * (frame.len() - 3);
    assert forall|i: int| from <= i < from + 24 implies #[trigger] bit_at(flipped, i) == bit_at(
        frame,
        i,
    ) by {
        assert(i / 8 != k / 8);
    }
    lemma_field_same_bits(flipped, frame, from, 24);
}

/// A frame that validation lets through has the length of the frame that
/// came in, and the parity computed over its data equals the parity that it
/// carries.
pub proof fn lemma_validated_passes(frame: Seq<u8>)
    requires
        frame.len() >= 3,
    ensures
        validated(frame) matches Some(valid) ==> valid.len() == frame.len() && frame_passes(valid),
{
    if !frame_passes(frame) {
        lemma_first_recovering_bit_is_first(frame, 0, parity_of(frame));
        match first_recovering_bit(frame, 0, parity_of(frame)) {
            Some(k) => {
                lemma_flip_keeps_parity(frame, k);
            },
            None => {},
        }
    }
}

/// A frame that comes out of a payload of 224 samples has 14 bytes, and the
/// parity computed over its first 11 bytes equals the parity in its last
/// three, whether or not a bit had to be inverted.
pub proof fn lemma_extracted_frame_passes(buf: Seq<u32>, rule: DecisionRule)
    requires
        buf.len() == PAYLOAD_SAMPLES,
    ensures
        demodulated(buf, rule) matches Some(read) ==> read.len() == FRAME_BYTES,
        demodulated(buf, rule) matches Some(read) ==> (validated(read) matches Some(frame)
            ==> frame.len() == FRAME_BYTES && adsb_crc(frame.take(11)) == parity_of(frame)),
{
    match demodulated(buf, rule) {
        Some(read) => {
            lemma_validated_passes(read);
            match validated(read) {
                Some(frame) => {
                    assert(data_part(frame) == frame.take(11));
                },
                None => {},
            }
        },
        None => {},
    }
}

/// A frame that passes as it is comes through validation unaltered: what
/// passes without recovery also passes with it.
pub proof fn lemma_recovery_keeps_passing_frames(frame: Seq<u8>)
    requires
        frame_passes(frame),
    ensures
        validated(frame) == Some(frame),
{
}

/// Validates a frame: computes the parity over all but its last three
/// bytes, compares it with the parity that those carry, and where the two
/// differ tries to recover the frame by inverting one data bit.
pub fn validate_frame(packet: Vec<u8>) -> (valid: Option<Vec<u8>>)
    requires
        packet@.len() >= 3,
        8 * packet@.len() <= usize::MAX,
    ensures
        match valid {
            Some(frame) => validated(packet@) == Some(frame@),
            None => validated(packet@) is None,
        },
        valid matches Some(frame) ==> frame@.len() == packet@.len() && frame_passes(frame@),
        frame_passes(packet@) ==> (valid matches Some(frame) && frame@ == packet@),
{
    proof {
        lemma_validated_passes(packet@);
        lemma_field_bound(packet@, 8 * (packet@.len() - 3), 24);
        lemma2_to64();
    }
    let len: usize = packet.len();
    let calced_crc: u32 = crc_of_prefix(&packet, len - 3);
    let packet_crc: u32 = read_field(packet.as_slice(), 8 * (len - 3), 24);
    if calced_crc != packet_crc {
        return try_crc_recovery(packet, calced_crc, packet_crc);
    }
    Some(packet)
}

/// Extracts a frame from the 224 samples of a payload: reads the samples
/// pair by pair under the relative rule, decodes the symbols into 14 bytes
/// and validates them. `high` is the level that the detector found; the relative
/// rule does not consult it.
pub fn extract_packet(buf: Vec<u32>, high: u32) -> (found: Option<Vec<u8>>)
    requires
        buf@.len() == PAYLOAD_SAMPLES,
    ensures
        match found {
            Some(frame) => extracted_frame(buf@) == Some(frame@),
            None => extracted_frame(buf@) is None,
        },
        found matches Some(frame) ==> frame@.len() == FRAME_BYTES && frame_passes(frame@),
        demodulated(buf@, DecisionRule::Relative) matches Some(read) ==> (frame_passes(read) ==> (
        found matches Some(frame) && frame@ == read)),
{
    let threshold: u32 = derate(high);
    let extracted_manchester: Vec<u16> = match extract_manchester_relative(buf, threshold) {
        Some(symbols) => symbols,
        None => {
            return None;
        },
    };
    proof {
        lemma_decoded_symbols(extracted_manchester@, buf@, DecisionRule::Relative);
    }
    let packet: Vec<u8> = match decode_packet(extracted_manchester) {
        Some(bytes) => bytes,
        None => {
            return None;
        },
    };
    validate_frame(packet)
}

/// Why the samples at one place of a batch hold no frame.
#[derive(Debug, Clone, Copy, PartialEq, Eq, Structural)]
pub enum FrameRejected {
    /// The window has not the shape of a preamble and the downlink format
    /// 17.
    Preamble,
    /// A byte of the payload has more than two ambiguous bits.
    ManchesterErrors,
    /// The parity fails, and no inversion of a single data bit mends it.
    CrcUncorrectable,
}

/// The rule by which a payload is read: by the threshold that the detector
/// found for it, or by comparing the samples of each pair.
pub open spec fn payload_rule(by_threshold: bool, threshold: u32) -> DecisionRule {
    if by_threshold {
        DecisionRule::Threshold(threshold)
    } else {
        DecisionRule::Relative
    }
}

/// What becomes of the 240 samples from sample `i`: the detector must let
/// the first 32 through, the 224 behind the preamble must be readable, and
/// the 14 bytes read must validate.
pub open spec fn frame_outcome(mags: Seq<u32>, i: int, by_threshold: bool) -> Result<
    Seq<u8>,
    FrameRejected,
> {
    match detected(mags.subrange(i, i + 32)) {
        None => Err(FrameRejected::Preamble),
        Some(threshold) => match demodulated(
            mags.subrange(i + 16, i + 240),
            payload_rule(by_threshold, threshold),
        ) {
            None => Err(FrameRejected::ManchesterErrors),
            Some(read) => match validated(read) {
                None => Err(FrameRejected::CrcUncorrectable),
                Some(frame) => Ok(frame),
            },
        },
    }
}

/// Tries to take a frame from the 240 samples of `mags` that start at `at`,
/// and says why where there is none. The payload is read by the threshold
/// of the detector where `by_threshold` is set, and by comparing the samples
/// of each pair otherwise.
pub fn try_frame(mags: &[u32], at: usize, by_threshold: bool) -> (outcome: Result<
    Vec<u8>,
    FrameRejected,
>)
    requires
        at + FRAME_SAMPLES <= mags@.len(),
    ensures
        match outcome {
            Ok(frame) => frame_outcome(mags@, at as int, by_threshold) == Ok::<
                Seq<u8>,
                FrameRejected,
            >(frame@),
            Err(reason) => frame_outcome(mags@, at as int, by_threshold) == Err::<
                Seq<u8>,
                FrameRejected,
            >(reason),
        },
        outcome matches Ok(frame) ==> frame@.len() == FRAME_BYTES && frame_passes(frame@),
{
    let threshold: u32 = match detect_at(mags, at) {
        Some(threshold) => threshold,
        None => {
            return Err(FrameRejected::Preamble);
        },
    };
    let total: usize = mags.len();
    assert(at + FRAME_SAMPLES <= total);
    let payload: Vec<u32> = slice_to_vec(
        slice_subrange(mags, at + PREAMBLE_SAMPLES, at + FRAME_SAMPLES),
    );
    let rule: DecisionRule = if by_threshold {
        DecisionRule::Threshold(threshold)
    } else {
        DecisionRule::Relative
    };
    let symbols: Vec<u16> = match extract_manchester(&payload, rule) {
        Some(symbols) => symbols,
        None => {
            return Err(FrameRejected::ManchesterErrors);
        },
    };
    proof {
        lemma_decoded_symbols(symbols@, payload@, rule);
    }
    let packet: Vec<u8> = match decode_packet(symbols) {
        Some(bytes) => bytes,
        None => {
            return Err(FrameRejected::ManchesterErrors);
        },
    };
    match validate_frame(packet) {
        Some(frame) => Ok(frame),
        None => Err(FrameRejected::CrcUncorrectable),
    }
}

/// A frame found in a batch of samples.
#[derive(Debug)]
pub struct FoundFrame {
    /// The index of the first sample of the preamble.
    pub start: usize,
    /// The 14 bytes of the frame.
    pub bytes: Vec<u8>,
}

/// The frame whose preamble starts at sample `i`, where the samples from
/// `i` hold one when the payload is read by comparing the samples of each
/// pair.
pub open spec fn frame_at(mags: Seq<u32>, i: int) -> Option<Seq<u8>> {
    match frame_outcome(mags, i, false) {
        Ok(frame) => Some(frame),
        Err(_) => None,
    }
}

/// The frames that a scan from sample `i` finds, each with the index where
/// it starts. The scan goes on 240 samples after the start of a frame, and
/// one sample on where there is none; it ends where fewer than 241 samples
/// are left.
pub open spec fn frames_from(mags: Seq<u32>, i: int) -> Seq<(int, Seq<u8>)>
    decreases mags.len() - i,
{
    if i < 0 || i + 240 >= mags.len() {
        Seq::empty()
    } else {
        match frame_at(mags, i) {
            Some(frame) => seq![(i, frame)] + frames_from(mags, i + 240),
            None => frames_from(mags, i + 1),
        }
    }
}

/// The starts and bytes of a list of found frames.
pub open spec fn found_view(found: Seq<FoundFrame>) -> Seq<(int, Seq<u8>)> {
    found.map_values(|frame: FoundFrame| (frame.start as int, frame.bytes@))
}

/// The frames that a scan finds never overlap: each starts at or after the
/// point where the scan began, and at least 240 samples after the one
/// before it. Each has 14 bytes and passes the parity check.
pub proof fn lemma_frames_apart(mags: Seq<u32>, i: int)
    requires
        0 <= i,
    ensures
        forall|k: int|
            0 <= k < frames_from(mags, i).len() ==> i <= (#[trigger] frames_from(mags, i)[k]).0
                && frames_from(mags, i)[k].0 + 240 < mags.len(),
        forall|k: int|
            0 <= k < frames_from(mags, i).len() - 1 ==> (#[trigger] frames_from(mags, i)[k]).0 + 240
                <= frames_from(mags, i)[k + 1].0,
        forall|k: int|
            0 <= k < frames_from(mags, i).len() ==> (#[trigger] frames_from(mags, i)[k]).1.len()
                == 14 && frame_passes(frames_from(mags, i)[k].1),
    decreases mags.len() - i,
{
    if i + 240 < mags.len() {
        match frame_at(mags, i) {
            Some(frame) => {
                lemma_frames_apart(mags, i + 240);
                let rest = frames_from(mags, i + 240);
                let all = frames_from(mags, i);
                assert(all =~= seq![(i, frame)] + rest);
                assert forall|k: int| 0 <= k < all.len() implies i <= (#[trigger] all[k]).0
                    && all[k].0 + 240 < mags.len() by {
                    if k > 0 {
                        assert(all[k] == rest[k - 1]);
                    }
                }
                assert forall|k: int| 0 <= k < all.len() - 1 implies (#[trigger] all[k]).0 + 240
                    <= all[k + 1].0 by {
                    assert(all[k + 1] == rest[k]);
                    if k > 0 {
                        assert(all[k] == rest[k - 1]);
                    }
                }
                let payload = mags.subrange(i + 16, i + 240);
                let read = demodulated(payload, DecisionRule::Relative);
                assert(read is Some);
                assert(read->0.len() == 14);
                lemma_validated_passes(read->0);
                assert forall|k: int| 0 <= k < all.len() implies (#[trigger] all[k]).1.len() == 14
                    && frame_passes(all[k].1) by {
                    if k > 0 {
                        assert(all[k] == rest[k - 1]);
                    }
                }
            },
            None => {
                lemma_frames_apart(mags, i + 1);
                let rest = frames_from(mags, i + 1);
                let all = frames_from(mags, i);
                assert(all == rest);
                assert forall|k: int| 0 <= k < all.len() implies i <= (#[trigger] all[k]).0
                    && all[k].0 + 240 < mags.len() by {
                    assert(all[k] == rest[k]);
                }
                assert forall|k: int| 0 <= k < all.len() - 1 implies (#[trigger] all[k]).0 + 240
                    <= all[k + 1].0 by {
                    assert(all[k] == rest[k]);
                }
                assert forall|k: int| 0 <= k < all.len() implies (#[trigger] all[k]).1.len() == 14
                    && frame_passes(all[k].1) by {
                    assert(all[k] == rest[k]);
                }
            },
        }
    }
}

/// Scans a batch of magnitudes for frames. At each sample the detector is
/// tried and, where it lets the window through, the payload behind the
/// preamble is extracted. After a frame the scan goes on behind it, 240
/// samples on; otherwise it goes on at the next sample. A batch of fewer
/// than 241 samples holds no frame.
pub fn find_frames(mags: &Vec<u32>) -> (found: Vec<FoundFrame>)
    ensures
        found_view(found@) == frames_from(mags@, 0),
{
    let mut found: Vec<FoundFrame> = Vec::new();
    let len: usize = mags.len();
    if len <= FRAME_SAMPLES {
        assert(found_view(found@) =~= frames_from(mags@, 0));
        return found;
    }
    let last: usize = len - FRAME_SAMPLES;
    let mut i: usize = 0;
    assert(found_view(found@) + frames_from(mags@, 0) =~= frames_from(mags@, 0));
    while i < last
        invariant
            len == mags@.len(),
            len > FRAME_SAMPLES,
            last == len - FRAME_SAMPLES,
            found_view(found@) + frames_from(mags@, i as int) == frames_from(mags@, 0),
        decreases len + FRAME_SAMPLES - i,
    {
        let ghost before = found_view(found@);
        let mut step: usize = 1;
        match try_frame(mags.as_slice(), i, false) {
            Ok(bytes) => {
                let ghost frame = bytes@;
                found.push(FoundFrame { start: i, bytes });
                step = FRAME_SAMPLES;
                proof {
                    assert(frame_at(mags@, i as int) == Some(frame));
                    assert(found_view(found@) =~= before + seq![(i as int, frame)]);
                    assert(before + (seq![(i as int, frame)] + frames_from(mags@, i + 240)) =~= (
                    before + seq![(i as int, frame)]) + frames_from(mags@, i + 240));
                }
            },
            Err(_) => {
                assert(frame_at(mags@, i as int) is None);
            },
        }
        i = i + step;
    }
    proof {
        assert(frames_from(mags@, i as int) =~= Seq::<(int, Seq<u8>)>::empty());
        assert(found_view(found@) + Seq::<(int, Seq<u8>)>::empty() =~= found_view(found@));
    }
    found
}

} // verus!

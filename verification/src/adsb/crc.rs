//! Mode S parity: a 24-bit cyclic redundancy check over the data bits of a
//! frame, and recovery from a single flipped data bit.

use crate::adsb::bits::bit_at;
use vstd::prelude::*;

verus! {

/// The generator polynomial, 25 coefficients with the leading one included.
pub const GENERATOR: u32 = 0x1FF_F409;

/// The number of parity bytes at the end of a frame.
pub const PARITY_BYTES: usize = 3;

/// The bits of `data`, most significant bit of byte 0 first.
pub open spec fn message_bits(data: Seq<u8>) -> Seq<bool> {
    Seq::new(8 * data.len(), |k: int| bit_at(data, k))
}

/// `n` zero bits.
pub open spec fn zero_bits(n: nat) -> Seq<bool> {
    Seq::new(n, |k: int| false)
}

/// One step of polynomial division: the remainder `reg` times x, plus `bit`,
/// reduced modulo the generator.
pub open spec fn crc_feed(reg: u32, bit: bool) -> u32 {
    let shifted: u32 = (reg << 1u32) | (if bit { 1u32 } else { 0u32 });
    if shifted & 0x100_0000u32 != 0u32 {
        shifted ^ GENERATOR
    } else {
        shifted
    }
}

/// The remainder of the polynomial whose coefficients are `bits`, highest
/// degree first, modulo the generator.
pub open spec fn remainder_of_bits(bits: Seq<bool>) -> u32
    decreases bits.len(),
{
    if bits.len() == 0 {
        0u32
    } else {
        crc_feed(remainder_of_bits(bits.drop_last()), bits.last())
    }
}

/// The parity of `data`: the remainder of its bits followed by 24 zero bits.
pub open spec fn adsb_crc(data: Seq<u8>) -> u32 {
    remainder_of_bits(message_bits(data) + zero_bits(24))
}

/// `data` with its bit `k` inverted.
pub open spec fn flip_bit(data: Seq<u8>, k: int) -> Seq<u8> {
    data.update(k / 8, data[k / 8] ^ (0x80u8 >> ((k % 8) as u8)))
}

/// The data portion of a frame: all but the three parity bytes.
pub open spec fn data_part(frame: Seq<u8>) -> Seq<u8> {
    frame.take(frame.len() - 3)
}

/// Inverting data bit `k` of `frame` makes its data portion match `parity`.
pub open spec fn flip_recovers(frame: Seq<u8>, k: int, parity: u32) -> bool {
    &&& 0 <= k < 8 * (frame.len() - 3)
    &&& adsb_crc(data_part(flip_bit(frame, k))) == parity
}

/// The first data bit whose inversion recovers `frame`, searching bits
/// `from` and up; `None` when no single flip does.
pub open spec fn first_recovering_bit(frame: Seq<u8>, from: int, parity: u32) -> Option<int>
    decreases 8 * (frame.len() - 3) - from,
{
    if from < 0 || from >= 8 * (frame.len() - 3) {
        None
    } else if flip_recovers(frame, from, parity) {
        Some(from)
    } else {
        first_recovering_bit(frame, from + 1, parity)
    }
}

/// What single-bit recovery yields for `frame` against `parity`.
pub open spec fn recovered_frame(frame: Seq<u8>, parity: u32) -> Option<Seq<u8>> {
    match first_recovering_bit(frame, 0, parity) {
        Some(k) => Some(flip_bit(frame, k)),
        None => None,
    }
}

/// A remainder stays below 2^24.
proof fn lemma_feed_bound(reg: u32, bit: bool)
    requires
        reg < 0x100_0000,
    ensures
        crc_feed(reg, bit) < 0x100_0000,
{
    let b: u32 = if bit { 1u32 } else { 0u32 };
    assert(b <= 1);
    assert({
        let shifted: u32 = (reg << 1u32) | b;
        (if shifted & 0x100_0000u32 != 0u32 { shifted ^ 0x1FF_F409u32 } else { shifted })
            < 0x100_0000u32
    }) by (bit_vector)
        requires
            reg < 0x100_0000u32,
            b <= 1u32,
    ;
}

fn feed(reg: u32, bit: bool) -> (next: u32)
    requires
        reg < 0x100_0000,
    ensures
        next == crc_feed(reg, bit),
        next < 0x100_0000,
{
    proof {
        lemma_feed_bound(reg, bit);
    }
    let low: u32 = if bit { 1 } else { 0 };
    assert((reg << 1u32) <= 0x1FF_FFFEu32) by (bit_vector)
        requires
            reg < 0x100_0000u32,
    ;
    let shifted: u32 = (reg << 1u32) | low;
    if shifted & 0x100_0000u32 != 0 {
        shifted ^ GENERATOR
    } else {
        shifted
    }
}

/// The parity of the first `n` bytes of `buf`.
pub fn crc_of_prefix(buf: &Vec<u8>, n: usize) -> (crc: u32)
    requires
        n <= buf.len(),
    ensures
        crc == adsb_crc(buf@.take(n as int)),
        crc < 0x100_0000,
{
    let ghost data = buf@.take(n as int);
    let ghost bits = message_bits(data);
    let mut reg: u32 = 0;
    let mut i: usize = 0;
    assert(bits.take(0) =~= Seq::<bool>::empty());
    while i < n
        invariant
            i <= n <= buf.len(),
            data == buf@.take(n as int),
            bits == message_bits(data),
            reg < 0x100_0000,
            reg == remainder_of_bits(bits.take(8 * i)),
        decreases n - i,
    {
        let byte: u8 = buf[i];
        let mut j: u8 = 0;
        while j < 8
            invariant
                i < n <= buf.len(),
                j <= 8,
                data == buf@.take(n as int),
                bits == message_bits(data),
                byte == data[i as int],
                reg < 0x100_0000,
                reg == remainder_of_bits(bits.take(8 * i + j)),
            decreases 8 - j,
        {
            let bit: bool = (byte >> (7 - j)) & 1u8 == 1u8;
            proof {
                let k: int = 8 * i + j;
                assert(k / 8 == i && k % 8 == j);
                assert(bits[k] == bit);
                assert(bits.take(k + 1).drop_last() =~= bits.take(k));
                assert(bits.take(k + 1).last() == bits[k]);
            }
            reg = feed(reg, bit);
            j += 1;
        }
        i += 1;
    }
    assert(bits.take(8 * n) =~= bits);
    assert(bits + zero_bits(0) =~= bits);
    let mut z: usize = 0;
    while z < 24
        invariant
            z <= 24,
            reg < 0x100_0000,
            reg == remainder_of_bits(bits + zero_bits(z as nat)),
        decreases 24 - z,
    {
        proof {
            let next = bits + zero_bits((z + 1) as nat);
            assert(next.drop_last() =~= bits + zero_bits(z as nat));
            assert(next.last() == false);
        }
        reg = feed(reg, false);
        z += 1;
    }
    reg
}

/// Computes the 24-bit parity of `buf` by polynomial division.
pub fn get_adsb_crc(buf: &Vec<u8>) -> (crc: u32)
    ensures
        crc == adsb_crc(buf@),
        crc < 0x100_0000,
{
    assert(buf@.take(buf@.len() as int) =~= buf@);
    crc_of_prefix(buf, buf.len())
}

/// If no bit in `from..hit` recovers the frame and bit `hit` does, the search
/// from `from` finds `hit`.
pub proof fn lemma_first_recovering_bit_found(frame: Seq<u8>, from: int, hit: int, parity: u32)
    requires
        0 <= from <= hit,
        flip_recovers(frame, hit, parity),
        forall|k: int| from <= k < hit ==> !flip_recovers(frame, k, parity),
    ensures
        first_recovering_bit(frame, from, parity) == Some(hit),
    decreases hit - from,
{
    if from < hit {
        lemma_first_recovering_bit_found(frame, from + 1, hit, parity);
    }
}

/// If no data bit from `from` on recovers the frame, the search finds none.
pub proof fn lemma_first_recovering_bit_none(frame: Seq<u8>, from: int, parity: u32)
    requires
        forall|k: int| from <= k < 8 * (frame.len() - 3) ==> !flip_recovers(frame, k, parity),
    ensures
        first_recovering_bit(frame, from, parity) is None,
    decreases 8 * (frame.len() - 3) - from,
{
    if 0 <= from < 8 * (frame.len() - 3) {
        lemma_first_recovering_bit_none(frame, from + 1, parity);
    }
}

/// What the search finds is a data bit that recovers the frame, and no
/// earlier bit does.
pub proof fn lemma_first_recovering_bit_is_first(frame: Seq<u8>, from: int, parity: u32)
    ensures
        match first_recovering_bit(frame, from, parity) {
            Some(hit) => {
                &&& from <= hit
                &&& flip_recovers(frame, hit, parity)
                &&& forall|k: int| from <= k < hit ==> !flip_recovers(frame, k, parity)
            },
            None => forall|k: int|
                0 <= from <= k < 8 * (frame.len() - 3) ==> !flip_recovers(frame, k, parity),
        },
    decreases 8 * (frame.len() - 3) - from,
{
    if 0 <= from < 8 * (frame.len() - 3) && !flip_recovers(frame, from, parity) {
        lemma_first_recovering_bit_is_first(frame, from + 1, parity);
    }
}

/// Tries each data bit of `buf` in turn, most significant bit of byte 0
/// first, and returns the frame with the first bit inverted whose parity
/// then equals `packet_crc`. The parity bytes are never altered. Returns
/// `None` when no single inversion matches, and when `buf` has no data bits.
///
/// `calc_crc`, the parity computed over the unaltered data, does not
/// influence the result.
pub fn try_crc_recovery(buf: Vec<u8>, calc_crc: u32, packet_crc: u32) -> (fixed: Option<Vec<u8>>)
    ensures
        match fixed {
            Some(frame) => recovered_frame(buf@, packet_crc) == Some(frame@),
            None => recovered_frame(buf@, packet_crc) is None,
        },
{
    let n: usize = buf.len();
    if n < PARITY_BYTES {
        return None;
    }
    let data_len: usize = n - PARITY_BYTES;
    let ghost received = buf@;
    let mut work: Vec<u8> = buf;
    let mut num: usize = 0;
    while num < data_len
        invariant
            num <= data_len,
            received == buf@,
            data_len == received.len() - 3,
            work@ == received,
            forall|k: int| 0 <= k < 8 * num ==> !flip_recovers(received, k, packet_crc),
        decreases data_len - num,
    {
        let byte: u8 = work[num];
        let mut i: u8 = 0;
        while i < 8
            invariant
                num < data_len,
                received == buf@,
                data_len == received.len() - 3,
                i <= 8,
                work@.len() == received.len(),
                work@.update(num as int, byte) == received,
                byte == received[num as int],
                forall|k: int| 0 <= k < 8 * num + i ==> !flip_recovers(received, k, packet_crc),
            decreases 8 - i,
        {
            let flipped: u8 = byte ^ (0x80u8 >> i);
            work.set(num, flipped);
            let ghost k: int = 8 * num + i;
            proof {
                assert(k / 8 == num && k % 8 == i);
                assert(work@ =~= flip_bit(received, k));
            }
            let crc: u32 = crc_of_prefix(&work, data_len);
            if crc == packet_crc {
                proof {
                    assert(flip_recovers(received, k, packet_crc));
                    lemma_first_recovering_bit_found(received, 0, k, packet_crc);
                }
                return Some(work);
            }
            i += 1;
        }
        work.set(num, byte);
        assert(work@ =~= received);
        num += 1;
    }
    proof {
        lemma_first_recovering_bit_none(received, 0, packet_crc);
    }
    None
}

} // verus!

//! The signal-to-aircraft pipeline, one module per stage.

use crate::adsb::demod::{find_frames, frames_from, lemma_frames_apart, FoundFrame};
use crate::adsb::packet::{decoded_frame, AdsbPacket};
use crate::utils::{get_magnitude, lemma_floor_root_monotonic, magnitudes_of, power, Sample};
use vstd::prelude::*;

pub mod aircraft;
pub mod bits;
pub mod clock;
pub mod cpr;
pub mod crc;
pub mod demod;
pub mod msgs;
pub mod packet;

verus! {

/// The frames that a batch of samples holds: those that a scan of its
/// magnitudes finds, in the order of their places in the batch.
pub open spec fn batch_frames(mags: Seq<u32>) -> Seq<Seq<u8>> {
    frames_from(mags, 0).map_values(|found: (int, Seq<u8>)| found.1)
}

/// The packets are the frames, decoded one by one in their order.
pub open spec fn packets_decode(packets: Seq<AdsbPacket>, frames: Seq<Seq<u8>>) -> bool {
    &&& packets.len() == frames.len()
    &&& forall|k: int|
        0 <= k < packets.len() ==> (#[trigger] packets[k])@ == decoded_frame(
            frames[k],
            packets[k].time_processed,
        ) && packets[k].packet@ == frames[k]
}

/// The magnitudes of a batch are determined by its samples.
pub proof fn lemma_magnitudes_unique(levels: Seq<u32>, others: Seq<u32>, samples: Seq<Sample>)
    requires
        magnitudes_of(levels, samples),
        magnitudes_of(others, samples),
    ensures
        levels == others,
{
    assert forall|i: int| 0 <= i < levels.len() implies levels[i] == others[i] by {
        lemma_floor_root_monotonic(
            levels[i] as int,
            power(samples[i]),
            others[i] as int,
            power(samples[i]),
        );
        lemma_floor_root_monotonic(
            others[i] as int,
            power(samples[i]),
            levels[i] as int,
            power(samples[i]),
        );
    }
    assert(levels =~= others);
}

/// Takes one batch of samples through the stages up to the decoder: the
/// magnitudes are taken, scanned for frames, and every frame that validates
/// is decoded and stamped with the current time. The packets come in the
/// order of their frames in the batch.
pub fn process_batch(buf: &[Sample]) -> (packets: Vec<AdsbPacket>)
    ensures
        forall|mags: Seq<u32>| #[trigger]
            magnitudes_of(mags, buf@) ==> packets_decode(packets@, batch_frames(mags)),
{
    let mags: Vec<u32> = get_magnitude(buf);
    let found: Vec<FoundFrame> = find_frames(&mags);
    let ghost frames = batch_frames(mags@);
    proof {
        lemma_frames_apart(mags@, 0);
    }
    let mut packets: Vec<AdsbPacket> = Vec::new();
    let mut k: usize = 0;
    while k < found.len()
        invariant
            k <= found@.len(),
            found@.len() == frames.len(),
            packets@.len() == k,
            forall|j: int| 0 <= j < found@.len() ==> (#[trigger] found@[j]).bytes@ == frames[j],
            forall|j: int| 0 <= j < frames.len() ==> (#[trigger] frames[j]).len() == 14,
            forall|j: int|
                0 <= j < k ==> (#[trigger] packets@[j])@ == decoded_frame(
                    frames[j],
                    packets@[j].time_processed,
                ) && packets@[j].packet@ == frames[j],
        decreases found@.len() - k,
    {
        let bytes: Vec<u8> = found[k].bytes.clone();
        assert(bytes@ =~= found@[k as int].bytes@);
        packets.push(AdsbPacket::new(bytes));
        k += 1;
    }
    proof {
        assert forall|other: Seq<u32>| #[trigger] magnitudes_of(other, buf@) implies packets_decode(
            packets@,
            batch_frames(other),
        ) by {
            lemma_magnitudes_unique(other, mags@, buf@);
        }
    }
    packets
}

} // verus!

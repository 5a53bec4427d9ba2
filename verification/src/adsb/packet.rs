//! A validated 112-bit frame split into its fields, with its message
//! decoded.

use crate::adsb::bits::{field, lemma_field_bound, read_field};
use crate::adsb::clock::{now, Timestamp};
use crate::adsb::msgs::{decoded_message, AdsbMsgType, Message};
use vstd::arithmetic::power2::lemma2_to64;
use vstd::prelude::*;

verus! {

/// The downlink format of an extended squitter.
pub const EXTENDED_SQUITTER: u8 = 17;

/// The least number of bytes that a frame needs to hold the ME field.
pub const MIN_PACKET_BYTES: usize = 11;

/// A decoded frame.
#[derive(Debug, Clone)]
pub struct AdsbPacket {
    pub packet: Vec<u8>,
    pub downlink_format: u8,
    pub capability: u8,
    pub icao: u32,
    pub msg_type: u8,
    pub msg: AdsbMsgType,
    pub time_processed: Timestamp,
}

/// What a decoded frame says.
pub struct Frame {
    pub downlink_format: u8,
    pub capability: u8,
    pub icao: u32,
    pub type_code: u8,
    pub message: Message,
    pub time: Timestamp,
}

impl View for AdsbPacket {
    type V = Frame;

    open spec fn view(&self) -> Frame {
        Frame {
            downlink_format: self.downlink_format,
            capability: self.capability,
            icao: self.icao,
            type_code: self.msg_type,
            message: self.msg@,
            time: self.time_processed,
        }
    }
}

/// The ME field of a frame: its bytes 4 to 10.
pub open spec fn me_field(packet: Seq<u8>) -> Seq<u8> {
    packet.subrange(4, 11)
}

/// What the frame `packet`, received at `time`, says: downlink format in
/// bits 0-4, capability in bits 5-7, the 24-bit address in bytes 1 to 3,
/// and the ME field, whose first five bits are the type code, in bytes 4 to
/// 10.
pub open spec fn decoded_frame(packet: Seq<u8>, time: Timestamp) -> Frame {
    Frame {
        downlink_format: field(packet, 0, 5) as u8,
        capability: field(packet, 5, 3) as u8,
        icao: field(packet, 8, 24) as u32,
        type_code: field(me_field(packet), 0, 5) as u8,
        message: decoded_message(me_field(packet)),
        time,
    }
}

impl AdsbPacket {
    /// Decodes a frame and stamps it with the current time.
    pub fn new(packet: Vec<u8>) -> (decoded: AdsbPacket)
        requires
            packet@.len() >= MIN_PACKET_BYTES,
        ensures
            decoded@ == decoded_frame(packet@, decoded.time_processed),
            decoded.packet@ == packet@,
    {
        AdsbPacket::new_at(packet, now())
    }

    /// Decodes a frame that was received at `time`.
    pub fn new_at(packet: Vec<u8>, time: Timestamp) -> (decoded: AdsbPacket)
        requires
            packet@.len() >= MIN_PACKET_BYTES,
        ensures
            decoded@ == decoded_frame(packet@, time),
            decoded.packet@ == packet@,
    {
        proof {
            lemma2_to64();
            lemma_field_bound(packet@, 0, 5);
            lemma_field_bound(packet@, 5, 3);
            lemma_field_bound(packet@, 8, 24);
        }
        let bytes: &[u8] = packet.as_slice();
        let downlink_format: u8 = read_field(bytes, 0, 5) as u8;
        let capability: u8 = read_field(bytes, 5, 3) as u8;
        let icao: u32 = read_field(bytes, 8, 24);
        let me: [u8; 7] = [
            packet[4],
            packet[5],
            packet[6],
            packet[7],
            packet[8],
            packet[9],
            packet[10],
        ];
        assert(me@ =~= me_field(packet@));
        proof {
            lemma_field_bound(me@, 0, 5);
        }
        let msg_type: u8 = read_field(me.as_slice(), 0, 5) as u8;
        let msg: AdsbMsgType = AdsbMsgType::decode(me);
        AdsbPacket {
            packet,
            downlink_format,
            capability,
            icao,
            msg_type,
            msg,
            time_processed: time,
        }
    }

    /// Returns the 24-bit address of the sender.
    pub fn get_icao(&self) -> (icao: u32)
        ensures
            icao == self.icao,
    {
        self.icao
    }
}

} // verus!

//! The basic message set: identification, and position reduced to its
//! altitude.

use crate::adsb::bits::{field, lemma_field_bound, read_field};
use crate::adsb::msgs::{altitude_from_code, altitude_of_code, callsign_of};
use vstd::arithmetic::power2::lemma2_to64;
use vstd::prelude::*;

verus! {

/// A decoded ME field of the basic message set.
#[derive(Debug)]
pub enum AdsbMsgType {
    AircraftID(AircraftID),
    AircarftPosition(AircarftPosition),
    Uknown(UknownMsg),
}

/// A message kind that is selected by type code.
pub trait AdsbMsg {
    /// The type codes that this kind of message covers.
    spec fn covers(id: u8) -> bool;

    /// Whether a message with type code `id` is of this kind.
    fn msg_id_match(id: u8) -> (matched: bool) where Self: Sized
        ensures
            matched == Self::covers(id),
    ;
}

/// An ME field that is not decoded further.
#[derive(Debug)]
pub struct UknownMsg {
    pub raw_msg: Vec<u8>,
}

/// A position message of which only the altitude is read.
#[derive(Debug)]
pub struct AircarftPosition {
    pub raw_msg: [u8; 7],
    /// The altitude in feet.
    pub altitude: i32,
    pub latitude: u32,
    pub longitude: u32,
}

impl AircarftPosition {
    /// Reads the altitude from the altitude code in bits 8-19 of the ME
    /// field. Latitude and longitude are left at zero.
    pub fn new(msg: [u8; 7]) -> (pos: Self)
        ensures
            pos.raw_msg == msg,
            pos.altitude == altitude_of_code(field(msg@, 8, 12)),
            pos.latitude == 0,
            pos.longitude == 0,
    {
        proof {
            lemma2_to64();
            lemma_field_bound(msg@, 8, 12);
        }
        let code: u16 = read_field(msg.as_slice(), 8, 12) as u16;
        let altitude: i32 = altitude_from_code(code);
        AircarftPosition { raw_msg: msg, altitude, latitude: 0, longitude: 0 }
    }
}

impl AdsbMsg for AircarftPosition {
    open spec fn covers(id: u8) -> bool {
        9 <= id <= 18
    }

    fn msg_id_match(id: u8) -> (matched: bool) {
        9 <= id && id <= 18
    }
}

/// An aircraft identification message.
#[derive(Debug)]
pub struct AircraftID {
    pub raw_msg: [u8; 7],
    pub callsign: String,
}

/// Regroups `input` into 6-bit groups, first bits first, one group per
/// output byte.
pub fn to_6bit_chunks(input: &[u8]) -> (out: Vec<u8>)
    requires
        8 * input@.len() <= usize::MAX,
    ensures
        out@.len() == crate::adsb::msgs::six_bit_groups(input@.len()),
        forall|k: int|
            0 <= k < out@.len() ==> #[trigger] out@[k] == crate::adsb::msgs::six_bit_group(
                input@,
                k,
            ),
{
    crate::adsb::msgs::to_6bit_chunks(input)
}

impl AircraftID {
    /// Decodes the callsign from the 48 bits after the first byte of the ME
    /// field.
    pub fn new(msg: [u8; 7]) -> (id: Self)
        ensures
            id.raw_msg == msg,
            id.callsign@ == callsign_of(msg@),
    {
        let full = crate::adsb::msgs::AircraftID::new(msg);
        AircraftID { raw_msg: msg, callsign: full.callsign }
    }
}

impl AdsbMsg for AircraftID {
    open spec fn covers(id: u8) -> bool {
        1 <= id <= 4
    }

    fn msg_id_match(id: u8) -> (matched: bool) {
        1 <= id && id <= 4
    }
}

} // verus!

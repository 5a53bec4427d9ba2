//! A plain record of one aircraft: callsign, altitude and the time of the
//! last contact, without position solving.

use crate::adsb::clock::Timestamp;
use crate::adsb::msgs::{AdsbMsgType, Message};
use crate::adsb::packet::{AdsbPacket, Frame, EXTENDED_SQUITTER};
use vstd::prelude::*;

verus! {

/// What is recorded of one aircraft.
#[derive(Debug)]
pub struct Aircraft {
    pub icao: u32,
    pub callsign: String,
    pub altitude: i32,
    pub last_contact: Timestamp,
}

/// The state of a record.
pub struct Record {
    pub icao: u32,
    pub callsign: Seq<char>,
    pub altitude: int,
    pub last_contact: Timestamp,
}

impl View for Aircraft {
    type V = Record;

    open spec fn view(&self) -> Record {
        Record {
            icao: self.icao,
            callsign: self.callsign@,
            altitude: self.altitude as int,
            last_contact: self.last_contact,
        }
    }
}

/// The record after a frame. A frame of another aircraft, or one that is no
/// extended squitter, changes nothing. Any other frame sets the time of the
/// last contact; a position report sets the altitude and an identification
/// the callsign.
pub open spec fn record_after(record: Record, frame: Frame) -> Record {
    if frame.icao != record.icao || frame.downlink_format != EXTENDED_SQUITTER {
        record
    } else {
        match frame.message {
            Message::Position(report) => Record {
                altitude: report.altitude,
                last_contact: frame.time,
                ..record
            },
            Message::Ident(ident) => Record {
                callsign: ident.callsign,
                last_contact: frame.time,
                ..record
            },
            Message::Unknown(_) => Record { last_contact: frame.time, ..record },
        }
    }
}

impl Aircraft {
    /// A record with the address `icao`, an empty callsign, the altitude 0
    /// and a last contact at the start of the epoch.
    pub fn new(icao: u32) -> (aircraft: Self)
        ensures
            aircraft@ == (Record {
                icao,
                callsign: Seq::<char>::empty(),
                altitude: 0,
                last_contact: Timestamp { millis: 0 },
            }),
    {
        Aircraft {
            icao,
            callsign: String::new(),
            altitude: 0,
            last_contact: Timestamp::from_millis(0),
        }
    }

    /// Takes over from a frame what it says of this aircraft.
    pub fn handle_packet(&mut self, msg: AdsbPacket)
        ensures
            final(self)@ == record_after(old(self)@, msg@),
    {
        if msg.icao != self.icao || msg.downlink_format != EXTENDED_SQUITTER {
            return ;
        }
        self.last_contact = msg.time_processed;
        match msg.msg {
            AdsbMsgType::AircraftPosition(pos) => {
                self.altitude = pos.altitude;
            },
            AdsbMsgType::AircraftID(id) => {
                self.callsign = id.callsign;
            },
            AdsbMsgType::Uknown(_unknown) => {},
        }
    }
}

} // verus!

//! What is known of each aircraft, merged from the frames it sent.

use crate::adsb::clock::{
    gap_ms, now, seconds_between, Timestamp, PAIR_WINDOW_MS, STALE_AFTER_SECONDS,
};
use crate::adsb::cpr::{
    calculate_geographic_position, other_format, solved_position, GeographicPosition,
};
use crate::adsb::msgs::{AdsbMsgType, AircraftPosition, CprFormat, Message, PositionReport};
use crate::adsb::packet::{AdsbPacket, Frame, EXTENDED_SQUITTER};
use std::collections::HashMap;
use vstd::prelude::*;
use vstd::std_specs::hash::spec_hash_map_iter;
use vstd::std_specs::iter::IteratorSpec;

verus! {

broadcast use vstd::std_specs::hash::group_hash_axioms;

/// What is known of one aircraft.
#[derive(Debug)]
pub struct Aircraft {
    icao: u32,
    callsign: Option<String>,
    altitude: i32,
    geo_position: Option<GeographicPosition>,
    last_contact: Timestamp,
    last_odd_packet: Option<AircraftPosition>,
    last_odd_processed: Timestamp,
    last_even_packet: Option<AircraftPosition>,
    last_even_processed: Timestamp,
}

/// The latest position report of one parity, with the time it came.
pub struct CprSlot {
    pub report: PositionReport,
    pub time: Timestamp,
}

/// The state of one aircraft.
pub struct AircraftState {
    /// The 24-bit address.
    pub icao: u32,
    /// The callsign, once an identification has come.
    pub callsign: Option<Seq<char>>,
    /// The altitude in feet of the latest position report; 0 before the
    /// first.
    pub altitude: int,
    /// The latest solved position.
    pub position: Option<GeographicPosition>,
    /// The time of the latest frame.
    pub last_contact: Timestamp,
    /// The latest even position report.
    pub even: Option<CprSlot>,
    /// The latest odd position report.
    pub odd: Option<CprSlot>,
}

/// The state of an aircraft of which nothing but its address is known yet,
/// first heard of at `time`.
pub open spec fn fresh_state(icao: u32, time: Timestamp) -> AircraftState {
    AircraftState {
        icao,
        callsign: None,
        altitude: 0,
        position: None,
        last_contact: time,
        even: None,
        odd: None,
    }
}

/// The slot of the parity `format`.
pub open spec fn slot_of(state: AircraftState, format: CprFormat) -> Option<CprSlot> {
    match format {
        CprFormat::Even => state.even,
        CprFormat::Odd => state.odd,
    }
}

/// `state` with the slot of the parity `format` replaced.
pub open spec fn with_slot(state: AircraftState, format: CprFormat, slot: Option<CprSlot>) -> AircraftState {
    match format {
        CprFormat::Even => AircraftState { even: slot, ..state },
        CprFormat::Odd => AircraftState { odd: slot, ..state },
    }
}

/// The raw latitude and longitude of a position report.
pub open spec fn raw_position(report: PositionReport) -> (u32, u32) {
    (report.cpr_latitude, report.cpr_longitude)
}

/// Why a position report did not lead to a position.
#[derive(Debug, Clone, Copy, PartialEq, Eq, Structural)]
pub enum CprUnresolved {
    /// No report of the other parity is held.
    NoPair,
    /// The report of the other parity is more than ten seconds away.
    StalePair,
    /// The pair has no solution: its two latitudes lie in different bands
    /// of longitude zones, or a raw value does not fit in 17 bits.
    ZoneMismatch,
}

/// What a position report that came at `time` gives together with the held
/// report of the other parity, the held one being the older of the two.
pub open spec fn pair_outcome(report: PositionReport, time: Timestamp, other: Option<CprSlot>) -> Result<
    GeographicPosition,
    CprUnresolved,
> {
    match other {
        None => Err(CprUnresolved::NoPair),
        Some(other) => if gap_ms(time, other.time) > PAIR_WINDOW_MS {
            Err(CprUnresolved::StalePair)
        } else {
            let (even, odd) = match report.cpr_format {
                CprFormat::Even => (raw_position(report), raw_position(other.report)),
                CprFormat::Odd => (raw_position(other.report), raw_position(report)),
            };
            match solved_position(even, odd, other_format(report.cpr_format)) {
                Some(position) => Ok(position),
                None => Err(CprUnresolved::ZoneMismatch),
            }
        },
    }
}

/// The state after a position report that came at `time`. The altitude and
/// the slot of the report's parity are replaced. Then the report is paired
/// with the held report of the other parity: a solution becomes the
/// position, a pair without a solution empties the slot of the older
/// report, and without a pair in time the position stays as it is.
pub open spec fn after_position(state: AircraftState, report: PositionReport, time: Timestamp) -> AircraftState {
    let older = other_format(report.cpr_format);
    let stored = with_slot(
        AircraftState { altitude: report.altitude, last_contact: time, ..state },
        report.cpr_format,
        Some(CprSlot { report, time }),
    );
    match pair_outcome(report, time, slot_of(state, older)) {
        Ok(position) => AircraftState { position: Some(position), ..stored },
        Err(CprUnresolved::ZoneMismatch) => with_slot(stored, older, None),
        Err(_) => stored,
    }
}

/// The slot that a held report and its time make.
pub open spec fn slot_view(held: Option<(AircraftPosition, Timestamp)>) -> Option<CprSlot> {
    match held {
        Some((report, time)) => Some(CprSlot { report: report@, time }),
        None => None,
    }
}

/// Pairs a position report that came at `time` with the held report of the
/// other parity, if there is one, and solves the pair with the held report
/// as the older one. Says why where no position comes of it.
pub fn resolve_pair(
    report: &AircraftPosition,
    time: Timestamp,
    held: Option<(AircraftPosition, Timestamp)>,
) -> (outcome: Result<GeographicPosition, CprUnresolved>)
    ensures
        outcome == pair_outcome(report@, time, slot_view(held)),
{
    let (other, other_time): (AircraftPosition, Timestamp) = match held {
        Some(pair) => pair,
        None => {
            return Err(CprUnresolved::NoPair);
        },
    };
    if !time.within(&other_time, PAIR_WINDOW_MS) {
        return Err(CprUnresolved::StalePair);
    }
    let (cpr_even, cpr_odd, first): ((u32, u32), (u32, u32), CprFormat) =
        match report.get_cpr_format() {
        CprFormat::Even => (report.get_cpr_position(), other.get_cpr_position(), CprFormat::Odd),
        CprFormat::Odd => (other.get_cpr_position(), report.get_cpr_position(), CprFormat::Even),
    };
    match calculate_geographic_position(cpr_even, cpr_odd, first) {
        Some(position) => Ok(position),
        None => Err(CprUnresolved::ZoneMismatch),
    }
}

/// The state after a frame. A frame of another aircraft, or one that is no
/// extended squitter, changes nothing. Any other frame sets the time of the
/// last contact; an identification replaces the callsign, and a position
/// report is merged as `after_position` says.
pub open spec fn after_frame(state: AircraftState, frame: Frame) -> AircraftState {
    if frame.icao != state.icao || frame.downlink_format != EXTENDED_SQUITTER {
        state
    } else {
        match frame.message {
            Message::Ident(ident) => AircraftState {
                callsign: Some(ident.callsign),
                last_contact: frame.time,
                ..state
            },
            Message::Position(report) => after_position(state, report, frame.time),
            Message::Unknown(_) => AircraftState { last_contact: frame.time, ..state },
        }
    }
}

/// Whether an aircraft in the state `state` is stale at `time`: its last
/// contact lies more than 30 whole seconds back.
pub open spec fn is_stale_at(state: AircraftState, time: Timestamp) -> bool {
    seconds_between(state.last_contact, time) > STALE_AFTER_SECONDS
}

/// Whether `seconds` is the age of an aircraft in the state `state` at some
/// point in time: the whole seconds from its last contact to that point,
/// rounded toward zero.
pub open spec fn is_age_at_some_time(state: AircraftState, seconds: int) -> bool {
    exists|time: Timestamp| seconds == #[trigger] seconds_between(state.last_contact, time)
}

/// No report that a state holds came after its last contact.
pub open spec fn contact_is_latest(state: AircraftState) -> bool {
    &&& state.even matches Some(slot) ==> slot.time.millis <= state.last_contact.millis
    &&& state.odd matches Some(slot) ==> slot.time.millis <= state.last_contact.millis
}

/// Each slot holds a report of its own parity.
pub open spec fn slots_sorted(state: AircraftState) -> bool {
    &&& state.even matches Some(slot) ==> slot.report.cpr_format == CprFormat::Even
    &&& state.odd matches Some(slot) ==> slot.report.cpr_format == CprFormat::Odd
}

/// A fresh state holds no report, so nothing in it came after its last
/// contact.
pub proof fn lemma_fresh_state_consistent(icao: u32, time: Timestamp)
    ensures
        contact_is_latest(fresh_state(icao, time)),
        slots_sorted(fresh_state(icao, time)),
{
}

/// Frames that come in the order of their times keep a state consistent: if
/// no report came after the last contact, and the frame is no older than
/// the last contact, then no report came after the new last contact.
pub proof fn lemma_contact_stays_latest(state: AircraftState, frame: Frame)
    requires
        contact_is_latest(state),
        state.last_contact.millis <= frame.time.millis,
    ensures
        contact_is_latest(after_frame(state, frame)),
{
}

/// Each slot keeps holding a report of its own parity.
pub proof fn lemma_slots_stay_sorted(state: AircraftState, frame: Frame)
    requires
        slots_sorted(state),
    ensures
        slots_sorted(after_frame(state, frame)),
{
}

/// A frame never changes the address, and only an extended squitter of this
/// aircraft changes anything.
pub proof fn lemma_only_own_frames_count(state: AircraftState, frame: Frame)
    ensures
        after_frame(state, frame).icao == state.icao,
        frame.icao != state.icao || frame.downlink_format != EXTENDED_SQUITTER ==> after_frame(
            state,
            frame,
        ) == state,
{
}

/// The altitude changes only with a position report, to the altitude that
/// the report gives.
pub proof fn lemma_altitude_from_position(state: AircraftState, frame: Frame)
    ensures
        after_frame(state, frame).altitude != state.altitude ==> (frame.message matches Message::Position(
            report,
        ) && after_frame(state, frame).altitude == report.altitude),
{
}

/// The position changes only with a position report whose counterpart of
/// the other parity is held and came no more than ten seconds apart, and
/// then to the solution of that pair.
pub proof fn lemma_position_from_fresh_pair(state: AircraftState, frame: Frame)
    ensures
        after_frame(state, frame).position != state.position ==> (frame.message matches Message::Position(
            report,
        ) && slot_of(state, other_format(report.cpr_format)) matches Some(other) && gap_ms(
            frame.time,
            other.time,
        ) <= PAIR_WINDOW_MS && after_frame(state, frame).position is Some),
{
}

impl View for Aircraft {
    type V = AircraftState;

    closed spec fn view(&self) -> AircraftState {
        AircraftState {
            icao: self.icao,
            callsign: match self.callsign {
                Some(callsign) => Some(callsign@),
                None => None,
            },
            altitude: self.altitude as int,
            position: self.geo_position,
            last_contact: self.last_contact,
            even: match self.last_even_packet {
                Some(report) => Some(CprSlot { report: report@, time: self.last_even_processed }),
                None => None,
            },
            odd: match self.last_odd_packet {
                Some(report) => Some(CprSlot { report: report@, time: self.last_odd_processed }),
                None => None,
            },
        }
    }
}

impl Clone for Aircraft {
    fn clone(&self) -> (copy: Self)
        ensures
            copy@ == self@,
    {
        Aircraft {
            icao: self.icao,
            callsign: match &self.callsign {
                Some(callsign) => Some(callsign.clone()),
                None => None,
            },
            altitude: self.altitude,
            geo_position: self.geo_position,
            last_contact: self.last_contact,
            last_odd_packet: self.last_odd_packet,
            last_odd_processed: self.last_odd_processed,
            last_even_packet: self.last_even_packet,
            last_even_processed: self.last_even_processed,
        }
    }
}

impl Aircraft {
    /// An aircraft of which nothing but its address is known yet, first
    /// heard of now.
    pub fn new(icao: u32) -> (aircraft: Self)
        ensures
            aircraft@ == fresh_state(icao, aircraft@.last_contact),
    {
        Aircraft::new_at(icao, now())
    }

    /// An aircraft of which nothing but its address is known yet, first
    /// heard of at `time`.
    pub fn new_at(icao: u32, time: Timestamp) -> (aircraft: Self)
        ensures
            aircraft@ == fresh_state(icao, time),
    {
        Aircraft {
            icao,
            callsign: None,
            altitude: 0,
            geo_position: None,
            last_contact: time,
            last_odd_packet: None,
            last_even_packet: None,
            last_odd_processed: time,
            last_even_processed: time,
        }
    }

    /// Merges a frame into what is known of this aircraft.
    pub fn handle_packet(&mut self, msg: AdsbPacket)
        ensures
            final(self)@ == after_frame(old(self)@, msg@),
    {
        if msg.get_icao() != self.icao || msg.downlink_format != EXTENDED_SQUITTER {
            return ;
        }
        let time: Timestamp = msg.time_processed;
        match msg.msg {
            AdsbMsgType::AircraftPosition(pos) => {
                self.altitude = pos.get_altitude_ft();
                self.last_contact = time;
                let held: Option<(AircraftPosition, Timestamp)>;
                match pos.get_cpr_format() {
                    CprFormat::Even => {
                        self.last_even_packet = Some(pos);
                        self.last_even_processed = time;
                        held = match self.last_odd_packet {
                            Some(odd_pos) => Some((odd_pos, self.last_odd_processed)),
                            None => None,
                        };
                    },
                    CprFormat::Odd => {
                        self.last_odd_packet = Some(pos);
                        self.last_odd_processed = time;
                        held = match self.last_even_packet {
                            Some(even_pos) => Some((even_pos, self.last_even_processed)),
                            None => None,
                        };
                    },
                }
                match resolve_pair(&pos, time, held) {
                    Ok(geo_position) => {
                        self.geo_position = Some(geo_position);
                    },
                    Err(CprUnresolved::ZoneMismatch) => {
                        match pos.get_cpr_format() {
                            CprFormat::Even => {
                                self.last_odd_packet = None;
                            },
                            CprFormat::Odd => {
                                self.last_even_packet = None;
                            },
                        }
                    },
                    Err(_) => {},
                }
            },
            AdsbMsgType::AircraftID(id) => {
                self.callsign = Some(id.get_callsign());
                self.last_contact = time;
            },
            AdsbMsgType::Uknown(_unknown) => {
                self.last_contact = time;
            },
        }
    }

    /// Returns the 24-bit address.
    pub fn get_icao(&self) -> (icao: u32)
        ensures
            icao == self@.icao,
    {
        self.icao
    }

    /// Returns the callsign, or the empty string where none is known.
    pub fn get_callsign(&self) -> (callsign: String)
        ensures
            callsign@ == match self@.callsign {
                Some(known) => known,
                None => Seq::<char>::empty(),
            },
    {
        match &self.callsign {
            Some(callsign) => callsign.clone(),
            None => String::new(),
        }
    }

    /// Returns the altitude in feet of the latest position report, or 0
    /// where none has come.
    pub fn get_altitude_ft(&self) -> (feet: i32)
        ensures
            feet == self@.altitude,
    {
        self.altitude
    }

    /// Returns the whole seconds since the last contact, by the wall clock:
    /// the age at the point in time that the clock gives, whichever that is.
    pub fn get_age(&self) -> (seconds: i64)
        ensures
            is_age_at_some_time(self@, seconds as int),
    {
        let time: Timestamp = now();
        let seconds: i64 = self.age_at(time);
        assert(seconds == seconds_between(self@.last_contact, time));
        seconds
    }

    /// Returns the whole seconds from the last contact to `time`.
    pub fn age_at(&self, time: Timestamp) -> (seconds: i64)
        ensures
            seconds == seconds_between(self@.last_contact, time),
    {
        time.seconds_since(&self.last_contact)
    }

    /// Whether the last contact lies more than 30 whole seconds before
    /// `time`, so that the reference policy drops the aircraft.
    pub fn is_stale(&self, time: Timestamp) -> (stale: bool)
        ensures
            stale == is_stale_at(self@, time),
    {
        self.age_at(time) > STALE_AFTER_SECONDS
    }

    /// Returns the time of the last contact.
    pub fn get_last_contact(&self) -> (time: Timestamp)
        ensures
            time == self@.last_contact,
    {
        self.last_contact
    }

    /// Returns the latest solved position.
    pub fn get_geo_position(&self) -> (position: Option<GeographicPosition>)
        ensures
            position == self@.position,
    {
        self.geo_position
    }
}

/// The states of the aircraft in a table, by address.
pub open spec fn table_states(table: Map<u32, Aircraft>) -> Map<u32, AircraftState> {
    table.map_values(|aircraft: Aircraft| aircraft@)
}

/// The table after a frame. A frame that is no extended squitter changes
/// nothing. Any other frame is merged into the entry of its sender, which is
/// made first where the sender is new.
pub open spec fn table_after(table: Map<u32, AircraftState>, frame: Frame) -> Map<u32, AircraftState> {
    if frame.downlink_format != EXTENDED_SQUITTER {
        table
    } else {
        let prior = if table.contains_key(frame.icao) {
            table[frame.icao]
        } else {
            fresh_state(frame.icao, frame.time)
        };
        table.insert(frame.icao, after_frame(prior, frame))
    }
}

/// Every entry of a table stands under its own address.
pub open spec fn table_keyed(table: Map<u32, AircraftState>) -> bool {
    forall|icao: u32| #[trigger] table.contains_key(icao) ==> table[icao].icao == icao
}

/// Every entry of a table is consistent: none of its reports came after its
/// last contact.
pub open spec fn table_consistent(table: Map<u32, AircraftState>) -> bool {
    forall|icao: u32| #[trigger] table.contains_key(icao) ==> contact_is_latest(table[icao])
}

/// An entry exists after a frame exactly if it existed before or the frame
/// is an extended squitter from its address; entries stay under their own
/// addresses.
pub proof fn lemma_table_entries(table: Map<u32, AircraftState>, frame: Frame, icao: u32)
    requires
        table_keyed(table),
    ensures
        table_keyed(table_after(table, frame)),
        table_after(table, frame).contains_key(icao) <==> table.contains_key(icao) || (
        frame.downlink_format == EXTENDED_SQUITTER && frame.icao == icao),
        icao != frame.icao && table.contains_key(icao) ==> table_after(table, frame)[icao]
            == table[icao],
{
    let after = table_after(table, frame);
    assert forall|k: u32| #[trigger] after.contains_key(k) implies after[k].icao == k by {
        if frame.downlink_format == EXTENDED_SQUITTER && k == frame.icao {
            if table.contains_key(k) {
                lemma_only_own_frames_count(table[k], frame);
            } else {
                lemma_only_own_frames_count(fresh_state(k, frame.time), frame);
            }
        } else {
            assert(table.contains_key(k));
        }
    }
}

/// Frames that come in the order of their times keep a table consistent.
pub proof fn lemma_table_stays_consistent(table: Map<u32, AircraftState>, frame: Frame)
    requires
        table_consistent(table),
        table.contains_key(frame.icao) ==> table[frame.icao].last_contact.millis
            <= frame.time.millis,
    ensures
        table_consistent(table_after(table, frame)),
{
    let after = table_after(table, frame);
    assert forall|k: u32| #[trigger] after.contains_key(k) implies contact_is_latest(after[k]) by {
        if frame.downlink_format == EXTENDED_SQUITTER && k == frame.icao {
            if table.contains_key(k) {
                lemma_contact_stays_latest(table[k], frame);
            } else {
                lemma_fresh_state_consistent(k, frame.time);
                lemma_contact_stays_latest(fresh_state(k, frame.time), frame);
            }
        } else {
            assert(table.contains_key(k));
        }
    }
}

/// Merges a frame into the table of aircraft: into the entry of its sender,
/// which is made first where the sender is new. Returns a copy of that entry
/// as it then stands. A frame that is no extended squitter leaves the table
/// as it is and gives `None`.
pub fn handle_aircraft_update(packet: AdsbPacket, aircrafts: &mut HashMap<u32, Aircraft>) -> (updated:
    Option<Aircraft>)
    ensures
        table_states(final(aircrafts)@) == table_after(table_states(old(aircrafts)@), packet@),
        match updated {
            Some(aircraft) => {
                &&& packet@.downlink_format == EXTENDED_SQUITTER
                &&& final(aircrafts)@.contains_key(packet@.icao)
                &&& aircraft@ == final(aircrafts)@[packet@.icao]@
            },
            None => packet@.downlink_format != EXTENDED_SQUITTER,
        },
{
    if packet.downlink_format != EXTENDED_SQUITTER {
        return None;
    }
    let icao: u32 = packet.get_icao();
    let ghost frame = packet@;
    let ghost before = aircrafts@;
    let mut aircraft: Aircraft = match aircrafts.remove(&icao) {
        Some(known) => known,
        None => Aircraft::new_at(icao, packet.time_processed),
    };
    aircraft.handle_packet(packet);
    let copy: Aircraft = aircraft.clone();
    aircrafts.insert(icao, aircraft);
    assert(table_states(aircrafts@) =~= table_after(table_states(before), frame));
    Some(copy)
}

/// Whether `list` holds the entries of `table`, each once: there is a way to
/// name the address that each item stands under, no address twice and
/// every address of the table among them.
pub open spec fn holds_each_once(list: Seq<AircraftState>, table: Map<u32, AircraftState>) -> bool {
    exists|keys: Seq<u32>| listed_under(list, table, keys)
}

/// Whether `list` holds the entries of `table` under the addresses `keys`,
/// item by item, with no address twice and every address of the table among
/// them.
pub open spec fn listed_under(list: Seq<AircraftState>, table: Map<u32, AircraftState>, keys: Seq<u32>) -> bool {
    &&& keys.len() == list.len()
    &&& keys.no_duplicates()
    &&& keys.to_set() == table.dom()
    &&& forall|i: int| 0 <= i < list.len() ==> #[trigger] list[i] == table[keys[i]]
}

/// The states of the aircraft in a list, in its order.
pub open spec fn list_states(list: Seq<Aircraft>) -> Seq<AircraftState> {
    list.map_values(|aircraft: Aircraft| aircraft@)
}

/// Whether the ages at `time` never fall from one item of `list` to the
/// next.
pub open spec fn freshest_first(list: Seq<AircraftState>, time: Timestamp) -> bool {
    forall|i: int, j: int|
        0 <= i <= j < list.len() ==> seconds_between(list[i].last_contact, time)
            <= seconds_between(list[j].last_contact, time)
}

/// Copies every entry of the table into a list, in no particular order.
fn copy_entries(aircrafts: &HashMap<u32, Aircraft>) -> (out: (Vec<Aircraft>, Ghost<Seq<u32>>))
    ensures
        listed_under(list_states(out.0@), table_states(aircrafts@), out.1@),
{
    let mut list: Vec<Aircraft> = Vec::new();
    let ghost mut keys: Seq<u32> = Seq::empty();
    for entry in it: aircrafts.iter()
        invariant
            it.seq() == spec_hash_map_iter(aircrafts).remaining(),
            it.seq().no_duplicates(),
            list@.len() == it.index(),
            keys.len() == it.index(),
            forall|i: int| 0 <= i < keys.len() ==> #[trigger] keys[i] == *it.seq()[i].0,
            forall|i: int| 0 <= i < list@.len() ==> (#[trigger] list@[i])@ == (*it.seq()[i].1)@,
    {
        let (_icao, aircraft) = entry;
        list.push(aircraft.clone());
        proof {
            keys = keys.push(*entry.0);
        }
    }
    proof {
        let pairs = spec_hash_map_iter(aircrafts).remaining();
        let states = list_states(list@);
        let table = table_states(aircrafts@);
        assert(keys.len() == pairs.len());
        assert(keys.no_duplicates()) by {
            assert forall|i: int, j: int|
                0 <= i < keys.len() && 0 <= j < keys.len() && i != j implies keys[i] != keys[j] by {
                if keys[i] == keys[j] {
                    assert(aircrafts@.contains_key(*pairs[i].0));
                    assert(aircrafts@.contains_key(*pairs[j].0));
                    assert(pairs[i] == pairs[j]);
                }
            }
        }
        assert(keys.to_set() =~= table.dom()) by {
            assert forall|k: u32| table.dom().contains(k) implies keys.to_set().contains(k) by {
                assert(aircrafts@.contains_key(k));
                let pair = (&k, &aircrafts@[k]);
                assert(pairs.contains(pair));
                let i = choose|i: int| 0 <= i < pairs.len() && pairs[i] == pair;
                assert(keys[i] == k);
            }
            assert forall|k: u32| keys.to_set().contains(k) implies table.dom().contains(k) by {
                let i = choose|i: int| 0 <= i < keys.len() && keys[i] == k;
                assert(aircrafts@.contains_key(*pairs[i].0));
            }
        }
        assert forall|i: int| 0 <= i < states.len() implies #[trigger] states[i] == table[keys[i]] by {
            assert(aircrafts@.contains_key(*pairs[i].0));
            assert(list@[i]@ == (*pairs[i].1)@);
        }
    }
    (list, Ghost(keys))
}

/// The age at `time` of item `i` of a list, in whole seconds.
pub open spec fn age_of(list: Seq<Aircraft>, i: int, time: Timestamp) -> int {
    seconds_between(list[i]@.last_contact, time)
}

/// Finds an item of the least age at `time` in a list that is not empty.
fn freshest_index(list: &Vec<Aircraft>, time: Timestamp) -> (best: usize)
    requires
        list@.len() > 0,
    ensures
        best < list@.len(),
        forall|k: int| 0 <= k < list@.len() ==> age_of(list@, best as int, time) <= age_of(list@, k, time),
{
    let mut best: usize = 0;
    let mut best_age: i64 = list[0].age_at(time);
    let mut j: usize = 1;
    while j < list.len()
        invariant
            1 <= j <= list@.len(),
            best < j,
            best_age == age_of(list@, best as int, time),
            forall|k: int| 0 <= k < j ==> age_of(list@, best as int, time) <= age_of(list@, k, time),
        decreases list@.len() - j,
    {
        let age: i64 = list[j].age_at(time);
        if age < best_age {
            best = j;
            best_age = age;
        }
        j += 1;
    }
    best
}

/// Returns a copy of every aircraft in the table, ordered by the age at
/// `time`, in whole seconds, with the freshest first. The copies share
/// nothing with the table.
pub fn snapshot(aircrafts: &HashMap<u32, Aircraft>, time: Timestamp) -> (list: Vec<Aircraft>)
    ensures
        holds_each_once(list_states(list@), table_states(aircrafts@)),
        freshest_first(list_states(list@), time),
        list@.len() == aircrafts@.dom().len(),
{
    let ghost table = table_states(aircrafts@);
    let (mut rest, Ghost(all_keys)) = copy_entries(aircrafts);
    let ghost mut rest_keys: Seq<u32> = all_keys;
    let ghost mut list_keys: Seq<u32> = Seq::empty();
    let mut list: Vec<Aircraft> = Vec::new();
    proof {
        assert forall|k: u32| table.dom().contains(k) implies rest_keys.contains(k) by {
            assert(rest_keys.to_set().contains(k));
        }
        assert forall|j: int| 0 <= j < rest_keys.len() implies table.dom().contains(
            #[trigger] rest_keys[j],
        ) by {
            assert(rest_keys.to_set().contains(rest_keys[j]));
        }
        assert forall|j: int| 0 <= j < rest@.len() implies (#[trigger] rest@[j])@
            == table[rest_keys[j]] by {
            assert(list_states(rest@)[j] == table[rest_keys[j]]);
        }
    }
    while rest.len() > 0
        invariant
            table == table_states(aircrafts@),
            list_keys.len() == list@.len(),
            rest_keys.len() == rest@.len(),
            list_keys.no_duplicates(),
            rest_keys.no_duplicates(),
            forall|i: int, j: int|
                0 <= i < list_keys.len() && 0 <= j < rest_keys.len() ==> list_keys[i]
                    != rest_keys[j],
            forall|k: u32|
                table.dom().contains(k) ==> list_keys.contains(k) || rest_keys.contains(k),
            forall|i: int|
                0 <= i < list_keys.len() ==> table.dom().contains(#[trigger] list_keys[i]),
            forall|j: int|
                0 <= j < rest_keys.len() ==> table.dom().contains(#[trigger] rest_keys[j]),
            forall|i: int| 0 <= i < list@.len() ==> (#[trigger] list@[i])@ == table[list_keys[i]],
            forall|j: int| 0 <= j < rest@.len() ==> (#[trigger] rest@[j])@ == table[rest_keys[j]],
            forall|i: int, j: int|
                0 <= i <= j < list@.len() ==> age_of(list@, i, time) <= age_of(list@, j, time),
            forall|i: int, j: int|
                0 <= i < list@.len() && 0 <= j < rest@.len() ==> age_of(list@, i, time) <= age_of(
                    rest@,
                    j,
                    time,
                ),
        decreases rest@.len(),
    {
        let best: usize = freshest_index(&rest, time);
        let ghost old_rest = rest@;
        let ghost old_rest_keys = rest_keys;
        let ghost old_list = list@;
        let ghost old_list_keys = list_keys;
        let picked: Aircraft = rest.remove(best);
        list.push(picked);
        proof {
            let key = old_rest_keys[best as int];
            rest_keys = old_rest_keys.remove(best as int);
            list_keys = old_list_keys.push(key);
            assert forall|j: int| 0 <= j < rest_keys.len() implies #[trigger] rest_keys[j] == (if j
                < best {
                old_rest_keys[j]
            } else {
                old_rest_keys[j + 1]
            }) by {}
            assert forall|j: int| 0 <= j < rest@.len() implies #[trigger] rest@[j] == (if j < best {
                old_rest[j]
            } else {
                old_rest[j + 1]
            }) by {}
            assert forall|k: u32| table.dom().contains(k) implies list_keys.contains(k)
                || rest_keys.contains(k) by {
                if old_list_keys.contains(k) {
                    let i = choose|i: int| 0 <= i < old_list_keys.len() && old_list_keys[i] == k;
                    assert(list_keys[i] == k);
                } else {
                    assert(old_rest_keys.contains(k));
                    let j = choose|j: int| 0 <= j < old_rest_keys.len() && old_rest_keys[j] == k;
                    if j == best {
                        assert(list_keys[old_list_keys.len() as int] == k);
                    } else if j < best {
                        assert(rest_keys[j] == k);
                    } else {
                        assert(rest_keys[j - 1] == k);
                    }
                }
            }
            assert forall|i: int, j: int| 0 <= i <= j < list@.len() implies age_of(list@, i, time)
                <= age_of(list@, j, time) by {
                if j == old_list.len() {
                    if i < j {
                        assert(age_of(old_list, i, time) <= age_of(old_rest, best as int, time));
                    }
                } else {
                    assert(age_of(old_list, i, time) <= age_of(old_list, j, time));
                }
            }
            assert forall|i: int, j: int| 0 <= i < list@.len() && 0 <= j < rest@.len() implies age_of(
                list@,
                i,
                time,
            ) <= age_of(rest@, j, time) by {
                let from = if j < best { j } else { j + 1 };
                assert(rest@[j] == old_rest[from]);
                if i == old_list.len() {
                    assert(age_of(old_rest, best as int, time) <= age_of(old_rest, from, time));
                } else {
                    assert(age_of(old_list, i, time) <= age_of(old_rest, from, time));
                }
            }
        }
    }
    proof {
        let states = list_states(list@);
        assert(list_keys.to_set() =~= table.dom()) by {
            assert forall|k: u32| list_keys.to_set().contains(k) implies table.dom().contains(k) by {
                let i = choose|i: int| 0 <= i < list_keys.len() && list_keys[i] == k;
                assert(table.dom().contains(list_keys[i]));
            }
        }
        assert forall|i: int| 0 <= i < states.len() implies #[trigger] states[i] == table[list_keys[i]] by {
            assert(list@[i]@ == table[list_keys[i]]);
        }
        assert(listed_under(states, table, list_keys));
        assert forall|i: int, j: int| 0 <= i <= j < states.len() implies seconds_between(
            states[i].last_contact,
            time,
        ) <= seconds_between(states[j].last_contact, time) by {
            assert(age_of(list@, i, time) <= age_of(list@, j, time));
        }
        list_keys.unique_seq_to_set();
        assert(table.dom() =~= aircrafts@.dom());
    }
    list
}

/// Lists the addresses of the aircraft that are stale at `time`.
fn stale_keys(aircrafts: &HashMap<u32, Aircraft>, time: Timestamp) -> (keys: Vec<u32>)
    ensures
        forall|k: u32|
            keys@.contains(k) <==> aircrafts@.contains_key(k) && is_stale_at(aircrafts@[k]@, time),
{
    let mut keys: Vec<u32> = Vec::new();
    for entry in it: aircrafts.iter()
        invariant
            it.seq() == spec_hash_map_iter(aircrafts).remaining(),
            forall|k: u32|
                keys@.contains(k) ==> aircrafts@.contains_key(k) && is_stale_at(
                    aircrafts@[k]@,
                    time,
                ),
            forall|i: int|
                0 <= i < it.index() && is_stale_at((*it.seq()[i].1)@, time) ==> keys@.contains(
                    *#[trigger] it.seq()[i].0,
                ),
    {
        let (icao, aircraft) = entry;
        let ghost before = keys@;
        let ghost at = it.index();
        proof {
            assert(aircrafts@.contains_key(*it.seq()[at].0));
            assert(aircrafts@[*it.seq()[at].0] == *it.seq()[at].1);
            assert(entry == it.seq()[at]);
            assert(aircrafts@[*icao] == *aircraft);
        }
        if aircraft.is_stale(time) {
            keys.push(*icao);
            proof {
                assert(keys@[before.len() as int] == *icao);
                assert forall|k: u32| before.contains(k) implies keys@.contains(k) by {
                    let i = choose|i: int| 0 <= i < before.len() && before[i] == k;
                    assert(keys@[i] == k);
                }
                assert forall|k: u32| keys@.contains(k) implies aircrafts@.contains_key(k)
                    && is_stale_at(aircrafts@[k]@, time) by {
                    let i = choose|i: int| 0 <= i < keys@.len() && keys@[i] == k;
                    if i < before.len() {
                        assert(before[i] == k);
                        assert(before.contains(k));
                    } else {
                        assert(k == *icao);
                        assert(is_stale_at(aircraft@, time));
                    }
                }
            }
        }
    }
    proof {
        let pairs = spec_hash_map_iter(aircrafts).remaining();
        assert forall|k: u32|
            aircrafts@.contains_key(k) && is_stale_at(aircrafts@[k]@, time) implies keys@.contains(
            k,
        ) by {
            let pair = (&k, &aircrafts@[k]);
            assert(pairs.contains(pair));
            let i = choose|i: int| 0 <= i < pairs.len() && pairs[i] == pair;
            assert(is_stale_at((*pairs[i].1)@, time));
            assert(*pairs[i].0 == k);
        }
    }
    keys
}

/// Drops from the table every aircraft that is stale at `time`, and leaves
/// every other entry as it is.
pub fn drop_stale(aircrafts: &mut HashMap<u32, Aircraft>, time: Timestamp)
    ensures
        forall|k: u32|
            final(aircrafts)@.contains_key(k) <==> old(aircrafts)@.contains_key(k) && !is_stale_at(
                old(aircrafts)@[k]@,
                time,
            ),
        forall|k: u32|
            final(aircrafts)@.contains_key(k) ==> final(aircrafts)@[k] == old(aircrafts)@[k],
{
    let keys: Vec<u32> = stale_keys(aircrafts, time);
    let ghost before = aircrafts@;
    let mut j: usize = 0;
    while j < keys.len()
        invariant
            j <= keys@.len(),
            forall|k: u32|
                aircrafts@.contains_key(k) <==> before.contains_key(k) && !keys@.take(
                    j as int,
                ).contains(k),
            forall|k: u32| aircrafts@.contains_key(k) ==> aircrafts@[k] == before[k],
        decreases keys@.len() - j,
    {
        let key: u32 = keys[j];
        let ghost taken = keys@.take(j as int);
        let ghost prior = aircrafts@;
        aircrafts.remove(&key);
        proof {
            assert(aircrafts@ == prior.remove(key));
            let next = keys@.take(j + 1);
            assert(next =~= taken.push(key));
            assert forall|k: u32| next.contains(k) <==> taken.contains(k) || k == key by {
                if taken.contains(k) {
                    let i = choose|i: int| 0 <= i < taken.len() && taken[i] == k;
                    assert(next[i] == k);
                }
                if k == key {
                    assert(next[j as int] == k);
                }
                if next.contains(k) {
                    let i = choose|i: int| 0 <= i < next.len() && next[i] == k;
                    if i < j {
                        assert(taken[i] == k);
                    }
                }
            }
            assert forall|k: u32|
                aircrafts@.contains_key(k) <==> before.contains_key(k) && !next.contains(k) by {
                assert(aircrafts@.contains_key(k) <==> prior.contains_key(k) && k != key);
                assert(next.contains(k) <==> taken.contains(k) || k == key);
            }
        }
        j += 1;
    }
    assert(keys@.take(keys@.len() as int) =~= keys@);
}

} // verus!

use air_rs::adsb::aircraft::{
    drop_stale, handle_aircraft_update, resolve_pair, snapshot, Aircraft, CprUnresolved,
};
use air_rs::adsb::msgs::AircraftPosition;
use air_rs::adsb::process_batch;
use air_rs::utils::Sample;
use air_rs::adsb::clock::Timestamp;
use air_rs::adsb::cpr::{GeographicPosition, UNITS_PER_TURN};
use air_rs::adsb::packet::AdsbPacket;
use std::collections::HashMap;

fn hex(text: &str) -> Vec<u8> {
    let digits: Vec<u8> = text
        .chars()
        .map(|c| c.to_digit(16).expect("a hex digit") as u8)
        .collect();
    digits.chunks(2).map(|pair| pair[0] * 16 + pair[1]).collect()
}

fn packet(text: &str) -> AdsbPacket {
    AdsbPacket::new(hex(text))
}

fn packet_at(text: &str, millis: i64) -> AdsbPacket {
    AdsbPacket::new_at(hex(text), Timestamp::from_millis(millis))
}

fn latitude_of(position: &GeographicPosition) -> f64 {
    position.latitude.units as f64 * 360.0 / UNITS_PER_TURN as f64
}

fn longitude_of(position: &GeographicPosition) -> f64 {
    position.longitude.num as f64 * 360.0 / (position.longitude.zones as f64 * 131072.0)
}

const ODD_NORTH: &str = "8D40621D58C386435CC412692AD6";
const EVEN_NORTH: &str = "8D40621D58C382D690C8AC2863A7";
const EVEN_SOUTH: &str = "8d7c6b30580d107903b3cabf62ab";
const ODD_SOUTH: &str = "8d7c6b30580d24eeaebb2dfea5bb";
const IDENT: &str = "8d7c6b3020293532d70820fc8090";
const ALTITUDE: &str = "8d7c6b30581304f388bb4455896f";

#[test]
fn test_aircraft_new() {
    let aircraft = Aircraft::new(0x123456);
    assert_eq!(aircraft.get_icao(), 0x123456);
    assert_eq!(aircraft.get_callsign(), "");
    assert_eq!(aircraft.get_altitude_ft(), 0);
}

#[test]
fn test_aircraft_handle_packet_id() {
    let mut aircraft = Aircraft::new(0x7C6B30);
    let packet = packet(IDENT);
    aircraft.handle_packet(packet);
    assert_eq!(aircraft.get_callsign(), "JST250__");
}

#[test]
fn test_aircraft_handle_packet_alt() {
    let mut aircraft = Aircraft::new(0x7C6B30);
    let packet = packet(ALTITUDE);
    aircraft.handle_packet(packet);
    assert_eq!(aircraft.get_altitude_ft(), 2600);
}

#[test]
fn test_aircraft_handle_packet_fake() {
    let mut aircraft = Aircraft::new(0x40621D);
    let first = packet(ODD_NORTH);
    let second = packet(EVEN_NORTH);

    aircraft.handle_packet(first);
    aircraft.handle_packet(second);
    assert_eq!(aircraft.get_altitude_ft(), 38000);
    let position = aircraft.get_geo_position().unwrap();
    assert!((latitude_of(&position) - 52.25720).abs() < 0.0001);
    assert!((longitude_of(&position) - 3.91937255859375).abs() < 0.0001);
}

#[test]
fn test_aircraft_handle_packet_pos() {
    let mut aircraft = Aircraft::new(0x7C6B30);
    let first = packet(EVEN_SOUTH);
    let second = packet(ODD_SOUTH);

    aircraft.handle_packet(first);
    aircraft.handle_packet(second);

    assert_eq!(aircraft.get_altitude_ft(), 1450);
    let position = aircraft.get_geo_position().unwrap();
    assert!((latitude_of(&position) - -41.28964698920816).abs() < 0.0001);
    assert!((longitude_of(&position) - 174.80927207253197).abs() < 0.0001);
}

#[test]
fn odd_then_even_report_resolves_the_position() {
    let mut aircraft = Aircraft::new_at(0x40621D, Timestamp::from_millis(0));
    aircraft.handle_packet(packet_at(ODD_NORTH, 1_000));
    assert_eq!(aircraft.get_geo_position(), None);
    assert_eq!(aircraft.get_altitude_ft(), 38000);
    aircraft.handle_packet(packet_at(EVEN_NORTH, 2_500));
    assert_eq!(aircraft.get_icao(), 0x40621D);
    assert_eq!(aircraft.get_altitude_ft(), 38000);
    let position = aircraft.get_geo_position().expect("the pair is complete");
    assert!((latitude_of(&position) - 52.2572).abs() < 0.0001);
    // The even report is the newer one: 36 zones of ten degrees, zone 0, and
    // the even fraction 51372 / 2^17.
    assert!((longitude_of(&position) - 3.91937).abs() < 0.0001);
}

#[test]
fn even_then_odd_report_resolves_the_position_of_the_odd_report() {
    let mut aircraft = Aircraft::new_at(0x40621D, Timestamp::from_millis(0));
    aircraft.handle_packet(packet_at(EVEN_NORTH, 1_000));
    aircraft.handle_packet(packet_at(ODD_NORTH, 2_000));
    let position = aircraft.get_geo_position().expect("the pair is complete");
    assert!((latitude_of(&position) - 52.26578).abs() < 0.0001);
    assert!((longitude_of(&position) - 3.93891).abs() < 0.0001);
}

#[test]
fn a_fresh_aircraft_knows_nothing() {
    let aircraft = Aircraft::new_at(0xABCDEF, Timestamp::from_millis(77));
    assert_eq!(aircraft.get_icao(), 0xABCDEF);
    assert_eq!(aircraft.get_callsign(), "");
    assert_eq!(aircraft.get_altitude_ft(), 0);
    assert_eq!(aircraft.get_geo_position(), None);
    assert_eq!(aircraft.get_last_contact(), Timestamp::from_millis(77));
}

#[test]
fn frames_of_another_aircraft_are_ignored() {
    let mut aircraft = Aircraft::new_at(0x123456, Timestamp::from_millis(5));
    aircraft.handle_packet(packet_at(IDENT, 100));
    aircraft.handle_packet(packet_at(ALTITUDE, 200));
    assert_eq!(aircraft.get_callsign(), "");
    assert_eq!(aircraft.get_altitude_ft(), 0);
    assert_eq!(aircraft.get_last_contact(), Timestamp::from_millis(5));
}

#[test]
fn frames_of_another_downlink_format_are_ignored() {
    let mut aircraft = Aircraft::new_at(0x7C6B30, Timestamp::from_millis(5));
    // Downlink format 18 in place of 17.
    let mut bytes = hex(IDENT);
    bytes[0] = 0x95;
    aircraft.handle_packet(AdsbPacket::new_at(bytes, Timestamp::from_millis(100)));
    assert_eq!(aircraft.get_callsign(), "");
    assert_eq!(aircraft.get_last_contact(), Timestamp::from_millis(5));
}

#[test]
fn every_frame_of_the_aircraft_sets_the_last_contact() {
    let mut aircraft = Aircraft::new_at(0x7C6B30, Timestamp::from_millis(5));
    aircraft.handle_packet(packet_at(IDENT, 100));
    assert_eq!(aircraft.get_last_contact(), Timestamp::from_millis(100));
    aircraft.handle_packet(packet_at(ALTITUDE, 200));
    assert_eq!(aircraft.get_last_contact(), Timestamp::from_millis(200));
    // Type code 19 is not decoded, but it is a contact.
    aircraft.handle_packet(packet_at("8d7c6b30994409940838175b284f", 300));
    assert_eq!(aircraft.get_last_contact(), Timestamp::from_millis(300));
    assert_eq!(aircraft.get_callsign(), "JST250__");
    assert_eq!(aircraft.get_altitude_ft(), 2600);
}

#[test]
fn a_later_identification_replaces_the_callsign() {
    let mut aircraft = Aircraft::new_at(0x7C6B30, Timestamp::from_millis(0));
    aircraft.handle_packet(packet_at(IDENT, 1));
    // The callsign KLM1023_ under the same address.
    aircraft.handle_packet(packet_at("8d7c6b30202cc371c32ce0000000", 2));
    assert_eq!(aircraft.get_callsign(), "KLM1023_");
}

#[test]
fn reports_more_than_ten_seconds_apart_leave_the_position() {
    let mut aircraft = Aircraft::new_at(0x7C6B30, Timestamp::from_millis(0));
    aircraft.handle_packet(packet_at(EVEN_SOUTH, 1_000));
    aircraft.handle_packet(packet_at(ODD_SOUTH, 11_001));
    assert_eq!(aircraft.get_altitude_ft(), 1450);
    assert_eq!(aircraft.get_geo_position(), None);
    // Exactly ten seconds are still within the window.
    let mut aircraft = Aircraft::new_at(0x7C6B30, Timestamp::from_millis(0));
    aircraft.handle_packet(packet_at(EVEN_SOUTH, 1_000));
    aircraft.handle_packet(packet_at(ODD_SOUTH, 11_000));
    assert!(aircraft.get_geo_position().is_some());
    // The window holds in both directions of time.
    let mut aircraft = Aircraft::new_at(0x7C6B30, Timestamp::from_millis(0));
    aircraft.handle_packet(packet_at(EVEN_SOUTH, 20_000));
    aircraft.handle_packet(packet_at(ODD_SOUTH, 9_999));
    assert_eq!(aircraft.get_geo_position(), None);
}

#[test]
fn a_stale_report_keeps_the_position_solved_before() {
    let mut aircraft = Aircraft::new_at(0x7C6B30, Timestamp::from_millis(0));
    aircraft.handle_packet(packet_at(EVEN_SOUTH, 1_000));
    aircraft.handle_packet(packet_at(ODD_SOUTH, 2_000));
    let solved = aircraft.get_geo_position();
    assert!(solved.is_some());
    // The altitude report carries an even position far from the pair, but
    // comes too late to be solved with the odd report.
    aircraft.handle_packet(packet_at(ALTITUDE, 60_000));
    assert_eq!(aircraft.get_altitude_ft(), 2600);
    assert_eq!(aircraft.get_geo_position(), solved);
}

/// A position frame for the address 7C6B30 with the given parity and raw
/// coordinates; the parity bytes are left at zero.
fn position_frame(odd: bool, lat: u32, lon: u32) -> Vec<u8> {
    let mut bytes = vec![0x8d, 0x7c, 0x6b, 0x30, 0x58, 0x0d, 0x10, 0, 0, 0, 0, 0, 0, 0];
    if odd {
        bytes[6] |= 0x04;
    }
    bytes[6] |= (lat >> 15) as u8;
    bytes[7] = (lat >> 7) as u8;
    bytes[8] = ((lat << 1) as u8) | (lon >> 16) as u8;
    bytes[9] = (lon >> 8) as u8;
    bytes[10] = lon as u8;
    bytes
}

#[test]
fn a_pair_across_a_zone_transition_drops_the_older_report() {
    let even_lat = ((10.4700f64 / 6.0).fract() * 131072.0) as u32;
    let odd_lat = ((10.4710f64 / (360.0 / 59.0)).fract() * 131072.0) as u32;
    let mut aircraft = Aircraft::new_at(0x7C6B30, Timestamp::from_millis(0));
    let at = |frame: Vec<u8>, millis: i64| AdsbPacket::new_at(frame, Timestamp::from_millis(millis));
    aircraft.handle_packet(at(position_frame(false, even_lat, 0), 1_000));
    aircraft.handle_packet(at(position_frame(true, odd_lat, 0), 2_000));
    assert_eq!(aircraft.get_geo_position(), None);
    // The even report is gone: an odd report alone solves nothing, though it
    // would with the even report of before.
    let near = ((10.4690f64 / (360.0 / 59.0)).fract() * 131072.0) as u32;
    aircraft.handle_packet(at(position_frame(true, near, 0), 3_000));
    assert_eq!(aircraft.get_geo_position(), None);
    // A new even report below the transition pairs with the odd one.
    aircraft.handle_packet(at(position_frame(false, even_lat, 0), 4_000));
    let position = aircraft.get_geo_position().expect("both below the transition");
    assert!((latitude_of(&position) - 10.47).abs() < 0.001);
}

#[test]
fn age_counts_whole_seconds_toward_zero() {
    let aircraft = Aircraft::new_at(1, Timestamp::from_millis(10_000));
    assert_eq!(aircraft.age_at(Timestamp::from_millis(10_000)), 0);
    assert_eq!(aircraft.age_at(Timestamp::from_millis(10_999)), 0);
    assert_eq!(aircraft.age_at(Timestamp::from_millis(11_000)), 1);
    assert_eq!(aircraft.age_at(Timestamp::from_millis(40_999)), 30);
    assert_eq!(aircraft.age_at(Timestamp::from_millis(9_001)), 0);
    assert_eq!(aircraft.age_at(Timestamp::from_millis(9_000)), -1);
    assert_eq!(aircraft.age_at(Timestamp::from_millis(7_500)), -2);
    let early = Aircraft::new_at(1, Timestamp::from_millis(i64::MIN));
    assert_eq!(
        early.age_at(Timestamp::from_millis(i64::MAX)),
        18_446_744_073_709_551
    );
}

#[test]
fn age_by_the_wall_clock_starts_at_zero() {
    let aircraft = Aircraft::new(1);
    let age = aircraft.get_age();
    assert!((0..5).contains(&age));
    // The wall clock is past the year 2020.
    assert!(aircraft.get_last_contact().millis > 1_577_836_800_000);
    let old = Aircraft::new_at(1, Timestamp::from_millis(0));
    assert!(old.get_age() > 1_577_836_800);
}

#[test]
fn an_aircraft_is_stale_after_thirty_whole_seconds() {
    let aircraft = Aircraft::new_at(1, Timestamp::from_millis(0));
    assert!(!aircraft.is_stale(Timestamp::from_millis(0)));
    assert!(!aircraft.is_stale(Timestamp::from_millis(30_000)));
    assert!(!aircraft.is_stale(Timestamp::from_millis(30_999)));
    assert!(aircraft.is_stale(Timestamp::from_millis(31_000)));
    assert!(!aircraft.is_stale(Timestamp::from_millis(-100_000)));
}

#[test]
fn a_copy_of_an_aircraft_holds_the_same() {
    let mut aircraft = Aircraft::new_at(0x7C6B30, Timestamp::from_millis(0));
    aircraft.handle_packet(packet_at(IDENT, 10));
    aircraft.handle_packet(packet_at(EVEN_SOUTH, 1_000));
    aircraft.handle_packet(packet_at(ODD_SOUTH, 2_000));
    let copy = aircraft.clone();
    assert_eq!(copy.get_icao(), aircraft.get_icao());
    assert_eq!(copy.get_callsign(), "JST250__");
    assert_eq!(copy.get_altitude_ft(), 1450);
    assert_eq!(copy.get_geo_position(), aircraft.get_geo_position());
    assert_eq!(copy.get_last_contact(), Timestamp::from_millis(2_000));
}

#[test]
fn the_table_makes_an_entry_for_each_new_sender() {
    let mut table: HashMap<u32, Aircraft> = HashMap::new();
    let updated = handle_aircraft_update(packet_at(IDENT, 100), &mut table).unwrap();
    assert_eq!(updated.get_icao(), 0x7C6B30);
    assert_eq!(updated.get_callsign(), "JST250__");
    assert_eq!(updated.get_last_contact(), Timestamp::from_millis(100));
    assert_eq!(table.len(), 1);
    let updated = handle_aircraft_update(packet_at(ODD_NORTH, 200), &mut table).unwrap();
    assert_eq!(updated.get_icao(), 0x40621D);
    assert_eq!(table.len(), 2);
    let updated = handle_aircraft_update(packet_at(ALTITUDE, 300), &mut table).unwrap();
    assert_eq!(updated.get_callsign(), "JST250__");
    assert_eq!(updated.get_altitude_ft(), 2600);
    assert_eq!(table.len(), 2);
    assert_eq!(table[&0x7C6B30].get_altitude_ft(), 2600);
    assert_eq!(table[&0x40621D].get_altitude_ft(), 38000);
    let updated = handle_aircraft_update(packet_at(EVEN_NORTH, 900), &mut table).unwrap();
    assert!(updated.get_geo_position().is_some());
    assert_eq!(table[&0x40621D].get_geo_position(), updated.get_geo_position());
}

#[test]
fn the_table_ignores_other_downlink_formats() {
    let mut table: HashMap<u32, Aircraft> = HashMap::new();
    let mut bytes = hex(IDENT);
    bytes[0] = 0x5d; // downlink format 11
    let other = AdsbPacket::new_at(bytes, Timestamp::from_millis(1));
    assert!(handle_aircraft_update(other, &mut table).is_none());
    assert!(table.is_empty());
}

#[test]
fn the_returned_copy_shares_nothing_with_the_table() {
    let mut table: HashMap<u32, Aircraft> = HashMap::new();
    let mut copy = handle_aircraft_update(packet_at(IDENT, 100), &mut table).unwrap();
    copy.handle_packet(packet_at(ALTITUDE, 200));
    assert_eq!(copy.get_altitude_ft(), 2600);
    assert_eq!(table[&0x7C6B30].get_altitude_ft(), 0);
}

#[test]
fn a_snapshot_lists_the_freshest_first() {
    let mut table: HashMap<u32, Aircraft> = HashMap::new();
    for (icao, millis) in [(5u32, 50_000i64), (1, 10_000), (4, 40_000), (2, 20_000), (3, 30_000)] {
        table.insert(icao, Aircraft::new_at(icao, Timestamp::from_millis(millis)));
    }
    let list = snapshot(&table, Timestamp::from_millis(60_000));
    let order: Vec<u32> = list.iter().map(|a| a.get_icao()).collect();
    assert_eq!(order, vec![5, 4, 3, 2, 1]);
    let ages: Vec<i64> = list
        .iter()
        .map(|a| a.age_at(Timestamp::from_millis(60_000)))
        .collect();
    assert_eq!(ages, vec![10, 20, 30, 40, 50]);
    assert_eq!(table.len(), 5);
}

#[test]
fn a_snapshot_holds_every_entry_once() {
    let mut table: HashMap<u32, Aircraft> = HashMap::new();
    assert!(snapshot(&table, Timestamp::from_millis(0)).is_empty());
    for icao in 0u32..200 {
        let millis = ((icao * 7919) % 1000) as i64 * 100;
        table.insert(icao, Aircraft::new_at(icao, Timestamp::from_millis(millis)));
    }
    let time = Timestamp::from_millis(200_000);
    let list = snapshot(&table, time);
    assert_eq!(list.len(), 200);
    let mut seen: Vec<u32> = list.iter().map(|a| a.get_icao()).collect();
    seen.sort();
    assert_eq!(seen, (0u32..200).collect::<Vec<u32>>());
    for pair in list.windows(2) {
        assert!(pair[0].age_at(time) <= pair[1].age_at(time));
    }
    for aircraft in &list {
        assert_eq!(
            aircraft.get_last_contact(),
            table[&aircraft.get_icao()].get_last_contact()
        );
    }
}

#[test]
fn stale_entries_are_dropped_and_others_kept() {
    let mut table: HashMap<u32, Aircraft> = HashMap::new();
    for (icao, millis) in [(1u32, 0i64), (2, 29_000), (3, 30_000), (4, 59_999), (5, 90_000)] {
        table.insert(icao, Aircraft::new_at(icao, Timestamp::from_millis(millis)));
    }
    drop_stale(&mut table, Timestamp::from_millis(60_000));
    let mut left: Vec<u32> = table.keys().copied().collect();
    left.sort();
    // Ages 60 and 31 are gone; ages 30, 0 and -30 stay.
    assert_eq!(left, vec![3, 4, 5]);
    assert_eq!(table[&3].get_last_contact(), Timestamp::from_millis(30_000));
    drop_stale(&mut table, Timestamp::from_millis(1_000_000));
    assert!(table.is_empty());
    drop_stale(&mut table, Timestamp::from_millis(1_000_000));
    assert!(table.is_empty());
}

fn report(text: &str) -> AircraftPosition {
    let bytes = hex(text);
    AircraftPosition::new([
        bytes[4], bytes[5], bytes[6], bytes[7], bytes[8], bytes[9], bytes[10],
    ])
}

#[test]
fn each_unresolved_pair_has_its_reason() {
    let even = report(EVEN_SOUTH);
    let odd = report(ODD_SOUTH);
    let at = Timestamp::from_millis;
    assert_eq!(resolve_pair(&odd, at(5_000), None), Err(CprUnresolved::NoPair));
    assert_eq!(
        resolve_pair(&odd, at(15_001), Some((even, at(5_000)))),
        Err(CprUnresolved::StalePair)
    );
    assert_eq!(
        resolve_pair(&odd, at(0), Some((even, at(10_001)))),
        Err(CprUnresolved::StalePair)
    );
    let solved = resolve_pair(&odd, at(15_000), Some((even, at(5_000)))).unwrap();
    assert!((latitude_of(&solved) - -41.28964698920816).abs() < 0.0001);
    assert!((longitude_of(&solved) - 174.80927207253197).abs() < 0.0001);

    let even_lat = ((10.4700f64 / 6.0).fract() * 131072.0) as u32;
    let odd_lat = ((10.4710f64 / (360.0 / 59.0)).fract() * 131072.0) as u32;
    let below = report_of(position_frame(false, even_lat, 0));
    let above = report_of(position_frame(true, odd_lat, 0));
    assert_eq!(
        resolve_pair(&above, at(1), Some((below, at(0)))),
        Err(CprUnresolved::ZoneMismatch)
    );
    assert_eq!(
        resolve_pair(&below, at(1), Some((above, at(0)))),
        Err(CprUnresolved::ZoneMismatch)
    );
    // A raw value beyond 17 bits has no solution either.
    let mut wide = even;
    wide.cpr_longitude = 131_072;
    assert_eq!(
        resolve_pair(&odd, at(1), Some((wide, at(0)))),
        Err(CprUnresolved::ZoneMismatch)
    );
}

fn report_of(frame: Vec<u8>) -> AircraftPosition {
    AircraftPosition::new([
        frame[4], frame[5], frame[6], frame[7], frame[8], frame[9], frame[10],
    ])
}

/// The samples of a frame with its preamble: a pulse of the amplitude 500 on
/// the in-phase part, a gap of 20.
fn frame_iq(text: &str) -> Vec<Sample> {
    let mut levels = vec![20i16; 16];
    for high in [0, 2, 7, 9] {
        levels[high] = 500;
    }
    for byte in hex(text) {
        for bit in 0..8 {
            if byte & (0x80 >> bit) != 0 {
                levels.push(500);
                levels.push(20);
            } else {
                levels.push(20);
                levels.push(500);
            }
        }
    }
    levels.iter().map(|&re| Sample { re, im: 0 }).collect()
}

#[test]
fn a_batch_is_taken_from_samples_to_aircraft() {
    let mut batch: Vec<Sample> = vec![Sample { re: 3, im: -4 }; 100];
    batch.extend(frame_iq(IDENT));
    batch.extend(vec![Sample { re: 0, im: 0 }; 333]);
    batch.extend(frame_iq(EVEN_SOUTH));
    batch.extend(frame_iq(ODD_SOUTH));
    batch.extend(vec![Sample { re: 1, im: 1 }; 50]);
    let packets = process_batch(&batch);
    assert_eq!(packets.len(), 3);
    assert_eq!(packets[0].packet, hex(IDENT));
    assert_eq!(packets[1].packet, hex(EVEN_SOUTH));
    assert_eq!(packets[2].packet, hex(ODD_SOUTH));
    assert!(packets[0].time_processed.millis <= packets[2].time_processed.millis);

    let mut table: HashMap<u32, Aircraft> = HashMap::new();
    for packet in packets {
        handle_aircraft_update(packet, &mut table);
    }
    assert_eq!(table.len(), 1);
    let aircraft = &table[&0x7C6B30];
    assert_eq!(aircraft.get_callsign(), "JST250__");
    assert_eq!(aircraft.get_altitude_ft(), 1450);
    let position = aircraft.get_geo_position().unwrap();
    assert!((latitude_of(&position) - -41.28965).abs() < 0.0001);
    assert!((longitude_of(&position) - 174.80927).abs() < 0.0001);
}

#[test]
fn an_empty_batch_holds_no_frames() {
    assert!(process_batch(&[]).is_empty());
    assert!(process_batch(&vec![Sample { re: 100, im: 100 }; 240]).is_empty());
}

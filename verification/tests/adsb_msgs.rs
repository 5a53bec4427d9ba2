use air_rs::adsb_msgs::{to_6bit_chunks, AdsbMsg, AircarftPosition, AircraftID};

#[test]
fn adsb_msgs_test_aircraft_id() {
    let data: [u8; 7] = [0x20, 0x2C, 0xC3, 0x71, 0xC3, 0x2C, 0xE0];

    let id = AircraftID::new(data);
    assert_eq!(id.callsign, "KLM1023_");
}

#[test]
fn test_aircraft_position_25() {
    let data: [u8; 7] = [0x58, 0xC3, 0x82, 0xD6, 0x90, 0xC8, 0xAC];

    let pos = AircarftPosition::new(data);
    assert_eq!(pos.altitude, 38000);
}

#[test]
fn test_aircraft_position_100() {
    let data: [u8; 7] = [0x58, 0xC2, 0x82, 0xD6, 0x90, 0xC8, 0xAC];

    let pos = AircarftPosition::new(data);
    assert_eq!(pos.altitude, 155000);
}

#[test]
fn basic_position_reads_negative_altitudes() {
    // 25 ft steps and no steps: 1000 ft below zero.
    let pos = AircarftPosition::new([0x58, 0x01, 0x02, 0xD6, 0x90, 0xC8, 0xAC]);
    assert_eq!(pos.altitude, -1000);
    let pos = AircarftPosition::new([0x58, 0x01, 0x12, 0xD6, 0x90, 0xC8, 0xAC]);
    assert_eq!(pos.altitude, -975);
    assert_eq!(pos.latitude, 0);
    assert_eq!(pos.longitude, 0);
    assert_eq!(pos.raw_msg, [0x58, 0x01, 0x12, 0xD6, 0x90, 0xC8, 0xAC]);
    // 100 ft steps and no steps.
    let pos = AircarftPosition::new([0x58, 0x00, 0x00, 0, 0, 0, 0]);
    assert_eq!(pos.altitude, -1000);
    // 40 steps of 25 ft are exactly 1000 ft.
    let pos = AircarftPosition::new([0x58, 0x05, 0x80, 0, 0, 0, 0]);
    assert_eq!(pos.altitude, 0);
    let pos = AircarftPosition::new([0x58, 0x05, 0x90, 0, 0, 0, 0]);
    assert_eq!(pos.altitude, 25);
}

#[test]
fn basic_kinds_match_their_type_codes() {
    for id in 0u8..32 {
        assert_eq!(AircraftID::msg_id_match(id), (1..=4).contains(&id));
        assert_eq!(AircarftPosition::msg_id_match(id), (9..=18).contains(&id));
    }
}

#[test]
fn basic_chunks_regroup_the_bits() {
    assert_eq!(to_6bit_chunks(&[0x2C, 0xC3, 0x71]), vec![11, 12, 13, 49]);
}

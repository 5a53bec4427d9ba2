use air_rs::adsb::cpr::{
    calc_num_zones, calculate_geographic_position, calculate_latitude, calculate_longitude,
    Latitude, Longitude, UNITS_PER_TURN,
};
use air_rs::adsb::msgs::CprFormat;

fn degrees(latitude: Latitude) -> f64 {
    latitude.units as f64 * 360.0 / UNITS_PER_TURN as f64
}

fn longitude_degrees(longitude: Longitude) -> f64 {
    longitude.num as f64 * 360.0 / (longitude.zones as f64 * 131072.0)
}

/// The latitude of the grid nearest to `degrees`.
fn latitude_at(degrees: f64) -> Latitude {
    Latitude { units: (degrees * UNITS_PER_TURN as f64 / 360.0).round() as i32 }
}

/// The number of zones by the closed formula, for latitudes off the
/// transitions.
fn zones_by_formula(degrees: f64) -> u32 {
    let pi = std::f64::consts::PI;
    let a = 1.0 - (pi / 30.0).cos();
    let b = (pi / 180.0 * degrees).cos();
    ((2.0 * pi) / (1.0 - a / (b * b)).acos()).floor() as u32
}

#[test]
fn test_latitude_calculation() {
    let even_cpr_lat = 93000; // Example even CPR latitude
    let odd_cpr_lat = 74158; // Example odd CPR latitude
    let first = CprFormat::Odd;

    let latitude = calculate_latitude(even_cpr_lat, odd_cpr_lat, first);
    assert!((degrees(latitude.0) - 52.25720).abs() < 0.0001);
}

#[test]
fn test_zone_calcuation() {
    assert_eq!(calc_num_zones(latitude_at(0.0)), 59);

    assert_eq!(calc_num_zones(latitude_at(87.0)), 2);

    assert_eq!(calc_num_zones(latitude_at(-87.0)), 2);

    assert_eq!(calc_num_zones(latitude_at(90.0)), 1);

    assert_eq!(calc_num_zones(latitude_at(-90.0)), 1);

    assert_eq!(calc_num_zones(latitude_at(10.0)), 59);

    assert_eq!(calc_num_zones(latitude_at(52.25720214843750)), 36);
}

#[test]
fn test_longitude_calculation() {
    let even_cpr_long = 51372; // Example even CPR longitude
    let odd_cpr_long = 50194; // Example odd CPR longitude
    let latitude = latitude_at(52.25720214843750); // Example latitude
    let first = CprFormat::Odd;

    let longitude = calculate_longitude(even_cpr_long, odd_cpr_long, latitude, first);
    assert!((longitude_degrees(longitude) - 3.91937255859375).abs() < 0.0001);
}

#[test]
fn test_identify_issue_with_latitude() {
    let even_cpr_lat = 23868; // Example even CPR latitude
    let odd_cpr_lat = 38688; // Example odd CPR latitude
    let first = CprFormat::Odd;

    let (latitude, even_latitude, odd_latitude) =
        calculate_latitude(even_cpr_lat, odd_cpr_lat, first);
    println!(
        "Even Latitude: {}, Odd Latitude: {}, Calculated Latitude: {}",
        degrees(even_latitude),
        degrees(odd_latitude),
        degrees(latitude)
    );

    assert_eq!(calc_num_zones(even_latitude), calc_num_zones(odd_latitude));

    let even_cpr_long = 111509; // Example even CPR longitude
    let odd_cpr_long = 47864; // Example odd CPR longitude
    let longitude = calculate_longitude(even_cpr_long, odd_cpr_long, latitude, CprFormat::Odd);

    println!("Longitude: {}", longitude_degrees(longitude));
}

#[test]
fn latitudes_of_a_pair_are_exact() {
    let (latitude, even, odd) = calculate_latitude(93000, 74158, CprFormat::Odd);
    // Zone index 8: (8 * 2^17 + 93000) * 59 and (8 * 2^17 + 74158) * 60.
    assert_eq!(even.units, 67_352_984);
    assert_eq!(odd.units, 67_364_040);
    assert_eq!(latitude, even);
    let (latitude, _, _) = calculate_latitude(93000, 74158, CprFormat::Even);
    assert_eq!(latitude, odd);
    assert_eq!(even.microdegrees(), 52_257_202);
    assert_eq!(odd.microdegrees(), 52_265_780);
}

#[test]
fn southern_latitudes_come_out_negative() {
    let (latitude, even, odd) = calculate_latitude(15489, 30551, CprFormat::Even);
    assert_eq!(odd.units, -53_217_180);
    assert_eq!(latitude, odd);
    assert!((degrees(odd) - -41.28964698920816).abs() < 1e-9);
    assert!((degrees(even) - -41.29097).abs() < 1e-4);
    assert_eq!(odd.microdegrees(), -41_289_647);
}

#[test]
fn zones_agree_with_the_closed_formula() {
    let mut degrees = -86.99;
    while degrees < 87.0 {
        let latitude = latitude_at(degrees);
        if latitude.units != 0 {
            assert_eq!(
                calc_num_zones(latitude),
                zones_by_formula(degrees),
                "at {} degrees",
                degrees
            );
        }
        degrees += 0.0137;
    }
}

#[test]
fn zones_change_at_the_transition_latitudes() {
    // The transitions to 59, 58, 45, 36, 3 and 2 zones, in degrees.
    for (transition, zones) in [
        (10.47047130, 59),
        (14.82817437, 58),
        (41.38651832, 45),
        (53.09516153, 36),
        (86.53536998, 3),
    ] {
        assert_eq!(calc_num_zones(latitude_at(transition - 0.000001)), zones);
        assert_eq!(calc_num_zones(latitude_at(transition + 0.000001)), zones - 1);
        assert_eq!(calc_num_zones(latitude_at(-transition + 0.000001)), zones);
        assert_eq!(calc_num_zones(latitude_at(-transition - 0.000001)), zones - 1);
    }
    assert_eq!(calc_num_zones(Latitude { units: 112_132_096 }), 2);
    assert_eq!(calc_num_zones(Latitude { units: 112_132_097 }), 1);
    assert_eq!(calc_num_zones(Latitude { units: -112_132_097 }), 1);
    assert_eq!(calc_num_zones(Latitude { units: i32::MIN }), 1);
    assert_eq!(calc_num_zones(Latitude { units: i32::MAX }), 1);
    assert_eq!(calc_num_zones(Latitude { units: 1 }), 59);
}

#[test]
fn longitude_of_the_newer_even_report() {
    // 36 zones at this latitude; zone index 0; the even fraction counts.
    let latitude = Latitude { units: 67_352_984 };
    let longitude = calculate_longitude(51372, 50194, latitude, CprFormat::Odd);
    assert_eq!(longitude, Longitude { num: 51372, zones: 36 });
    assert!((longitude_degrees(longitude) - 3.91937255859375).abs() < 1e-12);
    assert_eq!(longitude.microdegrees(), 3_919_372);
}

#[test]
fn longitude_of_the_newer_odd_report() {
    // 45 zones at this latitude, so 44 for the odd report; zone index 21.
    let latitude = Latitude { units: -53_217_180 };
    let longitude = calculate_longitude(111562, 47917, latitude, CprFormat::Even);
    assert_eq!(longitude, Longitude { num: 21 * 131072 + 47917, zones: 44 });
    assert!((longitude_degrees(longitude) - 174.80927207253197).abs() < 1e-9);
}

#[test]
fn western_longitudes_come_out_negative() {
    // One zone beyond 87 degrees: the fraction alone gives the longitude.
    let polar = Latitude { units: 115_000_000 };
    let east = calculate_longitude(65536, 0, polar, CprFormat::Odd);
    assert_eq!(east, Longitude { num: 65536, zones: 1 });
    assert_eq!(east.microdegrees(), 180_000_000);
    let west = calculate_longitude(65537, 0, polar, CprFormat::Odd);
    assert_eq!(west, Longitude { num: 65537 - 131072, zones: 1 });
    assert!(longitude_degrees(west) < -179.99);
    // The odd report has one zone there too.
    let odd = calculate_longitude(0, 98304, polar, CprFormat::Even);
    assert_eq!(odd, Longitude { num: -32768, zones: 1 });
    assert_eq!(odd.microdegrees(), -90_000_000);
}

#[test]
fn position_of_a_pair_with_the_even_report_newer() {
    let position =
        calculate_geographic_position((93000, 51372), (74158, 50194), CprFormat::Odd)
            .expect("the pair has a solution");
    assert!((degrees(position.latitude) - 52.2572).abs() < 0.0001);
    assert!((longitude_degrees(position.longitude) - 3.91937).abs() < 0.0001);
}

#[test]
fn position_of_a_pair_with_the_odd_report_newer() {
    let position =
        calculate_geographic_position((15489, 111562), (30551, 47917), CprFormat::Even)
            .expect("the pair has a solution");
    assert!((degrees(position.latitude) - -41.28964698920816).abs() < 0.0001);
    assert!((longitude_degrees(position.longitude) - 174.80927207253197).abs() < 0.0001);
}

#[test]
fn pair_across_a_zone_transition_has_no_position() {
    // The even latitude lies just below the transition at 10.47 degrees and
    // the odd latitude just above it.
    let even_lat = ((10.4700f64 / 6.0).fract() * 131072.0) as u32;
    let odd_lat = ((10.4710f64 / (360.0 / 59.0)).fract() * 131072.0) as u32;
    let (_, even, odd) = calculate_latitude(even_lat, odd_lat, CprFormat::Even);
    assert_eq!(calc_num_zones(even), 59);
    assert_eq!(calc_num_zones(odd), 58);
    assert_eq!(
        calculate_geographic_position((even_lat, 0), (odd_lat, 0), CprFormat::Even),
        None
    );
    assert_eq!(
        calculate_geographic_position((even_lat, 0), (odd_lat, 0), CprFormat::Odd),
        None
    );
}

#[test]
fn raw_values_beyond_seventeen_bits_have_no_position() {
    assert!(calculate_geographic_position((0, 0), (0, 0), CprFormat::Even).is_some());
    assert_eq!(
        calculate_geographic_position((131072, 0), (0, 0), CprFormat::Even),
        None
    );
    assert_eq!(
        calculate_geographic_position((0, 131072), (0, 0), CprFormat::Even),
        None
    );
    assert_eq!(
        calculate_geographic_position((0, 0), (u32::MAX, 0), CprFormat::Odd),
        None
    );
    assert_eq!(
        calculate_geographic_position((0, 0), (0, 131072), CprFormat::Odd),
        None
    );
}

/// The zones at a latitude of `lat` parts in 2^17 of a turn.
fn zones_at(lat: i64) -> i64 {
    calc_num_zones(Latitude { units: (lat * 3540) as i32 }) as i64
}

#[test]
fn grid_positions_are_recovered_exactly() {
    let scale = 131072i64;
    let mut lat = -32767i64;
    while lat < 32768 {
        let mut lon = -65535i64;
        while lon <= 65536 {
            let zones = zones_at(lat);
            let odd_zones = if zones > 1 { zones - 1 } else { 1 };
            let even = (
                (60 * lat).rem_euclid(scale) as u32,
                (zones * lon).rem_euclid(scale) as u32,
            );
            let odd = (
                (59 * lat).rem_euclid(scale) as u32,
                (odd_zones * lon).rem_euclid(scale) as u32,
            );
            for first in [CprFormat::Even, CprFormat::Odd] {
                let position = calculate_geographic_position(even, odd, first)
                    .expect("a grid position has a solution");
                assert_eq!(position.latitude.units as i64, 3540 * lat);
                let used = if first == CprFormat::Odd { zones } else { odd_zones };
                assert_eq!(position.longitude.zones as i64, used);
                assert_eq!(position.longitude.num as i64, used * lon);
            }
            lon += 4099;
        }
        lat += 257;
    }
}

/// `floor(2^17 * zones * num / den + 1/2)`.
fn rounded(zones: i128, num: i128, den: i128) -> i128 {
    (262_144 * zones * num + den).div_euclid(2 * den)
}

/// The raw latitude and longitude of a report for the latitude of
/// `lat.0 / lat.1` turns and the longitude of `lon.0 / lon.1` turns, and the
/// latitude in units and the rounded longitude that the report stands for.
fn encode(lat: (i128, i128), lon: (i128, i128), odd: bool) -> ((u32, u32), i128, i128, i128) {
    let lat_zones: i128 = if odd { 59 } else { 60 };
    let unit: i128 = if odd { 60 } else { 59 };
    let r = rounded(lat_zones, lat.0, lat.1);
    let nl = calc_num_zones(Latitude { units: (unit * r) as i32 }) as i128;
    let zones = if odd { (nl - 1).max(1) } else { nl };
    let s = rounded(zones, lon.0, lon.1);
    (
        (r.rem_euclid(131_072) as u32, s.rem_euclid(131_072) as u32),
        unit * r,
        s,
        zones,
    )
}

#[test]
fn positions_between_grid_points_are_recovered_within_half_a_part() {
    let mut solved = 0;
    let mut unsolved = 0;
    // Latitudes in 1/100003 turns short of a quarter turn, longitudes in
    // 1/99991 turns within half a turn.
    let lat_den: i128 = 100_003;
    let lon_den: i128 = 99_991;
    let mut lat_num: i128 = -25_000;
    while lat_num <= 25_000 {
        let mut lon_num: i128 = -49_995;
        while lon_num <= 49_995 {
            let (even, even_units, even_place, even_zones) =
                encode((lat_num, lat_den), (lon_num, lon_den), false);
            let (odd, odd_units, odd_place, odd_zones) =
                encode((lat_num, lat_den), (lon_num, lon_den), true);
            let agree = calc_num_zones(Latitude { units: even_units as i32 })
                == calc_num_zones(Latitude { units: odd_units as i32 });
            for first in [CprFormat::Even, CprFormat::Odd] {
                let position = calculate_geographic_position(even, odd, first);
                if !agree {
                    assert_eq!(position, None);
                    unsolved += 1;
                    continue;
                }
                let position = position.expect("the reports agree on the zones");
                let (units, place, zones, unit) = if first == CprFormat::Odd {
                    (even_units, even_place, even_zones, 59)
                } else {
                    (odd_units, odd_place, odd_zones, 60)
                };
                assert_eq!(position.latitude.units as i128, units);
                assert_eq!(position.longitude.zones as i128, zones);
                assert_eq!(position.longitude.num as i128, place);
                // Within half a part of the true latitude and longitude.
                let lat_error = 2 * lat_den * units - 2 * 463_994_880 * lat_num;
                assert!(-unit * lat_den < lat_error && lat_error <= unit * lat_den);
                let lon_error = 2 * lon_den * place - 262_144 * zones * lon_num;
                assert!(-lon_den < lon_error && lon_error <= lon_den);
                solved += 1;
            }
            lon_num += 3_331;
        }
        lat_num += 97;
    }
    assert!(solved + unsolved > 20_000);
    assert!(solved > unsolved);
}

#[test]
fn a_longitude_at_the_west_end_comes_out_at_the_east_end() {
    // Half a part short of half a turn west rounds to the west end itself.
    let (even, _, place, zones) = encode((1, 8), (-999_999_999, 2_000_000_000), false);
    let (odd, _, _, _) = encode((1, 8), (-999_999_999, 2_000_000_000), true);
    assert_eq!(place, -zones * 65_536);
    let position = calculate_geographic_position(even, odd, CprFormat::Odd).unwrap();
    assert_eq!(position.longitude.zones as i128, zones);
    assert_eq!(position.longitude.num as i128, zones * 65_536);
    assert_eq!(position.longitude.microdegrees(), 180_000_000);
}

#[test]
fn a_report_of_the_south_pole_comes_out_at_270_degrees() {
    // A latitude within half a part of the south pole rounds to the pole.
    let (even, even_units, _, _) = encode((-2_499_999_999, 10_000_000_000), (0, 1), false);
    let (odd, _, _, _) = encode((-2_499_999_999, 10_000_000_000), (0, 1), true);
    assert_eq!(even_units, -115_998_720);
    let position = calculate_geographic_position(even, odd, CprFormat::Odd).unwrap();
    assert_eq!(position.latitude.units, 347_996_160);
}

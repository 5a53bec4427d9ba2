//! Compact position reporting: the globally unambiguous solution of an
//! even and an odd position report.
//!
//! Angles are held exactly, as integer fractions of a full turn, so that no
//! rounding enters the solution. A raw 17-bit value `v` stands for the
//! fraction `v / 2^17` of a zone.

use crate::adsb::msgs::CprFormat;
use vstd::arithmetic::div_mod::{
    lemma_fundamental_div_mod, lemma_fundamental_div_mod_converse, lemma_mod_bound,
    lemma_mod_multiples_vanish,
};
use vstd::prelude::*;

verus! {

/// The number of values of a raw 17-bit coordinate, 2^17.
pub const CPR_SCALE: u32 = 131_072;

/// The number of latitude units in a full turn: 60 * 59 * 2^17. Every
/// latitude of an even report, with its 60 zones, and of an odd report, with
/// its 59 zones, is a whole number of these units.
pub const UNITS_PER_TURN: i32 = 463_994_880;

/// 270 degrees in latitude units.
pub const UNITS_270_DEGREES: i32 = 347_996_160;

/// 87 degrees in latitude units.
pub const UNITS_87_DEGREES: i32 = 112_132_096;

/// A latitude of `units / UNITS_PER_TURN` turns, north positive.
#[derive(Debug, Clone, Copy, PartialEq, Eq, Structural)]
pub struct Latitude {
    pub units: i32,
}

/// A longitude of `num / (zones * 2^17)` turns, east positive, in one of
/// `zones` longitude zones.
#[derive(Debug, Clone, Copy, PartialEq, Eq, Structural)]
pub struct Longitude {
    pub num: i32,
    pub zones: u32,
}

/// A position on the globe.
#[derive(Debug, Clone, Copy, PartialEq, Eq, Structural)]
pub struct GeographicPosition {
    pub latitude: Latitude,
    pub longitude: Longitude,
}

/// The whole millionths of a degree in `numerator / denominator` turns,
/// rounded down.
pub open spec fn microdegrees_of(numerator: int, denominator: int) -> int {
    (numerator * 360_000_000) / denominator
}

/// `numerator / denominator`, rounded down.
fn floor_div(numerator: i64, denominator: i64) -> (quotient: i64)
    requires
        0 < denominator <= 0x2000_0000_0000_0000,
        -0x2000_0000_0000_0000 <= numerator <= 0x2000_0000_0000_0000,
    ensures
        quotient == numerator / denominator,
{
    if numerator >= 0 {
        numerator / denominator
    } else {
        let up: i64 = (-numerator + denominator - 1) / denominator;
        proof {
            let n: int = numerator as int;
            let d: int = denominator as int;
            let q: int = up as int;
            assert(q == (-n + d - 1) / d);
            assert(-q == n / d) by (nonlinear_arith)
                requires
                    d > 0,
                    n < 0,
                    q == (-n + d - 1) / d,
            ;
        }
        -up
    }
}

impl Latitude {
    /// The latitude in whole millionths of a degree, rounded down.
    pub fn microdegrees(&self) -> (value: i64)
        ensures
            value == microdegrees_of(self.units as int, UNITS_PER_TURN as int),
    {
        floor_div(self.units as i64 * 360_000_000, UNITS_PER_TURN as i64)
    }
}

impl Longitude {
    /// Whether the longitude is one that the solver gives: in 1 to 59
    /// zones, and within half a turn of the prime meridian, the west end
    /// left out.
    pub open spec fn wf(self) -> bool {
        &&& 1 <= self.zones <= 59
        &&& -(self.zones * 131_072) < 2 * self.num <= self.zones * 131_072
    }

    /// The longitude in whole millionths of a degree, rounded down.
    pub fn microdegrees(&self) -> (value: i64)
        requires
            self.zones >= 1,
        ensures
            value == microdegrees_of(self.num as int, self.zones * 131_072),
    {
        floor_div(self.num as i64 * 360_000_000, self.zones as i64 * 131_072)
    }
}

/// For each zone count `k` from 2 to 59, the largest latitude in units, north
/// or south, at which there are still at least `k` longitude zones: the
/// transition latitude `acos(sqrt((1 - cos(pi / 30)) / (1 - cos(2 pi / k))))`,
/// rounded down to a whole unit. The entry for 2 is 87 degrees exactly; no
/// other transition falls on a whole unit. Entries 0 and 1 are unused.
pub const ZONE_LIMITS: [i32; 60] = [
    2_147_483_647, 2_147_483_647, 112_132_096, 111_533_246, 110_527_983, 109_414_712,
    108_254_820, 107_069_389, 105_867_610, 104_654_062, 103_431_202, 102_200_391,
    100_962_374, 99_717_519, 98_465_956, 97_207_652, 95_942_456, 94_670_131, 93_390_370,
    92_102_809, 90_807_034, 89_502_584, 88_188_955, 86_865_599, 85_531_926, 84_187_299,
    82_831_032, 81_462_388, 80_080_575, 78_684_738, 77_273_955, 75_847_229, 74_403_478,
    72_941_525, 71_460_089, 69_957_764, 68_433_008, 66_884_120, 65_309_214, 63_706_193,
    62_072_708, 60_406_117, 58_703_429, 56_961_235, 55_175_616, 53_342_035, 51_455_185,
    49_508_793, 47_495_355, 45_405_760, 43_228_771, 40_950_251, 38_551_990, 36_009_852,
    33_290_662, 30_346_611, 27_104_254, 23_439_814, 19_111_658, 13_495_125,
];

/// The largest zone count, no more than `k`, that reaches out to the
/// distance `distance` from the equator.
pub open spec fn zones_up_to(distance: int, k: int) -> int
    decreases k,
{
    if k <= 1 {
        1
    } else if k <= 59 && distance <= ZONE_LIMITS[k] {
        k
    } else {
        zones_up_to(distance, k - 1)
    }
}

/// The number of longitude zones at a latitude of `units` units: 59 at the
/// equator, falling with the distance from it to 2 at 87 degrees and 1
/// beyond.
pub open spec fn num_zones(units: int) -> int {
    zones_up_to(if units < 0 { -units } else { units }, 59)
}

/// The zone count lies between 1 and `k`.
pub proof fn lemma_zones_up_to_range(distance: int, k: int)
    requires
        1 <= k <= 59,
    ensures
        1 <= zones_up_to(distance, k) <= k,
    decreases k,
{
    if k > 1 && distance > ZONE_LIMITS[k] {
        lemma_zones_up_to_range(distance, k - 1);
    }
}

/// Beyond 87 degrees there is one zone, whatever the count started from.
pub proof fn lemma_zones_beyond_limit(distance: int, k: int)
    requires
        k <= 59,
        distance > UNITS_87_DEGREES,
    ensures
        zones_up_to(distance, k) == 1,
    decreases k,
{
    if k > 1 {
        assert(ZONE_LIMITS[k] <= UNITS_87_DEGREES);
        lemma_zones_up_to_range(distance, k);
        lemma_zones_beyond_limit(distance, k - 1);
    }
}

/// Between the transition to three zones and 87 degrees there are two zones.
pub proof fn lemma_zones_at_limit(distance: int, k: int)
    requires
        2 <= k <= 59,
        ZONE_LIMITS[3] < distance <= UNITS_87_DEGREES,
    ensures
        zones_up_to(distance, k) == 2,
    decreases k,
{
    if k > 2 {
        assert(ZONE_LIMITS[k] <= ZONE_LIMITS[3]);
        lemma_zones_at_limit(distance, k - 1);
    }
}

/// Finds the number of longitude zones at the latitude `lat`.
#[verifier::loop_isolation(false)]
pub fn calc_num_zones(lat: Latitude) -> (zones: u32)
    ensures
        zones == num_zones(lat.units as int),
        1 <= zones <= 59,
        lat.units == 0 ==> zones == 59,
        lat.units == UNITS_87_DEGREES || lat.units == -UNITS_87_DEGREES ==> zones == 2,
        lat.units > UNITS_87_DEGREES || lat.units < -UNITS_87_DEGREES ==> zones == 1,
{
    let wide: i64 = lat.units as i64;
    let distance: i64 = if wide < 0 { -wide } else { wide };
    proof {
        lemma_zones_up_to_range(distance as int, 59);
        if distance > UNITS_87_DEGREES {
            lemma_zones_beyond_limit(distance as int, 59);
        }
        if distance == UNITS_87_DEGREES {
            lemma_zones_at_limit(distance as int, 59);
        }
        assert(zones_up_to(0, 59) == 59);
    }
    let mut k: usize = 59;
    while k > 1
        invariant
            1 <= k <= 59,
            0 <= distance,
            zones_up_to(distance as int, 59) == zones_up_to(distance as int, k as int),
        decreases k,
    {
        if distance <= ZONE_LIMITS[k] as i64 {
            return k as u32;
        }
        k -= 1;
    }
    1
}

/// The parity of the other report of a pair.
pub open spec fn other_format(format: CprFormat) -> CprFormat {
    match format {
        CprFormat::Even => CprFormat::Odd,
        CprFormat::Odd => CprFormat::Even,
    }
}

/// The latitude zone index of a pair of raw latitudes:
/// `floor(59 * even / 2^17 - 60 * odd / 2^17 + 1/2)`.
pub open spec fn latitude_index(even: int, odd: int) -> int {
    (59 * even - 60 * odd + 65_536) / 131_072
}

/// A latitude above 270 degrees names a place south of the equator: it is
/// taken a full turn back.
pub open spec fn wrap_latitude(units: int) -> int {
    if units > UNITS_270_DEGREES {
        units - UNITS_PER_TURN
    } else {
        units
    }
}

/// The latitude in units that the even report of a pair gives: one 60th of
/// a turn for each zone, times the zone index modulo 60 plus the even
/// fraction.
pub open spec fn even_latitude(even: int, odd: int) -> int {
    wrap_latitude(59 * ((latitude_index(even, odd) % 60) * 131_072 + even))
}

/// The latitude in units that the odd report of a pair gives: one 59th of a
/// turn for each zone, times the zone index modulo 59 plus the odd fraction.
pub open spec fn odd_latitude(even: int, odd: int) -> int {
    wrap_latitude(60 * ((latitude_index(even, odd) % 59) * 131_072 + odd))
}

/// The latitude of the newer report of a pair whose older report has the
/// parity `first`.
pub open spec fn selected_latitude(even: int, odd: int, first: CprFormat) -> int {
    match first {
        CprFormat::Even => odd_latitude(even, odd),
        CprFormat::Odd => even_latitude(even, odd),
    }
}

/// Calculates the latitudes that a pair of raw latitudes gives. `first` is
/// the parity of the older report. Returns the latitude of the newer
/// report, then the even and the odd latitude.
pub fn calculate_latitude(even_cpr_lat: u32, odd_cpr_lat: u32, first: CprFormat) -> (latitudes: (
    Latitude,
    Latitude,
    Latitude,
))
    requires
        even_cpr_lat < CPR_SCALE,
        odd_cpr_lat < CPR_SCALE,
    ensures
        latitudes.0.units == selected_latitude(even_cpr_lat as int, odd_cpr_lat as int, first),
        latitudes.1.units == even_latitude(even_cpr_lat as int, odd_cpr_lat as int),
        latitudes.2.units == odd_latitude(even_cpr_lat as int, odd_cpr_lat as int),
        -UNITS_PER_TURN / 4 < latitudes.1.units <= UNITS_270_DEGREES,
        -UNITS_PER_TURN / 4 < latitudes.2.units <= UNITS_270_DEGREES,
{
    let even: u64 = even_cpr_lat as u64;
    let odd: u64 = odd_cpr_lat as u64;
    // Sixty whole zones are added before the division, so that it works on a
    // number that is not negative; they leave both remainders as they were.
    let shifted: u64 = 59 * even + 65_536 + 60 * 131_072 - 60 * odd;
    let quotient: u64 = shifted / 131_072;
    assert(quotient as int == latitude_index(even as int, odd as int) + 60);
    let even_zone: u64 = quotient % 60;
    let odd_zone: u64 = (quotient + 58) % 59;
    assert(even_zone as int == latitude_index(even as int, odd as int) % 60);
    assert(odd_zone as int == latitude_index(even as int, odd as int) % 59);
    let even_raw: i64 = (59 * (even_zone * 131_072 + even)) as i64;
    let odd_raw: i64 = (60 * (odd_zone * 131_072 + odd)) as i64;
    let even_units: i64 = if even_raw > UNITS_270_DEGREES as i64 {
        even_raw - UNITS_PER_TURN as i64
    } else {
        even_raw
    };
    let odd_units: i64 = if odd_raw > UNITS_270_DEGREES as i64 {
        odd_raw - UNITS_PER_TURN as i64
    } else {
        odd_raw
    };
    let even_latitude = Latitude { units: even_units as i32 };
    let odd_latitude = Latitude { units: odd_units as i32 };
    let latitude = match first {
        CprFormat::Even => odd_latitude,
        CprFormat::Odd => even_latitude,
    };
    (latitude, even_latitude, odd_latitude)
}

/// The longitude zone index of a pair of raw longitudes at a latitude with
/// `nl` zones: `floor(even / 2^17 * (nl - 1) - odd / 2^17 * nl + 1/2)`.
pub open spec fn longitude_index(even: int, odd: int, nl: int) -> int {
    (even * (nl - 1) - odd * nl + 65_536) / 131_072
}

/// The number of longitude zones of a report with parity `newer` at a
/// latitude with `nl` zones: `nl` for an even report, and one less, but at
/// least one, for an odd report.
pub open spec fn longitude_zones(nl: int, newer: CprFormat) -> int {
    match newer {
        CprFormat::Even => nl,
        CprFormat::Odd => if nl > 1 {
            nl - 1
        } else {
            1
        },
    }
}

/// A longitude beyond half a turn east names a place west of the prime
/// meridian: it is taken a full turn back.
pub open spec fn wrap_longitude(num: int, zones: int) -> int {
    if 2 * num > zones * 131_072 {
        num - zones * 131_072
    } else {
        num
    }
}

/// The longitude that a pair of raw longitudes gives at a latitude with
/// `nl` zones, when the newer report has the parity `newer`: one zone width
/// times the zone index modulo the number of zones plus the fraction of the
/// newer report, brought into the half turn on either side of the prime
/// meridian.
pub open spec fn solved_longitude(even: int, odd: int, nl: int, newer: CprFormat) -> Longitude {
    let zones = longitude_zones(nl, newer);
    let fraction = match newer {
        CprFormat::Even => even,
        CprFormat::Odd => odd,
    };
    Longitude {
        num: wrap_longitude((longitude_index(even, odd, nl) % zones) * 131_072 + fraction, zones) as i32,
        zones: zones as u32,
    }
}

/// Calculates the longitude that a pair of raw longitudes gives at the
/// latitude `latitude`. `first` is the parity of the older report.
pub fn calculate_longitude(
    even_cpr_long: u32,
    odd_cpr_long: u32,
    latitude: Latitude,
    first: CprFormat,
) -> (longitude: Longitude)
    requires
        even_cpr_long < CPR_SCALE,
        odd_cpr_long < CPR_SCALE,
    ensures
        longitude == solved_longitude(
            even_cpr_long as int,
            odd_cpr_long as int,
            num_zones(latitude.units as int),
            other_format(first),
        ),
        longitude.wf(),
{
    let even: u64 = even_cpr_long as u64;
    let odd: u64 = odd_cpr_long as u64;
    let nl: u64 = calc_num_zones(latitude) as u64;
    let lower: u64 = if nl > 1 { nl - 1 } else { 1 };
    let zones: u64 = match first {
        CprFormat::Even => lower,
        CprFormat::Odd => nl,
    };
    let fraction: u64 = match first {
        CprFormat::Even => odd,
        CprFormat::Odd => even,
    };
    // A multiple of either zone count is added before the division, so that
    // it works on a number that is not negative; it leaves the remainder as
    // it was.
    assert(nl <= nl * lower <= 59 * 58) by (nonlinear_arith)
        requires
            1 <= nl <= 59,
            1 <= lower <= 58,
    ;
    let lift: u64 = nl * lower;
    assert(even * (nl - 1) <= 131_072 * 58 && odd * nl <= 131_071 * nl) by (nonlinear_arith)
        requires
            even < 131_072,
            odd < 131_072,
            1 <= nl <= 59,
    ;
    let shifted: u64 = even * (nl - 1) + 65_536 + lift * 131_072 - odd * nl;
    let quotient: u64 = shifted / 131_072;
    let zone: u64 = quotient % zones;
    proof {
        let index = longitude_index(even as int, odd as int, nl as int);
        assert(quotient as int == index + lift);
        if zones == nl {
            lemma_mod_multiples_vanish(lower as int, index, zones as int);
            assert(zones * lower == lift) by (nonlinear_arith)
                requires
                    zones == nl,
                    lift == nl * lower,
            ;
        } else {
            lemma_mod_multiples_vanish(nl as int, index, zones as int);
            assert(zones * nl == lift) by (nonlinear_arith)
                requires
                    zones == lower,
                    lift == nl * lower,
            ;
        }
        assert(zone as int == index % (zones as int));
    }
    let span: i64 = (zones * 131_072) as i64;
    let east: i64 = (zone * 131_072 + fraction) as i64;
    let num: i64 = if 2 * east > span { east - span } else { east };
    Longitude { num: num as i32, zones: zones as u32 }
}

/// Whether all four raw coordinates of a pair are 17-bit values.
pub open spec fn pair_in_range(even: (u32, u32), odd: (u32, u32)) -> bool {
    even.0 < CPR_SCALE && even.1 < CPR_SCALE && odd.0 < CPR_SCALE && odd.1 < CPR_SCALE
}

/// Whether the even and the odd latitude of a pair lie in the same band of
/// longitude zones. Where they do not, the aircraft crossed a transition
/// latitude between the two reports and the pair has no solution.
pub open spec fn zones_agree(even: (u32, u32), odd: (u32, u32)) -> bool {
    num_zones(even_latitude(even.0 as int, odd.0 as int)) == num_zones(
        odd_latitude(even.0 as int, odd.0 as int),
    )
}

/// The position that an even and an odd report give, each as raw latitude
/// and raw longitude, when the older of the two has the parity `first`.
pub open spec fn solved_position(even: (u32, u32), odd: (u32, u32), first: CprFormat) -> Option<
    GeographicPosition,
> {
    if pair_in_range(even, odd) && zones_agree(even, odd) {
        let latitude = selected_latitude(even.0 as int, odd.0 as int, first);
        Some(
            GeographicPosition {
                latitude: Latitude { units: latitude as i32 },
                longitude: solved_longitude(
                    even.1 as int,
                    odd.1 as int,
                    num_zones(latitude),
                    other_format(first),
                ),
            },
        )
    } else {
        None
    }
}

/// Calculates the position from an even and an odd report, each given as raw
/// latitude and raw longitude. `first` is the parity of the older report;
/// the position is that of the newer one. Returns `None` when a raw value
/// does not fit in 17 bits, or when the two latitudes lie in different bands
/// of longitude zones.
pub fn calculate_geographic_position(
    even_cpr_lat_long: (u32, u32),
    odd_cpr_lat_long: (u32, u32),
    first: CprFormat,
) -> (position: Option<GeographicPosition>)
    ensures
        position == solved_position(even_cpr_lat_long, odd_cpr_lat_long, first),
{
    if even_cpr_lat_long.0 >= CPR_SCALE || even_cpr_lat_long.1 >= CPR_SCALE
        || odd_cpr_lat_long.0 >= CPR_SCALE || odd_cpr_lat_long.1 >= CPR_SCALE {
        return None;
    }
    let (latitude, even_latitude, odd_latitude) = calculate_latitude(
        even_cpr_lat_long.0,
        odd_cpr_lat_long.0,
        first,
    );
    if calc_num_zones(even_latitude) != calc_num_zones(odd_latitude) {
        return None;
    }
    let longitude = calculate_longitude(even_cpr_lat_long.1, odd_cpr_lat_long.1, latitude, first);
    Some(GeographicPosition { latitude, longitude })
}

/// The number of latitude zones of a report: 60 for an even report and 59
/// for an odd one.
pub open spec fn latitude_zones(format: CprFormat) -> int {
    match format {
        CprFormat::Even => 60,
        CprFormat::Odd => 59,
    }
}

/// The raw latitude that a report of the parity `format` carries for the
/// latitude of `lat / 2^17` turns: the fraction of its zone, in 2^17 parts.
/// For such a latitude the fraction is a whole number of parts, so that
/// nothing is rounded.
pub open spec fn encoded_latitude(lat: int, format: CprFormat) -> int {
    (latitude_zones(format) * lat) % 131_072
}

/// The raw longitude that a report of the parity `format` carries for the
/// longitude of `lon / 2^17` turns at a latitude with `nl` longitude zones:
/// the fraction of its zone, in 2^17 parts.
pub open spec fn encoded_longitude(lon: int, nl: int, format: CprFormat) -> int {
    (longitude_zones(nl, format) * lon) % 131_072
}

/// Both reports of a latitude of `lat / 2^17` turns, short of a quarter turn
/// north or south, give that latitude back.
pub proof fn lemma_latitude_recovered(lat: int)
    requires
        -32_768 < lat < 32_768,
    ensures
        even_latitude(
            encoded_latitude(lat, CprFormat::Even),
            encoded_latitude(lat, CprFormat::Odd),
        ) == 3540 * lat,
        odd_latitude(
            encoded_latitude(lat, CprFormat::Even),
            encoded_latitude(lat, CprFormat::Odd),
        ) == 3540 * lat,
{
    let even = encoded_latitude(lat, CprFormat::Even);
    let odd = encoded_latitude(lat, CprFormat::Odd);
    let a = (60 * lat) / 131_072;
    let b = (59 * lat) / 131_072;
    assert(60 * lat == 131_072 * a + even);
    assert(59 * lat == 131_072 * b + odd);
    assert(-15 <= a <= 14);
    assert(-15 <= b <= 14);
    let index = latitude_index(even, odd);
    assert(59 * even - 60 * odd + 65_536 == 131_072 * (60 * b - 59 * a) + 65_536);
    assert(index == 60 * b - 59 * a);
    assert(index % 60 == (if a >= 0 { a } else { a + 60 }));
    assert(index % 59 == (if b >= 0 { b } else { b + 59 }));
}

/// The quotient of `zones * lon` by 2^17 lies within the zones, and taken
/// modulo the zones it is itself or, where negative, itself plus the zones.
proof fn lemma_zone_of(lon: int, zones: int)
    requires
        1 <= zones <= 59,
        -65_536 < lon <= 65_536,
    ensures
        ({
            let p = (zones * lon) / 131_072;
            &&& zones * lon == 131_072 * p + (zones * lon) % 131_072
            &&& -zones <= p < zones
            &&& p % zones == (if p >= 0 {
                p
            } else {
                p + zones
            })
        }),
{
    let product = zones * lon;
    let p = product / 131_072;
    let x = product % 131_072;
    lemma_fundamental_div_mod(product, 131_072);
    assert(-65_536 * zones <= product <= 65_536 * zones) by (nonlinear_arith)
        requires
            1 <= zones,
            -65_536 < lon <= 65_536,
            product == zones * lon,
    ;
    assert(-zones <= p < zones);
    if p >= 0 {
        lemma_fundamental_div_mod_converse(p, zones, 0, p);
    } else {
        lemma_fundamental_div_mod_converse(p, zones, -1, p + zones);
    }
}

/// Either report of a longitude of `lon / 2^17` turns, within half a turn
/// of the prime meridian, gives that longitude back, in the zones of the
/// newer report.
pub proof fn lemma_longitude_recovered(lon: int, nl: int, newer: CprFormat)
    requires
        1 <= nl <= 59,
        -65_536 < lon <= 65_536,
    ensures
        solved_longitude(
            encoded_longitude(lon, nl, CprFormat::Even),
            encoded_longitude(lon, nl, CprFormat::Odd),
            nl,
            newer,
        ) == (Longitude {
            num: (longitude_zones(nl, newer) * lon) as i32,
            zones: longitude_zones(nl, newer) as u32,
        }),
{
    let even_zones = longitude_zones(nl, CprFormat::Even);
    let odd_zones = longitude_zones(nl, CprFormat::Odd);
    let even = encoded_longitude(lon, nl, CprFormat::Even);
    let odd = encoded_longitude(lon, nl, CprFormat::Odd);
    let pe = (even_zones * lon) / 131_072;
    let po = (odd_zones * lon) / 131_072;
    lemma_zone_of(lon, even_zones);
    lemma_zone_of(lon, odd_zones);
    let zones = longitude_zones(nl, newer);
    let p = if newer == CprFormat::Even { pe } else { po };
    let fraction = if newer == CprFormat::Even { even } else { odd };
    let index = longitude_index(even, odd, nl);
    assert(zones * lon == 131_072 * p + fraction);
    assert(index % zones == p % zones) by {
        if nl == 1 {
            assert(index % 1 == 0);
            assert(p % 1 == 0);
        } else {
            let k = po * nl - pe * (nl - 1);
            assert(even * (nl - 1) - odd * nl + 65_536 == k * 131_072 + 65_536)
                by (nonlinear_arith)
                requires
                    nl * lon == 131_072 * pe + even,
                    (nl - 1) * lon == 131_072 * po + odd,
                    k == po * nl - pe * (nl - 1),
            ;
            lemma_fundamental_div_mod_converse(
                even * (nl - 1) - odd * nl + 65_536,
                131_072,
                k,
                65_536,
            );
            assert(index == k);
            if newer == CprFormat::Even {
                assert(k == nl * (po - pe) + pe) by (nonlinear_arith)
                    requires
                        k == po * nl - pe * (nl - 1),
                ;
                lemma_mod_multiples_vanish(po - pe, pe, nl);
            } else {
                assert(k == (nl - 1) * (po - pe) + po) by (nonlinear_arith)
                    requires
                        k == po * nl - pe * (nl - 1),
                ;
                lemma_mod_multiples_vanish(po - pe, po, nl - 1);
            }
        }
    }
    let east = (index % zones) * 131_072 + fraction;
    assert(-65_536 * zones < zones * lon <= 65_536 * zones) by (nonlinear_arith)
        requires
            1 <= zones,
            -65_536 < lon <= 65_536,
    ;
    if p >= 0 {
        assert(east == zones * lon);
    } else {
        assert((p + zones) * 131_072 == p * 131_072 + zones * 131_072) by (nonlinear_arith);
        assert(east == zones * lon + zones * 131_072);
    }
    assert(wrap_longitude(east, zones) == zones * lon);
}

/// A position on the grid of 2^17 parts of a turn is recovered exactly from
/// its pair of reports, whichever of the two is the older: for a latitude
/// of `lat / 2^17` turns short of a quarter turn north or south, and a
/// longitude of `lon / 2^17` turns within half a turn of the prime meridian,
/// the west end left out, the pair of the even and the odd encoding has a
/// solution, its latitude is `lat / 2^17` turns, and its longitude is
/// `lon / 2^17` turns in the zones of the newer report.
pub proof fn lemma_grid_position_recovered(lat: int, lon: int, first: CprFormat)
    requires
        -32_768 < lat < 32_768,
        -65_536 < lon <= 65_536,
    ensures
        ({
            let nl = num_zones(3540 * lat);
            let zones = longitude_zones(nl, other_format(first));
            let even = (
                encoded_latitude(lat, CprFormat::Even) as u32,
                encoded_longitude(lon, nl, CprFormat::Even) as u32,
            );
            let odd = (
                encoded_latitude(lat, CprFormat::Odd) as u32,
                encoded_longitude(lon, nl, CprFormat::Odd) as u32,
            );
            solved_position(even, odd, first) == Some(
                GeographicPosition {
                    latitude: Latitude { units: (3540 * lat) as i32 },
                    longitude: Longitude { num: (zones * lon) as i32, zones: zones as u32 },
                },
            )
        }),
{
    let nl = num_zones(3540 * lat);
    lemma_zones_up_to_range(if 3540 * lat < 0 { -(3540 * lat) } else { 3540 * lat }, 59);
    lemma_latitude_recovered(lat);
    lemma_longitude_recovered(lon, nl, other_format(first));
}

/// The place of `num / den` turns in a ring of `zones` zones, in 2^17 parts
/// of a zone and rounded to the nearest part, halves upward:
/// `floor(2^17 * zones * num / den + 1/2)`. Divided by 2^17 it gives the
/// zone and, as its remainder, the raw coordinate that a report carries.
pub open spec fn rounded_coordinate(zones: int, num: int, den: int) -> int {
    (262_144 * (zones * num) + den) / (2 * den)
}

/// Twice the distance, in parts of `1 / den`, of a rounded coordinate from
/// the place that it rounds.
pub open spec fn rounding_error(zones: int, num: int, den: int) -> int {
    2 * (den * rounded_coordinate(zones, num, den)) - 262_144 * (zones * num)
}

/// The number of latitude units in a 2^17th part of a latitude zone of a
/// report: 59 for an even report, whose zones are a 60th of a turn, and 60
/// for an odd report, whose zones are a 59th.
pub open spec fn latitude_unit(format: CprFormat) -> int {
    match format {
        CprFormat::Even => 59,
        CprFormat::Odd => 60,
    }
}

/// The latitude in units that a report of the parity `format` stands for
/// when it encodes the latitude of `num / den` turns: the latitude rounded
/// to the nearest 2^17th part of a latitude zone of that parity.
pub open spec fn report_latitude(num: int, den: int, format: CprFormat) -> int {
    latitude_unit(format) * rounded_coordinate(latitude_zones(format), num, den)
}

/// The raw latitude and longitude that a report of the parity `format`
/// carries for the latitude of `lat_num / lat_den` turns and the longitude
/// of `lon_num / lon_den` turns. The longitude zones are those at the
/// latitude that the report itself stands for.
pub open spec fn encoded_report(
    lat_num: int,
    lat_den: int,
    lon_num: int,
    lon_den: int,
    format: CprFormat,
) -> (u32, u32) {
    let nl = num_zones(report_latitude(lat_num, lat_den, format));
    (
        (rounded_coordinate(latitude_zones(format), lat_num, lat_den) % 131_072) as u32,
        (rounded_coordinate(longitude_zones(nl, format), lon_num, lon_den) % 131_072) as u32,
    )
}

/// A rounded coordinate lies within half a part of the place it rounds.
pub proof fn lemma_rounded_close(zones: int, num: int, den: int)
    requires
        den > 0,
    ensures
        -den < rounding_error(zones, num, den) <= den,
{
    let total = 262_144 * (zones * num) + den;
    lemma_fundamental_div_mod(total, 2 * den);
    lemma_mod_bound(total, 2 * den);
    let r = total / (2 * den);
    assert((2 * den) * r == 2 * (den * r)) by (nonlinear_arith);
}

/// The rounded coordinates of one place in two rings differ by less than
/// half the sum of the zone counts, once each is scaled by the zone count of
/// the other ring.
proof fn lemma_rounded_pair(first: int, second: int, num: int, den: int)
    requires
        den > 0,
        first >= 1,
        second >= 1,
    ensures
        -(first + second) < 2 * (second * rounded_coordinate(first, num, den) - first
            * rounded_coordinate(second, num, den)) < first + second,
{
    let r1 = rounded_coordinate(first, num, den);
    let r2 = rounded_coordinate(second, num, den);
    lemma_rounded_close(first, num, den);
    lemma_rounded_close(second, num, den);
    let m1 = first * num;
    let m2 = second * num;
    let w1 = den * r1;
    let w2 = den * r2;
    let d1 = 2 * w1 - 262_144 * m1;
    let d2 = 2 * w2 - 262_144 * m2;
    assert(d1 == rounding_error(first, num, den));
    assert(d2 == rounding_error(second, num, den));
    let gap = second * r1 - first * r2;
    assert(second * m1 == first * m2) by (nonlinear_arith)
        requires
            m1 == first * num,
            m2 == second * num,
    ;
    assert(second * w1 - first * w2 == den * gap) by (nonlinear_arith)
        requires
            w1 == den * r1,
            w2 == den * r2,
            gap == second * r1 - first * r2,
    ;
    assert(second * d1 == 2 * (second * w1) - 262_144 * (second * m1)) by (nonlinear_arith)
        requires
            d1 == 2 * w1 - 262_144 * m1,
    ;
    assert(first * d2 == 2 * (first * w2) - 262_144 * (first * m2)) by (nonlinear_arith)
        requires
            d2 == 2 * w2 - 262_144 * m2,
    ;
    assert(second * d1 - first * d2 == 2 * (den * gap));
    assert(-(second * den) < second * d1 <= second * den) by (nonlinear_arith)
        requires
            -den < d1 <= den,
            second >= 1,
    ;
    assert(-(first * den) < first * d2 <= first * den) by (nonlinear_arith)
        requires
            -den < d2 <= den,
            first >= 1,
    ;
    assert((first + second) * den == first * den + second * den) by (nonlinear_arith);
    assert(-(first + second) < 2 * gap < first + second) by (nonlinear_arith)
        requires
            -((first + second) * den) < 2 * (den * gap) < (first + second) * den,
            den > 0,
    ;
}

/// The rounded coordinate of a place within one `parts`-th of a turn of the
/// origin, in a ring of `zones` zones with `parts * limit == zones * 2^17`,
/// lies within `limit` of zero.
proof fn lemma_rounded_range(zones: int, num: int, den: int, limit: int, parts: int)
    requires
        den > 0,
        zones >= 1,
        parts >= 1,
        parts * limit == zones * 131_072,
        -den < parts * num <= den,
    ensures
        -limit <= rounded_coordinate(zones, num, den) <= limit,
{
    let r = rounded_coordinate(zones, num, den);
    lemma_rounded_close(zones, num, den);
    let w = den * r;
    let m = zones * num;
    assert(-den < 2 * w - 262_144 * m <= den);
    assert(-(zones * den) < parts * m <= zones * den) by (nonlinear_arith)
        requires
            m == zones * num,
            zones >= 1,
            -den < parts * num <= den,
    ;
    assert(parts * (2 * w) == 2 * (parts * w)) by (nonlinear_arith);
    assert(parts * (262_144 * m) == 262_144 * (parts * m)) by (nonlinear_arith);
    assert(-(parts * den) < parts * (2 * w - 262_144 * m) <= parts * den) by (nonlinear_arith)
        requires
            -den < 2 * w - 262_144 * m <= den,
            parts >= 1,
    ;
    assert(parts * (2 * w - 262_144 * m) == parts * (2 * w) - parts * (262_144 * m))
        by (nonlinear_arith);
    assert(262_144 * (zones * den) == (2 * (parts * limit)) * den) by (nonlinear_arith)
        requires
            parts * limit == zones * 131_072,
    ;
    assert(-limit <= r <= limit) by (nonlinear_arith)
        requires
            den > 0,
            parts >= 1,
            w == den * r,
            -((2 * (parts * limit)) * den) - parts * den < 2 * (parts * w) <= (2 * (parts
                * limit)) * den + parts * den,
    ;
}

/// The two latitudes of a pair whose raw latitudes are the remainders of
/// two rounded coordinates that belong together: each is the latitude that
/// its report stands for, except that a report of the south pole itself
/// comes out a full turn further north, at 270 degrees.
pub proof fn lemma_pair_latitudes(even: int, odd: int)
    requires
        -1_966_080 <= even <= 1_966_080,
        -1_933_312 <= odd <= 1_933_312,
        -59 <= 59 * even - 60 * odd <= 59,
    ensures
        even_latitude(even % 131_072, odd % 131_072) == (if even > -1_966_080 {
            59 * even
        } else {
            59 * even + UNITS_PER_TURN
        }),
        odd_latitude(even % 131_072, odd % 131_072) == (if odd > -1_933_312 {
            60 * odd
        } else {
            60 * odd + UNITS_PER_TURN
        }),
{
    let e = even % 131_072;
    let o = odd % 131_072;
    let a = even / 131_072;
    let b = odd / 131_072;
    assert(even == 131_072 * a + e);
    assert(odd == 131_072 * b + o);
    assert(-15 <= a <= 15);
    assert(-15 <= b <= 14);
    let index = latitude_index(e, o);
    assert(59 * e - 60 * o + 65_536 == 131_072 * (60 * b - 59 * a) + (59 * even - 60 * odd
        + 65_536));
    assert(index == 60 * b - 59 * a);
    assert(index % 60 == (if a >= 0 { a } else { a + 60 }));
    assert(index % 59 == (if b >= 0 { b } else { b + 59 }));
}

/// The longitude of a pair whose raw longitudes are the remainders of two
/// rounded coordinates that belong together: it is the rounded coordinate
/// of the newer report, in the zones of that report, except that the west
/// end of the range comes out as the east end.
pub proof fn lemma_pair_longitude(even: int, odd: int, nl: int, newer: CprFormat)
    requires
        1 <= nl <= 59,
        nl > 1 ==> -59 <= even * (nl - 1) - odd * nl <= 59,
        nl == 1 ==> even == odd,
        ({
            let zones = longitude_zones(nl, newer);
            let place = if newer == CprFormat::Even { even } else { odd };
            -zones * 65_536 <= place <= zones * 65_536
        }),
    ensures
        ({
            let zones = longitude_zones(nl, newer);
            let place = if newer == CprFormat::Even { even } else { odd };
            solved_longitude(even % 131_072, odd % 131_072, nl, newer) == (Longitude {
                num: (if place == -zones * 65_536 {
                    zones * 65_536
                } else {
                    place
                }) as i32,
                zones: zones as u32,
            })
        }),
{
    let zones = longitude_zones(nl, newer);
    let place = if newer == CprFormat::Even { even } else { odd };
    let xe = even % 131_072;
    let xo = odd % 131_072;
    let pe = even / 131_072;
    let po = odd / 131_072;
    assert(even == 131_072 * pe + xe);
    assert(odd == 131_072 * po + xo);
    let p = if newer == CprFormat::Even { pe } else { po };
    let fraction = if newer == CprFormat::Even { xe } else { xo };
    assert(place == 131_072 * p + fraction);
    let index = longitude_index(xe, xo, nl);
    assert(index % zones == p % zones) by {
        if nl == 1 {
            assert(index % 1 == 0);
            assert(p % 1 == 0);
        } else {
            let k = po * nl - pe * (nl - 1);
            let rest = even * (nl - 1) - odd * nl + 65_536;
            assert(xe * (nl - 1) - xo * nl + 65_536 == k * 131_072 + rest) by (nonlinear_arith)
                requires
                    even == 131_072 * pe + xe,
                    odd == 131_072 * po + xo,
                    k == po * nl - pe * (nl - 1),
                    rest == even * (nl - 1) - odd * nl + 65_536,
            ;
            lemma_fundamental_div_mod_converse(
                xe * (nl - 1) - xo * nl + 65_536,
                131_072,
                k,
                rest,
            );
            assert(index == k);
            if newer == CprFormat::Even {
                assert(k == nl * (po - pe) + pe) by (nonlinear_arith)
                    requires
                        k == po * nl - pe * (nl - 1),
                ;
                lemma_mod_multiples_vanish(po - pe, pe, nl);
            } else {
                assert(k == (nl - 1) * (po - pe) + po) by (nonlinear_arith)
                    requires
                        k == po * nl - pe * (nl - 1),
                ;
                lemma_mod_multiples_vanish(po - pe, po, nl - 1);
            }
        }
    }
    lemma_fundamental_div_mod(p, zones);
    lemma_mod_bound(p, zones);
    let turns = p / zones;
    let zone = p % zones;
    let east = zone * 131_072 + fraction;
    assert(east == place - turns * (zones * 131_072)) by (nonlinear_arith)
        requires
            p == zones * turns + zone,
            place == 131_072 * p + fraction,
            east == zone * 131_072 + fraction,
    ;
    assert(0 <= east < zones * 131_072) by (nonlinear_arith)
        requires
            0 <= zone < zones,
            0 <= fraction < 131_072,
            east == zone * 131_072 + fraction,
    ;
    assert(turns == 0 || turns == -1) by (nonlinear_arith)
        requires
            east == place - turns * (zones * 131_072),
            0 <= east < zones * 131_072,
            -zones * 65_536 <= place <= zones * 65_536,
            zones >= 1,
    ;
    if turns == 0 {
        assert(turns * (zones * 131_072) == 0) by (nonlinear_arith)
            requires
                turns == 0,
        ;
        assert(east == place);
    } else {
        assert(turns * (zones * 131_072) == -(zones * 131_072)) by (nonlinear_arith)
            requires
                turns == -1,
        ;
        assert(east == place + zones * 131_072);
    }
}

/// A position is recovered from the pair of reports that encode it,
/// whichever of the two is the older. For a latitude of `lat_num / lat_den`
/// turns short of a quarter turn north or south, and a longitude of
/// `lon_num / lon_den` turns within half a turn of the prime meridian, the
/// west end left out: where the two reports agree on the band of longitude
/// zones, and the newer report does not stand for the south pole itself,
/// the pair has a solution; its latitude is the one that the newer report
/// stands for, within half a 2^17th of a latitude zone of the true
/// latitude; its longitude is the rounded coordinate of the newer report,
/// within half a 2^17th of a longitude zone of the true longitude, with the
/// west end of the range shown as the east end.
pub proof fn lemma_position_recovered(
    lat_num: int,
    lat_den: int,
    lon_num: int,
    lon_den: int,
    first: CprFormat,
)
    requires
        lat_den > 0,
        lon_den > 0,
        -lat_den < 4 * lat_num < lat_den,
        -lon_den < 2 * lon_num <= lon_den,
        zones_agree(
            encoded_report(lat_num, lat_den, lon_num, lon_den, CprFormat::Even),
            encoded_report(lat_num, lat_den, lon_num, lon_den, CprFormat::Odd),
        ),
        report_latitude(lat_num, lat_den, other_format(first)) > -UNITS_PER_TURN / 4,
    ensures
        ({
            let newer = other_format(first);
            let latitude = report_latitude(lat_num, lat_den, newer);
            let unit = latitude_unit(newer);
            let zones = longitude_zones(num_zones(latitude), newer);
            let place = rounded_coordinate(zones, lon_num, lon_den);
            &&& solved_position(
                encoded_report(lat_num, lat_den, lon_num, lon_den, CprFormat::Even),
                encoded_report(lat_num, lat_den, lon_num, lon_den, CprFormat::Odd),
                first,
            ) == Some(
                GeographicPosition {
                    latitude: Latitude { units: latitude as i32 },
                    longitude: Longitude {
                        num: (if place == -zones * 65_536 {
                            zones * 65_536
                        } else {
                            place
                        }) as i32,
                        zones: zones as u32,
                    },
                },
            )
            &&& -(unit * lat_den) < 2 * (lat_den * latitude) - 2 * (UNITS_PER_TURN * lat_num)
                <= unit * lat_den
            &&& -lon_den < 2 * (lon_den * place) - 262_144 * (zones * lon_num) <= lon_den
        }),
{
    let newer = other_format(first);
    let r0 = rounded_coordinate(60, lat_num, lat_den);
    let r1 = rounded_coordinate(59, lat_num, lat_den);
    lemma_rounded_range(60, lat_num, lat_den, 1_966_080, 4);
    lemma_rounded_range(59, lat_num, lat_den, 1_933_312, 4);
    lemma_rounded_pair(60, 59, lat_num, lat_den);
    lemma_pair_latitudes(r0, r1);
    let even_units = 59 * r0;
    let odd_units = 60 * r1;
    assert(report_latitude(lat_num, lat_den, CprFormat::Even) == even_units);
    assert(report_latitude(lat_num, lat_den, CprFormat::Odd) == odd_units);
    let even = encoded_report(lat_num, lat_den, lon_num, lon_den, CprFormat::Even);
    let odd = encoded_report(lat_num, lat_den, lon_num, lon_den, CprFormat::Odd);
    let e = r0 % 131_072;
    let o = r1 % 131_072;
    assert(even.0 == e && odd.0 == o);
    // At the south pole a latitude comes out at 270 degrees; either way it
    // lies beyond 87 degrees, where there is one zone.
    assert(num_zones(even_latitude(e, o)) == num_zones(even_units)) by {
        if r0 == -1_966_080 {
            lemma_zones_beyond_limit(-even_units, 59);
            lemma_zones_beyond_limit(even_units + UNITS_PER_TURN, 59);
        }
    }
    assert(num_zones(odd_latitude(e, o)) == num_zones(odd_units)) by {
        if r1 == -1_933_312 {
            lemma_zones_beyond_limit(-odd_units, 59);
            lemma_zones_beyond_limit(odd_units + UNITS_PER_TURN, 59);
        }
    }
    let nl = num_zones(even_units);
    assert(nl == num_zones(odd_units));
    lemma_zones_up_to_range(if even_units < 0 { -even_units } else { even_units }, 59);
    let even_zones = longitude_zones(nl, CprFormat::Even);
    let odd_zones = longitude_zones(nl, CprFormat::Odd);
    let s0 = rounded_coordinate(even_zones, lon_num, lon_den);
    let s1 = rounded_coordinate(odd_zones, lon_num, lon_den);
    assert(even.1 == s0 % 131_072 && odd.1 == s1 % 131_072);
    if nl > 1 {
        lemma_rounded_pair(nl, nl - 1, lon_num, lon_den);
        assert(s0 * (nl - 1) - s1 * nl == (nl - 1) * s0 - nl * s1) by (nonlinear_arith);
    }
    let zones = longitude_zones(nl, newer);
    lemma_rounded_range(zones, lon_num, lon_den, zones * 65_536, 2);
    lemma_pair_longitude(s0, s1, nl, newer);
    lemma_rounded_close(latitude_zones(newer), lat_num, lat_den);
    lemma_rounded_close(zones, lon_num, lon_den);
    let latitude = report_latitude(lat_num, lat_den, newer);
    let unit = latitude_unit(newer);
    let r = rounded_coordinate(latitude_zones(newer), lat_num, lat_den);
    let zn = latitude_zones(newer) * lat_num;
    let w = lat_den * r;
    assert(-lat_den < 2 * w - 262_144 * zn <= lat_den);
    assert(lat_den * latitude == unit * w) by (nonlinear_arith)
        requires
            latitude == unit * r,
            w == lat_den * r,
    ;
    assert(UNITS_PER_TURN * lat_num == 131_072 * (unit * zn)) by (nonlinear_arith)
        requires
            zn == latitude_zones(newer) * lat_num,
            unit * latitude_zones(newer) == 3540,
            UNITS_PER_TURN == 3540 * 131_072,
    ;
    assert(unit * (2 * w - 262_144 * zn) == 2 * (unit * w) - 262_144 * (unit * zn))
        by (nonlinear_arith);
    assert(-(unit * lat_den) < unit * (2 * w - 262_144 * zn) <= unit * lat_den)
        by (nonlinear_arith)
        requires
            -lat_den < 2 * w - 262_144 * zn <= lat_den,
            unit >= 1,
    ;
}

} // verus!

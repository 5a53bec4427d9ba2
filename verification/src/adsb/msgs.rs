//! The messages carried in the 56-bit ME field of an extended squitter:
//! aircraft identification and airborne position.

use crate::adsb::bits::{bit_at, field, lemma_field_bound, read_bit, read_field};
use vstd::arithmetic::power2::{lemma2_to64, pow2};
use vstd::prelude::*;
use vstd::slice::slice_subrange;

verus! {

/// A decoded ME field.
#[derive(Debug, Clone)]
pub enum AdsbMsgType {
    AircraftID(AircraftID),
    AircraftPosition(AircraftPosition),
    Uknown(UknownMsg),
}

/// A message kind that is selected by type code.
pub trait AdsbMsg {
    /// The type codes that this kind of message covers.
    spec fn covers(id: u8) -> bool;

    /// Whether a message with type code `id` is of this kind.
    fn msg_id_match(id: u8) -> (matched: bool) where Self: Sized
        ensures
            matched == Self::covers(id),
    ;
}

/// An ME field with a type code that is not decoded further.
#[derive(Debug, Clone)]
pub struct UknownMsg {
    pub raw_msg: Vec<u8>,
}

/// The parity of a compact position report.
#[derive(Debug, Clone, Copy, PartialEq, Eq, Structural)]
pub enum CprFormat {
    Even,
    Odd,
}

/// The altitude in feet that a 12-bit altitude code stands for. Bit 4 of
/// the code selects 25 ft steps when set and 100 ft steps when clear; the
/// other eleven bits count steps up from -1000 ft.
pub open spec fn altitude_of_code(code: nat) -> int {
    let steps = (code / 32) * 16 + code % 16;
    let step_feet: int = if (code / 16) % 2 == 1 { 25 } else { 100 };
    steps * step_feet - 1000
}

/// The 12-bit altitude code for `steps` steps above -1000 ft, in 25 ft steps
/// when `fine` and 100 ft steps otherwise.
pub open spec fn altitude_code(steps: nat, fine: bool) -> nat {
    (steps / 16) * 32 + (if fine { 16nat } else { 0nat }) + steps % 16
}

/// Every altitude that eleven bits of steps can express survives encoding
/// and decoding: for `steps` below 2048 the code fits in 12 bits and decodes
/// to `steps` times the step size, less 1000 ft.
pub proof fn lemma_altitude_round_trip(steps: nat, fine: bool)
    requires
        steps < 2048,
    ensures
        altitude_code(steps, fine) < 4096,
        altitude_of_code(altitude_code(steps, fine)) == steps * (if fine { 25int } else { 100int })
            - 1000,
{
    let code = altitude_code(steps, fine);
    let flag: nat = if fine { 16 } else { 0 };
    assert(code == (steps / 16) * 32 + flag + steps % 16);
    assert(code / 32 == steps / 16);
    assert(code % 16 == steps % 16);
    assert((code / 16) % 2 == (if fine { 1int } else { 0int }));
}

/// Decodes a 12-bit altitude code to feet.
pub fn altitude_from_code(code: u16) -> (feet: i32)
    requires
        code < 4096,
    ensures
        feet == altitude_of_code(code as nat),
{
    let steps: i32 = ((code / 32) * 16 + code % 16) as i32;
    let step_feet: i32 = if (code / 16) % 2 == 1 { 25 } else { 100 };
    steps * step_feet - 1000
}

/// An airborne position message.
#[derive(Debug, Clone, Copy)]
pub struct AircraftPosition {
    pub raw_msg: [u8; 7],
    pub msg_type: u8,
    pub surveillance_status: u8,
    pub nic_supplement: u8,
    /// The altitude in feet.
    pub altitude: i32,
    pub cpr_time: u8,
    pub cpr_format: CprFormat,
    pub cpr_latitude: u32,
    pub cpr_longitude: u32,
}

/// What an airborne position message says.
pub struct PositionReport {
    pub type_code: u8,
    pub surveillance_status: u8,
    pub nic_supplement: u8,
    pub altitude: int,
    pub cpr_time: u8,
    pub cpr_format: CprFormat,
    pub cpr_latitude: u32,
    pub cpr_longitude: u32,
}

impl View for AircraftPosition {
    type V = PositionReport;

    open spec fn view(&self) -> PositionReport {
        PositionReport {
            type_code: self.msg_type,
            surveillance_status: self.surveillance_status,
            nic_supplement: self.nic_supplement,
            altitude: self.altitude as int,
            cpr_time: self.cpr_time,
            cpr_format: self.cpr_format,
            cpr_latitude: self.cpr_latitude,
            cpr_longitude: self.cpr_longitude,
        }
    }
}

/// What the ME field `msg` says when read as an airborne position message:
/// type code in bits 0-4, surveillance status in bits 5-6, NIC supplement in
/// bit 7, altitude code in bits 8-19, time flag in bit 20, format in bit 21,
/// latitude in bits 22-38 and longitude in bits 39-55.
pub open spec fn position_report(msg: Seq<u8>) -> PositionReport {
    PositionReport {
        type_code: field(msg, 0, 5) as u8,
        surveillance_status: field(msg, 5, 2) as u8,
        nic_supplement: field(msg, 7, 1) as u8,
        altitude: altitude_of_code(field(msg, 8, 12)),
        cpr_time: field(msg, 20, 1) as u8,
        cpr_format: if bit_at(msg, 21) {
            CprFormat::Odd
        } else {
            CprFormat::Even
        },
        cpr_latitude: field(msg, 22, 17) as u32,
        cpr_longitude: field(msg, 39, 17) as u32,
    }
}

impl AircraftPosition {
    /// Decodes an airborne position message from its ME field.
    pub fn new(msg: [u8; 7]) -> (pos: Self)
        ensures
            pos@ == position_report(msg@),
            pos.raw_msg == msg,
            -1000 <= pos.altitude <= 203_700,
            pos.cpr_latitude < 0x2_0000,
            pos.cpr_longitude < 0x2_0000,
    {
        let bytes: &[u8] = msg.as_slice();
        proof {
            lemma2_to64();
            lemma_field_bound(msg@, 0, 5);
            lemma_field_bound(msg@, 5, 2);
            lemma_field_bound(msg@, 7, 1);
            lemma_field_bound(msg@, 8, 12);
            lemma_field_bound(msg@, 20, 1);
            lemma_field_bound(msg@, 22, 17);
            lemma_field_bound(msg@, 39, 17);
        }
        let msg_type: u8 = read_field(bytes, 0, 5) as u8;
        let ss: u8 = read_field(bytes, 5, 2) as u8;
        let nic: u8 = read_field(bytes, 7, 1) as u8;
        let code: u16 = read_field(bytes, 8, 12) as u16;
        let altitude: i32 = altitude_from_code(code);
        let time: u8 = read_field(bytes, 20, 1) as u8;
        let cpr_format: CprFormat = if read_bit(bytes, 21) {
            CprFormat::Odd
        } else {
            CprFormat::Even
        };
        let latitude: u32 = read_field(bytes, 22, 17);
        let longitude: u32 = read_field(bytes, 39, 17);
        Self {
            raw_msg: msg,
            msg_type,
            surveillance_status: ss,
            nic_supplement: nic,
            altitude,
            cpr_time: time,
            cpr_format,
            cpr_latitude: latitude,
            cpr_longitude: longitude,
        }
    }

    /// Returns the altitude in feet.
    pub fn get_altitude_ft(&self) -> (feet: i32)
        ensures
            feet == self.altitude,
    {
        self.altitude
    }

    /// Returns the parity of the position report.
    pub fn get_cpr_format(&self) -> (format: CprFormat)
        ensures
            format == self.cpr_format,
    {
        self.cpr_format
    }

    /// Returns the raw latitude and longitude, in this order.
    pub fn get_cpr_position(&self) -> (position: (u32, u32))
        ensures
            position == (self.cpr_latitude, self.cpr_longitude),
    {
        (self.cpr_latitude, self.cpr_longitude)
    }
}

impl AdsbMsg for AircraftPosition {
    open spec fn covers(id: u8) -> bool {
        9 <= id <= 18
    }

    fn msg_id_match(id: u8) -> (matched: bool) {
        9 <= id && id <= 18
    }
}

/// An aircraft identification message.
#[derive(Debug, Clone)]
pub struct AircraftID {
    pub raw_msg: [u8; 7],
    pub msg_type: u8,
    pub callsign: String,
}

/// Group `k` of `data` regrouped into 6-bit groups, first bits first. Where
/// `data` ends inside the group, the missing low bits are zero.
pub open spec fn six_bit_group(data: Seq<u8>, k: int) -> nat {
    let available = 8 * data.len() - 6 * k;
    if available >= 6 {
        field(data, 6 * k, 6)
    } else {
        field(data, 6 * k, available as nat) * pow2((6 - available) as nat)
    }
}

/// The number of 6-bit groups that cover `bytes` bytes.
pub open spec fn six_bit_groups(bytes: nat) -> nat {
    ((8 * bytes + 5) / 6) as nat
}

/// Regroups `input` into 6-bit groups, first bits first, one group per
/// output byte. A last group that `input` does not fill is padded with zero
/// bits at its low end.
pub fn to_6bit_chunks(input: &[u8]) -> (out: Vec<u8>)
    requires
        8 * input@.len() <= usize::MAX,
    ensures
        out@.len() == six_bit_groups(input@.len()),
        forall|k: int| 0 <= k < out@.len() ==> #[trigger] out@[k] == six_bit_group(input@, k),
{
    let total: usize = 8 * input.len();
    let full: usize = total / 6;
    let rest: usize = total % 6;
    let mut out: Vec<u8> = Vec::new();
    let mut k: usize = 0;
    while k < full
        invariant
            k <= full,
            total == 8 * input@.len(),
            full == total / 6,
            out@.len() == k,
            forall|g: int| 0 <= g < k ==> #[trigger] out@[g] == six_bit_group(input@, g),
        decreases full - k,
    {
        proof {
            lemma_field_bound(input@, 6 * k, 6);
            lemma2_to64();
        }
        let group: u32 = read_field(input, 6 * k, 6);
        out.push(group as u8);
        k += 1;
    }
    if rest > 0 {
        proof {
            lemma_field_bound(input@, 6 * full, rest as nat);
            lemma2_to64();
        }
        let head: u32 = read_field(input, 6 * full, rest);
        let scale: u32 = if rest == 1 {
            32
        } else if rest == 2 {
            16
        } else if rest == 3 {
            8
        } else if rest == 4 {
            4
        } else {
            2
        };
        assert(head * scale < 64) by (nonlinear_arith)
            requires
                head < pow2(rest as nat),
                pow2(rest as nat) * scale == 64,
        ;
        out.push((head * scale) as u8);
    }
    out
}

/// The character that a 6-bit code stands for: 1 to 26 are the letters A to
/// Z, 48 to 57 the digits 0 to 9, 32 the space (shown as an underscore), and
/// every other code the sentinel `#`. A value that is no 6-bit code gives
/// `?`.
pub open spec fn ident_char(code: u8) -> char {
    if 1 <= code <= 26 {
        (code + 64) as char
    } else if 48 <= code <= 57 {
        code as char
    } else if code == 32 {
        '_'
    } else if code < 64 {
        '#'
    } else {
        '?'
    }
}

/// Two different 6-bit codes share a character only when that character is
/// the sentinel `#`.
pub proof fn lemma_ident_char_inverse(a: u8, b: u8)
    requires
        a < 64,
        b < 64,
        a != b,
        ident_char(a) == ident_char(b),
    ensures
        ident_char(a) == '#',
{
}

/// No 6-bit code gives `?`, and only a 6-bit code that is no letter, digit
/// or space gives `#`.
pub proof fn lemma_ident_char_total(code: u8)
    requires
        code < 64,
    ensures
        ident_char(code) != '?',
        ident_char(code) == '#' <==> !(1 <= code <= 26 || 48 <= code <= 57 || code == 32),
{
}

/// The characters of the 6-bit codes, by code.
pub const CHAR_CONVERT: [char; 64] = [
    '#', 'A', 'B', 'C', 'D', 'E', 'F', 'G', 'H', 'I', 'J', 'K', 'L', 'M', 'N', 'O', 'P', 'Q',
    'R', 'S', 'T', 'U', 'V', 'W', 'X', 'Y', 'Z', '#', '#', '#', '#', '#', '_', '#', '#', '#',
    '#', '#', '#', '#', '#', '#', '#', '#', '#', '#', '#', '#', '0', '1', '2', '3', '4', '5',
    '6', '7', '8', '9', '#', '#', '#', '#', '#', '#',
];

/// Looks up the character of a 6-bit code.
pub fn char_of_code(code: u8) -> (ch: char)
    ensures
        ch == ident_char(code),
{
    if code < 64 {
        CHAR_CONVERT[code as usize]
    } else {
        '?'
    }
}

/// `String::push` of the standard library appends one character to the end
/// of the string and leaves the characters before it as they were.
pub assume_specification[ String::push ](s: &mut String, ch: char)
    ensures
        final(s)@ == old(s)@.push(ch),
;

/// What an aircraft identification message says.
pub struct IdentReport {
    pub type_code: u8,
    pub callsign: Seq<char>,
}

impl View for AircraftID {
    type V = IdentReport;

    open spec fn view(&self) -> IdentReport {
        IdentReport { type_code: self.msg_type, callsign: self.callsign@ }
    }
}

/// The callsign that the ME field `msg` holds: the 48 bits after its first
/// byte as eight 6-bit codes, each mapped to its character.
pub open spec fn callsign_of(msg: Seq<u8>) -> Seq<char> {
    Seq::new(8, |i: int| ident_char(six_bit_group(msg.subrange(1, 7), i) as u8))
}

/// What the ME field `msg` says when read as an aircraft identification
/// message: type code in bits 0-4 and the callsign in bits 8-55.
pub open spec fn ident_report(msg: Seq<u8>) -> IdentReport {
    IdentReport { type_code: field(msg, 0, 5) as u8, callsign: callsign_of(msg) }
}

impl AircraftID {
    /// Decodes an aircraft identification message from its ME field.
    pub fn new(msg: [u8; 7]) -> (id: Self)
        ensures
            id@ == ident_report(msg@),
            id.raw_msg == msg,
    {
        let bytes: &[u8] = msg.as_slice();
        let msg_6_bit: Vec<u8> = to_6bit_chunks(slice_subrange(bytes, 1, 7));
        let mut callsign: String = String::new();
        let mut i: usize = 0;
        while i < 8
            invariant
                i <= 8,
                msg_6_bit@.len() == 8,
                forall|k: int|
                    0 <= k < 8 ==> #[trigger] msg_6_bit@[k] == six_bit_group(
                        msg@.subrange(1, 7),
                        k,
                    ),
                callsign@ == callsign_of(msg@).take(i as int),
            decreases 8 - i,
        {
            let ch: char = char_of_code(msg_6_bit[i]);
            callsign.push(ch);
            assert(callsign@ =~= callsign_of(msg@).take(i + 1));
            i += 1;
        }
        assert(callsign@ =~= callsign_of(msg@));
        proof {
            lemma_field_bound(msg@, 0, 5);
            lemma2_to64();
        }
        let msg_type: u8 = read_field(bytes, 0, 5) as u8;
        Self { raw_msg: msg, msg_type, callsign }
    }

    /// Returns a copy of the callsign.
    pub fn get_callsign(&self) -> (callsign: String)
        ensures
            callsign@ == self.callsign@,
    {
        self.callsign.clone()
    }
}

impl AdsbMsg for AircraftID {
    open spec fn covers(id: u8) -> bool {
        1 <= id <= 4
    }

    fn msg_id_match(id: u8) -> (matched: bool) {
        1 <= id && id <= 4
    }
}

impl View for UknownMsg {
    type V = Seq<u8>;

    open spec fn view(&self) -> Seq<u8> {
        self.raw_msg@
    }
}

/// What a decoded ME field says.
pub enum Message {
    Ident(IdentReport),
    Position(PositionReport),
    Unknown(Seq<u8>),
}

impl View for AdsbMsgType {
    type V = Message;

    open spec fn view(&self) -> Message {
        match self {
            AdsbMsgType::AircraftID(id) => Message::Ident(id@),
            AdsbMsgType::AircraftPosition(pos) => Message::Position(pos@),
            AdsbMsgType::Uknown(unknown) => Message::Unknown(unknown@),
        }
    }
}

/// What the ME field `msg` says: an identification for the type codes 1 to
/// 4, an airborne position for 9 to 18, and its bytes as they are for any
/// other type code.
pub open spec fn decoded_message(msg: Seq<u8>) -> Message {
    let type_code = field(msg, 0, 5) as u8;
    if AircraftID::covers(type_code) {
        Message::Ident(ident_report(msg))
    } else if AircraftPosition::covers(type_code) {
        Message::Position(position_report(msg))
    } else {
        Message::Unknown(msg)
    }
}

impl AdsbMsgType {
    /// Decodes the ME field `msg` by its type code.
    pub fn decode(msg: [u8; 7]) -> (decoded: Self)
        ensures
            decoded@ == decoded_message(msg@),
    {
        proof {
            lemma_field_bound(msg@, 0, 5);
            lemma2_to64();
        }
        let type_code: u8 = read_field(msg.as_slice(), 0, 5) as u8;
        if AircraftID::msg_id_match(type_code) {
            AdsbMsgType::AircraftID(AircraftID::new(msg))
        } else if AircraftPosition::msg_id_match(type_code) {
            AdsbMsgType::AircraftPosition(AircraftPosition::new(msg))
        } else {
            let mut raw_msg: Vec<u8> = Vec::new();
            let mut i: usize = 0;
            while i < 7
                invariant
                    i <= 7,
                    raw_msg@ == msg@.take(i as int),
                decreases 7 - i,
            {
                raw_msg.push(msg[i]);
                assert(raw_msg@ =~= msg@.take(i + 1));
                i += 1;
            }
            assert(raw_msg@ =~= msg@);
            AdsbMsgType::Uknown(UknownMsg { raw_msg })
        }
    }
}

} // verus!

//! Receiver core for 1090 MHz Mode S extended squitter broadcasts.
//!
//! The crate turns magnitude samples into validated 112-bit frames, decodes
//! aircraft identification and airborne position messages, resolves compact
//! position reports and keeps a table of aircraft. Every function carries a
//! contract that Verus proves.

pub mod adsb;
pub mod adsb_msgs;
pub mod aircraft;
pub mod cli;
pub mod utils;

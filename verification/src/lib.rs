//! The clove engine: the rules, codecs and state machines between the I2P
//! transport below and the daemon above, with their behaviour stated and
//! proved. Peers are known by [`dest::DestHash`] only.
use vstd::prelude::*;

pub mod base64;
pub mod bencode;
pub mod bitfield;
pub mod budget;
pub mod choker;
pub mod config;
pub mod decimal;
pub mod dest;
pub mod digest;
pub mod extension;
pub mod fetch;
pub mod fields;
pub mod formats;
pub mod grammar;
pub mod http;
pub mod intake;
pub mod json;
pub mod magnet;
pub mod magnitude;
pub mod metadata;
pub mod metainfo;
pub mod paths;
pub mod pex;
pub mod picker;
pub mod reputation;
pub mod resume;
pub mod scan;
pub mod session;
pub mod shown;
pub mod sorting;
pub mod storage;
pub mod strings;
pub mod swarm;
pub mod text;
pub mod torrent;
pub mod tracker;
pub mod upkeep;
pub mod wire;
pub mod world;

verus! {

/// The release name: the full year and the zero-padded month it was cut in,
/// with a trailing counter only when a month needed a second release.
pub const VERSION: &'static str = "2026.08";

} // verus!

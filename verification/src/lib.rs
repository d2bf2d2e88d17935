//! OpenLR2 chart reading: a verified reader for BMS/PMS chart files.
//!
//! The reader turns a chart file's text into a [`document::BmsDocument`]:
//! metadata headers, the `#WAV`/`#BMP` resource tables, the `#BPM`/`#STOP`
//! definitions and every channel object placed on the measure grid.
//! Decimal values are kept as the literals the file gives.
pub mod assemble;
pub mod channels;
pub mod chart;
pub mod codes;
pub mod document;
pub mod encoding;
pub mod error;
pub mod headers;
pub mod keymode;
pub mod lines;
pub mod parser;
pub mod properties;
pub mod resource;
pub mod scan;
pub mod text;
pub mod utf8len;

pub use chart::{BmsParseOptions, ResourceRef, ResourceTable};
pub use codes::{base_decode, channel_to_lane, parse_channel_code, player_to_keymode};
pub use document::BmsDocument;
pub use encoding::{cp932_to_utf8, utf8_to_cp932};
pub use error::OpenLr2Error;
pub use keymode::KeyMode;
pub use parser::{parse_channel_parts, parse_indexed_value, parse_resource_line};
pub use resource::{FontId, SoundId, TextureId};
pub use scan::scan_bms;

//! Decoder for the element stream carried in the PDF417 barcode of AAMVA
//! driver's licenses and identification cards.
//!
//! [`ParsedData::from_raw_data`] takes the text of a payload, one element to
//! a line, and returns the record that the payload states. It never fails:
//! a date or a height that cannot be read is replaced by a fixed text, and a
//! missing element leaves its field empty.
//!
//! The modules, from the ground up: `text`, `decimal`, `digits`, `rounding`
//! and `numeral` hold what is needed of characters and numbers; `elements`
//! takes a payload apart; `date`, `height` and `gender` read one value
//! each; `record` puts the record together; `laws` holds what is proved of
//! all payloads; `options` names what a command line can ask for.

pub mod date;
pub mod decimal;
pub mod digits;
pub mod elements;
pub mod gender;
pub mod height;
pub mod laws;
pub mod numeral;
pub mod options;
pub mod record;
pub mod rounding;
pub mod text;

pub use crate::elements::ElementMap;
pub use crate::gender::Gender;
pub use crate::options::{CommandLineArguments, OutputFormat};
pub use crate::record::ParsedData;

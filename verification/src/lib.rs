//! Streaming codec for the ADIF contact-log format: an incremental decoder
//! that turns a byte stream into typed records, and an encoder that writes
//! typed records back into the wire format.

pub mod buffer;
pub mod cabrillo;
pub mod cistring;
pub mod datum;
pub mod error;
pub mod filter;
pub mod parse;
pub mod record;
pub mod roundtrip;
pub mod stream;
pub mod text;
pub mod values;
pub mod write;

pub use cistring::CiStr;
pub use cistring::CiString;
pub use datum::Datum;
pub use error::Error;
pub use error::Position;
pub use parse::RecordStream;
pub use parse::TagDecoder;
pub use record::Field;
pub use record::Record;
pub use record::Tag;
pub use write::OutputTypes;
pub use write::RecordSink;
pub use write::TagEncoder;

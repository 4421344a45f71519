//! A codec for the classic Unix `ar` archive layout: a fixed signature, then
//! one fixed-width ASCII header, payload and pad byte per member.
pub mod archive;
pub mod command;
pub mod field;
pub mod header;
pub mod roundtrip;

pub use archive::{build_index, extract, pack, Archive, Extracted, Source};
pub use command::{run, Config, Operation, Outcome};
pub use header::{decode_header, encode_header, ArError, ArFile};

//! Decoder for a binary format of named, typed, nested tags (NBT),
//! together with a writer that renders a decoded tree as SNBT text
//! under a configurable indentation policy.
//!
//! The decoder consumes an in-memory byte stream; opening files and
//! writing output belong to the program around the library.

pub mod decode;
pub mod error;
pub mod indentation;
pub mod integer;
pub mod numeral;
pub mod tags;

pub use decode::Decoder;
pub use error::NBTError;
pub use indentation::IndentationType;
pub use integer::Integer;
pub use tags::{SnbtPiece, Tag};

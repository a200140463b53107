//! A security identifier ("SID") as an immutable, comparable value.
//!
//! The identifier is held as its raw revision-1 byte encoding; equality,
//! ordering and hashing are derived from those bytes, and the canonical
//! dash-delimited text form (`S-1-...`) is produced and parsed by verified
//! code over the documented binary layout.

mod codec;
pub mod layout;
pub mod order;
pub mod radix;
pub mod sid;
pub mod text;

pub use sid::Sid;
pub use sid::SidFormatError;

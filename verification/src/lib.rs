//! Base32 with Crockford's alphabet in lowercase, decoded strictly.
//!
//! Five bytes make a block of eight symbols. `encode` and `encode_into`
//! write whole blocks; `encoded_len` says how many of the symbols are the
//! canonical encoding. `decode` takes text of any length and accepts the
//! thirty-two symbols and nothing else.

pub mod alphabet;
pub mod decoder;
pub mod encoder;
pub mod error;
pub mod length;
pub mod regroup;
pub mod roundtrip;
pub mod text;

pub use decoder::decode;
pub use encoder::{encode, encode_into};
pub use error::InvalidBase32Error;
pub use length::{encoded_buffer_len, encoded_len};

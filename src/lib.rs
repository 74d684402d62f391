//! Bech32 and Bech32m: a checksummed, human-readable text encoding of bytes.
//!
//! A string is a human-readable part, the separator `1`, and the data as
//! 5-bit groups written in a 32-character alphabet, closed by six checksum
//! groups (none in the unchecked mode).

pub mod bits;
pub mod charset;
pub mod checksum;
pub mod codec;
pub mod hrp;
pub mod laws;
pub mod regroup;
pub mod text;

pub use checksum::Variant;
pub use codec::{
    bech32_decode, bech32_encode, bech32_encode_lower, encode, parse_mode, DecodeError,
    EncodeError,
};
pub use hrp::{Hrp, HrpError};
pub use regroup::{bytes_to_quintets, quintets_to_bytes, PaddingError};

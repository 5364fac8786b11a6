//! A content-addressed git object engine over a blob-store snapshot:
//! loose and packed objects with full delta resolution, refs, the
//! smart-HTTP protocol, and branch metadata projection.

use vstd::prelude::*;

pub mod auth;
pub mod browse;
pub mod bytes;
pub mod cache;
pub mod commit;
pub mod config;
pub mod delta;
pub mod diff;
pub mod hex;
pub mod idx;
pub mod metadata;
pub mod object;
pub mod pack;
pub mod pkt;
pub mod refs;
pub mod protocol;
pub mod repo;
pub mod sha;
pub mod store;
pub mod text;
pub mod tree;
pub mod zlib;

pub use crate::hex::{hex_encode, hex_decode};

verus! {

/// True when `b` is an ASCII lowercase hex digit.
pub open spec fn is_hex_digit(b: u8) -> bool {
    (48 <= b && b <= 57) || (97 <= b && b <= 102)
}

} // verus!

//! In-place access-flag widening for a class-bytecode archive.
//!
//! The library rewrites the per-class and per-member access-flag bitfields of
//! a little-endian archive so that private and protected entries become
//! public, without ever changing the encoded byte length of any field, and
//! then restores the archive's two integrity fields (a rolling checksum and a
//! cryptographic digest).

use vstd::prelude::*;

pub mod buffer;
pub mod flags;
pub mod integrity;
pub mod laws;
pub mod patch;
pub mod structures;
pub mod uleb128;

verus! {

/// Failure of one patch operation.
#[derive(Debug, Clone, Copy, PartialEq, Eq, Structural)]
pub enum DexError {
    /// The archive's endian tag is not the little-endian marker.
    UnsupportedFormat,
    /// A structural read failed: a malformed variable-length integer or an
    /// offset that points outside the buffer.
    Decode,
}

} // verus!

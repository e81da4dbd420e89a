//! The manifest: the 4-byte file named `current` that records the id of
//! the active segment.
//!
//! The file holds one 32-bit little-endian integer. Its absence marks a
//! fresh store directory; the embedding program then creates it with id 0.

use vstd::prelude::*;
use vstd::bytes::{
    lemma_auto_spec_u32_to_from_le_bytes, spec_u32_from_le_bytes, spec_u32_to_le_bytes,
    u32_from_le_bytes, u32_to_le_bytes,
};

verus! {

/// The bytes the manifest file must hold for segment `log_id`.
pub fn manifest_bytes(log_id: u32) -> (r: Vec<u8>)
    ensures
        r@ == spec_u32_to_le_bytes(log_id),
        r@.len() == 4,
{
    u32_to_le_bytes(log_id)
}

/// The segment id a manifest file holds, or nothing when the file does
/// not consist of exactly 4 bytes.
pub fn parse_manifest(bytes: &Vec<u8>) -> (r: Option<u32>)
    ensures
        match r {
            Some(id) => bytes@.len() == 4 && id == spec_u32_from_le_bytes(bytes@),
            None => bytes@.len() != 4,
        },
{
    if bytes.len() == 4 {
        Some(u32_from_le_bytes(bytes.as_slice()))
    } else {
        None
    }
}

/// Manifest agreement: the bytes written for a segment id parse back to
/// exactly that id, so the `current` file always names the segment that
/// holds the live data.
pub proof fn lemma_manifest_roundtrip(log_id: u32)
    ensures
        spec_u32_from_le_bytes(spec_u32_to_le_bytes(log_id)) == log_id,
        spec_u32_to_le_bytes(log_id).len() == 4,
{
    lemma_auto_spec_u32_to_from_le_bytes();
}

} // verus!

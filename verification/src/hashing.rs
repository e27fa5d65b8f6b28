//! Seeded xxHash digests used to place members on the monitoring rings and to
//! identify configurations and coordinators.
use std::hash::Hasher;
use twox_hash::{XxHash32, XxHash64};
use vstd::prelude::*;

verus! {

/// The 64-bit xxHash digest of `data` under `seed`.
pub uninterp spec fn xxhash64(seed: u64, data: Seq<u8>) -> u64;

/// The 32-bit xxHash digest of `data` under `seed`.
pub uninterp spec fn xxhash32(seed: u32, data: Seq<u8>) -> u32;

/// Calls `twox_hash::XxHash64::with_seed`, writes `data` once and finishes.
/// The contract names the digest and claims that it depends on the seed and the
/// bytes alone.
#[verifier::external_body]
pub(crate) fn xxhash64_bytes(seed: u64, data: &[u8]) -> (h: u64)
    ensures
        h == xxhash64(seed, data@),
{
    let mut hasher = XxHash64::with_seed(seed);
    hasher.write(data);
    hasher.finish()
}

/// Calls `twox_hash::XxHash32::with_seed`, writes `data` once and finishes.
/// `Hasher::finish` widens the 32-bit digest to `u64`; the contract claims the
/// widened value is the named 32-bit digest, so it never exceeds `u32::MAX`.
#[verifier::external_body]
pub(crate) fn xxhash32_bytes(seed: u32, data: &[u8]) -> (h: u64)
    ensures
        h == xxhash32(seed, data@) as u64,
{
    let mut hasher = XxHash32::with_seed(seed);
    hasher.write(data);
    hasher.finish()
}

} // verus!

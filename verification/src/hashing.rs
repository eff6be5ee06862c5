//! The 64-bit content hash used for stable identifiers.

use vstd::prelude::*;
use twox_hash::xxhash3_64::Hasher;

verus! {

/// XXH3-64 of `bytes` under `seed`.
pub uninterp spec fn xxh3_64(seed: u64, bytes: Seq<u8>) -> u64;

/// Calls `twox_hash::xxhash3_64::Hasher::oneshot_with_seed`. The result
/// is a function of the seed and the bytes alone; nothing is claimed of
/// which value it is.
#[verifier::external_body]
pub(crate) fn hash_with_seed(seed: u64, bytes: &[u8]) -> (r: u64)
    ensures
        r == xxh3_64(seed, bytes@),
{
    Hasher::oneshot_with_seed(seed, bytes)
}

} // verus!

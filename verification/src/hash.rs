//! Dual hashing of a key: the same well-distributed 32-bit hash family under
//! two fixed, distinct seeds gives two decorrelated hash values, which the
//! pairing function combines into the key's probe value.

use crate::encoding::phi_spec;
use vstd::prelude::*;

verus! {

/// Seed of the first hash value.
pub const MURMUR_SEED_1: u32 = 0x9747b28c;

/// Seed of the second hash value.
pub const MURMUR_SEED_2: u32 = 0x85ebca6b;

/// What `murmur3::murmur3_32` returns for the four little-endian bytes of
/// `key` under `seed`: a fixed function of those two arguments alone.
pub uninterp spec fn murmur3_of(key: i32, seed: u32) -> u32;

/// Relies on `murmur3::murmur3_32`: a deterministic function of the bytes
/// read and the seed. Reading from an in-memory cursor over the key's four
/// little-endian bytes cannot fail, so the call always returns a value.
#[verifier::external_body]
pub(crate) fn murmur3_hash(key: i32, seed: u32) -> (r: u32)
    ensures
        r == murmur3_of(key, seed),
{
    let bytes = key.to_le_bytes();
    let mut cursor = std::io::Cursor::new(bytes);
    murmur3::murmur3_32(&mut cursor, seed).unwrap()
}

/// The probe value of a key: its two seeded hash values, paired. A pure
/// function of the key, so recomputing it always gives the same value.
pub open spec fn probe_of(key: i32) -> nat {
    phi_spec(murmur3_of(key, MURMUR_SEED_1) as nat, murmur3_of(key, MURMUR_SEED_2) as nat)
}

} // verus!

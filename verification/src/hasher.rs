//! Seeding of the index's hasher family.
//!
//! The in-memory index may hash with a seeded, non-cryptographic hasher.
//! The seed holder below remembers the seed every hasher of the family
//! starts from; the hashing itself is the hasher crate's own work and
//! plays no part in any contract here.

use vstd::prelude::*;

verus! {

/// Remembers the seed each hasher of the family is built with.
#[derive(Default, Clone)]
pub struct WyBuildHasher(pub u64);

impl WyBuildHasher {
    /// A family seeded with zero.
    pub fn new() -> (r: Self)
        ensures
            r.0 == 0,
    {
        WyBuildHasher(0)
    }

    /// A family seeded with `seed`.
    pub fn with_seed(seed: u64) -> (r: Self)
        ensures
            r.0 == seed,
    {
        WyBuildHasher(seed)
    }
}

} // verus!

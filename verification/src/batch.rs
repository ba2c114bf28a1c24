//! Hashing a block of keys before any cell is read.

use vstd::prelude::*;

use crate::geometry::Geometry;
use crate::hash::mixsplit;
use crate::key::{digest, Key};
#[allow(unused_imports)]
use crate::hash;

verus! {

/// How many keys the batched lookups hash before gathering any values. Hashing a whole block
/// first lets the array accesses of every key in the block be in flight at once, instead of
/// each key's loads waiting behind the hashing of the one before it.
pub const BATCH_BLOCK: usize = 8;

/// A hash and its three cells.
#[derive(Clone, Copy, Debug, PartialEq, Eq, Structural)]
pub struct Probe {
    pub hash: u64,
    pub h0: u32,
    pub h1: u32,
    pub h2: u32,
}

impl Probe {
    /// The probe is that of `hash`.
    pub open spec fn aims(self, g: Geometry, hash: u64) -> bool {
        &&& self.hash == hash
        &&& self.h0 == g.first(hash)
        &&& self.h1 == g.second(hash)
        &&& self.h2 == g.third(hash)
    }
}

/// The probes of the `BATCH_BLOCK` keys from number `from` on.
pub fn aim_block<K: Key>(geometry: &Geometry, seed: u64, keys: &[K], from: usize) -> (block: [Probe;
    BATCH_BLOCK])
    requires
        from + BATCH_BLOCK <= keys.len(),
    ensures
        forall|k: int|
            0 <= k < BATCH_BLOCK ==> (#[trigger] block@[k]).aims(
                *geometry,
                hash::key_hash(keys@[from + k].text(), seed),
            ),
{
    let mut block: [Probe; BATCH_BLOCK] = [Probe { hash: 0, h0: 0, h1: 0, h2: 0 }; BATCH_BLOCK];
    let mut j: usize = 0;
    while j < BATCH_BLOCK
        invariant
            j <= BATCH_BLOCK,
            from + BATCH_BLOCK <= keys.len(),
            forall|k: int|
                0 <= k < j ==> (#[trigger] block@[k]).aims(
                    *geometry,
                    hash::key_hash(keys@[from + k].text(), seed),
                ),
        decreases BATCH_BLOCK - j,
    {
        let hash: u64 = mixsplit(digest(keys[from + j].as_key()), seed);
        let (h0, h1, h2) = geometry.get_hash_from_hash(hash);
        block[j] = Probe { hash, h0, h1, h2 };
        j = j + 1;
    }
    block
}

} // verus!

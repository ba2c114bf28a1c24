//! The FNV-1a checksum, 64 bits wide.

use vstd::prelude::*;

verus! {

/// The checksum of no bytes.
pub const FNV_OFFSET: u64 = 0xcbf29ce484222325;

/// What the checksum is multiplied by for every byte.
pub const FNV_PRIME: u64 = 0x100000001b3;

/// The checksum after one more byte.
pub open spec fn fnv_step(state: u64, byte: u8) -> u64 {
    (state ^ byte as u64).wrapping_mul(FNV_PRIME)
}

/// The checksum after more bytes.
pub open spec fn fnv_on(state: u64, bytes: Seq<u8>) -> u64
    decreases bytes.len(),
{
    if bytes.len() == 0 {
        state
    } else {
        fnv_step(fnv_on(state, bytes.drop_last()), bytes.last())
    }
}

/// The checksum of `bytes`.
pub open spec fn fnv(bytes: Seq<u8>) -> u64 {
    fnv_on(FNV_OFFSET, bytes)
}

/// Going on after some bytes is the same as taking all bytes at once.
pub proof fn lemma_fnv_on_concat(state: u64, a: Seq<u8>, b: Seq<u8>)
    ensures
        fnv_on(fnv_on(state, a), b) == fnv_on(state, a + b),
    decreases b.len(),
{
    if b.len() == 0 {
        assert(a + b =~= a);
    } else {
        lemma_fnv_on_concat(state, a, b.drop_last());
        assert((a + b).drop_last() =~= a + b.drop_last());
    }
}

proof fn lemma_xor_byte(a: u64, b: u64, x: u8, y: u8)
    by (bit_vector)
    ensures
        a ^ (x as u64) == b ^ (x as u64) ==> a == b,
        a ^ (x as u64) == a ^ (y as u64) ==> x == y,
{
}

/// Different states stay different when the same bytes follow.
pub proof fn lemma_fnv_on_injective(a: u64, b: u64, bytes: Seq<u8>)
    requires
        fnv_on(a, bytes) == fnv_on(b, bytes),
    ensures
        a == b,
    decreases bytes.len(),
{
    if bytes.len() > 0 {
        let (x, y) = (fnv_on(a, bytes.drop_last()), fnv_on(b, bytes.drop_last()));
        let byte = bytes.last();
        crate::hash::lemma_wrapping_mul_injective(
            x ^ byte as u64,
            y ^ byte as u64,
            FNV_PRIME,
            0xce965057aff6957b,
            0xce9650590f,
        );
        lemma_xor_byte(x, y, byte, byte);
        lemma_fnv_on_injective(a, b, bytes.drop_last());
    }
}

/// Changing one byte changes the checksum.
pub proof fn lemma_fnv_detects_one_byte(bytes: Seq<u8>, at: int, byte: u8)
    requires
        0 <= at < bytes.len(),
        byte != bytes[at],
    ensures
        fnv(bytes.update(at, byte)) != fnv(bytes),
{
    let changed = bytes.update(at, byte);
    let front = bytes.take(at);
    let back = bytes.skip(at + 1);
    let state = fnv(front);
    assert(bytes =~= front + (seq![bytes[at]] + back));
    assert(changed =~= front + (seq![byte] + back));
    lemma_fnv_on_concat(FNV_OFFSET, front, seq![bytes[at]] + back);
    lemma_fnv_on_concat(FNV_OFFSET, front, seq![byte] + back);
    lemma_fnv_on_concat(state, seq![bytes[at]], back);
    lemma_fnv_on_concat(state, seq![byte], back);
    assert(seq![bytes[at]].drop_last() =~= Seq::empty());
    assert(seq![byte].drop_last() =~= Seq::empty());
    reveal_with_fuel(fnv_on, 2);
    assert(fnv_on(state, seq![bytes[at]]) == fnv_step(state, bytes[at]));
    assert(fnv_on(state, seq![byte]) == fnv_step(state, byte));
    if fnv(changed) == fnv(bytes) {
        lemma_fnv_on_injective(fnv_step(state, bytes[at]), fnv_step(state, byte), back);
        crate::hash::lemma_wrapping_mul_injective(
            state ^ bytes[at] as u64,
            state ^ byte as u64,
            FNV_PRIME,
            0xce965057aff6957b,
            0xce9650590f,
        );
        lemma_xor_byte(state, state, bytes[at], byte);
    }
}

/// A checksum that grows with the bytes written to it.
#[derive(Debug)]
pub struct Fnv64a {
    pub state: u64,
}

impl Fnv64a {
    /// The checksum of no bytes.
    pub fn new() -> (r: Fnv64a)
        ensures
            r.state == fnv(Seq::empty()),
    {
        Fnv64a { state: FNV_OFFSET }
    }

    /// Takes in more bytes.
    pub fn write(&mut self, bytes: &[u8])
        ensures
            final(self).state == fnv_on(old(self).state, bytes@),
    {
        let mut i: usize = 0;
        let ghost start = self.state;
        while i < bytes.len()
            invariant
                i <= bytes.len(),
                self.state == fnv_on(start, bytes@.take(i as int)),
            decreases bytes.len() - i,
        {
            proof {
                assert(bytes@.take(i as int + 1).drop_last() =~= bytes@.take(i as int));
            }
            self.state = (self.state ^ bytes[i] as u64).wrapping_mul(FNV_PRIME);
            i = i + 1;
        }
        proof {
            assert(bytes@.take(bytes.len() as int) =~= bytes@);
        }
    }

    /// The checksum of the bytes taken in.
    pub fn finish(&self) -> (r: u64)
        ensures
            r == self.state,
    {
        self.state
    }
}

} // verus!

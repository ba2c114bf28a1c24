//! The hash of a key, the mixing of that hash with a seed, and the sequence of seeds.

use vstd::prelude::*;
#[allow(unused_imports)]
use vstd::arithmetic::div_mod::*;
#[allow(unused_imports)]
use vstd::arithmetic::mul::*;

verus! {

/// The XXH64 digest of `input` under `seed`.
pub uninterp spec fn xxh64_digest(input: Seq<u8>, seed: u64) -> u64;

/// `xxhash_rust::xxh64::xxh64` returns the XXH64 digest of its input under its seed. The
/// digest is a function of the two arguments and is defined for every pair of them; which
/// number it is is left to the name `xxh64_digest`.
pub assume_specification[ xxhash_rust::xxh64::xxh64 ](input: &[u8], seed: u64) -> (r: u64)
    ensures
        r == xxh64_digest(input@, seed),
;

/// `h` folded with its own upper bits.
pub open spec fn xorshift(h: u64, shift: u64) -> u64 {
    h ^ (h >> shift)
}

/// The 64-bit finalizer of MurmurHash3.
pub open spec fn murmur(h: u64) -> u64 {
    xorshift(
        xorshift(
            xorshift(h, 33).wrapping_mul(0xff51afd7ed558ccd),
            33,
        ).wrapping_mul(0xc4ceb9fe1a85ec53),
        33,
    )
}

/// The hash of a key under a seed, from the hash of the key alone.
pub open spec fn mix(key: u64, seed: u64) -> u64 {
    murmur(key.wrapping_add(seed))
}

/// The number that SplitMix64 draws in the state `state`.
pub open spec fn splitmix_output(state: u64) -> u64 {
    xorshift(
        xorshift(
            xorshift(state, 30).wrapping_mul(0xBF58476D1CE4E5B9),
            27,
        ).wrapping_mul(0x94D049BB133111EB),
        31,
    )
}

/// The state of SplitMix64 that follows `state`.
pub open spec fn splitmix_next(state: u64) -> u64 {
    state.wrapping_add(0x9E3779B97F4A7C15)
}

/// The state of the seed generator after `draws` draws; it starts at 1.
pub open spec fn splitmix_state(draws: nat) -> u64
    decreases draws,
{
    if draws == 0 {
        1
    } else {
        splitmix_next(splitmix_state((draws - 1) as nat))
    }
}

/// The seed of attempt number `attempt`, counted from 0.
pub open spec fn seed_of(attempt: nat) -> u64 {
    splitmix_output(splitmix_state(attempt + 1))
}

/// The check word of a hash.
pub open spec fn check_word(hash: u64) -> u64 {
    hash ^ (hash >> 32)
}

/// The hash of the text `key`, before any seed is mixed in.
pub open spec fn key_digest(key: Seq<char>) -> u64 {
    xxh64_digest(vstd::utf8::encode_utf8(key), 0)
}

/// The hash of the text `key` under `seed`.
pub open spec fn key_hash(key: Seq<char>, seed: u64) -> u64 {
    mix(key_digest(key), seed)
}

/// The 64-bit finalizer of MurmurHash3.
pub fn murmur64(h: u64) -> (r: u64)
    ensures
        r == murmur(h),
{
    let mut h: u64 = h;
    h = h ^ (h >> 33);
    h = h.wrapping_mul(0xff51afd7ed558ccd);
    h = h ^ (h >> 33);
    h = h.wrapping_mul(0xc4ceb9fe1a85ec53);
    h = h ^ (h >> 33);
    h
}

/// Mixes the hash of a key with a seed.
pub fn mixsplit(key: u64, seed: u64) -> (r: u64)
    ensures
        r == mix(key, seed),
        r == murmur(((key + seed) % 0x1_0000_0000_0000_0000) as u64),
{
    murmur64(key.wrapping_add(seed))
}

/// Advances the seed generator and returns the number it draws.
pub fn splitmix64(seed: &mut u64) -> (r: u64)
    ensures
        *final(seed) == splitmix_next(*old(seed)),
        *final(seed) == (*old(seed) + 0x9E3779B97F4A7C15) % 0x1_0000_0000_0000_0000,
        r == splitmix_output(*final(seed)),
{
    *seed = seed.wrapping_add(0x9E3779B97F4A7C15);
    let mut z: u64 = *seed;
    z = (z ^ (z >> 30)).wrapping_mul(0xBF58476D1CE4E5B9);
    z = (z ^ (z >> 27)).wrapping_mul(0x94D049BB133111EB);
    z ^ (z >> 31)
}

/// The check word of a hash, by which a lookup tells a stored key from a missing one.
pub fn fingerprint(hash: u64) -> (r: u64)
    ensures
        r == check_word(hash),
        r >> 32 == hash >> 32,
        r as u32 == (hash as u32) ^ ((hash >> 32) as u32),
{
    proof {
        crate::hash_laws::lemma_check_word_halves(hash);
    }
    hash ^ (hash >> 32)
}

/// Multiplication by `m` modulo 2^64 is injective where `m` has the inverse `inverse`.
pub proof fn lemma_wrapping_mul_injective(a: u64, b: u64, m: u64, inverse: u64, quotient: int)
    requires
        m as int * inverse as int == 1 + quotient * 0x1_0000_0000_0000_0000,
        a.wrapping_mul(m) == b.wrapping_mul(m),
    ensures
        a == b,
{
    let modulus: int = 0x1_0000_0000_0000_0000;
    let (x, y) = (a as int, b as int);
    let (m, inverse) = (m as int, inverse as int);
    assert((x * m) % modulus == (y * m) % modulus);
    lemma_mul_mod_noop_left(x * m, inverse, modulus);
    lemma_mul_mod_noop_left(y * m, inverse, modulus);
    assert((x * m * inverse) % modulus == (y * m * inverse) % modulus);
    assert forall|z: int| 0 <= z < modulus implies #[trigger] (z * m * inverse) % modulus == z by {
        assert(z * m * inverse == z + (z * quotient) * modulus) by (nonlinear_arith)
            requires
                m * inverse == 1 + quotient * modulus,
        ;
        lemma_mod_multiples_vanish(z * quotient, z, modulus);
        lemma_mul_is_commutative(z * quotient, modulus);
        lemma_small_mod(z as nat, modulus as nat);
    }
    assert((x * m * inverse) % modulus == x);
    assert((y * m * inverse) % modulus == y);
}

proof fn lemma_xorshift33_injective(a: u64, b: u64)
    by (bit_vector)
    requires
        a ^ (a >> 33u64) == b ^ (b >> 33u64),
    ensures
        a == b,
{
}

/// Two keys with different hashes keep different hashes under every seed.
pub proof fn lemma_mix_injective(a: u64, b: u64, seed: u64)
    requires
        mix(a, seed) == mix(b, seed),
    ensures
        a == b,
{
    let a0 = a.wrapping_add(seed);
    let b0 = b.wrapping_add(seed);
    let (a1, b1) = (xorshift(a0, 33), xorshift(b0, 33));
    let a2 = a1.wrapping_mul(0xff51afd7ed558ccd);
    let b2 = b1.wrapping_mul(0xff51afd7ed558ccd);
    let (a3, b3) = (xorshift(a2, 33), xorshift(b2, 33));
    let a4 = a3.wrapping_mul(0xc4ceb9fe1a85ec53);
    let b4 = b3.wrapping_mul(0xc4ceb9fe1a85ec53);
    lemma_xorshift33_injective(a4, b4);
    lemma_wrapping_mul_injective(a3, b3, 0xc4ceb9fe1a85ec53, 0x9cb4b2f8129337db, 0x7878e44812b2d581int);
    lemma_xorshift33_injective(a2, b2);
    lemma_wrapping_mul_injective(a1, b1, 0xff51afd7ed558ccd, 0x4f74430c22a54005, 0x4f3e2925cb7c5b4eint);
    lemma_xorshift33_injective(a0, b0);
}

} // verus!

//! What holds of the hashes of keys, of the seeds and of check words.

use vstd::prelude::*;
#[allow(unused_imports)]
use vstd::arithmetic::div_mod::*;
#[allow(unused_imports)]
use vstd::arithmetic::mul::*;

use crate::key::Key;
#[allow(unused_imports)]
use crate::{hash, key, placement};

verus! {

proof fn lemma_shifts_undone(x: u64)
    by (bit_vector)
    ensures
        (x ^ (x >> 33u64)) ^ ((x ^ (x >> 33u64)) >> 33u64) == x,
        (x ^ (x >> 32u64)) ^ ((x ^ (x >> 32u64)) >> 32u64) == x,
        (x ^ (x >> 30u64)) ^ ((x ^ (x >> 30u64)) >> 30u64) ^ ((x ^ (x >> 30u64)) >> 60u64) == x,
        (x ^ (x >> 27u64)) ^ ((x ^ (x >> 27u64)) >> 27u64) ^ ((x ^ (x >> 27u64)) >> 54u64) == x,
        (x ^ (x >> 31u64)) ^ ((x ^ (x >> 31u64)) >> 31u64) ^ ((x ^ (x >> 31u64)) >> 62u64) == x,
        (x ^ (x >> 32u64)) >> 32u64 == x >> 32u64,
        (x ^ (x >> 32u64)) as u32 == (x as u32) ^ ((x >> 32u64) as u32),
{
}

/// Multiplication by `m` modulo 2^64 is undone by that by its inverse.
proof fn lemma_product_undone(x: u64, m: u64, inverse: u64, quotient: int)
    requires
        m as int * inverse as int == 1 + quotient * 0x1_0000_0000_0000_0000,
    ensures
        x.wrapping_mul(m).wrapping_mul(inverse) == x,
{
    let modulus: int = 0x1_0000_0000_0000_0000;
    let (z, a, b) = (x as int, m as int, inverse as int);
    lemma_mul_mod_noop_left(z * a, b, modulus);
    assert(z * a * b == z + (z * quotient) * modulus) by (nonlinear_arith)
        requires
            a * b == 1 + quotient * modulus,
    ;
    lemma_mod_multiples_vanish(z * quotient, z, modulus);
    lemma_mul_is_commutative(z * quotient, modulus);
    lemma_small_mod(z as nat, modulus as nat);
}

/// The number is found again in its finalized form: what was folded is unfolded, and the products
/// are divided by their factors, modulo 2^64.
pub proof fn lemma_murmur_is_undone(h: u64)
    ensures
        ({
            let r = hash::murmur(h);
            let second = (r ^ (r >> 33)).wrapping_mul(0x9cb4b2f8129337db);
            let first = (second ^ (second >> 33)).wrapping_mul(0x4f74430c22a54005);
            first ^ (first >> 33) == h
        }),
{
    let a = h ^ (h >> 33);
    let b = a.wrapping_mul(0xff51afd7ed558ccd);
    let c = b ^ (b >> 33);
    let d = c.wrapping_mul(0xc4ceb9fe1a85ec53);
    lemma_shifts_undone(d);
    lemma_product_undone(c, 0xc4ceb9fe1a85ec53, 0x9cb4b2f8129337db, 0x7878e44812b2d581int);
    lemma_shifts_undone(b);
    lemma_product_undone(a, 0xff51afd7ed558ccd, 0x4f74430c22a54005, 0x4f3e2925cb7c5b4eint);
    lemma_shifts_undone(h);
}

/// The hash of a key under a seed is the finalized sum of the two, modulo 2^64. So it depends on
/// that sum alone, and different sums have different hashes.
pub proof fn lemma_mix_of_sum(digest: u64, seed: u64, other: u64, other_seed: u64)
    ensures
        hash::mix(digest, 0) == hash::murmur(digest),
        hash::mix(digest, seed) == hash::murmur(
            ((digest + seed) % 0x1_0000_0000_0000_0000) as u64,
        ),
        hash::mix(digest, seed) == hash::mix(other, other_seed) <==> (digest + seed)
            % 0x1_0000_0000_0000_0000 == (other + other_seed) % 0x1_0000_0000_0000_0000,
{
    let (a, b) = (digest.wrapping_add(seed), other.wrapping_add(other_seed));
    assert(a == (digest + seed) % 0x1_0000_0000_0000_0000);
    assert(b == (other + other_seed) % 0x1_0000_0000_0000_0000);
    lemma_murmur_is_undone(a);
    lemma_murmur_is_undone(b);
}

/// The hash of a text is the XXH64 digest, under the seed 0, of all of its bytes in UTF-8.
pub proof fn lemma_digest_of_all_bytes(text: Seq<char>)
    ensures
        hash::key_digest(text) == hash::xxh64_digest(vstd::utf8::encode_utf8(text), 0),
{
}

/// The hash of a text under a seed is that of its digest.
pub proof fn lemma_hash_of_text(text: Seq<char>, seed: u64)
    ensures
        hash::key_hash(text, seed) == hash::mix(
            hash::xxh64_digest(vstd::utf8::encode_utf8(text), 0),
            seed,
        ),
{
}

/// Texts are hashed one by one, and so are their digests under a seed.
pub proof fn lemma_hashes_of_texts(texts: Seq<Seq<char>>, seed: u64)
    ensures
        key::digests_of(texts).len() == texts.len(),
        placement::mixed(key::digests_of(texts), seed).len() == texts.len(),
        forall|i: int|
            0 <= i < texts.len() ==> {
                &&& #[trigger] key::digests_of(texts)[i] == hash::xxh64_digest(
                    vstd::utf8::encode_utf8(texts[i]),
                    0,
                )
                &&& placement::mixed(key::digests_of(texts), seed)[i] == hash::mix(
                    key::digests_of(texts)[i],
                    seed,
                )
            },
{
}

/// Digests are mixed with a seed one by one.
pub proof fn lemma_mixed_one_by_one(digests: Seq<u64>, seed: u64)
    ensures
        placement::mixed(digests, seed).len() == digests.len(),
        forall|i: int|
            0 <= i < digests.len() ==> #[trigger] placement::mixed(digests, seed)[i] == hash::mix(
                digests[i],
                seed,
            ),
{
}

/// The text of a key is what it reads as, whatever type it has.
pub proof fn lemma_text_of_key(slice: &str, string: String, key: &&str)
    ensures
        slice.text() == slice@,
        string.text() == string@,
        key.text() == (*key)@,
        (&string).text() == string@,
{
}

/// The texts of keys are those of each.
pub proof fn lemma_texts_of_keys<K: Key>(keys: Seq<K>)
    ensures
        key::texts_of(keys).len() == keys.len(),
        forall|i: int| 0 <= i < keys.len() ==> #[trigger] key::texts_of(keys)[i] == keys[i].text(),
{
}

/// The state is found again in the number that is drawn in it.
pub proof fn lemma_draw_is_undone(state: u64)
    ensures
        ({
            let r = hash::splitmix_output(state);
            let second = (r ^ (r >> 31) ^ (r >> 62)).wrapping_mul(0x319642b2d24d8ec3);
            let first = (second ^ (second >> 27) ^ (second >> 54)).wrapping_mul(
                0x96de1b173f119089,
            );
            first ^ (first >> 30) ^ (first >> 60) == state
        }),
{
    let a = state ^ (state >> 30);
    let b = a.wrapping_mul(0xBF58476D1CE4E5B9);
    let c = b ^ (b >> 27);
    let d = c.wrapping_mul(0x94D049BB133111EB);
    lemma_shifts_undone(d);
    lemma_product_undone(c, 0x94D049BB133111EB, 0x319642b2d24d8ec3, 0x1cd336eda85f1453int);
    lemma_shifts_undone(b);
    lemma_product_undone(a, 0xBF58476D1CE4E5B9, 0x96de1b173f119089, 0x70c3bca78f27f46cint);
    lemma_shifts_undone(state);
}

/// The states follow each other in equal steps, modulo 2^64, from 1 on.
pub proof fn lemma_states_in_steps(state: u64, draws: nat)
    ensures
        hash::splitmix_next(state) == (state + 0x9E3779B97F4A7C15) % 0x1_0000_0000_0000_0000,
        hash::splitmix_state(draws) == (1 + draws * 0x9E3779B97F4A7C15) % 0x1_0000_0000_0000_0000,
    decreases draws,
{
    if draws > 0 {
        let before = (draws - 1) as nat;
        let x: int = 1 + before * 0x9E3779B97F4A7C15int;
        lemma_states_in_steps(state, before);
        lemma_add_mod_noop(x, 0x9E3779B97F4A7C15, 0x1_0000_0000_0000_0000);
        lemma_small_mod(0x9E3779B97F4A7C15, 0x1_0000_0000_0000_0000);
    }
}

/// The seed of an attempt is the number that is drawn one step on for every attempt up to it and
/// with it.
pub proof fn lemma_seed_of_attempt(attempt: nat)
    ensures
        hash::seed_of(attempt) == hash::splitmix_output(
            ((1 + (attempt + 1) * 0x9E3779B97F4A7C15) % 0x1_0000_0000_0000_0000) as u64,
        ),
{
    lemma_states_in_steps(0, attempt + 1);
}

/// A check word keeps the upper half of the hash, and its lower half is folded with it: it is
/// undone by what makes it, so that different hashes have different check words.
pub proof fn lemma_check_word_halves(hash: u64)
    ensures
        hash::check_word(hash) >> 32 == hash >> 32,
        hash::check_word(hash) as u32 == (hash as u32) ^ ((hash >> 32) as u32),
        hash::check_word(hash::check_word(hash)) == hash,
{
    lemma_shifts_undone(hash);
}

} // verus!

//! What holds of looking up a key.

use vstd::prelude::*;

use crate::const_map::ConstMap;
use crate::verified_const_map::VerifiedConstMap;
#[allow(unused_imports)]
use crate::const_map::MapModel;
#[allow(unused_imports)]
use crate::verified_const_map::VerifiedModel;
#[allow(unused_imports)]
use crate::{hash, verified_const_map};

verus! {

/// What a map holds is what its fields say.
pub proof fn lemma_fields_of_maps(m: ConstMap, v: VerifiedConstMap)
    ensures
        m@.seed == m.seed,
        m@.geometry == m.geometry,
        m@.data == m.data@,
        v@.seed == v.seed,
        v@.geometry == v.geometry,
        v@.data == v.data@,
        v@.checks == v.checks@,
        v@.unchecked() == (MapModel { seed: v.seed, geometry: v.geometry, data: v.data@ }),
{
}

/// A map yields for a key the exclusive or of the three data words in the cells of its hash, and
/// does so where these are there; any key may be looked up in a map without words.
pub proof fn lemma_map_yields_three_words(m: MapModel, key: Seq<char>)
    ensures
        ({
            let digest = hash::xxh64_digest(vstd::utf8::encode_utf8(key), 0);
            let h = hash::mix(digest, m.seed);
            let (a, b, c) = (
                m.geometry.first(h) as int,
                m.geometry.second(h) as int,
                m.geometry.third(h) as int,
            );
            &&& m.value(key) == m.data[a] ^ m.data[b] ^ m.data[c]
            &&& m.value_of_digest(digest) == m.value(key)
            &&& m.answers(key) <==> a < m.data.len() && b < m.data.len() && c < m.data.len()
            &&& m.answers_digest(digest) == m.answers(key)
            &&& m.admits(key) <==> m.data.len() == 0 || m.answers(key)
            &&& m.admits_digest(digest) == m.admits(key)
        }),
{
}

/// The same of a key of which only the digest is given.
pub proof fn lemma_map_yields_three_words_of_digest(m: MapModel, digest: u64)
    ensures
        ({
            let h = hash::mix(digest, m.seed);
            let (a, b, c) = (
                m.geometry.first(h) as int,
                m.geometry.second(h) as int,
                m.geometry.third(h) as int,
            );
            &&& m.value_of_digest(digest) == m.data[a] ^ m.data[b] ^ m.data[c]
            &&& m.answers_digest(digest) <==> a < m.data.len() && b < m.data.len() && c
                < m.data.len()
            &&& m.admits_digest(digest) <==> m.data.len() == 0 || m.answers_digest(digest)
        }),
{
}

/// The check words in the cells of the hash `h` yield its fingerprint: the hash with its upper
/// half folded into the lower.
pub open spec fn fingerprint_matches(m: VerifiedModel, h: u64) -> bool {
    let (a, b, c) = (
        m.geometry.first(h) as int,
        m.geometry.second(h) as int,
        m.geometry.third(h) as int,
    );
    m.checks[a] ^ m.checks[b] ^ m.checks[c] == h ^ (h >> 32)
}

/// A verified map tells a key by its fingerprint. Where the check words in its cells do not yield
/// it, or there are no words, nothing is found; where they do, it is what the data words yield.
/// So whatever is found, the fingerprint has matched.
pub proof fn lemma_nothing_is_found_without_fingerprint(m: VerifiedModel, digest: u64)
    ensures
        ({
            let h = hash::mix(digest, m.seed);
            let (a, b, c) = (
                m.geometry.first(h) as int,
                m.geometry.second(h) as int,
                m.geometry.third(h) as int,
            );
            let matched = m.checks[a] ^ m.checks[b] ^ m.checks[c] == h ^ (h >> 32);
            &&& m.value_of_digest(digest) != 0xffff_ffff_ffff_ffff ==> matched && m.data.len() > 0
            &&& !matched ==> m.value_of_digest(digest) == 0xffff_ffff_ffff_ffff
            &&& m.data.len() == 0 ==> m.value_of_digest(digest) == 0xffff_ffff_ffff_ffff
            &&& matched && m.data.len() > 0 ==> m.value_of_digest(digest) == m.data[a]
                ^ m.data[b] ^ m.data[c]
            &&& m.recognizes(h) == matched
            &&& matched == fingerprint_matches(m, h)
        }),
        verified_const_map::NOT_FOUND == 0xffff_ffff_ffff_ffff,
{
}

/// A lookup of a key in a verified map is that of its digest, the XXH64 digest of all of its bytes.
pub proof fn lemma_verified_lookup_by_digest(m: VerifiedModel, key: Seq<char>)
    ensures
        ({
            let digest = hash::xxh64_digest(vstd::utf8::encode_utf8(key), 0);
            &&& m.value(key) == m.value_of_digest(digest)
            &&& m.answers(key) == m.answers_digest(digest)
        }),
{
}

/// A lookup in a verified map reads check words in the cells of the hash, if there are words at
/// all, and data words only where the fingerprint matches: it can be made where these are there.
pub proof fn lemma_verified_lookup_stays_inside(m: VerifiedModel, digest: u64)
    ensures
        ({
            let h = hash::mix(digest, m.seed);
            let (a, b, c) = (m.geometry.first(h), m.geometry.second(h), m.geometry.third(h));
            let (n, k) = (m.data.len(), m.checks.len());
            &&& n == 0 ==> m.answers_digest(digest)
            &&& n > 0 && (a >= k || b >= k || c >= k) ==> !m.answers_digest(digest)
            &&& a < n && b < n && c < n && a < k && b < k && c < k ==> m.answers_digest(digest)
            &&& n > 0 && a < k && b < k && c < k && (a >= n || b >= n || c >= n)
                ==> m.answers_digest(digest) == !fingerprint_matches(m, h)
        }),
{
}

/// A map is valid where its geometry divides its words, and a verified map where there are as
/// many check words besides.
pub proof fn lemma_valid_maps(m: MapModel, v: VerifiedModel)
    ensures
        m.valid() == m.geometry.divides(m.data.len() as int),
        v.valid() == (v.geometry.divides(v.data.len() as int) && v.checks.len() == v.data.len()),
        v.unchecked().data == v.data,
        v.unchecked().seed == v.seed,
        v.unchecked().geometry == v.geometry,
{
}

/// A key is held by a verified map where its fingerprint matches and its value is found.
pub proof fn lemma_held_keys(v: VerifiedModel, digest: u64, value: u64)
    ensures
        v.holds(digest, value) ==> {
            &&& fingerprint_matches(v, hash::mix(digest, v.seed))
            &&& v.value_of_digest(digest) == value
            &&& v.unchecked().value_of_digest(digest) == value
        },
{
}

} // verus!

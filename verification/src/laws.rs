//! What holds of maps, whatever they were built of, and of maps that are written and read.

use vstd::prelude::*;

#[allow(unused_imports)]
use crate::const_map::MapModel;
#[allow(unused_imports)]
use crate::geometry::Geometry;
#[allow(unused_imports)]
use crate::layout::{FormatError, Kind};
#[allow(unused_imports)]
use crate::sizing::MAX_KEYS;
#[allow(unused_imports)]
use crate::verified_const_map::VerifiedModel;
#[allow(unused_imports)]
use crate::{
    assignment, const_map, construction, hash, key, layout, little_endian, permutation, placement,
    sizing, verified_const_map,
};

verus! {

/// A map depends on the pairs of keys and values, not on the order in which they come.
///
/// Left out are keys of which some attempt, up to the one that settles, misleads in the other
/// order: there a cell has 64 hashes or more, and the byte that counts them takes some of them for
/// two equal ones.
pub proof fn lemma_order_does_not_matter(digests: Seq<u64>, values: Seq<u64>, p: Seq<int>)
    requires
        digests.len() <= MAX_KEYS,
        MapModel::of(digests, values) is Ok,
        permutation::is_permutation(p, digests.len()),
        forall|k: nat|
            k <= construction::decided(digests) ==> !(#[trigger] construction::misleads(
                permutation::permuted(digests, p),
                k,
            )),
    ensures
        MapModel::of(permutation::permuted(digests, p), permutation::permuted(values, p))
            == MapModel::of(digests, values),
        VerifiedModel::of(permutation::permuted(digests, p), permutation::permuted(values, p))
            == VerifiedModel::of(digests, values),
{
    let (other, moved) = (permutation::permuted(digests, p), permutation::permuted(values, p));
    if digests.len() > 0 {
        let last = construction::decided(digests);
        let b = construction::blueprint(digests)->Ok_0;
        construction::lemma_blueprint(digests);
        permutation::lemma_permuted(digests, p);
        assert forall|k: nat| k <= last implies !(#[trigger] construction::misleads(
            digests,
            k,
        )) by {
            construction::lemma_settled(digests, k);
        }
        construction::lemma_blueprint_order_free(digests, other, last);
        construction::lemma_stack_values_order_free(b.stack, digests, values, p, b.seed);
    }
}

/// The map of keys and values does not depend on the order in which they come; left out is what
/// is left out of the law on their digests.
pub proof fn lemma_order_of_keys_does_not_matter(
    texts: Seq<Seq<char>>,
    values: Seq<u64>,
    p: Seq<int>,
)
    requires
        texts.len() <= MAX_KEYS,
        MapModel::of(key::digests_of(texts), values) is Ok,
        permutation::is_permutation(p, texts.len()),
        forall|k: nat|
            k <= construction::decided(key::digests_of(texts)) ==> !(
            #[trigger] construction::misleads(
                key::digests_of(permutation::permuted(texts, p)),
                k,
            )),
    ensures
        MapModel::of(
            key::digests_of(permutation::permuted(texts, p)),
            permutation::permuted(values, p),
        ) == MapModel::of(key::digests_of(texts), values),
        VerifiedModel::of(
            key::digests_of(permutation::permuted(texts, p)),
            permutation::permuted(values, p),
        ) == VerifiedModel::of(key::digests_of(texts), values),
{
    assert(key::digests_of(permutation::permuted(texts, p)) =~= permutation::permuted(
        key::digests_of(texts),
        p,
    ));
    lemma_order_does_not_matter(key::digests_of(texts), values, p);
}

/// Maps of the same keys differ in their data words alone, and where the values of one are the
/// exclusive or of those of the two others, so are its data words.
pub proof fn lemma_values_combine(digests: Seq<u64>, v: Seq<u64>, w: Seq<u64>, x: Seq<u64>)
    requires
        digests.len() <= MAX_KEYS,
        MapModel::of(digests, v) is Ok,
        MapModel::of(digests, w) is Ok,
        x.len() == digests.len(),
        forall|i: int| 0 <= i < x.len() ==> x[i] == v[i] ^ w[i],
    ensures
        MapModel::of(digests, x) matches Ok(c) && {
            let (a, b) = (MapModel::of(digests, v)->Ok_0, MapModel::of(digests, w)->Ok_0);
            &&& c.seed == a.seed == b.seed
            &&& c.geometry == a.geometry && a.geometry == b.geometry
            &&& c.data.len() == a.data.len() == b.data.len()
            &&& forall|j: int| 0 <= j < c.data.len() ==> c.data[j] == a.data[j] ^ b.data[j]
        },
{
    if digests.len() > 0 {
        construction::lemma_blueprint(digests);
        let b = construction::blueprint(digests)->Ok_0;
        let hashes = placement::mixed(digests, b.seed);
        construction::lemma_stack_values_combine(b.stack, hashes, v, w, x);
        assignment::lemma_assigned_combines(
            b.geometry,
            b.stack,
            construction::stack_values(b.stack, hashes, v),
            construction::stack_values(b.stack, hashes, w),
            construction::stack_values(b.stack, hashes, x),
            sizing::cell_count(digests.len() as u32) as nat,
        );
    }
}

/// Verified maps of the same keys differ in their data words alone, and where the values of one
/// are the exclusive or of those of the two others, so are its data words.
pub proof fn lemma_verified_values_combine(
    digests: Seq<u64>,
    v: Seq<u64>,
    w: Seq<u64>,
    x: Seq<u64>,
)
    requires
        digests.len() <= MAX_KEYS,
        VerifiedModel::of(digests, v) is Ok,
        VerifiedModel::of(digests, w) is Ok,
        x.len() == digests.len(),
        forall|i: int| 0 <= i < x.len() ==> x[i] == v[i] ^ w[i],
    ensures
        VerifiedModel::of(digests, x) matches Ok(c) && {
            let (a, b) = (
                VerifiedModel::of(digests, v)->Ok_0,
                VerifiedModel::of(digests, w)->Ok_0,
            );
            &&& c.seed == a.seed == b.seed
            &&& c.geometry == a.geometry && a.geometry == b.geometry
            &&& c.checks == a.checks && a.checks == b.checks
            &&& c.data.len() == a.data.len() == b.data.len()
            &&& forall|j: int| 0 <= j < c.data.len() ==> c.data[j] == a.data[j] ^ b.data[j]
        },
{
    lemma_values_combine(digests, v, w, x);
}

/// A cell that is none of the three of any key holds zero, in the data words and in the check
/// words.
pub proof fn lemma_untouched_cells_are_zero(digests: Seq<u64>, values: Seq<u64>, cell: int)
    requires
        digests.len() <= MAX_KEYS,
        VerifiedModel::of(digests, values) is Ok,
        ({
            let m = VerifiedModel::of(digests, values)->Ok_0;
            &&& 0 <= cell < m.data.len()
            &&& forall|i: int|
                0 <= i < digests.len() ==> !m.geometry.touches(
                    hash::mix(#[trigger] digests[i], m.seed),
                    cell,
                )
        }),
    ensures
        MapModel::of(digests, values)->Ok_0.data[cell] == 0,
        VerifiedModel::of(digests, values)->Ok_0.data[cell] == 0,
        VerifiedModel::of(digests, values)->Ok_0.checks[cell] == 0,
{
    if digests.len() > 0 {
        construction::lemma_blueprint(digests);
        const_map::lemma_built_map(digests, values);
        let b = construction::blueprint(digests)->Ok_0;
        let hashes = placement::mixed(digests, b.seed);
        let cells = sizing::cell_count(digests.len() as u32) as nat;
        assert forall|k: int| 0 <= k < b.stack.len() implies !b.geometry.touches(
            (#[trigger] b.stack[k]).hash,
            cell,
        ) by {
            construction::lemma_of_key(b.stack, hashes, k);
            let i = choose|i: int|
                0 <= i < hashes.len() && #[trigger] hashes[i] == b.stack[k].hash;
            assert(hashes[i] == hash::mix(digests[i], b.seed));
        }
        assignment::lemma_untouched(
            b.geometry,
            b.stack,
            construction::stack_values(b.stack, hashes, values),
            cells,
            cell,
        );
        assignment::lemma_untouched(
            b.geometry,
            b.stack,
            construction::stack_checks(b.stack),
            cells,
            cell,
        );
    }
}

/// A map that was written is read back, whatever follows it. Of its geometry the segments are
/// kept, and the products are computed anew.
pub proof fn lemma_round_trip(m: MapModel, tail: Seq<u8>)
    requires
        m.data.len() <= u32::MAX,
    ensures
        MapModel::decoded(m.encoded() + tail) == Ok::<MapModel, FormatError>(
            MapModel {
                geometry: Geometry::of(m.geometry.segment_length, m.geometry.segment_count),
                ..m
            },
        ),
        Kind::Plain.consumed(m.encoded() + tail) == m.encoded().len(),
{
    layout::lemma_frame_round_trip(Kind::Plain, m.frame(), tail);
}

/// A verified map that was written is read back, whatever follows it. Of its geometry the
/// segments are kept, and the products are computed anew.
pub proof fn lemma_verified_round_trip(m: VerifiedModel, tail: Seq<u8>)
    requires
        m.data.len() <= u32::MAX,
        m.checks.len() == m.data.len(),
    ensures
        VerifiedModel::decoded(m.encoded() + tail) == Ok::<VerifiedModel, FormatError>(
            VerifiedModel {
                geometry: Geometry::of(m.geometry.segment_length, m.geometry.segment_count),
                ..m
            },
        ),
        Kind::Verified.consumed(m.encoded() + tail) == m.encoded().len(),
{
    layout::lemma_frame_round_trip(Kind::Verified, m.frame(), tail);
}

/// A map that was built, written and read back answers every key as before.
pub proof fn lemma_built_round_trip(digests: Seq<u64>, values: Seq<u64>, tail: Seq<u8>, key: Seq<char>)
    requires
        digests.len() <= MAX_KEYS,
        MapModel::of(digests, values) is Ok,
    ensures
        ({
            let m = MapModel::of(digests, values)->Ok_0;
            MapModel::decoded(m.encoded() + tail) matches Ok(read) && {
                &&& read.data == m.data
                &&& read.admits(key)
                &&& read.answers(key) == m.answers(key)
                &&& m.answers(key) ==> read.value(key) == m.value(key)
                &&& digests.len() > 0 ==> read == m
            }
        }),
{
    let m = MapModel::of(digests, values)->Ok_0;
    if digests.len() > 0 {
        const_map::lemma_built_map(digests, values);
    }
    const_map::lemma_built_admits(digests, values, key);
    lemma_round_trip(m, tail);
}

/// A verified map that was built, written and read back finds every key as before.
pub proof fn lemma_verified_built_round_trip(
    digests: Seq<u64>,
    values: Seq<u64>,
    tail: Seq<u8>,
    key: Seq<char>,
)
    requires
        digests.len() <= MAX_KEYS,
        VerifiedModel::of(digests, values) is Ok,
    ensures
        ({
            let m = VerifiedModel::of(digests, values)->Ok_0;
            VerifiedModel::decoded(m.encoded() + tail) matches Ok(read) && {
                &&& read.data == m.data
                &&& read.checks == m.checks
                &&& read.answers(key)
                &&& read.value(key) == m.value(key)
                &&& digests.len() > 0 ==> read == m
            }
        }),
{
    let m = VerifiedModel::of(digests, values)->Ok_0;
    if digests.len() > 0 {
        verified_const_map::lemma_built_map(digests, values);
        verified_const_map::lemma_valid_answers(m, key);
    }
    lemma_verified_round_trip(m, tail);
}

/// Bytes that are read as a map are those that are written of it: no others stand for the same
/// map.
pub proof fn lemma_read_then_write(s: Seq<u8>)
    requires
        MapModel::decoded(s) is Ok,
    ensures
        MapModel::decoded(s)->Ok_0.encoded() == s.take(Kind::Plain.consumed(s)),
{
    let f = Kind::Plain.decoded(s)->Ok_0;
    assert(s.subrange(28, 28) =~= Seq::empty()) by {
        reveal(Kind::decoded);
    }
    layout::lemma_reencoded(Kind::Plain, s);
    assert(MapModel::of_frame(f).frame() =~= f);
}

/// Bytes that are read as a verified map, with zeros for the padding, are those that are written
/// of it.
pub proof fn lemma_verified_read_then_write(s: Seq<u8>)
    requires
        VerifiedModel::decoded(s) is Ok,
        s.subrange(28, 32) == seq![0u8, 0, 0, 0],
    ensures
        VerifiedModel::decoded(s)->Ok_0.encoded() == s.take(Kind::Verified.consumed(s)),
{
    let f = Kind::Verified.decoded(s)->Ok_0;
    little_endian::lemma_le_zero(4);
    assert(Kind::Verified.padding() =~= seq![0u8, 0, 0, 0]);
    layout::lemma_reencoded(Kind::Verified, s);
    assert(VerifiedModel::of_frame(f).frame() =~= f);
}

/// The bytes of a map of one kind are reported as such by the reader of the other.
pub proof fn lemma_formats_are_distinct(m: MapModel, v: VerifiedModel, tail: Seq<u8>)
    requires
        v.checks.len() == v.data.len(),
    ensures
        VerifiedModel::decoded(m.encoded() + tail) == Err::<VerifiedModel, FormatError>(
            FormatError::Foreign(Kind::Plain),
        ),
        MapModel::decoded(v.encoded() + tail) == Err::<MapModel, FormatError>(
            FormatError::Foreign(Kind::Verified),
        ),
{
    layout::lemma_frame_foreign(Kind::Plain, m.frame(), tail);
    layout::lemma_frame_foreign(Kind::Verified, v.frame(), tail);
}

/// The bytes of a map that break off anywhere are reported as such.
pub proof fn lemma_truncation_is_detected(m: MapModel, len: int)
    requires
        m.data.len() <= u32::MAX,
        0 <= len < m.encoded().len(),
    ensures
        MapModel::decoded(m.encoded().take(len)) matches Err(FormatError::UnexpectedEof(_)),
{
    lemma_round_trip(m, Seq::empty());
    assert(m.encoded() + Seq::<u8>::empty() =~= m.encoded());
    layout::lemma_truncated(Kind::Plain, m.encoded(), len);
}

/// The bytes of a verified map that break off anywhere are reported as such.
pub proof fn lemma_verified_truncation_is_detected(m: VerifiedModel, len: int)
    requires
        m.data.len() <= u32::MAX,
        m.checks.len() == m.data.len(),
        0 <= len < m.encoded().len(),
    ensures
        VerifiedModel::decoded(m.encoded().take(len)) matches Err(FormatError::UnexpectedEof(_)),
{
    lemma_verified_round_trip(m, Seq::empty());
    assert(m.encoded() + Seq::<u8>::empty() =~= m.encoded());
    layout::lemma_truncated(Kind::Verified, m.encoded(), len);
}

/// A change of one byte of a map that was written is reported, unless it makes the number of
/// words smaller: then the checksum is looked for among the words, where anything may stand. Bytes
/// that break off are reported only of the number of words, and a wrong checksum of any byte but
/// that and the magic bytes.
pub proof fn lemma_corruption_is_detected(m: MapModel, at: int, byte: u8)
    requires
        m.data.len() <= u32::MAX,
        0 <= at < m.encoded().len(),
        byte != m.encoded()[at],
        24 <= at < 28 ==> byte > m.encoded()[at],
    ensures
        MapModel::decoded(m.encoded().update(at, byte)) matches Err(e) && layout::tells_change(
            at,
            e,
        ),
{
    lemma_round_trip(m, Seq::empty());
    assert(m.encoded() + Seq::<u8>::empty() =~= m.encoded());
    layout::lemma_one_byte_detected(Kind::Plain, m.encoded(), at, byte);
}

/// A change of one byte of a verified map that was written is reported, unless it makes the
/// number of words smaller: then the checksum is looked for among the words, where anything may
/// stand. Bytes that break off are reported only of the number of words, and a wrong checksum of
/// any byte but that and the magic bytes.
pub proof fn lemma_verified_corruption_is_detected(m: VerifiedModel, at: int, byte: u8)
    requires
        m.data.len() <= u32::MAX,
        m.checks.len() == m.data.len(),
        0 <= at < m.encoded().len(),
        byte != m.encoded()[at],
        24 <= at < 28 ==> byte > m.encoded()[at],
    ensures
        VerifiedModel::decoded(m.encoded().update(at, byte)) matches Err(e)
            && layout::tells_change(at, e),
{
    lemma_verified_round_trip(m, Seq::empty());
    assert(m.encoded() + Seq::<u8>::empty() =~= m.encoded());
    layout::lemma_one_byte_detected(Kind::Verified, m.encoded(), at, byte);
}

/// Both arrays of a verified map begin at a multiple of eight bytes, behind a padding of zeros.
pub proof fn lemma_arrays_are_aligned(m: VerifiedModel)
    requires
        m.checks.len() == m.data.len(),
    ensures
        ({
            let s = m.encoded();
            let n = m.data.len() as int;
            let data = Kind::Verified.header_size();
            let checks = data + 8 * n;
            &&& data % 8 == 0
            &&& checks % 8 == 0
            &&& s.len() == checks + 8 * n + 8
            &&& s.subrange(28, 32) == seq![0u8, 0, 0, 0]
            &&& s.subrange(data, checks) == little_endian::words_bytes(m.data)
            &&& s.subrange(checks, checks + 8 * n) == little_endian::words_bytes(m.checks)
        }),
{
    layout::lemma_encoded_parts(Kind::Verified, m.frame());
    little_endian::lemma_le_zero(4);
    assert(Kind::Verified.padding() =~= seq![0u8, 0, 0, 0]);
}

} // verus!

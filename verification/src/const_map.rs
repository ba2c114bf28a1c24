//! The map that answers every key, and keys it does not have with anything.

use vstd::prelude::*;

use crate::assignment::assign;
use crate::batch::{aim_block, Probe, BATCH_BLOCK};
use crate::construction::{look_up_values, plan, BuildError};
use crate::geometry::Geometry;
use crate::hash::mixsplit;
use crate::key::{digest, digest_all, Key};
use crate::sizing::MAX_KEYS;
use crate::text::summarize;
#[allow(unused_imports)]
use crate::{assignment, construction, geometry, hash, key, placement, sizing, text};

verus! {

/// An immutable map from strings to `u64` values.
///
/// Lookup of keys not in the original set returns an undefined value.
pub struct ConstMap {
    pub seed: u64,
    pub geometry: Geometry,
    pub data: Vec<u64>,
}

/// What a `ConstMap` holds.
#[verifier::ext_equal]
pub struct MapModel {
    pub seed: u64,
    pub geometry: Geometry,
    pub data: Seq<u64>,
}

impl View for ConstMap {
    type V = MapModel;

    open spec fn view(&self) -> MapModel {
        MapModel { seed: self.seed, geometry: self.geometry, data: self.data@ }
    }
}

impl MapModel {
    /// A map without keys.
    pub open spec fn empty() -> MapModel {
        MapModel {
            seed: 0,
            geometry: Geometry {
                segment_length: 0,
                segment_length_mask: 0,
                segment_count: 0,
                segment_count_length: 0,
            },
            data: Seq::empty(),
        }
    }

    /// The geometry divides the cells, so that every hash has three of them.
    pub open spec fn valid(self) -> bool {
        self.geometry.divides(self.data.len() as int)
    }

    /// The cells of the key with the digest `digest` are there.
    pub open spec fn answers_digest(self, digest: u64) -> bool {
        self.geometry.within(hash::mix(digest, self.seed), self.data.len() as int)
    }

    /// What the cells of the key with the digest `digest` yield.
    pub open spec fn value_of_digest(self, digest: u64) -> u64 {
        self.geometry.lookup(self.data, hash::mix(digest, self.seed))
    }

    /// The cells of the key `key` are there.
    pub open spec fn answers(self, key: Seq<char>) -> bool {
        self.answers_digest(hash::key_digest(key))
    }

    /// The key with the digest `digest` can be looked up: the map is empty, and anything may come
    /// of it, or the cells of the key are there.
    pub open spec fn admits_digest(self, digest: u64) -> bool {
        self.data.len() == 0 || self.answers_digest(digest)
    }

    /// The key `key` can be looked up.
    pub open spec fn admits(self, key: Seq<char>) -> bool {
        self.admits_digest(hash::key_digest(key))
    }

    /// What the cells of the key `key` yield.
    pub open spec fn value(self, key: Seq<char>) -> u64 {
        self.value_of_digest(hash::key_digest(key))
    }

    /// The map of keys with the digests `digests` to `values`.
    pub open spec fn of(digests: Seq<u64>, values: Seq<u64>) -> Result<MapModel, BuildError> {
        if digests.len() != values.len() {
            Err(BuildError::LengthMismatch)
        } else if digests.len() == 0 {
            Ok(MapModel::empty())
        } else {
            match construction::blueprint(digests) {
                Ok(b) => Ok(
                    MapModel {
                        seed: b.seed,
                        geometry: b.geometry,
                        data: assignment::assigned(
                            b.geometry,
                            b.stack,
                            construction::stack_values(
                                b.stack,
                                placement::mixed(digests, b.seed),
                                values,
                            ),
                            sizing::cell_count(digests.len() as u32) as nat,
                        ),
                    },
                ),
                Err(e) => Err(e),
            }
        }
    }
}

/// Every key finds a cell in a valid map.
pub proof fn lemma_valid_answers(m: MapModel, key: Seq<char>)
    requires
        m.valid(),
    ensures
        m.answers(key),
{
    geometry::lemma_cells_ordered(
        m.geometry,
        m.data.len() as int,
        hash::key_hash(key, m.seed),
    );
}

/// A map that is built of keys and values is valid, its keys have different digests, and the
/// value of every key is found in it.
pub proof fn lemma_built_map(digests: Seq<u64>, values: Seq<u64>)
    requires
        1 <= digests.len() <= MAX_KEYS,
        MapModel::of(digests, values) is Ok,
    ensures
        ({
            let m = MapModel::of(digests, values)->Ok_0;
            &&& m.valid()
            &&& m.geometry == Geometry::of(m.geometry.segment_length, m.geometry.segment_count)
            &&& m.data.len() == sizing::cell_count(digests.len() as u32)
            &&& forall|i: int|
                0 <= i < digests.len() ==> m.value_of_digest(#[trigger] digests[i]) == values[i]
        }),
        digests.no_duplicates(),
{
    construction::lemma_blueprint(digests);
    let m = MapModel::of(digests, values)->Ok_0;
    let b = construction::blueprint(digests)->Ok_0;
    let hashes = placement::mixed(digests, b.seed);
    let words = construction::stack_values(b.stack, hashes, values);
    assignment::lemma_assigned(
        b.geometry,
        b.stack,
        words,
        sizing::cell_count(digests.len() as u32) as nat,
    );
    construction::lemma_pairs(hashes, values);
    assert forall|i: int| 0 <= i < digests.len() implies m.value_of_digest(#[trigger] digests[i])
        == values[i] by {
        construction::lemma_on_stack(b.stack, hashes, i);
        let k = choose|k: int| 0 <= k < b.stack.len() && #[trigger] b.stack[k].hash == hashes[i];
        assert(b.geometry.lookup(m.data, b.stack[k].hash) == words[k]);
    }
}

/// Every key can be looked up in a map that is built of keys and values.
pub proof fn lemma_built_admits(digests: Seq<u64>, values: Seq<u64>, key: Seq<char>)
    requires
        digests.len() <= MAX_KEYS,
        MapModel::of(digests, values) is Ok,
    ensures
        MapModel::of(digests, values)->Ok_0.admits(key),
        digests.len() > 0 ==> MapModel::of(digests, values)->Ok_0.answers(key),
{
    if digests.len() > 0 {
        lemma_built_map(digests, values);
        lemma_valid_answers(MapModel::of(digests, values)->Ok_0, key);
    }
}

/// Keys that are not all different cannot be built into a map: what comes of them is an error.
pub proof fn lemma_equal_keys_are_refused(
    texts: Seq<Seq<char>>,
    values: Seq<u64>,
    i: int,
    j: int,
)
    requires
        texts.len() <= MAX_KEYS,
        0 <= i < j < texts.len(),
        texts[i] == texts[j],
    ensures
        MapModel::of(key::digests_of(texts), values) is Err,
{
    let digests = key::digests_of(texts);
    if MapModel::of(digests, values) is Ok {
        lemma_built_map(digests, values);
        assert(digests[i] == digests[j]);
    }
}

impl ConstMap {
    /// Builds a map of keys, of which `digests` are the hashes, to `values`.
    pub fn from_digests(digests: &Vec<u64>, values: &[u64]) -> (r: Result<ConstMap, BuildError>)
        requires
            digests.len() == values@.len() ==> digests.len() <= MAX_KEYS,
        ensures
            match r {
                Ok(m) => MapModel::of(digests@, values@) == Ok::<MapModel, BuildError>(m@),
                Err(e) => MapModel::of(digests@, values@) == Err::<MapModel, BuildError>(e),
            },
    {
        if digests.len() != values.len() {
            return Err(BuildError::LengthMismatch);
        }
        if digests.len() == 0 {
            let empty: ConstMap = ConstMap {
                seed: 0,
                geometry: Geometry {
                    segment_length: 0,
                    segment_length_mask: 0,
                    segment_count: 0,
                    segment_count_length: 0,
                },
                data: Vec::new(),
            };
            assert(empty@ =~= MapModel::empty());
            return Ok(empty);
        }
        match plan(digests) {
            Ok((seed, geometry, stack)) => {
                proof {
                    construction::lemma_blueprint(digests@);
                }
                let words: Vec<u64> = look_up_values(&stack, digests, values, seed);
                let cells: usize = geometry.cells();
                let data: Vec<u64> = assign(&geometry, &stack, &words, cells);
                Ok(ConstMap { seed, geometry, data })
            },
            Err(e) => Err(e),
        }
    }

    /// Builds a `ConstMap` from a set of string keys and their associated `u64` values.
    ///
    /// The two slices must have equal length. Keys must be unique.
    pub fn new(keys: &[&str], values: &[u64]) -> (r: Result<ConstMap, String>)
        requires
            keys@.len() == values@.len() ==> keys@.len() <= MAX_KEYS,
        ensures
            match (r, MapModel::of(key::digests_of(key::texts_of(keys@)), values@)) {
                (Ok(m), Ok(model)) => m@ == model,
                (Err(e), Err(error)) => e@ == error.text(),
                _ => false,
            },
            r matches Ok(m) ==> keys@.len() > 0 ==> forall|i: int|
                0 <= i < keys@.len() ==> m@.value_of_digest(
                    hash::xxh64_digest(vstd::utf8::encode_utf8((#[trigger] keys@[i])@), 0),
                ) == values@[i],
            r matches Ok(m) ==> forall|key: Seq<char>| #[trigger] m@.admits(key),
            r matches Ok(m) ==> keys@.len() > 0 ==> {
                &&& m@.valid()
                &&& forall|key: Seq<char>| #[trigger] m@.answers(key)
                &&& forall|i: int|
                    0 <= i < keys@.len() ==> m@.value((#[trigger] keys@[i])@) == values@[i]
            },
    {
        let digests: Vec<u64> = digest_all(keys);
        match ConstMap::from_digests(&digests, values) {
            Ok(m) => {
                proof {
                    assert forall|key: Seq<char>| #[trigger] m@.admits(key) by {
                        lemma_built_admits(digests@, values@, key);
                    }
                    if keys@.len() > 0 {
                        assert forall|key: Seq<char>| #[trigger] m@.answers(key) by {
                            lemma_built_admits(digests@, values@, key);
                        }
                        lemma_built_map(digests@, values@);
                        assert forall|i: int| 0 <= i < keys@.len() implies m@.value(
                            (#[trigger] keys@[i])@,
                        ) == values@[i] by {
                            assert(digests@[i] == hash::key_digest(keys@[i]@));
                        }
                    }
                }
                Ok(m)
            },
            Err(e) => Err(e.message()),
        }
    }

    /// Returns what the cells of the key with the digest `digest` yield; on a map without keys
    /// the return value is undefined.
    pub fn map_digest(&self, digest: u64) -> (r: u64)
        requires
            self@.admits_digest(digest),
        ensures
            self@.answers_digest(digest) ==> r == self@.value_of_digest(digest),
            self@.answers_digest(digest) ==> ({
                let h = hash::mix(digest, self@.seed);
                let (a, b, c) = (
                    self@.geometry.first(h) as int,
                    self@.geometry.second(h) as int,
                    self@.geometry.third(h) as int,
                );
                r == self@.data[a] ^ self@.data[b] ^ self@.data[c]
            }),
    {
        if self.data.is_empty() {
            return 0;
        }
        let hash: u64 = mixsplit(digest, self.seed);
        let (h0, h1, h2) = self.geometry.get_hash_from_hash(hash);
        self.data[h0 as usize] ^ self.data[h1 as usize] ^ self.data[h2 as usize]
    }

    /// Returns the `u64` value associated with the given key.
    ///
    /// The key must have been present in the original set passed to `ConstMap::new`. If the key
    /// was not in the original set, the return value is undefined.
    pub fn map(&self, key: &str) -> (r: u64)
        requires
            self@.admits(key@),
        ensures
            self@.answers(key@) ==> r == self@.value(key@),
            self@.answers(key@) ==> r == self@.value_of_digest(
                hash::xxh64_digest(vstd::utf8::encode_utf8(key@), 0),
            ),
    {
        self.map_digest(digest(key))
    }

    /// Whether the key `key` can be looked up.
    fn has_cells(&self, key: &str) -> (r: bool)
        ensures
            r == self@.admits(key@),
    {
        if self.data.is_empty() {
            return true;
        }
        let hash: u64 = mixsplit(digest(key), self.seed);
        let (h0, h1, h2) = self.geometry.get_hash_from_hash(hash);
        let len: usize = self.data.len();
        (h0 as usize) < len && (h1 as usize) < len && (h2 as usize) < len
    }

    /// Returns what `map` returns for `key`, unless a cell of the key lies outside the array, as
    /// it can in a map that was read from damaged or foreign bytes.
    pub fn try_map(&self, key: &str) -> (r: Option<u64>)
        ensures
            r is Some == self@.admits(key@),
            self@.answers(key@) ==> r == Some(self@.value(key@)),
    {
        if self.has_cells(key) {
            Some(self.map(key))
        } else {
            None
        }
    }

    /// Looks up every key in `keys` and returns the values in a newly allocated `Vec` of the
    /// same length, where `result[i]` corresponds to `keys[i]`.
    ///
    /// This is equivalent to calling `map` on each key in turn, and carries the same caveat: a
    /// key that was not in the original set yields an undefined value.
    pub fn map_many<K: Key>(&self, keys: &[K]) -> (values: Vec<u64>)
        requires
            forall|i: int| 0 <= i < keys@.len() ==> self@.admits((#[trigger] keys@[i]).text()),
        ensures
            values.len() == keys@.len(),
            forall|i: int|
                0 <= i < keys@.len() && self@.answers(keys@[i].text()) ==> #[trigger] values@[i]
                    == self@.value(keys@[i].text()),
    {
        let mut dst: Vec<u64> = vec![0u64; keys.len()];
        self.map_many_into(dst.as_mut_slice(), keys);
        dst
    }

    /// `map_many` writing into a caller-provided slice, so that a repeated batch need not
    /// allocate. It fills `dst[..keys.len()]` and leaves the rest of `dst` alone.
    pub fn map_many_into<K: Key>(&self, dst: &mut [u64], keys: &[K])
        requires
            old(dst)@.len() >= keys@.len(),
            forall|i: int| 0 <= i < keys@.len() ==> self@.admits((#[trigger] keys@[i]).text()),
        ensures
            final(dst)@.len() == old(dst)@.len(),
            forall|i: int|
                0 <= i < keys@.len() && self@.answers(keys@[i].text())
                    ==> #[trigger] final(dst)@[i] == self@.value(keys@[i].text()),
            forall|i: int|
                keys@.len() <= i < old(dst)@.len() ==> #[trigger] final(dst)@[i] == old(dst)@[i],
    {
        let ghost start = dst@;
        let blocks: usize = if self.data.is_empty() {
            0
        } else {
            keys.len() / BATCH_BLOCK * BATCH_BLOCK
        };
        let mut i: usize = 0;
        while i < blocks
            invariant
                blocks <= keys@.len() <= start.len(),
                blocks > 0 ==> self.data@.len() > 0,
                blocks % BATCH_BLOCK == 0,
                i % BATCH_BLOCK == 0,
                i <= blocks,
                dst@.len() == start.len(),
                forall|k: int|
                    0 <= k < keys@.len() ==> self@.admits((#[trigger] keys@[k]).text()),
                forall|k: int|
                    0 <= k < i && self@.answers(keys@[k].text()) ==> #[trigger] dst@[k]
                        == self@.value(keys@[k].text()),
                forall|k: int| i <= k < start.len() ==> #[trigger] dst@[k] == start[k],
            decreases blocks - i,
        {
            let block: [Probe; BATCH_BLOCK] = aim_block(&self.geometry, self.seed, keys, i);
            let mut j: usize = 0;
            while j < BATCH_BLOCK
                invariant
                    j <= BATCH_BLOCK,
                    i + BATCH_BLOCK <= keys.len() <= start.len(),
                    self.data@.len() > 0,
                    dst@.len() == start.len(),
                    forall|k: int|
                        0 <= k < BATCH_BLOCK ==> (#[trigger] block@[k]).aims(
                            self.geometry,
                            hash::key_hash(keys@[i + k].text(), self.seed),
                        ),
                    forall|k: int|
                        0 <= k < keys@.len() ==> self@.admits((#[trigger] keys@[k]).text()),
                    forall|k: int|
                        0 <= k < i + j && self@.answers(keys@[k].text()) ==> #[trigger] dst@[k]
                            == self@.value(keys@[k].text()),
                    forall|k: int| i + j <= k < start.len() ==> #[trigger] dst@[k] == start[k],
                decreases BATCH_BLOCK - j,
            {
                assert(self@.admits(keys@[i + j].text()));
                let probe: Probe = block[j];
                assert(block@[j as int] == probe);
                dst[i + j] = self.data[probe.h0 as usize] ^ self.data[probe.h1 as usize]
                    ^ self.data[probe.h2 as usize];
                j = j + 1;
            }
            i = i + BATCH_BLOCK;
        }
        // Tail: fewer than BATCH_BLOCK keys left.
        while i < keys.len()
            invariant
                i <= keys@.len() <= start.len(),
                dst@.len() == start.len(),
                forall|k: int|
                    0 <= k < keys@.len() ==> self@.admits((#[trigger] keys@[k]).text()),
                forall|k: int|
                    0 <= k < i && self@.answers(keys@[k].text()) ==> #[trigger] dst@[k]
                        == self@.value(keys@[k].text()),
                forall|k: int| i <= k < start.len() ==> #[trigger] dst@[k] == start[k],
            decreases keys.len() - i,
        {
            assert(self@.admits(keys@[i as int].text()));
            dst[i] = self.map(keys[i].as_key());
            i = i + 1;
        }
    }

    /// Does what `map_many_into` does, unless `dst` is shorter than `keys` or a cell of one of
    /// them lies outside the array: then `dst` is left alone. Says which it was.
    pub fn try_map_many_into<K: Key>(&self, dst: &mut [u64], keys: &[K]) -> (r: bool)
        ensures
            r == (old(dst)@.len() >= keys@.len() && forall|i: int|
                0 <= i < keys@.len() ==> self@.admits((#[trigger] keys@[i]).text())),
            final(dst)@.len() == old(dst)@.len(),
            forall|i: int|
                r && 0 <= i < keys@.len() && self@.answers(keys@[i].text())
                    ==> #[trigger] final(dst)@[i] == self@.value(keys@[i].text()),
            forall|i: int|
                (if r {
                    keys@.len() as int
                } else {
                    0
                }) <= i < old(dst)@.len() ==> #[trigger] final(dst)@[i] == old(dst)@[i],
    {
        if dst.len() < keys.len() {
            return false;
        }
        let mut i: usize = 0;
        while i < keys.len()
            invariant
                i <= keys@.len(),
                dst@ == old(dst)@,
                forall|k: int| 0 <= k < i ==> self@.admits((#[trigger] keys@[k]).text()),
            decreases keys.len() - i,
        {
            if !self.has_cells(keys[i].as_key()) {
                assert(!self@.admits(keys@[i as int].text()));
                return false;
            }
            i = i + 1;
        }
        self.map_many_into(dst, keys);
        true
    }

    /// Returns what `map_many` returns for `keys`, unless a cell of one of them lies outside the
    /// array.
    pub fn try_map_many<K: Key>(&self, keys: &[K]) -> (r: Option<Vec<u64>>)
        ensures
            r is Some == forall|i: int|
                0 <= i < keys@.len() ==> self@.admits((#[trigger] keys@[i]).text()),
            r matches Some(values) ==> {
                &&& values.len() == keys@.len()
                &&& forall|i: int|
                    0 <= i < keys@.len() && self@.answers(keys@[i].text())
                        ==> #[trigger] values@[i] == self@.value(keys@[i].text())
            },
    {
        let mut dst: Vec<u64> = vec![0u64; keys.len()];
        if self.try_map_many_into(dst.as_mut_slice(), keys) {
            Some(dst)
        } else {
            None
        }
    }

    /// The map in a line, as it is shown when debugging: without its words, of which only the
    /// number is given.
    pub fn debug_text(&self) -> (r: String)
        ensures
            r@ == text::summary(
                "ConstMap"@,
                self@.seed,
                self@.geometry.segment_length,
                self@.geometry.segment_count,
                self@.data.len(),
            ),
    {
        summarize(
            "ConstMap",
            self.seed,
            self.geometry.segment_length,
            self.geometry.segment_count,
            self.data.len(),
        )
    }
}

} // verus!

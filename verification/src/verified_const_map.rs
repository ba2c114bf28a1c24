//! The map that tells a key it does not have from one it has.

use vstd::prelude::*;

use crate::assignment::assign;
use crate::batch::{aim_block, Probe, BATCH_BLOCK};
use crate::construction::{look_up_values, plan, BuildError};
use crate::geometry::Geometry;
use crate::hash::{fingerprint, mixsplit};
use crate::key::{digest, digest_all, Key};
use crate::peeling::Peeled;
use crate::sizing::MAX_KEYS;
use crate::text::summarize;
#[allow(unused_imports)]
use crate::const_map::MapModel;
#[allow(unused_imports)]
use crate::{
    assignment, const_map, construction, geometry, hash, key, lookup_laws, placement, sizing, text,
};

verus! {

/// Sentinel value returned by `VerifiedConstMap::map` when the key was not in the original set.
pub const NOT_FOUND: u64 = 0xffff_ffff_ffff_ffff;

/// Like `ConstMap` but additionally stores a verification fingerprint for each key.
///
/// On lookup, the fingerprint is checked; if it does not match, `NOT_FOUND` is returned. This
/// detects (with high probability) lookups of keys that were not in the original set, at the
/// cost of doubling memory usage.
pub struct VerifiedConstMap {
    pub seed: u64,
    pub geometry: Geometry,
    pub data: Vec<u64>,
    pub checks: Vec<u64>,
}

/// What a `VerifiedConstMap` holds.
#[verifier::ext_equal]
pub struct VerifiedModel {
    pub seed: u64,
    pub geometry: Geometry,
    pub data: Seq<u64>,
    pub checks: Seq<u64>,
}

impl View for VerifiedConstMap {
    type V = VerifiedModel;

    open spec fn view(&self) -> VerifiedModel {
        VerifiedModel {
            seed: self.seed,
            geometry: self.geometry,
            data: self.data@,
            checks: self.checks@,
        }
    }
}

impl VerifiedModel {
    /// The map without its check words.
    pub open spec fn unchecked(self) -> MapModel {
        MapModel { seed: self.seed, geometry: self.geometry, data: self.data }
    }

    /// The geometry divides the cells, and there are as many check words as cells.
    pub open spec fn valid(self) -> bool {
        &&& self.geometry.divides(self.data.len() as int)
        &&& self.checks.len() == self.data.len()
    }

    /// The check words in the cells of `hash` yield its own.
    pub open spec fn recognizes(self, hash: u64) -> bool {
        self.geometry.lookup(self.checks, hash) == hash::check_word(hash)
    }

    /// The cells that a lookup of the key with the digest `digest` reads are there.
    pub open spec fn answers_digest(self, digest: u64) -> bool {
        let hash = hash::mix(digest, self.seed);
        ||| self.data.len() == 0
        ||| {
            &&& self.geometry.within(hash, self.checks.len() as int)
            &&& self.recognizes(hash) ==> self.geometry.within(hash, self.data.len() as int)
        }
    }

    /// What a lookup of the key with the digest `digest` finds.
    pub open spec fn value_of_digest(self, digest: u64) -> u64 {
        let hash = hash::mix(digest, self.seed);
        if self.data.len() > 0 && self.recognizes(hash) {
            self.geometry.lookup(self.data, hash)
        } else {
            NOT_FOUND
        }
    }

    /// The cells that a lookup of the key `key` reads are there.
    pub open spec fn answers(self, key: Seq<char>) -> bool {
        self.answers_digest(hash::key_digest(key))
    }

    /// What a lookup of the key `key` finds.
    pub open spec fn value(self, key: Seq<char>) -> u64 {
        self.value_of_digest(hash::key_digest(key))
    }

    /// The map of keys with the digests `digests` to `values`: the map without check words, and
    /// the check words of the hashes of the keys, stored in the same way.
    pub open spec fn of(digests: Seq<u64>, values: Seq<u64>) -> Result<VerifiedModel, BuildError> {
        match MapModel::of(digests, values) {
            Ok(m) => Ok(
                VerifiedModel {
                    seed: m.seed,
                    geometry: m.geometry,
                    data: m.data,
                    checks: if digests.len() == 0 {
                        Seq::empty()
                    } else {
                        let b = construction::blueprint(digests)->Ok_0;
                        assignment::assigned(
                            b.geometry,
                            b.stack,
                            construction::stack_checks(b.stack),
                            sizing::cell_count(digests.len() as u32) as nat,
                        )
                    },
                },
            ),
            Err(e) => Err(e),
        }
    }
}

/// Every key is answered by a valid map.
pub proof fn lemma_valid_answers(m: VerifiedModel, key: Seq<char>)
    requires
        m.valid(),
    ensures
        m.answers(key),
{
    const_map::lemma_valid_answers(m.unchecked(), key);
}

impl VerifiedModel {
    /// The key with the digest `digest` is recognized by its check words, and has the value
    /// `value`.
    pub open spec fn holds(self, digest: u64, value: u64) -> bool {
        let hash = hash::mix(digest, self.seed);
        &&& self.recognizes(hash)
        &&& self.geometry.lookup(self.data, hash) == value
        &&& self.value_of_digest(digest) == value
    }
}

/// The check words of a blueprint yield that of every key.
proof fn lemma_checks(digests: Seq<u64>, i: int)
    requires
        1 <= digests.len() <= MAX_KEYS,
        construction::blueprint(digests) is Ok,
        0 <= i < digests.len(),
    ensures
        ({
            let b = construction::blueprint(digests)->Ok_0;
            let cells = sizing::cell_count(digests.len() as u32) as nat;
            let checks = assignment::assigned(
                b.geometry,
                b.stack,
                construction::stack_checks(b.stack),
                cells,
            );
            let hash = hash::mix(digests[i], b.seed);
            &&& checks.len() == cells
            &&& b.geometry.lookup(checks, hash) == hash::check_word(hash)
        }),
{
    construction::lemma_blueprint(digests);
    let b = construction::blueprint(digests)->Ok_0;
    let hashes = placement::mixed(digests, b.seed);
    let words = construction::stack_checks(b.stack);
    assignment::lemma_assigned(
        b.geometry,
        b.stack,
        words,
        sizing::cell_count(digests.len() as u32) as nat,
    );
    construction::lemma_on_stack(b.stack, hashes, i);
    let k = choose|k: int| 0 <= k < b.stack.len() && #[trigger] b.stack[k].hash == hashes[i];
    assert(words[k] == hash::check_word(b.stack[k].hash));
}

proof fn lemma_built_key(digests: Seq<u64>, values: Seq<u64>, i: int)
    requires
        1 <= digests.len() <= MAX_KEYS,
        VerifiedModel::of(digests, values) is Ok,
        0 <= i < digests.len(),
    ensures
        VerifiedModel::of(digests, values)->Ok_0.holds(digests[i], values[i]),
{
    let m = VerifiedModel::of(digests, values)->Ok_0;
    let plain = MapModel::of(digests, values)->Ok_0;
    let hash = hash::mix(digests[i], m.seed);
    const_map::lemma_built_map(digests, values);
    lemma_checks(digests, i);
    geometry::lemma_cells_ordered(m.geometry, m.data.len() as int, hash);
    assert(m.data.len() > 0);
    assert(plain.value_of_digest(digests[i]) == values[i]);
    assert(m.recognizes(hash));
}

/// A map that is built of keys and values is valid, its keys have different digests, every key is
/// recognized by its check words, and its value is found in it.
pub proof fn lemma_built_map(digests: Seq<u64>, values: Seq<u64>)
    requires
        1 <= digests.len() <= MAX_KEYS,
        VerifiedModel::of(digests, values) is Ok,
    ensures
        ({
            let m = VerifiedModel::of(digests, values)->Ok_0;
            &&& m.valid()
            &&& m.geometry == Geometry::of(m.geometry.segment_length, m.geometry.segment_count)
            &&& m.data.len() == sizing::cell_count(digests.len() as u32)
            &&& forall|i: int|
                0 <= i < digests.len() ==> m.holds(#[trigger] digests[i], values[i])
        }),
        digests.no_duplicates(),
{
    const_map::lemma_built_map(digests, values);
    let m = VerifiedModel::of(digests, values)->Ok_0;
    lemma_checks(digests, 0);
    assert(m.valid());
    assert forall|i: int| 0 <= i < digests.len() implies m.holds(
        #[trigger] digests[i],
        values[i],
    ) by {
        lemma_built_key(digests, values, i);
    }
}

/// Keys that are not all different cannot be built into a map: what comes of them is an error.
pub proof fn lemma_equal_keys_are_refused(
    texts: Seq<Seq<char>>,
    values: Seq<u64>,
    i: int,
    j: int,
)
    requires
        texts.len() <= MAX_KEYS,
        0 <= i < j < texts.len(),
        texts[i] == texts[j],
    ensures
        VerifiedModel::of(key::digests_of(texts), values) is Err,
{
    const_map::lemma_equal_keys_are_refused(texts, values, i, j);
}

/// The two maps of the same keys and values agree: the verified map finds nothing for a key, or
/// what the other one yields.
pub proof fn lemma_agrees_with_const_map(digests: Seq<u64>, values: Seq<u64>, key: Seq<char>)
    requires
        VerifiedModel::of(digests, values) is Ok,
    ensures
        MapModel::of(digests, values) is Ok,
        ({
            let v = VerifiedModel::of(digests, values)->Ok_0;
            let m = MapModel::of(digests, values)->Ok_0;
            &&& v.unchecked() == m
            &&& v.value(key) == NOT_FOUND || v.value(key) == m.value(key)
        }),
{
}

/// The check words of the hashes of a stack.
fn fingerprints(stack: &Vec<Peeled>) -> (words: Vec<u64>)
    ensures
        words@ == construction::stack_checks(stack@),
{
    let mut words: Vec<u64> = Vec::with_capacity(stack.len());
    let mut i: usize = 0;
    while i < stack.len()
        invariant
            i <= stack.len(),
            words@ =~= construction::stack_checks(stack@).take(i as int),
        decreases stack.len() - i,
    {
        words.push(fingerprint(stack[i].hash));
        i = i + 1;
    }
    words
}

impl VerifiedConstMap {
    /// Builds a map of keys, of which `digests` are the hashes, to `values`.
    pub fn from_digests(digests: &Vec<u64>, values: &[u64]) -> (r: Result<VerifiedConstMap, BuildError>)
        requires
            digests.len() == values@.len() ==> digests.len() <= MAX_KEYS,
        ensures
            match r {
                Ok(m) => VerifiedModel::of(digests@, values@) == Ok::<VerifiedModel, BuildError>(m@),
                Err(e) => VerifiedModel::of(digests@, values@) == Err::<VerifiedModel, BuildError>(e),
            },
            r is Ok == MapModel::of(digests@, values@) is Ok,
            r matches Err(e) ==> MapModel::of(digests@, values@) == Err::<MapModel, BuildError>(e),
    {
        if digests.len() != values.len() {
            return Err(BuildError::LengthMismatch);
        }
        if digests.len() == 0 {
            let empty: VerifiedConstMap = VerifiedConstMap {
                seed: 0,
                geometry: Geometry {
                    segment_length: 0,
                    segment_length_mask: 0,
                    segment_count: 0,
                    segment_count_length: 0,
                },
                data: Vec::new(),
                checks: Vec::new(),
            };
            assert(empty@ =~= VerifiedModel::of(digests@, values@)->Ok_0);
            return Ok(empty);
        }
        match plan(digests) {
            Ok((seed, geometry, stack)) => {
                proof {
                    construction::lemma_blueprint(digests@);
                }
                let words: Vec<u64> = look_up_values(&stack, digests, values, seed);
                let cells: usize = geometry.cells();
                let data: Vec<u64> = assign(&geometry, &stack, &words, cells);
                let checks: Vec<u64> = assign(&geometry, &stack, &fingerprints(&stack), cells);
                Ok(VerifiedConstMap { seed, geometry, data, checks })
            },
            Err(e) => Err(e),
        }
    }

    /// Builds a `VerifiedConstMap` from a set of string keys and their associated `u64` values.
    ///
    /// The two slices must have equal length. Keys must be unique. Values equal to `NOT_FOUND`
    /// are allowed but cannot be distinguished from a missing key on lookup.
    pub fn new(keys: &[&str], values: &[u64]) -> (r: Result<VerifiedConstMap, String>)
        requires
            keys@.len() == values@.len() ==> keys@.len() <= MAX_KEYS,
        ensures
            match (r, VerifiedModel::of(key::digests_of(key::texts_of(keys@)), values@)) {
                (Ok(m), Ok(model)) => m@ == model,
                (Err(e), Err(error)) => e@ == error.text(),
                _ => false,
            },
            r is Ok == MapModel::of(key::digests_of(key::texts_of(keys@)), values@) is Ok,
            r matches Ok(m) ==> keys@.len() > 0 ==> forall|i: int|
                0 <= i < keys@.len() ==> m@.value_of_digest(
                    hash::xxh64_digest(vstd::utf8::encode_utf8((#[trigger] keys@[i])@), 0),
                ) == values@[i],
            r matches Ok(m) ==> keys@.len() > 0 ==> {
                &&& m@.valid()
                &&& forall|key: Seq<char>| #[trigger] m@.answers(key)
                &&& forall|i: int|
                    0 <= i < keys@.len() ==> m@.value((#[trigger] keys@[i])@) == values@[i]
                &&& forall|i: int|
                    0 <= i < keys@.len() ==> m@.recognizes(
                        hash::key_hash((#[trigger] keys@[i])@, m@.seed),
                    )
            },
    {
        let digests: Vec<u64> = digest_all(keys);
        match VerifiedConstMap::from_digests(&digests, values) {
            Ok(m) => {
                proof {
                    if keys@.len() > 0 {
                        lemma_built_map(digests@, values@);
                        assert forall|key: Seq<char>| #[trigger] m@.answers(key) by {
                            lemma_valid_answers(m@, key);
                        }
                        assert forall|i: int| 0 <= i < keys@.len() implies m@.value(
                            (#[trigger] keys@[i])@,
                        ) == values@[i] && m@.recognizes(
                            hash::key_hash(keys@[i]@, m@.seed),
                        ) by {
                            assert(digests@[i] == hash::key_digest(keys@[i]@));
                        }
                    }
                }
                Ok(m)
            },
            Err(e) => Err(e.message()),
        }
    }

    /// Returns what a lookup of the key with the digest `digest` finds.
    pub fn map_digest(&self, digest: u64) -> (r: u64)
        requires
            self@.answers_digest(digest),
        ensures
            r == self@.value_of_digest(digest),
            r != NOT_FOUND ==> self@.data.len() > 0 && lookup_laws::fingerprint_matches(
                self@,
                hash::mix(digest, self@.seed),
            ),
    {
        if self.data.is_empty() {
            return NOT_FOUND;
        }
        let hash: u64 = mixsplit(digest, self.seed);
        let (h0, h1, h2) = self.geometry.get_hash_from_hash(hash);
        let fp: u64 = self.checks[h0 as usize] ^ self.checks[h1 as usize] ^ self.checks[h2 as usize];
        if fp != fingerprint(hash) {
            return NOT_FOUND;
        }
        self.data[h0 as usize] ^ self.data[h1 as usize] ^ self.data[h2 as usize]
    }

    /// Returns the `u64` value associated with the given key.
    ///
    /// If the key was not in the original set, `NOT_FOUND` is returned.
    pub fn map(&self, key: &str) -> (r: u64)
        requires
            self@.answers(key@),
        ensures
            r == self@.value(key@),
            r == self@.value_of_digest(hash::xxh64_digest(vstd::utf8::encode_utf8(key@), 0)),
            r != NOT_FOUND ==> self@.data.len() > 0 && lookup_laws::fingerprint_matches(
                self@,
                hash::mix(
                    hash::xxh64_digest(vstd::utf8::encode_utf8(key@), 0),
                    self@.seed,
                ),
            ),
    {
        self.map_digest(digest(key))
    }

    /// Whether the cells that a lookup of `key` reads are there.
    fn has_cells(&self, key: &str) -> (r: bool)
        ensures
            r == self@.answers(key@),
    {
        if self.data.is_empty() {
            return true;
        }
        let hash: u64 = mixsplit(digest(key), self.seed);
        let (h0, h1, h2) = self.geometry.get_hash_from_hash(hash);
        let (a, b, c) = (h0 as usize, h1 as usize, h2 as usize);
        let checked: usize = self.checks.len();
        if a >= checked || b >= checked || c >= checked {
            return false;
        }
        let len: usize = self.data.len();
        self.checks[a] ^ self.checks[b] ^ self.checks[c] != fingerprint(hash) || (a < len && b < len
            && c < len)
    }

    /// Returns what `map` returns for `key`, unless it would read outside the arrays, as it can
    /// in a map that was read from damaged or foreign bytes.
    pub fn try_map(&self, key: &str) -> (r: Option<u64>)
        ensures
            r == if self@.answers(key@) {
                Some(self@.value(key@))
            } else {
                None
            },
    {
        if self.has_cells(key) {
            Some(self.map(key))
        } else {
            None
        }
    }

    /// Looks up every key in `keys` and returns the values in a newly allocated `Vec` of the
    /// same length, where `result[i]` corresponds to `keys[i]`.
    ///
    /// Keys that were not in the original set yield `NOT_FOUND`, exactly as `map` does.
    pub fn map_many<K: Key>(&self, keys: &[K]) -> (values: Vec<u64>)
        requires
            forall|i: int| 0 <= i < keys@.len() ==> self@.answers((#[trigger] keys@[i]).text()),
        ensures
            values.len() == keys@.len(),
            forall|i: int|
                0 <= i < keys@.len() ==> #[trigger] values@[i] == self@.value(keys@[i].text()),
    {
        let mut dst: Vec<u64> = vec![0u64; keys.len()];
        self.map_many_into(dst.as_mut_slice(), keys);
        dst
    }

    /// `map_many` writing into a caller-provided slice, so that a repeated batch need not
    /// allocate. It fills `dst[..keys.len()]` and leaves the rest of `dst` alone.
    pub fn map_many_into<K: Key>(&self, dst: &mut [u64], keys: &[K])
        requires
            old(dst)@.len() >= keys@.len(),
            forall|i: int| 0 <= i < keys@.len() ==> self@.answers((#[trigger] keys@[i]).text()),
        ensures
            final(dst)@.len() == old(dst)@.len(),
            forall|i: int|
                0 <= i < keys@.len() ==> #[trigger] final(dst)@[i] == self@.value(keys@[i].text()),
            forall|i: int|
                keys@.len() <= i < old(dst)@.len() ==> #[trigger] final(dst)@[i] == old(dst)@[i],
    {
        let ghost start = dst@;
        if self.data.is_empty() {
            let mut i: usize = 0;
            while i < keys.len()
                invariant
                    i <= keys.len() <= start.len(),
                    dst@.len() == start.len(),
                    forall|k: int| 0 <= k < i ==> #[trigger] dst@[k] == NOT_FOUND,
                    forall|k: int| i <= k < start.len() ==> #[trigger] dst@[k] == start[k],
                decreases keys.len() - i,
            {
                dst[i] = NOT_FOUND;
                i = i + 1;
            }
            return ;
        }
        let blocks: usize = keys.len() / BATCH_BLOCK * BATCH_BLOCK;
        let mut i: usize = 0;
        while i < blocks
            invariant
                blocks <= keys@.len() <= start.len(),
                self.data@.len() > 0,
                blocks % BATCH_BLOCK == 0,
                i % BATCH_BLOCK == 0,
                i <= blocks,
                dst@.len() == start.len(),
                forall|k: int|
                    0 <= k < keys@.len() ==> self@.answers((#[trigger] keys@[k]).text()),
                forall|k: int|
                    0 <= k < i ==> #[trigger] dst@[k] == self@.value(keys@[k].text()),
                forall|k: int| i <= k < start.len() ==> #[trigger] dst@[k] == start[k],
            decreases blocks - i,
        {
            let block: [Probe; BATCH_BLOCK] = aim_block(&self.geometry, self.seed, keys, i);
            let mut j: usize = 0;
            while j < BATCH_BLOCK
                invariant
                    j <= BATCH_BLOCK,
                    i + BATCH_BLOCK <= keys.len() <= start.len(),
                    self.data@.len() > 0,
                    dst@.len() == start.len(),
                    forall|k: int|
                        0 <= k < BATCH_BLOCK ==> (#[trigger] block@[k]).aims(
                            self.geometry,
                            hash::key_hash(keys@[i + k].text(), self.seed),
                        ),
                    forall|k: int|
                        0 <= k < keys@.len() ==> self@.answers((#[trigger] keys@[k]).text()),
                    forall|k: int|
                        0 <= k < i + j ==> #[trigger] dst@[k] == self@.value(keys@[k].text()),
                    forall|k: int| i + j <= k < start.len() ==> #[trigger] dst@[k] == start[k],
                decreases BATCH_BLOCK - j,
            {
                assert(self@.answers(keys@[i + j].text()));
                let probe: Probe = block[j];
                assert(block@[j as int] == probe);
                let fp: u64 = self.checks[probe.h0 as usize] ^ self.checks[probe.h1 as usize]
                    ^ self.checks[probe.h2 as usize];
                dst[i + j] = if fp == fingerprint(probe.hash) {
                    self.data[probe.h0 as usize] ^ self.data[probe.h1 as usize]
                        ^ self.data[probe.h2 as usize]
                } else {
                    NOT_FOUND
                };
                j = j + 1;
            }
            i = i + BATCH_BLOCK;
        }
        // Tail: fewer than BATCH_BLOCK keys left.
        while i < keys.len()
            invariant
                i <= keys@.len() <= start.len(),
                dst@.len() == start.len(),
                forall|k: int|
                    0 <= k < keys@.len() ==> self@.answers((#[trigger] keys@[k]).text()),
                forall|k: int|
                    0 <= k < i ==> #[trigger] dst@[k] == self@.value(keys@[k].text()),
                forall|k: int| i <= k < start.len() ==> #[trigger] dst@[k] == start[k],
            decreases keys.len() - i,
        {
            dst[i] = self.map(keys[i].as_key());
            i = i + 1;
        }
    }

    /// Does what `map_many_into` does, unless `dst` is shorter than `keys` or a lookup would read
    /// outside the arrays: then `dst` is left alone. Says which it was.
    pub fn try_map_many_into<K: Key>(&self, dst: &mut [u64], keys: &[K]) -> (r: bool)
        ensures
            r == (old(dst)@.len() >= keys@.len() && forall|i: int|
                0 <= i < keys@.len() ==> self@.answers((#[trigger] keys@[i]).text())),
            final(dst)@.len() == old(dst)@.len(),
            forall|i: int|
                r && 0 <= i < keys@.len() ==> #[trigger] final(dst)@[i] == self@.value(
                    keys@[i].text(),
                ),
            forall|i: int|
                (if r {
                    keys@.len() as int
                } else {
                    0
                }) <= i < old(dst)@.len() ==> #[trigger] final(dst)@[i] == old(dst)@[i],
    {
        if dst.len() < keys.len() {
            return false;
        }
        let mut i: usize = 0;
        while i < keys.len()
            invariant
                i <= keys@.len(),
                dst@ == old(dst)@,
                forall|k: int| 0 <= k < i ==> self@.answers((#[trigger] keys@[k]).text()),
            decreases keys.len() - i,
        {
            if !self.has_cells(keys[i].as_key()) {
                assert(!self@.answers(keys@[i as int].text()));
                return false;
            }
            i = i + 1;
        }
        self.map_many_into(dst, keys);
        true
    }

    /// Returns what `map_many` returns for `keys`, unless a lookup would read outside the
    /// arrays.
    pub fn try_map_many<K: Key>(&self, keys: &[K]) -> (r: Option<Vec<u64>>)
        ensures
            r is Some == forall|i: int|
                0 <= i < keys@.len() ==> self@.answers((#[trigger] keys@[i]).text()),
            r matches Some(values) ==> {
                &&& values.len() == keys@.len()
                &&& forall|i: int|
                    0 <= i < keys@.len() ==> #[trigger] values@[i] == self@.value(keys@[i].text())
            },
    {
        let mut dst: Vec<u64> = vec![0u64; keys.len()];
        if self.try_map_many_into(dst.as_mut_slice(), keys) {
            Some(dst)
        } else {
            None
        }
    }

    /// The map in a line, as it is shown when debugging: without its words, of which only the
    /// number is given.
    pub fn debug_text(&self) -> (r: String)
        ensures
            r@ == text::summary(
                "VerifiedConstMap"@,
                self@.seed,
                self@.geometry.segment_length,
                self@.geometry.segment_count,
                self@.data.len(),
            ),
    {
        summarize(
            "VerifiedConstMap",
            self.seed,
            self.geometry.segment_length,
            self.geometry.segment_count,
            self.data.len(),
        )
    }
}

} // verus!

//! Finding a seed and a geometry under which all hashes can be taken off.

use std::collections::HashMap;
use vstd::prelude::*;

use crate::geometry::Geometry;
use crate::hash::{mixsplit, splitmix64};
use crate::incidence::{tally, Tally};
use crate::peeling::{peel, Peeled};
use crate::placement::{arrange, calculate_block_bits};
use crate::sizing::{LARGE_SIZE, MAX_KEYS};
#[allow(unused_imports)]
use crate::{assignment, geometry, hash, incidence, peeling, permutation, placement, sizing};

verus! {

/// The number of the last attempt.
pub const MAX_ITERATIONS: u32 = 100;

/// Why no map could be built.
#[derive(Clone, Copy, Debug, PartialEq, Eq, Structural)]
pub enum BuildError {
    /// There are not as many values as keys.
    LengthMismatch,
    /// Two keys have the same hash.
    DuplicateKey,
    /// No attempt succeeded.
    Exhausted,
}

impl BuildError {
    /// The error in words.
    pub open spec fn text(self) -> Seq<char> {
        match self {
            BuildError::LengthMismatch => "constmap: keys and values must have equal length"@,
            BuildError::DuplicateKey => "constmap: duplicate key hash detected"@,
            BuildError::Exhausted => "constmap: failed to construct map, possible duplicate keys"@,
        }
    }

    /// The error in words.
    pub fn message(&self) -> (r: String)
        ensures
            r@ == self.text(),
    {
        match self {
            BuildError::LengthMismatch => {
                "constmap: keys and values must have equal length".to_owned()
            },
            BuildError::DuplicateKey => "constmap: duplicate key hash detected".to_owned(),
            BuildError::Exhausted => {
                "constmap: failed to construct map, possible duplicate keys".to_owned()
            },
        }
    }
}

impl Geometry {
    /// The same cells in twice as many segments of half the length.
    pub open spec fn halves(self) -> Geometry {
        Geometry::of(self.segment_length / 2, (self.segment_count * 2 + 2) as u32)
    }

    /// The same cells in twice as many segments of half the length.
    fn halved(&self, Ghost(len): Ghost<int>) -> (r: Geometry)
        requires
            self.divides(len),
            self.segment_length >= 8,
        ensures
            r == self.halves(),
            r.divides(len),
            r.segment_count <= 0x8000_0000,
    {
        proof {
            lemma_halves(*self, len);
        }
        let length: u32 = self.segment_length / 2;
        let count: u32 = self.segment_count * 2 + 2;
        Geometry {
            segment_length: length,
            segment_length_mask: length - 1,
            segment_count: count,
            segment_count_length: count * length,
        }
    }
}

proof fn lemma_halves(g: Geometry, len: int)
    requires
        g.divides(len),
        g.segment_length >= 8,
    ensures
        g.halves().divides(len),
        g.segment_count * 2 + 2 <= 0x8000_0000,
        (g.segment_count * 2 + 2) * (g.segment_length / 2) <= len,
{
    let e = choose|e: u32| e < 32 && g.segment_length == #[trigger] (1u32 << e);
    assert(e >= 1 && (1u32 << e) / 2 == 1u32 << ((e - 1) as u32) && (1u32 << e) % 2 == 0)
        by (bit_vector)
        requires
            e < 32,
            1u32 << e >= 8,
    ;
    let length = g.segment_length / 2;
    assert(length == 1u32 << ((e - 1) as u32));
    assert(geometry::is_power_of_two(length));
    let count = g.segment_count * 2 + 2;
    assert((count + 2) * length == (g.segment_count + 2) * g.segment_length) by (nonlinear_arith)
        requires
            count == g.segment_count * 2 + 2,
            g.segment_length == 2 * length,
    ;
    assert((count + 2) * 4 <= (count + 2) * length) by (nonlinear_arith)
        requires
            length >= 4,
            count >= 0,
    ;
    assert(count * length <= (count + 2) * length) by (nonlinear_arith)
        requires
            length >= 4,
    ;
    assert(0 <= count * length) by (nonlinear_arith)
        requires
            length >= 4,
            count >= 0,
    ;
    assert(((count as u32) as nat * length as nat) % 0x1_0000_0000 == count * length) by {
        vstd::arithmetic::div_mod::lemma_small_mod((count * length) as nat, 0x1_0000_0000);
    }
}

/// The geometry of attempt number `number` for `size` keys: every fourth attempt, from the
/// third on, is made with segments of half the length, unless there are very few or very many
/// keys.
pub open spec fn geometry_at(size: u32, number: nat) -> Geometry {
    if 4 < size && size < LARGE_SIZE && number % 4 == 2 {
        sizing::initial_geometry(size).halves()
    } else {
        sizing::initial_geometry(size)
    }
}

/// How an attempt ends.
pub enum Attempt {
    /// Two equal hashes were seen.
    Duplicate,
    /// The hashes could not all be taken off.
    Failed,
    /// All hashes were taken off, in this order.
    Settled(Seq<Peeled>),
}

/// The hashes that attempt number `number` takes for keys with the digests `digests`, in order.
pub open spec fn attempt_order(digests: Seq<u64>, number: nat) -> Seq<u64> {
    placement::arrangement(
        placement::mixed(digests, hash::seed_of(number)),
        placement::block_bits(geometry_at(digests.len() as u32, number).segment_count),
    )
}

/// How attempt number `number` ends for keys with the digests `digests`.
#[verifier::opaque]
pub open spec fn attempt(digests: Seq<u64>, number: nat) -> Attempt {
    let size = digests.len() as u32;
    let g = geometry_at(size, number);
    let order = attempt_order(digests, number);
    let stack = peeling::peel_order(g, order, sizing::cell_count(size) as nat);
    if incidence::shows_duplicate(g, order) {
        Attempt::Duplicate
    } else if incidence::crowded(g, order) || stack.len() != digests.len() {
        Attempt::Failed
    } else {
        Attempt::Settled(stack)
    }
}

/// The number of the first attempt, from `number` on, that does not fail; more than
/// `MAX_ITERATIONS` if there is none up to there.
pub open spec fn decided_from(digests: Seq<u64>, number: nat) -> nat
    decreases MAX_ITERATIONS + 1 - number,
{
    if number > MAX_ITERATIONS || !(attempt(digests, number) is Failed) {
        number
    } else {
        decided_from(digests, number + 1)
    }
}

/// The number of the attempt that decides on keys with the digests `digests`.
pub open spec fn decided(digests: Seq<u64>) -> nat {
    decided_from(digests, 0)
}

/// What a map is built from.
#[verifier::ext_equal]
pub struct Blueprint {
    pub seed: u64,
    pub geometry: Geometry,
    pub stack: Seq<Peeled>,
}

/// What a map of keys with the digests `digests` is built from.
#[verifier::opaque]
pub open spec fn blueprint(digests: Seq<u64>) -> Result<Blueprint, BuildError> {
    let number = decided(digests);
    if number > MAX_ITERATIONS {
        Err(BuildError::Exhausted)
    } else {
        match attempt(digests, number) {
            Attempt::Settled(stack) => Ok(
                Blueprint {
                    seed: hash::seed_of(number),
                    geometry: geometry_at(digests.len() as u32, number),
                    stack,
                },
            ),
            _ => Err(BuildError::DuplicateKey),
        }
    }
}

/// The geometry of every attempt divides the cells.
pub proof fn lemma_geometry_at(size: u32, number: nat)
    requires
        1 <= size <= MAX_KEYS,
    ensures
        geometry_at(size, number).divides(sizing::cell_count(size)),
        geometry_at(size, number).segment_count <= 0x8000_0000,
        sizing::initial_geometry(size).divides(sizing::cell_count(size)),
        4 < size ==> sizing::initial_geometry(size).segment_length >= 8,
        geometry_at(size, number) == Geometry::of(
            geometry_at(size, number).segment_length,
            geometry_at(size, number).segment_count,
        ),
{
    sizing::lemma_initial_geometry(size);
    let g = sizing::initial_geometry(size);
    assert((g.segment_count + 2) * 4 <= (g.segment_count + 2) * g.segment_length)
        by (nonlinear_arith)
        requires
            g.segment_length >= 4,
    ;
    if 4 < size {
        lemma_halves(g, sizing::cell_count(size));
    }
}

/// The arrangement of the hashes holds each as often as it is there.
proof fn lemma_attempt_order(digests: Seq<u64>, number: nat)
    requires
        1 <= digests.len() <= MAX_KEYS,
    ensures
        attempt_order(digests, number).to_multiset() == placement::mixed(
            digests,
            hash::seed_of(number),
        ).to_multiset(),
        attempt_order(digests, number).len() == digests.len(),
{
    let size = digests.len() as u32;
    let g = geometry_at(size, number);
    lemma_geometry_at(size, number);
    placement::lemma_block_bits(g.segment_count);
    let hashes = placement::mixed(digests, hash::seed_of(number));
    placement::lemma_arrangement(hashes, placement::block_bits(g.segment_count));
}

/// What holds of every blueprint: its geometry divides the cells, its stack peels, and the
/// hashes on it are those of the keys, which all differ.
pub proof fn lemma_blueprint(digests: Seq<u64>)
    requires
        1 <= digests.len() <= MAX_KEYS,
        blueprint(digests) is Ok,
    ensures
        ({
            let b = blueprint(digests)->Ok_0;
            let hashes = placement::mixed(digests, b.seed);
            &&& b.geometry.divides(sizing::cell_count(digests.len() as u32))
            &&& b.geometry == Geometry::of(b.geometry.segment_length, b.geometry.segment_count)
            &&& peeling::peels(b.geometry, b.stack)
            &&& b.stack.len() == digests.len()
            &&& peeling::stack_hashes(b.stack).to_multiset() == hashes.to_multiset()
            &&& hashes.no_duplicates()
        }),
        digests.no_duplicates(),
{
    reveal(blueprint);
    reveal(attempt);
    let number = decided(digests);
    let size = digests.len() as u32;
    let g = geometry_at(size, number);
    let order = attempt_order(digests, number);
    let b = blueprint(digests)->Ok_0;
    let hashes = placement::mixed(digests, b.seed);
    lemma_geometry_at(size, number);
    lemma_attempt_order(digests, number);
    peeling::lemma_peel_order(g, order, sizing::cell_count(size) as nat);
    peeling::lemma_peels_distinct(g, b.stack);
    peeling::stack_hashes(b.stack).lemma_multiset_has_no_duplicates();
    hashes.lemma_multiset_has_no_duplicates_conv();
    assert forall|i: int, j: int|
        0 <= i < digests.len() && 0 <= j < digests.len() && i != j implies digests[i]
        != digests[j] by {
        assert(hashes[i] != hashes[j]);
    }
}

/// Keys are refused for having the same hash only where two of them have, as long as no cell has
/// 64 of them or more: then the byte that counts them no longer tells how many they are.
pub proof fn lemma_duplicate_is_real(digests: Seq<u64>)
    requires
        1 <= digests.len() <= MAX_KEYS,
        blueprint(digests) == Err::<Blueprint, BuildError>(BuildError::DuplicateKey),
        !incidence::crowded(
            geometry_at(digests.len() as u32, decided(digests)),
            attempt_order(digests, decided(digests)),
        ),
    ensures
        !digests.no_duplicates(),
{
    reveal(blueprint);
    reveal(attempt);
    let number = decided(digests);
    let order = attempt_order(digests, number);
    let hashes = placement::mixed(digests, hash::seed_of(number));
    lemma_decided(digests, 0);
    incidence::lemma_duplicate(geometry_at(digests.len() as u32, number), order);
    lemma_attempt_order(digests, number);
    if digests.no_duplicates() {
        assert forall|i: int, j: int|
            0 <= i < hashes.len() && 0 <= j < hashes.len() && i != j implies hashes[i]
            != hashes[j] by {
            if hashes[i] == hashes[j] {
                hash::lemma_mix_injective(digests[i], digests[j], hash::seed_of(number));
            }
        }
        hashes.lemma_multiset_has_no_duplicates();
        order.lemma_multiset_has_no_duplicates_conv();
    }
}

/// In attempt number `number` a cell has more hashes than its byte can count, and one looks
/// doubled.
#[verifier::opaque]
pub open spec fn misleads(digests: Seq<u64>, number: nat) -> bool {
    let g = geometry_at(digests.len() as u32, number);
    let order = attempt_order(digests, number);
    incidence::crowded(g, order) && incidence::shows_duplicate(g, order)
}

/// No attempt misleads with fewer than 64 keys.
pub proof fn lemma_few_never_mislead(digests: Seq<u64>, number: nat)
    requires
        1 <= digests.len() < 64,
    ensures
        !misleads(digests, number),
{
    reveal(misleads);
    let g = geometry_at(digests.len() as u32, number);
    let order = attempt_order(digests, number);
    lemma_attempt_order(digests, number);
    if incidence::crowded(g, order) {
        let cell = choose|cell: int| #[trigger] incidence::load(g, order, cell) >= 64;
        incidence::lemma_load_bounded(g, order, cell);
    }
}

/// How an attempt ends for keys with different digests does not depend on their order, unless it
/// misleads.
proof fn lemma_attempt_order_free(digests: Seq<u64>, other: Seq<u64>, number: nat)
    requires
        1 <= digests.len() <= MAX_KEYS,
        digests.no_duplicates(),
        other.no_duplicates(),
        digests.len() == other.len(),
        digests.to_multiset() == other.to_multiset(),
        !misleads(digests, number),
        !misleads(other, number),
    ensures
        attempt(digests, number) == attempt(other, number),
{
    reveal(attempt);
    reveal(misleads);
    let seed = hash::seed_of(number);
    let size = digests.len() as u32;
    let g = geometry_at(size, number);
    let (a, b) = (attempt_order(digests, number), attempt_order(other, number));
    lemma_attempt_order(digests, number);
    lemma_attempt_order(other, number);
    lemma_mixed_order_free(digests, other, seed);
    lemma_order_differs(digests, number);
    lemma_order_differs(other, number);
    peeling::lemma_order_free(g, a, b, sizing::cell_count(size) as nat);
    assert(incidence::crowded(g, a) == incidence::crowded(g, b)) by {
        if incidence::crowded(g, a) {
            let cell = choose|cell: int| #[trigger] incidence::load(g, a, cell) >= 64;
            incidence::lemma_order_free(g, a, b, cell);
            assert(incidence::load(g, b, cell) >= 64);
        }
        if incidence::crowded(g, b) {
            let cell = choose|cell: int| #[trigger] incidence::load(g, b, cell) >= 64;
            incidence::lemma_order_free(g, a, b, cell);
            assert(incidence::load(g, a, cell) >= 64);
        }
    }
    if !incidence::crowded(g, a) {
        if incidence::shows_duplicate(g, a) {
            incidence::lemma_duplicate(g, a);
        }
        if incidence::shows_duplicate(g, b) {
            incidence::lemma_duplicate(g, b);
        }
    }
}

/// The hashes of different digests are different, in whichever order they are taken.
proof fn lemma_order_differs(digests: Seq<u64>, number: nat)
    requires
        1 <= digests.len() <= MAX_KEYS,
        digests.no_duplicates(),
    ensures
        attempt_order(digests, number).no_duplicates(),
        placement::mixed(digests, hash::seed_of(number)).no_duplicates(),
{
    let seed = hash::seed_of(number);
    let hashes = placement::mixed(digests, seed);
    assert forall|i: int, j: int|
        0 <= i < hashes.len() && 0 <= j < hashes.len() && i != j implies hashes[i]
        != hashes[j] by {
        if hashes[i] == hashes[j] {
            hash::lemma_mix_injective(digests[i], digests[j], seed);
        }
    }
    lemma_attempt_order(digests, number);
    hashes.lemma_multiset_has_no_duplicates();
    attempt_order(digests, number).lemma_multiset_has_no_duplicates_conv();
}

/// The hashes of the same digests are the same.
proof fn lemma_mixed_order_free(a: Seq<u64>, b: Seq<u64>, seed: u64)
    requires
        a.to_multiset() == b.to_multiset(),
    ensures
        placement::mixed(a, seed).to_multiset() == placement::mixed(b, seed).to_multiset(),
    decreases a.len(),
{
    broadcast use vstd::multiset::group_multiset_axioms;

    let (x, y) = (placement::mixed(a, seed), placement::mixed(b, seed));
    a.to_multiset_ensures();
    b.to_multiset_ensures();
    if a.len() == 0 {
        assert(x =~= y);
    } else {
        let (front, last) = (a.drop_last(), a.last());
        assert(a.contains(last));
        assert(b.to_multiset().count(last) > 0);
        let k = choose|k: int| 0 <= k < b.len() && b[k] == last;
        assert(a.remove(a.len() - 1) =~= front);
        vstd::seq_lib::to_multiset_remove(a, a.len() - 1);
        vstd::seq_lib::to_multiset_remove(b, k);
        lemma_mixed_order_free(front, b.remove(k), seed);
        vstd::seq_lib::to_multiset_remove(x, x.len() - 1);
        vstd::seq_lib::to_multiset_remove(y, k);
        assert(x.remove(x.len() - 1) =~= placement::mixed(front, seed));
        assert(y.remove(k) =~= placement::mixed(b.remove(k), seed));
        x.to_multiset_ensures();
        y.to_multiset_ensures();
        assert(x.contains(x[x.len() - 1]) && y.contains(y[k]));
        assert(x.to_multiset() =~= x.to_multiset().remove(x.last()).insert(x.last()));
        assert(y.to_multiset() =~= y.to_multiset().remove(y[k]).insert(y[k]));
    }
}

proof fn lemma_decided_order_free(digests: Seq<u64>, other: Seq<u64>, number: nat, last: nat)
    requires
        1 <= digests.len() <= MAX_KEYS,
        digests.no_duplicates(),
        other.no_duplicates(),
        digests.len() == other.len(),
        digests.to_multiset() == other.to_multiset(),
        number <= last,
        decided_from(digests, number) == last,
        forall|k: nat| k <= last ==> !(#[trigger] misleads(digests, k)),
        forall|k: nat| k <= last ==> !(#[trigger] misleads(other, k)),
    ensures
        decided_from(other, number) == last,
    decreases MAX_ITERATIONS + 1 - number,
{
    if number <= MAX_ITERATIONS {
        assert(!misleads(digests, number) && !misleads(other, number));
        lemma_attempt_order_free(digests, other, number);
        if attempt(digests, number) is Failed {
            lemma_decided_after(digests, number + 1);
            lemma_decided_order_free(digests, other, number + 1, last);
        }
    }
}

proof fn lemma_decided_after(digests: Seq<u64>, number: nat)
    ensures
        number <= decided_from(digests, number),
    decreases MAX_ITERATIONS + 1 - number,
{
    if number <= MAX_ITERATIONS && attempt(digests, number) is Failed {
        lemma_decided_after(digests, number + 1);
    }
}

/// What a map of keys with different digests is built from does not depend on their order, unless
/// an attempt misleads.
pub proof fn lemma_blueprint_order_free(digests: Seq<u64>, other: Seq<u64>, last: nat)
    requires
        1 <= digests.len() <= MAX_KEYS,
        digests.no_duplicates(),
        other.no_duplicates(),
        digests.len() == other.len(),
        digests.to_multiset() == other.to_multiset(),
        decided(digests) == last,
        forall|k: nat| k <= last ==> !(#[trigger] misleads(digests, k)),
        forall|k: nat| k <= last ==> !(#[trigger] misleads(other, k)),
    ensures
        blueprint(digests) == blueprint(other),
{
    reveal(blueprint);
    lemma_decided_order_free(digests, other, 0, last);
    if last <= MAX_ITERATIONS {
        assert(!misleads(digests, last) && !misleads(other, last));
        lemma_attempt_order_free(digests, other, last);
    }
}

proof fn lemma_settled_from(digests: Seq<u64>, number: nat, k: nat)
    requires
        decided_from(digests, number) <= MAX_ITERATIONS,
        attempt(digests, decided_from(digests, number)) is Settled,
        number <= k <= decided_from(digests, number),
    ensures
        !misleads(digests, k),
    decreases MAX_ITERATIONS + 1 - number,
{
    reveal(attempt);
    reveal(misleads);
    if number < k {
        lemma_settled_from(digests, number + 1, k);
    }
}

/// No attempt misleads up to the one that settles.
pub proof fn lemma_settled(digests: Seq<u64>, k: nat)
    requires
        blueprint(digests) is Ok,
        k <= decided(digests),
    ensures
        !misleads(digests, k),
{
    reveal(blueprint);
    lemma_settled_from(digests, 0, k);
}

/// The attempt that decides does not fail.
proof fn lemma_decided(digests: Seq<u64>, number: nat)
    ensures
        decided_from(digests, number) > MAX_ITERATIONS || !(attempt(
            digests,
            decided_from(digests, number),
        ) is Failed),
    decreases MAX_ITERATIONS + 1 - number,
{
    if number <= MAX_ITERATIONS && attempt(digests, number) is Failed {
        lemma_decided(digests, number + 1);
    }
}

/// Tries one seed and geometry after the other, until all hashes can be taken off.
pub fn plan(digests: &Vec<u64>) -> (r: Result<(u64, Geometry, Vec<Peeled>), BuildError>)
    requires
        1 <= digests.len() <= MAX_KEYS,
    ensures
        match r {
            Ok((seed, geometry, stack)) => blueprint(digests@) == Ok::<Blueprint, BuildError>(
                Blueprint { seed, geometry, stack: stack@ },
            ),
            Err(e) => blueprint(digests@) == Err::<Blueprint, BuildError>(e),
        },
{
    let size: u32 = digests.len() as u32;
    proof {
        reveal(blueprint);
        lemma_geometry_at(size, 0);
        sizing::lemma_initial_geometry(size);
    }
    let base: Geometry = Geometry::initialize_parameters(size);
    let cells: usize = base.cells();
    let mut rngcounter: u64 = 1;
    let mut iterations: u32 = 0;
    while iterations <= MAX_ITERATIONS
        invariant
            1 <= digests.len() <= MAX_KEYS,
            size == digests.len(),
            base == sizing::initial_geometry(size),
            cells == sizing::cell_count(size),
            iterations <= MAX_ITERATIONS + 1,
            rngcounter == hash::splitmix_state(iterations as nat),
            decided(digests@) == decided_from(digests@, iterations as nat),
        decreases MAX_ITERATIONS + 1 - iterations,
    {
        let seed: u64 = splitmix64(&mut rngcounter);
        proof {
            lemma_geometry_at(size, iterations as nat);
            assert(seed == hash::seed_of(iterations as nat));
        }
        let geometry: Geometry = if size > 4 && size < LARGE_SIZE && iterations % 4 == 2 {
            base.halved(Ghost(cells as int))
        } else {
            base
        };
        let bits: u32 = calculate_block_bits(geometry.segment_count);
        let order: Vec<u64> = arrange(digests, seed, bits);
        proof {
            reveal(blueprint);
            reveal(attempt);
            assert(order@ == attempt_order(digests@, iterations as nat));
            lemma_attempt_order(digests@, iterations as nat);
        }
        match tally(&geometry, &order, cells) {
            Tally::Duplicate => {
                return Err(BuildError::DuplicateKey);
            },
            Tally::Crowded => {},
            Tally::Counted { counts, sums } => {
                let stack: Vec<Peeled> = peel(&geometry, &order, counts, sums);
                if stack.len() == digests.len() {
                    return Ok((seed, geometry, stack));
                }
            },
        }
        iterations = iterations + 1;
    }
    Err(BuildError::Exhausted)
}

/// The values by hash: what the hash of each key is mapped to.
pub open spec fn pairs(hashes: Seq<u64>, values: Seq<u64>) -> Map<u64, u64>
    decreases hashes.len(),
{
    if hashes.len() == 0 {
        Map::empty()
    } else {
        pairs(hashes.drop_last(), values).insert(hashes.last(), values[hashes.len() - 1])
    }
}

/// The values of the hashes of a stack.
pub open spec fn stack_values(stack: Seq<Peeled>, hashes: Seq<u64>, values: Seq<u64>) -> Seq<u64> {
    stack.map_values(|p: Peeled| pairs(hashes, values)[p.hash])
}

/// The check words of the hashes of a stack.
pub open spec fn stack_checks(stack: Seq<Peeled>) -> Seq<u64> {
    stack.map_values(|p: Peeled| hash::check_word(p.hash))
}

/// Every hash has its value, where no two are equal.
pub proof fn lemma_pairs(hashes: Seq<u64>, values: Seq<u64>)
    requires
        hashes.no_duplicates(),
    ensures
        forall|i: int|
            0 <= i < hashes.len() ==> pairs(hashes, values).contains_key(#[trigger] hashes[i])
                && pairs(hashes, values)[hashes[i]] == values[i],
    decreases hashes.len(),
{
    if hashes.len() > 0 {
        lemma_pairs(hashes.drop_last(), values);
        assert forall|i: int| 0 <= i < hashes.len() implies pairs(hashes, values).contains_key(
            #[trigger] hashes[i],
        ) && pairs(hashes, values)[hashes[i]] == values[i] by {
            if i < hashes.len() - 1 {
                assert(hashes.drop_last()[i] == hashes[i]);
            }
        }
    }
}

/// The hash of every key is on the stack.
pub proof fn lemma_on_stack(stack: Seq<Peeled>, hashes: Seq<u64>, i: int)
    requires
        peeling::stack_hashes(stack).to_multiset() == hashes.to_multiset(),
        0 <= i < hashes.len(),
    ensures
        exists|k: int| 0 <= k < stack.len() && #[trigger] stack[k].hash == hashes[i],
{
    let on_stack = peeling::stack_hashes(stack);
    on_stack.to_multiset_ensures();
    hashes.to_multiset_ensures();
    assert(hashes.contains(hashes[i]));
    assert(on_stack.to_multiset().count(hashes[i]) > 0);
    assert(on_stack.contains(hashes[i]));
    let k = choose|k: int| 0 <= k < on_stack.len() && on_stack[k] == hashes[i];
    assert(stack[k].hash == hashes[i]);
}

/// Every hash of the stack is that of a key.
pub proof fn lemma_of_key(stack: Seq<Peeled>, hashes: Seq<u64>, k: int)
    requires
        peeling::stack_hashes(stack).to_multiset() == hashes.to_multiset(),
        0 <= k < stack.len(),
    ensures
        exists|i: int| 0 <= i < hashes.len() && #[trigger] hashes[i] == stack[k].hash,
{
    let on_stack = peeling::stack_hashes(stack);
    on_stack.to_multiset_ensures();
    hashes.to_multiset_ensures();
    assert(on_stack[k] == stack[k].hash);
    assert(on_stack.contains(stack[k].hash));
    assert(hashes.to_multiset().count(stack[k].hash) > 0);
    assert(hashes.contains(stack[k].hash));
}

/// The values of the hashes of a stack are combined as the values of the keys are.
pub proof fn lemma_stack_values_combine(
    stack: Seq<Peeled>,
    hashes: Seq<u64>,
    a: Seq<u64>,
    b: Seq<u64>,
    c: Seq<u64>,
)
    requires
        peeling::stack_hashes(stack).to_multiset() == hashes.to_multiset(),
        hashes.no_duplicates(),
        c.len() == hashes.len(),
        assignment::combines(a, b, c),
    ensures
        assignment::combines(
            stack_values(stack, hashes, a),
            stack_values(stack, hashes, b),
            stack_values(stack, hashes, c),
        ),
{
    lemma_pairs(hashes, a);
    lemma_pairs(hashes, b);
    lemma_pairs(hashes, c);
    assert forall|k: int| 0 <= k < stack.len() implies #[trigger] stack_values(stack, hashes, c)[k]
        == stack_values(stack, hashes, a)[k] ^ stack_values(stack, hashes, b)[k] by {
        lemma_of_key(stack, hashes, k);
        let i = choose|i: int| 0 <= i < hashes.len() && #[trigger] hashes[i] == stack[k].hash;
        assert(c[i] == a[i] ^ b[i]);
    }
}

/// The value of a hash does not depend on the order in which the hashes and their values come.
proof fn lemma_pairs_order_free(hashes: Seq<u64>, values: Seq<u64>, p: Seq<int>, wanted: u64)
    requires
        hashes.no_duplicates(),
        permutation::is_permutation(p, hashes.len()),
        hashes.contains(wanted),
    ensures
        pairs(permutation::permuted(hashes, p), permutation::permuted(values, p))[wanted]
            == pairs(hashes, values)[wanted],
{
    let (other, moved) = (permutation::permuted(hashes, p), permutation::permuted(values, p));
    permutation::lemma_permuted(hashes, p);
    hashes.to_multiset_ensures();
    other.to_multiset_ensures();
    lemma_pairs(hashes, values);
    lemma_pairs(other, moved);
    assert(hashes.to_multiset().count(wanted) > 0);
    assert(other.contains(wanted));
    let i = choose|i: int| 0 <= i < other.len() && other[i] == wanted;
    assert(pairs(other, moved)[other[i]] == moved[i]);
    assert(pairs(hashes, values)[hashes[p[i]]] == values[p[i]]);
}

/// The values of the hashes of a stack do not depend on the order in which the hashes and their
/// values come.
pub proof fn lemma_stack_values_order_free(
    stack: Seq<Peeled>,
    digests: Seq<u64>,
    values: Seq<u64>,
    p: Seq<int>,
    seed: u64,
)
    requires
        permutation::is_permutation(p, digests.len()),
        placement::mixed(digests, seed).no_duplicates(),
        peeling::stack_hashes(stack).to_multiset() == placement::mixed(
            digests,
            seed,
        ).to_multiset(),
    ensures
        stack_values(
            stack,
            placement::mixed(permutation::permuted(digests, p), seed),
            permutation::permuted(values, p),
        ) == stack_values(stack, placement::mixed(digests, seed), values),
{
    let hashes = placement::mixed(digests, seed);
    let other = placement::mixed(permutation::permuted(digests, p), seed);
    let moved = permutation::permuted(values, p);
    assert(other =~= permutation::permuted(hashes, p));
    assert forall|k: int| 0 <= k < stack.len() implies pairs(other, moved)[(
    #[trigger] stack[k]).hash] == pairs(hashes, values)[stack[k].hash] by {
        lemma_of_key(stack, hashes, k);
        lemma_pairs_order_free(hashes, values, p, stack[k].hash);
    }
    assert(stack_values(stack, other, moved) =~= stack_values(stack, hashes, values));
}

/// The values of the hashes of `stack`, which are the hashes of keys with the digests `digests`
/// and the values `values` under `seed`.
pub fn look_up_values(stack: &Vec<Peeled>, digests: &Vec<u64>, values: &[u64], seed: u64) -> (words:
    Vec<u64>)
    requires
        digests.len() == values@.len(),
        peeling::stack_hashes(stack@).to_multiset() == placement::mixed(
            digests@,
            seed,
        ).to_multiset(),
        placement::mixed(digests@, seed).no_duplicates(),
    ensures
        words@ == stack_values(stack@, placement::mixed(digests@, seed), values@),
{
    broadcast use vstd::std_specs::hash::group_hash_axioms;

    let ghost hashes = placement::mixed(digests@, seed);
    let mut hash_to_value: HashMap<u64, u64> = HashMap::with_capacity(digests.len());
    let mut i: usize = 0;
    proof {
        assert(hashes.take(0) =~= Seq::empty());
    }
    while i < digests.len()
        invariant
            i <= digests.len(),
            digests.len() == values@.len(),
            hashes == placement::mixed(digests@, seed),
            hash_to_value@ == pairs(hashes.take(i as int), values@),
        decreases digests.len() - i,
    {
        proof {
            assert(hashes.take(i as int + 1).drop_last() =~= hashes.take(i as int));
            assert(hashes.take(i as int + 1).last() == hashes[i as int]);
        }
        hash_to_value.insert(mixsplit(digests[i], seed), values[i]);
        i = i + 1;
    }
    proof {
        assert(hashes.take(digests.len() as int) =~= hashes);
        lemma_pairs(hashes, values@);
    }
    let mut words: Vec<u64> = Vec::with_capacity(stack.len());
    let mut k: usize = 0;
    while k < stack.len()
        invariant
            k <= stack.len(),
            hash_to_value@ == pairs(hashes, values@),
            peeling::stack_hashes(stack@).to_multiset() == hashes.to_multiset(),
            forall|i: int|
                0 <= i < hashes.len() ==> pairs(hashes, values@).contains_key(#[trigger] hashes[i]),
            words@ == stack_values(stack@.take(k as int), hashes, values@),
        decreases stack.len() - k,
    {
        let wanted: u64 = stack[k].hash;
        proof {
            lemma_of_key(stack@, hashes, k as int);
        }
        let word: u64 = match hash_to_value.get(&wanted) {
            Some(value) => *value,
            None => {
                assert(false);
                0
            },
        };
        words.push(word);
        proof {
            assert(stack_values(stack@.take(k as int + 1), hashes, values@) =~= stack_values(
                stack@.take(k as int),
                hashes,
                values@,
            ).push(word));
        }
        k = k + 1;
    }
    proof {
        assert(stack@.take(stack.len() as int) =~= stack@);
    }
    words
}

} // verus!

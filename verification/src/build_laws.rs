//! What holds of building a map: when it succeeds, which attempt decides, and what fills the cells.

use vstd::prelude::*;

use crate::construction::{Attempt, Blueprint, BuildError};
use crate::geometry::Geometry;
use crate::peeling::Peeled;
use crate::sizing::MAX_KEYS;
#[allow(unused_imports)]
use crate::const_map::MapModel;
#[allow(unused_imports)]
use crate::verified_const_map::VerifiedModel;
#[allow(unused_imports)]
use crate::{
    assignment, construction, geometry, hash, incidence, peel_laws, peeling, placement,
    sizing, verified_const_map,
};

verus! {

/// The hashes of keys with the digests `digests` in attempt number `number`, in the order of the
/// keys.
pub open spec fn hashes_at(digests: Seq<u64>, number: nat) -> Seq<u64> {
    Seq::new(digests.len(), |i: int| hash::mix(digests[i], hash::seed_of(number)))
}

/// In attempt number `number` no cell has 64 hashes or more.
pub open spec fn counts_hold(digests: Seq<u64>, number: nat) -> bool {
    forall|cell: int| #[trigger]
        peel_laws::count(
            construction::geometry_at(digests.len() as u32, number),
            hashes_at(digests, number),
            cell,
        ) < 64
}

/// In attempt number `number` the hashes can be taken off in the order `order`: each by a cell
/// that no later one has.
pub open spec fn can_be_peeled(digests: Seq<u64>, number: nat, order: Seq<Peeled>) -> bool {
    let g = construction::geometry_at(digests.len() as u32, number);
    &&& order.map_values(|p: Peeled| p.hash).to_multiset() == hashes_at(
        digests,
        number,
    ).to_multiset()
    &&& forall|i: int| 0 <= i < order.len() ==> #[trigger] order[i].found < 3
    &&& forall|i: int, j: int|
        0 <= i < j < order.len() ==> !g.touches(
            (#[trigger] order[j]).hash,
            g.cell((#[trigger] order[i]).hash, order[i].found as int),
        )
}

/// In an attempt the hashes of all keys are taken, in another order than that of the keys.
pub proof fn lemma_attempt_takes_all_hashes(digests: Seq<u64>, number: nat)
    requires
        1 <= digests.len() <= MAX_KEYS,
    ensures
        construction::attempt_order(digests, number).to_multiset() == hashes_at(
            digests,
            number,
        ).to_multiset(),
        construction::attempt_order(digests, number) == placement::arrangement(
            hashes_at(digests, number),
            placement::block_bits(
                construction::geometry_at(digests.len() as u32, number).segment_count,
            ),
        ),
        construction::attempt_order(digests, number).len() == digests.len(),
{
    let g = construction::geometry_at(digests.len() as u32, number);
    let hashes = placement::mixed(digests, hash::seed_of(number));
    assert(hashes =~= hashes_at(digests, number));
    placement::lemma_block_bits(g.segment_count);
    placement::lemma_arrangement(hashes, placement::block_bits(g.segment_count));
}

proof fn lemma_crowded_order(digests: Seq<u64>, number: nat)
    requires
        1 <= digests.len() <= MAX_KEYS,
    ensures
        counts_hold(digests, number) <==> !incidence::crowded(
            construction::geometry_at(digests.len() as u32, number),
            construction::attempt_order(digests, number),
        ),
{
    let g = construction::geometry_at(digests.len() as u32, number);
    let (a, b) = (construction::attempt_order(digests, number), hashes_at(digests, number));
    lemma_attempt_takes_all_hashes(digests, number);
    if incidence::crowded(g, a) {
        let cell = choose|cell: int| #[trigger] incidence::load(g, a, cell) >= 64;
        incidence::lemma_order_free(g, a, b, cell);
        peel_laws::lemma_load_counts(g, b, cell);
        assert(peel_laws::count(g, b, cell) >= 64);
    }
    if !counts_hold(digests, number) {
        let cell = choose|cell: int| !(#[trigger] peel_laws::count(g, b, cell) < 64);
        incidence::lemma_order_free(g, a, b, cell);
        peel_laws::lemma_load_counts(g, b, cell);
        assert(incidence::load(g, a, cell) >= 64);
    }
}

/// How an attempt ends where no cell has 64 hashes or more: with a duplicate where a hash, when it
/// comes, finds its equal alone in a cell; else it settles where all hashes are taken off, and fails
/// where they are not.
pub proof fn lemma_how_an_attempt_ends(digests: Seq<u64>, number: nat)
    requires
        1 <= digests.len() <= MAX_KEYS,
    ensures
        ({
            let size = digests.len() as u32;
            let g = construction::geometry_at(size, number);
            let order = construction::attempt_order(digests, number);
            let stack = peeling::peel_order(
                g,
                hashes_at(digests, number),
                sizing::cell_count(size) as nat,
            );
            let doubled = exists|i: int, j: int, cell: int| #[trigger]
                peel_laws::meets_its_equal(g, order, i, j, cell);
            &&& doubled ==> construction::attempt(digests, number) == Attempt::Duplicate
            &&& counts_hold(digests, number) && !doubled ==> construction::attempt(
                digests,
                number,
            ) == if stack.len() == digests.len() {
                Attempt::Settled(stack)
            } else {
                Attempt::Failed
            }
            &&& !counts_hold(digests, number) ==> !(construction::attempt(
                digests,
                number,
            ) is Settled)
        }),
{
    reveal(construction::attempt);
    let size = digests.len() as u32;
    let g = construction::geometry_at(size, number);
    let order = construction::attempt_order(digests, number);
    lemma_attempt_takes_all_hashes(digests, number);
    lemma_crowded_order(digests, number);
    peel_laws::lemma_duplicate_is_shown(g, order);
    peeling::lemma_order_free(
        g,
        order,
        hashes_at(digests, number),
        sizing::cell_count(size) as nat,
    );
}

proof fn lemma_different_hashes(digests: Seq<u64>, number: nat)
    requires
        1 <= digests.len() <= MAX_KEYS,
        digests.no_duplicates(),
    ensures
        construction::attempt_order(digests, number).no_duplicates(),
{
    let hashes = hashes_at(digests, number);
    assert forall|i: int, j: int|
        0 <= i < hashes.len() && 0 <= j < hashes.len() && i != j implies hashes[i]
        != hashes[j] by {
        if hashes[i] == hashes[j] {
            hash::lemma_mix_injective(digests[i], digests[j], hash::seed_of(number));
        }
    }
    lemma_attempt_takes_all_hashes(digests, number);
    hashes.lemma_multiset_has_no_duplicates();
    construction::attempt_order(digests, number).lemma_multiset_has_no_duplicates_conv();
}

/// An attempt on different keys settles where their hashes can be taken off in any order, as long
/// as no cell has 64 of them or more. And it never shows a duplicate then.
pub proof fn lemma_attempt_settles(digests: Seq<u64>, number: nat, order: Seq<Peeled>)
    requires
        1 <= digests.len() <= MAX_KEYS,
        digests.no_duplicates(),
        counts_hold(digests, number),
    ensures
        construction::attempt(digests, number) != Attempt::Duplicate,
        can_be_peeled(digests, number, order) ==> construction::attempt(digests, number) is Settled,
        construction::attempt(digests, number) matches Attempt::Settled(stack) ==> can_be_peeled(
            digests,
            number,
            stack,
        ),
{
    let size = digests.len() as u32;
    let g = construction::geometry_at(size, number);
    let taken = construction::attempt_order(digests, number);
    let hashes = hashes_at(digests, number);
    let cells = sizing::cell_count(size) as nat;
    lemma_how_an_attempt_ends(digests, number);
    lemma_different_hashes(digests, number);
    construction::lemma_geometry_at(size, number);
    assert forall|i: int, j: int, cell: int| !(#[trigger] peel_laws::meets_its_equal(
        g,
        taken,
        i,
        j,
        cell,
    )) by {
        if peel_laws::meets_its_equal(g, taken, i, j, cell) {
            assert(taken[i] == taken[j]);
        }
    }
    if can_be_peeled(digests, number, order) {
        assert(peeling::stack_hashes(order) =~= order.map_values(|p: Peeled| p.hash));
        peel_laws::lemma_whatever_peels_is_peeled(g, hashes, cells, order);
    }
    if construction::attempt(digests, number) is Settled {
        let stack = peeling::peel_order(g, hashes, cells);
        peeling::lemma_peel_order(g, hashes, cells);
        assert(peeling::stack_hashes(stack) =~= stack.map_values(|p: Peeled| p.hash));
        assert forall|i: int, j: int| 0 <= i < j < stack.len() implies !g.touches(
            (#[trigger] stack[j]).hash,
            g.cell((#[trigger] stack[i]).hash, stack[i].found as int),
        ) by {
            assert(!g.touches(stack[j].hash, stack[i].own_cell(g)));
        }
    }
}

proof fn lemma_decided_at(digests: Seq<u64>, from: nat, number: nat)
    requires
        from <= number <= 101,
        forall|k: nat|
            from <= k < number ==> #[trigger] construction::attempt(digests, k) is Failed,
        number <= 100 ==> !(construction::attempt(digests, number) is Failed),
    ensures
        construction::decided_from(digests, from) == number,
    decreases number - from,
{
    if from < number {
        assert(construction::attempt(digests, from) is Failed);
        lemma_decided_at(digests, from + 1, number);
    }
}

/// The first attempt that does not fail decides, with its own seed and geometry, and of 101
/// attempts that all fail nothing comes.
pub proof fn lemma_first_attempt_decides(digests: Seq<u64>, number: nat)
    requires
        number <= 101,
        forall|k: nat| k < number ==> #[trigger] construction::attempt(digests, k) is Failed,
    ensures
        number == 101 ==> construction::blueprint(digests) == Err::<Blueprint, BuildError>(
            BuildError::Exhausted,
        ),
        number <= 100 ==> match construction::attempt(digests, number) {
            Attempt::Failed => true,
            Attempt::Duplicate => construction::blueprint(digests) == Err::<Blueprint, BuildError>(
                BuildError::DuplicateKey,
            ),
            Attempt::Settled(stack) => construction::blueprint(digests) == Ok::<
                Blueprint,
                BuildError,
            >(
                Blueprint {
                    seed: hash::seed_of(number),
                    geometry: construction::geometry_at(digests.len() as u32, number),
                    stack,
                },
            ),
        },
{
    reveal(construction::blueprint);
    if number == 101 || !(construction::attempt(digests, number) is Failed) {
        lemma_decided_at(digests, 0, number);
    }
}

/// What is built of keys and values: an error where there are not as many of one as of the other,
/// an empty map of none, and else a map where the attempts come to one, and their error where they
/// do not. Whether and why it fails is the same for both maps.
pub proof fn lemma_building_succeeds_for_both_or_none(digests: Seq<u64>, values: Seq<u64>)
    ensures
        digests.len() != values.len() ==> MapModel::of(digests, values) == Err::<
            MapModel,
            BuildError,
        >(BuildError::LengthMismatch),
        digests.len() == 0 && values.len() == 0 ==> (MapModel::of(digests, values) matches Ok(m)
            && m.data.len() == 0 && m.seed == 0 && m.geometry.segment_length == 0
            && m.geometry.segment_count == 0 && m.geometry.segment_length_mask == 0
            && m.geometry.segment_count_length == 0),
        digests.len() > 0 && digests.len() == values.len() ==> {
            &&& MapModel::of(digests, values) is Ok == construction::blueprint(digests) is Ok
            &&& construction::blueprint(digests) matches Err(e) ==> MapModel::of(digests, values)
                == Err::<MapModel, BuildError>(e)
        },
        VerifiedModel::of(digests, values) is Ok == MapModel::of(digests, values) is Ok,
        MapModel::of(digests, values) matches Err(e) ==> VerifiedModel::of(digests, values) == Err::<
            VerifiedModel,
            BuildError,
        >(e),
        MapModel::of(digests, values) matches Ok(m) ==> VerifiedModel::of(
            digests,
            values,
        )->Ok_0.unchecked() == m,
        digests.len() == 0 && values.len() == 0 ==> VerifiedModel::of(
            digests,
            values,
        )->Ok_0.checks.len() == 0,
{
}

proof fn lemma_settles_by(digests: Seq<u64>, from: nat, number: nat)
    requires
        1 <= digests.len() <= MAX_KEYS,
        from <= number <= 100,
        forall|k: nat|
            from <= k <= number ==> (#[trigger] construction::attempt(digests, k))
                != Attempt::Duplicate,
        construction::attempt(digests, number) is Settled,
    ensures
        from <= construction::decided_from(digests, from) <= number,
        construction::attempt(digests, construction::decided_from(digests, from)) is Settled,
    decreases number - from,
{
    assert(construction::attempt(digests, from) != Attempt::Duplicate);
    if construction::attempt(digests, from) is Failed {
        lemma_settles_by(digests, from + 1, number);
    }
}

/// Different keys are built into a map, of either kind, where in some of the first 101 attempts
/// their hashes can be taken off in any order, and no cell has 64 of them or more in the attempts up
/// to it.
pub proof fn lemma_different_keys_are_built(
    digests: Seq<u64>,
    values: Seq<u64>,
    number: nat,
    order: Seq<Peeled>,
)
    requires
        1 <= digests.len() <= MAX_KEYS,
        digests.len() == values.len(),
        digests.no_duplicates(),
        number <= 100,
        can_be_peeled(digests, number, order),
        forall|k: nat| k <= number ==> #[trigger] counts_hold(digests, k),
    ensures
        MapModel::of(digests, values) is Ok,
        VerifiedModel::of(digests, values) is Ok,
        exists|k: nat|
            k <= number && MapModel::of(digests, values)->Ok_0.seed == #[trigger] hash::seed_of(k),
{
    assert forall|k: nat| k <= number implies (#[trigger] construction::attempt(digests, k))
        != Attempt::Duplicate by {
        assert(counts_hold(digests, k));
        lemma_attempt_settles(digests, k, order);
    }
    assert(counts_hold(digests, number));
    lemma_attempt_settles(digests, number, order);
    lemma_settles_by(digests, 0, number);
    reveal(construction::blueprint);
    assert(MapModel::of(digests, values)->Ok_0.seed == hash::seed_of(
        construction::decided(digests),
    ));
}

/// Two equal keys are told as such where in the first attempt no key with another digest has one of
/// their cells. So they are where there are no others.
pub proof fn lemma_equal_keys_are_told(
    digests: Seq<u64>,
    values: Seq<u64>,
    i: int,
    j: int,
    cell: int,
)
    requires
        1 <= digests.len() <= MAX_KEYS,
        digests.len() == values.len(),
        0 <= i < j < digests.len(),
        digests[i] == digests[j],
        ({
            let g = construction::geometry_at(digests.len() as u32, 0);
            let seed = hash::seed_of(0);
            &&& g.touches(hash::mix(digests[i], seed), cell)
            &&& forall|k: int|
                0 <= k < digests.len() && digests[k] != digests[i] ==> !g.touches(
                    hash::mix(#[trigger] digests[k], seed),
                    cell,
                )
        }),
    ensures
        MapModel::of(digests, values) == Err::<MapModel, BuildError>(BuildError::DuplicateKey),
        VerifiedModel::of(digests, values) == Err::<VerifiedModel, BuildError>(
            BuildError::DuplicateKey,
        ),
{
    broadcast use vstd::multiset::group_multiset_axioms;

    let g = construction::geometry_at(digests.len() as u32, 0);
    let hashes = hashes_at(digests, 0);
    let order = construction::attempt_order(digests, 0);
    let twin = hash::mix(digests[i], hash::seed_of(0));
    lemma_attempt_takes_all_hashes(digests, 0);
    hashes.to_multiset_ensures();
    order.to_multiset_ensures();
    assert(hashes[i] == twin && hashes[j] == twin);
    if order.to_multiset().count(twin) <= 1 {
        vstd::seq_lib::to_multiset_remove(hashes, j);
        let rest = hashes.remove(j);
        rest.to_multiset_ensures();
        assert(rest[i] == twin);
        assert(rest.contains(twin));
        assert(rest.to_multiset().count(twin) > 0);
        assert(false);
    }
    assert(order.contains(twin));
    let a = choose|a: int| 0 <= a < order.len() && order[a] == twin;
    vstd::seq_lib::to_multiset_remove(order, a);
    let rest = order.remove(a);
    rest.to_multiset_ensures();
    assert(rest.to_multiset().count(twin) > 0);
    assert(rest.contains(twin));
    let b = choose|b: int| 0 <= b < rest.len() && rest[b] == twin;
    let c = if b < a {
        b
    } else {
        b + 1
    };
    assert(order[c] == twin && c != a);
    let (first, second) = lemma_first_two(order, twin, a, c);
    assert forall|k: int| 0 <= k < second && k != first implies !g.touches(
        #[trigger] order[k],
        cell,
    ) by {
        assert(order.contains(order[k]));
        assert(hashes.to_multiset().count(order[k]) > 0);
        assert(hashes.contains(order[k]));
        let m = choose|m: int| 0 <= m < hashes.len() && hashes[m] == order[k];
        assert(digests[m] != digests[i]);
    }
    assert(peel_laws::meets_its_equal(g, order, first, second, cell));
    lemma_how_an_attempt_ends(digests, 0);
    lemma_first_attempt_decides(digests, 0);
}

/// Where a hash that is there twice comes first and next.
proof fn lemma_first_two(order: Seq<u64>, twin: u64, a: int, b: int) -> (r: (int, int))
    requires
        0 <= a < order.len(),
        0 <= b < order.len(),
        a != b,
        order[a] == twin,
        order[b] == twin,
    ensures
        0 <= r.0 < r.1 < order.len(),
        order[r.0] == twin,
        order[r.1] == twin,
        forall|k: int| 0 <= k < r.1 && k != r.0 ==> #[trigger] order[k] != twin,
    decreases order.len(),
{
    let (low, high) = if a < b {
        (a, b)
    } else {
        (b, a)
    };
    if exists|k: int| 0 <= k < high && k != low && #[trigger] order[k] == twin {
        let k = choose|k: int| 0 <= k < high && k != low && #[trigger] order[k] == twin;
        let front = order.take(high);
        let r = lemma_first_two(front, twin, low, k);
        assert forall|m: int| 0 <= m < r.1 && m != r.0 implies #[trigger] order[m] != twin by {
            assert(front[m] == order[m]);
        }
        r
    } else {
        (low, high)
    }
}

proof fn lemma_unowned_from(
    g: Geometry,
    stack: Seq<Peeled>,
    words: Seq<u64>,
    cells: nat,
    from: int,
    c: int,
)
    requires
        g.divides(cells as int),
        0 <= from <= stack.len(),
        0 <= c < cells,
        forall|i: int|
            0 <= i < stack.len() ==> g.cell((#[trigger] stack[i]).hash, stack[i].found as int) != c,
    ensures
        assignment::assigned_from(g, stack, words, cells, from).len() == cells,
        assignment::assigned_from(g, stack, words, cells, from)[c] == 0,
    decreases stack.len() - from,
{
    if from < stack.len() {
        lemma_unowned_from(g, stack, words, cells, from + 1, c);
        geometry::lemma_cells_ordered(g, cells as int, stack[from].hash);
        assert(g.cell(stack[from].hash, stack[from].found as int) != c);
    }
}

/// What fills the cells of a map. It has the seed and the geometry of the attempt that decided.
/// Every key finds its value, and its fingerprint, in its three cells, and the cells by which no
/// hash was taken off hold zero: there is one way only to fill the cells so.
pub proof fn lemma_what_fills_the_cells(digests: Seq<u64>, values: Seq<u64>)
    requires
        1 <= digests.len() <= MAX_KEYS,
        VerifiedModel::of(digests, values) is Ok,
    ensures
        construction::blueprint(digests) is Ok,
        ({
            let b = construction::blueprint(digests)->Ok_0;
            let m = VerifiedModel::of(digests, values)->Ok_0;
            &&& m.seed == b.seed
            &&& m.geometry == b.geometry
            &&& m.data.len() == (b.geometry.segment_count + 2) * b.geometry.segment_length
            &&& m.checks.len() == m.data.len()
            &&& forall|i: int|
                0 <= i < digests.len() ==> ({
                    let h = hash::mix(#[trigger] digests[i], m.seed);
                    let (x, y, z) = (
                        m.geometry.first(h) as int,
                        m.geometry.second(h) as int,
                        m.geometry.third(h) as int,
                    );
                    &&& m.data[x] ^ m.data[y] ^ m.data[z] == values[i]
                    &&& m.checks[x] ^ m.checks[y] ^ m.checks[z] == h ^ (h >> 32)
                })
            &&& forall|c: int|
                0 <= c < m.data.len() && (forall|k: int|
                    0 <= k < b.stack.len() ==> b.geometry.cell(
                        (#[trigger] b.stack[k]).hash,
                        b.stack[k].found as int,
                    ) != c) ==> #[trigger] m.data[c] == 0 && m.checks[c] == 0
        }),
{
    let b = construction::blueprint(digests)->Ok_0;
    let m = VerifiedModel::of(digests, values)->Ok_0;
    construction::lemma_blueprint(digests);
    verified_const_map::lemma_built_map(digests, values);
    let cells = m.data.len();
    let words = construction::stack_values(
        b.stack,
        placement::mixed(digests, b.seed),
        values,
    );
    let checks = construction::stack_checks(b.stack);
    assert forall|i: int| 0 <= i < digests.len() implies ({
        let h = hash::mix(#[trigger] digests[i], m.seed);
        let (x, y, z) = (
            m.geometry.first(h) as int,
            m.geometry.second(h) as int,
            m.geometry.third(h) as int,
        );
        &&& m.data[x] ^ m.data[y] ^ m.data[z] == values[i]
        &&& m.checks[x] ^ m.checks[y] ^ m.checks[z] == h ^ (h >> 32)
    }) by {
        assert(m.holds(digests[i], values[i]));
    }
    assert forall|c: int|
        0 <= c < m.data.len() && (forall|k: int|
            0 <= k < b.stack.len() ==> b.geometry.cell(
                (#[trigger] b.stack[k]).hash,
                b.stack[k].found as int,
            ) != c) implies #[trigger] m.data[c] == 0 && m.checks[c] == 0 by {
        lemma_unowned_from(b.geometry, b.stack, words, cells, 0, c);
        lemma_unowned_from(b.geometry, b.stack, checks, cells, 0, c);
    }
}

/// How an attempt ends, whatever the cells have: with a duplicate where one is shown, else without
/// success where a cell has 64 hashes or more or not all can be taken off, and else it settles.
pub proof fn lemma_how_any_attempt_ends(digests: Seq<u64>, number: nat)
    requires
        1 <= digests.len() <= MAX_KEYS,
    ensures
        ({
            let size = digests.len() as u32;
            let g = construction::geometry_at(size, number);
            let order = construction::attempt_order(digests, number);
            let stack = peeling::peel_order(
                g,
                hashes_at(digests, number),
                sizing::cell_count(size) as nat,
            );
            let shown = exists|j: int, cell: int| #[trigger]
                peel_laws::folds_away(g, order, j, cell);
            construction::attempt(digests, number) == if shown {
                Attempt::Duplicate
            } else if counts_hold(digests, number) && stack.len() == digests.len() {
                Attempt::Settled(stack)
            } else {
                Attempt::Failed
            }
        }),
{
    reveal(construction::attempt);
    let size = digests.len() as u32;
    let g = construction::geometry_at(size, number);
    let order = construction::attempt_order(digests, number);
    lemma_attempt_takes_all_hashes(digests, number);
    lemma_crowded_order(digests, number);
    peel_laws::lemma_duplicate_is_shown_by_bytes(g, order);
    peeling::lemma_order_free(
        g,
        order,
        hashes_at(digests, number),
        sizing::cell_count(size) as nat,
    );
}

} // verus!

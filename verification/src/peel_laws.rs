//! What holds of counting the hashes of cells and of taking hashes off.

use vstd::prelude::*;

use crate::geometry::Geometry;
use crate::peeling::{Peeled, Peeling};
#[allow(unused_imports)]
use crate::{geometry, incidence, peeling};

verus! {

/// How many of `hashes` have the cell `cell`.
pub open spec fn count(g: Geometry, hashes: Seq<u64>, cell: int) -> nat {
    hashes.filter(|hash: u64| g.touches(hash, cell)).len()
}

/// The load of a cell is the number of hashes that have it.
pub proof fn lemma_load_counts(g: Geometry, hashes: Seq<u64>, cell: int)
    ensures
        incidence::load(g, hashes, cell) == count(g, hashes, cell),
    decreases hashes.len(),
{
    reveal(Seq::filter);
    if hashes.len() > 0 {
        lemma_load_counts(g, hashes.drop_last(), cell);
    }
}

/// Cells are crowded where one of them has 64 hashes or more.
pub proof fn lemma_crowded_from_64_on(g: Geometry, hashes: Seq<u64>)
    ensures
        incidence::crowded(g, hashes) <==> exists|cell: int| #[trigger] count(g, hashes, cell) >= 64,
{
    if incidence::crowded(g, hashes) {
        let cell = choose|cell: int| #[trigger] incidence::load(g, hashes, cell) >= 64;
        lemma_load_counts(g, hashes, cell);
        assert(count(g, hashes, cell) >= 64);
    }
    if exists|cell: int| #[trigger] count(g, hashes, cell) >= 64 {
        let cell = choose|cell: int| #[trigger] count(g, hashes, cell) >= 64;
        lemma_load_counts(g, hashes, cell);
        assert(incidence::load(g, hashes, cell) >= 64);
    }
}

proof fn lemma_load_none(g: Geometry, hashes: Seq<u64>, cell: int)
    requires
        forall|i: int| 0 <= i < hashes.len() ==> !g.touches(#[trigger] hashes[i], cell),
    ensures
        incidence::load(g, hashes, cell) == 0,
    decreases hashes.len(),
{
    if hashes.len() > 0 {
        let front = hashes.drop_last();
        assert forall|i: int| 0 <= i < front.len() implies !g.touches(#[trigger] front[i], cell) by {
            assert(front[i] == hashes[i]);
        }
        lemma_load_none(g, front, cell);
        assert(!g.touches(hashes[hashes.len() - 1], cell));
    }
}

/// A cell that one hash has and no other has the load 1.
proof fn lemma_load_single(g: Geometry, hashes: Seq<u64>, cell: int, k: int)
    requires
        0 <= k < hashes.len(),
        g.touches(hashes[k], cell),
        forall|i: int| 0 <= i < hashes.len() && i != k ==> !g.touches(#[trigger] hashes[i], cell),
    ensures
        incidence::load(g, hashes, cell) == 1,
{
    let rest = hashes.remove(k);
    assert forall|i: int| 0 <= i < rest.len() implies !g.touches(#[trigger] rest[i], cell) by {
        if i < k {
            assert(rest[i] == hashes[i]);
        } else {
            assert(rest[i] == hashes[i + 1]);
        }
    }
    lemma_load_none(g, rest, cell);
    incidence::lemma_remove(g, hashes, k, cell);
}

/// Hash number `j` is equal to the earlier one number `i`, and of the hashes up to it no other has
/// the cell `cell` of the two.
pub open spec fn meets_its_equal(g: Geometry, hashes: Seq<u64>, i: int, j: int, cell: int) -> bool {
    &&& 0 <= i < j < hashes.len()
    &&& hashes[i] == hashes[j]
    &&& g.touches(hashes[j], cell)
    &&& forall|k: int| 0 <= k < j && k != i ==> !g.touches(#[trigger] hashes[k], cell)
}

proof fn lemma_equal_shows(g: Geometry, hashes: Seq<u64>, i: int, j: int, cell: int)
    requires
        meets_its_equal(g, hashes, i, j, cell),
    ensures
        incidence::shows_duplicate(g, hashes),
{
    let front = hashes.take(j);
    let upto = hashes.take(j + 1);
    assert(upto =~= front.push(hashes[j]));
    assert forall|k: int| 0 <= k < front.len() && k != i implies !g.touches(
        #[trigger] front[k],
        cell,
    ) by {
        assert(front[k] == hashes[k]);
    }
    lemma_load_single(g, front, cell, i);
    incidence::lemma_load_one(g, front, cell, i);
    incidence::lemma_push(g, front, hashes[j], cell);
    let x = hashes[j];
    let t = incidence::kind(g, x, cell);
    assert(x ^ x == 0) by (bit_vector);
    assert(t ^ t == 0) by (bit_vector);
    assert(incidence::looks_doubled(g, upto, cell));
    assert(incidence::doubles_at(g, hashes, j));
}

proof fn lemma_shows_equal(g: Geometry, hashes: Seq<u64>)
    requires
        incidence::shows_duplicate(g, hashes),
        !incidence::crowded(g, hashes),
    ensures
        exists|i: int, j: int, cell: int| #[trigger] meets_its_equal(g, hashes, i, j, cell),
{
    let j = choose|j: int| 0 <= j < hashes.len() && #[trigger] incidence::doubles_at(g, hashes, j);
    let upto = hashes.take(j + 1);
    let cell = if incidence::looks_doubled(g, upto, g.first(hashes[j]) as int) {
        g.first(hashes[j]) as int
    } else if incidence::looks_doubled(g, upto, g.second(hashes[j]) as int) {
        g.second(hashes[j]) as int
    } else {
        g.third(hashes[j]) as int
    };
    let front = hashes.take(j);
    assert(upto =~= front.push(hashes[j]));
    lemma_load_part(g, hashes, j + 1, cell);
    assert(incidence::load(g, hashes, cell) < 64);
    incidence::lemma_tag_bounded(g, upto, cell);
    assert(incidence::load(g, upto, cell) == 2);
    incidence::lemma_push(g, front, hashes[j], cell);
    let i = incidence::lemma_load_positive(g, front, cell);
    incidence::lemma_load_one(g, front, cell, i);
    let (x, y) = (hashes[i], hashes[j]);
    assert(x ^ y == 0 ==> x == y) by (bit_vector);
    incidence::lemma_remove(g, front, i, cell);
    incidence::lemma_load_zero(g, front.remove(i), cell);
    assert forall|k: int| 0 <= k < j && k != i implies !g.touches(#[trigger] hashes[k], cell) by {
        if k < i {
            assert(front.remove(i)[k] == hashes[k]);
        } else {
            assert(front.remove(i)[k - 1] == hashes[k]);
        }
    }
    assert(meets_its_equal(g, hashes, i, j, cell));
}

proof fn lemma_load_part(g: Geometry, hashes: Seq<u64>, i: int, cell: int)
    requires
        0 <= i <= hashes.len(),
    ensures
        incidence::load(g, hashes.take(i), cell) <= incidence::load(g, hashes, cell),
    decreases hashes.len(),
{
    if i < hashes.len() {
        assert(hashes.take(i) =~= hashes.drop_last().take(i));
        lemma_load_part(g, hashes.drop_last(), i, cell);
    } else {
        assert(hashes.take(i) =~= hashes);
    }
}

/// A duplicate is shown where a hash, when it comes, finds its equal alone in a cell of theirs. And
/// only there, unless a cell has 64 hashes or more.
pub proof fn lemma_duplicate_is_shown(g: Geometry, hashes: Seq<u64>)
    ensures
        (exists|i: int, j: int, cell: int| #[trigger] meets_its_equal(g, hashes, i, j, cell))
            ==> incidence::shows_duplicate(g, hashes),
        !incidence::crowded(g, hashes) && incidence::shows_duplicate(g, hashes) ==> exists|
            i: int,
            j: int,
            cell: int,
        | #[trigger]
            meets_its_equal(g, hashes, i, j, cell),
{
    if exists|i: int, j: int, cell: int| #[trigger] meets_its_equal(g, hashes, i, j, cell) {
        let (i, j, cell) = choose|i: int, j: int, cell: int| #[trigger]
            meets_its_equal(g, hashes, i, j, cell);
        lemma_equal_shows(g, hashes, i, j, cell);
    }
    if !incidence::crowded(g, hashes) && incidence::shows_duplicate(g, hashes) {
        lemma_shows_equal(g, hashes);
    }
}

/// Every cell that one hash has is to be looked at.
spec fn all_queued(g: Geometry, p: Peeling, cells: int) -> bool {
    forall|c: int|
        0 <= c < cells && #[trigger] incidence::load(g, p.remaining, c) == 1 ==> p.queue.contains(c)
}

proof fn lemma_lonely(g: Geometry, hashes: Seq<u64>, cells: nat)
    ensures
        forall|c: int| #[trigger]
            peeling::lonely_cells(g, hashes, cells).contains(c) <==> 0 <= c < cells
                && incidence::load(g, hashes, c) == 1,
        forall|i: int, j: int|
            0 <= i < j < peeling::lonely_cells(g, hashes, cells).len()
                ==> #[trigger] peeling::lonely_cells(g, hashes, cells)[i]
                < #[trigger] peeling::lonely_cells(g, hashes, cells)[j],
    decreases cells,
{
    let all = peeling::lonely_cells(g, hashes, cells);
    if cells > 0 {
        let before = peeling::lonely_cells(g, hashes, (cells - 1) as nat);
        lemma_lonely(g, hashes, (cells - 1) as nat);
        assert forall|c: int| #[trigger] all.contains(c) <==> 0 <= c < cells && incidence::load(
            g,
            hashes,
            c,
        ) == 1 by {
            if incidence::load(g, hashes, cells - 1) == 1 {
                if before.contains(c) {
                    let i = choose|i: int| 0 <= i < before.len() && before[i] == c;
                    assert(all[i] == c);
                }
                if c == cells - 1 {
                    assert(all[before.len() as int] == c);
                }
                if all.contains(c) && c != cells - 1 {
                    let i = choose|i: int| 0 <= i < all.len() && all[i] == c;
                    assert(before[i] == c);
                }
            }
            assert(before.contains(c) <==> 0 <= c < cells - 1 && incidence::load(g, hashes, c)
                == 1);
        }
        assert forall|i: int, j: int| 0 <= i < j < all.len() implies #[trigger] all[i]
            < #[trigger] all[j] by {
            assert(before.contains(before[i]));
            if j < before.len() {
                assert(before[i] < before[j]);
            }
        }
    }
}

proof fn lemma_enqueued(g: Geometry, hashes: Seq<u64>, queue: Seq<int>, cell: int, c: int)
    ensures
        queue.contains(c) ==> peeling::enqueue(g, hashes, queue, cell).contains(c),
        incidence::load(g, hashes, cell) == 2 ==> peeling::enqueue(
            g,
            hashes,
            queue,
            cell,
        ).contains(cell),
{
    let q = peeling::enqueue(g, hashes, queue, cell);
    if queue.contains(c) {
        let i = choose|i: int| 0 <= i < queue.len() && queue[i] == c;
        assert(q[i] == c);
    }
    if incidence::load(g, hashes, cell) == 2 {
        assert(q[queue.len() as int] == cell);
    }
}

proof fn lemma_step_keeps_queued(g: Geometry, p: Peeling, cells: int)
    requires
        p.queue.len() > 0,
        all_queued(g, p, cells),
    ensures
        all_queued(g, peeling::peel_step(g, p), cells),
{
    let cell = p.queue.last();
    let rest = p.queue.drop_last();
    let next = peeling::peel_step(g, p);
    assert forall|c: int|
        0 <= c < cells && #[trigger] incidence::load(
            g,
            next.remaining,
            c,
        ) == 1 implies next.queue.contains(c) by {
        if incidence::load(g, p.remaining, cell) != 1 {
            let i = choose|i: int| 0 <= i < p.queue.len() && p.queue[i] == c;
            assert(p.queue.contains(c));
            assert(rest[i] == c);
        } else {
            let w = incidence::lemma_load_positive(g, p.remaining, cell);
            assert(g.touches(p.remaining[w], cell));
            let k = peeling::holder(g, p.remaining, cell);
            let hash = p.remaining[k];
            let found = incidence::kind(g, hash, cell);
            let (a, b) = (g.cell(hash, found + 1), g.cell(hash, found + 2));
            incidence::lemma_remove(g, p.remaining, k, cell);
            incidence::lemma_remove(g, p.remaining, k, c);
            let queue = peeling::enqueue(g, p.remaining, rest, a);
            lemma_enqueued(g, p.remaining, rest, a, c);
            lemma_enqueued(g, p.remaining, queue, b, c);
            if g.touches(hash, c) {
                assert(c != cell);
                assert(c == a || c == b);
                if c == a {
                    assert(queue.contains(c));
                }
            } else {
                assert(p.queue.contains(c));
                let i = choose|i: int| 0 <= i < p.queue.len() && p.queue[i] == c;
                assert(rest[i] == c);
            }
        }
    }
}

proof fn lemma_peeled_out(g: Geometry, p: Peeling, cells: int)
    requires
        all_queued(g, p, cells),
    ensures
        forall|c: int|
            0 <= c < cells ==> #[trigger] incidence::load(g, peeling::peel_on(g, p).remaining, c)
                != 1,
    decreases p.remaining.len(), p.queue.len(),
{
    if p.queue.len() > 0 {
        if incidence::load(g, p.remaining, p.queue.last()) == 1 {
            let k = incidence::lemma_load_positive(g, p.remaining, p.queue.last());
            assert(g.touches(p.remaining[k], p.queue.last()));
        }
        lemma_step_keeps_queued(g, p, cells);
        lemma_peeled_out(g, peeling::peel_step(g, p), cells);
        assert(peeling::peel_on(g, p) == peeling::peel_on(g, peeling::peel_step(g, p)));
    } else {
        assert(peeling::peel_on(g, p) == p);
        assert forall|c: int| 0 <= c < cells implies #[trigger] incidence::load(
            g,
            p.remaining,
            c,
        ) != 1 by {
            assert(!p.queue.contains(c));
        }
    }
}

/// Which hash of `order` comes first of those that are in `left`.
proof fn lemma_first_left(order: Seq<Peeled>, left: Seq<u64>, from: int) -> (i: int)
    requires
        0 <= from <= order.len(),
        exists|j: int| from <= j < order.len() && left.contains(#[trigger] order[j].hash),
    ensures
        from <= i < order.len(),
        left.contains(order[i].hash),
        forall|j: int| from <= j < i ==> !left.contains(#[trigger] order[j].hash),
    decreases order.len() - from,
{
    if left.contains(order[from].hash) {
        from
    } else {
        lemma_first_left(order, left, from + 1)
    }
}

/// Where hashes can be taken off in some order, each by a cell that no later one has, they all
/// are.
pub proof fn lemma_whatever_peels_is_peeled(
    g: Geometry,
    hashes: Seq<u64>,
    cells: nat,
    order: Seq<Peeled>,
)
    requires
        g.divides(cells as int),
        peeling::stack_hashes(order).to_multiset() == hashes.to_multiset(),
        forall|i: int| 0 <= i < order.len() ==> #[trigger] order[i].found < 3,
        forall|i: int, j: int|
            0 <= i < j < order.len() ==> !g.touches(
                (#[trigger] order[j]).hash,
                g.cell((#[trigger] order[i]).hash, order[i].found as int),
            ),
    ensures
        peeling::peel_order(g, hashes, cells).len() == hashes.len(),
{
    broadcast use vstd::multiset::group_multiset_axioms;

    let start = peeling::unpeeled(g, hashes, cells);
    let end = peeling::peel_on(g, start);
    lemma_lonely(g, hashes, cells);
    assert(all_queued(g, start, cells as int));
    lemma_peeled_out(g, start, cells as int);
    peeling::lemma_peeled_and_left(g, hashes, cells);
    let left = end.remaining;
    let off = peeling::stack_hashes(end.stack);
    let ordered = peeling::stack_hashes(order);
    off.to_multiset_ensures();
    left.to_multiset_ensures();
    hashes.to_multiset_ensures();
    ordered.to_multiset_ensures();
    assert(off.to_multiset().add(left.to_multiset()).len() == off.len() + left.len());
    if left.len() > 0 {
        assert forall|i: int, j: int| 0 <= i < j < order.len() implies !g.touches(
            (#[trigger] order[j]).hash,
            (#[trigger] order[i]).own_cell(g),
        ) by {}
        peeling::lemma_peels_distinct(g, order);
        ordered.lemma_multiset_has_no_duplicates();
        assert forall|x: u64| left.to_multiset().contains(x) implies left.to_multiset().count(x)
            == 1 by {
            assert(hashes.to_multiset().count(x) == off.to_multiset().count(x)
                + left.to_multiset().count(x));
            assert(ordered.to_multiset().contains(x));
        }
        left.lemma_multiset_has_no_duplicates_conv();
        assert forall|x: u64| #[trigger] left.contains(x) implies ordered.contains(x) by {
            assert(left.to_multiset().count(x) > 0);
            assert(ordered.to_multiset().count(x) > 0);
        }
        assert(left.contains(left[0]));
        let w = choose|w: int| 0 <= w < ordered.len() && ordered[w] == left[0];
        assert(left.contains(order[w].hash));
        let i = lemma_first_left(order, left, 0);
        let cell = order[i].own_cell(g);
        let k = choose|k: int| 0 <= k < left.len() && left[k] == order[i].hash;
        geometry::lemma_cells_ordered(g, cells as int, order[i].hash);
        assert(g.touches(left[k], cell));
        assert forall|m: int| 0 <= m < left.len() && m != k implies !g.touches(
            #[trigger] left[m],
            cell,
        ) by {
            assert(left.contains(left[m]));
            let j = choose|j: int| 0 <= j < ordered.len() && ordered[j] == left[m];
            assert(order[j].hash == left[m]);
            assert(left.contains(order[j].hash));
            assert(j >= i);
            assert(left[m] != left[k]);
            assert(!g.touches(order[j].hash, order[i].own_cell(g)));
        }
        lemma_load_single(g, left, cell, k);
        assert(false);
    }
}

/// One step of the peeling, in words: the cell that was queued last is looked at. If it has one
/// hash, that hash is taken off, and its two other cells, the next one first, are queued where they
/// have one hash besides.
pub open spec fn peels_by_rule(g: Geometry, p: Peeling, q: Peeling) -> bool {
    let cell = p.queue.last();
    let rest = p.queue.drop_last();
    if count(g, p.remaining, cell) != 1 {
        q.remaining == p.remaining && q.stack == p.stack && q.queue == rest
    } else {
        exists|k: int, found: u8| #[trigger] takes_off(g, p, q, k, found)
    }
}

/// Hash number `k` is taken off by its cell number `found`, which was queued last.
pub open spec fn takes_off(g: Geometry, p: Peeling, q: Peeling, k: int, found: u8) -> bool {
    let hash = p.remaining[k];
    let (a, b) = (g.cell(hash, found + 1), g.cell(hash, found + 2));
    &&& 0 <= k < p.remaining.len()
    &&& found < 3
    &&& g.cell(hash, found as int) == p.queue.last()
    &&& q.remaining == p.remaining.remove(k)
    &&& q.stack == p.stack.push(Peeled { hash, found })
    &&& q.queue == p.queue.drop_last() + (if count(g, p.remaining, a) == 2 {
        seq![a]
    } else {
        Seq::empty()
    }) + (if count(g, p.remaining, b) == 2 {
        seq![b]
    } else {
        Seq::empty()
    })
}

proof fn lemma_rule_is_step(g: Geometry, p: Peeling, q: Peeling, cells: int)
    requires
        g.divides(cells),
        p.queue.len() > 0,
        peels_by_rule(g, p, q),
    ensures
        peeling::peel_step(g, p) == q,
{
    let cell = p.queue.last();
    lemma_load_counts(g, p.remaining, cell);
    if count(g, p.remaining, cell) == 1 {
        let (k, found) = choose|k: int, found: u8| #[trigger] takes_off(g, p, q, k, found);
        let hash = p.remaining[k];
        let (a, b) = (g.cell(hash, found + 1), g.cell(hash, found + 2));
        geometry::lemma_cells_ordered(g, cells, hash);
        assert(g.touches(hash, cell));
        let h = peeling::holder(g, p.remaining, cell);
        assert(0 <= h < p.remaining.len() && g.touches(p.remaining[h], cell));
        incidence::lemma_remove(g, p.remaining, k, cell);
        incidence::lemma_load_zero(g, p.remaining.remove(k), cell);
        if h != k {
            if h < k {
                assert(p.remaining.remove(k)[h] == p.remaining[h]);
            } else {
                assert(p.remaining.remove(k)[h - 1] == p.remaining[h]);
            }
        }
        lemma_load_counts(g, p.remaining, a);
        lemma_load_counts(g, p.remaining, b);
        assert(incidence::kind(g, hash, cell) == found);
        assert(peeling::peel_step(g, p).queue =~= q.queue);
    }
}

proof fn lemma_run(g: Geometry, run: Seq<Peeling>, t: int, cells: int)
    requires
        g.divides(cells),
        0 <= t < run.len(),
        forall|i: int|
            0 <= i < run.len() - 1 ==> (#[trigger] run[i]).queue.len() > 0 && peels_by_rule(
                g,
                run[i],
                run[i + 1],
            ),
        run.last().queue.len() == 0,
    ensures
        peeling::peel_on(g, run[t]) == run.last(),
    decreases run.len() - t,
{
    if t < run.len() - 1 {
        assert(run[t].queue.len() > 0 && peels_by_rule(g, run[t], run[t + 1]));
        lemma_rule_is_step(g, run[t], run[t + 1], cells);
        lemma_run(g, run, t + 1, cells);
    }
}

proof fn lemma_ascending_equal(a: Seq<int>, b: Seq<int>)
    requires
        forall|i: int, j: int| 0 <= i < j < a.len() ==> #[trigger] a[i] < #[trigger] a[j],
        forall|i: int, j: int| 0 <= i < j < b.len() ==> #[trigger] b[i] < #[trigger] b[j],
        forall|c: int| #[trigger] a.contains(c) <==> b.contains(c),
    ensures
        a == b,
    decreases a.len(),
{
    if a.len() == 0 {
        if b.len() > 0 {
            assert(b.contains(b[0]));
            assert(a.contains(b[0]));
        }
        assert(a =~= b);
    } else {
        assert(a.contains(a.last()));
        let j = choose|j: int| 0 <= j < b.len() && b[j] == a.last();
        assert(b.contains(b.last()));
        assert(a.contains(b.last()));
        let i = choose|i: int| 0 <= i < a.len() && a[i] == b.last();
        assert(a.last() == b.last());
        let (x, y) = (a.drop_last(), b.drop_last());
        assert forall|c: int| #[trigger] x.contains(c) <==> y.contains(c) by {
            if x.contains(c) {
                let i = choose|i: int| 0 <= i < x.len() && x[i] == c;
                assert(a[i] == c && a.contains(c));
                let j = choose|j: int| 0 <= j < b.len() && b[j] == c;
                assert(a[i] < a[a.len() - 1]);
                assert(y[j] == c);
            }
            if y.contains(c) {
                let i = choose|i: int| 0 <= i < y.len() && y[i] == c;
                assert(b[i] == c && b.contains(c));
                assert(a.contains(c));
                let j = choose|j: int| 0 <= j < a.len() && a[j] == c;
                assert(b[i] < b[b.len() - 1]);
                assert(x[j] == c);
            }
        }
        lemma_ascending_equal(x, y);
        assert(a =~= x.push(a.last()));
        assert(b =~= y.push(b.last()));
    }
}

/// Whoever takes hashes off by the rules, starting with the cells of one hash in ascending order
/// and until no cell is queued, takes them off in the order that is the peel order.
pub proof fn lemma_peel_order_by_the_rules(
    g: Geometry,
    hashes: Seq<u64>,
    cells: nat,
    run: Seq<Peeling>,
)
    requires
        g.divides(cells as int),
        run.len() > 0,
        run[0].remaining == hashes,
        run[0].stack.len() == 0,
        forall|c: int| #[trigger]
            run[0].queue.contains(c) <==> 0 <= c < cells && count(g, hashes, c) == 1,
        forall|i: int, j: int|
            0 <= i < j < run[0].queue.len() ==> #[trigger] run[0].queue[i]
                < #[trigger] run[0].queue[j],
        forall|i: int|
            0 <= i < run.len() - 1 ==> (#[trigger] run[i]).queue.len() > 0 && peels_by_rule(
                g,
                run[i],
                run[i + 1],
            ),
        run.last().queue.len() == 0,
    ensures
        peeling::peel_order(g, hashes, cells) == run.last().stack,
{
    let lonely = peeling::lonely_cells(g, hashes, cells);
    lemma_lonely(g, hashes, cells);
    assert forall|c: int| #[trigger] lonely.contains(c) <==> run[0].queue.contains(c) by {
        lemma_load_counts(g, hashes, c);
    }
    lemma_ascending_equal(lonely, run[0].queue);
    assert(run[0] =~= peeling::unpeeled(g, hashes, cells));
    lemma_run(g, run, 0, cells as int);
}

/// What is kept of a cell: nothing where there are no hashes, and of one more hash that has it, that
/// it has one more, the exclusive or of the hashes, and that of which of their cells it is.
pub proof fn lemma_what_is_kept_of_a_cell(g: Geometry, hashes: Seq<u64>, hash: u64, cell: int)
    ensures
        incidence::load(g, Seq::empty(), cell) == 0,
        incidence::sum(g, Seq::empty(), cell) == 0,
        incidence::tag(g, Seq::empty(), cell) == 0,
        !g.touches(hash, cell) ==> {
            &&& incidence::load(g, hashes.push(hash), cell) == incidence::load(g, hashes, cell)
            &&& incidence::sum(g, hashes.push(hash), cell) == incidence::sum(g, hashes, cell)
            &&& incidence::tag(g, hashes.push(hash), cell) == incidence::tag(g, hashes, cell)
        },
        g.touches(hash, cell) ==> {
            &&& incidence::load(g, hashes.push(hash), cell) == incidence::load(g, hashes, cell) + 1
            &&& incidence::sum(g, hashes.push(hash), cell) == incidence::sum(g, hashes, cell) ^ hash
            &&& incidence::tag(g, hashes.push(hash), cell) == incidence::tag(g, hashes, cell)
                ^ incidence::kind(g, hash, cell)
            &&& g.cell(hash, incidence::kind(g, hash, cell) as int) == cell
            &&& incidence::kind(g, hash, cell) < 3
        },
{
    incidence::lemma_push(g, hashes, hash, cell);
}

/// A duplicate is shown where a hash, when it comes, leaves one of its cells with two hashes, or
/// that many modulo 64, of which nothing remains when they are folded into one.
pub proof fn lemma_duplicate_is_shown_by_bytes(g: Geometry, hashes: Seq<u64>)
    ensures
        incidence::shows_duplicate(g, hashes) <==> exists|j: int, cell: int| #[trigger]
            folds_away(g, hashes, j, cell),
{
    if incidence::shows_duplicate(g, hashes) {
        let j = choose|j: int|
            0 <= j < hashes.len() && #[trigger] incidence::doubles_at(g, hashes, j);
        let upto = hashes.take(j + 1);
        let cell = if incidence::looks_doubled(g, upto, g.first(hashes[j]) as int) {
            g.first(hashes[j]) as int
        } else if incidence::looks_doubled(g, upto, g.second(hashes[j]) as int) {
            g.second(hashes[j]) as int
        } else {
            g.third(hashes[j]) as int
        };
        incidence::lemma_tag_bounded(g, upto, cell);
        lemma_load_counts(g, upto, cell);
        assert(folds_away(g, hashes, j, cell));
    }
    if exists|j: int, cell: int| #[trigger] folds_away(g, hashes, j, cell) {
        let (j, cell) = choose|j: int, cell: int| #[trigger] folds_away(g, hashes, j, cell);
        lemma_load_counts(g, hashes.take(j + 1), cell);
        assert(incidence::looks_doubled(g, hashes.take(j + 1), cell));
        assert(incidence::doubles_at(g, hashes, j));
    }
}

/// Of the hashes up to hash number `j` that have its cell `cell`, two modulo 64, nothing remains
/// when they are folded into one, nor of which of their cells it is.
pub open spec fn folds_away(g: Geometry, hashes: Seq<u64>, j: int, cell: int) -> bool {
    let upto = hashes.take(j + 1);
    &&& 0 <= j < hashes.len()
    &&& g.touches(hashes[j], cell)
    &&& count(g, upto, cell) % 64 == 2
    &&& incidence::sum(g, upto, cell) == 0
    &&& incidence::tag(g, upto, cell) == 0
}

} // verus!

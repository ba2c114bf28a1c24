//! Taking the hashes off one by one, each by a cell that no other hash left has.

use vstd::prelude::*;

use crate::geometry::Geometry;
#[allow(unused_imports)]
use crate::{geometry, incidence};

verus! {

/// A hash that was taken off, and by which of its cells: 0, 1 or 2.
#[derive(Clone, Copy, Debug, PartialEq, Eq, Structural)]
pub struct Peeled {
    pub hash: u64,
    pub found: u8,
}

impl Peeled {
    /// The cell by which the hash was taken off.
    pub open spec fn own_cell(self, g: Geometry) -> int {
        g.cell(self.hash, self.found as int)
    }
}

/// How far the peeling has come.
#[verifier::ext_equal]
pub struct Peeling {
    /// The hashes still there.
    pub remaining: Seq<u64>,
    /// The cells to look at, the last first.
    pub queue: Seq<int>,
    /// The hashes taken off, the latest last.
    pub stack: Seq<Peeled>,
}

/// The cells less than `cells` that exactly one hash has, in ascending order.
pub open spec fn lonely_cells(g: Geometry, hashes: Seq<u64>, cells: nat) -> Seq<int>
    decreases cells,
{
    if cells == 0 {
        Seq::empty()
    } else {
        let before = lonely_cells(g, hashes, (cells - 1) as nat);
        if incidence::load(g, hashes, cells - 1) == 1 {
            before.push(cells - 1)
        } else {
            before
        }
    }
}

/// Where a hash that has the cell `cell` stands in `hashes`.
pub open spec fn holder(g: Geometry, hashes: Seq<u64>, cell: int) -> int {
    choose|k: int| 0 <= k < hashes.len() && g.touches(#[trigger] hashes[k], cell)
}

/// The queue with `cell` behind it, if taking off one of the hashes of `cell` leaves it one.
pub open spec fn enqueue(g: Geometry, hashes: Seq<u64>, queue: Seq<int>, cell: int) -> Seq<int> {
    if incidence::load(g, hashes, cell) == 2 {
        queue.push(cell)
    } else {
        queue
    }
}

/// Looking at the last cell of the queue.
pub open spec fn peel_step(g: Geometry, p: Peeling) -> Peeling {
    let cell = p.queue.last();
    let rest = p.queue.drop_last();
    if incidence::load(g, p.remaining, cell) != 1 {
        Peeling { queue: rest, ..p }
    } else {
        let k = holder(g, p.remaining, cell);
        let hash = p.remaining[k];
        let found = incidence::kind(g, hash, cell);
        let rest = enqueue(g, p.remaining, rest, g.cell(hash, found + 1));
        let rest = enqueue(g, p.remaining, rest, g.cell(hash, found + 2));
        Peeling {
            remaining: p.remaining.remove(k),
            queue: rest,
            stack: p.stack.push(Peeled { hash, found }),
        }
    }
}

/// Looking at cells until none is left to look at.
pub open spec fn peel_on(g: Geometry, p: Peeling) -> Peeling
    decreases p.remaining.len(), p.queue.len(),
{
    if p.queue.len() == 0 {
        p
    } else {
        proof {
            if incidence::load(g, p.remaining, p.queue.last()) == 1 {
                let k = incidence::lemma_load_positive(g, p.remaining, p.queue.last());
                assert(g.touches(p.remaining[k], p.queue.last()));
            }
        }
        peel_on(g, peel_step(g, p))
    }
}

/// The start of the peeling of `hashes` in `cells` cells.
pub open spec fn unpeeled(g: Geometry, hashes: Seq<u64>, cells: nat) -> Peeling {
    Peeling {
        remaining: hashes,
        queue: lonely_cells(g, hashes, cells),
        stack: Seq::empty(),
    }
}

/// The hashes of `hashes` that can be taken off, in the order in which they are.
pub open spec fn peel_order(g: Geometry, hashes: Seq<u64>, cells: nat) -> Seq<Peeled> {
    peel_on(g, unpeeled(g, hashes, cells)).stack
}

/// The hashes of a stack.
pub open spec fn stack_hashes(stack: Seq<Peeled>) -> Seq<u64> {
    stack.map_values(|p: Peeled| p.hash)
}

/// No hash has the cell by which an earlier one was taken off.
pub open spec fn peels(g: Geometry, stack: Seq<Peeled>) -> bool {
    &&& forall|i: int| 0 <= i < stack.len() ==> #[trigger] stack[i].found < 3
    &&& forall|i: int, j: int|
        0 <= i < j < stack.len() ==> !g.touches(
            (#[trigger] stack[j]).hash,
            (#[trigger] stack[i]).own_cell(g),
        )
}

/// What holds of every state of the peeling of `hashes`.
pub open spec fn peeling_inv(g: Geometry, hashes: Seq<u64>, p: Peeling) -> bool {
    &&& peels(g, p.stack)
    &&& forall|i: int, k: int|
        0 <= i < p.stack.len() && 0 <= k < p.remaining.len() ==> !g.touches(
            #[trigger] p.remaining[k],
            (#[trigger] p.stack[i]).own_cell(g),
        )
    &&& stack_hashes(p.stack).to_multiset().add(p.remaining.to_multiset()) == hashes.to_multiset()
}

proof fn lemma_peel_step(g: Geometry, hashes: Seq<u64>, p: Peeling)
    requires
        peeling_inv(g, hashes, p),
        p.queue.len() > 0,
    ensures
        peeling_inv(g, hashes, peel_step(g, p)),
{
    let cell = p.queue.last();
    if incidence::load(g, p.remaining, cell) == 1 {
        let w = incidence::lemma_load_positive(g, p.remaining, cell);
        assert(g.touches(p.remaining[w], cell));
        let k = holder(g, p.remaining, cell);
        let hash = p.remaining[k];
        let next = peel_step(g, p);
        let peeled = next.stack.last();
        assert(peeled.own_cell(g) == cell);
        incidence::lemma_remove(g, p.remaining, k, cell);
        incidence::lemma_load_zero(g, p.remaining.remove(k), cell);
        assert forall|i: int, j: int| 0 <= i < j < next.stack.len() implies !g.touches(
            (#[trigger] next.stack[j]).hash,
            (#[trigger] next.stack[i]).own_cell(g),
        ) by {
            assert(next.stack[i] == p.stack[i]);
            if j < p.stack.len() {
                assert(next.stack[j] == p.stack[j]);
            } else {
                assert(next.stack[j].hash == p.remaining[k]);
            }
        }
        assert forall|i: int| 0 <= i < next.stack.len() implies #[trigger] next.stack[i].found
            < 3 by {
            if i < p.stack.len() {
                assert(next.stack[i] == p.stack[i]);
            }
        }
        assert forall|i: int, m: int|
            0 <= i < next.stack.len() && 0 <= m < next.remaining.len() implies !g.touches(
            #[trigger] next.remaining[m],
            (#[trigger] next.stack[i]).own_cell(g),
        ) by {
            if i < p.stack.len() {
                assert(next.stack[i] == p.stack[i]);
                if m < k {
                    assert(next.remaining[m] == p.remaining[m]);
                } else {
                    assert(next.remaining[m] == p.remaining[m + 1]);
                }
            }
        }
        broadcast use vstd::multiset::group_multiset_axioms;

        assert(stack_hashes(next.stack) =~= stack_hashes(p.stack).push(hash));
        vstd::seq_lib::to_multiset_build(stack_hashes(p.stack), hash);
        vstd::seq_lib::to_multiset_remove(p.remaining, k);
        p.remaining.to_multiset_ensures();
        assert(p.remaining.contains(hash));
        assert(stack_hashes(next.stack).to_multiset().add(next.remaining.to_multiset())
            =~= stack_hashes(p.stack).to_multiset().add(p.remaining.to_multiset()));
    }
}

proof fn lemma_peel_on(g: Geometry, hashes: Seq<u64>, p: Peeling)
    requires
        peeling_inv(g, hashes, p),
    ensures
        peeling_inv(g, hashes, peel_on(g, p)),
    decreases p.remaining.len(), p.queue.len(),
{
    if p.queue.len() > 0 {
        if incidence::load(g, p.remaining, p.queue.last()) == 1 {
            let k = incidence::lemma_load_positive(g, p.remaining, p.queue.last());
            assert(g.touches(p.remaining[k], p.queue.last()));
        }
        lemma_peel_step(g, hashes, p);
        lemma_peel_on(g, hashes, peel_step(g, p));
    }
}

/// The peel order is one, and where it takes all hashes off, it holds each as often as it was
/// there.
pub proof fn lemma_peel_order(g: Geometry, hashes: Seq<u64>, cells: nat)
    ensures
        peels(g, peel_order(g, hashes, cells)),
        peel_order(g, hashes, cells).len() <= hashes.len(),
        peel_order(g, hashes, cells).len() == hashes.len() ==> stack_hashes(
            peel_order(g, hashes, cells),
        ).to_multiset() == hashes.to_multiset(),
{
    broadcast use vstd::multiset::group_multiset_axioms;

    let p = unpeeled(g, hashes, cells);
    assert(stack_hashes(p.stack) =~= Seq::empty());
    Seq::<u64>::empty().to_multiset_ensures();
    vstd::multiset::lemma_multiset_empty_len(Seq::<u64>::empty().to_multiset());
    assert(stack_hashes(p.stack).to_multiset().add(p.remaining.to_multiset())
        =~= hashes.to_multiset());
    lemma_peel_on(g, hashes, p);
    let end = peel_on(g, p);
    let off = stack_hashes(end.stack).to_multiset();
    let left = end.remaining.to_multiset();
    stack_hashes(end.stack).to_multiset_ensures();
    end.remaining.to_multiset_ensures();
    hashes.to_multiset_ensures();
    assert(off.add(left).len() == off.len() + left.len());
    if end.stack.len() == hashes.len() {
        vstd::multiset::lemma_multiset_empty_len(left);
        assert(off.add(left) =~= off);
    }
}

/// What is taken off of `hashes`, and what is left of them.
pub proof fn lemma_peeled_and_left(g: Geometry, hashes: Seq<u64>, cells: nat)
    ensures
        peeling_inv(g, hashes, peel_on(g, unpeeled(g, hashes, cells))),
{
    broadcast use vstd::multiset::group_multiset_axioms;

    let p = unpeeled(g, hashes, cells);
    assert(stack_hashes(p.stack) =~= Seq::empty());
    Seq::<u64>::empty().to_multiset_ensures();
    vstd::multiset::lemma_multiset_empty_len(Seq::<u64>::empty().to_multiset());
    assert(stack_hashes(p.stack).to_multiset().add(p.remaining.to_multiset())
        =~= hashes.to_multiset());
    lemma_peel_on(g, hashes, p);
}

/// Two states that differ in the order of the hashes still there.
spec fn alike(p: Peeling, q: Peeling) -> bool {
    &&& p.remaining.to_multiset() == q.remaining.to_multiset()
    &&& p.queue == q.queue
    &&& p.stack == q.stack
}

proof fn lemma_alike_step(g: Geometry, p: Peeling, q: Peeling)
    requires
        alike(p, q),
        p.queue.len() > 0,
    ensures
        alike(peel_step(g, p), peel_step(g, q)),
        incidence::load(g, p.remaining, p.queue.last()) == 1 ==> peel_step(g, p).remaining.len()
            < p.remaining.len(),
{
    let cell = p.queue.last();
    incidence::lemma_order_free(g, p.remaining, q.remaining, cell);
    if incidence::load(g, p.remaining, cell) == 1 {
        let v = incidence::lemma_load_positive(g, p.remaining, cell);
        let w = incidence::lemma_load_positive(g, q.remaining, cell);
        assert(g.touches(p.remaining[v], cell) && g.touches(q.remaining[w], cell));
        let (k, m) = (holder(g, p.remaining, cell), holder(g, q.remaining, cell));
        incidence::lemma_load_one(g, p.remaining, cell, k);
        incidence::lemma_load_one(g, q.remaining, cell, m);
        let hash = p.remaining[k];
        assert(q.remaining[m] == hash);
        let found = incidence::kind(g, hash, cell);
        incidence::lemma_order_free(g, p.remaining, q.remaining, g.cell(hash, found + 1));
        incidence::lemma_order_free(g, p.remaining, q.remaining, g.cell(hash, found + 2));
        vstd::seq_lib::to_multiset_remove(p.remaining, k);
        vstd::seq_lib::to_multiset_remove(q.remaining, m);
    }
}

proof fn lemma_alike_on(g: Geometry, p: Peeling, q: Peeling)
    requires
        alike(p, q),
    ensures
        alike(peel_on(g, p), peel_on(g, q)),
    decreases p.remaining.len(), p.queue.len(),
{
    if p.queue.len() > 0 {
        lemma_alike_step(g, p, q);
        lemma_alike_on(g, peel_step(g, p), peel_step(g, q));
    }
}

proof fn lemma_alike_lonely(g: Geometry, a: Seq<u64>, b: Seq<u64>, cells: nat)
    requires
        a.to_multiset() == b.to_multiset(),
    ensures
        lonely_cells(g, a, cells) == lonely_cells(g, b, cells),
    decreases cells,
{
    if cells > 0 {
        lemma_alike_lonely(g, a, b, (cells - 1) as nat);
        incidence::lemma_order_free(g, a, b, cells - 1);
    }
}

/// The order in which hashes are taken off does not depend on that in which they are there.
pub proof fn lemma_order_free(g: Geometry, a: Seq<u64>, b: Seq<u64>, cells: nat)
    requires
        a.to_multiset() == b.to_multiset(),
    ensures
        peel_order(g, a, cells) == peel_order(g, b, cells),
{
    lemma_alike_lonely(g, a, b, cells);
    lemma_alike_on(g, unpeeled(g, a, cells), unpeeled(g, b, cells));
}

/// A stack that peels holds no hash twice.
pub proof fn lemma_peels_distinct(g: Geometry, stack: Seq<Peeled>)
    requires
        peels(g, stack),
    ensures
        stack_hashes(stack).no_duplicates(),
{
    let hashes = stack_hashes(stack);
    assert forall|i: int, j: int|
        0 <= i < hashes.len() && 0 <= j < hashes.len() && i != j implies hashes[i]
        != hashes[j] by {
        let (low, high) = if i < j {
            (i, j)
        } else {
            (j, i)
        };
        assert(!g.touches(stack[high].hash, stack[low].own_cell(g)));
        assert(g.touches(stack[low].hash, stack[low].own_cell(g)));
    }
}

proof fn lemma_unpack(q: u8, t: u8)
    by (bit_vector)
    requires
        q < 64,
        t < 4,
    ensures
        ((4 * q + t) as u8) >> 2 == q,
        ((4 * q + t) as u8) & 3 == t,
{
}

/// Reading the load and the tag of a cell out of its byte.
proof fn lemma_unpacked(g: Geometry, hashes: Seq<u64>, cell: int, byte: u8)
    requires
        byte == incidence::packed(g, hashes, cell),
        incidence::load(g, hashes, cell) < 64,
    ensures
        byte >> 2 == incidence::load(g, hashes, cell),
        byte & 3 == incidence::tag(g, hashes, cell),
{
    incidence::lemma_tag_bounded(g, hashes, cell);
    lemma_unpack(incidence::load(g, hashes, cell) as u8, incidence::tag(g, hashes, cell));
}

proof fn lemma_packed_less(q: u8, t: u8, k: u8)
    by (bit_vector)
    requires
        1 <= q < 64,
        t < 4,
        k < 4,
    ensures
        ((4 * q + t - 4) as u8) ^ k == 4 * (q - 1) + (t ^ k),
        4 * q + t >= 4,
        t ^ k < 4,
{
}

/// The byte of a cell with one hash less.
proof fn lemma_packed_remove(g: Geometry, hashes: Seq<u64>, k: int, cell: int, byte: u8)
    requires
        0 <= k < hashes.len(),
        g.touches(hashes[k], cell),
        byte == incidence::packed(g, hashes, cell),
        incidence::load(g, hashes, cell) < 64,
    ensures
        byte >= 4,
        ((byte - 4) as u8) ^ incidence::kind(g, hashes[k], cell) == incidence::packed(g, hashes.remove(k), cell),
{
    incidence::lemma_remove(g, hashes, k, cell);
    incidence::lemma_tag_bounded(g, hashes, cell);
    lemma_packed_less(incidence::load(g, hashes, cell) as u8, incidence::tag(g, hashes, cell), incidence::kind(g, hashes[k], cell));
}

/// The cells that one hash has, in ascending order, from the packed loads.
fn lonely(g: &Geometry, order: &Vec<u64>, counts: &Vec<u8>) -> (alone: Vec<u32>)
    requires
        counts.len() <= u32::MAX,
        forall|c: int| 0 <= c < counts.len() ==> #[trigger] counts@[c] == incidence::packed(*g, order@, c),
        forall|c: int| #[trigger] incidence::load(*g, order@, c) < 64,
    ensures
        alone@.map_values(|c: u32| c as int) == lonely_cells(*g, order@, counts.len() as nat),
        forall|i: int| 0 <= i < alone.len() ==> #[trigger] alone@[i] < counts.len(),
{
    let mut alone: Vec<u32> = Vec::new();
    let mut i: usize = 0;
    proof {
        assert(alone@.map_values(|c: u32| c as int) =~= Seq::empty());
    }
    while i < counts.len()
        invariant
            counts.len() <= u32::MAX,
            forall|c: int| 0 <= c < counts.len() ==> #[trigger] counts@[c] == incidence::packed(*g, order@, c),
            forall|c: int| #[trigger] incidence::load(*g, order@, c) < 64,
            i <= counts.len(),
            alone@.map_values(|c: u32| c as int) == lonely_cells(*g, order@, i as nat),
            forall|k: int| 0 <= k < alone.len() ==> #[trigger] alone@[k] < i,
        decreases counts.len() - i,
    {
        let ghost before = alone@;
        proof {
            lemma_unpacked(*g, order@, i as int, counts@[i as int]);
        }
        if counts[i] >> 2 == 1 {
            alone.push(i as u32);
            proof {
                assert(alone@.map_values(|c: u32| c as int) =~= before.map_values(
                    |c: u32| c as int,
                ).push(i as int));
            }
        }
        i = i + 1;
    }
    alone
}

proof fn lemma_selectors(found: u8)
    requires
        found < 3,
    ensures
        found.wrapping_sub(1) >> 7 == if found == 0 {
            1u8
        } else {
            0u8
        },
        found & 1 == if found == 1 {
            1u8
        } else {
            0u8
        },
        found >> 1 == if found == 2 {
            1u8
        } else {
            0u8
        },
        (0xffff_ffffu32 & 1 | 0u32 & 2) as u8 == 1,
        (0u32 & 1 | 0xffff_ffffu32 & 2) as u8 == 2,
        (0xffff_ffffu32 & 2 | 0u32 & 1) as u8 == 2,
        (0u32 & 2 | 0xffff_ffffu32 & 1) as u8 == 1,
        (0u32 & 1 | 0u32 & 2) as u8 == 0,
        (0u32 & 2 | 0u32 & 1) as u8 == 0,
{
    assert(255u8 >> 7 == 1 && 0u8 >> 7 == 0 && 1u8 >> 7 == 0) by (bit_vector);
    assert(0u8 & 1 == 0 && 1u8 & 1 == 1 && 2u8 & 1 == 0) by (bit_vector);
    assert(0u8 >> 1 == 0 && 1u8 >> 1 == 0 && 2u8 >> 1 == 1) by (bit_vector);
    assert((0xffff_ffffu32 & 1 | 0u32 & 2) as u8 == 1 && (0u32 & 1 | 0xffff_ffffu32 & 2) as u8 == 2
        && (0xffff_ffffu32 & 2 | 0u32 & 1) as u8 == 2 && (0u32 & 2 | 0xffff_ffffu32 & 1) as u8 == 1
        && (0u32 & 1 | 0u32 & 2) as u8 == 0 && (0u32 & 2 | 0u32 & 1) as u8 == 0) by (bit_vector);
}

proof fn lemma_select(length: u32, swap: u32, a: u32, b: u32)
    by (bit_vector)
    ensures
        length ^ (swap & 0) == length,
        length ^ ((length ^ swap) & 0xffff_ffff) == swap,
        length ^ (swap & 0xffff_ffff) == length ^ swap,
        length ^ (length ^ swap) == swap,
        (a & !0u32) ^ (b & !0xffff_ffffu32) == a,
        (a & !0xffff_ffffu32) ^ (b & !0u32) == b,
        (a & !0u32) ^ (b & !0u32) == a ^ b,
{
}

/// The two other cells of `hash`, of which the cell number `found` is `index`: its cells number
/// `found + 1` and `found + 2`, and which of its cells they are.
fn other_cells(g: &Geometry, Ghost(cells): Ghost<int>, hash: u64, index: u32, found: u8) -> (r: (
    u32,
    u8,
    u32,
    u8,
))
    requires
        g.divides(cells),
        found < 3,
        index == g.cell(hash, found as int),
    ensures
        r.0 == g.cell(hash, found + 1),
        r.1 == (found + 1) % 3,
        r.2 == g.cell(hash, found + 2),
        r.3 == (found + 2) % 3,
{
    let seg_len: u32 = g.segment_length;
    let back: u32 = 0u32.wrapping_sub(2u32.wrapping_mul(seg_len));
    let swap: u32 = seg_len ^ back;
    let h01: u32 = (hash >> 18) as u32 & g.segment_length_mask;
    let h02: u32 = hash as u32 & g.segment_length_mask;
    // All ones for the one of the three that `found` is, else zero.
    let is0: u32 = 0u32.wrapping_sub((found.wrapping_sub(1) >> 7) as u32);
    let is1: u32 = 0u32.wrapping_sub((found & 1) as u32);
    let is2: u32 = 0u32.wrapping_sub((found >> 1) as u32);
    let mut other1: u32 = index.wrapping_add(seg_len ^ (swap & is2));
    let mut other2: u32 = index.wrapping_sub(seg_len ^ (swap & is0));
    other1 = other1 ^ ((h01 & !is2) ^ (h02 & !is0));
    other2 = other2 ^ ((h01 & !is0) ^ (h02 & !is1));
    let f1: u8 = (is0 & 1 | is1 & 2) as u8;
    let f2: u8 = (is0 & 2 | is2 & 1) as u8;
    proof {
        geometry::lemma_cells_ordered(*g, cells, hash);
        geometry::lemma_other_cells(*g, cells, hash);
        lemma_selectors(found);
        lemma_select(seg_len, swap, h01, h02);
        lemma_select(seg_len, back, h01, h02);
    }
    (other1, f1, other2, f2)
}

/// The state of the arrays after hash number `k` is taken off.
proof fn lemma_counts_without(
    g: Geometry,
    hashes: Seq<u64>,
    k: int,
    cell: int,
    counts: Seq<u8>,
    sums: Seq<u64>,
)
    requires
        0 <= k < hashes.len(),
        0 <= cell < counts.len(),
        counts[cell] == incidence::packed(g, hashes, cell),
        sums[cell] == incidence::sum(g, hashes, cell),
        incidence::load(g, hashes, cell) < 64,
    ensures
        g.touches(hashes[k], cell) ==> {
            &&& counts[cell] >= 4
            &&& ((counts[cell] - 4) as u8) ^ incidence::kind(g, hashes[k], cell)
                == incidence::packed(g, hashes.remove(k), cell)
            &&& sums[cell] ^ hashes[k] == incidence::sum(g, hashes.remove(k), cell)
        },
        !g.touches(hashes[k], cell) ==> {
            &&& counts[cell] == incidence::packed(g, hashes.remove(k), cell)
            &&& sums[cell] == incidence::sum(g, hashes.remove(k), cell)
        },
{
    incidence::lemma_remove(g, hashes, k, cell);
    if g.touches(hashes[k], cell) {
        lemma_packed_remove(g, hashes, k, cell, counts[cell]);
    }
}

/// Takes hashes off as long as one has a cell to itself. `counts` and `sums` are what `tally`
/// counted of the hashes `order`.
#[verifier::rlimit(60)]
pub fn peel(g: &Geometry, order: &Vec<u64>, counts: Vec<u8>, sums: Vec<u64>) -> (stack: Vec<Peeled>)
    requires
        g.divides(counts.len() as int),
        sums.len() == counts.len(),
        !incidence::crowded(*g, order@),
        forall|c: int|
            0 <= c < counts.len() ==> #[trigger] counts@[c] == incidence::packed(*g, order@, c),
        forall|c: int|
            0 <= c < sums.len() ==> #[trigger] sums@[c] == incidence::sum(*g, order@, c),
    ensures
        stack@ == peel_order(*g, order@, counts.len() as nat),
{
    let mut counts: Vec<u8> = counts;
    let mut sums: Vec<u64> = sums;
    let ghost cells = counts.len() as int;
    let mut alone: Vec<u32> = lonely(g, order, &counts);
    let mut stack: Vec<Peeled> = Vec::new();
    let ghost start = unpeeled(*g, order@, cells as nat);
    let ghost mut p = start;
    while alone.len() > 0
        invariant
            g.divides(cells),
            counts.len() == cells,
            sums.len() == cells,
            alone@.map_values(|c: u32| c as int) == p.queue,
            stack@ == p.stack,
            forall|i: int| 0 <= i < alone.len() ==> #[trigger] alone@[i] < cells,
            forall|c: int|
                0 <= c < cells ==> #[trigger] counts@[c] == incidence::packed(*g, p.remaining, c),
            forall|c: int|
                0 <= c < cells ==> #[trigger] sums@[c] == incidence::sum(*g, p.remaining, c),
            forall|c: int| #[trigger] incidence::load(*g, p.remaining, c) < 64,
            peel_on(*g, p) == peel_on(*g, start),
        decreases p.remaining.len(), alone.len(),
    {
        let ghost queued = alone@;
        let index: u32 = alone[alone.len() - 1];
        alone.truncate(alone.len() - 1);
        let at: usize = index as usize;
        let ghost next = peel_step(*g, p);
        proof {
            assert(queued[queued.len() - 1] < cells);
            assert(p.queue.last() == index);
            assert(alone@.map_values(|c: u32| c as int) =~= p.queue.drop_last());
            lemma_unpacked(*g, p.remaining, index as int, counts@[index as int]);
        }
        if counts[at] >> 2 == 1 {
            let hash: u64 = sums[at];
            let found: u8 = counts[at] & 3;
            let ghost k = holder(*g, p.remaining, index as int);
            proof {
                let w = incidence::lemma_load_positive(*g, p.remaining, index as int);
                assert(g.touches(p.remaining[w], index as int));
                incidence::lemma_load_one(*g, p.remaining, index as int, k);
                geometry::lemma_cells_ordered(*g, cells, hash);
            }
            stack.push(Peeled { hash, found });
            let (other1, f1, other2, f2) = other_cells(g, Ghost(cells), hash, index, found);
            let (a, b) = (other1 as usize, other2 as usize);
            let ghost (counts0, sums0) = (counts@, sums@);
            proof {
                lemma_unpacked(*g, p.remaining, a as int, counts@[a as int]);
                lemma_unpacked(*g, p.remaining, b as int, counts@[b as int]);
                lemma_counts_without(*g, p.remaining, k, at as int, counts0, sums0);
                lemma_counts_without(*g, p.remaining, k, a as int, counts0, sums0);
                lemma_counts_without(*g, p.remaining, k, b as int, counts0, sums0);
            }
            let ghost queue1 = alone@;
            if counts[a] >> 2 == 2 {
                alone.push(other1);
            }
            counts[a] = counts[a] - 4;
            counts[a] = counts[a] ^ f1;
            sums[a] = sums[a] ^ hash;
            let ghost queue2 = alone@;
            if counts[b] >> 2 == 2 {
                alone.push(other2);
            }
            counts[b] = counts[b] - 4;
            counts[b] = counts[b] ^ f2;
            sums[b] = sums[b] ^ hash;
            counts[at] = counts[at] - 4;
            counts[at] = counts[at] ^ found;
            sums[at] = sums[at] ^ hash;
            proof {
                assert(queue1.push(other1).map_values(|c: u32| c as int) =~= queue1.map_values(
                    |c: u32| c as int,
                ).push(other1 as int));
                assert(queue2.push(other2).map_values(|c: u32| c as int) =~= queue2.map_values(
                    |c: u32| c as int,
                ).push(other2 as int));
                assert(alone@.map_values(|c: u32| c as int) =~= next.queue);
                assert(stack@ =~= next.stack);
                assert forall|c: int| 0 <= c < cells implies #[trigger] counts@[c]
                    == incidence::packed(*g, next.remaining, c) by {
                    assert(counts0[c] == incidence::packed(*g, p.remaining, c));
                    assert(sums0[c] == incidence::sum(*g, p.remaining, c));
                    lemma_counts_without(*g, p.remaining, k, c, counts0, sums0);
                }
                assert forall|c: int| 0 <= c < cells implies #[trigger] sums@[c]
                    == incidence::sum(*g, next.remaining, c) by {
                    assert(counts0[c] == incidence::packed(*g, p.remaining, c));
                    assert(sums0[c] == incidence::sum(*g, p.remaining, c));
                    lemma_counts_without(*g, p.remaining, k, c, counts0, sums0);
                }
                assert forall|c: int| #[trigger] incidence::load(*g, next.remaining, c) < 64 by {
                    assert(incidence::load(*g, p.remaining, c) < 64);
                    incidence::lemma_remove(*g, p.remaining, k, c);
                }
            }
        }
        proof {
            p = next;
        }
    }
    stack
}

} // verus!

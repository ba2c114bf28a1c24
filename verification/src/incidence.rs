//! Which hashes of a sequence have a cell in common.

use vstd::prelude::*;

use crate::geometry::Geometry;
#[allow(unused_imports)]
use crate::geometry;

verus! {

/// Which of the cells of `hash` the cell `cell` is: 0, 1 or 2.
pub open spec fn kind(g: Geometry, hash: u64, cell: int) -> u8 {
    if cell == g.first(hash) {
        0
    } else if cell == g.second(hash) {
        1
    } else {
        2
    }
}

/// The number of hashes that have the cell `cell`.
pub open spec fn load(g: Geometry, hashes: Seq<u64>, cell: int) -> nat
    decreases hashes.len(),
{
    if hashes.len() == 0 {
        0
    } else {
        load(g, hashes.drop_last(), cell) + if g.touches(hashes.last(), cell) {
            1nat
        } else {
            0nat
        }
    }
}

/// The exclusive or of the hashes that have the cell `cell`.
pub open spec fn sum(g: Geometry, hashes: Seq<u64>, cell: int) -> u64
    decreases hashes.len(),
{
    if hashes.len() == 0 {
        0
    } else if g.touches(hashes.last(), cell) {
        sum(g, hashes.drop_last(), cell) ^ hashes.last()
    } else {
        sum(g, hashes.drop_last(), cell)
    }
}

/// The exclusive or, over the hashes that have the cell `cell`, of which of their cells it is.
pub open spec fn tag(g: Geometry, hashes: Seq<u64>, cell: int) -> u8
    decreases hashes.len(),
{
    if hashes.len() == 0 {
        0
    } else if g.touches(hashes.last(), cell) {
        tag(g, hashes.drop_last(), cell) ^ kind(g, hashes.last(), cell)
    } else {
        tag(g, hashes.drop_last(), cell)
    }
}

/// How the load and the tag of a cell are kept in one byte, the load modulo 64.
pub open spec fn packed(g: Geometry, hashes: Seq<u64>, cell: int) -> int {
    4 * (load(g, hashes, cell) % 64) + tag(g, hashes, cell)
}

/// The cell `cell` looks as if it had two equal hashes and no other.
pub open spec fn looks_doubled(g: Geometry, hashes: Seq<u64>, cell: int) -> bool {
    &&& sum(g, hashes, cell) == 0
    &&& packed(g, hashes, cell) == 8
}

/// A cell of `hashes[i]` looks doubled among the hashes up to `hashes[i]`.
pub open spec fn doubles_at(g: Geometry, hashes: Seq<u64>, i: int) -> bool {
    let upto = hashes.take(i + 1);
    ||| looks_doubled(g, upto, g.first(hashes[i]) as int)
    ||| looks_doubled(g, upto, g.second(hashes[i]) as int)
    ||| looks_doubled(g, upto, g.third(hashes[i]) as int)
}

/// Taking the hashes in order, a cell of one of them looks doubled.
pub open spec fn shows_duplicate(g: Geometry, hashes: Seq<u64>) -> bool {
    exists|i: int| 0 <= i < hashes.len() && #[trigger] doubles_at(g, hashes, i)
}

/// Some cell has more hashes than its byte can count.
pub open spec fn crowded(g: Geometry, hashes: Seq<u64>) -> bool {
    exists|cell: int| #[trigger] load(g, hashes, cell) >= 64
}

/// What `tally` finds.
pub enum Tally {
    /// A cell looked doubled.
    Duplicate,
    /// A cell has 64 hashes or more.
    Crowded,
    /// The load and tag of each cell, packed, and the sum of each cell.
    Counted { counts: Vec<u8>, sums: Vec<u64> },
}

proof fn lemma_xor_u64(a: u64, b: u64, c: u64)
    by (bit_vector)
    ensures
        (a ^ b) ^ c == (a ^ c) ^ b,
        (a ^ b) ^ b == a,
        0u64 ^ a == a,
        a ^ 0u64 == a,
{
}

proof fn lemma_xor_u8(a: u8, b: u8, c: u8)
    by (bit_vector)
    ensures
        (a ^ b) ^ c == (a ^ c) ^ b,
        (a ^ b) ^ b == a,
        0u8 ^ a == a,
        a < 4 && b < 4 ==> a ^ b < 4,
{
}

proof fn lemma_packed_step(q: u8, t: u8, k: u8)
    by (bit_vector)
    requires
        q < 64,
        t < 4,
        k < 4,
    ensures
        ((4 * q + t + 4) % 256) as u8 ^ k == 4 * ((q + 1) % 64) + (t ^ k),
        t ^ k < 4,
{
}

/// A tag is less than 4.
pub proof fn lemma_tag_bounded(g: Geometry, hashes: Seq<u64>, cell: int)
    ensures
        tag(g, hashes, cell) < 4,
    decreases hashes.len(),
{
    if hashes.len() > 0 {
        lemma_tag_bounded(g, hashes.drop_last(), cell);
        lemma_xor_u8(tag(g, hashes.drop_last(), cell), kind(g, hashes.last(), cell), 0);
    }
}

/// One more hash.
pub proof fn lemma_push(g: Geometry, hashes: Seq<u64>, hash: u64, cell: int)
    ensures
        load(g, hashes.push(hash), cell) == load(g, hashes, cell) + if g.touches(hash, cell) {
            1nat
        } else {
            0nat
        },
        sum(g, hashes.push(hash), cell) == if g.touches(hash, cell) {
            sum(g, hashes, cell) ^ hash
        } else {
            sum(g, hashes, cell)
        },
        tag(g, hashes.push(hash), cell) == if g.touches(hash, cell) {
            tag(g, hashes, cell) ^ kind(g, hash, cell)
        } else {
            tag(g, hashes, cell)
        },
{
    assert(hashes.push(hash).drop_last() =~= hashes);
}

/// One hash less.
pub proof fn lemma_remove(g: Geometry, hashes: Seq<u64>, k: int, cell: int)
    requires
        0 <= k < hashes.len(),
    ensures
        load(g, hashes, cell) == load(g, hashes.remove(k), cell) + if g.touches(hashes[k], cell) {
            1nat
        } else {
            0nat
        },
        sum(g, hashes.remove(k), cell) == if g.touches(hashes[k], cell) {
            sum(g, hashes, cell) ^ hashes[k]
        } else {
            sum(g, hashes, cell)
        },
        tag(g, hashes.remove(k), cell) == if g.touches(hashes[k], cell) {
            tag(g, hashes, cell) ^ kind(g, hashes[k], cell)
        } else {
            tag(g, hashes, cell)
        },
    decreases hashes.len(),
{
    let front = hashes.drop_last();
    let last = hashes.last();
    if k == hashes.len() - 1 {
        assert(hashes.remove(k) =~= front);
        lemma_xor_u64(sum(g, front, cell), last, 0);
        lemma_xor_u8(tag(g, front, cell), kind(g, last, cell), 0);
    } else {
        lemma_remove(g, front, k, cell);
        assert(hashes.remove(k) =~= front.remove(k).push(last));
        lemma_push(g, front.remove(k), last, cell);
        lemma_xor_u64(sum(g, front, cell), hashes[k], last);
        lemma_xor_u8(tag(g, front, cell), kind(g, hashes[k], cell), kind(g, last, cell));
    }
}

/// A cell with load 0 is a cell of no hash.
pub proof fn lemma_load_zero(g: Geometry, hashes: Seq<u64>, cell: int)
    requires
        load(g, hashes, cell) == 0,
    ensures
        sum(g, hashes, cell) == 0,
        tag(g, hashes, cell) == 0,
        forall|i: int| 0 <= i < hashes.len() ==> !g.touches(#[trigger] hashes[i], cell),
    decreases hashes.len(),
{
    if hashes.len() > 0 {
        lemma_load_zero(g, hashes.drop_last(), cell);
        assert forall|i: int| 0 <= i < hashes.len() implies !g.touches(
            #[trigger] hashes[i],
            cell,
        ) by {
            if i < hashes.len() - 1 {
                assert(hashes.drop_last()[i] == hashes[i]);
            }
        }
    }
}

/// A cell with a load is a cell of some hash.
pub proof fn lemma_load_positive(g: Geometry, hashes: Seq<u64>, cell: int) -> (k: int)
    requires
        load(g, hashes, cell) >= 1,
    ensures
        0 <= k < hashes.len(),
        g.touches(hashes[k], cell),
    decreases hashes.len(),
{
    if g.touches(hashes.last(), cell) {
        hashes.len() - 1
    } else {
        lemma_load_positive(g, hashes.drop_last(), cell)
    }
}

/// A cell that only the hash number `k` has, has that hash for its sum.
pub proof fn lemma_load_one(g: Geometry, hashes: Seq<u64>, cell: int, k: int)
    requires
        load(g, hashes, cell) == 1,
        0 <= k < hashes.len(),
        g.touches(hashes[k], cell),
    ensures
        sum(g, hashes, cell) == hashes[k],
        tag(g, hashes, cell) == kind(g, hashes[k], cell),
{
    lemma_remove(g, hashes, k, cell);
    lemma_load_zero(g, hashes.remove(k), cell);
    let s = sum(g, hashes, cell);
    let t = tag(g, hashes, cell);
    lemma_xor_u64(s, hashes[k], 0);
    lemma_xor_u64(hashes[k], 0, 0);
    lemma_xor_u8(t, kind(g, hashes[k], cell), 0);
    lemma_xor_u8(kind(g, hashes[k], cell), 0, 0);
}

/// A cell has no more hashes than there are.
pub proof fn lemma_load_bounded(g: Geometry, hashes: Seq<u64>, cell: int)
    ensures
        load(g, hashes, cell) <= hashes.len(),
    decreases hashes.len(),
{
    if hashes.len() > 0 {
        lemma_load_bounded(g, hashes.drop_last(), cell);
    }
}

/// What a cell has of hashes does not depend on their order.
pub proof fn lemma_order_free(g: Geometry, a: Seq<u64>, b: Seq<u64>, cell: int)
    requires
        a.to_multiset() == b.to_multiset(),
    ensures
        load(g, a, cell) == load(g, b, cell),
        sum(g, a, cell) == sum(g, b, cell),
        tag(g, a, cell) == tag(g, b, cell),
    decreases a.len(),
{
    broadcast use vstd::multiset::group_multiset_axioms;

    a.to_multiset_ensures();
    b.to_multiset_ensures();
    if a.len() > 0 {
        let (front, last) = (a.drop_last(), a.last());
        assert(a.contains(last));
        assert(b.to_multiset().count(last) > 0);
        let k = choose|k: int| 0 <= k < b.len() && b[k] == last;
        assert(a.remove(a.len() - 1) =~= front);
        vstd::seq_lib::to_multiset_remove(a, a.len() - 1);
        vstd::seq_lib::to_multiset_remove(b, k);
        lemma_order_free(g, front, b.remove(k), cell);
        lemma_remove(g, b, k, cell);
        lemma_xor_u64(sum(g, b, cell), last, last);
        lemma_xor_u8(tag(g, b, cell), kind(g, last, cell), kind(g, last, cell));
    }
}

/// The load of a cell does not shrink when hashes are added.
proof fn lemma_load_take(g: Geometry, hashes: Seq<u64>, i: int, cell: int)
    requires
        0 <= i <= hashes.len(),
    ensures
        load(g, hashes.take(i), cell) <= load(g, hashes, cell),
    decreases hashes.len(),
{
    if i < hashes.len() {
        assert(hashes.take(i) =~= hashes.drop_last().take(i));
        lemma_load_take(g, hashes.drop_last(), i, cell);
    } else {
        assert(hashes.take(i) =~= hashes);
    }
}

/// Where a cell looks doubled and none is crowded, two hashes are equal.
pub proof fn lemma_duplicate(g: Geometry, hashes: Seq<u64>)
    requires
        shows_duplicate(g, hashes),
        !crowded(g, hashes),
    ensures
        !hashes.no_duplicates(),
{
    let i = choose|i: int| 0 <= i < hashes.len() && #[trigger] doubles_at(g, hashes, i);
    let upto = hashes.take(i + 1);
    let cell = if looks_doubled(g, upto, g.first(hashes[i]) as int) {
        g.first(hashes[i]) as int
    } else if looks_doubled(g, upto, g.second(hashes[i]) as int) {
        g.second(hashes[i]) as int
    } else {
        g.third(hashes[i]) as int
    };
    lemma_load_take(g, hashes, i + 1, cell);
    assert(load(g, hashes, cell) < 64);
    lemma_tag_bounded(g, upto, cell);
    assert(load(g, upto, cell) == 2);
    let front = hashes.take(i);
    assert(upto.drop_last() =~= front);
    let k = lemma_load_positive(g, front, cell);
    lemma_load_one(g, front, cell, k);
    let (x, y) = (hashes[k], hashes[i]);
    assert(x ^ y == 0 ==> x == y) by (bit_vector);
    assert(front[k] == hashes[k]);
    assert(hashes[k] == hashes[i]);
}

/// The byte of a cell with one more hash.
proof fn lemma_packed_push(g: Geometry, hashes: Seq<u64>, hash: u64, cell: int, byte: u8)
    requires
        byte == packed(g, hashes, cell),
        g.touches(hash, cell),
    ensures
        byte.wrapping_add(4) ^ kind(g, hash, cell) == packed(g, hashes.push(hash), cell),
        (packed(g, hashes.push(hash), cell) < 4) == (load(g, hashes.push(hash), cell) % 64 == 0),
{
    lemma_push(g, hashes, hash, cell);
    lemma_tag_bounded(g, hashes, cell);
    lemma_tag_bounded(g, hashes.push(hash), cell);
    let q = (load(g, hashes, cell) % 64) as u8;
    let t = tag(g, hashes, cell);
    let k = kind(g, hash, cell);
    lemma_packed_step(q, t, k);
    assert(byte.wrapping_add(4) == ((4 * q + t + 4) % 256) as u8);
}

/// Adds a hash to the cell number `at`, which is its cell number `which`.
fn bump(counts: &mut Vec<u8>, sums: &mut Vec<u64>, at: usize, hash: u64, which: u8)
    requires
        at < old(counts).len(),
        at < old(sums).len(),
    ensures
        final(counts)@ == old(counts)@.update(
            at as int,
            old(counts)@[at as int].wrapping_add(4) ^ which,
        ),
        final(sums)@ == old(sums)@.update(at as int, old(sums)@[at as int] ^ hash),
{
    counts[at] = counts[at].wrapping_add(4) ^ which;
    sums[at] = sums[at] ^ hash;
}

/// The bytes and the sums of all cells with one more hash.
proof fn lemma_bumped(
    g: Geometry,
    hashes: Seq<u64>,
    hash: u64,
    counts0: Seq<u8>,
    sums0: Seq<u64>,
    counts: Seq<u8>,
    sums: Seq<u64>,
)
    requires
        g.divides(counts0.len() as int),
        sums0.len() == counts0.len(),
        forall|c: int| 0 <= c < counts0.len() ==> #[trigger] counts0[c] == packed(g, hashes, c),
        forall|c: int| 0 <= c < sums0.len() ==> #[trigger] sums0[c] == sum(g, hashes, c),
        ({
            let (x, y, z) = (g.first(hash) as int, g.second(hash) as int, g.third(hash) as int);
            &&& counts == counts0.update(x, counts0[x].wrapping_add(4) ^ 0).update(
                y,
                counts0[y].wrapping_add(4) ^ 1,
            ).update(z, counts0[z].wrapping_add(4) ^ 2)
            &&& sums == sums0.update(x, sums0[x] ^ hash).update(y, sums0[y] ^ hash).update(
                z,
                sums0[z] ^ hash,
            )
        }),
    ensures
        forall|c: int|
            0 <= c < counts.len() ==> #[trigger] counts[c] == packed(g, hashes.push(hash), c),
        forall|c: int| 0 <= c < sums.len() ==> #[trigger] sums[c] == sum(g, hashes.push(hash), c),
        forall|c: int|
            #![trigger counts[c]]
            0 <= c < counts.len() && g.touches(hash, c) ==> (counts[c] < 4) == (load(
                g,
                hashes.push(hash),
                c,
            ) % 64 == 0),
{
    geometry::lemma_cells_ordered(g, counts0.len() as int, hash);
    assert forall|c: int| 0 <= c < counts.len() implies #[trigger] counts[c] == packed(
        g,
        hashes.push(hash),
        c,
    ) && (g.touches(hash, c) ==> (counts[c] < 4) == (load(g, hashes.push(hash), c) % 64 == 0)) by {
        assert(counts0[c] == packed(g, hashes, c));
        lemma_push(g, hashes, hash, c);
        if g.touches(hash, c) {
            lemma_packed_push(g, hashes, hash, c, counts0[c]);
        }
    }
    assert forall|c: int| 0 <= c < sums.len() implies #[trigger] sums[c] == sum(
        g,
        hashes.push(hash),
        c,
    ) by {
        assert(sums0[c] == sum(g, hashes, c));
        lemma_push(g, hashes, hash, c);
    }
}

/// Whether the hash number `i` shows a duplicate, read off what was counted up to it.
proof fn lemma_doubles(g: Geometry, order: Seq<u64>, i: int, counts: Seq<u8>, sums: Seq<u64>)
    requires
        0 <= i < order.len(),
        g.within(order[i], counts.len() as int),
        sums.len() == counts.len(),
        forall|c: int|
            0 <= c < counts.len() ==> #[trigger] counts[c] == packed(g, order.take(i + 1), c),
        forall|c: int| 0 <= c < sums.len() ==> #[trigger] sums[c] == sum(g, order.take(i + 1), c),
    ensures
        ({
            let a = g.first(order[i]) as int;
            let b = g.second(order[i]) as int;
            let c = g.third(order[i]) as int;
            doubles_at(g, order, i) == (sums[a] & sums[b] & sums[c] == 0 && (sums[a] == 0
                && counts[a] == 8 || sums[b] == 0 && counts[b] == 8 || sums[c] == 0 && counts[c]
                == 8))
        }),
{
    let (x, y, z) = (
        sums[g.first(order[i]) as int],
        sums[g.second(order[i]) as int],
        sums[g.third(order[i]) as int],
    );
    assert(x == 0 || y == 0 || z == 0 ==> x & y & z == 0) by (bit_vector);
}

/// Whether the hash number `i` makes a cell crowded, read off what was counted up to it.
proof fn lemma_crowds(g: Geometry, order: Seq<u64>, i: int, counts: Seq<u8>)
    requires
        0 <= i < order.len(),
        g.within(order[i], counts.len() as int),
        forall|c: int|
            #![trigger counts[c]]
            0 <= c < counts.len() && g.touches(order[i], c) ==> (counts[c] < 4) == (load(
                g,
                order.take(i + 1),
                c,
            ) % 64 == 0),
    ensures
        ({
            let a = g.first(order[i]) as int;
            let b = g.second(order[i]) as int;
            let c = g.third(order[i]) as int;
            let full = counts[a] < 4 || counts[b] < 4 || counts[c] < 4;
            &&& full ==> crowded(g, order)
            &&& !full && (forall|x: int| #[trigger] load(g, order.take(i), x) < 64) ==> forall|x: int|
                #[trigger] load(g, order.take(i + 1), x) < 64
        }),
{
    let a = g.first(order[i]) as int;
    let b = g.second(order[i]) as int;
    let c = g.third(order[i]) as int;
    let before = order.take(i);
    assert(order.take(i + 1) =~= before.push(order[i]));
    assert forall|x: int| (x == a || x == b || x == c) && counts[x] < 4 implies load(g, order, x)
        >= 64 by {
        lemma_push(g, before, order[i], x);
        lemma_load_take(g, order, i + 1, x);
    }
    if counts[a] < 4 {
        assert(load(g, order, a) >= 64);
    } else if counts[b] < 4 {
        assert(load(g, order, b) >= 64);
    } else if counts[c] < 4 {
        assert(load(g, order, c) >= 64);
    } else if forall|x: int| #[trigger] load(g, before, x) < 64 {
        assert forall|x: int| #[trigger] load(g, order.take(i + 1), x) < 64 by {
            lemma_push(g, before, order[i], x);
            assert(load(g, before, x) < 64);
            if g.touches(order[i], x) {
                assert(counts[x] >= 4);
            }
        }
    }
}

/// Counts, for each of `cells` cells, the hashes of `order` that have it.
pub fn tally(g: &Geometry, order: &Vec<u64>, cells: usize) -> (r: Tally)
    requires
        g.divides(cells as int),
    ensures
        match r {
            Tally::Duplicate => shows_duplicate(*g, order@),
            Tally::Crowded => !shows_duplicate(*g, order@) && crowded(*g, order@),
            Tally::Counted { counts, sums } => {
                &&& !shows_duplicate(*g, order@)
                &&& !crowded(*g, order@)
                &&& counts.len() == cells
                &&& sums.len() == cells
                &&& forall|c: int|
                    0 <= c < cells ==> #[trigger] counts@[c] == packed(*g, order@, c)
                &&& forall|c: int| 0 <= c < cells ==> #[trigger] sums@[c] == sum(*g, order@, c)
            },
        },
{
    let mut counts: Vec<u8> = vec![0u8; cells];
    let mut sums: Vec<u64> = vec![0u64; cells];
    let mut has_error: bool = false;
    let mut i: usize = 0;
    while i < order.len()
        invariant
            g.divides(cells as int),
            i <= order.len(),
            counts.len() == cells,
            sums.len() == cells,
            forall|c: int|
                0 <= c < cells ==> #[trigger] counts@[c] == packed(*g, order@.take(i as int), c),
            forall|c: int|
                0 <= c < cells ==> #[trigger] sums@[c] == sum(*g, order@.take(i as int), c),
            forall|j: int| 0 <= j < i ==> !#[trigger] doubles_at(*g, order@, j),
            has_error ==> crowded(*g, order@),
            !has_error ==> forall|c: int| #[trigger] load(*g, order@.take(i as int), c) < 64,
        decreases order.len() - i,
    {
        let hash: u64 = order[i];
        let ghost before = order@.take(i as int);
        let ghost after = order@.take(i as int + 1);
        proof {
            geometry::lemma_cells_ordered(*g, cells as int, hash);
            assert(after =~= before.push(hash));
        }
        let (index1, index2, index3) = g.get_hash_from_hash(hash);
        let (a, b, c) = (index1 as usize, index2 as usize, index3 as usize);
        let ghost counts0 = counts@;
        let ghost sums0 = sums@;
        bump(&mut counts, &mut sums, a, hash, 0);
        bump(&mut counts, &mut sums, b, hash, 1);
        bump(&mut counts, &mut sums, c, hash, 2);
        proof {
            lemma_bumped(*g, before, hash, counts0, sums0, counts@, sums@);
        }
        proof {
            lemma_doubles(*g, order@, i as int, counts@, sums@);
        }
        if sums[a] & sums[b] & sums[c] == 0 {
            if (sums[a] == 0 && counts[a] == 8) || (sums[b] == 0 && counts[b] == 8) || (sums[c] == 0
                && counts[c] == 8) {
                return Tally::Duplicate;
            }
        }
        proof {
            lemma_crowds(*g, order@, i as int, counts@);
        }
        if counts[a] < 4 || counts[b] < 4 || counts[c] < 4 {
            has_error = true;
        }
        i = i + 1;
    }
    proof {
        assert(order@.take(i as int) =~= order@);
    }
    if has_error {
        Tally::Crowded
    } else {
        Tally::Counted { counts, sums }
    }
}

} // verus!

//! Filling the cells so that every hash of a peel order finds its word.

use vstd::prelude::*;

use crate::geometry::Geometry;
use crate::peeling::Peeled;
#[allow(unused_imports)]
use crate::{geometry, peeling};

verus! {

/// What one of `cells` cells holds once the hashes of `stack` from number `from` on, the last
/// first, have each set the cell by which they were taken off to what makes their three cells
/// yield their word.
pub open spec fn assigned_from(
    g: Geometry,
    stack: Seq<Peeled>,
    words: Seq<u64>,
    cells: nat,
    from: int,
) -> Seq<u64>
    decreases stack.len() - from,
{
    if from >= stack.len() {
        Seq::new(cells, |c: int| 0u64)
    } else {
        let table = assigned_from(g, stack, words, cells, from + 1);
        let (hash, found) = (stack[from].hash, stack[from].found as int);
        table.update(
            g.cell(hash, found),
            words[from] ^ table[g.cell(hash, found + 1)] ^ table[g.cell(hash, found + 2)],
        )
    }
}

/// The cells once all hashes of `stack` have set theirs.
pub open spec fn assigned(g: Geometry, stack: Seq<Peeled>, words: Seq<u64>, cells: nat) -> Seq<u64> {
    assigned_from(g, stack, words, cells, 0)
}

proof fn lemma_xor_solves(w: u64, a: u64, b: u64)
    by (bit_vector)
    ensures
        (w ^ a ^ b) ^ a ^ b == w,
        b ^ (w ^ a ^ b) ^ a == w,
        a ^ b ^ (w ^ a ^ b) == w,
{
}

proof fn lemma_assigned_from(
    g: Geometry,
    stack: Seq<Peeled>,
    words: Seq<u64>,
    cells: nat,
    from: int,
)
    requires
        g.divides(cells as int),
        peeling::peels(g, stack),
        0 <= from <= stack.len(),
    ensures
        assigned_from(g, stack, words, cells, from).len() == cells,
        forall|i: int|
            from <= i < stack.len() ==> g.lookup(
                assigned_from(g, stack, words, cells, from),
                (#[trigger] stack[i]).hash,
            ) == words[i],
    decreases stack.len() - from,
{
    if from < stack.len() {
        lemma_assigned_from(g, stack, words, cells, from + 1);
        let before = assigned_from(g, stack, words, cells, from + 1);
        let after = assigned_from(g, stack, words, cells, from);
        let (hash, found) = (stack[from].hash, stack[from].found as int);
        let own = stack[from].own_cell(g);
        geometry::lemma_cells_ordered(g, cells as int, hash);
        lemma_xor_solves(
            words[from],
            before[g.cell(hash, found + 1)],
            before[g.cell(hash, found + 2)],
        );
        assert forall|i: int| from <= i < stack.len() implies g.lookup(
            after,
            (#[trigger] stack[i]).hash,
        ) == words[i] by {
            if i > from {
                geometry::lemma_cells_ordered(g, cells as int, stack[i].hash);
                assert(!g.touches(stack[i].hash, own));
            }
        }
    }
}

/// In the filled cells every hash of the stack finds its word.
pub proof fn lemma_assigned(g: Geometry, stack: Seq<Peeled>, words: Seq<u64>, cells: nat)
    requires
        g.divides(cells as int),
        peeling::peels(g, stack),
    ensures
        assigned(g, stack, words, cells).len() == cells,
        forall|i: int|
            0 <= i < stack.len() ==> g.lookup(
                assigned(g, stack, words, cells),
                (#[trigger] stack[i]).hash,
            ) == words[i],
{
    lemma_assigned_from(g, stack, words, cells, 0);
}

proof fn lemma_xor_pairs(a: u64, b: u64, c: u64, d: u64, e: u64, f: u64)
    by (bit_vector)
    ensures
        (a ^ b) ^ (c ^ d) ^ (e ^ f) == (a ^ c ^ e) ^ (b ^ d ^ f),
        0u64 ^ 0u64 == 0u64,
{
}

/// `c` is cell by cell the exclusive or of `a` and `b`.
pub open spec fn combines(a: Seq<u64>, b: Seq<u64>, c: Seq<u64>) -> bool {
    &&& a.len() == b.len() == c.len()
    &&& forall|i: int| 0 <= i < c.len() ==> #[trigger] c[i] == a[i] ^ b[i]
}

proof fn lemma_assigned_from_combines(
    g: Geometry,
    stack: Seq<Peeled>,
    a: Seq<u64>,
    b: Seq<u64>,
    c: Seq<u64>,
    cells: nat,
    from: int,
)
    requires
        g.divides(cells as int),
        combines(a, b, c),
        c.len() == stack.len(),
        0 <= from <= stack.len(),
    ensures
        assigned_from(g, stack, c, cells, from).len() == cells,
        combines(
            assigned_from(g, stack, a, cells, from),
            assigned_from(g, stack, b, cells, from),
            assigned_from(g, stack, c, cells, from),
        ),
    decreases stack.len() - from,
{
    if from < stack.len() {
        lemma_assigned_from_combines(g, stack, a, b, c, cells, from + 1);
        let (hash, found) = (stack[from].hash, stack[from].found as int);
        let (i, j) = (g.cell(hash, found + 1), g.cell(hash, found + 2));
        let (ta, tb) = (
            assigned_from(g, stack, a, cells, from + 1),
            assigned_from(g, stack, b, cells, from + 1),
        );
        geometry::lemma_cells_ordered(g, cells as int, hash);
        lemma_xor_pairs(a[from], b[from], ta[i], tb[i], ta[j], tb[j]);
    } else {
        lemma_xor_pairs(0, 0, 0, 0, 0, 0);
    }
}

/// What the cells hold for words that are combined is what they hold for each, combined.
pub proof fn lemma_assigned_combines(
    g: Geometry,
    stack: Seq<Peeled>,
    a: Seq<u64>,
    b: Seq<u64>,
    c: Seq<u64>,
    cells: nat,
)
    requires
        g.divides(cells as int),
        combines(a, b, c),
        c.len() == stack.len(),
    ensures
        combines(
            assigned(g, stack, a, cells),
            assigned(g, stack, b, cells),
            assigned(g, stack, c, cells),
        ),
{
    lemma_assigned_from_combines(g, stack, a, b, c, cells, 0);
}

proof fn lemma_untouched_from(
    g: Geometry,
    stack: Seq<Peeled>,
    words: Seq<u64>,
    cells: nat,
    from: int,
    c: int,
)
    requires
        g.divides(cells as int),
        0 <= from <= stack.len(),
        0 <= c < cells,
        forall|i: int| 0 <= i < stack.len() ==> !g.touches((#[trigger] stack[i]).hash, c),
    ensures
        assigned_from(g, stack, words, cells, from).len() == cells,
        assigned_from(g, stack, words, cells, from)[c] == 0,
    decreases stack.len() - from,
{
    if from < stack.len() {
        lemma_untouched_from(g, stack, words, cells, from + 1, c);
        geometry::lemma_cells_ordered(g, cells as int, stack[from].hash);
        assert(!g.touches(stack[from].hash, c));
    }
}

/// A cell that is none of those of a hash of the stack stays zero.
pub proof fn lemma_untouched(
    g: Geometry,
    stack: Seq<Peeled>,
    words: Seq<u64>,
    cells: nat,
    c: int,
)
    requires
        g.divides(cells as int),
        0 <= c < cells,
        forall|i: int| 0 <= i < stack.len() ==> !g.touches((#[trigger] stack[i]).hash, c),
    ensures
        assigned(g, stack, words, cells)[c] == 0,
{
    lemma_untouched_from(g, stack, words, cells, 0, c);
}

/// Fills `cells` cells so that every hash of `stack` finds its word.
pub fn assign(g: &Geometry, stack: &Vec<Peeled>, words: &Vec<u64>, cells: usize) -> (table: Vec<u64>)
    requires
        g.divides(cells as int),
        peeling::peels(*g, stack@),
        words.len() == stack.len(),
    ensures
        table@ == assigned(*g, stack@, words@, cells as nat),
{
    let mut table: Vec<u64> = vec![0u64; cells];
    let mut h012: [u32; 5] = [0u32; 5];
    let mut i: usize = stack.len();
    proof {
        assert(table@ =~= Seq::new(cells as nat, |c: int| 0u64));
    }
    while i > 0
        invariant
            g.divides(cells as int),
            peeling::peels(*g, stack@),
            words.len() == stack.len(),
            i <= stack.len(),
            table.len() == cells,
            table@ == assigned_from(*g, stack@, words@, cells as nat, i as int),
        decreases i,
    {
        i = i - 1;
        let hash: u64 = stack[i].hash;
        let found: usize = stack[i].found as usize;
        let (index1, index2, index3) = g.get_hash_from_hash(hash);
        proof {
            geometry::lemma_cells_ordered(*g, cells as int, hash);
            assert(stack@[i as int].found < 3);
        }
        h012[0] = index1;
        h012[1] = index2;
        h012[2] = index3;
        h012[3] = index1;
        h012[4] = index2;
        table[h012[found] as usize] = words[i] ^ table[h012[found + 1] as usize] ^ table[h012[found
            + 2] as usize];
    }
    table
}

} // verus!

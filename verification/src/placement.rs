//! In which order the hashes of the keys are taken.
//!
//! The hashes are spread over as many slots as there are hashes, roughly sorted: their upper
//! bits name a block of slots, and each block is filled from its start.

use vstd::prelude::*;
#[allow(unused_imports)]
use vstd::arithmetic::div_mod::*;
#[allow(unused_imports)]
use vstd::arithmetic::mul::*;
#[allow(unused_imports)]
use vstd::arithmetic::power2::*;
#[allow(unused_imports)]
use vstd::bits::*;

use crate::hash::mixsplit;
#[allow(unused_imports)]
use crate::hash;

verus! {

/// The least number of bits, from `bits` on, that can count `count` segments.
pub open spec fn bits_from(count: u32, bits: u32) -> u32
    decreases 31 - bits,
{
    if bits >= 31 || (1u32 << bits) >= count {
        bits
    } else {
        bits_from(count, (bits + 1) as u32)
    }
}

/// The number of upper bits of a hash that name its block: enough to count `count` segments,
/// and one at least.
pub open spec fn block_bits(count: u32) -> u32 {
    bits_from(count, 1)
}

/// The slots, some of them filled, and for each block the slot at which it goes on.
#[verifier::ext_equal]
pub struct Shelf {
    pub slots: Seq<u64>,
    pub next: Seq<int>,
}

/// The slot at which the block `block` of `slots` slots starts.
pub open spec fn block_start(block: int, slots: int, bits: u32) -> int {
    (block * slots) / pow2(bits as nat) as int
}

/// The block that a hash belongs to.
pub open spec fn home(hash: u64, bits: u32) -> int {
    (hash >> ((64 - bits) as u64)) as int
}

/// Nothing placed yet: `count` empty slots, and behind them one that is never empty.
pub open spec fn empty_shelf(count: nat, bits: u32) -> Shelf {
    Shelf {
        slots: Seq::new(
            count + 1,
            |i: int|
                if i == count {
                    1u64
                } else {
                    0u64
                },
        ),
        next: Seq::new(pow2(bits as nat), |b: int| block_start(b, count as int, bits)),
    }
}

/// The first block from `block` on, going around, that goes on at an empty slot, among the
/// first `tries + 1` blocks.
pub open spec fn probe(shelf: Shelf, block: int, tries: nat) -> int
    decreases tries,
{
    if tries == 0 || shelf.slots[shelf.next[block]] == 0 {
        block
    } else {
        probe(shelf, (block + 1) % shelf.next.len() as int, (tries - 1) as nat)
    }
}

/// The shelf with one more hash.
pub open spec fn put(shelf: Shelf, hash: u64, bits: u32) -> Shelf {
    let block = probe(shelf, home(hash, bits), shelf.next.len());
    Shelf {
        slots: shelf.slots.update(shelf.next[block], hash),
        next: shelf.next.update(block, shelf.next[block] + 1),
    }
}

/// A shelf of `count` slots with `hashes` put on it in order.
pub open spec fn shelved(hashes: Seq<u64>, count: nat, bits: u32) -> Shelf
    decreases hashes.len(),
{
    if hashes.len() == 0 {
        empty_shelf(count, bits)
    } else {
        put(shelved(hashes.drop_last(), count, bits), hashes.last(), bits)
    }
}

/// The order in which `hashes` are taken.
pub open spec fn arrangement(hashes: Seq<u64>, bits: u32) -> Seq<u64> {
    shelved(hashes, hashes.len(), bits).slots.take(hashes.len() as int)
}

/// The hashes of keys under a seed.
pub open spec fn mixed(digests: Seq<u64>, seed: u64) -> Seq<u64> {
    digests.map_values(|digest: u64| hash::mix(digest, seed))
}

spec fn in_block(shelf: Shelf, count: int, bits: u32, block: int, slot: int) -> bool {
    block_start(block, count, bits) <= slot < shelf.next[block]
}

spec fn has_room(shelf: Shelf, block: int) -> bool {
    &&& 0 <= block < shelf.next.len()
    &&& shelf.slots[shelf.next[block]] == 0
}

/// What holds of a shelf of `count` slots with `hashes` on it; `passed` are the slots that some
/// block has gone over.
spec fn shelf_inv(shelf: Shelf, count: nat, bits: u32, hashes: Seq<u64>, passed: Set<int>) -> bool {
    &&& hashes.len() <= count
    &&& shelf.slots.len() == count + 1
    &&& shelf.slots[count as int] == 1
    &&& shelf.next.len() == pow2(bits as nat)
    &&& forall|b: int|
        0 <= b < shelf.next.len() ==> block_start(b, count as int, bits) <= #[trigger] shelf.next[b]
            <= count
    &&& passed.finite()
    &&& passed.len() <= hashes.len()
    &&& forall|s: int| #[trigger] passed.contains(s) ==> 0 <= s < count
    &&& forall|b: int, s: int|
        0 <= b < shelf.next.len() && #[trigger] in_block(shelf, count as int, bits, b, s)
            ==> passed.contains(s)
    &&& forall|s: int|
        0 <= s < count && #[trigger] shelf.slots[s] != 0 ==> exists|b: int|
            0 <= b < shelf.next.len() && #[trigger] in_block(shelf, count as int, bits, b, s)
    &&& forall|v: u64|
        v != 0 ==> #[trigger] shelf.slots.take(count as int).to_multiset().count(v)
            == hashes.to_multiset().count(v)
    &&& shelf.slots.take(count as int).to_multiset().count(0) == hashes.to_multiset().count(0)
        + count - hashes.len()
}

proof fn lemma_block_start(block: int, count: int, bits: u32)
    requires
        0 <= block < pow2(bits as nat),
        0 <= count,
    ensures
        0 <= block_start(block, count, bits) <= count,
        block == 0 ==> block_start(block, count, bits) == 0,
{
    let blocks = pow2(bits as nat) as int;
    assert(0 <= block * count <= blocks * count) by (nonlinear_arith)
        requires
            0 <= block < blocks,
            0 <= count,
    ;
    lemma_div_is_ordered(block * count, blocks * count, blocks);
    lemma_div_is_ordered(0, block * count, blocks);
    lemma_div_multiples_vanish(count, blocks);
    lemma_basic_div_specific_divisor(blocks);
    if block == 0 {
        assert(block * count == 0);
    }
}

/// `count` zeros.
spec fn zeros(count: nat) -> Seq<u64> {
    Seq::new(count, |i: int| 0u64)
}

proof fn lemma_zero_multiset(count: nat)
    ensures
        zeros(count).to_multiset().count(0) == count,
        forall|v: u64| v != 0 ==> #[trigger] zeros(count).to_multiset().count(v) == 0,
    decreases count,
{
    broadcast use vstd::seq_lib::group_to_multiset_ensures;
    broadcast use vstd::multiset::group_multiset_axioms;

    if count == 0 {
        assert(zeros(count) =~= Seq::empty());
    } else {
        lemma_zero_multiset((count - 1) as nat);
        assert(zeros(count) =~= zeros((count - 1) as nat).push(0u64));
    }
}

proof fn lemma_empty_shelf(count: nat, bits: u32)
    ensures
        shelf_inv(empty_shelf(count, bits), count, bits, Seq::empty(), Set::empty()),
{
    broadcast use vstd::seq_lib::group_to_multiset_ensures;
    broadcast use vstd::multiset::group_multiset_axioms;

    let shelf = empty_shelf(count, bits);
    assert forall|b: int| 0 <= b < shelf.next.len() implies block_start(b, count as int, bits)
        <= #[trigger] shelf.next[b] <= count by {
        lemma_block_start(b, count as int, bits);
    }
    assert(shelf.slots.take(count as int) =~= zeros(count));
    lemma_zero_multiset(count);
    assert(Seq::<u64>::empty().to_multiset().count(0) == 0);
}

/// From a slot that no block has gone over, a block with room is found by following the blocks
/// that filled what is in the way.
proof fn lemma_room_from(
    shelf: Shelf,
    count: nat,
    bits: u32,
    hashes: Seq<u64>,
    passed: Set<int>,
    free: int,
    block: int,
) -> (room: int)
    requires
        shelf_inv(shelf, count, bits, hashes, passed),
        0 <= free < count,
        !passed.contains(free),
        0 <= block < shelf.next.len(),
        shelf.next[block] <= free,
    ensures
        has_room(shelf, room),
    decreases free - shelf.next[block],
{
    let slot = shelf.next[block];
    lemma_block_start(block, count as int, bits);
    if shelf.slots[slot] == 0 {
        block
    } else {
        let other = choose|b: int|
            0 <= b < shelf.next.len() && #[trigger] in_block(shelf, count as int, bits, b, slot);
        if shelf.next[other] > free {
            assert(in_block(shelf, count as int, bits, other, free));
        }
        lemma_room_from(shelf, count, bits, hashes, passed, free, other)
    }
}

proof fn lemma_unpassed(count: nat, passed: Set<int>) -> (free: int)
    requires
        passed.finite(),
        passed.len() < count,
    ensures
        0 <= free < count,
        !passed.contains(free),
{
    let all = vstd::set_lib::set_int_range(0, count as int);
    vstd::set_lib::lemma_int_range(0, count as int);
    if forall|s: int| 0 <= s < count ==> passed.contains(s) {
        vstd::set_lib::lemma_len_subset(all, passed);
    }
    choose|s: int| 0 <= s < count && !passed.contains(s)
}

/// As long as not all hashes are placed, some block has room.
proof fn lemma_room(shelf: Shelf, count: nat, bits: u32, hashes: Seq<u64>, passed: Set<int>) -> (room:
    int)
    requires
        shelf_inv(shelf, count, bits, hashes, passed),
        hashes.len() < count,
    ensures
        has_room(shelf, room),
{
    let free = lemma_unpassed(count, passed);
    lemma_pow2_pos(bits as nat);
    lemma_block_start(0, count as int, bits);
    if shelf.next[0] > free {
        assert(in_block(shelf, count as int, bits, 0, free));
    }
    lemma_room_from(shelf, count, bits, hashes, passed, free, 0)
}

/// The probe finds the block with room that is `distance` blocks on, or one before it.
proof fn lemma_probe(shelf: Shelf, block: int, distance: nat, tries: nat)
    requires
        0 <= block < shelf.next.len(),
        distance <= tries,
        has_room(shelf, (block + distance) % shelf.next.len() as int),
    ensures
        has_room(shelf, probe(shelf, block, tries)),
    decreases tries,
{
    let blocks = shelf.next.len() as int;
    if shelf.slots[shelf.next[block]] == 0 {
    } else {
        lemma_small_mod(block as nat, blocks as nat);
        assert(distance > 0);
        let on = (block + 1) % blocks;
        lemma_mod_bound(block + 1, blocks);
        lemma_add_mod_noop(block + 1, distance - 1, blocks);
        lemma_add_mod_noop(on, distance - 1, blocks);
        lemma_mod_twice(block + 1, blocks);
        assert((on + (distance - 1)) % blocks == (block + distance) % blocks);
        lemma_probe(shelf, on, (distance - 1) as nat, (tries - 1) as nat);
    }
}

/// How many blocks `room` is on from `block`, going around.
spec fn distance(block: int, room: int, blocks: int) -> nat {
    if room >= block {
        (room - block) as nat
    } else {
        (room + blocks - block) as nat
    }
}

proof fn lemma_distance(block: int, room: int, blocks: int)
    requires
        0 <= block < blocks,
        0 <= room < blocks,
    ensures
        (block + distance(block, room, blocks)) % blocks == room,
        distance(block, room, blocks) < blocks,
{
    if room >= block {
        lemma_small_mod(room as nat, blocks as nat);
    } else {
        lemma_mod_add_multiples_vanish(room, blocks);
        lemma_small_mod(room as nat, blocks as nat);
    }
}

/// Putting one more hash keeps what holds of the shelf.
proof fn lemma_put(
    shelf: Shelf,
    count: nat,
    bits: u32,
    hashes: Seq<u64>,
    passed: Set<int>,
    hash: u64,
) -> (grown: Set<int>)
    requires
        1 <= bits <= 31,
        shelf_inv(shelf, count, bits, hashes, passed),
        hashes.len() < count,
        0 <= home(hash, bits) < shelf.next.len(),
    ensures
        shelf_inv(put(shelf, hash, bits), count, bits, hashes.push(hash), grown),
        has_room(shelf, probe(shelf, home(hash, bits), shelf.next.len())),
{
    broadcast use vstd::multiset::group_multiset_axioms;

    let room = lemma_room(shelf, count, bits, hashes, passed);
    let blocks = shelf.next.len() as int;
    let from = home(hash, bits);
    lemma_distance(from, room, blocks);
    lemma_probe(shelf, from, distance(from, room, blocks), shelf.next.len());
    let block = probe(shelf, from, shelf.next.len());
    let slot = shelf.next[block];
    lemma_block_start(block, count as int, bits);
    assert(slot < count);
    let grown = passed.insert(slot);
    let new = put(shelf, hash, bits);
    let more = hashes.push(hash);
    assert forall|b: int, s: int|
        0 <= b < new.next.len() && #[trigger] in_block(
            new,
            count as int,
            bits,
            b,
            s,
        ) implies grown.contains(s) by {
        if s != slot {
            assert(in_block(shelf, count as int, bits, b, s));
        }
    }
    assert forall|s: int| 0 <= s < count && #[trigger] new.slots[s] != 0 implies exists|b: int|
        0 <= b < new.next.len() && #[trigger] in_block(new, count as int, bits, b, s) by {
        if s == slot {
            assert(in_block(new, count as int, bits, block, s));
        } else {
            assert(shelf.slots[s] != 0);
            let b = choose|b: int|
                0 <= b < shelf.next.len() && #[trigger] in_block(shelf, count as int, bits, b, s);
            assert(in_block(new, count as int, bits, b, s));
        }
    }
    let taken = shelf.slots.take(count as int);
    let retaken = new.slots.take(count as int);
    assert(retaken =~= taken.update(slot, hash));
    vstd::seq_lib::to_multiset_update(taken, slot, hash);
    vstd::seq_lib::to_multiset_build(hashes, hash);
    taken.to_multiset_ensures();
    assert(taken[slot] == 0);
    assert(taken.contains(0));
    assert(taken.to_multiset().count(0) > 0);
    grown
}

/// A full shelf holds the hashes that were put on it.
proof fn lemma_full_shelf(shelf: Shelf, bits: u32, hashes: Seq<u64>, passed: Set<int>)
    requires
        shelf_inv(shelf, hashes.len(), bits, hashes, passed),
    ensures
        shelf.slots.take(hashes.len() as int).to_multiset() == hashes.to_multiset(),
{
    broadcast use vstd::multiset::group_multiset_axioms;

    let taken = shelf.slots.take(hashes.len() as int);
    assert forall|v: u64| taken.to_multiset().count(v) == hashes.to_multiset().count(v) by {
        if v != 0 {
        }
    }
    assert(taken.to_multiset() =~= hashes.to_multiset());
}

proof fn lemma_home_bv(hash: u64, bits: u32)
    by (bit_vector)
    requires
        1 <= bits <= 31,
    ensures
        hash >> ((64 - bits) as u64) < (1u64 << bits),
{
}

proof fn lemma_wrap_bv(block: u64, bits: u32)
    by (bit_vector)
    requires
        1 <= bits <= 31,
        block < (1u64 << bits),
    ensures
        ((block + 1) as u64) & (((1u64 << bits) - 1) as u64) == if block + 1 == (1u64 << bits) {
            0u64
        } else {
            (block + 1) as u64
        },
        0 < (1u64 << bits) <= 0x8000_0000,
{
}

proof fn lemma_blocks(bits: u32)
    requires
        1 <= bits <= 31,
    ensures
        (1u64 << bits) == pow2(bits as nat),
        (1usize << bits) == pow2(bits as nat),
        2 <= pow2(bits as nat) <= 0x8000_0000,
{
    lemma_u64_pow2_no_overflow(bits as nat);
    lemma_usize_pow2_no_overflow(bits as nat);
    lemma_u64_shl_is_mul(1, bits as u64);
    lemma_usize_shl_is_mul(1, bits as usize);
    lemma_wrap_bv(0, bits);
    lemma_pow2_unfold(bits as nat);
    lemma_pow2_pos((bits - 1) as nat);
    assert(1u64 << bits == 1u64 << (bits as u64)) by (bit_vector);
    assert(1usize << bits == 1usize << (bits as usize)) by (bit_vector);
}

/// The number of upper bits of a hash that name its block.
pub fn calculate_block_bits(segment_count: u32) -> (bits: u32)
    requires
        segment_count <= 0x8000_0000,
    ensures
        bits == block_bits(segment_count),
        1 <= bits <= 31,
{
    let mut bits: u32 = 1;
    while bits < 31 && (1u32 << bits) < segment_count
        invariant
            1 <= bits <= 31,
            block_bits(segment_count) == bits_from(segment_count, bits),
        decreases 31 - bits,
    {
        bits = bits + 1;
    }
    bits
}

/// One bit at least, and 31 at most, name a block.
pub proof fn lemma_block_bits(count: u32)
    ensures
        1 <= block_bits(count) <= 31,
{
    lemma_bits_from(count, 1);
}

proof fn lemma_bits_from(count: u32, bits: u32)
    requires
        bits <= 31,
    ensures
        bits <= bits_from(count, bits) <= 31,
    decreases 31 - bits,
{
    if bits < 31 {
        lemma_bits_from(count, (bits + 1) as u32);
    }
}

/// The arrangement of hashes holds each as often as it was there.
pub proof fn lemma_arrangement(hashes: Seq<u64>, bits: u32)
    requires
        1 <= bits <= 31,
    ensures
        arrangement(hashes, bits).to_multiset() == hashes.to_multiset(),
        arrangement(hashes, bits).len() == hashes.len(),
{
    let passed = lemma_shelved(hashes, hashes.len(), bits);
    lemma_full_shelf(shelved(hashes, hashes.len(), bits), bits, hashes, passed);
}

proof fn lemma_shelved(hashes: Seq<u64>, count: nat, bits: u32) -> (passed: Set<int>)
    requires
        1 <= bits <= 31,
        hashes.len() <= count,
    ensures
        shelf_inv(shelved(hashes, count, bits), count, bits, hashes, passed),
    decreases hashes.len(),
{
    if hashes.len() == 0 {
        lemma_empty_shelf(count, bits);
        assert(hashes =~= Seq::empty());
        Set::empty()
    } else {
        let front = hashes.drop_last();
        let passed = lemma_shelved(front, count, bits);
        lemma_home_bv(hashes.last(), bits);
        lemma_blocks(bits);
        assert(front.push(hashes.last()) =~= hashes);
        lemma_put(shelved(front, count, bits), count, bits, front, passed, hashes.last())
    }
}

/// The slot at which each block starts.
fn block_starts(count: u32, bits: u32) -> (starts: Vec<u32>)
    requires
        1 <= bits <= 31,
    ensures
        starts.len() == pow2(bits as nat),
        forall|b: int|
            0 <= b < starts.len() ==> #[trigger] starts@[b] == block_start(b, count as int, bits),
{
    proof {
        lemma_blocks(bits);
    }
    let blocks: usize = 1usize << bits;
    let mut starts: Vec<u32> = Vec::with_capacity(blocks);
    let mut b: usize = 0;
    while b < blocks
        invariant
            1 <= bits <= 31,
            blocks == pow2(bits as nat),
            blocks <= 0x8000_0000,
            b <= blocks,
            starts.len() == b,
            forall|i: int|
                0 <= i < b ==> #[trigger] starts@[i] == block_start(i, count as int, bits),
        decreases blocks - b,
    {
        proof {
            lemma_block_start(b as int, count as int, bits);
            assert(b * count <= 0x8000_0000 * 0xffff_ffff) by (nonlinear_arith)
                requires
                    0 <= b <= 0x8000_0000,
                    0 <= count <= 0xffff_ffff,
            ;
            lemma_u64_shr_is_div((b * count) as u64, bits as u64);
            let x = (b * count) as u64;
            assert(x >> bits == x >> (bits as u64)) by (bit_vector);
        }
        starts.push(((b as u64 * count as u64) >> bits) as u32);
        b = b + 1;
    }
    starts
}

/// The hashes of the keys with the digests `digests` under `seed`, in the order in which they
/// are taken.
pub fn arrange(digests: &Vec<u64>, seed: u64, bits: u32) -> (order: Vec<u64>)
    requires
        1 <= bits <= 31,
        digests.len() < u32::MAX,
    ensures
        order@ == arrangement(mixed(digests@, seed), bits),
        order@.to_multiset() == mixed(digests@, seed).to_multiset(),
{
    let count: usize = digests.len();
    let ghost hashes = mixed(digests@, seed);
    let mut next: Vec<u32> = block_starts(count as u32, bits);
    let mut slots: Vec<u64> = vec![0u64; count + 1];
    slots[count] = 1;
    let ghost mut shelf = empty_shelf(count as nat, bits);
    let ghost mut passed = Set::<int>::empty();
    proof {
        lemma_blocks(bits);
        lemma_empty_shelf(count as nat, bits);
        assert(hashes.take(0) =~= Seq::empty());
        assert(slots@ =~= shelf.slots);
    }
    let mut i: usize = 0;
    while i < count
        invariant
            1 <= bits <= 31,
            count == digests.len(),
            count < u32::MAX,
            i <= count,
            hashes == mixed(digests@, seed),
            (1u64 << bits) == pow2(bits as nat),
            2 <= pow2(bits as nat) <= 0x8000_0000,
            shelf == shelved(hashes.take(i as int), count as nat, bits),
            shelf_inv(shelf, count as nat, bits, hashes.take(i as int), passed),
            slots@ == shelf.slots,
            next.len() == shelf.next.len(),
            forall|b: int| 0 <= b < next.len() ==> #[trigger] next@[b] == shelf.next[b],
        decreases count - i,
    {
        let hash: u64 = mixsplit(digests[i], seed);
        let ghost room;
        let ghost grown;
        let ghost tries: nat = next.len() as nat;
        proof {
            lemma_home_bv(hash, bits);
            assert(hash == hashes[i as int]);
            assert(hashes.take(i as int + 1) =~= hashes.take(i as int).push(hash));
            assert(hashes.take(i as int + 1).drop_last() =~= hashes.take(i as int));
            room = lemma_room(shelf, count as nat, bits, hashes.take(i as int), passed);
            grown =
            lemma_put(shelf, count as nat, bits, hashes.take(i as int), passed, hash);
            lemma_distance(home(hash, bits), room, next.len() as int);
        }
        let mut block: u64 = hash >> (64 - bits);
        while slots[next[block as usize] as usize] != 0
            invariant
                1 <= bits <= 31,
                count < u32::MAX,
                (1u64 << bits) == pow2(bits as nat),
                2 <= pow2(bits as nat) <= 0x8000_0000,
                shelf_inv(shelf, count as nat, bits, hashes.take(i as int), passed),
                slots@ == shelf.slots,
                next.len() == shelf.next.len(),
                forall|b: int| 0 <= b < next.len() ==> #[trigger] next@[b] == shelf.next[b],
                0 <= block < next.len(),
                has_room(shelf, room),
                distance(block as int, room, next.len() as int) <= tries,
                probe(shelf, block as int, tries) == probe(
                    shelf,
                    home(hash, bits),
                    shelf.next.len(),
                ),
            decreases tries,
        {
            proof {
                lemma_wrap_bv(block, bits);
                let on = (block + 1) % (next.len() as int);
                if block + 1 == next.len() {
                    lemma_mod_self_0(next.len() as int);
                } else {
                    lemma_small_mod((block + 1) as nat, next.len() as nat);
                }
                assert(block != room);
                tries = (tries - 1) as nat;
            }
            block = block + 1;
            block = block & ((1u64 << bits) - 1);
        }
        proof {
            assert(probe(shelf, block as int, tries) == block);
        }
        let slot: u32 = next[block as usize];
        slots[slot as usize] = hash;
        next[block as usize] = slot + 1;
        proof {
            shelf = put(shelf, hash, bits);
            passed = grown;
        }
        i = i + 1;
    }
    proof {
        assert(hashes.take(count as int) =~= hashes);
        lemma_full_shelf(shelf, bits, hashes, passed);
    }
    slots.truncate(count);
    slots
}

/// How many blocks on from `block`, going around, the probe stops, and that all blocks that it
/// passed go on at a slot that is taken.
proof fn lemma_probe_passes(shelf: Shelf, block: int, tries: nat) -> (d: nat)
    requires
        0 <= block < shelf.next.len(),
    ensures
        probe(shelf, block, tries) == (block + d) % (shelf.next.len() as int),
        forall|e: nat|
            e < d ==> shelf.slots[shelf.next[#[trigger] stop(block, e, shelf.next.len() as int)]]
                != 0,
    decreases tries,
{
    let blocks = shelf.next.len() as int;
    lemma_small_mod(block as nat, blocks as nat);
    if tries == 0 || shelf.slots[shelf.next[block]] == 0 {
        0
    } else {
        let on = (block + 1) % blocks;
        lemma_mod_bound(block + 1, blocks);
        let d = lemma_probe_passes(shelf, on, (tries - 1) as nat);
        lemma_around(block, d, blocks);
        assert forall|e: nat| e < d + 1 implies shelf.slots[shelf.next[#[trigger] stop(
            block,
            e,
            blocks,
        )]] != 0 by {
            if e > 0 {
                lemma_around(block, (e - 1) as nat, blocks);
                assert(stop(on, (e - 1) as nat, blocks) == stop(block, e, blocks));
            }
        }
        d + 1
    }
}

/// The block that is `e` blocks on from `block`, going around.
pub open spec fn stop(block: int, e: nat, blocks: int) -> int {
    (block + e) % blocks
}

proof fn lemma_around(block: int, e: nat, blocks: int)
    requires
        blocks > 0,
    ensures
        ((block + 1) % blocks + e) % blocks == (block + (e + 1)) % blocks,
{
    lemma_add_mod_noop(block + 1, e as int, blocks);
    lemma_add_mod_noop((block + 1) % blocks, e as int, blocks);
    lemma_mod_twice(block + 1, blocks);
}

/// The hash `hash` goes to the block `d` blocks on from the one that its upper bits name: the first
/// that goes on at a slot that is free. It is put there, and the block goes on behind it.
pub open spec fn is_put(before: Shelf, after: Shelf, hash: u64, bits: u32, d: nat) -> bool {
    let blocks = pow2(bits as nat) as int;
    let home = hash as int / pow2((64 - bits) as nat) as int;
    let block = stop(home, d, blocks);
    &&& 0 <= before.next[block] < before.slots.len() - 1
    &&& before.slots[before.next[block]] == 0
    &&& forall|e: nat| e < d ==> before.slots[before.next[#[trigger] stop(home, e, blocks)]] != 0
    &&& after.slots == before.slots.update(before.next[block], hash)
    &&& after.next == before.next.update(block, before.next[block] + 1)
}

/// How hashes come into the order in which they are taken. There are as many free slots as hashes,
/// and behind them one that is taken; every block starts at its share of them. The hashes are put
/// one after the other, and the order is that of the slots.
pub proof fn lemma_how_hashes_are_arranged(hashes: Seq<u64>, bits: u32, i: int)
    requires
        1 <= bits <= 31,
        0 <= i < hashes.len(),
    ensures
        ({
            let count = hashes.len();
            let empty = shelved(hashes.take(0), count, bits);
            &&& empty.slots.len() == count + 1
            &&& empty.slots[count as int] == 1
            &&& forall|s: int| 0 <= s < count ==> #[trigger] empty.slots[s] == 0
            &&& empty.next.len() == pow2(bits as nat)
            &&& forall|b: int|
                0 <= b < empty.next.len() ==> #[trigger] empty.next[b] == (b * count) / (pow2(
                    bits as nat,
                ) as int)
            &&& exists|d: nat| #[trigger]
                is_put(
                    shelved(hashes.take(i), count, bits),
                    shelved(hashes.take(i + 1), count, bits),
                    hashes[i],
                    bits,
                    d,
                )
            &&& arrangement(hashes, bits) == shelved(
                hashes.take(count as int),
                count,
                bits,
            ).slots.take(count as int)
        }),
{
    let count = hashes.len();
    let front = hashes.take(i);
    let hash = hashes[i];
    assert(hashes.take(0) =~= Seq::empty());
    assert(hashes.take(count as int) =~= hashes);
    assert(hashes.take(i + 1).drop_last() =~= front);
    let before = shelved(front, count, bits);
    let passed = lemma_shelved(front, count, bits);
    lemma_home_bv(hash, bits);
    lemma_blocks(bits);
    lemma_u64_shr_is_div(hash, (64 - bits) as u64);
    let grown = lemma_put(before, count, bits, front, passed, hash);
    let d = lemma_probe_passes(before, home(hash, bits), before.next.len());
    lemma_block_start(probe(before, home(hash, bits), before.next.len()), count as int, bits);
    assert(is_put(before, shelved(hashes.take(i + 1), count, bits), hash, bits, d));
}

} // verus!

//! The calls that are made on a sink or a source, by the lengths of their buffers.

use vstd::prelude::*;

use crate::layout::IO_CHUNK_WORDS;

verus! {

/// The record with `calls` behind it, where one is kept.
pub open spec fn recorded(record: Option<Seq<nat>>, calls: Seq<nat>) -> Option<Seq<nat>> {
    match record {
        Some(earlier) => Some(earlier + calls),
        None => None,
    }
}

/// The one call that moves `len` bytes, where there are any.
pub open spec fn piece(len: nat) -> Seq<nat> {
    if len == 0 {
        Seq::empty()
    } else {
        seq![len]
    }
}

/// The calls that move `n` words, a chunk at a time.
pub open spec fn chunk_calls(n: int) -> Seq<nat>
    decreases n,
{
    if n <= 0 {
        Seq::empty()
    } else if n < IO_CHUNK_WORDS {
        seq![(8 * n) as nat]
    } else {
        seq![(8 * IO_CHUNK_WORDS) as nat] + chunk_calls(n - IO_CHUNK_WORDS)
    }
}

/// The number of bytes that calls ask for.
pub open spec fn total(calls: Seq<nat>) -> nat
    decreases calls.len(),
{
    if calls.len() == 0 {
        0
    } else {
        calls[0] + total(calls.skip(1))
    }
}

/// The number of bytes that calls move where `available` bytes are there.
pub open spec fn moved(calls: Seq<nat>, available: int) -> int {
    if total(calls) <= available {
        total(calls) as int
    } else {
        available
    }
}

/// The calls that are made in place of `calls` where only `available` bytes are there: the one
/// that is given too little is followed by one for what is missing, which is given nothing, and
/// the others are not made.
pub open spec fn calls_for(calls: Seq<nat>, available: int) -> Seq<nat>
    decreases calls.len(),
{
    if calls.len() == 0 {
        Seq::empty()
    } else if available >= calls[0] {
        seq![calls[0]] + calls_for(calls.skip(1), available - calls[0])
    } else if available <= 0 {
        seq![calls[0]]
    } else {
        seq![calls[0], (calls[0] - available) as nat]
    }
}

/// Words are moved in as many calls as there are chunks, each but the last of a whole chunk.
pub proof fn lemma_chunk_calls(n: int)
    requires
        n >= 0,
    ensures
        chunk_calls(n).len() == (n + IO_CHUNK_WORDS - 1) / IO_CHUNK_WORDS as int,
        forall|i: int|
            0 <= i < chunk_calls(n).len() ==> #[trigger] chunk_calls(n)[i] == if n
                - i * IO_CHUNK_WORDS < IO_CHUNK_WORDS {
                8 * (n - i * IO_CHUNK_WORDS)
            } else {
                8 * IO_CHUNK_WORDS
            },
    decreases n,
{
    if n >= IO_CHUNK_WORDS {
        let rest = n - IO_CHUNK_WORDS;
        lemma_chunk_calls(rest);
        assert forall|i: int| 0 <= i < chunk_calls(n).len() implies #[trigger] chunk_calls(n)[i]
            == if n - i * IO_CHUNK_WORDS < IO_CHUNK_WORDS {
            8 * (n - i * IO_CHUNK_WORDS)
        } else {
            8 * IO_CHUNK_WORDS
        } by {
            if i > 0 {
                assert(chunk_calls(n)[i] == chunk_calls(rest)[i - 1]);
            }
        }
    }
}

/// The calls for some words are the one for the first of them, as many as go in a chunk, and
/// those for the others.
pub proof fn lemma_next_chunk(n: int, count: int)
    requires
        n > 0,
        count == if n < IO_CHUNK_WORDS {
            n
        } else {
            IO_CHUNK_WORDS as int
        },
    ensures
        chunk_calls(n) == piece((8 * count) as nat) + chunk_calls(n - count),
{
    assert(chunk_calls(n) =~= piece((8 * count) as nat) + chunk_calls(n - count));
}

/// The calls for words ask for all of their bytes.
pub proof fn lemma_chunk_total(n: int)
    requires
        n >= 0,
    ensures
        total(chunk_calls(n)) == 8 * n,
    decreases n,
{
    reveal_with_fuel(total, 2);
    if n >= IO_CHUNK_WORDS {
        lemma_chunk_total(n - IO_CHUNK_WORDS);
        assert(chunk_calls(n).skip(1) =~= chunk_calls(n - IO_CHUNK_WORDS));
    }
}

/// The one call asks for all of its bytes.
pub proof fn lemma_piece_total(len: nat)
    ensures
        total(piece(len)) == len,
{
    reveal_with_fuel(total, 2);
    assert(piece(len).len() > 0 ==> piece(len).skip(1) =~= Seq::<nat>::empty());
}

/// One record behind the other.
pub proof fn lemma_recorded(record: Option<Seq<nat>>, a: Seq<nat>, b: Seq<nat>)
    ensures
        recorded(recorded(record, a), b) == recorded(record, a + b),
        recorded(record, Seq::empty()) == record,
{
    if let Some(earlier) = record {
        assert((earlier + a) + b =~= earlier + (a + b));
        assert(earlier + Seq::<nat>::empty() =~= earlier);
    }
}

/// Calls one behind the other.
pub proof fn lemma_total(a: Seq<nat>, b: Seq<nat>)
    ensures
        total(a + b) == total(a) + total(b),
    decreases a.len(),
{
    if a.len() == 0 {
        assert(a + b =~= b);
    } else {
        lemma_total(a.skip(1), b);
        assert((a + b).skip(1) =~= a.skip(1) + b);
    }
}

/// Where there are bytes for the first calls, these are made as they are; where there are not, no
/// others are made.
pub proof fn lemma_calls_for(a: Seq<nat>, b: Seq<nat>, available: int)
    requires
        available >= 0,
    ensures
        total(a) <= available ==> calls_for(a, available) == a && calls_for(a + b, available) == a
            + calls_for(b, available - total(a)),
        total(a) > available ==> calls_for(a + b, available) == calls_for(a, available),
    decreases a.len(),
{
    if a.len() == 0 {
        assert(a + b =~= b);
        assert(a + calls_for(b, available) =~= calls_for(b, available));
    } else {
        assert((a + b).skip(1) =~= a.skip(1) + b);
        if available >= a[0] {
            lemma_calls_for(a.skip(1), b, available - a[0]);
            assert(seq![a[0]] + a.skip(1) =~= a);
            if total(a) <= available {
                let later = calls_for(b, available - total(a));
                assert(seq![a[0]] + (a.skip(1) + later) =~= a + later);
            }
        }
    }
}

/// The record of calls for which there are bytes, and of those behind them.
pub proof fn lemma_then(record: Option<Seq<nat>>, a: Seq<nat>, b: Seq<nat>, available: int)
    requires
        total(a) <= available,
    ensures
        recorded(recorded(record, calls_for(a, available)), calls_for(b, available - total(a)))
            == recorded(record, calls_for(a + b, available)),
        recorded(record, calls_for(a, available)) == recorded(record, a),
{
    lemma_calls_for(a, b, available);
    lemma_recorded(record, a, calls_for(b, available - total(a)));
}

} // verus!

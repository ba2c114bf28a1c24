//! What holds of sinks and sources, and of the calls that are made on them.

use vstd::prelude::*;

use crate::stream::{Recorder, Sink, Source};
#[allow(unused_imports)]
use crate::layout::{FormatError, FrameModel, Kind, Span};
#[allow(unused_imports)]
use crate::stream::WriteError;
#[allow(unused_imports)]
use crate::{calls, format_laws, layout, stream};

verus! {

/// A vector takes all bytes that it is given, behind those that it has, and a slice gives its
/// bytes from the first on. Neither ever fails or moves a buffer in part.
pub proof fn lemma_bytes_in_memory(v: Vec<u8>, s: &[u8])
    ensures
        v.taken() == v@,
        !v.refuses(),
        v.takes_whole(),
        s.rest() == s@,
        !s.fails(),
        s.gives_whole(),
{
}

/// A sink with a record takes and refuses what the sink does, and records the lengths.
pub proof fn lemma_recorded_sink<S: Sink>(r: Recorder<S>)
    ensures
        r.taken() == r.inner.taken(),
        r.refuses() == r.inner.refuses(),
        r.takes_whole() == r.inner.takes_whole(),
        r.failure() == r.inner.failure(),
        r.stalled() == r.inner.stalled(),
        r.offered() == Some(Seq::new(r.lengths@.len(), |i: int| r.lengths@[i] as nat)),
{
    assert(r.record() =~= Seq::new(r.lengths@.len(), |i: int| r.lengths@[i] as nat));
}

/// A source with a record gives and fails as the source does, and records the lengths.
pub proof fn lemma_recorded_source<S: Source>(r: Recorder<S>)
    ensures
        r.rest() == r.inner.rest(),
        r.fails() == r.inner.fails(),
        r.gives_whole() == r.inner.gives_whole(),
        r.failure() == r.inner.failure(),
        r.asked() == Some(Seq::new(r.lengths@.len(), |i: int| r.lengths@[i] as nat)),
{
    assert(r.record() =~= Seq::new(r.lengths@.len(), |i: int| r.lengths@[i] as nat));
}

/// Writing that breaks off leaves the first bytes of all, and not all of them, behind those that
/// were there.
pub proof fn lemma_broken_off_is_a_prefix(before: Seq<u8>, after: Seq<u8>, all: Seq<u8>)
    ensures
        stream::breaks_off(before, after, all) <==> before.len() <= after.len() < before.len()
            + all.len() && after == (before + all).take(after.len() as int),
{
    if stream::breaks_off(before, after, all) {
        let k = choose|k: int| 0 <= k < all.len() && after == before + #[trigger] all.take(k);
        assert((before + all).take(after.len() as int) =~= after);
    }
    if before.len() <= after.len() < before.len() + all.len() && after == (before + all).take(
        after.len() as int,
    ) {
        let k = after.len() - before.len();
        assert(before + all.take(k) =~= after);
    }
}

/// Reading that stops leaves the last of the bytes, and has given fewer than were asked for.
pub proof fn lemma_stopped_leaves_a_suffix(before: Seq<u8>, after: Seq<u8>, len: int)
    ensures
        stream::stops_within(before, after, len) <==> after.len() <= before.len() && before.len()
            - after.len() < len && after == before.skip(before.len() - after.len()),
{
    if stream::stops_within(before, after, len) {
        let k = choose|k: int|
            0 <= k < len && k <= before.len() && after == #[trigger] before.skip(k);
        assert(k == before.len() - after.len());
    }
}

/// The error is that of the last call: the one that it failed with, or that nothing was taken.
pub proof fn lemma_error_of_last_call<E>(error: E, failure: Option<E>, stalled: bool)
    ensures
        WriteError::Sink(error).comes_of(failure, stalled) <==> failure == Some(error),
        WriteError::<E>::WriteZero.comes_of(failure, stalled) <==> failure is None && stalled,
{
}

/// Where calls were made up to one that was refused, a first part of them was made, and the bytes
/// of all of these but the last were taken.
pub proof fn lemma_refused_call_is_the_last(
    record: Seq<nat>,
    after: Option<Seq<nat>>,
    calls: Seq<nat>,
    before: Seq<u8>,
    taken: Seq<u8>,
    all: Seq<u8>,
)
    requires
        stream::refused_at(Some(record), after, calls, before, taken, all),
    ensures
        after matches Some(made) && {
            let j = made.len() - record.len();
            &&& 1 <= j <= calls.len()
            &&& made == record + calls.take(j)
            &&& taken == before + all.take(calls::total(calls.take(j - 1)) as int)
        },
{
    let j = choose|j: int|
        1 <= j <= calls.len() && after == calls::recorded(Some(record), #[trigger] calls.take(j))
            && taken == before + all.take(calls::total(calls.take(j - 1)) as int);
    assert((record + calls.take(j)).len() - record.len() == j);
}

/// Where calls were made up to one that failed, a first part of them was made, and the bytes of all
/// of these but the last were given.
pub proof fn lemma_failed_call_is_the_last(
    record: Seq<nat>,
    after: Option<Seq<nat>>,
    calls: Seq<nat>,
    all: Seq<u8>,
    rest: Seq<u8>,
)
    requires
        stream::failed_at(Some(record), after, calls, all, rest),
    ensures
        after matches Some(made) && {
            let j = made.len() - record.len();
            let asked = calls::total(calls.take(j - 1)) as int;
            &&& 1 <= j <= calls.len()
            &&& made == record + calls.take(j)
            &&& rest == all.skip(if asked <= all.len() {
                asked
            } else {
                all.len() as int
            })
        },
{
    let j = choose|j: int|
        1 <= j <= calls.len() && after == calls::recorded(Some(record), #[trigger] calls.take(j))
            && rest == all.skip(calls::moved(calls.take(j - 1), all.len() as int));
    assert((record + calls.take(j)).len() - record.len() == j);
}

/// Calls are recorded behind those that were recorded before, and ask for as many bytes as each of
/// them does.
pub proof fn lemma_records_and_totals(
    record: Seq<nat>,
    calls: Seq<nat>,
    call: nat,
    available: int,
)
    ensures
        calls::recorded(Some(record), calls) == Some(record + calls),
        calls::recorded(None, calls) is None,
        calls::total(Seq::empty()) == 0,
        calls::total(calls.push(call)) == calls::total(calls) + call,
        calls::piece(0).len() == 0,
        call > 0 ==> calls::piece(call) == seq![call],
        calls::moved(calls, available) <= available,
        calls::moved(calls, available) <= calls::total(calls),
        calls::moved(calls, available) == available || calls::moved(calls, available)
            == calls::total(calls),
{
    assert(calls.push(call) =~= calls + seq![call]);
    calls::lemma_total(calls, seq![call]);
    reveal_with_fuel(calls::total, 2);
    assert(seq![call].skip(1) =~= Seq::empty());
}

/// Words are moved 8192 at a time, and those that are left at last.
pub proof fn lemma_words_in_chunks(n: int)
    requires
        n >= 0,
    ensures
        calls::chunk_calls(n).len() == (n + 8191) / 8192,
        forall|i: int|
            0 <= i < calls::chunk_calls(n).len() ==> #[trigger] calls::chunk_calls(n)[i] == 8 * (if n
                - 8192 * i < 8192 {
                n - 8192 * i
            } else {
                8192
            }),
{
    calls::lemma_chunk_calls(n);
    assert forall|i: int| 0 <= i < calls::chunk_calls(n).len() implies #[trigger] calls::chunk_calls(
        n,
    )[i] == 8 * (if n - 8192 * i < 8192 {
        n - 8192 * i
    } else {
        8192
    }) by {
        assert(i * 8192 == 8192 * i);
    }
}

/// A map is moved a field of its header at a time, then its words in chunks, array by array, and its
/// checksum last. It is read so as well, but for bytes that begin otherwise: of these the first
/// eight are read and no others.
pub proof fn lemma_calls_of_a_map(n: int, s: Seq<u8>)
    requires
        n >= 0,
    ensures
        Kind::Plain.calls(n) == seq![8nat, 8, 4, 4, 4] + calls::chunk_calls(n) + seq![8nat],
        Kind::Verified.calls(n) == seq![8nat, 8, 4, 4, 4, 4] + calls::chunk_calls(n)
            + calls::chunk_calls(n) + seq![8nat],
        Kind::Plain.read_calls(s) == if s.len() >= 8 && s.take(8) == format_laws::plain_magic() {
            Kind::Plain.calls(layout::half_at(s, 24) as int)
        } else {
            seq![8nat]
        },
        Kind::Verified.read_calls(s) == if s.len() >= 8 && s.take(8)
            == format_laws::verified_magic() {
            Kind::Verified.calls(layout::half_at(s, 24) as int)
        } else {
            seq![8nat]
        },
{
    format_laws::lemma_magic_bytes();
    assert(Kind::Plain.calls(n) =~= seq![8nat, 8, 4, 4, 4] + calls::chunk_calls(n) + seq![8nat]);
    assert(Kind::Verified.calls(n) =~= seq![8nat, 8, 4, 4, 4, 4] + calls::chunk_calls(n)
        + calls::chunk_calls(n) + seq![8nat]);
}

/// Of calls for which there are bytes all are made. Else they are made up to the first that is
/// given too little, which is followed by one for what is missing if it is given anything.
pub proof fn lemma_calls_where_bytes_end(calls: Seq<nat>, available: int, j: int)
    requires
        available >= 0,
    ensures
        calls::total(calls) <= available ==> calls::calls_for(calls, available) == calls,
        0 <= j < calls.len() && calls::total(calls.take(j)) <= available < calls::total(
            calls.take(j + 1),
        ) ==> calls::calls_for(calls, available) == calls.take(j + 1) + (if available
            == calls::total(calls.take(j)) {
            Seq::empty()
        } else {
            seq![(calls::total(calls.take(j + 1)) - available) as nat]
        }),
{
    assert(calls + Seq::<nat>::empty() =~= calls);
    calls::lemma_calls_for(calls, Seq::empty(), available);
    if 0 <= j < calls.len() && calls::total(calls.take(j)) <= available < calls::total(
        calls.take(j + 1),
    ) {
        let (a, b) = (calls.take(j), calls.skip(j));
        assert(a + b =~= calls);
        calls::lemma_calls_for(a, b, available);
        assert(calls.take(j + 1) =~= a + seq![calls[j]]);
        calls::lemma_total(a, seq![calls[j]]);
        reveal_with_fuel(calls::total, 2);
        assert(seq![calls[j]].skip(1) =~= Seq::empty());
        let left = available - calls::total(a);
        assert(b[0] == calls[j]);
        assert(calls::calls_for(b, left) =~= seq![calls[j]] + (if left == 0 {
            Seq::empty()
        } else {
            seq![(calls[j] - left) as nat]
        }));
        assert(calls::calls_for(calls, available) =~= calls.take(j + 1) + (if left == 0 {
            Seq::empty()
        } else {
            seq![(calls[j] - left) as nat]
        }));
    }
}

/// A source that fails has given the first bytes, and the words that are named are those that
/// would be where the bytes ended there.
pub proof fn lemma_failing_source_stops_early(kind: Kind, s: Seq<u8>, after: Seq<u8>, at: Option<Span>)
    ensures
        kind.stops_at(s, after, at) <==> after.len() <= s.len() && after == s.skip(
            s.len() - after.len(),
        ) && kind.decoded(s.take(s.len() - after.len())) == Err::<FrameModel, FormatError>(
            FormatError::UnexpectedEof(at),
        ),
{
    if kind.stops_at(s, after, at) {
        let p = choose|p: int|
            0 <= p <= s.len() && after == s.skip(p) && #[trigger] kind.decoded(s.take(p)) == Err::<
                FrameModel,
                FormatError,
            >(FormatError::UnexpectedEof(at));
        assert(p == s.len() - after.len());
    }
}

} // verus!

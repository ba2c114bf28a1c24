//! Where bytes go to and come from.

use vstd::prelude::*;

#[allow(unused_imports)]
use crate::calls;

verus! {

/// Something that takes bytes, as many at a time as it likes.
///
/// The contract of `write` is stated over the bytes that were taken. An implementation that is not
/// itself verified need not write down what these are: the functions that say so are ghosts, and
/// what is proved of a use of it holds as far as it keeps the contract for some choice of them.
pub trait Sink {
    type Error;

    /// The bytes taken so far.
    open spec fn taken(&self) -> Seq<u8> {
        Seq::empty()
    }

    /// Whether it may turn bytes away.
    open spec fn refuses(&self) -> bool {
        true
    }

    /// The error with which the last call ended, if it ended with one.
    open spec fn failure(&self) -> Option<Self::Error> {
        None
    }

    /// Whether the last call took nothing though there was something to take.
    open spec fn stalled(&self) -> bool {
        false
    }

    /// Whether it takes each buffer whole that it does not fail on.
    open spec fn takes_whole(&self) -> bool {
        false
    }

    /// The lengths of the buffers that it was called with so far, where a record of them is kept.
    open spec fn offered(&self) -> Option<Seq<nat>> {
        None
    }

    /// Takes bytes off the front of `buf`, and says how many.
    fn write(&mut self, buf: &[u8]) -> (r: Result<usize, Self::Error>)
        ensures
            final(self).refuses() == old(self).refuses(),
            final(self).takes_whole() == old(self).takes_whole(),
            final(self).offered() == calls::recorded(old(self).offered(), seq![buf@.len()]),
            final(self).stalled() == (r matches Ok(n) && n == 0 && buf@.len() > 0),
            match r {
                Ok(n) => {
                    &&& n <= buf@.len()
                    &&& final(self).taken() == old(self).taken() + buf@.take(n as int)
                    &&& n == 0 && buf@.len() > 0 ==> old(self).refuses()
                    &&& old(self).takes_whole() ==> n == buf@.len()
                    &&& final(self).failure() is None
                },
                Err(e) => {
                    &&& old(self).refuses()
                    &&& final(self).taken() == old(self).taken()
                    &&& final(self).failure() == Some(e)
                },
            },
    ;
}

/// Something that gives bytes, as many at a time as it likes.
///
/// The contract of `read` is stated over the bytes that are still to be given. An implementation
/// that is not itself verified need not write down what these are: the functions that say so are
/// ghosts, and what is proved of a use of it holds as far as it keeps the contract for some choice
/// of them.
pub trait Source {
    type Error;

    /// The bytes not given yet.
    open spec fn rest(&self) -> Seq<u8> {
        Seq::empty()
    }

    /// Whether it may fail to give a byte.
    open spec fn fails(&self) -> bool {
        true
    }

    /// The error with which the last call ended, if it ended with one.
    open spec fn failure(&self) -> Option<Self::Error> {
        None
    }

    /// Whether it fills each buffer whole that it does not fail on, as long as there are bytes.
    open spec fn gives_whole(&self) -> bool {
        false
    }

    /// The lengths of the buffers that it was called with so far, where a record of them is kept.
    open spec fn asked(&self) -> Option<Seq<nat>> {
        None
    }

    /// Puts bytes into the front of `buf`, and says how many.
    fn read(&mut self, buf: &mut [u8]) -> (r: Result<usize, Self::Error>)
        ensures
            final(self).fails() == old(self).fails(),
            final(self).gives_whole() == old(self).gives_whole(),
            final(self).asked() == calls::recorded(old(self).asked(), seq![old(buf)@.len()]),
            final(buf)@.len() == old(buf)@.len(),
            match r {
                Ok(n) => {
                    &&& n <= old(buf)@.len()
                    &&& n <= old(self).rest().len()
                    &&& final(buf)@.take(n as int) == old(self).rest().take(n as int)
                    &&& final(self).rest() == old(self).rest().skip(n as int)
                    &&& n == 0 ==> old(buf)@.len() == 0 || old(self).rest().len() == 0
                    &&& old(self).gives_whole() ==> n == old(buf)@.len() || n
                        == old(self).rest().len()
                    &&& final(self).failure() is None
                },
                Err(e) => {
                    &&& old(self).fails()
                    &&& final(self).rest() == old(self).rest()
                    &&& final(self).failure() == Some(e)
                },
            },
    ;
}

impl Sink for Vec<u8> {
    type Error = ();

    open spec fn taken(&self) -> Seq<u8> {
        self@
    }

    open spec fn refuses(&self) -> bool {
        false
    }

    open spec fn takes_whole(&self) -> bool {
        true
    }

    fn write(&mut self, buf: &[u8]) -> (r: Result<usize, ()>) {
        self.extend_from_slice(buf);
        proof {
            assert(self@ =~= old(self)@ + buf@.take(buf@.len() as int));
        }
        Ok(buf.len())
    }
}

impl<'a> Source for &'a [u8] {
    type Error = ();

    open spec fn rest(&self) -> Seq<u8> {
        self@
    }

    open spec fn fails(&self) -> bool {
        false
    }

    open spec fn gives_whole(&self) -> bool {
        true
    }

    fn read(&mut self, buf: &mut [u8]) -> (r: Result<usize, ()>) {
        let all: &'a [u8] = *self;
        let n: usize = if buf.len() < all.len() {
            buf.len()
        } else {
            all.len()
        };
        let (front, back) = all.split_at(n);
        let mut i: usize = 0;
        while i < n
            invariant
                i <= n <= buf@.len(),
                n == front@.len(),
                buf@.len() == old(buf)@.len(),
                buf@.take(i as int) == front@.take(i as int),
            decreases n - i,
        {
            buf[i] = front[i];
            i = i + 1;
        }
        *self = back;
        proof {
            assert(front@.take(n as int) =~= front@);
        }
        Ok(n)
    }
}

/// A sink or a source with a record of the calls that were made on it.
#[derive(Debug)]
pub struct Recorder<S> {
    pub inner: S,
    /// The lengths of the buffers.
    pub lengths: Vec<usize>,
}

impl<S> Recorder<S> {
    /// The lengths of the buffers.
    pub open spec fn record(&self) -> Seq<nat> {
        self.lengths@.map_values(|len: usize| len as nat)
    }

    /// Nothing recorded yet.
    pub fn new(inner: S) -> (r: Recorder<S>)
        ensures
            r.inner == inner,
            r.record() == Seq::<nat>::empty(),
    {
        Recorder { inner, lengths: Vec::new() }
    }

    /// Records a call.
    fn note(&mut self, len: usize)
        ensures
            final(self).inner == old(self).inner,
            final(self).record() == old(self).record() + seq![len as nat],
    {
        self.lengths.push(len);
        proof {
            assert(self.record() =~= old(self).record() + seq![len as nat]);
        }
    }
}

impl<S: Sink> Sink for Recorder<S> {
    type Error = S::Error;

    open spec fn taken(&self) -> Seq<u8> {
        self.inner.taken()
    }

    open spec fn refuses(&self) -> bool {
        self.inner.refuses()
    }

    open spec fn failure(&self) -> Option<S::Error> {
        self.inner.failure()
    }

    open spec fn stalled(&self) -> bool {
        self.inner.stalled()
    }

    open spec fn takes_whole(&self) -> bool {
        self.inner.takes_whole()
    }

    open spec fn offered(&self) -> Option<Seq<nat>> {
        Some(self.record())
    }

    fn write(&mut self, buf: &[u8]) -> (r: Result<usize, S::Error>) {
        self.note(buf.len());
        self.inner.write(buf)
    }
}

impl<S: Source> Source for Recorder<S> {
    type Error = S::Error;

    open spec fn rest(&self) -> Seq<u8> {
        self.inner.rest()
    }

    open spec fn fails(&self) -> bool {
        self.inner.fails()
    }

    open spec fn failure(&self) -> Option<S::Error> {
        self.inner.failure()
    }

    open spec fn gives_whole(&self) -> bool {
        self.inner.gives_whole()
    }

    open spec fn asked(&self) -> Option<Seq<nat>> {
        Some(self.record())
    }

    fn read(&mut self, buf: &mut [u8]) -> (r: Result<usize, S::Error>) {
        self.note(buf.len());
        self.inner.read(buf)
    }
}

/// Why bytes were not written.
#[derive(Debug)]
pub enum WriteError<E> {
    /// The sink failed.
    Sink(E),
    /// The sink took nothing.
    WriteZero,
}

/// Why bytes were not read.
#[derive(Debug)]
pub enum ExactError<E> {
    /// The source failed.
    Source(E),
    /// The source came to its end.
    UnexpectedEof,
}

impl<E> WriteError<E> {
    /// The error comes of a last call that ended with `failure`, or with nothing taken where it
    /// `stalled`.
    pub open spec fn comes_of(self, failure: Option<E>, stalled: bool) -> bool {
        match self {
            WriteError::Sink(e) => failure == Some(e),
            WriteError::WriteZero => failure is None && stalled,
        }
    }
}

/// `after` is what is left of `before` when fewer than `len` bytes have been given.
pub open spec fn stops_within(before: Seq<u8>, after: Seq<u8>, len: int) -> bool {
    exists|k: int| 0 <= k < len && k <= before.len() && after == #[trigger] before.skip(k)
}

/// `after` is `before` and a part of `all` that breaks off.
pub open spec fn breaks_off(before: Seq<u8>, after: Seq<u8>, all: Seq<u8>) -> bool {
    exists|k: int| 0 <= k < all.len() && after == before + #[trigger] all.take(k)
}

/// Calls were made up to one that was refused, and none behind it: `after` is `record` with them,
/// and `taken` is `before` and the bytes of `all` that the calls in front of that one moved.
pub open spec fn refused_at(
    record: Option<Seq<nat>>,
    after: Option<Seq<nat>>,
    calls: Seq<nat>,
    before: Seq<u8>,
    taken: Seq<u8>,
    all: Seq<u8>,
) -> bool {
    exists|j: int|
        1 <= j <= calls.len() && after == calls::recorded(record, #[trigger] calls.take(j))
            && taken == before + all.take(calls::total(calls.take(j - 1)) as int)
}

/// Calls were made up to one that failed, and none behind it: `after` is `record` with them, and
/// `rest` is what the calls in front of that one left of `all`.
pub open spec fn failed_at(
    record: Option<Seq<nat>>,
    after: Option<Seq<nat>>,
    calls: Seq<nat>,
    all: Seq<u8>,
    rest: Seq<u8>,
) -> bool {
    exists|j: int|
        1 <= j <= calls.len() && after == calls::recorded(record, #[trigger] calls.take(j))
            && rest == all.skip(calls::moved(calls.take(j - 1), all.len() as int))
}

/// What is refused in the first part is refused in the whole.
pub proof fn lemma_refused_early(
    record: Option<Seq<nat>>,
    after: Option<Seq<nat>>,
    calls: (Seq<nat>, Seq<nat>),
    before: Seq<u8>,
    taken: Seq<u8>,
    all: (Seq<u8>, Seq<u8>),
)
    requires
        calls::total(calls.0) <= all.0.len(),
        refused_at(record, after, calls.0, before, taken, all.0),
    ensures
        refused_at(record, after, calls.0 + calls.1, before, taken, all.0 + all.1),
{
    let (a, b) = calls;
    let j = choose|j: int|
        1 <= j <= a.len() && after == calls::recorded(record, #[trigger] a.take(j)) && taken
            == before + all.0.take(calls::total(a.take(j - 1)) as int);
    assert((a + b).take(j) =~= a.take(j));
    assert((a + b).take(j - 1) =~= a.take(j - 1));
    assert(a.take(j - 1) + a.skip(j - 1) =~= a);
    calls::lemma_total(a.take(j - 1), a.skip(j - 1));
    let k = calls::total(a.take(j - 1)) as int;
    assert((all.0 + all.1).take(k) =~= all.0.take(k));
}

/// What is refused behind the first part is refused in the whole.
pub proof fn lemma_refused_late(
    record: Option<Seq<nat>>,
    after: Option<Seq<nat>>,
    calls: (Seq<nat>, Seq<nat>),
    before: Seq<u8>,
    taken: Seq<u8>,
    all: (Seq<u8>, Seq<u8>),
)
    requires
        calls::total(calls.0) == all.0.len(),
        calls::total(calls.1) <= all.1.len(),
        refused_at(calls::recorded(record, calls.0), after, calls.1, before + all.0, taken, all.1),
    ensures
        refused_at(record, after, calls.0 + calls.1, before, taken, all.0 + all.1),
{
    let (a, b) = calls;
    let made = calls::recorded(record, a);
    let j = choose|j: int|
        1 <= j <= b.len() && after == calls::recorded(made, #[trigger] b.take(j)) && taken == (
        before + all.0) + all.1.take(calls::total(b.take(j - 1)) as int);
    assert((a + b).take(a.len() + j) =~= a + b.take(j));
    assert((a + b).take(a.len() + j - 1) =~= a + b.take(j - 1));
    calls::lemma_recorded(record, a, b.take(j));
    calls::lemma_total(a, b.take(j - 1));
    assert(b.take(j - 1) + b.skip(j - 1) =~= b);
    calls::lemma_total(b.take(j - 1), b.skip(j - 1));
    let k = calls::total(b.take(j - 1)) as int;
    assert(before + (all.0 + all.1).take(all.0.len() + k) =~= (before + all.0) + all.1.take(k));
}

/// What is refused in the middle is refused in the whole.
pub proof fn lemma_refused_within(
    record: Option<Seq<nat>>,
    after: Option<Seq<nat>>,
    calls: (Seq<nat>, Seq<nat>, Seq<nat>),
    before: Seq<u8>,
    taken: Seq<u8>,
    all: (Seq<u8>, Seq<u8>, Seq<u8>),
)
    requires
        calls::total(calls.0) == all.0.len(),
        calls::total(calls.1) == all.1.len(),
        refused_at(calls::recorded(record, calls.0), after, calls.1, before + all.0, taken, all.1),
    ensures
        refused_at(
            record,
            after,
            calls.0 + (calls.1 + calls.2),
            before,
            taken,
            all.0 + all.1 + all.2,
        ),
{
    let (a, b, c) = calls;
    lemma_refused_late(record, after, (a, b), before, taken, (all.0, all.1));
    calls::lemma_total(a, b);
    lemma_refused_early(record, after, (a + b, c), before, taken, (all.0 + all.1, all.2));
    assert((a + b) + c =~= a + (b + c));
}

/// What fails in the first part fails in the whole.
pub proof fn lemma_failed_early(
    record: Option<Seq<nat>>,
    after: Option<Seq<nat>>,
    a: Seq<nat>,
    b: Seq<nat>,
    all: Seq<u8>,
    rest: Seq<u8>,
)
    requires
        failed_at(record, after, calls::calls_for(a, all.len() as int), all, rest),
    ensures
        failed_at(record, after, calls::calls_for(a + b, all.len() as int), all, rest),
{
    let n = all.len() as int;
    let (first, whole) = (calls::calls_for(a, n), calls::calls_for(a + b, n));
    let j = choose|j: int|
        1 <= j <= first.len() && after == calls::recorded(record, #[trigger] first.take(j)) && rest
            == all.skip(calls::moved(first.take(j - 1), n));
    calls::lemma_calls_for(a, b, n);
    assert(whole.take(j) =~= first.take(j));
    assert(whole.take(j - 1) =~= first.take(j - 1));
}

/// What fails behind the first part fails in the whole.
pub proof fn lemma_failed_late(
    record: Option<Seq<nat>>,
    after: Option<Seq<nat>>,
    a: Seq<nat>,
    b: Seq<nat>,
    all: Seq<u8>,
    rest: Seq<u8>,
)
    requires
        calls::total(a) <= all.len(),
        ({
            let left = all.skip(calls::total(a) as int);
            failed_at(
                calls::recorded(record, a),
                after,
                calls::calls_for(b, left.len() as int),
                left,
                rest,
            )
        }),
    ensures
        failed_at(record, after, calls::calls_for(a + b, all.len() as int), all, rest),
{
    let n = all.len() as int;
    let left = all.skip(calls::total(a) as int);
    let (last, whole) = (calls::calls_for(b, left.len() as int), calls::calls_for(a + b, n));
    let made = calls::recorded(record, a);
    let j = choose|j: int|
        1 <= j <= last.len() && after == calls::recorded(made, #[trigger] last.take(j)) && rest
            == left.skip(calls::moved(last.take(j - 1), left.len() as int));
    calls::lemma_calls_for(a, b, n);
    assert(whole.take(a.len() + j) =~= a + last.take(j));
    assert(whole.take(a.len() + j - 1) =~= a + last.take(j - 1));
    calls::lemma_recorded(record, a, last.take(j));
    calls::lemma_total(a, last.take(j - 1));
    assert(rest =~= all.skip(calls::moved(a + last.take(j - 1), n)));
}

/// What fails in the middle fails in the whole.
pub proof fn lemma_failed_within(
    record: Option<Seq<nat>>,
    after: Option<Seq<nat>>,
    calls: (Seq<nat>, Seq<nat>, Seq<nat>),
    all: Seq<u8>,
    rest: Seq<u8>,
)
    requires
        calls::total(calls.0) <= all.len(),
        ({
            let left = all.skip(calls::total(calls.0) as int);
            failed_at(
                calls::recorded(record, calls.0),
                after,
                calls::calls_for(calls.1, left.len() as int),
                left,
                rest,
            )
        }),
    ensures
        failed_at(
            record,
            after,
            calls::calls_for(calls.0 + (calls.1 + calls.2), all.len() as int),
            all,
            rest,
        ),
{
    let (a, b, c) = calls;
    let left = all.skip(calls::total(a) as int);
    lemma_failed_early(calls::recorded(record, a), after, b, c, left, rest);
    lemma_failed_late(record, after, a, b + c, all, rest);
}

/// What breaks off in the first part breaks off in the whole.
pub proof fn lemma_breaks_off_early(before: Seq<u8>, after: Seq<u8>, a: Seq<u8>, b: Seq<u8>)
    requires
        breaks_off(before, after, a),
    ensures
        breaks_off(before, after, a + b),
{
    let k = choose|k: int| 0 <= k < a.len() && after == before + #[trigger] a.take(k);
    assert((a + b).take(k) =~= a.take(k));
}

/// What breaks off behind the first part breaks off in the whole.
pub proof fn lemma_breaks_off_late(before: Seq<u8>, after: Seq<u8>, a: Seq<u8>, b: Seq<u8>)
    requires
        breaks_off(before + a, after, b),
    ensures
        breaks_off(before, after, a + b),
{
    let k = choose|k: int| 0 <= k < b.len() && after == (before + a) + #[trigger] b.take(k);
    assert(before + (a + b).take(a.len() + k) =~= (before + a) + b.take(k));
}

/// Writes all of `buf`.
pub fn write_all<W: Sink>(w: &mut W, buf: &[u8]) -> (r: Result<(), WriteError<W::Error>>)
    ensures
        final(w).refuses() == old(w).refuses(),
        final(w).takes_whole() == old(w).takes_whole(),
        match r {
            Ok(_) => {
                &&& final(w).taken() == old(w).taken() + buf@
                &&& old(w).takes_whole() ==> final(w).offered() == calls::recorded(
                    old(w).offered(),
                    calls::piece(buf@.len()),
                )
            },
            Err(e) => {
                &&& old(w).refuses()
                &&& breaks_off(old(w).taken(), final(w).taken(), buf@)
                &&& e.comes_of(final(w).failure(), final(w).stalled())
                &&& old(w).takes_whole() ==> refused_at(
                    old(w).offered(),
                    final(w).offered(),
                    calls::piece(buf@.len()),
                    old(w).taken(),
                    final(w).taken(),
                    buf@,
                )
            },
        },
{
    let mut rest: &[u8] = buf;
    let ghost mut done: int = 0;
    proof {
        assert(old(w).taken() + buf@.take(0) =~= old(w).taken());
        assert(buf@.skip(0) =~= buf@);
    }
    while rest.len() > 0
        invariant
            0 <= done <= buf@.len(),
            rest@ == buf@.skip(done),
            w.taken() == old(w).taken() + buf@.take(done),
            w.refuses() == old(w).refuses(),
            w.takes_whole() == old(w).takes_whole(),
            w.takes_whole() && done == 0 ==> w.offered() == old(w).offered(),
            w.takes_whole() && done > 0 ==> done == buf@.len() && w.offered() == calls::recorded(
                old(w).offered(),
                calls::piece(buf@.len()),
            ),
        decreases rest@.len(),
    {
        proof {
            assert(calls::piece(buf@.len()).take(1) =~= seq![buf@.len()]);
            assert(calls::piece(buf@.len()).take(0) =~= Seq::empty());
        }
        match w.write(rest) {
            Ok(n) => {
                if n == 0 {
                    return Err(WriteError::WriteZero);
                }
                let (front, back) = rest.split_at(n);
                proof {
                    assert(buf@.take(done) + rest@.take(n as int) =~= buf@.take(done + n));
                    assert(w.taken() =~= old(w).taken() + buf@.take(done + n));
                    assert(back@ =~= buf@.skip(done + n));
                    done = done + n;
                }
                rest = back;
            },
            Err(e) => {
                return Err(WriteError::Sink(e));
            },
        }
    }
    proof {
        assert(buf@.take(done) =~= buf@);
        calls::lemma_recorded(old(w).offered(), Seq::empty(), Seq::empty());
    }
    Ok(())
}

/// The calls that fill a buffer of `len` bytes where `available` bytes are there.
proof fn lemma_one_call(len: nat, available: int)
    requires
        available >= 0,
    ensures
        calls::calls_for(calls::piece(len), available) == if len <= available {
            calls::piece(len)
        } else if available == 0 {
            seq![len]
        } else {
            seq![len] + seq![(len - available) as nat]
        },
{
    reveal_with_fuel(calls::calls_for, 2);
    let calls = calls::piece(len);
    if len > 0 {
        assert(calls.skip(1) =~= Seq::empty());
        assert(seq![len] + Seq::<nat>::empty() =~= seq![len]);
        if 0 < available < len {
            assert(seq![len] + seq![(len - available) as nat] =~= seq![
                len,
                (len - available) as nat,
            ]);
        }
    }
}

/// Fills all of `buf`.
pub fn read_exact<R: Source>(r: &mut R, buf: &mut [u8]) -> (res: Result<(), ExactError<R::Error>>)
    ensures
        final(r).fails() == old(r).fails(),
        final(r).gives_whole() == old(r).gives_whole(),
        old(r).gives_whole() && !(res matches Err(ExactError::Source(_))) ==> final(r).asked()
            == calls::recorded(
            old(r).asked(),
            calls::calls_for(calls::piece(old(buf)@.len()), old(r).rest().len() as int),
        ),
        final(buf)@.len() == old(buf)@.len(),
        match res {
            Ok(_) => {
                &&& old(buf)@.len() <= old(r).rest().len()
                &&& final(buf)@ == old(r).rest().take(old(buf)@.len() as int)
                &&& final(r).rest() == old(r).rest().skip(old(buf)@.len() as int)
            },
            Err(ExactError::UnexpectedEof) => {
                &&& old(r).rest().len() < old(buf)@.len()
                &&& final(r).rest() == Seq::<u8>::empty()
            },
            Err(ExactError::Source(e)) => {
                &&& old(r).fails()
                &&& final(r).failure() == Some(e)
                &&& stops_within(old(r).rest(), final(r).rest(), old(buf)@.len() as int)
                &&& old(r).gives_whole() ==> failed_at(
                    old(r).asked(),
                    final(r).asked(),
                    calls::calls_for(calls::piece(old(buf)@.len()), old(r).rest().len() as int),
                    old(r).rest(),
                    final(r).rest(),
                )
            },
        },
{
    let len: usize = buf.len();
    let mut done: usize = 0;
    proof {
        assert(r.rest().skip(0) =~= r.rest());
        assert(buf@.take(0) =~= r.rest().take(0));
    }
    while done < len
        invariant
            done <= len,
            len == old(buf)@.len(),
            buf@.len() == len,
            done <= old(r).rest().len(),
            buf@.take(done as int) == old(r).rest().take(done as int),
            r.rest() == old(r).rest().skip(done as int),
            r.fails() == old(r).fails(),
            r.gives_whole() == old(r).gives_whole(),
            r.gives_whole() && done == 0 ==> r.asked() == old(r).asked(),
            r.gives_whole() && done > 0 ==> r.asked() == calls::recorded(
                old(r).asked(),
                seq![len as nat],
            ) && (done == len || done == old(r).rest().len()),
        decreases len - done,
    {
        let ghost before = buf@;
        proof {
            calls::lemma_recorded(old(r).asked(), seq![len as nat], seq![(len - done) as nat]);
            lemma_one_call(len as nat, old(r).rest().len() as int);
        }
        let (_, tail) = buf.split_at_mut(done);
        let got = r.read(tail);
        match got {
            Ok(n) => {
                if n == 0 {
                    return Err(ExactError::UnexpectedEof);
                }
                proof {
                    let all = old(r).rest();
                    assert forall|i: int| 0 <= i < done + n implies #[trigger] buf@[i] == all[i] by {
                        if i < done {
                            assert(before.take(done as int)[i] == all.take(done as int)[i]);
                        } else {
                            assert(buf@.skip(done as int).take(n as int)[i - done] == all.skip(
                                done as int,
                            ).take(n as int)[i - done]);
                        }
                    }
                    assert(buf@.take(done + n) =~= all.take(done + n));
                    assert(r.rest() =~= all.skip(done + n));
                }
                done = done + n;
            },
            Err(e) => {
                proof {
                    let all = old(r).rest();
                    let calls = calls::calls_for(calls::piece(len as nat), all.len() as int);
                    reveal_with_fuel(calls::total, 2);
                    if done == 0 {
                        assert(calls.take(1) =~= seq![len as nat]);
                        assert(calls.take(0) =~= Seq::empty());
                    } else if r.gives_whole() {
                        assert(calls.take(2) =~= seq![len as nat] + seq![(len - done) as nat]);
                        assert(calls.take(1) =~= seq![len as nat]);
                        assert(calls.take(1).skip(1) =~= Seq::empty());
                    }
                }
                return Err(ExactError::Source(e));
            },
        }
    }
    proof {
        assert(buf@.take(len as int) =~= buf@);
        calls::lemma_recorded(old(r).asked(), Seq::empty(), Seq::empty());
        lemma_one_call(len as nat, old(r).rest().len() as int);
    }
    Ok(())
}

} // verus!

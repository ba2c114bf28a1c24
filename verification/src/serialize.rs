//! Maps to bytes and back.

use vstd::prelude::*;
use vstd::slice::slice_subrange;
use vstd::string::StringExecFns;

use crate::checksum::Fnv64a;
use crate::const_map::ConstMap;
use crate::layout::{
    Array, FormatError, Kind, Span, IO_CHUNK_WORDS, MAGIC, VERIFIED_HEADER_SIZE, VERIFIED_MAGIC,
};
use crate::geometry::Geometry;
use crate::little_endian::{push_le, read_le};
use crate::stream::{read_exact, write_all, ExactError, Sink, Source, WriteError};
use crate::text::push_decimal;
use crate::verified_const_map::VerifiedConstMap;
#[allow(unused_imports)]
use crate::const_map::MapModel;
#[allow(unused_imports)]
use crate::layout::FrameModel;
#[allow(unused_imports)]
use crate::verified_const_map::VerifiedModel;
#[allow(unused_imports)]
use crate::{calls, checksum, layout, little_endian, stream, stream_laws, text};

verus! {

/// Why a map was not read.
#[derive(Debug)]
pub enum ReadError<E> {
    /// The source failed, in the middle of an array or elsewhere.
    Source { error: E, at: Option<Span> },
    /// The bytes do not stand for a map.
    Format(FormatError),
}

/// The arrays of a verified map are of different lengths.
#[derive(Clone, Copy, Debug, PartialEq, Eq)]
pub struct LengthMismatch {
    pub data: usize,
    pub checks: usize,
}

/// Why a verified map was not written.
#[derive(Debug)]
pub enum VerifiedWriteError<E> {
    /// The sink did not take the bytes.
    Write(WriteError<E>),
    /// The map cannot be written.
    Lengths(LengthMismatch),
}

impl LengthMismatch {
    /// The error in words.
    pub open spec fn text(self) -> Seq<char> {
        "constmap: "@ + text::decimal(self.data as nat) + " data words but "@ + text::decimal(
            self.checks as nat,
        ) + " check words"@
    }

    /// The error in words.
    pub fn message(&self) -> (r: String)
        ensures
            r@ == self.text(),
    {
        let mut r: String = "constmap: ".to_owned();
        push_decimal(&mut r, self.data as u64);
        r.append(" data words but ");
        push_decimal(&mut r, self.checks as u64);
        r.append(" check words");
        r
    }
}

/// What is read of a map.
struct Frame {
    seed: u64,
    segment_length: u32,
    segment_count: u32,
    data: Vec<u64>,
    checks: Vec<u64>,
}

impl Frame {
    /// What the frame says.
    spec fn model(&self) -> FrameModel {
        FrameModel {
            seed: self.seed,
            segment_length: self.segment_length,
            segment_count: self.segment_count,
            data: self.data@,
            checks: self.checks@,
        }
    }
}

/// Writes all of `buf` and takes it into the checksum.
fn write_hashed<W: Sink>(w: &mut W, hasher: &mut Fnv64a, buf: &[u8]) -> (r: Result<
    (),
    WriteError<W::Error>,
>)
    ensures
        final(w).refuses() == old(w).refuses(),
        final(w).takes_whole() == old(w).takes_whole(),
        match r {
            Ok(_) => {
                &&& final(w).taken() == old(w).taken() + buf@
                &&& final(hasher).state == checksum::fnv_on(old(hasher).state, buf@)
                &&& old(w).takes_whole() ==> final(w).offered() == calls::recorded(
                    old(w).offered(),
                    calls::piece(buf@.len()),
                )
            },
            Err(e) => {
                &&& old(w).refuses()
                &&& stream::breaks_off(old(w).taken(), final(w).taken(), buf@)
                &&& e.comes_of(final(w).failure(), final(w).stalled())
                &&& old(w).takes_whole() ==> stream::refused_at(
                    old(w).offered(),
                    final(w).offered(),
                    calls::piece(buf@.len()),
                    old(w).taken(),
                    final(w).taken(),
                    buf@,
                )
            },
        },
{
    match write_all(w, buf) {
        Ok(_) => {
            hasher.write(buf);
            Ok(())
        },
        Err(e) => Err(e),
    }
}

/// The bytes of the words from `from` up to `to`.
fn encode_words(words: &[u64], from: usize, to: usize) -> (r: Vec<u8>)
    requires
        from <= to <= words.len(),
    ensures
        r@ == little_endian::words_bytes(words@.subrange(from as int, to as int)),
{
    let mut out: Vec<u8> = Vec::new();
    let mut i: usize = from;
    while i < to
        invariant
            from <= i <= to <= words.len(),
            out@ == little_endian::words_bytes(words@.subrange(from as int, i as int)),
        decreases to - i,
    {
        proof {
            let next = words@.subrange(from as int, i + 1);
            assert(next.drop_last() =~= words@.subrange(from as int, i as int));
        }
        push_le(&mut out, words[i], 8);
        i = i + 1;
    }
    out
}

/// Writes the bytes of `words` a chunk at a time.
fn write_words<W: Sink>(w: &mut W, hasher: &mut Fnv64a, words: &[u64]) -> (r: Result<
    (),
    WriteError<W::Error>,
>)
    ensures
        final(w).refuses() == old(w).refuses(),
        final(w).takes_whole() == old(w).takes_whole(),
        match r {
            Ok(_) => {
                &&& final(w).taken() == old(w).taken() + little_endian::words_bytes(words@)
                &&& final(hasher).state == checksum::fnv_on(
                    old(hasher).state,
                    little_endian::words_bytes(words@),
                )
                &&& old(w).takes_whole() ==> final(w).offered() == calls::recorded(
                    old(w).offered(),
                    calls::chunk_calls(words@.len() as int),
                )
            },
            Err(e) => {
                &&& old(w).refuses()
                &&& stream::breaks_off(
                    old(w).taken(),
                    final(w).taken(),
                    little_endian::words_bytes(words@),
                )
                &&& e.comes_of(final(w).failure(), final(w).stalled())
                &&& old(w).takes_whole() ==> stream::refused_at(
                    old(w).offered(),
                    final(w).offered(),
                    calls::chunk_calls(words@.len() as int),
                    old(w).taken(),
                    final(w).taken(),
                    little_endian::words_bytes(words@),
                )
            },
        },
{
    let mut i: usize = 0;
    let ghost start = w.taken();
    let ghost all = calls::chunk_calls(words@.len() as int);
    let ghost mut made = Seq::<nat>::empty();
    proof {
        assert(words@.take(0) =~= Seq::empty());
        assert(start + little_endian::words_bytes(words@.take(0)) =~= start);
        assert(made + all =~= all);
        calls::lemma_recorded(w.offered(), made, made);
    }
    while i < words.len()
        invariant
            i <= words.len(),
            start == old(w).taken(),
            w.refuses() == old(w).refuses(),
            w.takes_whole() == old(w).takes_whole(),
            w.takes_whole() ==> w.offered() == calls::recorded(old(w).offered(), made),
            all == calls::chunk_calls(words@.len() as int),
            made + calls::chunk_calls(words@.len() - i) == all,
            calls::total(made) == 8 * i,
            w.taken() == start + little_endian::words_bytes(words@.take(i as int)),
            hasher.state == checksum::fnv_on(
                old(hasher).state,
                little_endian::words_bytes(words@.take(i as int)),
            ),
        decreases words.len() - i,
    {
        let left: usize = words.len() - i;
        let n: usize = if left < IO_CHUNK_WORDS {
            left
        } else {
            IO_CHUNK_WORDS
        };
        let chunk: Vec<u8> = encode_words(words, i, i + n);
        let ghost done = words@.take(i as int);
        let ghost now = words@.subrange(i as int, i + n);
        let ghost later = words@.skip(i + n);
        let ghost next = calls::piece((8 * n) as nat);
        let ghost later_calls = calls::chunk_calls(words@.len() - (i + n));
        proof {
            assert(words@.take(i + n) =~= done + now);
            assert(words@ =~= (done + now) + later);
            little_endian::lemma_words_bytes_concat(done, now);
            little_endian::lemma_words_bytes_concat(done + now, later);
            checksum::lemma_fnv_on_concat(
                old(hasher).state,
                little_endian::words_bytes(done),
                little_endian::words_bytes(now),
            );
            little_endian::lemma_words_bytes_len(done);
            little_endian::lemma_words_bytes_len(now);
            calls::lemma_next_chunk(words@.len() - i, n as int);
            calls::lemma_piece_total((8 * n) as nat);
            calls::lemma_total(made, next);
        }
        match write_hashed(w, hasher, chunk.as_slice()) {
            Ok(_) => {},
            Err(e) => {
                proof {
                    let (a, b) = (
                        little_endian::words_bytes(done),
                        little_endian::words_bytes(now),
                    );
                    stream::lemma_breaks_off_late(start, w.taken(), a, b);
                    stream::lemma_breaks_off_early(
                        start,
                        w.taken(),
                        a + b,
                        little_endian::words_bytes(later),
                    );
                    if w.takes_whole() {
                        stream::lemma_refused_within(
                            old(w).offered(),
                            w.offered(),
                            (made, next, later_calls),
                            start,
                            w.taken(),
                            (a, b, little_endian::words_bytes(later)),
                        );
                    }
                }
                return Err(e);
            },
        }
        proof {
            assert(w.taken() =~= start + little_endian::words_bytes(done + now));
            calls::lemma_recorded(old(w).offered(), made, next);
            assert((made + next) + later_calls =~= made + (next + later_calls));
            made = made + next;
        }
        i = i + n;
    }
    proof {
        assert(words@.take(i as int) =~= words@);
        assert(made + calls::chunk_calls(0) =~= made);
    }
    Ok(())
}

/// The bytes before the arrays.
fn encode_header(
    kind: Kind,
    seed: u64,
    segment_length: u32,
    segment_count: u32,
    len: usize,
) -> (r: Vec<u8>)
    ensures
        forall|f: FrameModel|
            f.seed == seed && f.segment_length == segment_length && f.segment_count
                == segment_count && f.data.len() == len ==> r@ == #[trigger] kind.header(f),
{
    let mut out: Vec<u8> = Vec::new();
    match kind {
        Kind::Plain => {
            out.extend_from_slice(MAGIC.as_slice());
        },
        Kind::Verified => {
            out.extend_from_slice(VERIFIED_MAGIC.as_slice());
        },
    }
    proof {
        assert(out@ =~= kind.magic());
    }
    push_le(&mut out, seed, 8);
    push_le(&mut out, segment_length as u64, 4);
    push_le(&mut out, segment_count as u64, 4);
    push_le(&mut out, len as u64, 4);
    match kind {
        Kind::Plain => {},
        Kind::Verified => {
            push_le(&mut out, 0, 4);
        },
    }
    proof {
        assert forall|f: FrameModel|
            f.seed == seed && f.segment_length == segment_length && f.segment_count
                == segment_count && f.data.len() == len implies out@ == #[trigger] kind.header(
            f,
        ) by {
            assert(out@ =~= kind.header(f));
        }
    }
    out
}

/// Writes the bytes before the arrays, a field at a time.
fn write_header<W: Sink>(w: &mut W, hasher: &mut Fnv64a, kind: Kind, head: &[u8]) -> (r: Result<
    (),
    WriteError<W::Error>,
>)
    requires
        head@.len() == kind.header_size(),
    ensures
        final(w).refuses() == old(w).refuses(),
        final(w).takes_whole() == old(w).takes_whole(),
        match r {
            Ok(_) => {
                &&& final(w).taken() == old(w).taken() + head@
                &&& final(hasher).state == checksum::fnv_on(old(hasher).state, head@)
                &&& old(w).takes_whole() ==> final(w).offered() == calls::recorded(
                    old(w).offered(),
                    kind.header_calls(),
                )
            },
            Err(e) => {
                &&& old(w).refuses()
                &&& stream::breaks_off(old(w).taken(), final(w).taken(), head@)
                &&& e.comes_of(final(w).failure(), final(w).stalled())
                &&& old(w).takes_whole() ==> stream::refused_at(
                    old(w).offered(),
                    final(w).offered(),
                    kind.header_calls(),
                    old(w).taken(),
                    final(w).taken(),
                    head@,
                )
            },
        },
{
    let mut from: usize = 0;
    let ghost start = w.taken();
    let ghost mut made = Seq::<nat>::empty();
    proof {
        assert(start + head@.take(0) =~= start);
        assert(made + layout::field_calls(0, head@.len() as int) =~= layout::field_calls(
            0,
            head@.len() as int,
        ));
        calls::lemma_recorded(w.offered(), made, made);
        layout::lemma_header_calls(kind);
        assert(head@.take(0) =~= Seq::empty());
    }
    while from < head.len()
        invariant
            head@.len() == kind.header_size(),
            from <= head.len(),
            from % 4 == 0,
            from == 0 || from == 8 || from >= 16,
            start == old(w).taken(),
            w.refuses() == old(w).refuses(),
            w.takes_whole() == old(w).takes_whole(),
            w.taken() == start + head@.take(from as int),
            hasher.state == checksum::fnv_on(old(hasher).state, head@.take(from as int)),
            w.takes_whole() ==> w.offered() == calls::recorded(old(w).offered(), made),
            made + layout::field_calls(from as int, head@.len() as int) == kind.header_calls(),
            calls::total(made) == from,
        decreases head.len() - from,
    {
        let len: usize = if from < 16 {
            8
        } else {
            4
        };
        let field: &[u8] = slice_subrange(head, from, from + len);
        let ghost done = head@.take(from as int);
        let ghost later = head@.skip(from + len);
        let ghost next = calls::piece(len as nat);
        let ghost later_calls = layout::field_calls(from + len, head@.len() as int);
        proof {
            calls::lemma_piece_total(len as nat);
            calls::lemma_total(made, next);
            assert(head@.take(from + len) =~= done + field@);
            assert(head@ =~= (done + field@) + later);
            checksum::lemma_fnv_on_concat(old(hasher).state, done, field@);
        }
        match write_hashed(w, hasher, field) {
            Ok(_) => {},
            Err(e) => {
                proof {
                    stream::lemma_breaks_off_late(start, w.taken(), done, field@);
                    stream::lemma_breaks_off_early(start, w.taken(), done + field@, later);
                    if w.takes_whole() {
                        stream::lemma_refused_within(
                            old(w).offered(),
                            w.offered(),
                            (made, next, later_calls),
                            start,
                            w.taken(),
                            (done, field@, later),
                        );
                    }
                }
                return Err(e);
            },
        }
        proof {
            assert(w.taken() =~= start + (done + field@));
            calls::lemma_recorded(old(w).offered(), made, next);
            assert((made + next) + later_calls =~= made + (next + later_calls));
            made = made + next;
        }
        from = from + len;
    }
    proof {
        assert(head@.take(from as int) =~= head@);
        assert(made + Seq::<nat>::empty() =~= made);
    }
    Ok(())
}

/// The calls that write a frame, part by part, and the bytes that they move.
proof fn lemma_frame_calls(kind: Kind, f: FrameModel)
    requires
        f.checks.len() == kind.check_count(f.data.len() as int),
    ensures
        ({
            let data = calls::chunk_calls(f.data.len() as int);
            let checks = calls::chunk_calls(f.checks.len() as int);
            let header = kind.header_calls();
            let sum = calls::piece(8);
            let all = kind.calls(f.data.len() as int);
            let data_bytes = little_endian::words_bytes(f.data);
            let checks_bytes = little_endian::words_bytes(f.checks);
            let sum_bytes = little_endian::le_bytes(checksum::fnv(kind.body(f)) as nat, 8);
            &&& all == header + data + checks + sum
            &&& all == header + (data + (checks + sum))
            &&& all == header + (data + checks + sum)
            &&& all == (header + data) + (checks + sum)
            &&& kind.encoded(f) == kind.header(f) + (data_bytes + checks_bytes + sum_bytes)
            &&& kind.encoded(f) == kind.header(f) + data_bytes + (checks_bytes + sum_bytes)
            &&& calls::total(header) == kind.header(f).len()
            &&& calls::total(data) == data_bytes.len()
            &&& calls::total(header + data) == (kind.header(f) + data_bytes).len()
            &&& calls::total(checks) == checks_bytes.len()
            &&& calls::total(header + data + checks) == kind.body(f).len()
            &&& calls::total(sum) == sum_bytes.len()
        }),
{
    reveal(Kind::encoded);
    let data = calls::chunk_calls(f.data.len() as int);
    let checks = calls::chunk_calls(f.checks.len() as int);
    let header = kind.header_calls();
    let sum = calls::piece(8);
    let all = kind.calls(f.data.len() as int);
    let data_bytes = little_endian::words_bytes(f.data);
    let checks_bytes = little_endian::words_bytes(f.checks);
    let sum_bytes = little_endian::le_bytes(checksum::fnv(kind.body(f)) as nat, 8);
    assert(all =~= header + data + checks + sum);
    assert(all =~= header + (data + (checks + sum)));
    assert(all =~= header + (data + checks + sum));
    assert(all =~= (header + data) + (checks + sum));
    assert(kind.encoded(f) =~= kind.header(f) + (data_bytes + checks_bytes + sum_bytes));
    assert(kind.encoded(f) =~= kind.header(f) + data_bytes + (checks_bytes + sum_bytes));
    layout::lemma_header_fields(kind, f, Seq::empty());
    layout::lemma_header_calls(kind);
    calls::lemma_chunk_total(f.data.len() as int);
    calls::lemma_chunk_total(f.checks.len() as int);
    calls::lemma_total(header, data);
    calls::lemma_total(header + data, checks);
    calls::lemma_piece_total(8);
    little_endian::lemma_words_bytes_len(f.data);
    little_endian::lemma_words_bytes_len(f.checks);
    little_endian::lemma_le_bytes_len(checksum::fnv(kind.body(f)) as nat, 8);
}

/// Writes the bytes that stand for a frame, and says how many they are.
fn write_frame<W: Sink>(
    w: &mut W,
    kind: Kind,
    seed: u64,
    geometry: &Geometry,
    data: &[u64],
    checks: &[u64],
) -> (r: Result<u64, WriteError<W::Error>>)
    requires
        checks@.len() == kind.check_count(data@.len() as int),
        kind.body_size(data@.len() as int) + 8 <= u64::MAX,
    ensures
        final(w).refuses() == old(w).refuses(),
        final(w).takes_whole() == old(w).takes_whole(),
        ({
            let f = FrameModel {
                seed,
                segment_length: geometry.segment_length,
                segment_count: geometry.segment_count,
                data: data@,
                checks: checks@,
            };
            match r {
                Ok(n) => {
                    &&& final(w).taken() == old(w).taken() + kind.encoded(f)
                    &&& n == kind.encoded(f).len()
                    &&& old(w).takes_whole() ==> final(w).offered() == calls::recorded(
                        old(w).offered(),
                        kind.calls(data@.len() as int),
                    )
                },
                Err(e) => {
                    &&& old(w).refuses()
                    &&& stream::breaks_off(old(w).taken(), final(w).taken(), kind.encoded(f))
                    &&& e.comes_of(final(w).failure(), final(w).stalled())
                    &&& old(w).takes_whole() ==> stream::refused_at(
                        old(w).offered(),
                        final(w).offered(),
                        kind.calls(data@.len() as int),
                        old(w).taken(),
                        final(w).taken(),
                        kind.encoded(f),
                    )
                },
            }
        }),
{
    let ghost f = FrameModel {
        seed,
        segment_length: geometry.segment_length,
        segment_count: geometry.segment_count,
        data: data@,
        checks: checks@,
    };
    let ghost start = w.taken();
    let ghost header = kind.header(f);
    let ghost data_bytes = little_endian::words_bytes(data@);
    let ghost checks_bytes = little_endian::words_bytes(checks@);
    let ghost sum_bytes = little_endian::le_bytes(checksum::fnv(kind.body(f)) as nat, 8);
    let ghost record = w.offered();
    let ghost header_calls = kind.header_calls();
    let ghost data_calls = calls::chunk_calls(data@.len() as int);
    let ghost checks_calls = calls::chunk_calls(checks@.len() as int);
    let mut hasher: Fnv64a = Fnv64a::new();
    let head: Vec<u8> = encode_header(
        kind,
        seed,
        geometry.segment_length,
        geometry.segment_count,
        data.len(),
    );
    proof {
        reveal(Kind::encoded);
        assert(head@ == header);
        layout::lemma_header_fields(kind, f, Seq::empty());
        layout::lemma_encoded_len(kind, f);
        checksum::lemma_fnv_on_concat(hasher.state, header, data_bytes);
        checksum::lemma_fnv_on_concat(hasher.state, header + data_bytes, checks_bytes);
        lemma_frame_calls(kind, f);
    }
    match write_header(w, &mut hasher, kind, head.as_slice()) {
        Ok(_) => {},
        Err(e) => {
            proof {
                stream::lemma_breaks_off_early(start, w.taken(), header, data_bytes);
                stream::lemma_breaks_off_early(
                    start,
                    w.taken(),
                    header + data_bytes,
                    checks_bytes,
                );
                stream::lemma_breaks_off_early(start, w.taken(), kind.body(f), sum_bytes);
                if w.takes_whole() {
                    stream::lemma_refused_early(
                        record,
                        w.offered(),
                        (header_calls, data_calls + checks_calls + calls::piece(8)),
                        start,
                        w.taken(),
                        (header, data_bytes + checks_bytes + sum_bytes),
                    );
                }
            }
            return Err(e);
        },
    }
    match write_words(w, &mut hasher, data) {
        Ok(_) => {},
        Err(e) => {
            proof {
                stream::lemma_breaks_off_late(start, w.taken(), header, data_bytes);
                stream::lemma_breaks_off_early(
                    start,
                    w.taken(),
                    header + data_bytes,
                    checks_bytes,
                );
                stream::lemma_breaks_off_early(start, w.taken(), kind.body(f), sum_bytes);
                if w.takes_whole() {
                    stream::lemma_refused_within(
                        record,
                        w.offered(),
                        (header_calls, data_calls, checks_calls + calls::piece(8)),
                        start,
                        w.taken(),
                        (header, data_bytes, checks_bytes + sum_bytes),
                    );
                }
            }
            return Err(e);
        },
    }
    proof {
        assert(w.taken() =~= start + (header + data_bytes));
        calls::lemma_recorded(record, header_calls, data_calls);
    }
    match write_words(w, &mut hasher, checks) {
        Ok(_) => {},
        Err(e) => {
            proof {
                stream::lemma_breaks_off_late(
                    start,
                    w.taken(),
                    header + data_bytes,
                    checks_bytes,
                );
                stream::lemma_breaks_off_early(start, w.taken(), kind.body(f), sum_bytes);
                if w.takes_whole() {
                    stream::lemma_refused_within(
                        record,
                        w.offered(),
                        (header_calls + data_calls, checks_calls, calls::piece(8)),
                        start,
                        w.taken(),
                        (header + data_bytes, checks_bytes, sum_bytes),
                    );
                }
            }
            return Err(e);
        },
    }
    proof {
        assert(w.taken() =~= start + kind.body(f));
        calls::lemma_recorded(record, header_calls + data_calls, checks_calls);
    }
    let mut trailer: Vec<u8> = Vec::new();
    push_le(&mut trailer, hasher.finish(), 8);
    proof {
        assert(trailer@ =~= sum_bytes);
    }
    match write_all(w, trailer.as_slice()) {
        Ok(_) => {},
        Err(e) => {
            proof {
                stream::lemma_breaks_off_late(start, w.taken(), kind.body(f), sum_bytes);
                if w.takes_whole() {
                    stream::lemma_refused_late(
                        record,
                        w.offered(),
                        (header_calls + data_calls + checks_calls, calls::piece(8)),
                        start,
                        w.taken(),
                        (kind.body(f), sum_bytes),
                    );
                }
            }
            return Err(e);
        },
    }
    proof {
        assert(w.taken() =~= start + kind.encoded(f));
        calls::lemma_recorded(
            record,
            header_calls + data_calls + checks_calls,
            calls::piece(8),
        );
    }
    Ok(
        match kind {
            Kind::Plain => 8 + 8 + 4 + 4 + 4 + 8 * data.len() as u64 + 8,
            Kind::Verified => VERIFIED_HEADER_SIZE + 16 * data.len() as u64 + 8,
        },
    )
}

/// Fills all of `buf`, words `at` of an array or bytes elsewhere, and takes it into the checksum.
fn read_hashed<R: Source>(
    r: &mut R,
    hasher: &mut Fnv64a,
    buf: &mut [u8],
    at: Option<Span>,
) -> (res: Result<(), ReadError<R::Error>>)
    ensures
        final(r).fails() == old(r).fails(),
        final(r).gives_whole() == old(r).gives_whole(),
        old(r).gives_whole() && !(res matches Err(ReadError::Source { .. })) ==> final(r).asked()
            == calls::recorded(
            old(r).asked(),
            calls::calls_for(calls::piece(old(buf)@.len()), old(r).rest().len() as int),
        ),
        final(buf)@.len() == old(buf)@.len(),
        ({
            let s = old(r).rest();
            let n = old(buf)@.len() as int;
            match res {
                Ok(_) => {
                    &&& n <= s.len()
                    &&& final(buf)@ == s.take(n)
                    &&& final(r).rest() == s.skip(n)
                    &&& final(hasher).state == checksum::fnv_on(old(hasher).state, s.take(n))
                },
                Err(ReadError::Format(e)) => {
                    &&& s.len() < n
                    &&& e == FormatError::UnexpectedEof(at)
                    &&& final(r).rest() == Seq::<u8>::empty()
                },
                Err(ReadError::Source { error, at: named }) => {
                    &&& old(r).fails()
                    &&& final(r).failure() == Some(error)
                    &&& named == at
                    &&& stream::stops_within(s, final(r).rest(), n)
                    &&& old(r).gives_whole() ==> stream::failed_at(
                        old(r).asked(),
                        final(r).asked(),
                        calls::calls_for(calls::piece(old(buf)@.len()), s.len() as int),
                        s,
                        final(r).rest(),
                    )
                },
            }
        }),
{
    match read_exact(r, buf) {
        Ok(_) => {
            hasher.write(buf);
            Ok(())
        },
        Err(ExactError::UnexpectedEof) => Err(ReadError::Format(FormatError::UnexpectedEof(at))),
        Err(ExactError::Source(error)) => Err(ReadError::Source { error, at }),
    }
}

/// Of the bytes `s` those before `after` were read, and the words `at` of an array of `n` words
/// were being read next.
spec fn stops_in_array(array: Array, n: int, s: Seq<u8>, after: Seq<u8>, at: Option<Span>) -> bool {
    exists|p: int|
        0 <= p < 8 * n && p <= s.len() && after == #[trigger] s.skip(p) && at == Some(
            layout::span_at(array, n, p),
        )
}

/// Of the bytes `s` of the arrays those before `after` were read, and the words `at` were being
/// read next.
spec fn stops_in_arrays(kind: Kind, n: int, s: Seq<u8>, after: Seq<u8>, at: Option<Span>) -> bool {
    exists|p: int|
        0 <= p < 8 * n + 8 * kind.check_count(n) && p <= s.len() && after == #[trigger] s.skip(p)
            && at == Some(kind.break_at(n, p))
}

/// Zeros, as many as `n` words have bytes, but no more than one chunk.
fn chunk_buffer(n: usize) -> (r: Vec<u8>)
    ensures
        r@.len() == 8 * (if n < IO_CHUNK_WORDS {
            n as int
        } else {
            IO_CHUNK_WORDS as int
        }),
{
    let words: usize = if n < IO_CHUNK_WORDS {
        n
    } else {
        IO_CHUNK_WORDS
    };
    vec![0u8; words * 8]
}

/// Appends the words of which `bytes` are the bytes.
fn decode_words(bytes: &Vec<u8>, words: &mut Vec<u64>)
    requires
        bytes.len() % 8 == 0,
    ensures
        final(words)@ == old(words)@ + little_endian::words_value(bytes@),
{
    let count: usize = bytes.len() / 8;
    let mut j: usize = 0;
    let ghost start = words@;
    proof {
        assert(little_endian::words_value(bytes@.take(0)) =~= Seq::empty());
        assert(start + little_endian::words_value(bytes@.take(0)) =~= start);
    }
    while j < count
        invariant
            j <= count,
            bytes.len() == 8 * count,
            words@ == start + little_endian::words_value(bytes@.take(8 * j)),
        decreases count - j,
    {
        let word: u64 = read_le(bytes.as_slice(), 8 * j, 8);
        words.push(word);
        proof {
            little_endian::lemma_words_value_push(bytes@, j as int);
            assert(words@ =~= start + little_endian::words_value(bytes@.take(8 * (j + 1))));
        }
        j = j + 1;
    }
    proof {
        assert(bytes@.take(8 * count) =~= bytes@);
    }
}

/// Reading that stops in a chunk stops in the array.
proof fn lemma_chunk_stops(at: Span, n: usize, s: Seq<u8>, after: Seq<u8>)
    requires
        at.from % IO_CHUNK_WORDS == 0,
        at.from <= at.to,
        at.to == n && at.to <= at.from + IO_CHUNK_WORDS || at.to == at.from + IO_CHUNK_WORDS
            && at.to <= n,
        8 * at.from <= s.len(),
        stream::stops_within(s.skip(8 * at.from), after, 8 * (at.to - at.from)),
    ensures
        stops_in_array(at.array, n as int, s, after, Some(at)),
{
    let before = s.skip(8 * at.from);
    let k = choose|k: int|
        0 <= k < 8 * (at.to - at.from) && k <= before.len() && after == #[trigger] before.skip(k);
    assert(before.skip(k) =~= s.skip(8 * at.from + k));
    layout::lemma_span(at.array, n, at.from, at.to, 8 * at.from + k);
}

/// What is read with one more chunk.
proof fn lemma_chunk_read(state: u64, s: Seq<u8>, i: int, count: int)
    requires
        0 <= i,
        0 <= count,
        8 * (i + count) <= s.len(),
    ensures
        ({
            let now = s.skip(8 * i).take(8 * count);
            let all = s.take(8 * (i + count));
            &&& checksum::fnv_on(checksum::fnv_on(state, s.take(8 * i)), now) == checksum::fnv_on(
                state,
                all,
            )
            &&& little_endian::words_value(s.take(8 * i)) + little_endian::words_value(now)
                == little_endian::words_value(all)
            &&& s.skip(8 * i).skip(8 * count) == s.skip(8 * (i + count))
        }),
{
    let now = s.skip(8 * i).take(8 * count);
    checksum::lemma_fnv_on_concat(state, s.take(8 * i), now);
    assert(s.take(8 * i) + now =~= s.take(8 * (i + count)));
    assert(s.skip(8 * i).skip(8 * count) =~= s.skip(8 * (i + count)));
    little_endian::lemma_words_value_concat(s.take(8 * i), now, i);
}

/// The record of the calls for words up to and with those of the chunk that begins with word `i`.
proof fn lemma_chunk_made(
    record: Option<Seq<nat>>,
    made: Seq<nat>,
    n: int,
    i: int,
    count: int,
    available: int,
)
    requires
        0 <= i < n,
        8 * i <= available,
        count == if n - i < IO_CHUNK_WORDS {
            n - i
        } else {
            IO_CHUNK_WORDS as int
        },
        calls::total(made) == 8 * i,
        made + calls::chunk_calls(n - i) == calls::chunk_calls(n),
    ensures
        ({
            let next = calls::piece((8 * count) as nat);
            let grown = made + next;
            let after = calls::recorded(
                calls::recorded(record, made),
                calls::calls_for(next, available - 8 * i),
            );
            &&& calls::total(grown) == 8 * (i + count)
            &&& grown + calls::chunk_calls(n - (i + count)) == calls::chunk_calls(n)
            &&& 8 * (i + count) <= available ==> after == calls::recorded(record, grown)
            &&& 8 * (i + count) > available ==> after == calls::recorded(
                record,
                calls::calls_for(calls::chunk_calls(n), available),
            )
        }),
{
    let next = calls::piece((8 * count) as nat);
    let later = calls::chunk_calls(n - (i + count));
    calls::lemma_next_chunk(n - i, count);
    assert((made + next) + later =~= made + (next + later));
    calls::lemma_total(made, next);
    calls::lemma_piece_total((8 * count) as nat);
    calls::lemma_calls_for(next, later, available - 8 * i);
    calls::lemma_then(record, made, next, available);
    calls::lemma_then(record, made, next + later, available);
    if 8 * (i + count) <= available {
        calls::lemma_recorded(record, made, next);
    }
}

/// Reads `n` words of `array` a chunk at a time.
fn read_words<R: Source>(r: &mut R, hasher: &mut Fnv64a, n: usize, array: Array) -> (res: Result<
    Vec<u64>,
    ReadError<R::Error>,
>)
    ensures
        final(r).fails() == old(r).fails(),
        final(r).gives_whole() == old(r).gives_whole(),
        old(r).gives_whole() && !(res matches Err(ReadError::Source { .. })) ==> final(r).asked()
            == calls::recorded(
            old(r).asked(),
            calls::calls_for(calls::chunk_calls(n as int), old(r).rest().len() as int),
        ),
        ({
            let s = old(r).rest();
            match res {
                Ok(words) => {
                    &&& 8 * n <= s.len()
                    &&& words@ == little_endian::words_value(s.take(8 * n))
                    &&& final(r).rest() == s.skip(8 * n)
                    &&& final(hasher).state == checksum::fnv_on(
                        old(hasher).state,
                        s.take(8 * n),
                    )
                },
                Err(ReadError::Format(e)) => {
                    &&& s.len() < 8 * n
                    &&& e == FormatError::UnexpectedEof(
                        Some(layout::span_at(array, n as int, s.len() as int)),
                    )
                    &&& final(r).rest() == Seq::<u8>::empty()
                },
                Err(ReadError::Source { error, at }) => {
                    &&& old(r).fails()
                    &&& final(r).failure() == Some(error)
                    &&& stops_in_array(array, n as int, s, final(r).rest(), at)
                    &&& old(r).gives_whole() ==> stream::failed_at(
                        old(r).asked(),
                        final(r).asked(),
                        calls::calls_for(calls::chunk_calls(n as int), s.len() as int),
                        s,
                        final(r).rest(),
                    )
                },
            }
        }),
{
    let mut words: Vec<u64> = Vec::new();
    let mut i: usize = 0;
    let ghost s = r.rest();
    let ghost mut made = Seq::<nat>::empty();
    proof {
        assert(s.skip(0) =~= s);
        assert(little_endian::words_value(s.take(0)) =~= Seq::empty());
        assert(made + calls::chunk_calls(n as int) =~= calls::chunk_calls(n as int));
        calls::lemma_recorded(r.asked(), made, made);
    }
    while i < n
        invariant
            i <= n,
            i % IO_CHUNK_WORDS == 0 || i == n,
            s == old(r).rest(),
            r.fails() == old(r).fails(),
            8 * i <= s.len(),
            words@ == little_endian::words_value(s.take(8 * i)),
            r.rest() == s.skip(8 * i),
            hasher.state == checksum::fnv_on(old(hasher).state, s.take(8 * i)),
            r.gives_whole() == old(r).gives_whole(),
            r.gives_whole() ==> r.asked() == calls::recorded(old(r).asked(), made),
            calls::total(made) == 8 * i,
            made + calls::chunk_calls(n - i) == calls::chunk_calls(n as int),
        decreases n - i,
    {
        let mut chunk: Vec<u8> = chunk_buffer(n - i);
        let count: usize = chunk.len() / 8;
        let at: Span = Span { array, from: i, to: i + count };
        proof {
            lemma_chunk_made(old(r).asked(), made, n as int, i as int, count as int, s.len() as int);
        }
        match read_hashed(r, hasher, chunk.as_mut_slice(), Some(at)) {
            Ok(_) => {},
            Err(e) => {
                proof {
                    if e is Source {
                        lemma_chunk_stops(at, n, s, r.rest());
                        calls::lemma_next_chunk(n - i, count as int);
                        if r.gives_whole() {
                            stream::lemma_failed_within(
                                old(r).asked(),
                                r.asked(),
                                (
                                    made,
                                    calls::piece((8 * count) as nat),
                                    calls::chunk_calls(n - (i + count)),
                                ),
                                s,
                                r.rest(),
                            );
                        }
                    } else {
                        layout::lemma_span(array, n, i, at.to, s.len() as int);
                    }
                }
                return Err(e);
            },
        }
        decode_words(&chunk, &mut words);
        proof {
            lemma_chunk_read(old(hasher).state, s, i as int, count as int);
            made = made + calls::piece((8 * count) as nat);
        }
        i = i + count;
    }
    proof {
        assert(made + calls::chunk_calls(0) =~= made);
        calls::lemma_then(old(r).asked(), made, Seq::empty(), s.len() as int);
    }
    Ok(words)
}

/// Whether two runs of bytes are the same.
fn same_bytes(a: &[u8], b: &[u8]) -> (r: bool)
    ensures
        r == (a@ == b@),
{
    if a.len() != b.len() {
        return false;
    }
    let mut i: usize = 0;
    while i < a.len()
        invariant
            i <= a.len(),
            a@.len() == b@.len(),
            forall|j: int| 0 <= j < i ==> a@[j] == b@[j],
        decreases a.len() - i,
    {
        if a[i] != b[i] {
            return false;
        }
        i = i + 1;
    }
    proof {
        assert(a@ =~= b@);
    }
    true
}

/// The kind that begins with `magic`.
fn kind_of(magic: &[u8]) -> (r: Option<Kind>)
    ensures
        match r {
            Some(kind) => magic@ == kind.magic(),
            None => magic@ != Kind::Plain.magic() && magic@ != Kind::Verified.magic(),
        },
{
    if same_bytes(magic, MAGIC.as_slice()) {
        Some(Kind::Plain)
    } else if same_bytes(magic, VERIFIED_MAGIC.as_slice()) {
        Some(Kind::Verified)
    } else {
        None
    }
}

/// What stands in front of the arrays.
struct Header {
    seed: u64,
    segment_length: u32,
    segment_count: u32,
    len: usize,
}

/// Reads the fields behind the magic bytes, one at a time, and returns them with these.
fn read_fields<R: Source>(
    r: &mut R,
    hasher: &mut Fnv64a,
    kind: Kind,
    magic: Vec<u8>,
    Ghost(s): Ghost<Seq<u8>>,
) -> (res: Result<Vec<u8>, ReadError<R::Error>>)
    requires
        s.len() >= 8,
        magic@ == s.take(8),
        old(r).rest() == s.skip(8),
        old(hasher).state == checksum::fnv(s.take(8)),
    ensures
        final(r).fails() == old(r).fails(),
        final(r).gives_whole() == old(r).gives_whole(),
        old(r).gives_whole() && !(res matches Err(ReadError::Source { .. })) ==> final(r).asked()
            == calls::recorded(
            old(r).asked(),
            calls::calls_for(layout::field_calls(8, kind.header_size()), s.len() - 8),
        ),
        match res {
            Ok(head) => {
                &&& s.len() >= kind.header_size()
                &&& head@ == s.take(kind.header_size())
                &&& final(r).rest() == s.skip(kind.header_size())
                &&& final(hasher).state == checksum::fnv(s.take(kind.header_size()))
            },
            Err(ReadError::Format(e)) => {
                &&& s.len() < kind.header_size()
                &&& e == FormatError::UnexpectedEof(None)
                &&& final(r).rest() == Seq::<u8>::empty()
            },
            Err(ReadError::Source { error, at }) => {
                &&& old(r).fails()
                &&& final(r).failure() == Some(error)
                &&& at is None
                &&& exists|p: int|
                    8 <= p < kind.header_size() && p <= s.len() && final(r).rest()
                        == #[trigger] s.skip(p)
                &&& old(r).gives_whole() ==> stream::failed_at(
                    old(r).asked(),
                    final(r).asked(),
                    calls::calls_for(layout::field_calls(8, kind.header_size()), s.len() - 8),
                    s.skip(8),
                    final(r).rest(),
                )
            },
        },
{
    let size: usize = match kind {
        Kind::Plain => 28,
        Kind::Verified => 32,
    };
    let mut head: Vec<u8> = magic;
    let mut from: usize = 8;
    let ghost all = layout::field_calls(8, size as int);
    let ghost mut made = Seq::<nat>::empty();
    proof {
        assert(made + all =~= all);
        calls::lemma_recorded(r.asked(), made, made);
    }
    while from < size
        invariant
            size == kind.header_size(),
            8 <= from <= size,
            from % 4 == 0,
            from == 8 || from >= 16,
            from <= s.len(),
            head@ == s.take(from as int),
            r.rest() == s.skip(from as int),
            r.fails() == old(r).fails(),
            hasher.state == checksum::fnv(s.take(from as int)),
            r.gives_whole() == old(r).gives_whole(),
            r.gives_whole() ==> r.asked() == calls::recorded(old(r).asked(), made),
            calls::total(made) == from - 8,
            made + layout::field_calls(from as int, size as int) == all,
            all == layout::field_calls(8, size as int),
        decreases size - from,
    {
        let len: usize = if from < 16 {
            8
        } else {
            4
        };
        let mut field: Vec<u8> = vec![0u8; len];
        let ghost next = calls::piece(len as nat);
        proof {
            let later = layout::field_calls(from + len, size as int);
            let left = s.len() - from;
            assert((made + next) + later =~= made + (next + later));
            calls::lemma_total(made, next);
            calls::lemma_piece_total(len as nat);
            calls::lemma_calls_for(next, later, left);
            calls::lemma_then(old(r).asked(), made, next, s.len() - 8);
            calls::lemma_then(old(r).asked(), made, next + later, s.len() - 8);
            calls::lemma_recorded(old(r).asked(), made, next);
        }
        match read_hashed(r, hasher, field.as_mut_slice(), None) {
            Ok(_) => {},
            Err(e) => {
                proof {
                    if e is Source {
                        let before = s.skip(from as int);
                        let k = choose|k: int|
                            0 <= k < len && k <= before.len() && r.rest()
                                == #[trigger] before.skip(k);
                        assert(before.skip(k) =~= s.skip(from + k));
                        assert(s.skip(8).skip(from - 8) =~= before);
                        if r.gives_whole() {
                            stream::lemma_failed_within(
                                old(r).asked(),
                                r.asked(),
                                (made, next, layout::field_calls(from + len, size as int)),
                                s.skip(8),
                                r.rest(),
                            );
                        }
                    }
                }
                return Err(e);
            },
        }
        proof {
            let now = s.skip(from as int).take(len as int);
            checksum::lemma_fnv_on_concat(checksum::FNV_OFFSET, s.take(from as int), now);
            assert(s.take(from as int) + now =~= s.take(from + len));
            assert(s.skip(from as int).skip(len as int) =~= s.skip(from + len));
            made = made + next;
        }
        head.extend_from_slice(field.as_slice());
        proof {
            assert(head@ =~= s.take(from + len));
        }
        from = from + len;
    }
    proof {
        assert(made + Seq::<nat>::empty() =~= made);
        calls::lemma_then(old(r).asked(), made, Seq::empty(), s.len() - 8);
    }
    Ok(head)
}

/// Reads what stands in front of the arrays.
fn read_header<R: Source>(r: &mut R, hasher: &mut Fnv64a, kind: Kind) -> (res: Result<
    Header,
    ReadError<R::Error>,
>)
    requires
        old(hasher).state == checksum::fnv(Seq::empty()),
    ensures
        final(r).fails() == old(r).fails(),
        final(r).gives_whole() == old(r).gives_whole(),
        old(r).gives_whole() && !(res matches Err(ReadError::Source { .. })) ==> final(r).asked()
            == calls::recorded(
            old(r).asked(),
            calls::calls_for(kind.read_header_calls(old(r).rest()), old(r).rest().len() as int),
        ),
        ({
            let s = old(r).rest();
            match res {
                Ok(h) => {
                    &&& s.len() >= kind.header_size()
                    &&& s.take(8) == kind.magic()
                    &&& h.seed == layout::word_at(s, 8)
                    &&& h.segment_length == layout::half_at(s, 16)
                    &&& h.segment_count == layout::half_at(s, 20)
                    &&& h.len == layout::half_at(s, 24)
                    &&& final(r).rest() == s.skip(kind.header_size())
                    &&& final(hasher).state == checksum::fnv(s.take(kind.header_size()))
                },
                Err(ReadError::Format(e)) => {
                    &&& kind.decoded(s) == Err::<FrameModel, FormatError>(e)
                    &&& final(r).rest() == s.skip(kind.consumed(s))
                    &&& s.len() < kind.header_size() || s.take(8) != kind.magic()
                },
                Err(ReadError::Source { error, at }) => {
                    &&& old(r).fails()
                    &&& final(r).failure() == Some(error)
                    &&& kind.stops_at(s, final(r).rest(), at)
                    &&& old(r).gives_whole() ==> stream::failed_at(
                        old(r).asked(),
                        final(r).asked(),
                        calls::calls_for(kind.read_header_calls(s), s.len() as int),
                        s,
                        final(r).rest(),
                    )
                },
            }
        }),
{
    proof {
        reveal(Kind::decoded);
        reveal(Kind::consumed);
    }
    let ghost s = r.rest();
    let mut magic: Vec<u8> = vec![0u8; 8];
    match read_hashed(r, hasher, magic.as_mut_slice(), None) {
        Ok(_) => {},
        Err(e) => {
            proof {
                if e is Source {
                    let p = choose|k: int|
                        0 <= k < 8 && k <= s.len() && r.rest() == #[trigger] s.skip(k);
                    layout::lemma_stops_in_header(kind, s, p);
                    if r.gives_whole() {
                        layout::lemma_header_calls(kind);
                        stream::lemma_failed_early(
                            old(r).asked(),
                            r.asked(),
                            calls::piece(8),
                            layout::field_calls(8, kind.header_size()),
                            s,
                            r.rest(),
                        );
                    }
                }
            }
            return Err(e);
        },
    }
    proof {
        layout::lemma_magic(Kind::Plain);
    }
    match kind_of(magic.as_slice()) {
        Some(found) => {
            if found != kind {
                return Err(ReadError::Format(FormatError::Foreign(found)));
            }
        },
        None => {
            return Err(ReadError::Format(FormatError::BadMagic));
        },
    }
    proof {
        let fields = layout::field_calls(8, kind.header_size());
        layout::lemma_header_calls(kind);
        calls::lemma_piece_total(8);
        calls::lemma_then(old(r).asked(), calls::piece(8), fields, s.len() as int);
    }
    let head: Vec<u8> = match read_fields(r, hasher, kind, magic, Ghost(s)) {
        Ok(h) => h,
        Err(e) => {
            proof {
                if e is Source {
                    let p = choose|p: int|
                        8 <= p < kind.header_size() && p <= s.len() && r.rest()
                            == #[trigger] s.skip(p);
                    layout::lemma_stops_in_header(kind, s, p);
                    if r.gives_whole() {
                        stream::lemma_failed_late(
                            old(r).asked(),
                            r.asked(),
                            calls::piece(8),
                            layout::field_calls(8, kind.header_size()),
                            s,
                            r.rest(),
                        );
                    }
                }
            }
            return Err(e);
        },
    };
    proof {
        assert(head@.subrange(8, 16) =~= s.subrange(8, 16));
        assert(head@.subrange(16, 20) =~= s.subrange(16, 20));
        assert(head@.subrange(20, 24) =~= s.subrange(20, 24));
        assert(head@.subrange(24, 28) =~= s.subrange(24, 28));
        little_endian::lemma_le_sizes();
        little_endian::lemma_le_value_bounded(s.subrange(16, 20));
        little_endian::lemma_le_value_bounded(s.subrange(20, 24));
        little_endian::lemma_le_value_bounded(s.subrange(24, 28));
    }
    let seed: u64 = read_le(head.as_slice(), 8, 8);
    let segment_length: u32 = read_le(head.as_slice(), 16, 4) as u32;
    let segment_count: u32 = read_le(head.as_slice(), 20, 4) as u32;
    let len: usize = read_le(head.as_slice(), 24, 4) as usize;
    Ok(Header { seed, segment_length, segment_count, len })
}

/// Reads the arrays, of `n` data words.
fn read_arrays<R: Source>(r: &mut R, hasher: &mut Fnv64a, kind: Kind, n: usize) -> (res: Result<
    (Vec<u64>, Vec<u64>),
    ReadError<R::Error>,
>)
    ensures
        final(r).fails() == old(r).fails(),
        final(r).gives_whole() == old(r).gives_whole(),
        old(r).gives_whole() && !(res matches Err(ReadError::Source { .. })) ==> final(r).asked()
            == calls::recorded(
            old(r).asked(),
            calls::calls_for(kind.array_calls(n as int), old(r).rest().len() as int),
        ),
        ({
            let s = old(r).rest();
            let end = 8 * n + 8 * kind.check_count(n as int);
            match res {
                Ok((data, checks)) => {
                    &&& end <= s.len()
                    &&& data@ == little_endian::words_value(s.take(8 * n))
                    &&& checks@ == little_endian::words_value(s.subrange(8 * n, end))
                    &&& final(r).rest() == s.skip(end)
                    &&& final(hasher).state == checksum::fnv_on(old(hasher).state, s.take(end))
                },
                Err(ReadError::Format(e)) => {
                    &&& s.len() < end
                    &&& e == FormatError::UnexpectedEof(
                        Some(kind.break_at(n as int, s.len() as int)),
                    )
                    &&& final(r).rest() == Seq::<u8>::empty()
                },
                Err(ReadError::Source { error, at }) => {
                    &&& old(r).fails()
                    &&& final(r).failure() == Some(error)
                    &&& stops_in_arrays(kind, n as int, s, final(r).rest(), at)
                    &&& old(r).gives_whole() ==> stream::failed_at(
                        old(r).asked(),
                        final(r).asked(),
                        calls::calls_for(kind.array_calls(n as int), s.len() as int),
                        s,
                        final(r).rest(),
                    )
                },
            }
        }),
{
    let ghost s = r.rest();
    proof {
        let (a, b) = (
            calls::chunk_calls(n as int),
            calls::chunk_calls(kind.check_count(n as int)),
        );
        calls::lemma_chunk_total(n as int);
        calls::lemma_calls_for(a, b, s.len() as int);
        if 8 * n <= s.len() {
            calls::lemma_then(r.asked(), a, b, s.len() as int);
        }
    }
    let data: Vec<u64> = match read_words(r, hasher, n, Array::Data) {
        Ok(words) => words,
        Err(e) => {
            proof {
                if e is Source {
                    let p = choose|p: int|
                        0 <= p < 8 * n && p <= s.len() && r.rest() == #[trigger] s.skip(p)
                            && e->at == Some(layout::span_at(Array::Data, n as int, p));
                    assert(e->at == Some(kind.break_at(n as int, p)));
                    if r.gives_whole() {
                        stream::lemma_failed_early(
                            old(r).asked(),
                            r.asked(),
                            calls::chunk_calls(n as int),
                            calls::chunk_calls(kind.check_count(n as int)),
                            s,
                            r.rest(),
                        );
                    }
                }
            }
            return Err(e);
        },
    };
    let check_count: usize = match kind {
        Kind::Plain => 0,
        Kind::Verified => n,
    };
    let checks: Vec<u64> = match read_words(r, hasher, check_count, Array::Checks) {
        Ok(words) => words,
        Err(e) => {
            proof {
                if e is Source {
                    let before = s.skip(8 * n);
                    let p = choose|p: int|
                        0 <= p < 8 * check_count && p <= before.len() && r.rest()
                            == #[trigger] before.skip(p) && e->at == Some(
                            layout::span_at(Array::Checks, check_count as int, p),
                        );
                    assert(before.skip(p) =~= s.skip(8 * n + p));
                    if r.gives_whole() {
                        stream::lemma_failed_late(
                            old(r).asked(),
                            r.asked(),
                            calls::chunk_calls(n as int),
                            calls::chunk_calls(check_count as int),
                            s,
                            r.rest(),
                        );
                    }
                }
            }
            return Err(e);
        },
    };
    proof {
        let end = 8 * n + 8 * check_count;
        let now = s.skip(8 * n).take(8 * check_count);
        checksum::lemma_fnv_on_concat(old(hasher).state, s.take(8 * n), now);
        assert(s.take(8 * n) + now =~= s.take(end));
        assert(now =~= s.subrange(8 * n, end));
        assert(r.rest() =~= s.skip(end));
    }
    Ok((data, checks))
}

/// Reading that stops in the arrays stops where the bytes would break off.
proof fn lemma_stops_in_arrays(kind: Kind, s: Seq<u8>, after: Seq<u8>, at: Option<Span>)
    requires
        s.take(8) == kind.magic(),
        kind.header_size() <= s.len(),
        stops_in_arrays(
            kind,
            layout::half_at(s, 24) as int,
            s.skip(kind.header_size()),
            after,
            at,
        ),
    ensures
        kind.stops_at(s, after, at),
{
    let n = layout::half_at(s, 24) as int;
    let header = kind.header_size();
    let before = s.skip(header);
    let p = choose|p: int|
        0 <= p < 8 * n + 8 * kind.check_count(n) && p <= before.len() && after
            == #[trigger] before.skip(p) && at == Some(kind.break_at(n, p));
    assert(before.skip(p) =~= s.skip(header + p));
    layout::lemma_stops_in_body(kind, s, header + p);
}

/// Where the arrays lie in the bytes of the whole.
proof fn lemma_arrays_within(s: Seq<u8>, header: int, middle: int, end: int)
    requires
        0 <= header <= middle <= end <= s.len(),
    ensures
        s.skip(header).take(middle - header) == s.subrange(header, middle),
        s.skip(header).subrange(middle - header, end - header) == s.subrange(middle, end),
        s.skip(header).skip(end - header) == s.skip(end),
        checksum::fnv_on(checksum::fnv(s.take(header)), s.skip(header).take(end - header))
            == checksum::fnv(s.take(end)),
{
    let now = s.skip(header).take(end - header);
    assert(s.skip(header).take(middle - header) =~= s.subrange(header, middle));
    assert(s.skip(header).subrange(middle - header, end - header) =~= s.subrange(middle, end));
    assert(s.skip(header).skip(end - header) =~= s.skip(end));
    checksum::lemma_fnv_on_concat(checksum::FNV_OFFSET, s.take(header), now);
    assert(s.take(header) + now =~= s.take(end));
}

/// Reads what stands in front of the checksum.
fn read_body<R: Source>(r: &mut R, hasher: &mut Fnv64a, kind: Kind) -> (res: Result<
    Frame,
    ReadError<R::Error>,
>)
    requires
        old(hasher).state == checksum::fnv(Seq::empty()),
    ensures
        final(r).fails() == old(r).fails(),
        final(r).gives_whole() == old(r).gives_whole(),
        old(r).gives_whole() && !(res matches Err(ReadError::Source { .. })) ==> final(r).asked()
            == calls::recorded(
            old(r).asked(),
            calls::calls_for(kind.read_body_calls(old(r).rest()), old(r).rest().len() as int),
        ),
        ({
            let s = old(r).rest();
            let header = kind.header_size();
            let n = layout::half_at(s, 24) as int;
            let body = kind.body_size(n);
            match res {
                Ok(f) => {
                    &&& body <= s.len()
                    &&& s.take(8) == kind.magic()
                    &&& f.seed == layout::word_at(s, 8)
                    &&& f.segment_length == layout::half_at(s, 16)
                    &&& f.segment_count == layout::half_at(s, 20)
                    &&& f.data@ == little_endian::words_value(s.subrange(header, header + 8 * n))
                    &&& f.checks@ == little_endian::words_value(s.subrange(header + 8 * n, body))
                    &&& final(r).rest() == s.skip(body)
                    &&& final(hasher).state == checksum::fnv(s.take(body))
                },
                Err(ReadError::Format(e)) => {
                    &&& kind.decoded(s) == Err::<FrameModel, FormatError>(e)
                    &&& final(r).rest() == s.skip(kind.consumed(s))
                    &&& s.len() < kind.header_size() || s.take(8) != kind.magic() || s.len()
                        < body
                },
                Err(ReadError::Source { error, at }) => {
                    &&& old(r).fails()
                    &&& final(r).failure() == Some(error)
                    &&& kind.stops_at(s, final(r).rest(), at)
                    &&& old(r).gives_whole() ==> stream::failed_at(
                        old(r).asked(),
                        final(r).asked(),
                        calls::calls_for(kind.read_body_calls(s), s.len() as int),
                        s,
                        final(r).rest(),
                    )
                },
            }
        }),
{
    let ghost s = r.rest();
    let ghost header = kind.header_size();
    let head: Header = match read_header(r, hasher, kind) {
        Ok(h) => h,
        Err(e) => {
            proof {
                if e is Format {
                    layout::lemma_header_calls_short(kind, s);
                } else if r.gives_whole() && s.len() >= 8 && s.take(8) == kind.magic() {
                    stream::lemma_failed_early(
                        old(r).asked(),
                        r.asked(),
                        kind.header_calls(),
                        kind.array_calls(layout::half_at(s, 24) as int),
                        s,
                        r.rest(),
                    );
                }
            }
            return Err(e);
        },
    };
    let n: usize = head.len;
    proof {
        layout::lemma_header_calls(kind);
        calls::lemma_then(
            old(r).asked(),
            kind.header_calls(),
            kind.array_calls(n as int),
            s.len() as int,
        );
    }
    let (data, checks) = match read_arrays(r, hasher, kind, n) {
        Ok(arrays) => arrays,
        Err(e) => {
            proof {
                if e is Source {
                    lemma_stops_in_arrays(kind, s, r.rest(), e->at);
                    if r.gives_whole() {
                        stream::lemma_failed_late(
                            old(r).asked(),
                            r.asked(),
                            kind.header_calls(),
                            kind.array_calls(n as int),
                            s,
                            r.rest(),
                        );
                    }
                } else {
                    layout::lemma_short_body(kind, s);
                }
            }
            return Err(e);
        },
    };
    proof {
        lemma_arrays_within(s, header, header + 8 * n, kind.body_size(n as int));
    }
    Ok(
        Frame {
            seed: head.seed,
            segment_length: head.segment_length,
            segment_count: head.segment_count,
            data,
            checks,
        },
    )
}

/// Reads a frame.
fn read_frame<R: Source>(r: &mut R, kind: Kind) -> (res: Result<Frame, ReadError<R::Error>>)
    ensures
        final(r).fails() == old(r).fails(),
        final(r).gives_whole() == old(r).gives_whole(),
        old(r).gives_whole() && !(res matches Err(ReadError::Source { .. })) ==> final(r).asked()
            == calls::recorded(
            old(r).asked(),
            calls::calls_for(kind.read_calls(old(r).rest()), old(r).rest().len() as int),
        ),
        ({
            let s = old(r).rest();
            match res {
                Ok(f) => {
                    &&& kind.decoded(s) == Ok::<FrameModel, FormatError>(f.model())
                    &&& final(r).rest() == s.skip(kind.consumed(s))
                },
                Err(ReadError::Format(e)) => {
                    &&& kind.decoded(s) == Err::<FrameModel, FormatError>(e)
                    &&& final(r).rest() == s.skip(kind.consumed(s))
                },
                Err(ReadError::Source { error, at }) => {
                    &&& old(r).fails()
                    &&& final(r).failure() == Some(error)
                    &&& kind.stops_at(s, final(r).rest(), at)
                    &&& old(r).gives_whole() ==> stream::failed_at(
                        old(r).asked(),
                        final(r).asked(),
                        calls::calls_for(kind.read_calls(s), s.len() as int),
                        s,
                        final(r).rest(),
                    )
                },
            }
        }),
{
    let ghost s = r.rest();
    let ghost body = kind.body_size(layout::half_at(s, 24) as int);
    let mut hasher: Fnv64a = Fnv64a::new();
    let frame: Frame = match read_body(r, &mut hasher, kind) {
        Ok(f) => f,
        Err(e) => {
            proof {
                if e is Format {
                    layout::lemma_body_calls_short(kind, s);
                } else if r.gives_whole() && s.len() >= 8 && s.take(8) == kind.magic() {
                    stream::lemma_failed_early(
                        old(r).asked(),
                        r.asked(),
                        kind.header_calls() + kind.array_calls(layout::half_at(s, 24) as int),
                        calls::piece(8),
                        s,
                        r.rest(),
                    );
                }
            }
            return Err(e);
        },
    };
    proof {
        layout::lemma_body_calls(kind, layout::half_at(s, 24) as int);
        calls::lemma_then(
            old(r).asked(),
            kind.read_body_calls(s),
            calls::piece(8),
            s.len() as int,
        );
    }
    let expected: u64 = hasher.finish();
    let mut trailer: Vec<u8> = vec![0u8; 8];
    match read_exact(r, trailer.as_mut_slice()) {
        Ok(_) => {},
        Err(ExactError::UnexpectedEof) => {
            proof {
                layout::lemma_short_body(kind, s);
            }
            return Err(ReadError::Format(FormatError::UnexpectedEof(None)));
        },
        Err(ExactError::Source(error)) => {
            proof {
                let before = s.skip(body);
                let k = choose|k: int|
                    0 <= k < 8 && k <= before.len() && r.rest() == #[trigger] before.skip(k);
                assert(before.skip(k) =~= s.skip(body + k));
                layout::lemma_stops_in_body(kind, s, body + k);
                if r.gives_whole() {
                    stream::lemma_failed_late(
                        old(r).asked(),
                        r.asked(),
                        kind.read_body_calls(s),
                        calls::piece(8),
                        s,
                        r.rest(),
                    );
                }
            }
            return Err(ReadError::Source { error, at: None });
        },
    }
    proof {
        assert(trailer@.subrange(0, 8) =~= s.subrange(body, body + 8));
        assert(s.skip(body).skip(8) =~= s.skip(body + 8));
        layout::lemma_whole_body(kind, s);
    }
    let got: u64 = read_le(trailer.as_slice(), 0, 8);
    if got != expected {
        return Err(ReadError::Format(FormatError::ChecksumMismatch { got, expected }));
    }
    Ok(frame)
}

/// The geometry with the two products, which are not written down.
fn geometry_of(segment_length: u32, segment_count: u32) -> (r: Geometry)
    ensures
        r == Geometry::of(segment_length, segment_count),
{
    Geometry {
        segment_length,
        segment_length_mask: segment_length.wrapping_sub(1),
        segment_count,
        segment_count_length: segment_count.wrapping_mul(segment_length),
    }
}

impl MapModel {
    /// What the bytes of the map say.
    pub open spec fn frame(self) -> FrameModel {
        FrameModel {
            seed: self.seed,
            segment_length: self.geometry.segment_length,
            segment_count: self.geometry.segment_count,
            data: self.data,
            checks: Seq::empty(),
        }
    }

    /// The map of which a frame speaks.
    pub open spec fn of_frame(f: FrameModel) -> MapModel {
        MapModel {
            seed: f.seed,
            geometry: Geometry::of(f.segment_length, f.segment_count),
            data: f.data,
        }
    }

    /// The bytes that stand for the map.
    pub open spec fn encoded(self) -> Seq<u8> {
        Kind::Plain.encoded(self.frame())
    }

    /// The map for which the first of the bytes `s` stand.
    pub open spec fn decoded(s: Seq<u8>) -> Result<MapModel, FormatError> {
        match Kind::Plain.decoded(s) {
            Ok(f) => Ok(MapModel::of_frame(f)),
            Err(e) => Err(e),
        }
    }
}

impl VerifiedModel {
    /// What the bytes of the map say.
    pub open spec fn frame(self) -> FrameModel {
        FrameModel {
            seed: self.seed,
            segment_length: self.geometry.segment_length,
            segment_count: self.geometry.segment_count,
            data: self.data,
            checks: self.checks,
        }
    }

    /// The map of which a frame speaks.
    pub open spec fn of_frame(f: FrameModel) -> VerifiedModel {
        VerifiedModel {
            seed: f.seed,
            geometry: Geometry::of(f.segment_length, f.segment_count),
            data: f.data,
            checks: f.checks,
        }
    }

    /// The bytes that stand for the map.
    pub open spec fn encoded(self) -> Seq<u8> {
        Kind::Verified.encoded(self.frame())
    }

    /// The map for which the first of the bytes `s` stand.
    pub open spec fn decoded(s: Seq<u8>) -> Result<VerifiedModel, FormatError> {
        match Kind::Verified.decoded(s) {
            Ok(f) => Ok(VerifiedModel::of_frame(f)),
            Err(e) => Err(e),
        }
    }
}

impl ConstMap {
    /// Serialize the `ConstMap` to a sink in a portable binary format.
    ///
    /// A FNV-1a checksum is appended for integrity verification. Returns the number of bytes
    /// written.
    pub fn write_to<W: Sink>(&self, w: &mut W) -> (r: Result<u64, WriteError<W::Error>>)
        requires
            Kind::Plain.body_size(self.data@.len() as int) + 8 <= u64::MAX,
        ensures
            final(w).refuses() == old(w).refuses(),
            final(w).takes_whole() == old(w).takes_whole(),
            match r {
                Ok(n) => {
                    &&& final(w).taken() == old(w).taken() + self@.encoded()
                    &&& n == self@.encoded().len()
                    &&& old(w).takes_whole() ==> final(w).offered() == calls::recorded(
                        old(w).offered(),
                        Kind::Plain.calls(self.data@.len() as int),
                    )
                },
                Err(e) => {
                    &&& old(w).refuses()
                    &&& stream::breaks_off(old(w).taken(), final(w).taken(), self@.encoded())
                    &&& old(w).taken().len() <= final(w).taken().len() < old(w).taken().len()
                        + self@.encoded().len()
                    &&& final(w).taken() == (old(w).taken() + self@.encoded()).take(
                        final(w).taken().len() as int,
                    )
                    &&& e.comes_of(final(w).failure(), final(w).stalled())
                    &&& old(w).takes_whole() ==> stream::refused_at(
                        old(w).offered(),
                        final(w).offered(),
                        Kind::Plain.calls(self.data@.len() as int),
                        old(w).taken(),
                        final(w).taken(),
                        self@.encoded(),
                    )
                },
            },
    {
        let checks: Vec<u64> = Vec::new();
        let r: Result<u64, WriteError<W::Error>> = write_frame(
            w,
            Kind::Plain,
            self.seed,
            &self.geometry,
            self.data.as_slice(),
            checks.as_slice(),
        );
        proof {
            stream_laws::lemma_broken_off_is_a_prefix(
                old(w).taken(),
                w.taken(),
                self@.encoded(),
            );
        }
        r
    }

    /// Deserialize a `ConstMap` from a source.
    ///
    /// Verifies the trailing checksum and returns an error if the data is corrupted.
    pub fn read_from<R: Source>(r: &mut R) -> (res: Result<ConstMap, ReadError<R::Error>>)
        ensures
            final(r).fails() == old(r).fails(),
            final(r).gives_whole() == old(r).gives_whole(),
            old(r).gives_whole() && !(res matches Err(ReadError::Source { .. }))
                ==> final(r).asked() == calls::recorded(
                old(r).asked(),
                calls::calls_for(
                    Kind::Plain.read_calls(old(r).rest()),
                    old(r).rest().len() as int,
                ),
            ),
            match res {
                Ok(m) => {
                    &&& MapModel::decoded(old(r).rest()) == Ok::<MapModel, FormatError>(m@)
                    &&& final(r).rest() == old(r).rest().skip(
                        Kind::Plain.consumed(old(r).rest()),
                    )
                },
                Err(ReadError::Format(e)) => {
                    &&& MapModel::decoded(old(r).rest()) == Err::<MapModel, FormatError>(e)
                    &&& final(r).rest() == old(r).rest().skip(
                        Kind::Plain.consumed(old(r).rest()),
                    )
                },
                Err(ReadError::Source { error, at }) => {
                    &&& old(r).fails()
                    &&& final(r).failure() == Some(error)
                    &&& Kind::Plain.stops_at(old(r).rest(), final(r).rest(), at)
                    &&& old(r).gives_whole() ==> stream::failed_at(
                        old(r).asked(),
                        final(r).asked(),
                        calls::calls_for(
                            Kind::Plain.read_calls(old(r).rest()),
                            old(r).rest().len() as int,
                        ),
                        old(r).rest(),
                        final(r).rest(),
                    )
                },
            },
    {
        match read_frame(r, Kind::Plain) {
            Ok(f) => Ok(
                ConstMap {
                    seed: f.seed,
                    geometry: geometry_of(f.segment_length, f.segment_count),
                    data: f.data,
                },
            ),
            Err(e) => Err(e),
        }
    }
}

impl VerifiedConstMap {
    /// Serialize the `VerifiedConstMap` to a sink in a portable binary format.
    ///
    /// A FNV-1a checksum is appended for integrity verification. Returns the number of bytes
    /// written.
    pub fn write_to<W: Sink>(&self, w: &mut W) -> (r: Result<u64, VerifiedWriteError<W::Error>>)
        requires
            Kind::Verified.body_size(self.data@.len() as int) + 8 <= u64::MAX,
        ensures
            final(w).refuses() == old(w).refuses(),
            final(w).takes_whole() == old(w).takes_whole(),
            match r {
                Ok(n) => {
                    &&& self.checks.len() == self.data.len()
                    &&& final(w).taken() == old(w).taken() + self@.encoded()
                    &&& n == self@.encoded().len()
                    &&& old(w).takes_whole() ==> final(w).offered() == calls::recorded(
                        old(w).offered(),
                        Kind::Verified.calls(self.data@.len() as int),
                    )
                },
                Err(VerifiedWriteError::Lengths(e)) => {
                    &&& self.checks.len() != self.data.len()
                    &&& e.data == self.data.len()
                    &&& e.checks == self.checks.len()
                    &&& *final(w) == *old(w)
                },
                Err(VerifiedWriteError::Write(e)) => {
                    &&& self.checks.len() == self.data.len()
                    &&& old(w).refuses()
                    &&& stream::breaks_off(old(w).taken(), final(w).taken(), self@.encoded())
                    &&& old(w).taken().len() <= final(w).taken().len() < old(w).taken().len()
                        + self@.encoded().len()
                    &&& final(w).taken() == (old(w).taken() + self@.encoded()).take(
                        final(w).taken().len() as int,
                    )
                    &&& e.comes_of(final(w).failure(), final(w).stalled())
                    &&& old(w).takes_whole() ==> stream::refused_at(
                        old(w).offered(),
                        final(w).offered(),
                        Kind::Verified.calls(self.data@.len() as int),
                        old(w).taken(),
                        final(w).taken(),
                        self@.encoded(),
                    )
                },
            },
    {
        if self.checks.len() != self.data.len() {
            return Err(
                VerifiedWriteError::Lengths(
                    LengthMismatch { data: self.data.len(), checks: self.checks.len() },
                ),
            );
        }
        match write_frame(
            w,
            Kind::Verified,
            self.seed,
            &self.geometry,
            self.data.as_slice(),
            self.checks.as_slice(),
        ) {
            Ok(n) => Ok(n),
            Err(e) => {
                proof {
                    stream_laws::lemma_broken_off_is_a_prefix(
                        old(w).taken(),
                        w.taken(),
                        self@.encoded(),
                    );
                }
                Err(VerifiedWriteError::Write(e))
            },
        }
    }

    /// Deserialize a `VerifiedConstMap` from a source.
    ///
    /// Verifies the trailing checksum and returns an error if the data is corrupted.
    pub fn read_from<R: Source>(r: &mut R) -> (res: Result<VerifiedConstMap, ReadError<R::Error>>)
        ensures
            final(r).fails() == old(r).fails(),
            final(r).gives_whole() == old(r).gives_whole(),
            old(r).gives_whole() && !(res matches Err(ReadError::Source { .. }))
                ==> final(r).asked() == calls::recorded(
                old(r).asked(),
                calls::calls_for(
                    Kind::Verified.read_calls(old(r).rest()),
                    old(r).rest().len() as int,
                ),
            ),
            match res {
                Ok(m) => {
                    &&& VerifiedModel::decoded(old(r).rest()) == Ok::<VerifiedModel, FormatError>(
                        m@,
                    )
                    &&& final(r).rest() == old(r).rest().skip(
                        Kind::Verified.consumed(old(r).rest()),
                    )
                },
                Err(ReadError::Format(e)) => {
                    &&& VerifiedModel::decoded(old(r).rest()) == Err::<VerifiedModel, FormatError>(
                        e,
                    )
                    &&& final(r).rest() == old(r).rest().skip(
                        Kind::Verified.consumed(old(r).rest()),
                    )
                },
                Err(ReadError::Source { error, at }) => {
                    &&& old(r).fails()
                    &&& final(r).failure() == Some(error)
                    &&& Kind::Verified.stops_at(old(r).rest(), final(r).rest(), at)
                    &&& old(r).gives_whole() ==> stream::failed_at(
                        old(r).asked(),
                        final(r).asked(),
                        calls::calls_for(
                            Kind::Verified.read_calls(old(r).rest()),
                            old(r).rest().len() as int,
                        ),
                        old(r).rest(),
                        final(r).rest(),
                    )
                },
            },
    {
        match read_frame(r, Kind::Verified) {
            Ok(f) => Ok(
                VerifiedConstMap {
                    seed: f.seed,
                    geometry: geometry_of(f.segment_length, f.segment_count),
                    data: f.data,
                    checks: f.checks,
                },
            ),
            Err(e) => Err(e),
        }
    }
}

} // verus!

//! The bytes that stand for a map.
//!
//! Both formats are little-endian: magic bytes, the seed, the length and the number of segments,
//! the number of words in an array, the arrays, and a checksum of all bytes before it. A verified
//! map has a second array, and four zero bytes in front of the arrays so that both begin at a
//! multiple of eight bytes.

use vstd::prelude::*;
use vstd::string::StringExecFns;

use crate::text::{push_decimal, push_hexadecimal};
#[allow(unused_imports)]
use crate::{calls, checksum, little_endian, text};

verus! {

/// How many words are moved at a time.
pub const IO_CHUNK_WORDS: usize = 8192;

/// The first bytes of a map without check words, `CMAP0001`.
pub const MAGIC: [u8; 8] = [0x43, 0x4d, 0x41, 0x50, 0x30, 0x30, 0x30, 0x31];

/// The first bytes of a map with check words, `VMAP0001`.
pub const VERIFIED_MAGIC: [u8; 8] = [0x56, 0x4d, 0x41, 0x50, 0x30, 0x30, 0x30, 0x31];

/// The number of bytes before the arrays of a map with check words, with the padding that
/// aligns them.
pub const VERIFIED_HEADER_SIZE: u64 = 32;

/// Which map the bytes stand for.
#[derive(Clone, Copy, Debug, PartialEq, Eq, Structural)]
pub enum Kind {
    /// A `ConstMap`.
    Plain,
    /// A `VerifiedConstMap`.
    Verified,
}

/// One of the arrays of a map.
#[derive(Clone, Copy, Debug, PartialEq, Eq, Structural)]
pub enum Array {
    /// The words that yield the values.
    Data,
    /// The check words.
    Checks,
}

/// Words of an array, those from `from` up to `to`.
#[derive(Clone, Copy, Debug, PartialEq, Eq, Structural)]
pub struct Span {
    pub array: Array,
    pub from: usize,
    pub to: usize,
}

/// Why bytes do not stand for a map.
#[derive(Clone, Copy, Debug, PartialEq, Eq)]
pub enum FormatError {
    /// They break off, in the middle of an array or elsewhere.
    UnexpectedEof(Option<Span>),
    /// They stand for a map of the other kind.
    Foreign(Kind),
    /// They do not begin as those of a map do.
    BadMagic,
    /// The checksum at their end is `got`, not the checksum `expected` of the bytes before it.
    ChecksumMismatch { got: u64, expected: u64 },
}

/// What the bytes of a map say.
#[verifier::ext_equal]
pub struct FrameModel {
    pub seed: u64,
    pub segment_length: u32,
    pub segment_count: u32,
    pub data: Seq<u64>,
    pub checks: Seq<u64>,
}

/// The word whose bytes begin at `at`.
pub open spec fn word_at(s: Seq<u8>, at: int) -> u64 {
    little_endian::le_value(s.subrange(at, at + 8)) as u64
}

/// The half word whose bytes begin at `at`.
pub open spec fn half_at(s: Seq<u8>, at: int) -> u32 {
    little_endian::le_value(s.subrange(at, at + 4)) as u32
}

/// The words that are being read of an array of `n` words where only `available` bytes are there.
pub open spec fn span_at(array: Array, n: int, available: int) -> Span {
    let from = available / (8 * IO_CHUNK_WORDS) * IO_CHUNK_WORDS;
    let to = if n < from + IO_CHUNK_WORDS {
        n
    } else {
        from + IO_CHUNK_WORDS
    };
    Span { array, from: from as usize, to: to as usize }
}

impl Kind {
    /// The bytes that it begins with.
    pub open spec fn magic(self) -> Seq<u8> {
        match self {
            Kind::Plain => MAGIC@,
            Kind::Verified => VERIFIED_MAGIC@,
        }
    }

    /// The other kind.
    pub open spec fn other(self) -> Kind {
        match self {
            Kind::Plain => Kind::Verified,
            Kind::Verified => Kind::Plain,
        }
    }

    /// The number of bytes before the arrays.
    pub open spec fn header_size(self) -> int {
        match self {
            Kind::Plain => 28,
            Kind::Verified => VERIFIED_HEADER_SIZE as int,
        }
    }

    /// The bytes that bring the header to its size.
    pub open spec fn padding(self) -> Seq<u8> {
        match self {
            Kind::Plain => Seq::empty(),
            Kind::Verified => little_endian::le_bytes(0, 4),
        }
    }

    /// The number of check words where there are `n` data words.
    pub open spec fn check_count(self, n: int) -> int {
        match self {
            Kind::Plain => 0,
            Kind::Verified => n,
        }
    }

    /// The number of bytes before the checksum.
    pub open spec fn body_size(self, n: int) -> int {
        self.header_size() + 8 * n + 8 * self.check_count(n)
    }

    /// The frame has the arrays that it is to have.
    pub open spec fn fits(self, f: FrameModel) -> bool {
        f.checks.len() == self.check_count(f.data.len() as int)
    }

    /// The bytes before the arrays.
    pub open spec fn header(self, f: FrameModel) -> Seq<u8> {
        self.magic() + little_endian::le_bytes(f.seed as nat, 8) + little_endian::le_bytes(
            f.segment_length as nat,
            4,
        ) + little_endian::le_bytes(f.segment_count as nat, 4) + little_endian::le_bytes(
            f.data.len(),
            4,
        ) + self.padding()
    }

    /// The bytes before the checksum.
    pub open spec fn body(self, f: FrameModel) -> Seq<u8> {
        self.header(f) + little_endian::words_bytes(f.data) + little_endian::words_bytes(f.checks)
    }

    /// The bytes that stand for the frame.
    #[verifier::opaque]
    pub open spec fn encoded(self, f: FrameModel) -> Seq<u8> {
        self.body(f) + little_endian::le_bytes(checksum::fnv(self.body(f)) as nat, 8)
    }

    /// The words that are being read where only `available` bytes of the arrays are there.
    pub open spec fn break_at(self, n: int, available: int) -> Span {
        if available < 8 * n {
            span_at(Array::Data, n, available)
        } else {
            span_at(Array::Checks, n, available - 8 * n)
        }
    }

    /// The frame for which the first of the bytes `s` stand.
    #[verifier::opaque]
    pub open spec fn decoded(self, s: Seq<u8>) -> Result<FrameModel, FormatError> {
        let header = self.header_size();
        let n = half_at(s, 24) as int;
        let body = self.body_size(n);
        if s.len() < 8 {
            Err(FormatError::UnexpectedEof(None))
        } else if s.take(8) == self.other().magic() {
            Err(FormatError::Foreign(self.other()))
        } else if s.take(8) != self.magic() {
            Err(FormatError::BadMagic)
        } else if s.len() < header {
            Err(FormatError::UnexpectedEof(None))
        } else if s.len() < body {
            Err(FormatError::UnexpectedEof(Some(self.break_at(n, s.len() - header))))
        } else if s.len() < body + 8 {
            Err(FormatError::UnexpectedEof(None))
        } else if word_at(s, body) != checksum::fnv(s.take(body)) {
            Err(
                FormatError::ChecksumMismatch {
                    got: word_at(s, body),
                    expected: checksum::fnv(s.take(body)),
                },
            )
        } else {
            Ok(
                FrameModel {
                    seed: word_at(s, 8),
                    segment_length: half_at(s, 16),
                    segment_count: half_at(s, 20),
                    data: little_endian::words_value(s.subrange(header, header + 8 * n)),
                    checks: little_endian::words_value(s.subrange(header + 8 * n, body)),
                },
            )
        }
    }

    /// How many of the bytes `s` are read.
    #[verifier::opaque]
    pub open spec fn consumed(self, s: Seq<u8>) -> int {
        match self.decoded(s) {
            Err(FormatError::UnexpectedEof(_)) => s.len() as int,
            Err(FormatError::Foreign(_)) => 8,
            Err(FormatError::BadMagic) => 8,
            _ => self.body_size(half_at(s, 24) as int) + 8,
        }
    }
}

/// The calls that move the fields of a header of `size` bytes, from byte `from` on: two of eight
/// bytes, and then of four each.
pub open spec fn field_calls(from: int, size: int) -> Seq<nat>
    decreases size + 8 - from,
{
    if from >= size {
        Seq::empty()
    } else if from < 16 {
        calls::piece(8) + field_calls(from + 8, size)
    } else {
        calls::piece(4) + field_calls(from + 4, size)
    }
}

impl Kind {
    /// The calls that move the header, a field at a time.
    pub open spec fn header_calls(self) -> Seq<nat> {
        match self {
            Kind::Plain => seq![8, 8, 4, 4, 4],
            Kind::Verified => seq![8, 8, 4, 4, 4, 4],
        }
    }

    /// The calls that move the arrays of a map of `n` data words, a chunk at a time.
    pub open spec fn array_calls(self, n: int) -> Seq<nat> {
        calls::chunk_calls(n) + calls::chunk_calls(self.check_count(n))
    }

    /// The calls that move a map of `n` data words.
    pub open spec fn calls(self, n: int) -> Seq<nat> {
        self.header_calls() + self.array_calls(n) + calls::piece(8)
    }

    /// The calls that read the header from the bytes `s`, as far as there are bytes for them.
    pub open spec fn read_header_calls(self, s: Seq<u8>) -> Seq<nat> {
        if s.len() >= 8 && s.take(8) == self.magic() {
            self.header_calls()
        } else {
            calls::piece(8)
        }
    }

    /// The calls that read what stands in front of the checksum from the bytes `s`, as far as
    /// there are bytes for them.
    pub open spec fn read_body_calls(self, s: Seq<u8>) -> Seq<nat> {
        if s.len() >= 8 && s.take(8) == self.magic() {
            self.header_calls() + self.array_calls(half_at(s, 24) as int)
        } else {
            calls::piece(8)
        }
    }

    /// The calls that read a map from the bytes `s`, as far as there are bytes for them: all of
    /// them, or where the bytes do not begin as they are to, one.
    pub open spec fn read_calls(self, s: Seq<u8>) -> Seq<nat> {
        if s.len() >= 8 && s.take(8) == self.magic() {
            self.calls(half_at(s, 24) as int)
        } else {
            calls::piece(8)
        }
    }
}

/// The calls for the header are those for its fields.
pub proof fn lemma_header_calls(kind: Kind)
    ensures
        kind.header_calls() == field_calls(0, kind.header_size()),
        kind.header_calls() == calls::piece(8) + field_calls(8, kind.header_size()),
        calls::total(kind.header_calls()) == kind.header_size(),
{
    reveal_with_fuel(field_calls, 7);
    assert(field_calls(0, kind.header_size()) =~= kind.header_calls());
    assert(kind.header_calls() =~= calls::piece(8) + field_calls(8, kind.header_size()));
    lemma_field_total(0, kind.header_size());
}

/// The calls for what stands in front of the checksum ask for all of it.
pub proof fn lemma_body_calls(kind: Kind, n: int)
    requires
        n >= 0,
    ensures
        calls::total(kind.header_calls() + kind.array_calls(n)) == kind.body_size(n),
{
    lemma_header_calls(kind);
    calls::lemma_chunk_total(n);
    calls::lemma_chunk_total(kind.check_count(n));
    calls::lemma_total(calls::chunk_calls(n), calls::chunk_calls(kind.check_count(n)));
    calls::lemma_total(kind.header_calls(), kind.array_calls(n));
}

/// Where reading ends with the header, no calls for the arrays are made.
pub proof fn lemma_header_calls_short(kind: Kind, s: Seq<u8>)
    requires
        s.len() < kind.header_size() || s.take(8) != kind.magic(),
    ensures
        calls::calls_for(kind.read_header_calls(s), s.len() as int) == calls::calls_for(
            kind.read_body_calls(s),
            s.len() as int,
        ),
{
    lemma_header_calls(kind);
    calls::lemma_calls_for(
        kind.header_calls(),
        kind.array_calls(half_at(s, 24) as int),
        s.len() as int,
    );
}

/// Where reading ends before the checksum, no call for it is made.
pub proof fn lemma_body_calls_short(kind: Kind, s: Seq<u8>)
    requires
        s.len() < kind.header_size() || s.take(8) != kind.magic() || s.len() < kind.body_size(
            half_at(s, 24) as int,
        ),
    ensures
        calls::calls_for(kind.read_body_calls(s), s.len() as int) == calls::calls_for(
            kind.read_calls(s),
            s.len() as int,
        ),
{
    let n = half_at(s, 24) as int;
    lemma_body_calls(kind, n);
    calls::lemma_calls_for(
        kind.header_calls() + kind.array_calls(n),
        calls::piece(8),
        s.len() as int,
    );
}

/// The calls for fields ask for all of their bytes.
pub proof fn lemma_field_total(from: int, size: int)
    requires
        from == 0 || from == 8 || from >= 16,
        from <= size,
        from % 4 == 0,
        size % 4 == 0,
        size >= 16,
    ensures
        calls::total(field_calls(from, size)) == size - from,
    decreases size + 8 - from,
{
    reveal_with_fuel(calls::total, 2);
    if from < size {
        let len: int = if from < 16 {
            8
        } else {
            4
        };
        lemma_field_total(from + len, size);
        calls::lemma_total(calls::piece(len as nat), field_calls(from + len, size));
        assert(calls::piece(len as nat).skip(1) =~= Seq::empty());
    }
}

impl Kind {
    /// Of the bytes `s` those before `after` were read, and the words `at`, or bytes elsewhere,
    /// were being read next: those that are named where the bytes break off there.
    pub open spec fn stops_at(self, s: Seq<u8>, after: Seq<u8>, at: Option<Span>) -> bool {
        exists|p: int|
            0 <= p <= s.len() && after == s.skip(p) && #[trigger] self.decoded(s.take(p)) == Err::<
                FrameModel,
                FormatError,
            >(FormatError::UnexpectedEof(at))
    }
}

impl Span {
    /// What is said in front of an error in these words.
    pub open spec fn text(self) -> Seq<char> {
        "constmap: reading "@ + (match self.array {
            Array::Data => "data"@,
            Array::Checks => "checks"@,
        }) + "["@ + text::decimal(self.from as nat) + ":"@ + text::decimal(self.to as nat)
            + "]: "@
    }

    /// What is said in front of an error in these words.
    pub fn message(&self) -> (r: String)
        ensures
            r@ == self.text(),
    {
        let mut r: String = "constmap: reading ".to_owned();
        r.append(
            match self.array {
                Array::Data => "data",
                Array::Checks => "checks",
            },
        );
        r.append("[");
        push_decimal(&mut r, self.from as u64);
        r.append(":");
        push_decimal(&mut r, self.to as u64);
        r.append("]: ");
        r
    }
}

impl FormatError {
    /// The error in words.
    pub open spec fn text(self) -> Seq<char> {
        match self {
            FormatError::UnexpectedEof(None) => "failed to fill whole buffer"@,
            FormatError::UnexpectedEof(Some(span)) => span.text()
                + "failed to fill whole buffer"@,
            FormatError::Foreign(Kind::Verified) => {
                "constmap: this is a VerifiedConstMap file, use VerifiedConstMap::load_from_file"@
            },
            FormatError::Foreign(Kind::Plain) => {
                "constmap: this is a ConstMap file, use ConstMap::load_from_file"@
            },
            FormatError::BadMagic => "constmap: invalid magic bytes"@,
            FormatError::ChecksumMismatch { got, expected } => {
                "constmap: checksum mismatch (got "@ + text::hexadecimal(got as nat, 16)
                    + ", expected "@ + text::hexadecimal(expected as nat, 16) + ")"@
            },
        }
    }

    /// The error in words.
    pub fn message(&self) -> (r: String)
        ensures
            r@ == self.text(),
    {
        match self {
            FormatError::UnexpectedEof(None) => "failed to fill whole buffer".to_owned(),
            FormatError::UnexpectedEof(Some(span)) => {
                let mut r: String = span.message();
                r.append("failed to fill whole buffer");
                r
            },
            FormatError::Foreign(Kind::Verified) => {
                "constmap: this is a VerifiedConstMap file, use VerifiedConstMap::load_from_file".to_owned()
            },
            FormatError::Foreign(Kind::Plain) => {
                "constmap: this is a ConstMap file, use ConstMap::load_from_file".to_owned()
            },
            FormatError::BadMagic => "constmap: invalid magic bytes".to_owned(),
            FormatError::ChecksumMismatch { got, expected } => {
                let mut r: String = "constmap: checksum mismatch (got ".to_owned();
                push_hexadecimal(&mut r, *got, 16);
                r.append(", expected ");
                push_hexadecimal(&mut r, *expected, 16);
                r.append(")");
                r
            },
        }
    }
}

/// Where the words of the chunk that begins with word `from` are not all there, it is they that
/// are being read.
pub proof fn lemma_span(array: Array, n: usize, from: usize, to: usize, available: int)
    requires
        from % IO_CHUNK_WORDS == 0,
        from <= to,
        to == n && to <= from + IO_CHUNK_WORDS || to == from + IO_CHUNK_WORDS && to <= n,
        8 * from <= available < 8 * to,
    ensures
        span_at(array, n as int, available) == (Span { array, from, to }),
{
    let q = from as int / IO_CHUNK_WORDS as int;
    assert(from == q * 8192);
    assert(available / 65536 == q);
}

/// Bytes that break off in the header do so outside the arrays.
pub proof fn lemma_stops_in_header(kind: Kind, s: Seq<u8>, p: int)
    requires
        0 <= p < kind.header_size(),
        p <= s.len(),
        p >= 8 ==> s.take(8) == kind.magic(),
    ensures
        kind.decoded(s.take(p)) == Err::<FrameModel, FormatError>(FormatError::UnexpectedEof(None)),
        kind.stops_at(s, s.skip(p), None),
{
    reveal(Kind::decoded);
    lemma_magic(kind);
    if p >= 8 {
        assert(s.take(p).take(8) =~= s.take(8));
    }
}

/// Where bytes break off behind the header.
pub proof fn lemma_stops_in_body(kind: Kind, s: Seq<u8>, p: int)
    requires
        kind.header_size() <= p <= s.len(),
        s.take(8) == kind.magic(),
        p < kind.body_size(half_at(s, 24) as int) + 8,
    ensures
        ({
            let n = half_at(s, 24) as int;
            let at = if p < kind.body_size(n) {
                Some(kind.break_at(n, p - kind.header_size()))
            } else {
                None
            };
            &&& kind.decoded(s.take(p)) == Err::<FrameModel, FormatError>(
                FormatError::UnexpectedEof(at),
            )
            &&& kind.stops_at(s, s.skip(p), at)
        }),
{
    reveal(Kind::decoded);
    lemma_magic(kind);
    assert(s.take(p).take(8) =~= s.take(8));
    assert(s.take(p).subrange(24, 28) =~= s.subrange(24, 28));
}

/// What becomes of bytes that break off behind the header.
pub proof fn lemma_short_body(kind: Kind, s: Seq<u8>)
    requires
        s.take(8) == kind.magic(),
        kind.header_size() <= s.len() < kind.body_size(half_at(s, 24) as int) + 8,
    ensures
        ({
            let n = half_at(s, 24) as int;
            let at = if s.len() < kind.body_size(n) {
                Some(kind.break_at(n, s.len() - kind.header_size()))
            } else {
                None
            };
            kind.decoded(s) == Err::<FrameModel, FormatError>(FormatError::UnexpectedEof(at))
        }),
        s.skip(kind.consumed(s)) == Seq::<u8>::empty(),
{
    reveal(Kind::consumed);
    lemma_stops_in_body(kind, s, s.len() as int);
    assert(s.take(s.len() as int) =~= s);
    assert(s.skip(s.len() as int) =~= Seq::empty());
}

/// What becomes of bytes that do not break off.
pub proof fn lemma_whole_body(kind: Kind, s: Seq<u8>)
    requires
        s.take(8) == kind.magic(),
        s.len() >= kind.body_size(half_at(s, 24) as int) + 8,
    ensures
        ({
            let header = kind.header_size();
            let n = half_at(s, 24) as int;
            let body = kind.body_size(n);
            let (got, expected) = (word_at(s, body), checksum::fnv(s.take(body)));
            &&& kind.consumed(s) == body + 8
            &&& got != expected ==> kind.decoded(s) == Err::<FrameModel, FormatError>(
                FormatError::ChecksumMismatch { got, expected },
            )
            &&& got == expected ==> kind.decoded(s) == Ok::<FrameModel, FormatError>(
                FrameModel {
                    seed: word_at(s, 8),
                    segment_length: half_at(s, 16),
                    segment_count: half_at(s, 20),
                    data: little_endian::words_value(s.subrange(header, header + 8 * n)),
                    checks: little_endian::words_value(s.subrange(header + 8 * n, body)),
                },
            )
        }),
{
    reveal(Kind::decoded);
    reveal(Kind::consumed);
    lemma_magic(kind);
}

/// The two kinds begin differently, with eight bytes.
pub proof fn lemma_magic(kind: Kind)
    ensures
        kind.magic().len() == 8,
        kind.magic() != kind.other().magic(),
{
    assert(MAGIC@[0] == 0x43);
    assert(VERIFIED_MAGIC@[0] == 0x56);
}

/// The fields are found again in the header, whatever follows it.
pub proof fn lemma_header_fields(kind: Kind, f: FrameModel, tail: Seq<u8>)
    ensures
        ({
            let s = kind.header(f) + tail;
            &&& kind.header(f).len() == kind.header_size()
            &&& s.take(8) == kind.magic()
            &&& word_at(s, 8) == f.seed
            &&& half_at(s, 16) == f.segment_length
            &&& half_at(s, 20) == f.segment_count
            &&& f.data.len() <= u32::MAX ==> half_at(s, 24) == f.data.len()
        }),
{
    let s = kind.header(f) + tail;
    lemma_magic(kind);
    little_endian::lemma_le_sizes();
    little_endian::lemma_le_bytes_len(f.data.len(), 4);
    little_endian::lemma_le_bytes_len(0, 4);
    little_endian::lemma_le_round_trip(f.seed as nat, 8);
    little_endian::lemma_le_round_trip(f.segment_length as nat, 4);
    little_endian::lemma_le_round_trip(f.segment_count as nat, 4);
    assert(s.take(8) =~= kind.magic());
    assert(s.subrange(8, 16) =~= little_endian::le_bytes(f.seed as nat, 8));
    assert(s.subrange(16, 20) =~= little_endian::le_bytes(f.segment_length as nat, 4));
    assert(s.subrange(20, 24) =~= little_endian::le_bytes(f.segment_count as nat, 4));
    assert(s.subrange(24, 28) =~= little_endian::le_bytes(f.data.len(), 4));
    if f.data.len() <= u32::MAX {
        little_endian::lemma_le_round_trip(f.data.len(), 4);
    }
}

/// How long the bytes of a frame are.
pub proof fn lemma_encoded_len(kind: Kind, f: FrameModel)
    requires
        kind.fits(f),
    ensures
        kind.body(f).len() == kind.body_size(f.data.len() as int),
        kind.encoded(f).len() == kind.body_size(f.data.len() as int) + 8,
        kind.encoded(f).take(kind.body(f).len() as int) == kind.body(f),
{
    reveal(Kind::encoded);
    lemma_header_fields(kind, f, Seq::empty());
    little_endian::lemma_words_bytes_len(f.data);
    little_endian::lemma_words_bytes_len(f.checks);
    little_endian::lemma_le_bytes_len(checksum::fnv(kind.body(f)) as nat, 8);
    assert(kind.encoded(f).take(kind.body(f).len() as int) =~= kind.body(f));
}

/// The parts of bytes that are put together of five.
proof fn lemma_parts(a: Seq<u8>, b: Seq<u8>, c: Seq<u8>, d: Seq<u8>, e: Seq<u8>)
    ensures
        ({
            let s = (a + b + c + d) + e;
            let (i, j, k) = (a.len() as int, (a + b).len() as int, (a + b + c).len() as int);
            &&& s == a + (b + c + d + e)
            &&& s.subrange(i, j) == b
            &&& s.subrange(j, k) == c
            &&& s.take(k) == a + b + c
            &&& s.subrange(k, k + d.len()) == d
        }),
{
    let s = (a + b + c + d) + e;
    let (i, j, k) = (a.len() as int, (a + b).len() as int, (a + b + c).len() as int);
    assert(s =~= a + (b + c + d + e));
    assert(s.subrange(i, j) =~= b);
    assert(s.subrange(j, k) =~= c);
    assert(s.take(k) =~= a + b + c);
    assert(s.subrange(k, k + d.len()) =~= d);
}

/// The arrays stand behind the header, and the padding at its end.
pub proof fn lemma_encoded_parts(kind: Kind, f: FrameModel)
    requires
        kind.fits(f),
    ensures
        ({
            let s = kind.encoded(f);
            let data = kind.header_size();
            let checks = data + 8 * f.data.len();
            &&& s.len() == checks + 8 * f.checks.len() + 8
            &&& s.subrange(28, data) == kind.padding()
            &&& s.subrange(data, checks) == little_endian::words_bytes(f.data)
            &&& s.subrange(checks, checks + 8 * f.checks.len()) == little_endian::words_bytes(
                f.checks,
            )
        }),
{
    reveal(Kind::encoded);
    let s = kind.encoded(f);
    let sum = little_endian::le_bytes(checksum::fnv(kind.body(f)) as nat, 8);
    let data = little_endian::words_bytes(f.data);
    let checks = little_endian::words_bytes(f.checks);
    lemma_encoded_len(kind, f);
    lemma_header_fields(kind, f, Seq::empty());
    little_endian::lemma_words_bytes_len(f.data);
    little_endian::lemma_words_bytes_len(f.checks);
    lemma_parts(kind.header(f), data, checks, sum, Seq::empty());
    assert(s + Seq::<u8>::empty() =~= s);
    little_endian::lemma_le_bytes_len(0, 4);
    assert(kind.header(f).subrange(28, kind.header_size()) =~= kind.padding());
    assert(s.subrange(28, kind.header_size()) =~= kind.header(f).subrange(
        28,
        kind.header_size(),
    ));
}

/// What was written is read back, whatever follows it, and what follows it is left alone.
pub proof fn lemma_frame_round_trip(kind: Kind, f: FrameModel, tail: Seq<u8>)
    requires
        kind.fits(f),
        f.data.len() <= u32::MAX,
    ensures
        kind.decoded(kind.encoded(f) + tail) == Ok::<FrameModel, FormatError>(f),
        kind.consumed(kind.encoded(f) + tail) == kind.encoded(f).len(),
{
    reveal(Kind::decoded);
    reveal(Kind::consumed);
    reveal(Kind::encoded);
    let sum = little_endian::le_bytes(checksum::fnv(kind.body(f)) as nat, 8);
    let data = little_endian::words_bytes(f.data);
    let checks = little_endian::words_bytes(f.checks);
    lemma_magic(kind);
    lemma_encoded_len(kind, f);
    lemma_parts(kind.header(f), data, checks, sum, tail);
    lemma_header_fields(kind, f, data + checks + sum + tail);
    little_endian::lemma_le_sizes();
    little_endian::lemma_le_round_trip(checksum::fnv(kind.body(f)) as nat, 8);
    little_endian::lemma_words_round_trip(f.data);
    little_endian::lemma_words_round_trip(f.checks);
}

/// The bytes of one kind are reported as such by the reader of the other.
pub proof fn lemma_frame_foreign(kind: Kind, f: FrameModel, tail: Seq<u8>)
    requires
        kind.fits(f),
    ensures
        kind.other().decoded(kind.encoded(f) + tail) == Err::<FrameModel, FormatError>(
            FormatError::Foreign(kind),
        ),
{
    reveal(Kind::decoded);
    reveal(Kind::consumed);
    reveal(Kind::encoded);
    let s = kind.encoded(f) + tail;
    let rest = kind.encoded(f).skip(kind.header_size()) + tail;
    lemma_encoded_len(kind, f);
    lemma_header_fields(kind, f, rest);
    assert(s =~= kind.header(f) + rest);
}

/// Bytes of a map that break off anywhere are reported as such.
pub proof fn lemma_truncated(kind: Kind, s: Seq<u8>, len: int)
    requires
        kind.decoded(s) is Ok,
        0 <= len < kind.consumed(s),
    ensures
        kind.decoded(s.take(len)) matches Err(FormatError::UnexpectedEof(_)),
{
    reveal(Kind::decoded);
    reveal(Kind::consumed);
    lemma_magic(kind);
    if len >= 8 {
        assert(s.take(len).take(8) =~= s.take(8));
    }
    if len >= kind.header_size() {
        assert(s.take(len).subrange(24, 28) =~= s.subrange(24, 28));
    }
}

/// The error is that of a change of the byte `at`: of one of the magic bytes, of the number of
/// words, which was made greater, or of any other byte.
pub open spec fn tells_change(at: int, e: FormatError) -> bool {
    if at < 8 {
        e is Foreign || e is BadMagic
    } else if 24 <= at < 28 {
        e is UnexpectedEof
    } else {
        e is ChecksumMismatch
    }
}

proof fn lemma_header_byte(kind: Kind, s: Seq<u8>, at: int, byte: u8)
    requires
        kind.decoded(s) is Ok,
        kind.consumed(s) == s.len(),
        0 <= at < 8 && byte != s[at] || 24 <= at < 28 && byte > s[at],
    ensures
        kind.decoded(s.update(at, byte)) matches Err(e) && tells_change(at, e),
{
    reveal(Kind::decoded);
    reveal(Kind::consumed);
    let t = s.update(at, byte);
    if at < 8 {
        assert(t.take(8)[at] != s.take(8)[at]);
    } else {
        lemma_magic(kind);
        assert(t.take(8) =~= s.take(8));
        let (x, y) = (s.subrange(24, 28), t.subrange(24, 28));
        little_endian::lemma_le_value_increases(x, at - 24, byte);
        assert(y =~= x.update(at - 24, byte));
        little_endian::lemma_le_value_bounded(x);
        little_endian::lemma_le_value_bounded(y);
        little_endian::lemma_le_sizes();
        assert(half_at(t, 24) > half_at(s, 24));
    }
}

proof fn lemma_body_byte(kind: Kind, s: Seq<u8>, at: int, byte: u8)
    requires
        kind.decoded(s) is Ok,
        kind.consumed(s) == s.len(),
        8 <= at < s.len() - 8,
        !(24 <= at < 28),
        byte != s[at],
    ensures
        kind.decoded(s.update(at, byte)) matches Err(e) && tells_change(at, e),
{
    reveal(Kind::decoded);
    reveal(Kind::consumed);
    let t = s.update(at, byte);
    let body = kind.body_size(half_at(s, 24) as int);
    lemma_magic(kind);
    assert(t.take(8) =~= s.take(8));
    assert(t.subrange(24, 28) =~= s.subrange(24, 28));
    assert(t.take(body) =~= s.take(body).update(at, byte));
    checksum::lemma_fnv_detects_one_byte(s.take(body), at, byte);
    assert(t.subrange(body, body + 8) =~= s.subrange(body, body + 8));
}

proof fn lemma_checksum_byte(kind: Kind, s: Seq<u8>, at: int, byte: u8)
    requires
        kind.decoded(s) is Ok,
        kind.consumed(s) == s.len(),
        s.len() - 8 <= at < s.len(),
        byte != s[at],
    ensures
        kind.decoded(s.update(at, byte)) matches Err(e) && tells_change(at, e),
{
    reveal(Kind::decoded);
    reveal(Kind::consumed);
    let t = s.update(at, byte);
    let body = kind.body_size(half_at(s, 24) as int);
    lemma_magic(kind);
    assert(t.take(8) =~= s.take(8));
    assert(t.subrange(24, 28) =~= s.subrange(24, 28));
    assert(t.take(body) =~= s.take(body));
    let (x, y) = (s.subrange(body, body + 8), t.subrange(body, body + 8));
    assert(x[at - body] != y[at - body]);
    little_endian::lemma_le_value_bounded(x);
    little_endian::lemma_le_value_bounded(y);
    little_endian::lemma_le_sizes();
    if little_endian::le_value(x) == little_endian::le_value(y) {
        little_endian::lemma_le_value_injective(x, y);
    }
}

/// A change of one byte of a map is reported, unless it makes the number of words smaller: then
/// the checksum is looked for among the words, where anything may stand. What is reported is
/// where the byte stands.
pub proof fn lemma_one_byte_detected(kind: Kind, s: Seq<u8>, at: int, byte: u8)
    requires
        kind.decoded(s) is Ok,
        kind.consumed(s) == s.len(),
        0 <= at < s.len(),
        byte != s[at],
        24 <= at < 28 ==> byte > s[at],
    ensures
        kind.decoded(s.update(at, byte)) matches Err(e) && tells_change(at, e),
{
    if at < 8 || 24 <= at < 28 {
        lemma_header_byte(kind, s, at, byte);
    } else if at < s.len() - 8 {
        lemma_body_byte(kind, s, at, byte);
    } else {
        lemma_checksum_byte(kind, s, at, byte);
    }
}

/// Bytes that are read are those that are written of what was read, up to where reading ends. The
/// padding in front of the arrays is not looked at, and must be zero for that.
pub proof fn lemma_reencoded(kind: Kind, s: Seq<u8>)
    requires
        kind.decoded(s) is Ok,
        s.subrange(28, kind.header_size()) == kind.padding(),
    ensures
        kind.encoded(kind.decoded(s)->Ok_0) == s.take(kind.consumed(s)),
        kind.fits(kind.decoded(s)->Ok_0),
{
    reveal(Kind::decoded);
    reveal(Kind::consumed);
    reveal(Kind::encoded);
    let f = kind.decoded(s)->Ok_0;
    let header = kind.header_size();
    let n = half_at(s, 24) as int;
    let body = kind.body_size(n);
    lemma_reencoded_header(kind, s, f);
    let (data, checks) = (s.subrange(header, header + 8 * n), s.subrange(header + 8 * n, body));
    little_endian::lemma_words_reencoded(data);
    little_endian::lemma_words_reencoded(checks);
    assert(s.take(header) + data + checks =~= s.take(body));
    let sum = s.subrange(body, body + 8);
    little_endian::lemma_le_reencoded(sum);
    assert(s.take(body) + sum =~= s.take(body + 8));
}

proof fn lemma_reencoded_header(kind: Kind, s: Seq<u8>, f: FrameModel)
    requires
        s.len() >= kind.header_size(),
        s.take(8) == kind.magic(),
        s.subrange(28, kind.header_size()) == kind.padding(),
        f.seed == word_at(s, 8),
        f.segment_length == half_at(s, 16),
        f.segment_count == half_at(s, 20),
        f.data.len() == half_at(s, 24),
    ensures
        kind.header(f) == s.take(kind.header_size()),
{
    little_endian::lemma_le_reencoded(s.subrange(8, 16));
    little_endian::lemma_le_reencoded(s.subrange(16, 20));
    little_endian::lemma_le_reencoded(s.subrange(20, 24));
    little_endian::lemma_le_reencoded(s.subrange(24, 28));
    assert(s.take(8) + s.subrange(8, 16) + s.subrange(16, 20) + s.subrange(20, 24) + s.subrange(
        24,
        28,
    ) + s.subrange(28, kind.header_size()) =~= s.take(kind.header_size()));
}

} // verus!

//! What holds of the bytes that stand for a map, byte by byte.

use vstd::prelude::*;
#[allow(unused_imports)]
use vstd::arithmetic::power::*;

#[allow(unused_imports)]
use crate::const_map::MapModel;
#[allow(unused_imports)]
use crate::layout::{Array, FormatError, FrameModel, Kind, Span};
#[allow(unused_imports)]
use crate::verified_const_map::VerifiedModel;
#[allow(unused_imports)]
use crate::{checksum, layout, little_endian, number_laws};

verus! {

/// The `len` bytes of `s` from `at` on are the digits of `x` to the base 256, the least
/// significant first.
pub open spec fn has_digits(s: Seq<u8>, at: int, len: int, x: int) -> bool {
    forall|j: int| 0 <= j < len ==> #[trigger] s[at + j] == (x / pow(256, j as nat)) % 256
}

/// The number that the four bytes of `s` from `at` on make, the least significant first.
pub open spec fn four_bytes(s: Seq<u8>, at: int) -> int {
    s[at] + 0x100 * s[at + 1] + 0x1_0000 * s[at + 2] + 0x100_0000 * s[at + 3]
}

/// The number that the eight bytes of `s` from `at` on make, the least significant first.
pub open spec fn eight_bytes(s: Seq<u8>, at: int) -> int {
    s[at] + 0x100 * s[at + 1] + 0x1_0000 * s[at + 2] + 0x100_0000 * s[at + 3] + 0x1_0000_0000 * s[at
        + 4] + 0x100_0000_0000 * s[at + 5] + 0x1_0000_0000_0000 * s[at + 6] + 0x100_0000_0000_0000
        * s[at + 7]
}

/// `CMAP0001` in ASCII.
pub open spec fn plain_magic() -> Seq<u8> {
    seq!['C' as u8, 'M' as u8, 'A' as u8, 'P' as u8, '0' as u8, '0' as u8, '0' as u8, '1' as u8]
}

/// `VMAP0001` in ASCII.
pub open spec fn verified_magic() -> Seq<u8> {
    seq!['V' as u8, 'M' as u8, 'A' as u8, 'P' as u8, '0' as u8, '0' as u8, '0' as u8, '1' as u8]
}

/// The two formats begin with these bytes.
pub proof fn lemma_magic_bytes()
    ensures
        Kind::Plain.magic() == plain_magic(),
        Kind::Verified.magic() == verified_magic(),
        Kind::Plain.other() == Kind::Verified,
        Kind::Verified.other() == Kind::Plain,
        plain_magic() == seq![0x43u8, 0x4d, 0x41, 0x50, 0x30, 0x30, 0x30, 0x31],
        verified_magic() == seq![0x56u8, 0x4d, 0x41, 0x50, 0x30, 0x30, 0x30, 0x31],
{
    assert(Kind::Plain.magic() =~= plain_magic());
    assert(Kind::Verified.magic() =~= verified_magic());
}

proof fn lemma_digits_of(s: Seq<u8>, at: int, len: nat, x: nat)
    requires
        0 <= at,
        at + len <= s.len(),
        s.subrange(at, at + len) == little_endian::le_bytes(x, len),
    ensures
        has_digits(s, at, len as int, x as int),
{
    assert forall|j: int| 0 <= j < len implies #[trigger] s[at + j] == (x as int / pow(
        256,
        j as nat,
    )) % 256 by {
        number_laws::lemma_byte_is_digit(x, len, j);
        assert(s.subrange(at, at + len)[j] == s[at + j]);
    }
}

proof fn lemma_word_digits(s: Seq<u8>, at: int, words: Seq<u64>)
    requires
        0 <= at,
        at + 8 * words.len() <= s.len(),
        s.subrange(at, at + 8 * words.len()) == little_endian::words_bytes(words),
    ensures
        forall|i: int|
            0 <= i < words.len() ==> has_digits(s, at + 8 * i, 8, #[trigger] words[i] as int),
{
    assert forall|i: int| 0 <= i < words.len() implies has_digits(
        s,
        at + 8 * i,
        8,
        #[trigger] words[i] as int,
    ) by {
        assert forall|j: int| 0 <= j < 8 implies #[trigger] s[(at + 8 * i) + j] == (words[i] as int
            / pow(256, j as nat)) % 256 by {
            number_laws::lemma_byte_of_word(words, i, j);
            assert(s.subrange(at, at + 8 * words.len())[8 * i + j] == s[(at + 8 * i) + j]);
        }
    }
}

/// The fields of the bytes of a frame.
proof fn lemma_bytes_of_frame(kind: Kind, f: FrameModel)
    requires
        kind.fits(f),
    ensures
        ({
            let s = kind.encoded(f);
            let header = kind.header_size();
            let n = f.data.len() as int;
            let body = header + 8 * n + 8 * f.checks.len();
            &&& s.len() == body + 8
            &&& s.take(8) == kind.magic()
            &&& has_digits(s, 8, 8, f.seed as int)
            &&& has_digits(s, 16, 4, f.segment_length as int)
            &&& has_digits(s, 20, 4, f.segment_count as int)
            &&& has_digits(s, 24, 4, n)
            &&& forall|i: int|
                0 <= i < n ==> has_digits(s, header + 8 * i, 8, #[trigger] f.data[i] as int)
            &&& forall|i: int|
                0 <= i < f.checks.len() ==> has_digits(
                    s,
                    header + 8 * n + 8 * i,
                    8,
                    #[trigger] f.checks[i] as int,
                )
            &&& has_digits(s, body, 8, checksum::fnv(s.take(body)) as int)
        }),
{
    let s = kind.encoded(f);
    let header = kind.header_size();
    let n = f.data.len() as int;
    let body = header + 8 * n + 8 * f.checks.len();
    layout::lemma_encoded_len(kind, f);
    layout::lemma_encoded_parts(kind, f);
    layout::lemma_magic(kind);
    let head = kind.header(f);
    layout::lemma_header_fields(kind, f, Seq::empty());
    little_endian::lemma_le_bytes_len(f.seed as nat, 8);
    little_endian::lemma_le_bytes_len(f.segment_length as nat, 4);
    little_endian::lemma_le_bytes_len(f.segment_count as nat, 4);
    little_endian::lemma_le_bytes_len(f.data.len(), 4);
    little_endian::lemma_le_bytes_len(0, 4);
    assert(s.take(header) == head) by {
        reveal(Kind::encoded);
        assert(s.take(header) =~= head);
    }
    assert(s.take(8) =~= head.take(8));
    assert(head.take(8) =~= kind.magic());
    assert(s.subrange(8, 16) =~= head.subrange(8, 16));
    assert(head.subrange(8, 16) =~= little_endian::le_bytes(f.seed as nat, 8));
    assert(s.subrange(16, 20) =~= head.subrange(16, 20));
    assert(head.subrange(16, 20) =~= little_endian::le_bytes(f.segment_length as nat, 4));
    assert(s.subrange(20, 24) =~= head.subrange(20, 24));
    assert(head.subrange(20, 24) =~= little_endian::le_bytes(f.segment_count as nat, 4));
    assert(s.subrange(24, 28) =~= head.subrange(24, 28));
    assert(head.subrange(24, 28) =~= little_endian::le_bytes(f.data.len(), 4));
    lemma_digits_of(s, 8, 8, f.seed as nat);
    lemma_digits_of(s, 16, 4, f.segment_length as nat);
    lemma_digits_of(s, 20, 4, f.segment_count as nat);
    lemma_digits_of(s, 24, 4, f.data.len());
    lemma_word_digits(s, header, f.data);
    lemma_word_digits(s, header + 8 * n, f.checks);
    let sum = checksum::fnv(kind.body(f));
    assert(s.subrange(body, body + 8) == little_endian::le_bytes(sum as nat, 8)) by {
        reveal(Kind::encoded);
        little_endian::lemma_le_bytes_len(sum as nat, 8);
        assert(s.subrange(body, body + 8) =~= little_endian::le_bytes(sum as nat, 8));
    }
    lemma_digits_of(s, body, 8, sum as nat);
}

/// The bytes of a map: magic bytes, the seed, the length and the number of segments, the number of
/// words, the words, and the checksum of all bytes before it, each number with its least
/// significant byte first.
pub proof fn lemma_bytes_of_map(m: MapModel)
    ensures
        ({
            let s = m.encoded();
            let n = m.data.len() as int;
            &&& s.len() == 28 + 8 * n + 8
            &&& s.take(8) == plain_magic()
            &&& has_digits(s, 8, 8, m.seed as int)
            &&& has_digits(s, 16, 4, m.geometry.segment_length as int)
            &&& has_digits(s, 20, 4, m.geometry.segment_count as int)
            &&& has_digits(s, 24, 4, n)
            &&& forall|i: int|
                0 <= i < n ==> has_digits(s, 28 + 8 * i, 8, #[trigger] m.data[i] as int)
            &&& has_digits(s, 28 + 8 * n, 8, checksum::fnv(s.take(28 + 8 * n)) as int)
        }),
{
    lemma_magic_bytes();
    lemma_bytes_of_frame(Kind::Plain, m.frame());
}

/// The bytes of a verified map: those of a map, with four zeros in front of the data words, and
/// the check words behind them.
pub proof fn lemma_bytes_of_verified_map(m: VerifiedModel)
    requires
        m.checks.len() == m.data.len(),
    ensures
        ({
            let s = m.encoded();
            let n = m.data.len() as int;
            &&& s.len() == 32 + 16 * n + 8
            &&& s.take(8) == verified_magic()
            &&& has_digits(s, 8, 8, m.seed as int)
            &&& has_digits(s, 16, 4, m.geometry.segment_length as int)
            &&& has_digits(s, 20, 4, m.geometry.segment_count as int)
            &&& has_digits(s, 24, 4, n)
            &&& s[28] == 0 && s[29] == 0 && s[30] == 0 && s[31] == 0
            &&& forall|i: int|
                0 <= i < n ==> has_digits(s, 32 + 8 * i, 8, #[trigger] m.data[i] as int)
            &&& forall|i: int|
                0 <= i < n ==> has_digits(s, 32 + 8 * n + 8 * i, 8, #[trigger] m.checks[i] as int)
            &&& has_digits(s, 32 + 16 * n, 8, checksum::fnv(s.take(32 + 16 * n)) as int)
        }),
{
    let s = m.encoded();
    lemma_magic_bytes();
    lemma_bytes_of_frame(Kind::Verified, m.frame());
    layout::lemma_encoded_parts(Kind::Verified, m.frame());
    little_endian::lemma_le_zero(4);
    let padding = s.subrange(28, 32);
    assert(padding[0] == s[28] && padding[1] == s[29] && padding[2] == s[30] && padding[3]
        == s[31]);
}

/// The numbers that are read out of bytes.
pub proof fn lemma_numbers_of_bytes(s: Seq<u8>, at: int)
    requires
        0 <= at,
    ensures
        at + 4 <= s.len() ==> layout::half_at(s, at) == four_bytes(s, at),
        at + 8 <= s.len() ==> layout::word_at(s, at) == eight_bytes(s, at),
{
    little_endian::lemma_le_sizes();
    if at + 4 <= s.len() {
        let half = s.subrange(at, at + 4);
        little_endian::lemma_le_value_bounded(half);
        number_laws::lemma_worth_of_bytes(half, Seq::new(8, |i: int| 0u8));
    }
    if at + 8 <= s.len() {
        let word = s.subrange(at, at + 8);
        little_endian::lemma_le_value_bounded(word);
        number_laws::lemma_worth_of_bytes(Seq::new(4, |i: int| 0u8), word);
    }
}

proof fn lemma_read_words(s: Seq<u8>, at: int, n: int)
    requires
        0 <= at,
        0 <= n,
        at + 8 * n <= s.len(),
    ensures
        ({
            let words = little_endian::words_value(s.subrange(at, at + 8 * n));
            &&& words.len() == n
            &&& forall|i: int| 0 <= i < n ==> #[trigger] words[i] == eight_bytes(s, at + 8 * i)
        }),
{
    let own = s.subrange(at, at + 8 * n);
    let words = little_endian::words_value(own);
    assert forall|i: int| 0 <= i < n implies #[trigger] words[i] == eight_bytes(s, at + 8 * i) by {
        lemma_numbers_of_bytes(s, at + 8 * i);
        assert(own.subrange(8 * i, 8 * i + 8) =~= s.subrange(at + 8 * i, at + 8 * i + 8));
    }
}

/// The words `span` of an array of `n` words were being read where `available` bytes of it are
/// there: the chunk of 8192 words, or as many as are left, of which the first byte that is missing
/// is one.
pub open spec fn reads_next(span: Span, n: int, available: int) -> bool {
    &&& span.from % 8192 == 0
    &&& 8 * span.from <= available < 8 * span.to
    &&& span.to == n && n - span.from <= 8192 || span.to == span.from + 8192 && span.to <= n
}

proof fn lemma_reads_next(array: Array, n: int, available: int)
    requires
        0 <= available < 8 * n,
        n <= u32::MAX,
    ensures
        reads_next(layout::span_at(array, n, available), n, available),
        layout::span_at(array, n, available).array == array,
{
    let from = available / 65536 * 8192;
    assert(from % 8192 == 0);
    assert(8 * from <= available < 8 * (from + 8192));
}

/// What becomes of bytes that are read as a map, and how many of them are read. What is wrong is
/// reported in the order in which the bytes come: the magic bytes, bytes that break off, and the
/// checksum. Whatever is not wrong in these ways is read.
pub proof fn lemma_reading_a_map(s: Seq<u8>)
    ensures
        ({
            let r = MapModel::decoded(s);
            let read = Kind::Plain.consumed(s);
            let n = four_bytes(s, 24);
            let end = 28 + 8 * n;
            if s.len() < 8 {
                r == Err::<MapModel, FormatError>(FormatError::UnexpectedEof(None)) && read
                    == s.len()
            } else if s.take(8) == verified_magic() {
                r == Err::<MapModel, FormatError>(FormatError::Foreign(Kind::Verified)) && read
                    == 8
            } else if s.take(8) != plain_magic() {
                r == Err::<MapModel, FormatError>(FormatError::BadMagic) && read == 8
            } else if s.len() < 28 {
                r == Err::<MapModel, FormatError>(FormatError::UnexpectedEof(None)) && read
                    == s.len()
            } else if s.len() < end {
                &&& r matches Err(FormatError::UnexpectedEof(Some(span)))
                &&& span.array == Array::Data
                &&& reads_next(span, n, s.len() - 28)
                &&& read == s.len()
            } else if s.len() < end + 8 {
                r == Err::<MapModel, FormatError>(FormatError::UnexpectedEof(None)) && read
                    == s.len()
            } else if eight_bytes(s, end) != checksum::fnv(s.take(end)) {
                &&& r matches Err(FormatError::ChecksumMismatch { got, expected })
                &&& got == eight_bytes(s, end)
                &&& expected == checksum::fnv(s.take(end))
                &&& read == end + 8
            } else {
                &&& r matches Ok(m)
                &&& m.seed == eight_bytes(s, 8)
                &&& m.geometry.segment_length == four_bytes(s, 16)
                &&& m.geometry.segment_count == four_bytes(s, 20)
                &&& (m.geometry.segment_length_mask + 1) % 0x1_0000_0000 == four_bytes(s, 16)
                &&& m.geometry.segment_count_length == (four_bytes(s, 16) * four_bytes(s, 20))
                    % 0x1_0000_0000
                &&& m.data.len() == n
                &&& forall|i: int|
                    0 <= i < n ==> #[trigger] m.data[i] == eight_bytes(s, 28 + 8 * i)
                &&& read == end + 8
            }
        }),
{
    reveal(Kind::decoded);
    reveal(Kind::consumed);
    lemma_magic_bytes();
    let n = layout::half_at(s, 24) as int;
    let end = 28 + 8 * n;
    if s.len() >= 28 {
        lemma_numbers_of_bytes(s, 8);
        lemma_numbers_of_bytes(s, 16);
        lemma_numbers_of_bytes(s, 20);
        lemma_numbers_of_bytes(s, 24);
        crate::cell_laws::lemma_geometry_of_segments(
            layout::half_at(s, 16),
            layout::half_at(s, 20),
        );
        if s.len() < end {
            lemma_reads_next(Array::Data, n, s.len() - 28);
        } else if s.len() >= end + 8 {
            lemma_numbers_of_bytes(s, end);
            lemma_read_words(s, 28, n);
        }
    }
}

/// What becomes of bytes that are read as a verified map, and how many of them are read. The four
/// bytes in front of the data words are skipped.
pub proof fn lemma_reading_a_verified_map(s: Seq<u8>)
    ensures
        ({
            let r = VerifiedModel::decoded(s);
            let read = Kind::Verified.consumed(s);
            let n = four_bytes(s, 24);
            let end = 32 + 16 * n;
            if s.len() < 8 {
                r == Err::<VerifiedModel, FormatError>(FormatError::UnexpectedEof(None)) && read
                    == s.len()
            } else if s.take(8) == plain_magic() {
                r == Err::<VerifiedModel, FormatError>(FormatError::Foreign(Kind::Plain)) && read
                    == 8
            } else if s.take(8) != verified_magic() {
                r == Err::<VerifiedModel, FormatError>(FormatError::BadMagic) && read == 8
            } else if s.len() < 32 {
                r == Err::<VerifiedModel, FormatError>(FormatError::UnexpectedEof(None)) && read
                    == s.len()
            } else if s.len() < 32 + 8 * n {
                &&& r matches Err(FormatError::UnexpectedEof(Some(span)))
                &&& span.array == Array::Data
                &&& reads_next(span, n, s.len() - 32)
                &&& read == s.len()
            } else if s.len() < end {
                &&& r matches Err(FormatError::UnexpectedEof(Some(span)))
                &&& span.array == Array::Checks
                &&& reads_next(span, n, s.len() - 32 - 8 * n)
                &&& read == s.len()
            } else if s.len() < end + 8 {
                r == Err::<VerifiedModel, FormatError>(FormatError::UnexpectedEof(None)) && read
                    == s.len()
            } else if eight_bytes(s, end) != checksum::fnv(s.take(end)) {
                &&& r matches Err(FormatError::ChecksumMismatch { got, expected })
                &&& got == eight_bytes(s, end)
                &&& expected == checksum::fnv(s.take(end))
                &&& read == end + 8
            } else {
                &&& r matches Ok(m)
                &&& m.seed == eight_bytes(s, 8)
                &&& m.geometry.segment_length == four_bytes(s, 16)
                &&& m.geometry.segment_count == four_bytes(s, 20)
                &&& (m.geometry.segment_length_mask + 1) % 0x1_0000_0000 == four_bytes(s, 16)
                &&& m.geometry.segment_count_length == (four_bytes(s, 16) * four_bytes(s, 20))
                    % 0x1_0000_0000
                &&& m.data.len() == n
                &&& m.checks.len() == n
                &&& forall|i: int|
                    0 <= i < n ==> #[trigger] m.data[i] == eight_bytes(s, 32 + 8 * i)
                &&& forall|i: int|
                    0 <= i < n ==> #[trigger] m.checks[i] == eight_bytes(s, 32 + 8 * n + 8 * i)
                &&& read == end + 8
            }
        }),
{
    reveal(Kind::decoded);
    reveal(Kind::consumed);
    lemma_magic_bytes();
    let n = layout::half_at(s, 24) as int;
    let end = 32 + 16 * n;
    if s.len() >= 32 {
        lemma_numbers_of_bytes(s, 8);
        lemma_numbers_of_bytes(s, 16);
        lemma_numbers_of_bytes(s, 20);
        lemma_numbers_of_bytes(s, 24);
        crate::cell_laws::lemma_geometry_of_segments(
            layout::half_at(s, 16),
            layout::half_at(s, 20),
        );
        if s.len() < 32 + 8 * n {
            lemma_reads_next(Array::Data, n, s.len() - 32);
        } else if s.len() < end {
            lemma_reads_next(Array::Checks, n, s.len() - 32 - 8 * n);
        } else if s.len() >= end + 8 {
            lemma_numbers_of_bytes(s, end);
            lemma_read_words(s, 32, n);
            lemma_read_words(s, 32 + 8 * n, n);
        }
    }
}

/// How many bytes stand for a map, but for the eight of the checksum.
pub proof fn lemma_sizes_of_formats(n: int)
    ensures
        Kind::Plain.header_size() == 28,
        Kind::Verified.header_size() == 32,
        Kind::Plain.body_size(n) == 28 + 8 * n,
        Kind::Verified.body_size(n) == 32 + 16 * n,
        Kind::Plain.check_count(n) == 0,
        Kind::Verified.check_count(n) == n,
{
}

} // verus!

//! What errors and maps read as.

use vstd::prelude::*;

use crate::construction::BuildError;
use crate::layout::{Array, FormatError, Kind, Span};
use crate::serialize::LengthMismatch;
#[allow(unused_imports)]
use crate::text;

verus! {

/// Why no map was built, in words.
pub proof fn lemma_build_errors_in_words()
    ensures
        BuildError::LengthMismatch.text() == "constmap: keys and values must have equal length"@,
        BuildError::DuplicateKey.text() == "constmap: duplicate key hash detected"@,
        BuildError::Exhausted.text()
            == "constmap: failed to construct map, possible duplicate keys"@,
{
}

/// Why bytes were not read as a map, in words: bytes that break off in the words of an array are
/// told with these, and a wrong checksum with the right one, both in hexadecimal.
pub proof fn lemma_format_errors_in_words(span: Span, got: u64, expected: u64)
    ensures
        FormatError::UnexpectedEof(None).text() == "failed to fill whole buffer"@,
        FormatError::UnexpectedEof(Some(span)).text() == span.text()
            + "failed to fill whole buffer"@,
        FormatError::BadMagic.text() == "constmap: invalid magic bytes"@,
        FormatError::Foreign(Kind::Verified).text()
            == "constmap: this is a VerifiedConstMap file, use VerifiedConstMap::load_from_file"@,
        FormatError::Foreign(Kind::Plain).text()
            == "constmap: this is a ConstMap file, use ConstMap::load_from_file"@,
        (FormatError::ChecksumMismatch { got, expected }).text()
            == "constmap: checksum mismatch (got "@ + text::hexadecimal(got as nat, 16)
            + ", expected "@ + text::hexadecimal(expected as nat, 16) + ")"@,
{
}

/// The words of an array that were being read, in words.
pub proof fn lemma_spans_in_words(from: usize, to: usize)
    ensures
        (Span { array: Array::Data, from, to }).text() == "constmap: reading "@ + "data"@ + "["@
            + text::decimal(from as nat) + ":"@ + text::decimal(to as nat) + "]: "@,
        (Span { array: Array::Checks, from, to }).text() == "constmap: reading "@ + "checks"@
            + "["@ + text::decimal(from as nat) + ":"@ + text::decimal(to as nat) + "]: "@,
{
}

/// Arrays of different lengths, in words.
pub proof fn lemma_lengths_in_words(data: usize, checks: usize)
    ensures
        (LengthMismatch { data, checks }).text() == "constmap: "@ + text::decimal(data as nat)
            + " data words but "@ + text::decimal(checks as nat) + " check words"@,
{
}

/// A map in a line: its name, its seed, its segments and the number of its data words, in decimal.
pub proof fn lemma_maps_in_words(name: Seq<char>, seed: u64, length: u32, count: u32, words: nat)
    ensures
        text::summary(name, seed, length, count, words) == name + " { seed: "@ + text::decimal(
            seed as nat,
        ) + ", segment_length: "@ + text::decimal(length as nat) + ", segment_count: "@
            + text::decimal(count as nat) + ", data_len: "@ + text::decimal(words) + " }"@,
{
}

} // verus!

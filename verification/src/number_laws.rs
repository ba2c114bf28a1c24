//! What holds of numbers as bytes and as text, and of the checksum.

use vstd::prelude::*;
#[allow(unused_imports)]
use vstd::arithmetic::div_mod::*;
#[allow(unused_imports)]
use vstd::arithmetic::mul::*;
#[allow(unused_imports)]
use vstd::arithmetic::power::*;

#[allow(unused_imports)]
use crate::{checksum, layout, little_endian, natural, text};

verus! {

/// Digit number `i`, the least significant being number 0, of `x` to the base `base`.
pub open spec fn digit(x: int, base: int, i: int) -> int {
    (x / pow(base, i as nat)) % base
}

proof fn lemma_digit_zero(x: int, base: int)
    requires
        x >= 0,
        base > 1,
    ensures
        digit(x, base, 0) == x % base,
{
    lemma_pow0(base);
    assert(x / 1 == x);
}

/// The digits of a number but the last are those of the number without it.
proof fn lemma_digit_shift(x: int, base: int, i: int)
    requires
        x >= 0,
        base > 1,
        i >= 1,
    ensures
        digit(x, base, i) == digit(x / base, base, i - 1),
{
    let p = pow(base, (i - 1) as nat);
    reveal(pow);
    lemma_pow_positive(base, (i - 1) as nat);
    lemma_div_denominator(x, base, p);
}

/// Byte number `i` of a number is its digit number `i` to the base 256.
pub proof fn lemma_byte_is_digit(x: nat, len: nat, i: int)
    requires
        0 <= i < len,
    ensures
        little_endian::le_bytes(x, len).len() == len,
        little_endian::le_bytes(x, len)[i] == (x as int / pow(256, i as nat)) % 256,
    decreases len,
{
    little_endian::lemma_le_bytes_len(x, len);
    if i == 0 {
        lemma_digit_zero(x as int, 256);
    } else {
        lemma_digit_shift(x as int, 256, i);
        lemma_byte_is_digit(x / 256, (len - 1) as nat, i - 1);
    }
}

/// The digits, to the base 256, of the number of which `bytes` are the bytes are these, and it has
/// no others.
pub proof fn lemma_digit_is_byte(bytes: Seq<u8>, i: int)
    requires
        0 <= i < bytes.len(),
    ensures
        (little_endian::le_value(bytes) as int / pow(256, i as nat)) % 256 == bytes[i],
        little_endian::le_value(bytes) < pow(256, bytes.len()),
    decreases bytes.len(),
{
    let x = little_endian::le_value(bytes) as int;
    let rest = little_endian::le_value(bytes.skip(1)) as int;
    little_endian::lemma_le_value_bounded(bytes);
    assert(x == 256 * rest + bytes[0]);
    assert(x / 256 == rest && x % 256 == bytes[0]);
    if i == 0 {
        lemma_digit_zero(x, 256);
    } else {
        lemma_digit_shift(x, 256, i);
        lemma_digit_is_byte(bytes.skip(1), i - 1);
    }
}

/// What four bytes and eight bytes are worth: each is worth 256 times what the one before it is.
pub proof fn lemma_worth_of_bytes(half: Seq<u8>, word: Seq<u8>)
    requires
        half.len() == 4,
        word.len() == 8,
    ensures
        little_endian::le_value(half) == half[0] + 0x100 * half[1] + 0x1_0000 * half[2]
            + 0x100_0000 * half[3],
        little_endian::le_value(word) == word[0] + 0x100 * word[1] + 0x1_0000 * word[2]
            + 0x100_0000 * word[3] + 0x1_0000_0000 * word[4] + 0x100_0000_0000 * word[5]
            + 0x1_0000_0000_0000 * word[6] + 0x100_0000_0000_0000 * word[7],
{
    reveal_with_fuel(little_endian::le_value, 9);
}

/// Byte number `j` of word number `i` stands behind eight bytes for each word before it, and is
/// digit number `j` of the word to the base 256.
pub proof fn lemma_byte_of_word(words: Seq<u64>, i: int, j: int)
    requires
        0 <= i < words.len(),
        0 <= j < 8,
    ensures
        little_endian::words_bytes(words).len() == 8 * words.len(),
        little_endian::words_bytes(words)[8 * i + j] == (words[i] as int / pow(256, j as nat))
            % 256,
{
    little_endian::lemma_words_bytes_at(words, i);
    lemma_byte_is_digit(words[i] as nat, 8, j);
    let own = little_endian::words_bytes(words).subrange(8 * i, 8 * i + 8);
    assert(own[j] == little_endian::words_bytes(words)[8 * i + j]);
}

/// Words are read of eight bytes each, which are their digits to the base 256.
pub proof fn lemma_word_of_bytes(bytes: Seq<u8>, i: int, j: int)
    requires
        0 <= i,
        8 * i + 8 <= bytes.len(),
        0 <= j < 8,
    ensures
        little_endian::words_value(bytes).len() == bytes.len() / 8,
        (little_endian::words_value(bytes)[i] as int / pow(256, j as nat)) % 256 == bytes[8 * i
            + j],
{
    let own = bytes.subrange(8 * i, 8 * i + 8);
    little_endian::lemma_le_sizes();
    lemma_digit_is_byte(own, j);
}

/// The digits, to the base 256, of the words that are read out of bytes.
pub proof fn lemma_field_of_bytes(s: Seq<u8>, at: int)
    requires
        0 <= at,
    ensures
        at + 8 <= s.len() ==> forall|j: int|
            0 <= j < 8 ==> (layout::word_at(s, at) as int / pow(256, j as nat)) % 256
                == #[trigger] s[at + j],
        at + 4 <= s.len() ==> forall|j: int|
            0 <= j < 4 ==> (layout::half_at(s, at) as int / pow(256, j as nat)) % 256
                == #[trigger] s[at + j],
{
    little_endian::lemma_le_sizes();
    if at + 8 <= s.len() {
        let own = s.subrange(at, at + 8);
        assert forall|j: int| 0 <= j < 8 implies (layout::word_at(s, at) as int / pow(
            256,
            j as nat,
        )) % 256 == #[trigger] s[at + j] by {
            lemma_digit_is_byte(own, j);
        }
    }
    if at + 4 <= s.len() {
        let own = s.subrange(at, at + 4);
        assert forall|j: int| 0 <= j < 4 implies (layout::half_at(s, at) as int / pow(
            256,
            j as nat,
        )) % 256 == #[trigger] s[at + j] by {
            lemma_digit_is_byte(own, j);
        }
    }
}

/// The checksum of no bytes, and how it goes on with every byte: the byte is folded into it, and
/// it is multiplied, modulo 2^64.
pub proof fn lemma_checksum_goes_on(state: u64, bytes: Seq<u8>, byte: u8)
    ensures
        checksum::fnv(Seq::empty()) == 14695981039346656037,
        checksum::fnv(bytes.push(byte)) == ((checksum::fnv(bytes) ^ byte as u64) * 1099511628211)
            % 0x1_0000_0000_0000_0000,
        checksum::fnv_on(state, Seq::empty()) == state,
        checksum::fnv_on(state, bytes.push(byte)) == ((checksum::fnv_on(state, bytes)
            ^ byte as u64) * 1099511628211) % 0x1_0000_0000_0000_0000,
        checksum::fnv(bytes) == checksum::fnv_on(14695981039346656037, bytes),
{
    assert(bytes.push(byte).drop_last() =~= bytes);
}

/// The character that stands for a digit: a figure, or from ten on a small letter.
proof fn lemma_character(d: int)
    requires
        0 <= d < 16,
    ensures
        text::digits()[d] as int == if d < 10 {
            '0' as int + d
        } else {
            'a' as int + (d - 10)
        },
{
    let c = text::digits()[d];
    if d < 8 {
        if d < 4 {
            assert(d == 0 || d == 1 || d == 2 || d == 3);
        } else {
            assert(d == 4 || d == 5 || d == 6 || d == 7);
        }
    } else if d < 12 {
        assert(d == 8 || d == 9 || d == 10 || d == 11);
    } else {
        assert(d == 12 || d == 13 || d == 14 || d == 15);
    }
}

/// A number in decimal has as many figures as it has digits, one at least, and they are its
/// digits to the base 10, the last being number 0.
pub proof fn lemma_decimal_digits(n: nat)
    ensures
        text::decimal(n).len() >= 1,
        n < pow(10, text::decimal(n).len()),
        n >= 10 ==> n >= pow(10, (text::decimal(n).len() - 1) as nat),
        n < 10 ==> text::decimal(n).len() == 1,
        forall|i: int|
            0 <= i < text::decimal(n).len() ==> #[trigger] text::decimal(n)[text::decimal(n).len()
                - 1 - i] as int == '0' as int + (n as int / pow(10, i as nat)) % 10,
    decreases n,
{
    let s = text::decimal(n);
    lemma_digit_zero(n as int, 10);
    reveal(pow);
    lemma_character((n % 10) as int);
    if n < 10 {
        lemma_pow1(10);
        lemma_character(n as int);
    } else {
        let front = text::decimal(n / 10);
        lemma_decimal_digits(n / 10);
        lemma_pow0(10);
        assert(s.drop_last() =~= front);
        assert forall|i: int| 0 <= i < s.len() implies #[trigger] s[s.len() - 1 - i] as int
            == '0' as int + (n as int / pow(10, i as nat)) % 10 by {
            if i > 0 {
                lemma_digit_shift(n as int, 10, i);
                assert(front[front.len() - 1 - (i - 1)] as int == '0' as int + (n as int / 10 / pow(
                    10,
                    (i - 1) as nat,
                )) % 10);
            }
        }
    }
}

/// A number in hexadecimal has as many characters as asked for, and they are its digits to the
/// base 16, the last being number 0.
pub proof fn lemma_hexadecimal_digits(n: nat, width: nat)
    ensures
        text::hexadecimal(n, width).len() == width,
        forall|i: int|
            0 <= i < width ==> #[trigger] text::hexadecimal(n, width)[width - 1 - i] as int == ({
                let d = (n as int / pow(16, i as nat)) % 16;
                if d < 10 {
                    '0' as int + d
                } else {
                    'a' as int + (d - 10)
                }
            }),
    decreases width,
{
    if width > 0 {
        let s = text::hexadecimal(n, width);
        let front = text::hexadecimal(n / 16, (width - 1) as nat);
        lemma_hexadecimal_digits(n / 16, (width - 1) as nat);
        lemma_digit_zero(n as int, 16);
        lemma_character((n % 16) as int);
        assert forall|i: int| 0 <= i < width implies #[trigger] s[width - 1 - i] as int == ({
            let d = (n as int / pow(16, i as nat)) % 16;
            if d < 10 {
                '0' as int + d
            } else {
                'a' as int + (d - 10)
            }
        }) by {
            if i > 0 {
                lemma_digit_shift(n as int, 16, i);
                assert(s[width - 1 - i] == front[(width - 1) - 1 - (i - 1)]);
            }
        }
    }
}

/// A further digit of a natural number of any size is worth 2^32 times what the one before it is.
pub proof fn lemma_digits_of_natural(limbs: Seq<u32>, limb: u32)
    ensures
        natural::value(Seq::empty()) == 0,
        natural::value(limbs.push(limb)) == natural::value(limbs) + limb * pow(
            0x1_0000_0000,
            limbs.len(),
        ),
{
    assert(limbs.push(limb).drop_last() =~= limbs);
}

} // verus!

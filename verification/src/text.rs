//! Numbers and maps as text.

use vstd::prelude::*;
use vstd::string::StringExecFns;

verus! {

/// The digits, in decimal up to the tenth.
pub open spec fn digits() -> Seq<char> {
    seq!['0', '1', '2', '3', '4', '5', '6', '7', '8', '9', 'a', 'b', 'c', 'd', 'e', 'f']
}

/// A number in decimal.
pub open spec fn decimal(n: nat) -> Seq<char>
    decreases n,
{
    if n < 10 {
        seq![digits()[n as int]]
    } else {
        decimal(n / 10).push(digits()[(n % 10) as int])
    }
}

/// A number in hexadecimal, `width` digits of it.
pub open spec fn hexadecimal(n: nat, width: nat) -> Seq<char>
    decreases width,
{
    if width == 0 {
        Seq::empty()
    } else {
        hexadecimal(n / 16, (width - 1) as nat).push(digits()[(n % 16) as int])
    }
}

/// A map in a line: its name, and what tells it apart short of its words.
pub open spec fn summary(
    name: Seq<char>,
    seed: u64,
    segment_length: u32,
    segment_count: u32,
    data_len: nat,
) -> Seq<char> {
    name + " { seed: "@ + decimal(seed as nat) + ", segment_length: "@ + decimal(
        segment_length as nat,
    ) + ", segment_count: "@ + decimal(segment_count as nat) + ", data_len: "@ + decimal(data_len)
        + " }"@
}

/// Appends a digit.
fn push_digit(out: &mut String, digit: u64)
    requires
        digit < 16,
    ensures
        final(out)@ == old(out)@.push(digits()[digit as int]),
{
    let text: &str = match digit {
        0 => "0",
        1 => "1",
        2 => "2",
        3 => "3",
        4 => "4",
        5 => "5",
        6 => "6",
        7 => "7",
        8 => "8",
        9 => "9",
        10 => "a",
        11 => "b",
        12 => "c",
        13 => "d",
        14 => "e",
        _ => "f",
    };
    proof {
        reveal_strlit("0");
        reveal_strlit("1");
        reveal_strlit("2");
        reveal_strlit("3");
        reveal_strlit("4");
        reveal_strlit("5");
        reveal_strlit("6");
        reveal_strlit("7");
        reveal_strlit("8");
        reveal_strlit("9");
        reveal_strlit("a");
        reveal_strlit("b");
        reveal_strlit("c");
        reveal_strlit("d");
        reveal_strlit("e");
        reveal_strlit("f");
        assert(text@ =~= seq![digits()[digit as int]]);
    }
    out.append(text);
}

/// Appends a number in decimal.
pub fn push_decimal(out: &mut String, n: u64)
    ensures
        final(out)@ == old(out)@ + decimal(n as nat),
    decreases n,
{
    if n >= 10 {
        push_decimal(out, n / 10);
    }
    push_digit(out, n % 10);
}

/// Appends a number in hexadecimal, `width` digits of it.
pub fn push_hexadecimal(out: &mut String, n: u64, width: usize)
    ensures
        final(out)@ == old(out)@ + hexadecimal(n as nat, width as nat),
    decreases width,
{
    if width > 0 {
        push_hexadecimal(out, n / 16, width - 1);
        push_digit(out, n % 16);
    }
}

/// A map in a line.
pub fn summarize(
    name: &str,
    seed: u64,
    segment_length: u32,
    segment_count: u32,
    data_len: usize,
) -> (r: String)
    ensures
        r@ == summary(name@, seed, segment_length, segment_count, data_len as nat),
{
    let mut r: String = name.to_owned();
    r.append(" { seed: ");
    push_decimal(&mut r, seed);
    r.append(", segment_length: ");
    push_decimal(&mut r, segment_length as u64);
    r.append(", segment_count: ");
    push_decimal(&mut r, segment_count as u64);
    r.append(", data_len: ");
    push_decimal(&mut r, data_len as u64);
    r.append(" }");
    r
}

} // verus!

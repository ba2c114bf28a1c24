//! Numbers as bytes, the least significant first.

use vstd::prelude::*;
#[allow(unused_imports)]
use vstd::arithmetic::power::*;

verus! {

/// The `len` least significant bytes of `x`.
pub open spec fn le_bytes(x: nat, len: nat) -> Seq<u8>
    decreases len,
{
    if len == 0 {
        Seq::empty()
    } else {
        seq![(x % 256) as u8] + le_bytes(x / 256, (len - 1) as nat)
    }
}

/// The number of which `bytes` are the bytes.
pub open spec fn le_value(bytes: Seq<u8>) -> nat
    decreases bytes.len(),
{
    if bytes.len() == 0 {
        0
    } else {
        bytes[0] as nat + 256 * le_value(bytes.skip(1))
    }
}

/// The bytes of words, eight for each.
pub open spec fn words_bytes(words: Seq<u64>) -> Seq<u8>
    decreases words.len(),
{
    if words.len() == 0 {
        Seq::empty()
    } else {
        words_bytes(words.drop_last()) + le_bytes(words.last() as nat, 8)
    }
}

/// The words of which `bytes` are the bytes.
pub open spec fn words_value(bytes: Seq<u8>) -> Seq<u64> {
    Seq::new(bytes.len() / 8, |i: int| le_value(bytes.subrange(8 * i, 8 * i + 8)) as u64)
}

/// There are as many bytes as asked for.
pub proof fn lemma_le_bytes_len(x: nat, len: nat)
    ensures
        le_bytes(x, len).len() == len,
    decreases len,
{
    if len > 0 {
        lemma_le_bytes_len(x / 256, (len - 1) as nat);
    }
}

/// All bytes of zero are zero.
pub proof fn lemma_le_zero(len: nat)
    ensures
        le_bytes(0, len).len() == len,
        forall|i: int| 0 <= i < len ==> #[trigger] le_bytes(0, len)[i] == 0,
    decreases len,
{
    if len > 0 {
        lemma_le_zero((len - 1) as nat);
    }
}

/// A number that fits is found again in its bytes.
pub proof fn lemma_le_round_trip(x: nat, len: nat)
    requires
        x < pow(256, len),
    ensures
        le_value(le_bytes(x, len)) == x,
        le_bytes(x, len).len() == len,
    decreases len,
{
    reveal(pow);
    lemma_le_bytes_len(x, len);
    if len > 0 {
        let rest = le_bytes(x / 256, (len - 1) as nat);
        assert(x / 256 < pow(256, (len - 1) as nat)) by (nonlinear_arith)
            requires
                x < 256 * pow(256, (len - 1) as nat),
        ;
        lemma_le_round_trip(x / 256, (len - 1) as nat);
        assert(le_bytes(x, len).skip(1) =~= rest);
    }
}

/// The number of `len` bytes fits in them.
pub proof fn lemma_le_value_bounded(bytes: Seq<u8>)
    ensures
        le_value(bytes) < pow(256, bytes.len()),
    decreases bytes.len(),
{
    reveal(pow);
    if bytes.len() > 0 {
        lemma_le_value_bounded(bytes.skip(1));
    }
}

/// Bytes are found again in their number.
pub proof fn lemma_le_value_injective(a: Seq<u8>, b: Seq<u8>)
    requires
        a.len() == b.len(),
        le_value(a) == le_value(b),
    ensures
        a == b,
    decreases a.len(),
{
    if a.len() > 0 {
        lemma_le_value_injective(a.skip(1), b.skip(1));
        assert forall|i: int| 0 <= i < a.len() implies a[i] == b[i] by {
            if i > 0 {
                assert(a.skip(1)[i - 1] == b.skip(1)[i - 1]);
            }
        }
    }
    assert(a =~= b);
}

/// A greater byte makes a greater number.
pub proof fn lemma_le_value_increases(bytes: Seq<u8>, at: int, byte: u8)
    requires
        0 <= at < bytes.len(),
        bytes[at] < byte,
    ensures
        le_value(bytes) < le_value(bytes.update(at, byte)),
    decreases bytes.len(),
{
    if at == 0 {
        assert(bytes.update(at, byte).skip(1) =~= bytes.skip(1));
    } else {
        lemma_le_value_increases(bytes.skip(1), at - 1, byte);
        assert(bytes.update(at, byte).skip(1) =~= bytes.skip(1).update(at - 1, byte));
    }
}

/// Four bytes hold 32 bits, and eight hold 64.
pub proof fn lemma_le_sizes()
    ensures
        pow(256, 4) == 0x1_0000_0000,
        pow(256, 8) == 0x1_0000_0000_0000_0000,
{
    reveal_with_fuel(pow, 9);
}

/// Eight bytes for each word.
pub proof fn lemma_words_bytes_len(words: Seq<u64>)
    ensures
        words_bytes(words).len() == 8 * words.len(),
    decreases words.len(),
{
    if words.len() > 0 {
        lemma_words_bytes_len(words.drop_last());
        lemma_le_bytes_len(words.last() as nat, 8);
    }
}

/// The bytes of one word stand behind those of the words before.
pub proof fn lemma_words_bytes_at(words: Seq<u64>, i: int)
    requires
        0 <= i < words.len(),
    ensures
        words_bytes(words).len() == 8 * words.len(),
        words_bytes(words).subrange(8 * i, 8 * i + 8) == le_bytes(words[i] as nat, 8),
    decreases words.len(),
{
    lemma_words_bytes_len(words);
    lemma_words_bytes_len(words.drop_last());
    lemma_le_bytes_len(words.last() as nat, 8);
    if i < words.len() - 1 {
        lemma_words_bytes_at(words.drop_last(), i);
        assert(words_bytes(words).subrange(8 * i, 8 * i + 8) =~= words_bytes(
            words.drop_last(),
        ).subrange(8 * i, 8 * i + 8));
    } else {
        assert(words_bytes(words).subrange(8 * i, 8 * i + 8) =~= le_bytes(
            words.last() as nat,
            8,
        ));
    }
}

/// Words are found again in their bytes.
pub proof fn lemma_words_round_trip(words: Seq<u64>)
    ensures
        words_value(words_bytes(words)) == words,
        words_bytes(words).len() == 8 * words.len(),
{
    lemma_words_bytes_len(words);
    lemma_le_sizes();
    assert forall|i: int| 0 <= i < words.len() implies words_value(words_bytes(words))[i]
        == words[i] by {
        lemma_words_bytes_at(words, i);
        lemma_le_round_trip(words[i] as nat, 8);
    }
    assert(words_value(words_bytes(words)) =~= words);
}

/// The bytes of words are those of the first and those of the others.
pub proof fn lemma_words_bytes_concat(a: Seq<u64>, b: Seq<u64>)
    ensures
        words_bytes(a + b) == words_bytes(a) + words_bytes(b),
    decreases b.len(),
{
    if b.len() == 0 {
        assert(a + b =~= a);
        assert(words_bytes(a) + words_bytes(b) =~= words_bytes(a));
    } else {
        lemma_words_bytes_concat(a, b.drop_last());
        assert((a + b).drop_last() =~= a + b.drop_last());
        assert(words_bytes(a + b) =~= words_bytes(a) + words_bytes(b));
    }
}

/// The words of the bytes of one more word.
pub proof fn lemma_words_value_push(bytes: Seq<u8>, n: int)
    requires
        0 <= n,
        8 * n + 8 <= bytes.len(),
    ensures
        words_value(bytes.take(8 * n + 8)) == words_value(bytes.take(8 * n)).push(
            le_value(bytes.subrange(8 * n, 8 * n + 8)) as u64,
        ),
{
    let (a, b) = (bytes.take(8 * n), bytes.take(8 * n + 8));
    assert forall|i: int| 0 <= i <= n implies #[trigger] b.subrange(8 * i, 8 * i + 8)
        == bytes.subrange(8 * i, 8 * i + 8) by {
        assert(b.subrange(8 * i, 8 * i + 8) =~= bytes.subrange(8 * i, 8 * i + 8));
    }
    assert forall|i: int| 0 <= i < n implies #[trigger] a.subrange(8 * i, 8 * i + 8)
        == bytes.subrange(8 * i, 8 * i + 8) by {
        assert(a.subrange(8 * i, 8 * i + 8) =~= bytes.subrange(8 * i, 8 * i + 8));
    }
    assert(words_value(b) =~= words_value(a).push(
        le_value(bytes.subrange(8 * n, 8 * n + 8)) as u64,
    ));
}

/// The words of the bytes of `n` words and of some more.
pub proof fn lemma_words_value_concat(a: Seq<u8>, b: Seq<u8>, n: int)
    requires
        a.len() == 8 * n,
    ensures
        words_value(a + b) == words_value(a) + words_value(b),
{
    let all = a + b;
    assert(all.len() / 8 == n + b.len() / 8);
    assert forall|i: int| 0 <= i < n + b.len() / 8 implies #[trigger] words_value(all)[i] == (
    words_value(a) + words_value(b))[i] by {
        if i < n {
            assert(all.subrange(8 * i, 8 * i + 8) =~= a.subrange(8 * i, 8 * i + 8));
        } else {
            let j = i - n;
            assert(all.subrange(8 * i, 8 * i + 8) =~= b.subrange(8 * j, 8 * j + 8));
        }
    }
    assert(words_value(all) =~= words_value(a) + words_value(b));
}

/// Bytes are written again of the number that they are the bytes of.
pub proof fn lemma_le_reencoded(bytes: Seq<u8>)
    requires
        bytes.len() == 4 || bytes.len() == 8,
    ensures
        le_bytes(le_value(bytes), bytes.len()) == bytes,
        bytes.len() == 4 ==> le_value(bytes) <= u32::MAX,
        le_value(bytes) <= u64::MAX,
{
    lemma_le_sizes();
    lemma_le_value_bounded(bytes);
    lemma_le_round_trip(le_value(bytes), bytes.len());
    lemma_le_value_injective(le_bytes(le_value(bytes), bytes.len()), bytes);
}

/// Bytes are written again of the words that they are the bytes of.
pub proof fn lemma_words_reencoded(bytes: Seq<u8>)
    requires
        bytes.len() % 8 == 0,
    ensures
        words_bytes(words_value(bytes)) == bytes,
    decreases bytes.len(),
{
    if bytes.len() == 0 {
        assert(words_value(bytes) =~= Seq::empty());
        assert(bytes =~= Seq::empty());
    } else {
        let n = bytes.len() as int / 8 - 1;
        let (front, last) = (bytes.take(8 * n), bytes.subrange(8 * n, 8 * n + 8));
        lemma_words_reencoded(front);
        lemma_words_value_push(bytes, n);
        assert(bytes.take(8 * n + 8) =~= bytes);
        assert(words_value(bytes).drop_last() =~= words_value(front));
        lemma_le_reencoded(last);
        assert(front + last =~= bytes);
    }
}

/// Appends the `len` least significant bytes of `x`.
pub fn push_le(out: &mut Vec<u8>, x: u64, len: usize)
    ensures
        final(out)@ == old(out)@ + le_bytes(x as nat, len as nat),
{
    let mut rest: u64 = x;
    let mut left: usize = len;
    let ghost start = out@;
    while left > 0
        invariant
            left <= len,
            out@ + le_bytes(rest as nat, left as nat) =~= start + le_bytes(x as nat, len as nat),
        decreases left,
    {
        out.push((rest % 256) as u8);
        rest = rest / 256;
        left = left - 1;
    }
}

/// The number of which the bytes `bytes[from..from + len]` are the bytes.
pub fn read_le(bytes: &[u8], from: usize, len: usize) -> (r: u64)
    requires
        from + len <= bytes.len(),
        len <= 8,
    ensures
        r == le_value(bytes@.subrange(from as int, from + len)),
{
    let mut value: u64 = 0;
    let mut left: usize = len;
    let ghost all = bytes@.subrange(from as int, from + len);
    proof {
        assert(all.skip(len as int) =~= Seq::empty());
    }
    while left > 0
        invariant
            from + len <= bytes.len(),
            left <= len <= 8,
            all == bytes@.subrange(from as int, from + len),
            value == le_value(all.skip(left as int)),
        decreases left,
    {
        proof {
            let tail = all.skip(left - 1);
            assert(tail.skip(1) =~= all.skip(left as int));
            assert(tail[0] == bytes@[from + left - 1]);
            lemma_le_value_bounded(tail);
            lemma_le_sizes();
            if tail.len() < 8 {
                lemma_pow_increases(256, tail.len(), 8);
            }
        }
        left = left - 1;
        value = value * 256 + bytes[from + left] as u64;
    }
    proof {
        assert(all.skip(0) =~= all);
    }
    value
}

} // verus!

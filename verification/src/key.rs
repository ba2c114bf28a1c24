//! What can be looked up.

use vstd::prelude::*;
use xxhash_rust::xxh64::xxh64;

#[allow(unused_imports)]
use crate::hash;

verus! {

/// Text to look up in a map.
pub trait Key {
    /// The characters of the text.
    spec fn text(&self) -> Seq<char>;

    /// The text as a string slice.
    fn as_key(&self) -> (r: &str)
        ensures
            r@ == self.text(),
    ;
}

impl Key for str {
    open spec fn text(&self) -> Seq<char> {
        self@
    }

    fn as_key(&self) -> (r: &str) {
        self
    }
}

impl<'a, K: Key + ?Sized> Key for &'a K {
    open spec fn text(&self) -> Seq<char> {
        (**self).text()
    }

    fn as_key(&self) -> (r: &str) {
        (**self).as_key()
    }
}

impl Key for String {
    open spec fn text(&self) -> Seq<char> {
        self@
    }

    fn as_key(&self) -> (r: &str) {
        self.as_str()
    }
}

/// The hashes of texts, before any seed is mixed in.
pub open spec fn digests_of(texts: Seq<Seq<char>>) -> Seq<u64> {
    texts.map_values(|text: Seq<char>| hash::key_digest(text))
}

/// The characters of each of `keys`.
pub open spec fn texts_of<K: Key>(keys: Seq<K>) -> Seq<Seq<char>> {
    keys.map_values(|key: K| key.text())
}

/// The hash of `key`, before any seed is mixed in.
pub fn digest(key: &str) -> (r: u64)
    ensures
        r == hash::key_digest(key@),
        r == hash::xxh64_digest(vstd::utf8::encode_utf8(key@), 0),
{
    xxh64(key.as_bytes(), 0)
}

/// The hashes of `keys`, before any seed is mixed in.
pub fn digest_all(keys: &[&str]) -> (digests: Vec<u64>)
    ensures
        digests@ == digests_of(texts_of(keys@)),
        digests.len() == keys@.len(),
        forall|i: int|
            0 <= i < keys@.len() ==> #[trigger] digests@[i] == hash::xxh64_digest(
                vstd::utf8::encode_utf8(keys@[i]@),
                0,
            ),
{
    let mut digests: Vec<u64> = Vec::with_capacity(keys.len());
    let mut i: usize = 0;
    while i < keys.len()
        invariant
            i <= keys.len(),
            digests@ =~= digests_of(texts_of(keys@)).take(i as int),
        decreases keys.len() - i,
    {
        digests.push(digest(keys[i]));
        i = i + 1;
    }
    digests
}

} // verus!

# constmap

A static map from strings to `u64` values, built as a binary fuse filter and verified with Verus.

Given a set of (key, value) pairs, `constmap` builds a compact array such that for any key in the
set, `data[h0(key)] XOR data[h1(key)] XOR data[h2(key)] == value`. The map is immutable after
construction, and does not store the keys.

```rust
use constmap::{ConstMap, VerifiedConstMap, NOT_FOUND};

let keys = ["apple", "banana", "cherry"];
let values = [100u64, 200, 300];

let map = ConstMap::new(&keys, &values).unwrap();
assert_eq!(map.map("apple"), 100);
assert_eq!(map.map_many(&["banana", "cherry"]), vec![200, 300]);

let map = VerifiedConstMap::new(&keys, &values).unwrap();
assert_eq!(map.map("unknown"), NOT_FOUND);

let mut bytes = Vec::new();
map.write_to(&mut bytes).unwrap();
let map = VerifiedConstMap::read_from(&mut &bytes[..]).unwrap();
assert_eq!(map.map("cherry"), 300);
```

A `ConstMap` yields an undefined value for a key that was not in the set. A `VerifiedConstMap`
keeps a check word beside every data word, and yields `NOT_FOUND` for a key whose check word does
not match.

## What is proved

- A map that is built of keys and values yields the value of every key, and keys that are not all
  different are never built into a map (`const_map`, `verified_const_map`).
- Which map is built is a function of the keys and values, stated from the hashes up: the order
  in which the hashes are taken (`placement`), the cells that they share (`incidence`), the order
  in which they are peeled off (`peeling`), the words that fill the cells (`assignment`), and the
  seeds and geometries that are tried one after the other (`construction`).
- The number and the length of the segments are those of the formulas with logarithms, rounded as
  they say, without floating-point numbers (`sizing`, `logarithm`, `natural`).
- The order in which the pairs come does not matter, as long as no cell gets 64 keys or more
  (`laws`).
- Of maps of the same keys, the one whose values are the exclusive or of those of two others has
  the exclusive or of their data words, and a cell of no key holds zero (`laws`).
- A batched lookup finds what a lookup of each key finds.
- What `write_to` writes is a function of the map, and `read_from` reads it back. Bytes that break
  off and bytes of the other format are reported, and so is a changed byte, unless it makes the
  number of words smaller (`layout`, `serialize`, `laws`).
- The header is moved a field at a time and the arrays in chunks of 64 KiB (`calls`). Where a
  reader or a writer fails, its own error is handed on, and no call follows (`stream`).

One function is trusted: `xxh64` of the crate `xxhash-rust`, of which nothing is assumed but that
its result depends on its arguments alone.

## Layout

- `src/` is the verified library.
- `tests/` are its tests.
- `app/` connects the maps with std's readers, writers and files.

//! A static map from strings to `u64` values using binary fuse filter construction.
//!
//! Given a set of (key, value) pairs, it builds a compact array such that for any key
//! in the set, `data[h0(key)] XOR data[h1(key)] XOR data[h2(key)] == value`.
//!
//! Lookup takes one hash, three array accesses and two exclusive ors. The map is immutable after
//! construction.
//!
//! Two map types are provided: [`ConstMap`], which returns an undefined value for a key that was
//! not in the original set, and [`VerifiedConstMap`], which stores a fingerprint per key and
//! returns [`NOT_FOUND`] instead, for twice the memory.
//!
//! Both support batched lookups (`map_many` / `map_many_into`), which hash a block of keys before
//! they read any cell, and both serialize to a checksummed binary format (`write_to` /
//! `read_from`).
//!
//! What a map is, is stated by its model: [`const_map::MapModel`] and
//! [`verified_const_map::VerifiedModel`] say which map is built of given keys and values, what a
//! lookup finds in it, and which bytes stand for it. What holds of maps that are written and read
//! back is proved in [`laws`]. What the models are made of is tied to plain arithmetic on numbers,
//! bytes and hashes: the hash of a key ([`hash_laws`]), its cells ([`cell_laws`]), the size of a map
//! ([`size_laws`]), when and how it is built ([`peel_laws`], [`build_laws`]), what a lookup finds
//! ([`lookup_laws`]), and the bytes and the calls that move them ([`number_laws`],
//! [`format_laws`], [`stream_laws`]).

pub mod assignment;
pub mod batch;
pub mod build_laws;
pub mod calls;
pub mod cell_laws;
pub mod checksum;
pub mod const_map;
pub mod construction;
pub mod format_laws;
pub mod geometry;
pub mod hash;
pub mod hash_laws;
pub mod incidence;
pub mod key;
pub mod laws;
pub mod layout;
pub mod little_endian;
pub mod logarithm;
pub mod lookup_laws;
pub mod message_laws;
pub mod natural;
pub mod number_laws;
pub mod peel_laws;
pub mod peeling;
pub mod permutation;
pub mod placement;
pub mod serialize;
pub mod size_laws;
pub mod sizing;
pub mod stream;
pub mod stream_laws;
pub mod text;
pub mod verified_const_map;

pub use const_map::ConstMap;
pub use verified_const_map::{VerifiedConstMap, NOT_FOUND};

use constmap::checksum::Fnv64a;
use constmap::geometry::Geometry;
use constmap::hash::{fingerprint, mixsplit, murmur64, splitmix64};
use constmap::key::digest;
use constmap::little_endian::{push_le, read_le};
use constmap::logarithm::{log, power_at_most};
use constmap::natural::{at_most, power, times};
use constmap::sizing::calculate_segment_length;
use constmap::text::{push_decimal, push_hexadecimal};

#[test]
fn hashes_of_keys() {
    assert_eq!(digest(""), 0xef46db3751d8e999);
    assert_eq!(digest("apple"), 0x5889a1c15c94729f);
    assert_eq!(digest("key-0"), 0x12daf06715ffa373);
    assert_eq!(
        digest("clé à molette, eine längere Zeichenkette über 32 Bytes"),
        0xbf778481511de565
    );
}

#[test]
fn mixing() {
    assert_eq!(murmur64(0), 0);
    assert_eq!(murmur64(1), 0xb456bcfc34c2cb2c);
    assert_eq!(mixsplit(1, 2), 0x0b5181c509f8d8ce);
    assert_eq!(mixsplit(u64::MAX, 2), murmur64(1));
    assert_eq!(fingerprint(0x1234567800000001), 0x1234567812345679);
    let mut state = 1u64;
    assert_eq!(splitmix64(&mut state), 0x910a2dec89025cc1);
    assert_eq!(state, 0x9e3779b97f4a7c16);
    assert_eq!(splitmix64(&mut state), 0xbeeb8da1658eec67);
}

/// Different digests keep different hashes under every seed.
#[test]
fn mixing_keeps_digests_apart() {
    let mut seen: Vec<u64> = (0..1000).map(|i| mixsplit(i, 12345)).collect();
    seen.sort();
    seen.dedup();
    assert_eq!(seen.len(), 1000);
}

#[test]
fn checksums() {
    let of = |bytes: &[u8]| {
        let mut h = Fnv64a::new();
        h.write(bytes);
        h.finish()
    };
    assert_eq!(of(b""), 0xcbf29ce484222325);
    assert_eq!(of(b"a"), 0xaf63dc4c8601ec8c);
    assert_eq!(of(b"foobar"), 0x85944171f73967e8);
    let mut h = Fnv64a::new();
    h.write(b"foo");
    h.write(b"bar");
    assert_eq!(h.finish(), of(b"foobar"));
}

#[test]
fn little_endian_numbers() {
    let mut out = vec![9u8];
    push_le(&mut out, 0x0102030405060708, 8);
    push_le(&mut out, 0x1_0000_00ff, 4);
    assert_eq!(out, [9, 8, 7, 6, 5, 4, 3, 2, 1, 255, 0, 0, 0]);
    assert_eq!(read_le(&out, 1, 8), 0x0102030405060708);
    assert_eq!(read_le(&out, 9, 4), 255);
    assert_eq!(read_le(&out, 3, 0), 0);
}

#[test]
fn numbers_in_text() {
    for n in [0u64, 7, 10, 99, 100, 8192, 1234567890, u64::MAX] {
        let mut s = "=".to_string();
        push_decimal(&mut s, n);
        assert_eq!(s, format!("={}", n));
        let mut s = "=".to_string();
        push_hexadecimal(&mut s, n, 16);
        assert_eq!(s, format!("={:016x}", n));
    }
}

fn formula_segment_length(size: u32) -> u32 {
    if size == 0 {
        return 4;
    }
    1u32 << ((size as f64).ln() / (3.33_f64).ln() + 2.25).floor() as u32
}

/// The length and the number of the segments that the formula of the size gives.
fn formula_segments(size: u32) -> (u32, u32) {
    let segment_length = formula_segment_length(size).min(262144);
    let capacity = if size > 1 {
        let factor = f64::max(
            1.125,
            0.875 + 0.25 * (1_000_000_f64).ln() / (size as f64).ln(),
        );
        (size as f64 * factor).round() as u32
    } else {
        0
    };
    let total = ((capacity + segment_length - 1) / segment_length).max(3);
    (segment_length, total)
}

#[test]
fn sizes_below_a_million_follow_the_formula() {
    assert_eq!(calculate_segment_length(0), 4);
    let g = Geometry::initialize_parameters(0);
    assert_eq!((g.segment_length, g.segment_count, g.cells()), (4, 1, 12));
    for size in 1..=1_000_100u32 {
        assert_eq!(calculate_segment_length(size), formula_segment_length(size));
        let (length, total) = formula_segments(size);
        let g = Geometry::initialize_parameters(size);
        assert_eq!(g.segment_length, length, "size={}", size);
        assert_eq!(g.segment_count + 2, total, "size={}", size);
        assert_eq!(g.segment_length_mask, length - 1);
        assert_eq!(g.segment_count_length, (total - 2) * length);
        assert_eq!(g.cells(), (total * length) as usize);
    }
}

#[test]
fn larger_sizes_follow_the_formula() {
    let mut size = 1_000_000u32;
    while size < 3_800_000_000 {
        for s in [size - 1, size, size + 1] {
            assert_eq!(calculate_segment_length(s), formula_segment_length(s));
            let (length, total) = formula_segments(s);
            let g = Geometry::initialize_parameters(s);
            assert_eq!(g.segment_length, length, "size={}", s);
            assert_eq!(g.segment_count + 2, total, "size={}", s);
        }
        size += size / 50 + 12345;
    }
    let g = Geometry::initialize_parameters(3817515690);
    let (length, total) = formula_segments(3817515690);
    assert_eq!((g.segment_length, g.segment_count + 2), (length, total));
}

#[test]
fn cells_of_hashes() {
    let g = Geometry::initialize_parameters(200);
    assert_eq!((g.segment_length, g.segment_count), (64, 3));
    assert_eq!(g.get_hash_from_hash(0), (0, 64, 128));
    assert_eq!(g.get_hash_from_hash(u64::MAX), (191, 192, 256));
    assert_eq!(g.get_hash_from_hash(0x8000_0000_0004_0001), (96, 161, 225));
}

#[test]
fn bounds_on_logarithms() {
    let two = log(2);
    assert_eq!((two.low, two.high), (1 << 40, 1 << 40));
    let one = log(1);
    assert_eq!((one.low, one.high), (0, 0));
    let ten = log(10);
    assert_eq!((ten.low, ten.high), (3652498566964, 3652498566965));
}

#[test]
fn powers_are_compared() {
    let (ten, hundred, three) = (log(10), log(100), log(3));
    assert!(power_at_most(3, 2, &three, 10, 1, &ten));
    assert!(!power_at_most(3, 3, &three, 10, 1, &ten));
    assert!(power_at_most(3, 2095, &three, 10, 1000, &ten));
    assert!(!power_at_most(3, 2096, &three, 10, 1000, &ten));
    // Equal powers, which the logarithms do not tell apart.
    assert!(power_at_most(100, 50, &hundred, 10, 100, &ten));
    assert!(power_at_most(10, 100, &ten, 100, 50, &hundred));
    assert!(!power_at_most(100, 51, &hundred, 10, 101, &ten));
}

#[test]
fn natural_numbers() {
    assert_eq!(times(&vec![0xffff_ffff, 1], 2), vec![0xffff_fffe, 3, 0]);
    let a = power(10, 30);
    let b = times(&power(10, 29), 10);
    assert!(at_most(&a, &b) && at_most(&b, &a));
    assert!(at_most(&power(2, 99), &power(3, 63)));
    assert!(!at_most(&power(3, 63), &power(2, 99)));
    assert!(at_most(&vec![], &vec![0]));
    assert!(!at_most(&vec![0, 0, 1], &vec![5]));
}

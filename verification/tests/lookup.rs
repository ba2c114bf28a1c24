use constmap::construction::BuildError;
use constmap::hash::{fingerprint, mixsplit};
use constmap::key::digest_all;
use constmap::{ConstMap, VerifiedConstMap, NOT_FOUND};
use rand::Rng;

#[test]
fn test_basic() {
    let keys = vec!["apple", "banana", "cherry", "date", "elderberry"];
    let values = vec![100u64, 200, 300, 400, 500];

    let cm = ConstMap::new(&keys, &values).unwrap();

    for (i, &k) in keys.iter().enumerate() {
        assert_eq!(cm.map(k), values[i], "Map({}) mismatch", k);
    }
}

#[test]
fn test_empty() {
    let cm = ConstMap::new(&[], &[]).unwrap();
    assert!(cm.data.is_empty());
}

#[test]
fn test_large() {
    let n = 100_000;
    let keys: Vec<String> = (0..n).map(|i| format!("key-{}", i)).collect();
    let key_refs: Vec<&str> = keys.iter().map(|s| s.as_str()).collect();
    let values: Vec<u64> = (0..n).map(|i| (i * 7) as u64).collect();

    let cm = ConstMap::new(&key_refs, &values).unwrap();

    for (i, k) in keys.iter().enumerate() {
        assert_eq!(cm.map(k), values[i], "Map({}) mismatch", k);
    }
}

#[test]
fn test_mismatched_lengths() {
    let result = ConstMap::new(&["a"], &[1, 2]);
    assert!(result.is_err());
}

#[test]
fn test_random_values() {
    let mut rng = rand::thread_rng();
    let n = 50_000;
    let keys: Vec<String> = (0..n)
        .map(|i| format!("random-key-{}-{}", i, rng.gen::<u64>()))
        .collect();
    let key_refs: Vec<&str> = keys.iter().map(|s| s.as_str()).collect();
    let values: Vec<u64> = (0..n).map(|_| rng.gen()).collect();

    let cm = ConstMap::new(&key_refs, &values).unwrap();

    for (i, k) in keys.iter().enumerate() {
        assert_eq!(cm.map(k), values[i], "Map({}) mismatch", k);
    }
}

#[test]
fn test_verified_basic() {
    let keys = vec!["apple", "banana", "cherry", "date", "elderberry"];
    let values = vec![100u64, 200, 300, 400, 500];

    let vm = VerifiedConstMap::new(&keys, &values).unwrap();

    for (i, &k) in keys.iter().enumerate() {
        assert_eq!(vm.map(k), values[i], "Map({}) mismatch", k);
    }
}

#[test]
fn test_verified_missing() {
    let keys = vec!["apple", "banana", "cherry"];
    let values = vec![100u64, 200, 300];

    let vm = VerifiedConstMap::new(&keys, &values).unwrap();

    let missing = ["grape", "kiwi", "mango", "pear", "plum"];
    for &k in &missing {
        assert_eq!(vm.map(k), NOT_FOUND, "Map({}) should be NOT_FOUND", k);
    }
}

#[test]
fn test_verified_large() {
    let n = 100_000;
    let keys: Vec<String> = (0..n).map(|i| format!("key-{}", i)).collect();
    let key_refs: Vec<&str> = keys.iter().map(|s| s.as_str()).collect();
    let values: Vec<u64> = (0..n).map(|i| (i * 7) as u64).collect();

    let vm = VerifiedConstMap::new(&key_refs, &values).unwrap();

    for (i, k) in keys.iter().enumerate() {
        assert_eq!(vm.map(k), values[i], "Map({}) mismatch", k);
    }

    for i in 0..10_000 {
        let k = format!("missing-{}", i);
        assert_eq!(vm.map(&k), NOT_FOUND, "Map({}) should be NOT_FOUND", k);
    }
}

#[test]
fn test_verified_empty() {
    let vm = VerifiedConstMap::new(&[], &[]).unwrap();
    assert_eq!(vm.map("anything"), NOT_FOUND);
}

#[test]
fn errors_are_put_in_words() {
    let lengths = "constmap: keys and values must have equal length";
    assert_eq!(ConstMap::new(&["a"], &[1, 2]).err().unwrap(), lengths);
    assert_eq!(VerifiedConstMap::new(&["a"], &[]).err().unwrap(), lengths);
    let doubled = "constmap: duplicate key hash detected";
    assert_eq!(ConstMap::new(&["a", "a"], &[1, 2]).err().unwrap(), doubled);
    assert_eq!(VerifiedConstMap::new(&["a", "a"], &[1, 2]).err().unwrap(), doubled);
    assert_eq!(
        BuildError::Exhausted.message(),
        "constmap: failed to construct map, possible duplicate keys"
    );
}

#[test]
fn equal_keys_are_refused_among_many() {
    let mut keys: Vec<String> = (0..500).map(|i| format!("key-{}", i)).collect();
    keys.push("key-123".to_string());
    let refs: Vec<&str> = keys.iter().map(|s| s.as_str()).collect();
    let values: Vec<u64> = (0..501).collect();
    assert!(ConstMap::new(&refs, &values).is_err());
    assert!(VerifiedConstMap::new(&refs, &values).is_err());
}

#[test]
fn three_fruits_in_their_cells() {
    let cm = ConstMap::new(&["apple", "banana", "cherry"], &[100, 200, 300]).unwrap();
    assert_eq!(cm.seed, 0x910a2dec89025cc1);
    assert_eq!(cm.geometry.segment_length, 8);
    assert_eq!(cm.geometry.segment_length_mask, 7);
    assert_eq!(cm.geometry.segment_count, 1);
    assert_eq!(cm.geometry.segment_count_length, 8);
    let mut data = vec![0u64; 24];
    data[0] = 300;
    data[22] = 100;
    data[23] = 484;
    assert_eq!(cm.data, data);
}

#[test]
fn digests_build_the_same_map() {
    let keys = ["apple", "banana", "cherry"];
    let values = [100u64, 200, 300];
    let digests = digest_all(&keys);
    assert_eq!(digests[0], 0x5889a1c15c94729f);
    let a = ConstMap::new(&keys, &values).unwrap();
    let b = ConstMap::from_digests(&digests, &values).unwrap();
    assert_eq!((a.seed, &a.data), (b.seed, &b.data));
    assert_eq!(b.map_digest(0x5889a1c15c94729f), 100);
    let c = VerifiedConstMap::from_digests(&digests, &values).unwrap();
    assert_eq!(c.map_digest(0x5889a1c15c94729f), 100);
    assert_eq!(c.map_digest(0x5889a1c15c94729e), NOT_FOUND);
    assert!(matches!(
        ConstMap::from_digests(&vec![5, 5], &[1, 2]),
        Err(BuildError::DuplicateKey)
    ));
    assert!(matches!(
        VerifiedConstMap::from_digests(&vec![5], &[1, 2]),
        Err(BuildError::LengthMismatch)
    ));
}

#[test]
fn the_two_maps_agree() {
    let keys: Vec<String> = (0..300).map(|i| format!("key-{}", i)).collect();
    let refs: Vec<&str> = keys.iter().map(|s| s.as_str()).collect();
    let values: Vec<u64> = (0..300).map(|i| i * i).collect();
    let cm = ConstMap::new(&refs, &values).unwrap();
    let vm = VerifiedConstMap::new(&refs, &values).unwrap();
    assert_eq!((vm.seed, &vm.data), (cm.seed, &cm.data));
    assert_eq!(vm.checks.len(), vm.data.len());
    for i in 0..600 {
        let k = format!("key-{}", i);
        let found = vm.map(&k);
        assert!(found == NOT_FOUND || found == cm.map(&k));
        assert_eq!(found == NOT_FOUND, i >= 300);
    }
}

#[test]
fn lookups_outside_the_cells_are_told() {
    let mut cm = ConstMap::new(&["apple", "banana"], &[1, 2]).unwrap();
    assert_eq!(cm.try_map("banana"), Some(2));
    assert_eq!(cm.try_map_many(&["banana", "apple"]), Some(vec![2, 1]));
    cm.data.truncate(2);
    assert_eq!(cm.try_map("banana"), None);
    assert_eq!(cm.try_map_many(&["banana", "apple"]), None);
    let mut dst = [7u64; 3];
    assert!(!cm.try_map_many_into(&mut dst, &["banana", "apple"]));
    assert_eq!(dst, [7, 7, 7]);

    let vm = VerifiedConstMap::new(&[], &[]).unwrap();
    assert_eq!(vm.try_map("anything"), Some(NOT_FOUND));
    let mut vm = VerifiedConstMap::new(&["apple", "banana"], &[1, 2]).unwrap();
    assert_eq!(vm.try_map("apple"), Some(1));
    assert_eq!(vm.try_map_many(&["apple", "cherry"]), Some(vec![1, NOT_FOUND]));
    vm.data.truncate(2);
    assert_eq!(vm.try_map("apple"), None);
    assert_eq!(vm.try_map("cherry"), Some(NOT_FOUND));
    vm.checks.truncate(2);
    assert_eq!(vm.try_map("cherry"), None);
    assert_eq!(vm.try_map_many(&["cherry"]), None);
}

#[test]
fn a_value_may_be_the_sentinel() {
    let vm = VerifiedConstMap::new(&["a", "b"], &[NOT_FOUND, 1]).unwrap();
    assert_eq!(vm.map("a"), NOT_FOUND);
    assert_eq!(vm.map("b"), 1);
}

/// A key that was not in the set costs only the value, on a map without keys too.
#[test]
fn lookups_in_a_map_without_keys() {
    let cm = ConstMap::new(&[], &[]).unwrap();
    cm.map("anything");
    cm.map_digest(17);
    assert!(cm.try_map("anything").is_some());
    assert_eq!(cm.map_many(&["anything"; 11]).len(), 11);
    assert_eq!(cm.map_many(&["anything"; 11]), vec![cm.map("anything"); 11]);
    assert_eq!(cm.try_map_many(&["anything"; 3]).unwrap().len(), 3);
    let none: [&str; 0] = [];
    assert_eq!(cm.try_map_many(&none), Some(vec![]));
    let mut dst = [7u64; 4];
    cm.map_many_into(&mut dst, &["anything"; 2]);
    assert_eq!(&dst[2..], &[7, 7]);
}

#[test]
fn batches_with_a_test_of_the_destination() {
    let cm = ConstMap::new(&["apple", "banana"], &[1, 2]).unwrap();
    let vm = VerifiedConstMap::new(&["apple", "banana"], &[1, 2]).unwrap();
    let mut dst = [7u64; 3];
    assert!(cm.try_map_many_into(&mut dst, &["banana", "apple"]));
    assert_eq!(dst, [2, 1, 7]);
    assert!(vm.try_map_many_into(&mut dst, &["apple", "cherry", "banana"]));
    assert_eq!(dst, [1, NOT_FOUND, 2]);
    assert!(!cm.try_map_many_into(&mut dst, &["banana"; 4]));
    assert!(!vm.try_map_many_into(&mut dst, &["banana"; 4]));
    assert_eq!(dst, [1, NOT_FOUND, 2]);
}

#[test]
fn the_order_of_the_pairs_does_not_matter() {
    let keys: Vec<String> = (0..2000).map(|i| format!("key-{}", i)).collect();
    let values: Vec<u64> = (0..2000).map(|i| i * 7).collect();
    let forth: Vec<&str> = keys.iter().map(|s| s.as_str()).collect();
    let order: Vec<usize> = (0..2000).map(|i| (i * 1103 + 5) % 2000).collect();
    let other: Vec<&str> = order.iter().map(|&i| forth[i]).collect();
    let moved: Vec<u64> = order.iter().map(|&i| values[i]).collect();
    let a = VerifiedConstMap::new(&forth, &values).unwrap();
    let b = VerifiedConstMap::new(&other, &moved).unwrap();
    assert_eq!((a.seed, a.geometry), (b.seed, b.geometry));
    assert_eq!(a.data, b.data);
    assert_eq!(a.checks, b.checks);
    let c = ConstMap::new(&other, &moved).unwrap();
    assert_eq!((c.seed, c.geometry, &c.data), (a.seed, a.geometry, &a.data));
}

#[test]
fn a_map_in_a_line() {
    let cm = ConstMap::new(&["apple", "banana", "cherry"], &[100, 200, 300]).unwrap();
    assert_eq!(
        cm.debug_text(),
        "ConstMap { seed: 10451216379200822465, segment_length: 8, segment_count: 1, data_len: 24 }"
    );
    let vm = VerifiedConstMap::new(&[], &[]).unwrap();
    assert_eq!(
        vm.debug_text(),
        "VerifiedConstMap { seed: 0, segment_length: 0, segment_count: 0, data_len: 0 }"
    );
}

/// Every key is recognized by its check words, also one whose value is the sentinel.
#[test]
fn check_words_of_a_sentinel() {
    let vm = VerifiedConstMap::new(&["a", "b"], &[NOT_FOUND, 1]).unwrap();
    let hash = mixsplit(digest_all(&["a"])[0], vm.seed);
    let (x, y, z) = vm.geometry.get_hash_from_hash(hash);
    let (x, y, z) = (x as usize, y as usize, z as usize);
    assert_eq!(vm.checks[x] ^ vm.checks[y] ^ vm.checks[z], fingerprint(hash));
    assert_eq!(vm.data[x] ^ vm.data[y] ^ vm.data[z], NOT_FOUND);
}

/// Maps of the same keys are combined by combining their data words.
#[test]
fn values_are_combined_in_the_cells() {
    let keys: Vec<String> = (0..500).map(|i| format!("key-{}", i)).collect();
    let keys: Vec<&str> = keys.iter().map(|s| s.as_str()).collect();
    let v: Vec<u64> = (0..500u64).map(|i| i * i + 1).collect();
    let w: Vec<u64> = (0..500u64).map(|i| i << 40).collect();
    let x: Vec<u64> = v.iter().zip(&w).map(|(a, b)| a ^ b).collect();
    let a = VerifiedConstMap::new(&keys, &v).unwrap();
    let b = VerifiedConstMap::new(&keys, &w).unwrap();
    let c = VerifiedConstMap::new(&keys, &x).unwrap();
    let data: Vec<u64> = a.data.iter().zip(&b.data).map(|(a, b)| a ^ b).collect();
    assert_eq!(c.data, data);
    assert_eq!(c.checks, a.checks);
    assert_eq!(c.checks, b.checks);
    assert_eq!((c.seed, c.seed), (a.seed, b.seed));
    assert_eq!(ConstMap::new(&keys, &x).unwrap().data, data);
}

/// Cells of no key hold zero.
#[test]
fn untouched_cells_are_zero() {
    let keys = ["apple", "banana", "cherry"];
    let m = VerifiedConstMap::new(&keys, &[u64::MAX, 1, 2]).unwrap();
    let mut touched = vec![false; m.data.len()];
    for digest in digest_all(&keys) {
        let (a, b, c) = m.geometry.get_hash_from_hash(mixsplit(digest, m.seed));
        for cell in [a, b, c] {
            touched[cell as usize] = true;
        }
    }
    assert!(touched.contains(&false));
    for (cell, touched) in touched.iter().enumerate() {
        if !touched {
            assert_eq!((m.data[cell], m.checks[cell]), (0, 0));
        }
    }
}

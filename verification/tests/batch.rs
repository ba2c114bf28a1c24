use constmap::{ConstMap, VerifiedConstMap, NOT_FOUND};

fn build_data(n: usize) -> (Vec<String>, Vec<u64>) {
    let keys: Vec<String> = (0..n).map(|i| format!("key-{}", i)).collect();
    let values: Vec<u64> = (0..n).map(|i| (i * 7) as u64).collect();
    (keys, values)
}

fn refs(keys: &[String]) -> Vec<&str> {
    keys.iter().map(|s| s.as_str()).collect()
}

/// Sizes that straddle the block boundary, so the tail path is exercised.
const SIZES: [usize; 6] = [0, 1, 7, 8, 9, 1000];

#[test]
fn test_map_many_matches_map() {
    let (keys, values) = build_data(20_000);
    let cm = ConstMap::new(&refs(&keys), &values).unwrap();

    for n in SIZES {
        let batch = &keys[..n];
        let got = cm.map_many(batch);
        assert_eq!(got.len(), n);
        for (i, k) in batch.iter().enumerate() {
            assert_eq!(got[i], cm.map(k), "n={}: map_many({}) mismatch", n, k);
        }
    }
}

#[test]
fn test_map_many_values() {
    let keys = vec!["apple", "banana", "cherry"];
    let values = vec![100u64, 200, 300];
    let cm = ConstMap::new(&keys, &values).unwrap();
    assert_eq!(cm.map_many(&keys), values);
}

#[test]
fn test_verified_map_many_matches_map() {
    let (keys, values) = build_data(20_000);
    let vm = VerifiedConstMap::new(&refs(&keys), &values).unwrap();

    for n in SIZES {
        let batch = &keys[..n];
        let got = vm.map_many(batch);
        assert_eq!(got.len(), n);
        for (i, k) in batch.iter().enumerate() {
            assert_eq!(got[i], vm.map(k), "n={}: map_many({}) mismatch", n, k);
        }
    }
}

#[test]
fn test_verified_map_many_reports_missing() {
    let (keys, values) = build_data(1000);
    let vm = VerifiedConstMap::new(&refs(&keys), &values).unwrap();

    // Interleave present and absent keys, across and within blocks.
    let mut batch: Vec<String> = Vec::new();
    let mut want: Vec<u64> = Vec::new();
    for i in 0..100 {
        batch.push(keys[i].clone());
        want.push(values[i]);
        batch.push(format!("missing-{}", i));
        want.push(NOT_FOUND);
    }

    assert_eq!(vm.map_many(&batch), want);
}

#[test]
fn test_verified_map_many_empty_map() {
    let vm = VerifiedConstMap::new(&[], &[]).unwrap();
    let batch: Vec<&str> = (0..20).map(|_| "anything").collect();
    assert_eq!(vm.map_many(&batch), vec![NOT_FOUND; 20]);
}

#[test]
fn test_map_many_no_keys() {
    let (keys, values) = build_data(100);
    let cm = ConstMap::new(&refs(&keys), &values).unwrap();
    let vm = VerifiedConstMap::new(&refs(&keys), &values).unwrap();

    let none: [&str; 0] = [];
    assert!(cm.map_many(&none).is_empty());
    assert!(vm.map_many(&none).is_empty());

    // An empty batch must not touch a destination of any size.
    let mut dst = [7u64; 4];
    cm.map_many_into(&mut dst, &none);
    vm.map_many_into(&mut dst, &none);
    assert_eq!(dst, [7u64; 4]);
}

#[test]
fn test_map_many_into_leaves_tail_alone() {
    let (keys, values) = build_data(1000);
    let cm = ConstMap::new(&refs(&keys), &values).unwrap();
    let vm = VerifiedConstMap::new(&refs(&keys), &values).unwrap();

    let batch = &keys[..10];

    let mut dst = vec![0xdeadu64; 20];
    cm.map_many_into(&mut dst, batch);
    assert_eq!(&dst[..10], &cm.map_many(batch)[..]);
    assert!(dst[10..].iter().all(|&v| v == 0xdead), "tail was clobbered");

    let mut dst = vec![0xdeadu64; 20];
    vm.map_many_into(&mut dst, batch);
    assert_eq!(&dst[..10], &vm.map_many(batch)[..]);
    assert!(dst[10..].iter().all(|&v| v == 0xdead), "tail was clobbered");
}

#[test]
fn a_block_and_a_tail() {
    let (keys, values) = build_data(21);
    let cm = ConstMap::new(&refs(&keys), &values).unwrap();
    let vm = VerifiedConstMap::new(&refs(&keys), &values).unwrap();
    assert_eq!(cm.map_many(&keys), values);
    assert_eq!(vm.map_many(&keys), values);
    assert_eq!(vm.map_many(&["key-1", "grape"]), vec![7, NOT_FOUND]);
}

/// Keys may be slices, strings, and references to either.
#[test]
fn keys_of_every_sort() {
    let (keys, values) = build_data(9);
    let cm = ConstMap::new(&refs(&keys), &values).unwrap();
    let borrowed: Vec<&String> = keys.iter().collect();
    let slices = refs(&keys);
    let twice: Vec<&&str> = slices.iter().collect();
    assert_eq!(cm.map_many(&keys), values);
    assert_eq!(cm.map_many(&borrowed), values);
    assert_eq!(cm.map_many(&slices), values);
    assert_eq!(cm.map_many(&twice), values);
}

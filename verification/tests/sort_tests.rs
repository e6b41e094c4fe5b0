use hello_rust_core::example::TestSortStruct;
use hello_rust_core::sort::array_is_sorted_by;
use hello_rust_core::sort::bitonic_merge_sorted_iters;
use hello_rust_core::sort::bitonic_merge_sorted_slices;
use hello_rust_core::sort::bitonic_sort;
use hello_rust_core::sort::bitonic_sort_by;
use hello_rust_core::sort::bitonic_sort_by_key;

/// A small deterministic generator for mixed keys with duplicates.
fn keys(n: usize, seed: u64) -> Vec<u64> {
    let mut state = seed;
    let mut out = Vec::with_capacity(n);
    for _ in 0..n {
        state = state
            .wrapping_mul(6364136223846793005)
            .wrapping_add(1442695040888963407);
        out.push(state >> 56);
    }
    out
}

#[test]
fn sort_produces_sorted_permutation() {
    for &n in &[0usize, 1, 2, 3, 1000] {
        let input = keys(n, 7 + n as u64);
        let mut sorted_by_std = input.clone();
        sorted_by_std.sort_unstable();

        let mut arr = input.clone();
        bitonic_sort(&mut arr);
        assert!(array_is_sorted_by(&arr, |a: &u64, b: &u64| a.cmp(b)));
        assert_eq!(arr, sorted_by_std);
    }
}

#[test]
fn sort_by_with_reversed_comparator() {
    let input = keys(257, 3);
    let mut expected = input.clone();
    expected.sort_unstable();
    expected.reverse();

    let mut arr = input;
    bitonic_sort_by(&mut arr, |a: &u64, b: &u64| b.cmp(a));
    assert_eq!(arr, expected);
}

#[test]
fn sort_by_key_orders_by_the_key() {
    let input: Vec<u64> = keys(100, 11);
    let mut expected = input.clone();
    expected.sort_unstable_by_key(|v| v % 10);

    let mut arr = input;
    bitonic_sort_by_key(&mut arr, |v: &u64| *v % 10);
    // same key multiset position by position
    let got_keys: Vec<u64> = arr.iter().map(|v| v % 10).collect();
    let want_keys: Vec<u64> = expected.iter().map(|v| v % 10).collect();
    assert_eq!(got_keys, want_keys);
    let mut arr_sorted = arr.clone();
    arr_sorted.sort_unstable();
    let mut expected_sorted = expected.clone();
    expected_sorted.sort_unstable();
    assert_eq!(arr_sorted, expected_sorted);
}

#[test]
fn merge_sorted_slices_lengths() {
    for &l in &[0usize, 1, 5, 100] {
        let mut left = keys(l, 17 + l as u64);
        let mut right = keys(l, 31 + l as u64);
        left.sort_unstable();
        right.sort_unstable();

        let mut expected: Vec<u64> = left.iter().chain(right.iter()).cloned().collect();
        expected.sort_unstable();

        let merged = bitonic_merge_sorted_slices(&left, &right);
        assert_eq!(merged.len(), 2 * l);
        assert!(array_is_sorted_by(&merged, |a: &u64, b: &u64| a.cmp(b)));
        assert_eq!(merged, expected);
    }
}

#[test]
fn merge_sorted_iters_lengths() {
    for &l in &[0usize, 1, 5, 100] {
        let mut left = keys(l, 5 + l as u64);
        let mut right = keys(l, 13 + l as u64);
        left.sort_unstable();
        left.reverse();
        right.sort_unstable();

        let mut expected: Vec<u64> = left.iter().chain(right.iter()).cloned().collect();
        expected.sort_unstable();

        let merged = bitonic_merge_sorted_iters(left, right, Some(l));
        assert_eq!(merged.len(), 2 * l);
        assert_eq!(merged, expected);
    }
}

#[test]
fn sorted_check_exact() {
    assert!(array_is_sorted_by(&Vec::<u64>::new(), |a: &u64, b: &u64| a
        .cmp(b)));
    assert!(array_is_sorted_by(&[1u64, 1, 2, 9], |a: &u64, b: &u64| a.cmp(b)));
    assert!(!array_is_sorted_by(&[1u64, 3, 2], |a: &u64, b: &u64| a.cmp(b)));
}

#[test]
fn sort_struct_example() {
    let test_struct_1 = TestSortStruct {
        dist: 4,
        id: 1,
        payload: vec![0; 32].into(),
    };
    let test_struct_2 = TestSortStruct {
        dist: 3,
        id: 2,
        payload: vec![1; 32].into(),
    };
    let test_struct_3 = TestSortStruct {
        dist: 2,
        id: 3,
        payload: vec![2; 32].into(),
    };
    let test_struct_4 = TestSortStruct {
        dist: 1,
        id: 4,
        payload: vec![3; 32].into(),
    };
    let test_struct_5 = TestSortStruct {
        dist: 2,
        id: 0,
        payload: vec![4; 32].into(),
    };

    let mut test_vec = vec![
        test_struct_1,
        test_struct_2,
        test_struct_3,
        test_struct_4,
        test_struct_5,
    ];

    bitonic_sort_by(&mut test_vec, |a: &TestSortStruct, b: &TestSortStruct| {
        a.dist.cmp(&b.dist).then_with(|| a.id.cmp(&b.id))
    });

    let ids: Vec<u64> = test_vec.iter().map(|v| v.id).collect();
    assert_eq!(ids, vec![4, 0, 3, 2, 1]);
    // each payload travels with its record
    for v in &test_vec {
        let expected_byte = match v.id {
            1 => 0u8,
            2 => 1,
            3 => 2,
            4 => 3,
            _ => 4,
        };
        assert_eq!(*v.payload.get(0), expected_byte);
        assert_eq!(v.payload.len(), 32);
    }
}

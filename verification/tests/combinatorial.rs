use schedule1::combinatorial::{triangle_index, CombinatorialEncoder};

#[test]
fn test_triangle_index() {
    // We want to build Pascal's triangle and then store it in column-major order.
    //          1
    //         1 1
    //        1 2 1
    //       1 3 3 1
    //
    // gets mapped to [1, 1, 1, 1, 1, 2, 3, 1, 3, 1]. Thus, the index in a row-major traversal
    // is [0,
    // 1, 4,
    // 2, 5, 7,
    // 3, 6, 8, 9].
    let expected = [0, 1, 4, 2, 5, 7, 3, 6, 8, 9];
    let mut idx = 0;
    for row in 0..4 {
        for column in 0..=row {
            let actual = triangle_index(row, column, 3);
            let expected = expected[idx];
            assert_eq!(
                actual, expected,
                "index({row}, {column}) = {actual} != {expected}"
            );
            idx += 1;
        }
    }
}

#[test]
fn test_five_rows() {
    let encoder = CombinatorialEncoder::<5, 5>::new();
    // Below is the row-major ordering
    // let expected = vec![
    //     1, // row 0
    //     1, 1, // row 1
    //     1, 2, 1, // row 2
    //     1, 3, 3, 1, // row 3
    //     1, 4, 6, 4, 1, // row 4
    //     1, 5, 10, 10, 5, 1, // row 5
    // ];
    let expected = [
        1, 1, 1, 1, 1, 1, 1, 2, 3, 4, 5, 1, 3, 6, 10, 1, 4, 10, 1, 5, 1,
    ];
    assert_eq!(*encoder.binom(), expected);
    assert_eq!(*encoder.size_offsets(), [0, 1, 6, 16, 26, 31, 32]);
}

#[test]
fn test_five_four() {
    let encoder = CombinatorialEncoder::<5, 4>::new();
    let expected = [
        1, 1, 1, 1, 1, 1, 1, 2, 3, 4, 5, 1, 3, 6, 10, 1, 4, 10, 1, 5, 1,
    ];
    assert_eq!(*encoder.binom(), expected);
    assert_eq!(*encoder.size_offsets(), vec![0, 1, 6, 16, 26, 31]);
}

#[test]
fn test_four_two() {
    let encoder = CombinatorialEncoder::<4, 2>::new();
    let expected = [1, 1, 1, 1, 1, 1, 2, 3, 4, 1, 3, 6, 1, 4, 1];
    assert_eq!(*encoder.binom(), expected);
    assert_eq!(*encoder.size_offsets(), vec![0, 1, 5, 11]);
}

#[test]
fn test_roundtrip() {
    let encoder = CombinatorialEncoder::<4, 4>::new();
    let items = [
        0,                                 // 4 choose 0
        1 << 0,                            // 4 choose 1
        1 << 1,                            // 4 choose 1
        1 << 2,                            // 4 choose 1
        1 << 3,                            // 4 choose 1
        1 << 1 | 1 << 0,                   // 4 choose 2
        1 << 2 | 1 << 0,                   // 4 choose 2
        1 << 2 | 1 << 1,                   // 4 choose 2
        1 << 3 | 1 << 0,                   // 4 choose 2
        1 << 3 | 1 << 1,                   // 4 choose 2
        1 << 3 | 1 << 2,                   // 4 choose 2
        1 << 2 | 1 << 1 | 1 << 0,          // 4 choose 3
        1 << 3 | 1 << 1 | 1 << 0,          // 4 choose 3
        1 << 3 | 1 << 2 | 1 << 0,          // 4 choose 3
        1 << 3 | 1 << 2 | 1 << 1,          // 4 choose 3
        1 << 3 | 1 << 2 | 1 << 1 | 1 << 0, // 4 choose 4
    ];

    for (idx, item) in items.iter().enumerate() {
        let encoded = encoder.encode(*item);
        assert_eq!(
            encoded, idx as u32,
            "encode({item:0b}) = {encoded} != {idx}"
        );
        let decoded = encoder.decode(encoded);
        assert_eq!(decoded, *item, "decode({encoded}) = {decoded} != {item}");
    }
}

#[test]
fn test_roundtrip_4_2() {
    let encoder = CombinatorialEncoder::<4, 2>::new();
    let items = [
        0,               // 4 choose 0
        1 << 0,          // 4 choose 1
        1 << 1,          // 4 choose 1
        1 << 2,          // 4 choose 1
        1 << 3,          // 4 choose 1
        1 << 1 | 1 << 0, // 4 choose 2
        1 << 2 | 1 << 0, // 4 choose 2
        1 << 2 | 1 << 1, // 4 choose 2
        1 << 3 | 1 << 0, // 4 choose 2
        1 << 3 | 1 << 1, // 4 choose 2
        1 << 3 | 1 << 2, // 4 choose 2
    ];

    for (idx, item) in items.iter().copied().enumerate() {
        let encoded = encoder.encode(item);
        assert_eq!(
            encoded, idx as u32,
            "encode({item:0b}) = {encoded} != {idx}"
        );
        let decoded = encoder.decode(encoded);
        assert_eq!(decoded, item, "decode({encoded}) = {decoded} != {item}");
    }
}

#[test]
fn test_expected_size_34_8() {
    let encoder = CombinatorialEncoder::<34, 8>::new();
    assert_eq!(
        *encoder.size_offsets(),
        [
            0,
            1,
            1 + 34,
            1 + 34 + 561,
            1 + 34 + 561 + 5984,
            1 + 34 + 561 + 5984 + 46376,
            1 + 34 + 561 + 5984 + 46376 + 278256,
            1 + 34 + 561 + 5984 + 46376 + 278256 + 1344904,
            1 + 34 + 561 + 5984 + 46376 + 278256 + 1344904 + 5379616,
            1 + 34 + 561 + 5984 + 46376 + 278256 + 1344904 + 5379616 + 18156204
        ]
    );

    assert_eq!(
        encoder.maximum_index(),
        1 + 34 + 561 + 5984 + 46376 + 278256 + 1344904 + 5379616 + 18156204
    )
}

#[test]
fn encoder_round_trip_over_every_index() {
    let encoder = CombinatorialEncoder::<6, 3>::new();
    let m = encoder.maximum_index();
    assert_eq!(m, 1 + 6 + 15 + 20);
    let mut seen = std::collections::HashSet::new();
    for index in 0..m {
        let mask = encoder.decode(index);
        assert!(mask < (1 << 6));
        assert!(mask.count_ones() <= 3);
        assert_eq!(encoder.encode(mask), index);
        assert!(seen.insert(mask));
    }
    for mask in 0..(1u64 << 6) {
        if mask.count_ones() <= 3 {
            assert_eq!(encoder.decode(encoder.encode(mask)), mask);
            assert!(encoder.encode(mask) < m);
        }
    }
}

#[test]
fn encoder_keeps_sizes_and_masks_in_order() {
    let encoder = CombinatorialEncoder::<6, 4>::new();
    let masks: Vec<u64> = (0..(1u64 << 6)).filter(|m| m.count_ones() <= 4).collect();
    for a in &masks {
        for b in &masks {
            if a.count_ones() < b.count_ones() {
                assert!(encoder.encode(*a) < encoder.encode(*b));
            }
            if a.count_ones() == b.count_ones() && a < b {
                assert!(encoder.encode(*a) < encoder.encode(*b));
            }
        }
    }
}

#[test]
fn encoder_of_the_full_universe() {
    let encoder = CombinatorialEncoder::<34, 8>::new();
    assert_eq!(encoder.maximum_index(), 25_211_936);
    assert_eq!(encoder.encode(0), 0);
    assert_eq!(encoder.decode(0), 0);
    assert_eq!(encoder.encode(1), 1);
    assert_eq!(encoder.encode(1 << 33), 34);
    assert_eq!(encoder.encode(0b11), 35);
    let last = 0xffu64 << 26;
    assert_eq!(encoder.encode(last), 25_211_935);
    assert_eq!(encoder.decode(25_211_935), last);
    let some = (1u64 << 3) | (1 << 18) | (1 << 31);
    assert_eq!(encoder.decode(encoder.encode(some)), some);
}

#[test]
fn binomial_coefficients_are_read_from_the_triangle() {
    let encoder = CombinatorialEncoder::<5, 5>::new();
    let triangle = encoder.binom();
    assert_eq!(schedule1::combinatorial::binomial_coeff(triangle, 5, 2, 5), 10);
    assert_eq!(schedule1::combinatorial::binomial_coeff(triangle, 4, 4, 5), 1);
    assert_eq!(schedule1::combinatorial::binomial_coeff(triangle, 3, 0, 5), 1);
    assert_eq!(schedule1::combinatorial::binomial_coeff(triangle, 2, 3, 5), 0);
    assert_eq!(triangle_index(5, 5, 5), 20);
}

#[test]
fn encoder_of_nothing() {
    let encoder = CombinatorialEncoder::<0, 0>::new();
    assert_eq!(encoder.maximum_index(), 1);
    assert_eq!(encoder.encode(0), 0);
    assert_eq!(encoder.decode(0), 0);
}

#[test]
fn a_large_universe_with_small_subsets() {
    let encoder = CombinatorialEncoder::<40, 2>::new();
    assert_eq!(encoder.maximum_index(), 1 + 40 + 780);
    assert_eq!(*encoder.size_offsets(), vec![0, 1, 41, 821]);
    assert_eq!(encoder.encode(0), 0);
    assert_eq!(encoder.encode(1 << 39), 40);
    let last = (1u64 << 39) | (1 << 38);
    assert_eq!(encoder.encode(last), 820);
    assert_eq!(encoder.decode(820), last);
    for index in 0..821u32 {
        assert_eq!(encoder.encode(encoder.decode(index)), index);
    }
    // a coefficient that fits no entry is held as the largest entry
    let triangle = encoder.binom();
    assert_eq!(schedule1::combinatorial::binomial_coeff(triangle, 40, 2, 40), 780);
    assert_eq!(schedule1::combinatorial::binomial_coeff(triangle, 34, 16, 40), 2_203_961_430);
    assert_eq!(schedule1::combinatorial::binomial_coeff(triangle, 35, 17, 40), u32::MAX);
    assert_eq!(schedule1::combinatorial::binomial_coeff(triangle, 40, 20, 40), u32::MAX);
    assert_eq!(schedule1::combinatorial::binomial_coeff(triangle, 40, 40, 40), 1);
}

#[test]
fn the_constructor_that_tests_the_sizes() {
    assert!(CombinatorialEncoder::<34, 8>::try_new().is_some());
    assert!(CombinatorialEncoder::<64, 3>::try_new().is_some());
    assert_eq!(CombinatorialEncoder::<64, 3>::try_new().unwrap().maximum_index(), 1 + 64 + 2016 + 41_664);
    // 2^32 subsets are one too many, 2^31 are not
    assert!(CombinatorialEncoder::<32, 32>::try_new().is_none());
    assert!(CombinatorialEncoder::<31, 31>::try_new().is_some());
    assert_eq!(CombinatorialEncoder::<31, 31>::try_new().unwrap().maximum_index(), 1 << 31);
    assert!(CombinatorialEncoder::<34, 34>::try_new().is_none());
    assert!(CombinatorialEncoder::<65, 2>::try_new().is_none());
    assert!(CombinatorialEncoder::<3, 4>::try_new().is_none());
}

use splash_space::codec::StateOps;

#[test]
fn bits_per_digit_values() {
    assert_eq!(StateOps::bits_per_digit(1), 0);
    assert_eq!(StateOps::bits_per_digit(2), 1);
    assert_eq!(StateOps::bits_per_digit(3), 2);
    assert_eq!(StateOps::bits_per_digit(4), 2);
    assert_eq!(StateOps::bits_per_digit(5), 3);
    assert_eq!(StateOps::bits_per_digit(255), 8);
}

#[test]
fn get_and_set_one_digit() {
    // three digits of base 5, three bits each
    let s = StateOps::from_vec(&vec![4u8, 0, 3], 5);
    assert_eq!(StateOps::get(s, 0, 5, 3), 4);
    assert_eq!(StateOps::get(s, 1, 5, 3), 0);
    assert_eq!(StateOps::get(s, 2, 5, 3), 3);
    let s2 = StateOps::set(s, 1, 2, 5, 3);
    assert_eq!(StateOps::get(s2, 0, 5, 3), 4);
    assert_eq!(StateOps::get(s2, 1, 5, 3), 2);
    assert_eq!(StateOps::get(s2, 2, 5, 3), 3);
}

#[test]
fn packed_layout_is_shift_and_mask() {
    // base 2: one bit per digit, so digit i sits at bit i
    let s = StateOps::from_vec(&vec![1u8, 0, 1, 1], 2);
    assert_eq!(s, 0b1101);
    // base 3: two bits per digit
    let s3 = StateOps::from_vec(&vec![2u8, 1], 3);
    assert_eq!(s3, 0b01_10);
}

#[test]
fn vector_round_trip() {
    let digits = vec![3u8, 1, 4, 1, 5, 0, 2];
    let packed = StateOps::from_vec(&digits, 6);
    assert_eq!(StateOps::to_vec(packed, 6, 7), digits);

    let digits2 = vec![0u8; 5];
    let packed2 = StateOps::from_vec(&digits2, 2);
    assert_eq!(packed2, 0);
    assert_eq!(StateOps::to_vec(packed2, 2, 5), digits2);

    let digits3 = vec![255u8, 254, 0, 17];
    let packed3 = StateOps::from_vec(&digits3, 255);
    assert_eq!(StateOps::to_vec(packed3, 255, 4), digits3);
}

#[test]
fn increment_counts_in_mixed_radix_order() {
    // base 2, three digits: visits all eight configurations exactly once,
    // then reports exhaustion
    let mut seen = vec![0u128];
    let mut cur = 0u128;
    while let Some(next) = StateOps::increment(cur, 2, 3) {
        assert!(!seen.contains(&next));
        seen.push(next);
        cur = next;
    }
    assert_eq!(seen.len(), 8);
    // low digit first: 000, 100, 010, 110, ...
    assert_eq!(seen[1], StateOps::from_vec(&vec![1, 0, 0], 2));
    assert_eq!(seen[2], StateOps::from_vec(&vec![0, 1, 0], 2));
    assert_eq!(seen[7], StateOps::from_vec(&vec![1, 1, 1], 2));
}

#[test]
fn increment_mixed_base() {
    // base 3, two digits: nine configurations
    let mut count = 1;
    let mut cur = 0u128;
    while let Some(next) = StateOps::increment(cur, 3, 2) {
        count += 1;
        cur = next;
    }
    assert_eq!(count, 9);
    assert_eq!(cur, StateOps::from_vec(&vec![2, 2], 3));
}

#[test]
fn increment_single_configuration_space() {
    // base 1: the only configuration is zero and it has no successor
    assert_eq!(StateOps::increment(0, 1, 4), None);
}

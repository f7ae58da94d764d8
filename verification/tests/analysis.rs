use splash_space::analysis::{frequency_analysis, parse_analysis};

#[test]
fn frequency_counts_each_digit_value() {
    let states = vec![vec![0u8, 1, 1], vec![2, 2, 0]];
    let r = frequency_analysis(&states, 2);
    assert_eq!(r, vec![vec![1, 2, 0], vec![1, 0, 2]]);
}

#[test]
fn frequency_of_nothing() {
    let r = frequency_analysis(&vec![], 3);
    assert!(r.is_empty());
}

#[test]
fn parse_aggregates_per_value_counts() {
    let states = vec![vec![0u8, 1, 1], vec![2, 2, 0]];
    let analysis = frequency_analysis(&states, 2);
    let parsed = parse_analysis(analysis, 2, 3);
    // value 0: both configurations have exactly one zero digit
    assert_eq!(parsed[0], vec![0, 2, 0, 0]);
    // value 1: one configuration has two ones, the other none
    assert_eq!(parsed[1], vec![1, 0, 1, 0]);
    // value 2: one configuration has two twos, the other none
    assert_eq!(parsed[2], vec![1, 0, 1, 0]);
}

#[test]
fn parse_of_nothing() {
    let parsed = parse_analysis(vec![], 1, 2);
    assert_eq!(parsed, vec![vec![0, 0, 0], vec![0, 0, 0]]);
}

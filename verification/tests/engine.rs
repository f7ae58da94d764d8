use splash_space::codec::StateOps;
use splash_space::state::{CapacityError, Classification, StateData};
use splash_space::table::NeighborTable;

fn build(adj: Vec<Vec<usize>>, base: u8) -> StateData {
    let table = NeighborTable::new(adj).expect("adjacency must be well formed");
    StateData::new(table, base)
        .expect("capacity must suffice")
        .expect("graph must not be empty")
}

fn pack(digits: &[u8], base: u8) -> u128 {
    StateOps::from_vec(&digits.to_vec(), base)
}

#[test]
fn empty_graph_yields_no_space() {
    let table = NeighborTable::new(vec![]).unwrap();
    let space = StateData::new(table, 2).unwrap();
    assert!(space.is_none());
}

#[test]
fn capacity_violation_is_refused() {
    // 129 isolated vertices at base 2 need 129 bits
    let table = NeighborTable::new(vec![vec![]; 129]).unwrap();
    assert!(matches!(StateData::new(table, 2), Err(CapacityError)));
}

#[test]
fn capacity_uses_digit_width() {
    // 33 isolated vertices at base 16 need 132 bits; at base 2 only 33
    let table = NeighborTable::new(vec![vec![]; 33]).unwrap();
    assert!(matches!(StateData::new(table, 16), Err(CapacityError)));
}

#[test]
fn table_rejects_malformed_adjacency() {
    // asymmetric
    assert!(NeighborTable::new(vec![vec![1], vec![]]).is_none());
    // self loop
    assert!(NeighborTable::new(vec![vec![0]]).is_none());
    // duplicate entry
    assert!(NeighborTable::new(vec![vec![1, 1], vec![0, 0]]).is_none());
    // out of range
    assert!(NeighborTable::new(vec![vec![7]]).is_none());
}

#[test]
fn zero_configuration_is_valid() {
    for (adj, base) in [
        (vec![vec![1], vec![0, 2], vec![1]], 2u8),
        (vec![vec![]], 2u8),
        (vec![vec![], vec![]], 3u8),
    ] {
        let space = build(adj, base);
        assert!(space.get_list(Classification::Valid).contains(&0u128));
        assert_eq!(space.classification_data(0).0, Classification::Valid);
    }
}

#[test]
fn bucket_sizes_sum_to_space_size() {
    // path on 3 vertices, base 2: 2^3 configurations
    let space = build(vec![vec![1], vec![0, 2], vec![1]], 2);
    let total = space.get_list(Classification::Valid).len()
        + space.get_list(Classification::InvalidT1).len()
        + space.get_list(Classification::InvalidOther).len();
    assert_eq!(total, 8);

    // triangle, base 3: 3^3 configurations
    let space = build(vec![vec![1, 2], vec![0, 2], vec![0, 1]], 3);
    let total = space.get_list(Classification::Valid).len()
        + space.get_list(Classification::InvalidT1).len()
        + space.get_list(Classification::InvalidOther).len();
    assert_eq!(total, 27);
}

#[test]
fn every_configuration_has_one_classification_and_one_bubble() {
    let space = build(vec![vec![1], vec![0, 2], vec![1]], 2);
    let mut seen = Vec::new();
    for classification in [
        Classification::Valid,
        Classification::InvalidT1,
        Classification::InvalidOther,
    ] {
        let bucket = space.get_list(classification).clone();
        for (idx, state) in bucket.iter().enumerate() {
            // no configuration sits in two buckets
            assert!(!seen.contains(state));
            seen.push(*state);
            // the metadata points straight back at this slot
            assert_eq!(space.classification_data(*state), (classification, idx));
            // and at exactly one bubble slot
            let (bubble, slot) = space.bubble_data(*state);
            assert!(bubble < space.bubble_count());
            assert_eq!(space.bubble(bubble)[slot], *state);
        }
    }
    assert_eq!(seen.len(), 8);
    // the bubbles cover the space with no overlap
    let mut bubble_members = 0;
    for i in 0..space.bubble_count() {
        bubble_members += space.bubble(i).len();
    }
    assert_eq!(bubble_members, 8);
}

#[test]
fn splash_path_scenario() {
    // path graph 0-1-2, base 2: splashing the middle vertex upward with
    // clamping turns the zero configuration into all-ones, which is valid
    let space = build(vec![vec![1], vec![0, 2], vec![1]], 2);
    let zero = pack(&[0, 0, 0], 2);
    let all_ones = pack(&[1, 1, 1], 2);
    let landed = space.splash_state(zero, 1, 1, true).unwrap();
    assert_eq!(landed, all_ones);
    assert_eq!(space.classification_data(all_ones).0, Classification::Valid);
}

#[test]
fn splash_strict_rejects_at_bound() {
    // strict splash downward from zero cannot move any digit
    let space = build(vec![vec![1], vec![0, 2], vec![1]], 2);
    assert_eq!(space.splash_state(0, 1, -1, false), None);
    // clamping splash downward keeps zero unchanged
    assert_eq!(space.splash_state(0, 1, -1, true), Some(0));
}

#[test]
fn splash_strict_reverses() {
    // a successful strict splash is undone by the opposite one
    let space = build(vec![vec![1], vec![0, 2], vec![1]], 2);
    let zero = pack(&[0, 0, 0], 2);
    let up = space.splash_state(zero, 0, 1, false).unwrap();
    assert_eq!(up, pack(&[1, 1, 0], 2));
    let back = space.splash_state(up, 0, -1, false).unwrap();
    assert_eq!(back, zero);
}

#[test]
fn single_vertex_scenario() {
    // one isolated vertex, base 2: the two configurations splash into each
    // other strictly, forming one bubble of size two, both valid
    let space = build(vec![vec![]], 2);
    assert_eq!(space.splash_state(0, 0, 1, false), Some(1));
    assert_eq!(space.splash_state(1, 0, -1, false), Some(0));
    assert_eq!(space.classification_data(0).0, Classification::Valid);
    assert_eq!(space.classification_data(1).0, Classification::Valid);
    assert_eq!(space.bubble_count(), 1);
    assert_eq!(space.bubble(0).len(), 2);
    assert_eq!(space.bubble_data(0).0, space.bubble_data(1).0);
}

#[test]
fn two_isolated_vertices_scenario() {
    // two disconnected vertices, base 2: all four configurations are valid,
    // and strict moves connect all of them into a single bubble — the
    // component comes from the actual traversal
    let space = build(vec![vec![], vec![]], 2);
    assert_eq!(space.get_list(Classification::Valid).len(), 4);
    assert_eq!(space.get_list(Classification::InvalidT1).len(), 0);
    assert_eq!(space.get_list(Classification::InvalidOther).len(), 0);
    assert_eq!(space.bubble_count(), 1);
    assert_eq!(space.bubble(0).len(), 4);
    let b00 = space.bubble_data(pack(&[0, 0], 2)).0;
    let b11 = space.bubble_data(pack(&[1, 1], 2)).0;
    assert_eq!(b00, b11);
}

#[test]
fn singleton_bubbles_merge_into_final_bucket() {
    // one isolated vertex, base 1: the only configuration cannot move, so
    // it lands alone in the shared singleton bucket
    let space = build(vec![vec![]], 1);
    assert_eq!(space.bubble_count(), 1);
    assert_eq!(space.bubble(0), &vec![0u128]);
    assert_eq!(space.bubble_data(0), (0, 0));
}

#[test]
fn set_packed_and_parse_state() {
    let space = build(vec![vec![1], vec![0, 2], vec![1]], 2);
    let s = space.set_packed(0, 1, 1);
    assert_eq!(space.parse_state(s), vec![0, 1, 0]);
    let s2 = space.set_packed(s, 2, 1);
    assert_eq!(space.parse_state(s2), vec![0, 1, 1]);
    assert_eq!(space.length(), 3);
    assert_eq!(space.base(), 2);
}

#[test]
fn is_state_checks_digits_and_width() {
    let space = build(vec![vec![1], vec![0, 2], vec![1]], 2);
    assert!(space.is_state(0));
    assert!(space.is_state(0b111));
    assert!(!space.is_state(0b1000));
    let space3 = build(vec![vec![]], 3);
    assert!(space3.is_state(2));
    assert!(!space3.is_state(3));
}

#[test]
fn invalid_classification_on_cycle() {
    // a 4-cycle at base 2 has unreachable configurations; every
    // configuration still lands in exactly one bucket and the sizes add up
    let space = build(
        vec![vec![1, 3], vec![0, 2], vec![1, 3], vec![0, 2]],
        2,
    );
    let v = space.get_list(Classification::Valid).len();
    let t1 = space.get_list(Classification::InvalidT1).len();
    let other = space.get_list(Classification::InvalidOther).len();
    assert_eq!(v + t1 + other, 16);
    assert!(v >= 1);
    for state in space.get_list(Classification::InvalidT1).clone() {
        assert_eq!(
            space.classification_data(state).0,
            Classification::InvalidT1
        );
    }
}

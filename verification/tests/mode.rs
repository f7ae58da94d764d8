use splash_space::mode::{Analyze, Blueprint, Bubbles, Drag, Play};
use splash_space::state::{Classification, StateData};
use splash_space::table::NeighborTable;

fn space() -> StateData {
    let table = NeighborTable::new(vec![vec![1], vec![0, 2], vec![1]]).unwrap();
    StateData::new(table, 2).unwrap().unwrap()
}

#[test]
fn fresh_modes() {
    assert!(Play::create().reversible_only);
    assert!(Drag::create().selected.is_none());
    let blueprint = Blueprint::create();
    assert!(blueprint.selected.is_none());
    assert_eq!(blueprint.action_cd, 0);
    assert_eq!(blueprint.load_n, 1);
}

#[test]
fn blueprint_tick_counts_down() {
    let mut blueprint = Blueprint::create();
    blueprint.action_cd = 2;
    blueprint.tick();
    assert_eq!(blueprint.action_cd, 1);
    blueprint.tick();
    assert_eq!(blueprint.action_cd, 0);
    blueprint.tick();
    assert_eq!(blueprint.action_cd, 0);
}

#[test]
fn analyze_create_without_space() {
    let analyze = Analyze::create(None, 0);
    assert_eq!(analyze.viewing_type, 3);
    assert_eq!(analyze.viewing, 1);
    assert_eq!(analyze.viewing_length, 0);
    assert!(analyze.parsed_analysis.is_empty());
}

#[test]
fn analyze_create_selects_loaded_configuration() {
    let data = space();
    let analyze = Analyze::create(Some(&data), 0);
    assert_eq!(analyze.viewing_type, 0);
    assert_eq!(
        data.get_list(Classification::Valid)[analyze.viewing - 1],
        0
    );
}

#[test]
fn analyze_arrows_cycle() {
    let mut analyze = Analyze::create(None, 0);
    analyze.viewing_length = 3;
    analyze.viewing = 3;
    analyze.step(false, false, false, true);
    assert_eq!(analyze.viewing, 1);
    analyze.step(false, false, true, false);
    assert_eq!(analyze.viewing, 3);
    // the view selector wraps over its four entries
    assert_eq!(analyze.viewing_type, 3);
    analyze.step(false, true, false, false);
    assert_eq!(analyze.viewing_type, 0);
    analyze.step(true, false, false, false);
    assert_eq!(analyze.viewing_type, 3);
}

#[test]
fn bubbles_create_and_assign() {
    let data = space();
    let mut bubbles = Bubbles::create(Some(&data), 0);
    assert_eq!(bubbles.bubble_length, data.bubble_count());
    let (bubble_idx, state_idx) = data.bubble_data(0);
    assert_eq!(bubbles.bubble, bubble_idx + 1);
    assert_eq!(bubbles.state, state_idx + 1);
    assert_eq!(bubbles.state_length, data.bubble(bubble_idx).len());

    let other = data.get_list(Classification::Valid)[1];
    bubbles.assign_self(Some(&data), other);
    let (bubble_idx2, state_idx2) = data.bubble_data(other);
    assert_eq!(bubbles.bubble, bubble_idx2 + 1);
    assert_eq!(bubbles.state, state_idx2 + 1);

    bubbles.assign_self(None, 0);
    assert_eq!(bubbles.bubble, 1);
    assert_eq!(bubbles.state, 1);
    assert_eq!(bubbles.state_length, 0);
}

#[test]
fn bubbles_arrows_cycle() {
    let mut bubbles = Bubbles::create(None, 0);
    bubbles.bubble_length = 2;
    bubbles.state_length = 4;
    bubbles.state = 4;
    bubbles.step(false, false, false, true);
    assert_eq!(bubbles.state, 1);
    bubbles.step(false, false, true, false);
    assert_eq!(bubbles.state, 4);
    bubbles.step(true, false, false, false);
    assert_eq!(bubbles.bubble, 2);
    bubbles.step(false, true, false, false);
    assert_eq!(bubbles.bubble, 1);
}

use lib::state::State;
use lib::state::StateId;

#[test]
fn new_creates_zero_vector() {
    let state = State::new(3, 1);
    assert_eq!(state.edit_distance, vec![0, 0, 0, 0]);
    assert_eq!(state.diffs_allowed, 1);
}

#[test]
fn mod_new_empty_pattern() {
    let state = State::new(0, 2);
    assert_eq!(state.edit_distance, vec![0]);
}

#[test]
fn initial_state_values() {
    let state = State::initial_state(5, 2);
    assert_eq!(state.edit_distance, vec![0, 1, 2, 3, 3, 3]);
}

#[test]
fn initial_state_small_pattern() {
    let state = State::initial_state(2, 5);
    assert_eq!(state.edit_distance, vec![0, 1, 2]);
}

#[test]
fn initial_state_zero_diffs() {
    let state = State::initial_state(3, 0);
    assert_eq!(state.edit_distance, vec![0, 1, 1, 1]);
}

#[test]
fn initial_state_empty_pattern() {
    let state = State::initial_state(0, 2);
    assert_eq!(state.edit_distance, vec![0]);
}

#[test]
fn get_state_id_returns_some() {
    let state = State::initial_state(3, 1);
    assert!(state.get_state_id().is_some());
}

#[test]
fn get_state_id_unique_for_different_states() {
    let s1 = State::initial_state(3, 2);
    let s2 = s1.on_new_char("abc", 'a');
    let id1 = s1.get_state_id().unwrap();
    let id2 = s2.get_state_id().unwrap();
    assert!(id1 != id2);
}

#[test]
fn get_state_id_same_for_equal_states() {
    let s1 = State::initial_state(3, 2);
    let s2 = State::initial_state(3, 2);
    assert!(s1.get_state_id().unwrap() == s2.get_state_id().unwrap());
}

#[test]
fn get_state_id_zero_diffs() {
    let state = State::initial_state(2, 0);
    assert!(state.get_state_id().is_some());
}

#[test]
fn on_new_char_matching_first_char() {
    let state = State::initial_state(3, 1);
    let next = state.on_new_char("abc", 'a');
    assert_eq!(next.edit_distance[0], 1);
    assert_eq!(next.edit_distance[1], 0);
}

#[test]
fn on_new_char_no_match() {
    let state = State::initial_state(3, 1);
    let next = state.on_new_char("abc", 'z');
    assert_eq!(next.edit_distance[0], 1);
    assert!(next.edit_distance[1] >= 1);
}

#[test]
fn on_new_char_preserves_diffs_allowed() {
    let state = State::initial_state(3, 2);
    let next = state.on_new_char("abc", 'x');
    assert_eq!(next.diffs_allowed, 2);
}

#[test]
fn on_new_char_vector_length() {
    let state = State::initial_state(4, 1);
    let next = state.on_new_char("abcd", 'a');
    assert_eq!(next.edit_distance.len(), 5);
}

#[test]
fn on_new_char_sequence_builds_exact_match() {
    let state = State::initial_state(3, 0);
    let s1 = state.on_new_char("abc", 'a');
    let s2 = s1.on_new_char("abc", 'b');
    let s3 = s2.on_new_char("abc", 'c');
    assert!(s3.is_accepting());
}

#[test]
fn on_new_char_sequence_wrong_chars_not_accepting() {
    let state = State::initial_state(3, 0);
    let s1 = state.on_new_char("abc", 'x');
    let s2 = s1.on_new_char("abc", 'y');
    let s3 = s2.on_new_char("abc", 'z');
    assert!(!s3.is_accepting());
}

#[test]
fn is_accepting_exact_match() {
    let state = State { edit_distance: vec![1, 0], diffs_allowed: 1 };
    assert!(state.is_accepting());
}

#[test]
fn is_accepting_at_threshold() {
    let state = State { edit_distance: vec![0, 1, 2], diffs_allowed: 2 };
    assert!(state.is_accepting());
}

#[test]
fn is_accepting_over_threshold() {
    let state = State { edit_distance: vec![0, 1, 3], diffs_allowed: 2 };
    assert!(!state.is_accepting());
}

#[test]
fn is_accepting_zero_diffs_exact() {
    let state = State { edit_distance: vec![0, 0], diffs_allowed: 0 };
    assert!(state.is_accepting());
}

#[test]
fn is_accepting_zero_diffs_nonzero() {
    let state = State { edit_distance: vec![0, 1], diffs_allowed: 0 };
    assert!(!state.is_accepting());
}

#[test]
fn initial_state_empty_pattern_is_accepting() {
    let state = State::initial_state(0, 2);
    assert!(state.is_accepting());
}

#[test]
fn state_id_equality() {
    let a = StateId(42);
    let b = StateId(42);
    let c = StateId(99);
    assert!(a == b);
    assert!(a != c);
}

#[test]
fn state_id_copy() {
    let a = StateId(10);
    let b = a;
    assert!(a == b);
}

#[test]
fn is_dead_state_all_over_threshold() {
    let state = State { edit_distance: vec![3, 3, 3], diffs_allowed: 2 };
    assert!(state.is_dead_state());
}

#[test]
fn is_dead_state_all_at_threshold() {
    let state = State { edit_distance: vec![2, 2, 2], diffs_allowed: 2 };
    assert!(!state.is_dead_state());
}

#[test]
fn is_dead_state_one_below_threshold() {
    let state = State { edit_distance: vec![3, 1, 3], diffs_allowed: 2 };
    assert!(!state.is_dead_state());
}

#[test]
fn is_dead_state_all_zero() {
    let state = State { edit_distance: vec![0, 0, 0], diffs_allowed: 0 };
    assert!(!state.is_dead_state());
}

#[test]
fn is_dead_state_zero_diffs_all_one() {
    let state = State { edit_distance: vec![1, 1, 1], diffs_allowed: 0 };
    assert!(state.is_dead_state());
}

#[test]
fn is_dead_state_mixed_values() {
    let state = State { edit_distance: vec![3, 3, 2], diffs_allowed: 1 };
    assert!(state.is_dead_state());
}

#[test]
fn is_dead_state_single_element_dead() {
    let state = State { edit_distance: vec![2], diffs_allowed: 0 };
    assert!(state.is_dead_state());
}

#[test]
fn is_dead_state_single_element_alive() {
    let state = State { edit_distance: vec![0], diffs_allowed: 0 };
    assert!(!state.is_dead_state());
}

#[test]
fn is_dead_state_after_many_wrong_chars() {
    let state = State::initial_state(3, 1);
    let s1 = state.on_new_char("abc", 'x');
    let s2 = s1.on_new_char("abc", 'y');
    let s3 = s2.on_new_char("abc", 'z');
    assert!(s3.is_dead_state());
}

#[test]
fn is_dead_state_initial_state_is_not_dead() {
    let state = State::initial_state(3, 2);
    assert!(!state.is_dead_state());
}

#[test]
fn is_dead_state_accepting_state_is_not_dead() {
    let state = State { edit_distance: vec![1, 0], diffs_allowed: 1 };
    assert!(!state.is_dead_state());
}

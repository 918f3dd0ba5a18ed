use lib::automaton::LevenshteinAutomaton;

fn ascii_alphabet() -> Vec<char> {
    ('a'..='z').collect()
}

#[test]
fn new_returns_some_for_valid_input() {
    let automaton = LevenshteinAutomaton::new("abc", 1, ascii_alphabet());
    assert!(automaton.is_some());
}

#[test]
fn new_empty_pattern() {
    let automaton = LevenshteinAutomaton::new("", 2, ascii_alphabet());
    assert!(automaton.is_some());
}

#[test]
fn new_zero_diffs() {
    let automaton = LevenshteinAutomaton::new("hello", 0, ascii_alphabet());
    assert!(automaton.is_some());
}

#[test]
fn match_exact_word() {
    let automaton = LevenshteinAutomaton::new("abc", 1, ascii_alphabet()).unwrap();
    assert!(automaton.match_word("abc"));
}

#[test]
fn match_exact_zero_diffs() {
    let automaton = LevenshteinAutomaton::new("hello", 0, ascii_alphabet()).unwrap();
    assert!(automaton.match_word("hello"));
}

#[test]
fn no_match_zero_diffs() {
    let automaton = LevenshteinAutomaton::new("hello", 0, ascii_alphabet()).unwrap();
    assert!(!automaton.match_word("hallo"));
}

#[test]
fn match_one_substitution() {
    let automaton = LevenshteinAutomaton::new("abc", 1, ascii_alphabet()).unwrap();
    assert!(automaton.match_word("axc"));
}

#[test]
fn match_one_insertion() {
    let automaton = LevenshteinAutomaton::new("abc", 1, ascii_alphabet()).unwrap();
    assert!(automaton.match_word("abbc"));
}

#[test]
fn match_one_deletion() {
    let automaton = LevenshteinAutomaton::new("abc", 1, ascii_alphabet()).unwrap();
    assert!(automaton.match_word("ac"));
}

#[test]
fn no_match_two_edits_with_one_allowed() {
    let automaton = LevenshteinAutomaton::new("abc", 1, ascii_alphabet()).unwrap();
    assert!(!automaton.match_word("axx"));
}

#[test]
fn match_two_edits_with_two_allowed() {
    let automaton = LevenshteinAutomaton::new("abc", 2, ascii_alphabet()).unwrap();
    assert!(automaton.match_word("axx"));
}

#[test]
fn match_empty_pattern_empty_word() {
    let automaton = LevenshteinAutomaton::new("", 0, ascii_alphabet()).unwrap();
    assert!(automaton.match_word(""));
}

#[test]
fn match_empty_pattern_short_word() {
    let automaton = LevenshteinAutomaton::new("", 2, ascii_alphabet()).unwrap();
    assert!(automaton.match_word("ab"));
}

#[test]
fn no_match_empty_pattern_long_word() {
    let automaton: LevenshteinAutomaton = LevenshteinAutomaton::new("", 1, ascii_alphabet()).unwrap();
    assert!(!automaton.match_word("ab"));
}

#[test]
fn match_empty_word_short_pattern() {
    let automaton = LevenshteinAutomaton::new("ab", 2, ascii_alphabet()).unwrap();
    assert!(automaton.match_word(""));
}

#[test]
fn no_match_empty_word_long_pattern() {
    let automaton = LevenshteinAutomaton::new("abc", 2, ascii_alphabet()).unwrap();
    assert!(!automaton.match_word(""));
}

#[test]
fn match_completely_different_within_threshold() {
    let automaton = LevenshteinAutomaton::new("ab", 2, ascii_alphabet()).unwrap();
    assert!(automaton.match_word("cd"));
}

#[test]
fn no_match_completely_different_over_threshold() {
    let automaton = LevenshteinAutomaton::new("abc", 2, ascii_alphabet()).unwrap();
    assert!(!automaton.match_word("xyz"));
}

#[test]
fn match_single_char_pattern() {
    let automaton = LevenshteinAutomaton::new("a", 1, ascii_alphabet()).unwrap();
    assert!(automaton.match_word("a"));
    assert!(automaton.match_word("b"));
    assert!(automaton.match_word(""));
    assert!(!automaton.match_word("bc"));
}

#[test]
fn match_word_not_in_alphabet_returns_false() {
    let automaton = LevenshteinAutomaton::new("abc", 1, vec!['a', 'b', 'c']).unwrap();
    assert!(!automaton.match_word("axc"));
}

#[test]
fn match_prefix_deletion() {
    let automaton = LevenshteinAutomaton::new("abc", 1, ascii_alphabet()).unwrap();
    assert!(automaton.match_word("bc"));
}

#[test]
fn match_suffix_deletion() {
    let automaton = LevenshteinAutomaton::new("abc", 1, ascii_alphabet()).unwrap();
    assert!(automaton.match_word("ab"));
}

#[test]
fn no_match_too_long() {
    let automaton = LevenshteinAutomaton::new("abc", 1, ascii_alphabet()).unwrap();
    assert!(!automaton.match_word("abcde"));
}

#[test]
fn no_match_too_short() {
    let automaton = LevenshteinAutomaton::new("abcde", 1, ascii_alphabet()).unwrap();
    assert!(!automaton.match_word("abc"));
}

#[test]
fn match_same_length_multiple_edits() {
    let automaton = LevenshteinAutomaton::new("kitten", 3, ascii_alphabet()).unwrap();
    assert!(automaton.match_word("sitting"));
}

#[test]
fn dead_states_are_detected() {
    let automaton = LevenshteinAutomaton::new("abc", 1, ascii_alphabet()).unwrap();
    assert!(!automaton.dead_states.is_empty());
}

#[test]
fn dead_states_have_no_outgoing_transitions_queued() {
    let automaton = LevenshteinAutomaton::new("abc", 0, ascii_alphabet()).unwrap();
    for dead_id in &automaton.dead_states {
        assert!(!automaton.transitions.contains_key(dead_id));
    }
}

#[test]
fn dead_states_are_not_accepting() {
    let automaton = LevenshteinAutomaton::new("abc", 1, ascii_alphabet()).unwrap();
    for dead_id in &automaton.dead_states {
        let state = automaton.state_id_to_state.get(dead_id).unwrap();
        assert!(!state.is_accepting());
    }
}

#[test]
fn dead_state_optimization_reduces_state_count() {
    let automaton = LevenshteinAutomaton::new("abc", 1, ascii_alphabet()).unwrap();
    let total_states = automaton.state_id_to_state.len();
    let states_with_transitions = automaton.transitions.len();
    assert!(states_with_transitions < total_states);
}

#[test]
fn match_still_works_through_dead_states() {
    let automaton = LevenshteinAutomaton::new("abc", 1, ascii_alphabet()).unwrap();
    assert!(automaton.match_word("abc"));
    assert!(automaton.match_word("axc"));
    assert!(automaton.match_word("ac"));
    assert!(!automaton.match_word("xyz"));
    assert!(!automaton.match_word("axx"));
}

#[test]
fn zero_diffs_has_dead_states() {
    let automaton = LevenshteinAutomaton::new("hello", 0, ascii_alphabet()).unwrap();
    assert!(!automaton.dead_states.is_empty());
}

#[test]
fn init_state_is_not_dead() {
    let automaton = LevenshteinAutomaton::new("abc", 1, ascii_alphabet()).unwrap();
    assert!(!automaton.dead_states.contains(&automaton.init_state.0));
}

#[test]
fn large_diffs_has_fewer_dead_states() {
    let a1 = LevenshteinAutomaton::new("abc", 1, ascii_alphabet()).unwrap();
    let a2 = LevenshteinAutomaton::new("abc", 2, ascii_alphabet()).unwrap();
    assert!(a1.dead_states.len() >= a2.dead_states.len());
}

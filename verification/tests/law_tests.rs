use lib::automaton::LevenshteinAutomaton;
use lib::matcher::Matcher;
use lib::state::State;
use lib::state::StateId;
use lib::utilities::TrieNode;
use std::collections::HashSet;

fn ascii_alphabet() -> Vec<char> {
    ('a'..='z').collect()
}

/// Plain dynamic-programming edit distance, used as an independent reference.
fn reference_distance(a: &str, b: &str) -> usize {
    let a: Vec<char> = a.chars().collect();
    let b: Vec<char> = b.chars().collect();
    let mut prev: Vec<usize> = (0..=b.len()).collect();
    for i in 1..=a.len() {
        let mut cur = vec![i; b.len() + 1];
        for j in 1..=b.len() {
            let sub = prev[j - 1] + if a[i - 1] == b[j - 1] { 0 } else { 1 };
            cur[j] = sub.min(prev[j] + 1).min(cur[j - 1] + 1);
        }
        prev = cur;
    }
    prev[b.len()]
}

fn all_words(alphabet: &[char], max_len: usize) -> Vec<String> {
    let mut words = vec![String::new()];
    let mut frontier = vec![String::new()];
    for _ in 0..max_len {
        let mut next = Vec::new();
        for w in &frontier {
            for c in alphabet {
                let mut x = w.clone();
                x.push(*c);
                next.push(x);
            }
        }
        words.extend(next.iter().cloned());
        frontier = next;
    }
    words
}

#[test]
fn match_word_agrees_with_edit_distance_everywhere() {
    let alphabet = vec!['a', 'b', 'c'];
    for pattern in ["", "a", "ab", "abc", "cab", "aabb"] {
        for k in 0..3 {
            let automaton = LevenshteinAutomaton::new(pattern, k, alphabet.clone()).unwrap();
            for w in all_words(&alphabet, 5) {
                assert_eq!(automaton.match_word(&w), reference_distance(&w, pattern) <= k, "{} {} {}", pattern, k, w);
            }
        }
    }
}

#[test]
fn match_word_rejects_characters_outside_alphabet() {
    let automaton = LevenshteinAutomaton::new("abc", 2, vec!['a', 'b', 'c']).unwrap();
    assert!(automaton.match_word("abcc"));
    assert!(!automaton.match_word("abcd"));
    assert!(!automaton.match_word("dabc"));
}

#[test]
fn pattern_matches_itself_with_no_edits() {
    for pattern in ["kitten", "a", "", "zzz"] {
        let automaton = LevenshteinAutomaton::new(pattern, 0, ascii_alphabet()).unwrap();
        assert!(automaton.match_word(pattern));
    }
}

#[test]
fn empty_word_is_pattern_length_away() {
    let automaton = LevenshteinAutomaton::new("abcd", 3, ascii_alphabet()).unwrap();
    assert!(!automaton.match_word(""));
    let automaton = LevenshteinAutomaton::new("abcd", 4, ascii_alphabet()).unwrap();
    assert!(automaton.match_word(""));
}

#[test]
fn new_fails_when_state_ids_overflow() {
    let long = "a".repeat(70);
    assert!(LevenshteinAutomaton::new(&long, 1, ascii_alphabet()).is_none());
    let short = "a".repeat(20);
    assert!(LevenshteinAutomaton::new(&short, 1, ascii_alphabet()).is_some());
}

#[test]
fn empty_alphabet_has_no_transitions() {
    let automaton = LevenshteinAutomaton::new("ab", 2, vec![]).unwrap();
    assert!(automaton.transitions.is_empty());
    assert!(automaton.match_word(""));
    assert!(!automaton.match_word("a"));
}

#[test]
fn every_recorded_state_id_names_its_state() {
    let automaton = LevenshteinAutomaton::new("hello", 2, ascii_alphabet()).unwrap();
    for (id, state) in &automaton.state_id_to_state {
        assert_eq!(state.get_state_id().unwrap().0, *id);
        assert_eq!(state.diffs_allowed, 2);
        assert_eq!(automaton.dead_states.contains(id), state.is_dead_state());
        assert_eq!(automaton.transitions.contains_key(id), !state.is_dead_state());
    }
}

#[test]
fn initial_state_is_distance_row_of_empty_word() {
    let state = State::initial_state(4, 1);
    assert_eq!(state.edit_distance, vec![0, 1, 2, 2, 2]);
}

#[test]
fn on_new_char_computes_clamped_distance_rows() {
    let pattern = "kitten";
    let k = 3;
    for word in ["sitting", "kit", "mitten", "xyz", ""] {
        let mut state = State::initial_state(6, k);
        for c in word.chars() {
            state = state.on_new_char(pattern, c);
        }
        for i in 0..=6 {
            let prefix: String = pattern.chars().take(i).collect();
            assert_eq!(state.edit_distance[i], reference_distance(word, &prefix).min(k + 1));
        }
    }
}

#[test]
fn state_id_is_base_digits() {
    let state = State { edit_distance: vec![1, 0, 2], diffs_allowed: 1 };
    assert!(state.get_state_id() == Some(StateId(19)));
    let empty = State { edit_distance: vec![], diffs_allowed: 5 };
    assert!(empty.get_state_id() == Some(StateId(0)));
}

#[test]
fn state_id_overflow_gives_none() {
    let state = State { edit_distance: vec![0; 70], diffs_allowed: 1 };
    assert!(state.get_state_id().is_none());
    let sum_too_large = State { edit_distance: vec![2, 1], diffs_allowed: usize::MAX - 2 };
    assert!(sum_too_large.get_state_id().is_none());
}

#[test]
fn state_id_may_reach_usize_max() {
    let largest_digit = State { edit_distance: vec![usize::MAX], diffs_allowed: 1 };
    assert!(largest_digit.get_state_id() == Some(StateId(usize::MAX)));
    let largest_sum = State { edit_distance: vec![0, 1], diffs_allowed: usize::MAX - 2 };
    assert!(largest_sum.get_state_id() == Some(StateId(usize::MAX)));
}

#[test]
fn new_succeeds_when_every_id_fits() {
    if usize::BITS == 64 {
        let pattern = "a".repeat(63);
        let automaton = LevenshteinAutomaton::new(&pattern, 0, ascii_alphabet()).unwrap();
        assert!(automaton.match_word(&pattern));
        assert!(!automaton.match_word(&"a".repeat(62)));
    }
}

#[test]
fn distinct_states_get_distinct_ids() {
    let mut seen = HashSet::new();
    for a in 0..3 {
        for b in 0..3 {
            for c in 0..3 {
                let state = State { edit_distance: vec![a, b, c], diffs_allowed: 1 };
                assert!(seen.insert(state.get_state_id().unwrap().0));
            }
        }
    }
}

#[test]
fn dead_state_stays_dead() {
    let dead = State { edit_distance: vec![2, 2, 2], diffs_allowed: 1 };
    assert!(dead.is_dead_state());
    assert!(!dead.is_accepting());
    let next = dead.on_new_char("ab", 'a');
    assert_eq!(next.edit_distance, vec![2, 2, 2]);
    let next = dead.on_new_char("ab", 'z');
    assert_eq!(next.edit_distance, vec![2, 2, 2]);
}

#[test]
fn empty_state_is_dead() {
    let state = State { edit_distance: vec![], diffs_allowed: 0 };
    assert!(state.is_dead_state());
}

#[test]
fn new_state_has_zero_distances() {
    let state = State::new(2, 7);
    assert_eq!(state.edit_distance, vec![0, 0, 0]);
    assert_eq!(state.diffs_allowed, 7);
}

#[test]
fn adding_a_word_keeps_other_words() {
    let mut trie = TrieNode::new();
    trie.add_new_word("card");
    trie.add_new_word("cat");
    assert!(!trie.does_word_exist("car"));
    trie.add_new_word("car");
    assert!(trie.does_word_exist("car"));
    assert!(trie.does_word_exist("card"));
    assert!(trie.does_word_exist("cat"));
    assert!(!trie.does_word_exist("ca"));
}

#[test]
fn stored_word_sits_at_its_path() {
    let mut trie = TrieNode::new();
    assert!(trie.add_new_word("ab"));
    let a = trie.get_next_node('a').unwrap();
    assert!(a.word.is_none());
    let b = a.get_next_node('b').unwrap();
    assert_eq!(b.word, Some("ab".to_string()));
    assert!(b.get_next_node('c').is_none());
}

#[test]
fn matcher_finds_words_within_distance() {
    let dictionary = vec![
        "cat".to_string(), "car".to_string(), "card".to_string(),
        "bat".to_string(), "hat".to_string(), "dog".to_string(),
    ];
    let matcher = Matcher::new(&dictionary).unwrap();
    let results: HashSet<String> = matcher.match_pattern("cat", 1).unwrap().into_iter().collect();
    let expected: HashSet<String> = ["cat", "car", "bat", "hat"].iter().map(|s| s.to_string()).collect();
    assert_eq!(results, expected);
    assert_eq!(matcher.match_pattern("dog", 0).unwrap(), vec!["dog".to_string()]);
}

#[test]
fn matcher_returns_none_without_matches() {
    let dictionary = vec!["cat".to_string(), "dog".to_string()];
    let matcher = Matcher::new(&dictionary).unwrap();
    assert!(matcher.match_pattern("zzzzz", 1).is_none());
    let empty = Matcher::new(&vec![]).unwrap();
    assert!(empty.match_pattern("cat", 3).is_none());
}

#[test]
fn matcher_lists_each_word_once() {
    let dictionary = vec!["cat".to_string(), "cat".to_string(), "cot".to_string()];
    let matcher = Matcher::new(&dictionary).unwrap();
    let mut results = matcher.match_pattern("cat", 1).unwrap();
    results.sort();
    assert_eq!(results, vec!["cat".to_string(), "cot".to_string()]);
}

#[test]
fn matcher_agrees_with_edit_distance() {
    let words = all_words(&['a', 'b'], 4);
    let matcher = Matcher::new(&words).unwrap();
    for pattern in ["ab", "bba", ""] {
        for k in 0..3 {
            let got: HashSet<String> = matcher.match_pattern(pattern, k).unwrap_or_default().into_iter().collect();
            let expected: HashSet<String> = words.iter().filter(|w| reference_distance(w, pattern) <= k).cloned().collect();
            assert_eq!(got, expected);
        }
    }
}

#[test]
fn matching_is_symmetric() {
    let alphabet = vec!['a', 'b', 'c'];
    let words = all_words(&alphabet, 3);
    for p in ["ab", "cab", ""] {
        for w in &words {
            let ap = LevenshteinAutomaton::new(p, 1, alphabet.clone()).unwrap();
            let aw = LevenshteinAutomaton::new(w, 1, alphabet.clone()).unwrap();
            assert_eq!(ap.match_word(w), aw.match_word(p));
        }
    }
}

#[test]
fn folding_the_recurrence_agrees_with_matching() {
    let automaton = LevenshteinAutomaton::new("kitten", 2, ascii_alphabet()).unwrap();
    for word in ["sitting", "kitten", "mitten", "kit", "kittens", ""] {
        let state = word.chars().fold(State::initial_state(6, 2), |s, c| s.on_new_char("kitten", c));
        assert_eq!(state.is_accepting(), automaton.match_word(word));
    }
}

#[test]
fn exactly_one_dead_state_with_nonempty_alphabet() {
    for (pattern, k) in [("abc", 0), ("abc", 1), ("abc", 2), ("hello", 0)] {
        let automaton = LevenshteinAutomaton::new(pattern, k, ascii_alphabet()).unwrap();
        assert_eq!(automaton.dead_states.len(), 1);
        assert!(automaton.transitions.len() < automaton.state_id_to_state.len());
        let m = pattern.chars().count() as u32;
        assert!(automaton.state_id_to_state.len() <= (k + 2).pow(m + 1));
    }
    let empty = LevenshteinAutomaton::new("abc", 1, vec![]).unwrap();
    assert!(empty.dead_states.is_empty());
    assert_eq!(empty.state_id_to_state.len(), 1);
}

#[test]
fn every_state_is_reached_through_transitions() {
    let automaton = LevenshteinAutomaton::new("abc", 1, vec!['a', 'b', 'c', 'x']).unwrap();
    let mut seen = HashSet::new();
    let mut stack = vec![automaton.init_state.0];
    while let Some(x) = stack.pop() {
        if seen.insert(x) {
            if let Some(moves) = automaton.transitions.get(&x) {
                for next in moves.values() {
                    stack.push(*next);
                }
            }
        }
    }
    let all: HashSet<usize> = automaton.state_id_to_state.keys().cloned().collect();
    assert_eq!(seen, all);
}

#[test]
fn rows_have_bounded_neighbours_and_step_is_monotone() {
    let automaton = LevenshteinAutomaton::new("banana", 2, vec!['a', 'b', 'n']).unwrap();
    for state in automaton.state_id_to_state.values() {
        let v = &state.edit_distance;
        for i in 0..v.len() {
            assert!(v[i] <= 3);
            if i + 1 < v.len() {
                assert!(v[i + 1] <= v[i] + 1 && v[i] <= v[i + 1] + 1);
            }
        }
        let dead = state.is_dead_state();
        assert_eq!(dead, v.iter().all(|x| *x == 3));
    }
    let low = State { edit_distance: vec![0, 1, 1, 2], diffs_allowed: 2 };
    let high = State { edit_distance: vec![1, 1, 2, 3], diffs_allowed: 2 };
    for c in ['a', 'b', 'z'] {
        let l = low.on_new_char("abc", c);
        let h = high.on_new_char("abc", c);
        for i in 0..4 {
            assert!(l.edit_distance[i] <= h.edit_distance[i]);
        }
    }
}

#[test]
fn trie_built_from_words_answers_queries() {
    let words = ["tea", "ten", "to", "inn"];
    let mut trie = TrieNode::new();
    for w in words {
        trie.add_new_word(w);
    }
    for w in words {
        assert!(trie.does_word_exist(w));
    }
    for q in ["t", "te", "i", "in", "tent", "x", ""] {
        assert!(!trie.does_word_exist(q));
    }
    assert!(trie.get_next_node('t').is_some());
    assert!(trie.get_next_node('i').is_some());
    assert!(trie.get_next_node('e').is_none());
    let copy = trie.clone();
    for q in ["tea", "ten", "to", "inn", "te", "in"] {
        assert_eq!(copy.does_word_exist(q), trie.does_word_exist(q));
    }
}

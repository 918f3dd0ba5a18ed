use vstd::prelude::*;
use crate::automaton::LevenshteinAutomaton;
use crate::automaton::in_alphabet;
use crate::automaton::all_ids_fit;
use crate::distance::levenshtein;
use crate::distance::is_row;
use crate::distance::dead_word;
use crate::distance::lemma_step_of_row;
use crate::distance::lemma_dead_prefix;
use crate::state::is_dead_row;
use crate::state::accepts_row;
use crate::utilities::TrieNode;
use crate::utilities::lookup;
use crate::utilities::holds_word;
use crate::utilities::lemma_char_code_injective;
use crate::utilities::inserted;
use crate::utilities::lemma_added_word_exists;
use crate::utilities::lemma_add_keeps_other_words;
use crate::utilities::word_view;
use crate::distance::clamp;
use vstd::seq_lib::lemma_no_dup_in_concat;
use vstd::std_specs::hash::spec_hash_map_iter;
use vstd::std_specs::iter::IteratorSpec;

verus! {

broadcast use vstd::std_specs::hash::group_hash_axioms;

/// The texts of a sequence of strings.
pub open spec fn views(v: Seq<String>) -> Seq<Seq<char>> {
    v.map_values(|s: String| s@)
}

/// `word` is written over `alphabet` and is within `k` edits of `pattern`.
pub open spec fn near(word: Seq<char>, pattern: Seq<char>, alphabet: Seq<char>, k: nat) -> bool {
    in_alphabet(word, alphabet) && levenshtein(word, pattern) <= k
}

/// Every word held below `node` is the path that leads to it, `path` being
/// the path that leads to `node`.
pub open spec fn words_on_paths(node: TrieNode, path: Seq<char>) -> bool {
    forall|q: Seq<char>| #[trigger] lookup(node, q) matches Some(Some(s)) ==> s == path + q
}

/// `s` is held below `node`, at a path `q` such that `path + q` is near the pattern.
pub open spec fn in_subtree(node: TrieNode, path: Seq<char>, s: Seq<char>, pattern: Seq<char>, alphabet: Seq<char>, k: nat) -> bool {
    exists|q: Seq<char>| #[trigger] lookup(node, q) == Some(Some(s)) && near(path + q, pattern, alphabet, k)
}

/// `s` is held below the child of `node` keyed by `code`, at a path near the pattern.
pub open spec fn in_child(node: TrieNode, path: Seq<char>, code: u32, s: Seq<char>, pattern: Seq<char>, alphabet: Seq<char>, k: nat) -> bool {
    exists|q: Seq<char>|
        q.len() > 0 && q[0] as u32 == code && #[trigger] lookup(node, q) == Some(Some(s)) && near(path + q, pattern, alphabet, k)
}

proof fn lemma_concat_contains(x: Seq<Seq<char>>, y: Seq<Seq<char>>, s: Seq<char>)
    ensures
        (x + y).contains(s) <==> (x.contains(s) || y.contains(s)),
{
    if (x + y).contains(s) {
        let i = choose|i: int| 0 <= i < (x + y).len() && (x + y)[i] == s;
        if i < x.len() {
            assert(x[i] == s);
        } else {
            assert(y[i - x.len()] == s);
        }
    }
    if x.contains(s) {
        let i = choose|i: int| 0 <= i < x.len() && x[i] == s;
        assert((x + y)[i] == s);
    }
    if y.contains(s) {
        let i = choose|i: int| 0 <= i < y.len() && y[i] == s;
        assert((x + y)[x.len() + i] == s);
    }
}

/// `s` is held by `node` itself, or below one of the first `n` children listed in `keys`.
pub open spec fn covered(
    node: TrieNode,
    path: Seq<char>,
    keys: Seq<(&u32, &TrieNode)>,
    n: int,
    s: Seq<char>,
    pattern: Seq<char>,
    alphabet: Seq<char>,
    k: nat,
) -> bool {
    own_word(node, path, s, pattern, alphabet, k) || exists|i: int|
        0 <= i < n && #[trigger] in_child(node, path, *keys[i].0, s, pattern, alphabet, k)
}

proof fn lemma_covered_next(
    node: TrieNode,
    path: Seq<char>,
    keys: Seq<(&u32, &TrieNode)>,
    n: int,
    s: Seq<char>,
    pattern: Seq<char>,
    alphabet: Seq<char>,
    k: nat,
)
    requires
        0 <= n < keys.len(),
    ensures
        covered(node, path, keys, n + 1, s, pattern, alphabet, k) <==> (covered(node, path, keys, n, s, pattern, alphabet, k)
            || in_child(node, path, *keys[n].0, s, pattern, alphabet, k)),
{
    if covered(node, path, keys, n + 1, s, pattern, alphabet, k) && !own_word(node, path, s, pattern, alphabet, k) {
        let i = choose|i: int| 0 <= i < n + 1 && #[trigger] in_child(node, path, *keys[i].0, s, pattern, alphabet, k);
        if i < n {
            assert(covered(node, path, keys, n, s, pattern, alphabet, k));
        }
    }
    if in_child(node, path, *keys[n].0, s, pattern, alphabet, k) {
        assert(covered(node, path, keys, n + 1, s, pattern, alphabet, k));
    }
}

/// `s` is the word held by `node` itself, and `path` is near the pattern.
pub open spec fn own_word(node: TrieNode, path: Seq<char>, s: Seq<char>, pattern: Seq<char>, alphabet: Seq<char>, k: nat) -> bool {
    word_view(node.word) == Some(s) && near(path, pattern, alphabet, k)
}

proof fn lemma_subtree_cases(node: &TrieNode, path: Seq<char>, s: Seq<char>, pattern: Seq<char>, alphabet: Seq<char>, k: nat)
    ensures
        in_subtree(*node, path, s, pattern, alphabet, k) <==> (own_word(*node, path, s, pattern, alphabet, k)
            || exists|code: u32| #[trigger] in_child(*node, path, code, s, pattern, alphabet, k)),
{
    let e = Seq::<char>::empty();
    assert(path + e =~= path);
    assert(lookup(*node, e) == Some(word_view(node.word)));
    if in_subtree(*node, path, s, pattern, alphabet, k) {
        let q = choose|q: Seq<char>| #[trigger] lookup(*node, q) == Some(Some(s)) && near(path + q, pattern, alphabet, k);
        if q.len() > 0 {
            assert(in_child(*node, path, q[0] as u32, s, pattern, alphabet, k));
        } else {
            assert(q =~= e);
        }
    }
    if own_word(*node, path, s, pattern, alphabet, k) {
        assert(lookup(*node, e) == Some(Some(s)) && near(path + e, pattern, alphabet, k));
    }
    if exists|code: u32| #[trigger] in_child(*node, path, code, s, pattern, alphabet, k) {
        let code = choose|code: u32| #[trigger] in_child(*node, path, code, s, pattern, alphabet, k);
        let q = choose|q: Seq<char>|
            q.len() > 0 && q[0] as u32 == code && #[trigger] lookup(*node, q) == Some(Some(s)) && near(path + q, pattern, alphabet, k);
        assert(lookup(*node, q) == Some(Some(s)) && near(path + q, pattern, alphabet, k));
    }
}

proof fn lemma_child_in_subtree(node: &TrieNode, path: Seq<char>, code: u32, s: Seq<char>, pattern: Seq<char>, alphabet: Seq<char>, k: nat)
    requires
        in_child(*node, path, code, s, pattern, alphabet, k),
    ensures
        in_subtree(*node, path, s, pattern, alphabet, k),
{
    let q = choose|q: Seq<char>|
        q.len() > 0 && q[0] as u32 == code && #[trigger] lookup(*node, q) == Some(Some(s)) && near(path + q, pattern, alphabet, k);
    assert(lookup(*node, q) == Some(Some(s)) && near(path + q, pattern, alphabet, k));
}

proof fn lemma_child_has_key(node: &TrieNode, path: Seq<char>, code: u32, s: Seq<char>, pattern: Seq<char>, alphabet: Seq<char>, k: nat)
    requires
        in_child(*node, path, code, s, pattern, alphabet, k),
    ensures
        node.nodes@.contains_key(code),
{
    let q = choose|q: Seq<char>|
        q.len() > 0 && q[0] as u32 == code && #[trigger] lookup(*node, q) == Some(Some(s)) && near(path + q, pattern, alphabet, k);
}

/// The words below the child keyed by the code of `c` are those below `node`
/// whose path starts with `c`.
proof fn lemma_child_step(
    node: &TrieNode,
    child: &TrieNode,
    path: Seq<char>,
    c: char,
    code: u32,
    pattern: Seq<char>,
    alphabet: Seq<char>,
    k: nat,
)
    requires
        node.nodes@.contains_key(code),
        node.nodes@[code] == *child,
        c as u32 == code,
    ensures
        forall|s: Seq<char>| in_subtree(*child, path.push(c), s, pattern, alphabet, k)
            <==> #[trigger] in_child(*node, path, code, s, pattern, alphabet, k),
{
    assert forall|s: Seq<char>| in_subtree(*child, path.push(c), s, pattern, alphabet, k)
        <==> #[trigger] in_child(*node, path, code, s, pattern, alphabet, k) by {
        if in_subtree(*child, path.push(c), s, pattern, alphabet, k) {
            let q = choose|q: Seq<char>| #[trigger] lookup(*child, q) == Some(Some(s)) && near(path.push(c) + q, pattern, alphabet, k);
            let cq = seq![c] + q;
            assert(cq.drop_first() =~= q);
            assert(lookup(*node, cq) == lookup(*child, q));
            assert(path + cq =~= path.push(c) + q);
            assert(cq[0] == c);
        }
        if in_child(*node, path, code, s, pattern, alphabet, k) {
            let q = choose|q: Seq<char>|
                q.len() > 0 && q[0] as u32 == code && #[trigger] lookup(*node, q) == Some(Some(s)) && near(path + q, pattern, alphabet, k);
            lemma_char_code_injective(q[0], c);
            let r = q.drop_first();
            assert(lookup(*node, q) == lookup(*child, r));
            assert(path + q =~= path.push(c) + r);
        }
    }
}

/// Walks the trie below `node` and the automaton from `state_id` in lockstep,
/// appending every word held below `node` whose path is near the pattern, and
/// pruning as soon as the automaton has no move.
fn collect_matches(
    node: &TrieNode,
    state_id: usize,
    automaton: &LevenshteinAutomaton,
    results: &mut Vec<String>,
    Ghost(path): Ghost<Seq<char>>,
)
    requires
        automaton.wf(),
        automaton.state_id_to_state@.contains_key(state_id),
        is_row(automaton.state_id_to_state@[state_id].edit_distance@, automaton.pattern@, path, automaton.diffs()),
        in_alphabet(path, automaton.alphabet@),
        words_on_paths(*node, path),
    ensures
        final(results)@.len() >= old(results)@.len(),
        final(results)@.subrange(0, old(results)@.len() as int) == old(results)@,
        views(final(results)@.skip(old(results)@.len() as int)).no_duplicates(),
        forall|s: Seq<char>| views(final(results)@.skip(old(results)@.len() as int)).contains(s)
            <==> in_subtree(*node, path, s, automaton.pattern@, automaton.alphabet@, automaton.diffs()),
        forall|s: Seq<char>| #[trigger] views(final(results)@.skip(old(results)@.len() as int)).contains(s)
            ==> s.len() >= path.len() && s.take(path.len() as int) == path,
    decreases node,
{
    let ghost p = automaton.pattern@;
    let ghost a = automaton.alphabet@;
    let ghost k = automaton.diffs();
    let ghost start = results@.len();
    let ghost initial = results@;
    let ghost states = automaton.state_id_to_state@;
    let ghost v = states[state_id].edit_distance@;
    proof {
        automaton.lemma_wf_state(state_id);
        assert(p.take(p.len() as int) =~= p);
        assert(v[p.len() as int] == clamp(levenshtein(path, p.take(p.len() as int)), k));
        assert(path + Seq::<char>::empty() =~= path);
        assert(lookup(*node, Seq::<char>::empty()) == Some(word_view(node.word)));
    }
    let accepting = match automaton.state_id_to_state.get(&state_id) {
        Some(state) => state.is_accepting(),
        None => false,
    };
    match &node.word {
        Some(w) => {
            if accepting {
                results.push(w.clone());
            }
        },
        None => {},
    }
    proof {
        let added = views(results@.skip(start as int));
        assert(results@.subrange(0, start as int) =~= initial);
        assert forall|s: Seq<char>| added.contains(s) <==> own_word(*node, path, s, p, a, k) by {
            if added.contains(s) {
                let i = choose|i: int| 0 <= i < added.len() && added[i] == s;
                assert(results@.skip(start as int)[i] == results@[start + i]);
            }
            if own_word(*node, path, s, p, a, k) {
                assert(added[0] == s);
            }
        }
        assert forall|s: Seq<char>| #[trigger] added.contains(s) implies s.len() >= path.len() && s.take(path.len() as int) == path by {
            assert(own_word(*node, path, s, p, a, k));
            assert(s == path + Seq::<char>::empty());
            assert(s.take(path.len() as int) =~= path);
        }
        assert(added.no_duplicates());
    }
    match automaton.transitions.get(&state_id) {
        Some(tx) => {
            for pair in it: node.nodes.iter()
                invariant
                    automaton.wf(),
                    p == automaton.pattern@,
                    a == automaton.alphabet@,
                    k == automaton.diffs(),
                    states == automaton.state_id_to_state@,
                    states.contains_key(state_id),
                    v == states[state_id].edit_distance@,
                    is_row(v, p, path, k),
                    in_alphabet(path, a),
                    words_on_paths(*node, path),
                    automaton.transitions@.contains_key(state_id),
                    *tx == automaton.transitions@[state_id],
                    it.seq() == spec_hash_map_iter(&node.nodes).remaining(),
                    it.seq().no_duplicates(),
                    results@.len() >= start,
                    results@.subrange(0, start as int) == initial,
                    views(results@.skip(start as int)).no_duplicates(),
                    forall|s: Seq<char>| #[trigger] views(results@.skip(start as int)).contains(s) <==> covered(*node, path, it.seq(), it.index(), s, p, a, k),
                    forall|s: Seq<char>| #[trigger] views(results@.skip(start as int)).contains(s)
                        ==> s.len() >= path.len() && s.take(path.len() as int) == path,
                    forall|s: Seq<char>| #[trigger] views(results@.skip(start as int)).contains(s) && s.len() > path.len()
                        ==> exists|i: int| 0 <= i < it.index() && #[trigger] it.seq()[i].0 == s[path.len() as int] as u32,
            {
                let (code, child) = pair;
                let ghost idx = it.index();
                let ghost old_results = results@;
                proof {
                    assert(it.seq()[idx] == pair);
                    assert(node.nodes@.contains_key(*code) && node.nodes@[*code] == *child);
                    assert forall|i: int| 0 <= i < idx implies *it.seq()[i].0 != *code by {
                        if *it.seq()[i].0 == *code {
                            assert(it.seq()[i] == it.seq()[idx]);
                        }
                    }
                }
                match tx.get(code) {
                    Some(next) => {
                        proof {
                            automaton.lemma_wf_code(state_id, *code);
                        }
                        let ghost c = choose|c: char| #[trigger] a.contains(c) && c as u32 == *code;
                        let ghost cpath = path.push(c);
                        proof {
                            automaton.lemma_wf_move(state_id, c);
                            lemma_step_of_row(states[*next].edit_distance@, v, p, path, c, k);
                            assert forall|i: int| 0 <= i < cpath.len() implies a.contains(#[trigger] cpath[i]) by {
                                if i < path.len() {
                                    assert(cpath[i] == path[i]);
                                }
                            }
                            assert forall|q: Seq<char>| #[trigger] lookup(*child, q) is Some && lookup(*child, q)->0 is Some
                                implies lookup(*child, q)->0->0 == cpath + q by {
                                let cq = seq![c] + q;
                                assert(cq.drop_first() =~= q);
                                assert(lookup(*node, cq) == lookup(*child, q));
                                assert(path + cq =~= cpath + q);
                            }
                        }
                        collect_matches(child, *next, automaton, results, Ghost(cpath));
                        proof {
                            lemma_child_step(node, child, path, c, *code, p, a, k);
                            let before = views(old_results.skip(start as int));
                            let added = views(results@.skip(old_results.len() as int));
                            assert(views(results@.skip(start as int)) =~= before + added) by {
                                assert(results@.subrange(0, old_results.len() as int) == old_results);
                                assert(results@.skip(start as int) =~= old_results.skip(start as int) + results@.skip(old_results.len() as int));
                            }
                            assert(results@.subrange(0, start as int) =~= initial) by {
                                assert(results@.subrange(0, old_results.len() as int) == old_results);
                            }
                            assert forall|i: int, j: int| 0 <= i < before.len() && 0 <= j < added.len() implies before[i] != added[j] by {
                                let x = before[i];
                                let y = added[j];
                                assert(before.contains(x));
                                assert(added.contains(y));
                                assert(y.take(cpath.len() as int) == cpath);
                                assert(y[path.len() as int] == y.take(cpath.len() as int)[path.len() as int]);
                                if x.len() > path.len() {
                                    let i2 = choose|i2: int| 0 <= i2 < idx && #[trigger] it.seq()[i2].0 == x[path.len() as int] as u32;
                                    assert(*it.seq()[i2].0 != *code);
                                }
                            }
                            lemma_no_dup_in_concat(before, added);
                            assert forall|s: Seq<char>| #[trigger] views(results@.skip(start as int)).contains(s) <==> covered(*node, path, it.seq(), idx + 1, s, p, a, k) by {
                                lemma_covered_next(*node, path, it.seq(), idx, s, p, a, k);
                                lemma_concat_contains(before, added, s);
                                assert(before.contains(s) <==> covered(*node, path, it.seq(), idx, s, p, a, k));
                                assert(added.contains(s) <==> in_child(*node, path, *it.seq()[idx].0, s, p, a, k));
                            }
                            assert forall|s: Seq<char>| #[trigger] views(results@.skip(start as int)).contains(s)
                                implies s.len() >= path.len() && s.take(path.len() as int) == path by {
                                if added.contains(s) {
                                    assert(s.take(path.len() as int) =~= s.take(cpath.len() as int).take(path.len() as int));
                                    assert(cpath.take(path.len() as int) =~= path);
                                } else {
                                    assert(before.contains(s));
                                }
                            }
                            assert forall|s: Seq<char>| #[trigger] views(results@.skip(start as int)).contains(s) && s.len() > path.len()
                                implies exists|i: int| 0 <= i < idx + 1 && #[trigger] it.seq()[i].0 == s[path.len() as int] as u32 by {
                                if added.contains(s) {
                                    assert(s[path.len() as int] == s.take(cpath.len() as int)[path.len() as int]);
                                    assert(it.seq()[idx].0 == s[path.len() as int] as u32);
                                } else {
                                    assert(before.contains(s));
                                    let i2 = choose|i2: int| 0 <= i2 < idx && #[trigger] it.seq()[i2].0 == s[path.len() as int] as u32;
                                    assert(0 <= i2 < idx + 1);
                                }
                            }
                        }
                    },
                    None => {
                        proof {
                            assert forall|s: Seq<char>| #[trigger] views(results@.skip(start as int)).contains(s) <==> covered(*node, path, it.seq(), idx + 1, s, p, a, k) by {
                                lemma_covered_next(*node, path, it.seq(), idx, s, p, a, k);
                                assert(!in_child(*node, path, *code, s, p, a, k)) by {
                                    if in_child(*node, path, *code, s, p, a, k) {
                                        let q = choose|q: Seq<char>| q.len() > 0 && q[0] as u32 == *code && #[trigger] lookup(*node, q) == Some(Some(s)) && near(path + q, p, a, k);
                                        automaton.lemma_wf_move(state_id, q[0]);
                                        assert((path + q)[path.len() as int] == q[0]);
                                    }
                                }
                            }
                            assert forall|s: Seq<char>| !in_child(*node, path, *code, s, p, a, k) by {
                                if in_child(*node, path, *code, s, p, a, k) {
                                    let q = choose|q: Seq<char>| q.len() > 0 && q[0] as u32 == *code && #[trigger] lookup(*node, q) == Some(Some(s)) && near(path + q, p, a, k);
                                    automaton.lemma_wf_move(state_id, q[0]);
                                    assert((path + q)[path.len() as int] == q[0]);
                                }
                            }
                        }
                    },
                }
            }
            proof {
                let keys = spec_hash_map_iter(&node.nodes).remaining();
                assert forall|s: Seq<char>| in_subtree(*node, path, s, p, a, k) implies own_word(*node, path, s, p, a, k)
                    || exists|i: int| 0 <= i < keys.len() && #[trigger] in_child(*node, path, *keys[i].0, s, p, a, k) by {
                    lemma_subtree_cases(node, path, s, p, a, k);
                    if !own_word(*node, path, s, p, a, k) {
                        let code = choose|code: u32| #[trigger] in_child(*node, path, code, s, p, a, k);
                        lemma_child_has_key(node, path, code, s, p, a, k);
                        assert(keys.contains((&code, &node.nodes@[code])));
                        let i = choose|i: int| 0 <= i < keys.len() && keys[i] == (&code, &node.nodes@[code]);
                        assert(in_child(*node, path, *keys[i].0, s, p, a, k));
                    }
                }
                assert forall|s: Seq<char>| own_word(*node, path, s, p, a, k)
                    || (exists|i: int| 0 <= i < keys.len() && #[trigger] in_child(*node, path, *keys[i].0, s, p, a, k))
                    implies in_subtree(*node, path, s, p, a, k) by {
                    if own_word(*node, path, s, p, a, k) {
                        lemma_subtree_cases(node, path, s, p, a, k);
                    } else {
                        let i = choose|i: int| 0 <= i < keys.len() && #[trigger] in_child(*node, path, *keys[i].0, s, p, a, k);
                        lemma_subtree_cases(node, path, s, p, a, k);
                        lemma_child_in_subtree(node, path, *keys[i].0, s, p, a, k);
                    }
                }
            }
        },
        None => {
            proof {
                assert forall|code: u32, s: Seq<char>| !in_child(*node, path, code, s, p, a, k) by {
                    if in_child(*node, path, code, s, p, a, k) {
                        let q = choose|q: Seq<char>| q.len() > 0 && q[0] as u32 == code && #[trigger] lookup(*node, q) == Some(Some(s)) && near(path + q, p, a, k);
                        let pq = path + q;
                        assert(pq[path.len() as int] == q[0]);
                        if a.len() > 0 {
                            assert(is_dead_row(v, k));
                            assert forall|j: int| 0 <= j <= p.len() implies levenshtein(path, #[trigger] p.take(j)) > k by {
                                assert(v[j] > k);
                            }
                            assert(pq.take(path.len() as int) =~= path);
                            lemma_dead_prefix(p, pq, k, path.len() as int);
                            assert(p.take(p.len() as int) =~= p);
                        }
                    }
                }
                assert forall|s: Seq<char>| in_subtree(*node, path, s, p, a, k) <==> own_word(*node, path, s, p, a, k) by {
                    lemma_subtree_cases(node, path, s, p, a, k);
                }
            }
        },
    }
}

/// `w` is one of the words of `dictionary`.
pub open spec fn in_dictionary(dictionary: Seq<String>, w: Seq<char>) -> bool {
    exists|i: int| 0 <= i < dictionary.len() && #[trigger] dictionary[i]@ == w
}

/// `c` occurs in some word of `dictionary`.
pub open spec fn char_in_dictionary(dictionary: Seq<String>, c: char) -> bool {
    exists|i: int| 0 <= i < dictionary.len() && #[trigger] dictionary[i]@.contains(c)
}

/// A dictionary for fuzzy search: a trie of its words, and the characters
/// they are written with.
pub struct Matcher {
    trie: TrieNode,
    alphabet: Vec<char>,
}

impl Matcher {
    /// The words of the dictionary.
    pub closed spec fn words(&self) -> Set<Seq<char>> {
        Set::new(|w: Seq<char>| holds_word(self.trie, w))
    }

    /// The characters the dictionary's words are written with.
    pub closed spec fn alphabet_view(&self) -> Seq<char> {
        self.alphabet@
    }

    /// Every word in the trie sits at its own path and is written with the alphabet.
    pub closed spec fn wf(&self) -> bool {
        &&& words_on_paths(self.trie, Seq::empty())
        &&& forall|w: Seq<char>| #[trigger] holds_word(self.trie, w) ==> in_alphabet(w, self.alphabet@)
    }

    /// Builds a matcher from a list of dictionary words: a trie of the words,
    /// and the alphabet of all characters that occur in them.
    pub fn new(dictionary: &Vec<String>) -> (r: Option<Self>)
        ensures
            r matches Some(m) && {
                &&& m.wf()
                &&& forall|w: Seq<char>| m.words().contains(w) <==> in_dictionary(dictionary@, w)
                &&& forall|c: char| m.alphabet_view().contains(c) <==> char_in_dictionary(dictionary@, c)
                &&& m.alphabet_view().no_duplicates()
            },
    {
        let mut trie = TrieNode::new();
        let mut alphabet: Vec<char> = Vec::new();
        let n = dictionary.len();
        for i in 0..n
            invariant
                n == dictionary@.len(),
                words_on_paths(trie, Seq::empty()),
                forall|w: Seq<char>| #[trigger] holds_word(trie, w) <==> in_dictionary(dictionary@.take(i as int), w),
                forall|c: char| alphabet@.contains(c) <==> char_in_dictionary(dictionary@.take(i as int), c),
                alphabet@.no_duplicates(),
        {
            let word = &dictionary[i];
            let ghost before = trie;
            let ghost w = word@;
            trie.add_new_word(word.as_str());
            let ghost d0 = dictionary@.take(i as int);
            let ghost d1 = dictionary@.take(i + 1);
            proof {
                assert(d1 =~= d0.push(dictionary@[i as int]));
                assert forall|q: Seq<char>| #[trigger] lookup(trie, q) is Some && lookup(trie, q)->0 is Some
                    implies lookup(trie, q)->0->0 == Seq::<char>::empty() + q by {
                    assert(Seq::<char>::empty() + q =~= q);
                    assert(lookup(trie, q) == inserted(before, w, w, q));
                }
                assert forall|v: Seq<char>| #[trigger] holds_word(trie, v) <==> in_dictionary(d1, v) by {
                    if v == w {
                        lemma_added_word_exists(before, trie, w);
                        assert(d1[i as int]@ == v);
                    } else {
                        lemma_add_keeps_other_words(before, trie, w, v);
                        if in_dictionary(d1, v) {
                            let j = choose|j: int| 0 <= j < d1.len() && #[trigger] d1[j]@ == v;
                            assert(d0[j]@ == v);
                        }
                        if in_dictionary(d0, v) {
                            let j = choose|j: int| 0 <= j < d0.len() && #[trigger] d0[j]@ == v;
                            assert(d1[j]@ == v);
                        }
                    }
                }
            }
            let ghost alphabet0 = alphabet@;
            proof {
                assert(w.take(0) =~= Seq::<char>::empty());
            }
            for c in it: word.as_str().chars()
                invariant
                    it.seq() == w,
                    alphabet@.no_duplicates(),
                    forall|x: char| alphabet@.contains(x) <==> (alphabet0.contains(x) || w.take(it.index()).contains(x)),
            {
                let ghost j = it.index();
                let ghost before_push = alphabet@;
                proof {
                    assert(c == w[j]);
                    assert(w.take(j + 1) =~= w.take(j).push(c));
                }
                if !contains_char(&alphabet, c) {
                    alphabet.push(c);
                }
                proof {
                    assert forall|x: char| alphabet@.contains(x) <==> (alphabet0.contains(x) || w.take(j + 1).contains(x)) by {
                        lemma_push_contains(w.take(j), c, x);
                        lemma_push_contains(before_push, c, x);
                        assert(before_push.contains(x) <==> (alphabet0.contains(x) || w.take(j).contains(x)));
                        assert(alphabet@.contains(x) <==> (before_push.contains(x) || x == c));
                    }
                }
            }
            proof {
                assert(w.take(w.len() as int) =~= w);
                assert forall|x: char| alphabet@.contains(x) <==> char_in_dictionary(d1, x) by {
                    assert(alphabet@.contains(x) <==> (alphabet0.contains(x) || w.contains(x)));
                    assert(alphabet0.contains(x) <==> char_in_dictionary(d0, x));
                    if char_in_dictionary(d1, x) {
                        let j = choose|j: int| 0 <= j < d1.len() && #[trigger] d1[j]@.contains(x);
                        if j < i {
                            assert(d0[j]@.contains(x));
                        }
                    }
                    if char_in_dictionary(d0, x) {
                        let j = choose|j: int| 0 <= j < d0.len() && #[trigger] d0[j]@.contains(x);
                        assert(d1[j]@.contains(x));
                    }
                    if w.contains(x) {
                        assert(d1[i as int]@.contains(x));
                    }
                }
            }
        }
        proof {
            assert(dictionary@.take(n as int) =~= dictionary@);
        }
        let m = Matcher { trie, alphabet };
        proof {
            assert forall|w: Seq<char>| #[trigger] holds_word(m.trie, w) implies in_alphabet(w, m.alphabet@) by {
                let j = choose|j: int| 0 <= j < dictionary@.len() && #[trigger] dictionary@[j]@ == w;
                assert forall|t: int| 0 <= t < w.len() implies m.alphabet@.contains(#[trigger] w[t]) by {
                    assert(dictionary@[j]@.contains(w[t]));
                }
            }
            assert forall|w: Seq<char>| m.words().contains(w) <==> in_dictionary(dictionary@, w) by {
                assert(m.words().contains(w) == holds_word(m.trie, w));
            }
        }
        Some(m)
    }

    /// Returns all dictionary words within `allowed_diffs` edit distance of
    /// `pattern`, or `None` if there is none (or if the automaton for the
    /// pattern cannot be built).
    pub fn match_pattern(&self, pattern: &str, allowed_diffs: usize) -> (r: Option<Vec<String>>)
        requires
            self.wf(),
            allowed_diffs + 2 <= usize::MAX,
            pattern@.len() < usize::MAX,
        ensures
            r is None <==> (!all_ids_fit(pattern@, self.alphabet_view(), allowed_diffs as nat)
                || forall|w: Seq<char>| self.words().contains(w) ==> levenshtein(w, pattern@) > allowed_diffs),
            r matches Some(v) ==> {
                &&& views(v@).no_duplicates()
                &&& forall|w: Seq<char>| #[trigger] views(v@).contains(w) <==> (self.words().contains(w) && levenshtein(w, pattern@) <= allowed_diffs)
            },
    {
        let alphabet = self.alphabet.clone();
        proof {
            assert(alphabet@ =~= self.alphabet@);
        }
        let automaton = match LevenshteinAutomaton::new(pattern, allowed_diffs, alphabet) {
            Some(automaton) => automaton,
            None => return None,
        };
        let mut results: Vec<String> = Vec::new();
        proof {
            automaton.lemma_wf_init();
            assert(in_alphabet(Seq::<char>::empty(), automaton.alphabet@));
        }
        collect_matches(&self.trie, automaton.init_state.0, &automaton, &mut results, Ghost(Seq::<char>::empty()));
        let ghost k = allowed_diffs as nat;
        proof {
            assert(results@.skip(0) =~= results@);
            assert forall|w: Seq<char>| #[trigger] views(results@).contains(w) <==> (self.words().contains(w) && levenshtein(w, pattern@) <= k) by {
                assert(Seq::<char>::empty() + w =~= w);
                if in_subtree(self.trie, Seq::<char>::empty(), w, pattern@, self.alphabet@, k) {
                    let q = choose|q: Seq<char>| #[trigger] lookup(self.trie, q) == Some(Some(w)) && near(Seq::<char>::empty() + q, pattern@, self.alphabet@, k);
                    assert(Seq::<char>::empty() + q =~= q);
                    assert(holds_word(self.trie, w));
                }
                if self.words().contains(w) && levenshtein(w, pattern@) <= k {
                    assert(holds_word(self.trie, w));
                    assert(lookup(self.trie, w) == Some(Some(w)) && near(Seq::<char>::empty() + w, pattern@, self.alphabet@, k));
                }
            }
        }
        if results.len() == 0 {
            proof {
                assert forall|w: Seq<char>| self.words().contains(w) implies levenshtein(w, pattern@) > k by {
                    if levenshtein(w, pattern@) <= k {
                        assert(views(results@).contains(w));
                    }
                }
            }
            None
        } else {
            proof {
                let w0 = views(results@)[0];
                assert(views(results@).contains(w0));
            }
            Some(results)
        }
    }
}

proof fn lemma_push_contains(s: Seq<char>, c: char, x: char)
    ensures
        s.push(c).contains(x) <==> (s.contains(x) || x == c),
{
    if s.push(c).contains(x) {
        let i = choose|i: int| 0 <= i < s.push(c).len() && s.push(c)[i] == x;
        if i < s.len() {
            assert(s[i] == x);
        }
    }
    if s.contains(x) {
        let i = choose|i: int| 0 <= i < s.len() && s[i] == x;
        assert(s.push(c)[i] == x);
    }
    assert(s.push(c)[s.len() as int] == c);
}

/// Is `c` in `v`?
fn contains_char(v: &Vec<char>, c: char) -> (r: bool)
    ensures
        r == v@.contains(c),
{
    let n = v.len();
    for i in 0..n
        invariant
            n == v@.len(),
            forall|j: int| 0 <= j < i ==> v@[j] != c,
    {
        if v[i] == c {
            return true;
        }
    }
    false
}

} // verus!

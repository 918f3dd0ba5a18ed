use vstd::prelude::*;
use std::collections::HashMap;
use std::collections::HashSet;
use std::collections::VecDeque;
use crate::distance::levenshtein;
use crate::distance::is_row;
use crate::distance::is_step;
use crate::distance::dead_word;
use crate::distance::clamp;
use crate::distance::lemma_step_of_row;
use crate::distance::lemma_dead_word_extends;
use crate::distance::lemma_dead_prefix;
use crate::distance::lemma_levenshtein_lower_bound;
use crate::distance::lemma_row_shape;
use crate::distance::row_of;
use crate::distance::lemma_row_accepts;
use vstd::set_lib::lemma_len_subset;
use vstd::set_lib::lemma_map_size;
use vstd::set_lib::lemma_int_range;
use vstd::set_lib::set_int_range;
use vstd::relations::injective_on;
use crate::state::lemma_id_value_below;
use crate::state::lemma_pow_at_least_one;
use crate::state::State;
use crate::utilities::lemma_char_code_injective;
use crate::state::StateId;
use crate::state::id_fits;
use crate::state::id_value;
use crate::state::is_dead_row;
use crate::state::accepts_row;
use crate::state::lemma_id_value_injective;
use crate::state::lemma_small_ids_fit;
use crate::state::lemma_dead_not_accepting;
use crate::state::pow;

verus! {

broadcast use vstd::std_specs::hash::group_hash_axioms;

/// Every character of `word` belongs to `alphabet`.
pub open spec fn in_alphabet(word: Seq<char>, alphabet: Seq<char>) -> bool {
    forall|i: int| 0 <= i < word.len() ==> alphabet.contains(#[trigger] word[i])
}

/// Every state reachable from the initial state over `alphabet` has an
/// identifier that fits in a `usize`.
pub open spec fn all_ids_fit(pattern: Seq<char>, alphabet: Seq<char>, k: nat) -> bool {
    forall|w: Seq<char>, v: Seq<usize>|
        in_alphabet(w, alphabet) && #[trigger] is_row(v, pattern, w, k) ==> id_fits(v, k + 2int)
}

/// `tx` holds the moves out of the state whose distances are `from`, for the
/// first `upto` characters of `alphabet` and for no other character: each
/// leads to a known state whose distances are the step of `from`.
pub open spec fn row_transitions(
    tx: Map<u32, usize>,
    states: Map<usize, State>,
    from: Seq<usize>,
    pattern: Seq<char>,
    alphabet: Seq<char>,
    k: nat,
    upto: int,
) -> bool {
    &&& forall|code: u32| #[trigger]
        tx.contains_key(code) ==> exists|j: int| 0 <= j < upto && #[trigger] alphabet[j] as u32 == code
    &&& forall|j: int|
        0 <= j < upto ==> {
            &&& tx.contains_key(#[trigger] alphabet[j] as u32)
            &&& states.contains_key(tx[alphabet[j] as u32])
            &&& is_step(states[tx[alphabet[j] as u32]].edit_distance@, from, pattern, alphabet[j], k)
        }
}

/// A Levenshtein automaton that pre-computes a DFA for fuzzy string matching.
/// Given a pattern and a maximum edit distance, it builds all reachable states
/// and transitions at construction time, allowing O(n) matching per word.
pub struct LevenshteinAutomaton {
    /// The pattern string to match against.
    pub pattern: String,
    /// The set of characters the automaton recognizes.
    pub alphabet: Vec<char>,
    /// The identifier of the initial state (before any input is consumed).
    pub init_state: StateId,
    /// Maps each state identifier to its state, for acceptance checks.
    pub state_id_to_state: HashMap<usize, State>,
    /// The transition table: for each state and character code, the next state.
    pub transitions: HashMap<usize, HashMap<u32, usize>>,
    /// The dead states: those from which no input leads to acceptance.
    pub dead_states: HashSet<usize>,
}

/// Every reachable state has an identifier that fits whenever every vector
/// of `pattern.len() + 1` digits in base `k + 2` has one, that is when
/// `(k + 2)^(pattern.len() + 1) - 1 <= usize::MAX`: in that case the
/// automaton can always be built.
pub proof fn lemma_ids_fit_when_small(pattern: Seq<char>, alphabet: Seq<char>, k: nat)
    requires
        pow(k + 2int, (pattern.len() + 1) as nat) - 1 <= usize::MAX,
    ensures
        all_ids_fit(pattern, alphabet, k),
{
    assert forall|w: Seq<char>, v: Seq<usize>| in_alphabet(w, alphabet) && #[trigger] is_row(v, pattern, w, k) implies id_fits(
        v,
        k + 2int,
    ) by {
        assert forall|i: int| 0 <= i < v.len() implies #[trigger] v[i] < k + 2 by {
            assert(v[i] == clamp(levenshtein(w, pattern.take(i)), k));
        }
        lemma_small_ids_fit(v, k + 2int);
    }
}

proof fn lemma_row_transitions_grow(
    tx: Map<u32, usize>,
    s0: Map<usize, State>,
    s1: Map<usize, State>,
    from: Seq<usize>,
    pattern: Seq<char>,
    alphabet: Seq<char>,
    k: nat,
    upto: int,
)
    requires
        row_transitions(tx, s0, from, pattern, alphabet, k, upto),
        forall|t: usize| #[trigger] s0.contains_key(t) ==> s1.contains_key(t) && s1[t] == s0[t],
    ensures
        row_transitions(tx, s1, from, pattern, alphabet, k, upto),
{
    assert forall|j: int| 0 <= j < upto implies {
        &&& tx.contains_key(#[trigger] alphabet[j] as u32)
        &&& s1.contains_key(tx[alphabet[j] as u32])
        &&& is_step(s1[tx[alphabet[j] as u32]].edit_distance@, from, pattern, alphabet[j], k)
    } by {
        assert(s0.contains_key(tx[alphabet[j] as u32]));
    }
}

proof fn lemma_row_transitions_add(
    tx0: Map<u32, usize>,
    tx1: Map<u32, usize>,
    s: Map<usize, State>,
    from: Seq<usize>,
    pattern: Seq<char>,
    alphabet: Seq<char>,
    k: nat,
    j: int,
    t: usize,
)
    requires
        0 <= j < alphabet.len(),
        row_transitions(tx0, s, from, pattern, alphabet, k, j),
        tx1 == tx0.insert(alphabet[j] as u32, t),
        s.contains_key(t),
        is_step(s[t].edit_distance@, from, pattern, alphabet[j], k),
    ensures
        row_transitions(tx1, s, from, pattern, alphabet, k, j + 1),
{
    let code = alphabet[j] as u32;
    assert forall|cd: u32| #[trigger] tx1.contains_key(cd) implies exists|i: int|
        0 <= i < j + 1 && #[trigger] alphabet[i] as u32 == cd by {
        if cd == code {
            assert(alphabet[j] as u32 == cd);
        } else {
            assert(tx0.contains_key(cd));
        }
    }
    assert forall|i: int| 0 <= i < j + 1 implies {
        &&& tx1.contains_key(#[trigger] alphabet[i] as u32)
        &&& s.contains_key(tx1[alphabet[i] as u32])
        &&& is_step(s[tx1[alphabet[i] as u32]].edit_distance@, from, pattern, alphabet[i], k)
    } by {
        if alphabet[i] as u32 == code {
            lemma_char_code_injective(alphabet[i], alphabet[j]);
        }
    }
}


impl LevenshteinAutomaton {
    /// The allowed number of edits.
    pub open spec fn diffs(&self) -> nat {
        self.state_id_to_state@[self.init_state.0].diffs_allowed as nat
    }

    /// Each known state carries the threshold, one distance per prefix of the
    /// pattern, and an identifier that fits and names it.
    pub open spec fn states_ok(&self) -> bool {
        let states = self.state_id_to_state@;
        forall|y: usize| #[trigger]
            states.contains_key(y) ==> {
                &&& states[y].diffs_allowed == self.diffs()
                &&& states[y].edit_distance@.len() == self.pattern@.len() + 1
                &&& id_fits(states[y].edit_distance@, self.diffs() + 2int)
                &&& id_value(states[y].edit_distance@, self.diffs() + 2int) == y
            }
    }

    /// Each known state is the row of some word over the alphabet.
    pub open spec fn states_reachable(&self) -> bool {
        let states = self.state_id_to_state@;
        forall|y: usize| #[trigger]
            states.contains_key(y) ==> exists|w: Seq<char>|
                in_alphabet(w, self.alphabet@) && #[trigger] is_row(
                    states[y].edit_distance@,
                    self.pattern@,
                    w,
                    self.diffs(),
                )
    }

    /// `dead_states` holds exactly the known states that are dead.
    pub open spec fn dead_ok(&self) -> bool {
        let states = self.state_id_to_state@;
        forall|y: usize|
            #![trigger self.dead_states@.contains(y)]
            #![trigger states.contains_key(y)]
            self.dead_states@.contains(y) <==> (states.contains_key(y) && is_dead_row(
                states[y].edit_distance@,
                self.diffs(),
            ))
    }

    /// The automaton is complete: every live state has a move on every
    /// character of the alphabet, and dead states have none.
    #[verifier::opaque]
    pub closed spec fn wf(&self) -> bool {
        let states = self.state_id_to_state@;
        let trans = self.transitions@;
        &&& states.contains_key(self.init_state.0)
        &&& is_row(states[self.init_state.0].edit_distance@, self.pattern@, Seq::empty(), self.diffs())
        &&& self.diffs() + 2 <= usize::MAX
        &&& self.states_ok()
        &&& self.states_reachable()
        &&& self.dead_ok()
        &&& forall|y: usize|
            #![trigger trans.contains_key(y)]
            #![trigger states.contains_key(y)]
            trans.contains_key(y) <==> (states.contains_key(y) && !is_dead_row(
                states[y].edit_distance@,
                self.diffs(),
            ) && self.alphabet@.len() > 0)
        &&& forall|y: usize| #[trigger]
            trans.contains_key(y) ==> row_transitions(
                trans[y]@,
                states,
                states[y].edit_distance@,
                self.pattern@,
                self.alphabet@,
                self.diffs(),
                self.alphabet@.len() as int,
            )
    }

    /// Facts that hold throughout construction: the initial state, the
    /// threshold, and what is known of every recorded state.
    closed spec fn base_inv(&self) -> bool {
        let states = self.state_id_to_state@;
        &&& states.contains_key(self.init_state.0)
        &&& is_row(states[self.init_state.0].edit_distance@, self.pattern@, Seq::empty(), self.diffs())
        &&& self.diffs() + 2 <= usize::MAX
        &&& self.states_ok()
        &&& self.states_reachable()
        &&& self.dead_ok()
    }

    /// The queue holds distinct live states that have no moves yet.
    closed spec fn queue_ok(&self, queue: Seq<StateId>) -> bool {
        let states = self.state_id_to_state@;
        &&& forall|i: int|
            0 <= i < queue.len() ==> {
                let y = #[trigger] queue[i].0;
                &&& states.contains_key(y)
                &&& !is_dead_row(states[y].edit_distance@, self.diffs())
                &&& !self.transitions@.contains_key(y)
            }
        &&& forall|i: int, j: int| 0 <= i < j < queue.len() ==> #[trigger] queue[i] != #[trigger] queue[j]
    }

    /// Moves are recorded only for live states, and are correct: all of them,
    /// except that state `x` has moves only for the first `done` characters.
    closed spec fn trans_ok(&self, x: usize, done: int) -> bool {
        let states = self.state_id_to_state@;
        let trans = self.transitions@;
        &&& forall|y: usize| #[trigger]
            trans.contains_key(y) ==> states.contains_key(y) && !is_dead_row(
                states[y].edit_distance@,
                self.diffs(),
            ) && self.alphabet@.len() > 0
        &&& forall|y: usize| #[trigger]
            trans.contains_key(y) ==> row_transitions(
                trans[y]@,
                states,
                states[y].edit_distance@,
                self.pattern@,
                self.alphabet@,
                self.diffs(),
                if y == x {
                    done
                } else {
                    self.alphabet@.len() as int
                },
            )
    }

    /// Every live state has its moves, is being expanded (`x`), or waits in the queue.
    closed spec fn closure_ok(&self, queue: Seq<StateId>, x: Option<usize>) -> bool {
        let states = self.state_id_to_state@;
        forall|y: usize| #[trigger]
            states.contains_key(y) && !is_dead_row(states[y].edit_distance@, self.diffs())
                && self.alphabet@.len() > 0 ==> self.transitions@.contains_key(y) || x == Some(y)
                || exists|i: int| 0 <= i < queue.len() && #[trigger] queue[i].0 == y
    }

    /// The construction invariant while state `x` is expanded and its first
    /// `done` moves are recorded.
    closed spec fn partial_inv(&self, queue: Seq<StateId>, x: usize, done: int) -> bool {
        let states = self.state_id_to_state@;
        &&& self.base_inv()
        &&& self.queue_ok(queue)
        &&& forall|i: int| 0 <= i < queue.len() ==> #[trigger] queue[i].0 != x
        &&& 0 <= done <= self.alphabet@.len()
        &&& states.contains_key(x)
        &&& !is_dead_row(states[x].edit_distance@, self.diffs())
        &&& (self.transitions@.contains_key(x) <==> done > 0)
        &&& self.trans_ok(x, done)
        &&& self.closure_ok(queue, Some(x))
    }

    /// Adds the move of state `x` on the `j`-th character of the alphabet,
    /// recording the state it leads to if it is new. Returns `false` when that
    /// state's identifier does not fit.
    fn expand_on(&mut self, queue: &mut VecDeque<StateId>, x: usize, from: &State, j: usize) -> (r: bool)
        requires
            old(self).partial_inv(old(queue)@, x, j as int),
            j < old(self).alphabet@.len(),
            from.edit_distance@ == old(self).state_id_to_state@[x].edit_distance@,
            from.diffs_allowed == old(self).diffs(),
        ensures
            final(self).pattern == old(self).pattern,
            final(self).alphabet == old(self).alphabet,
            final(self).init_state == old(self).init_state,
            final(self).diffs() == old(self).diffs(),
            r ==> final(self).partial_inv(final(queue)@, x, j + 1),
            !r ==> !all_ids_fit(old(self).pattern@, old(self).alphabet@, old(self).diffs()),
            forall|t: usize| #[trigger] old(self).state_id_to_state@.contains_key(t)
                ==> final(self).state_id_to_state@.contains_key(t)
                && final(self).state_id_to_state@[t] == old(self).state_id_to_state@[t],
            final(self).state_id_to_state@.len() >= old(self).state_id_to_state@.len(),
            final(queue)@.len() - old(queue)@.len() <= final(self).state_id_to_state@.len()
                - old(self).state_id_to_state@.len(),
    {
        let ghost k = self.diffs();
        let ghost p = self.pattern@;
        let ghost a = self.alphabet@;
        let ghost states0 = self.state_id_to_state@;
        let ghost trans0 = self.transitions@;
        let ghost queue0 = queue@;
        let c = self.alphabet[j];
        let ghost w = choose|w: Seq<char>| in_alphabet(w, a) && #[trigger] is_row(states0[x].edit_distance@, p, w, k);
        proof {
            assert(states0.contains_key(x));
            assert(exists|w: Seq<char>| in_alphabet(w, a) && #[trigger] is_row(states0[x].edit_distance@, p, w, k));
            assert(from.edit_distance@[0] == clamp(levenshtein(w, p.take(0)), k));
        }
        let new_state = from.on_new_char(self.pattern.as_str(), c);
        let ghost wc = w.push(c);
        proof {
            lemma_step_of_row(new_state.edit_distance@, from.edit_distance@, p, w, c, k);
            assert forall|i: int| 0 <= i < wc.len() implies a.contains(#[trigger] wc[i]) by {
                if i < w.len() {
                    assert(wc[i] == w[i]);
                }
            }
        }
        let new_id = match new_state.get_state_id() {
            Some(id) => id,
            None => {
                proof {
                    assert(in_alphabet(wc, a) && is_row(new_state.edit_distance@, p, wc, k));
                }
                return false;
            },
        };
        let ghost nid = new_id.0;
        let ghost nv = new_state.edit_distance@;
        let ghost tx0 = if trans0.contains_key(x) {
            trans0[x]@
        } else {
            Map::<u32, usize>::empty()
        };
        let ghost dead0 = self.dead_states@;
        self.transitions.entry(x).or_insert(HashMap::new()).insert(c as u32, new_id.0);
        let ghost trans1 = self.transitions@;
        proof {
            assert(trans1.contains_key(x));
            assert(trans1[x]@ == tx0.insert(c as u32, nid));
            assert(forall|y: usize| y != x ==> (#[trigger] trans1.contains_key(y) <==> trans0.contains_key(y)));
            assert(forall|y: usize| y != x && #[trigger] trans1.contains_key(y) ==> trans1[y] == trans0[y]);
        }
        let is_new = !self.state_id_to_state.contains_key(&new_id.0);
        if is_new {
            let dead = new_state.is_dead_state();
            self.state_id_to_state.insert(new_id.0, new_state);
            if dead {
                self.dead_states.insert(new_id.0);
            } else {
                queue.push_back(new_id);
            }
        }
        let ghost states1 = self.state_id_to_state@;
        let ghost queue1 = queue@;
        proof {
            assert(forall|t: usize| #[trigger] states0.contains_key(t) ==> states1.contains_key(t) && states1[t] == states0[t]);
            assert(states1.contains_key(nid));
            assert(states1[nid].edit_distance@ == nv) by {
                if !is_new {
                    let w2 = choose|w2: Seq<char>| in_alphabet(w2, a) && #[trigger] is_row(states0[nid].edit_distance@, p, w2, k);
                    let ov = states0[nid].edit_distance@;
                    assert forall|i: int| 0 <= i < ov.len() implies #[trigger] ov[i] < k + 2 by {
                        assert(ov[i] == clamp(levenshtein(w2, p.take(i)), k));
                    }
                    assert forall|i: int| 0 <= i < nv.len() implies #[trigger] nv[i] < k + 2 by {
                        assert(nv[i] == clamp(levenshtein(wc, p.take(i)), k));
                    }
                    lemma_id_value_injective(ov, nv, k + 2int);
                }
            }
            assert(self.diffs() == k);
            assert(self.base_inv()) by {
                assert(self.states_ok());
                assert(self.states_reachable()) by {
                    assert forall|y: usize| #[trigger] states1.contains_key(y) implies exists|w2: Seq<char>|
                        in_alphabet(w2, a) && #[trigger] is_row(states1[y].edit_distance@, p, w2, k) by {
                        if y == nid && is_new {
                            assert(is_row(states1[y].edit_distance@, p, wc, k));
                        } else {
                            assert(states0.contains_key(y));
                        }
                    }
                }
                assert(self.dead_ok());
            }
            lemma_row_transitions_grow(tx0, states0, states1, from.edit_distance@, p, a, k, j as int);
            lemma_row_transitions_add(tx0, trans1[x]@, states1, from.edit_distance@, p, a, k, j as int, nid);
            assert(self.trans_ok(x, j + 1)) by {
                assert forall|y: usize| #[trigger] trans1.contains_key(y) implies row_transitions(
                    trans1[y]@,
                    states1,
                    states1[y].edit_distance@,
                    p,
                    a,
                    k,
                    if y == x { j + 1 } else { a.len() as int },
                ) by {
                    if y != x {
                        lemma_row_transitions_grow(trans0[y]@, states0, states1, states0[y].edit_distance@, p, a, k, a.len() as int);
                    }
                }
            }
            assert(self.queue_ok(queue1));
            assert(self.closure_ok(queue1, Some(x))) by {
                assert forall|y: usize| #[trigger] states1.contains_key(y) && !is_dead_row(states1[y].edit_distance@, k)
                    && a.len() > 0 implies trans1.contains_key(y) || Some(x) == Some(y)
                    || exists|i: int| 0 <= i < queue1.len() && #[trigger] queue1[i].0 == y by {
                    if y == nid && is_new {
                        assert(queue1[queue1.len() - 1].0 == y);
                    } else if !trans0.contains_key(y) && y != x {
                        let i = choose|i: int| 0 <= i < queue0.len() && #[trigger] queue0[i].0 == y;
                        assert(queue1[i] == queue0[i]);
                    }
                }
            }
        }
        true
    }

    /// Constructs a new Levenshtein automaton for the given pattern.
    /// Returns `None` exactly when the state space overflows: some state
    /// reachable over the alphabet has an identifier that does not fit in a
    /// `usize` (very long patterns with large edit distances).
    pub fn new(pattern: &str, diffs_allowed: usize, alphabet: Vec<char>) -> (r: Option<Self>)
        requires
            diffs_allowed + 2 <= usize::MAX,
            pattern@.len() < usize::MAX,
        ensures
            r is Some <==> all_ids_fit(pattern@, alphabet@, diffs_allowed as nat),
            r matches Some(a) ==> {
                &&& a.wf()
                &&& a.pattern@ == pattern@
                &&& a.alphabet@ == alphabet@
                &&& a.diffs() == diffs_allowed
            },
    {
        let mut automaton = LevenshteinAutomaton {
            pattern: pattern.to_string(),
            alphabet,
            init_state: StateId(0xdeadbeef),
            state_id_to_state: HashMap::new(),
            transitions: HashMap::new(),
            dead_states: HashSet::new(),
        };
        match automaton.create_automaton(diffs_allowed) {
            Some(_) => Some(automaton),
            None => None,
        }
    }

    /// The invariant between two expansions: no state is half expanded.
    closed spec fn outer_inv(&self, queue: Seq<StateId>) -> bool {
        &&& self.base_inv()
        &&& self.queue_ok(queue)
        &&& self.trans_ok(0, self.alphabet@.len() as int)
        &&& self.closure_ok(queue, None)
    }

    proof fn lemma_pop_partial(&self, queue0: Seq<StateId>, x: usize)
        requires
            self.outer_inv(queue0),
            queue0.len() > 0,
            queue0[0].0 == x,
        ensures
            self.partial_inv(queue0.drop_first(), x, 0),
    {
        let states = self.state_id_to_state@;
        let q = queue0.drop_first();
        let k = self.diffs();
        let a = self.alphabet@;
        assert forall|i: int| 0 <= i < q.len() implies #[trigger] q[i].0 != x by {
            assert(q[i] == queue0[i + 1]);
            assert(queue0[0] != queue0[i + 1]);
        }
        assert(self.queue_ok(q)) by {
            assert forall|i: int| 0 <= i < q.len() implies {
                let y = #[trigger] q[i].0;
                &&& states.contains_key(y)
                &&& !is_dead_row(states[y].edit_distance@, self.diffs())
                &&& !self.transitions@.contains_key(y)
            } by {
                assert(q[i] == queue0[i + 1]);
            }
            assert forall|i: int, j: int| 0 <= i < j < q.len() implies #[trigger] q[i] != #[trigger] q[j] by {
                assert(q[i] == queue0[i + 1]);
                assert(q[j] == queue0[j + 1]);
            }
        }
        assert(queue0[0].0 == x);
        assert(self.trans_ok(x, 0));
        assert(self.closure_ok(q, Some(x))) by {
            assert forall|y: usize| #[trigger] states.contains_key(y) && !is_dead_row(states[y].edit_distance@, k)
                && a.len() > 0 implies self.transitions@.contains_key(y) || Some(x) == Some(y)
                || exists|i: int| 0 <= i < q.len() && #[trigger] q[i].0 == y by {
                if !self.transitions@.contains_key(y) && y != x {
                    let i = choose|i: int| 0 <= i < queue0.len() && #[trigger] queue0[i].0 == y;
                    assert(i > 0);
                    assert(q[i - 1] == queue0[i]);
                }
            }
        }
    }

    proof fn lemma_partial_done(&self, queue: Seq<StateId>, x: usize)
        requires
            self.partial_inv(queue, x, self.alphabet@.len() as int),
        ensures
            self.outer_inv(queue),
    {
        let states = self.state_id_to_state@;
        let a = self.alphabet@;
        assert(self.trans_ok(0, a.len() as int)) by {
            assert forall|y: usize| #[trigger] self.transitions@.contains_key(y) implies row_transitions(
                self.transitions@[y]@,
                states,
                states[y].edit_distance@,
                self.pattern@,
                a,
                self.diffs(),
                a.len() as int,
            ) by {
            }
        }
        assert(self.closure_ok(queue, None));
    }

    /// Builds the automaton by breadth-first search over the state space.
    /// Starting from the initial state, it computes the move on every character
    /// of the alphabet, records each new state, and queues the live ones, until
    /// every reachable state has been explored. Returns `None` when the
    /// identifier of a reachable state does not fit in a `usize`.
    fn create_automaton(&mut self, diffs_allowed: usize) -> (r: Option<bool>)
        requires
            old(self).state_id_to_state@ == Map::<usize, State>::empty(),
            old(self).transitions@ == Map::<usize, HashMap<u32, usize>>::empty(),
            old(self).dead_states@ == Set::<usize>::empty(),
            diffs_allowed + 2 <= usize::MAX,
            old(self).pattern@.len() < usize::MAX,
        ensures
            final(self).pattern == old(self).pattern,
            final(self).alphabet == old(self).alphabet,
            r is Some <==> all_ids_fit(old(self).pattern@, old(self).alphabet@, diffs_allowed as nat),
            r matches Some(b) ==> b && final(self).wf() && final(self).diffs() == diffs_allowed,
    {
        let ghost p = self.pattern@;
        let ghost a = self.alphabet@;
        let ghost k = diffs_allowed as nat;
        let ghost pattern0 = self.pattern;
        let ghost alphabet0 = self.alphabet;
        let mut queue: VecDeque<StateId> = VecDeque::new();
        let init_state = State::initial_state(self.pattern.as_str().unicode_len(), diffs_allowed);
        proof {
            assert forall|i: int| 0 <= i <= p.len() implies #[trigger] init_state.edit_distance@[i] == clamp(
                levenshtein(Seq::<char>::empty(), p.take(i)),
                k,
            ) by {
                assert(p.take(i).len() == i);
            }
            assert(in_alphabet(Seq::<char>::empty(), a));
        }
        let init_state_id = match init_state.get_state_id() {
            Some(id) => id,
            None => {
                proof {
                    assert(is_row(init_state.edit_distance@, p, Seq::<char>::empty(), k));
                }
                return None;
            },
        };
        if init_state.is_dead_state() {
            self.dead_states.insert(init_state_id.0);
        }
        self.init_state = init_state_id;
        self.state_id_to_state.insert(init_state_id.0, init_state);
        queue.push_back(init_state_id);
        proof {
            let states = self.state_id_to_state@;
            assert(states.contains_key(init_state_id.0));
            assert(self.diffs() == k);
            assert(self.states_reachable()) by {
                assert forall|y: usize| #[trigger] self.state_id_to_state@.contains_key(y) implies exists|w: Seq<char>|
                    in_alphabet(w, self.alphabet@) && #[trigger] is_row(self.state_id_to_state@[y].edit_distance@, self.pattern@, w, self.diffs()) by {
                    assert(y == init_state_id.0);
                    assert(states[y] == init_state);
                    assert(is_row(init_state.edit_distance@, p, Seq::<char>::empty(), k));
                    assert(in_alphabet(Seq::<char>::empty(), a));
                    assert(in_alphabet(Seq::<char>::empty(), self.alphabet@) && is_row(
                        self.state_id_to_state@[y].edit_distance@,
                        self.pattern@,
                        Seq::<char>::empty(),
                        self.diffs(),
                    ));
                }
            }
            assert(self.base_inv());
            assert(!is_dead_row(states[init_state_id.0].edit_distance@, k)) by {
                assert(states[init_state_id.0].edit_distance@[0] == 0);
            }
            assert(self.queue_ok(queue@));
            assert(self.trans_ok(0, a.len() as int));
            assert(self.closure_ok(queue@, None)) by {
                assert forall|y: usize| #[trigger] states.contains_key(y) && !is_dead_row(states[y].edit_distance@, k)
                    && a.len() > 0 implies self.transitions@.contains_key(y) || None::<usize> == Some(y)
                    || exists|i: int| 0 <= i < queue@.len() && #[trigger] queue@[i].0 == y by {
                    assert(queue@[0].0 == y);
                }
            }
        }
        while queue.len() > 0
            invariant
                self.pattern == pattern0,
                self.alphabet == alphabet0,
                pattern0 == old(self).pattern,
                alphabet0 == old(self).alphabet,
                p == self.pattern@,
                a == self.alphabet@,
                k == diffs_allowed,
                self.diffs() == k,
                self.state_id_to_state@.len() <= usize::MAX,
                self.outer_inv(queue@),
            decreases usize::MAX - self.state_id_to_state@.len(), queue@.len(),
        {
            let ghost queue0 = queue@;
            let ghost s_len0 = self.state_id_to_state@.len();
            let state_id = match queue.pop_front() {
                Some(id) => id,
                None => return None,
            };
            let x = state_id.0;
            let popped_state = match self.state_id_to_state.get(&x) {
                Some(state) => state.copy_state(),
                None => return None,
            };
            proof {
                assert(queue@ =~= queue0.drop_first());
                self.lemma_pop_partial(queue0, x);
            }
            let mut j: usize = 0;
            while j < self.alphabet.len()
                invariant
                    self.pattern == pattern0,
                    self.alphabet == alphabet0,
                    pattern0 == old(self).pattern,
                    alphabet0 == old(self).alphabet,
                    p == self.pattern@,
                    a == self.alphabet@,
                    k == diffs_allowed,
                    self.diffs() == k,
                    j <= a.len(),
                    self.partial_inv(queue@, x, j as int),
                    popped_state.edit_distance@ == self.state_id_to_state@[x].edit_distance@,
                    popped_state.diffs_allowed == k,
                    self.state_id_to_state@.len() >= s_len0,
                    queue@.len() - (queue0.len() - 1) <= self.state_id_to_state@.len() - s_len0,
                    self.state_id_to_state@.len() <= usize::MAX,
                decreases a.len() - j,
            {
                if !self.expand_on(&mut queue, x, &popped_state, j) {
                    return None;
                }
                proof {
                    assert(self.state_id_to_state@.len() == self.state_id_to_state.len());
                }
                j = j + 1;
            }
            proof {
                self.lemma_partial_done(queue@, x);
            }
        }
        proof {
            assert(self.wf()) by {
                reveal(LevenshteinAutomaton::wf);
            }
            assert forall|w: Seq<char>, v: Seq<usize>| in_alphabet(w, a) && #[trigger] is_row(v, p, w, k) implies id_fits(
                v,
                k + 2int,
            ) by {
                self.lemma_reachable(w);
                let y = choose|y: usize| self.state_id_to_state@.contains_key(y) && #[trigger] is_row(
                    self.state_id_to_state@[y].edit_distance@,
                    p,
                    w,
                    k,
                );
                assert(v =~= self.state_id_to_state@[y].edit_distance@);
            }
        }
        Some(true)
    }

    pub(crate) proof fn lemma_wf_init(&self)
        requires
            self.wf(),
        ensures
            self.state_id_to_state@.contains_key(self.init_state.0),
            is_row(self.state_id_to_state@[self.init_state.0].edit_distance@, self.pattern@, Seq::empty(), self.diffs()),
            self.diffs() + 2 <= usize::MAX,
    {
        reveal(LevenshteinAutomaton::wf);
    }

    pub(crate) proof fn lemma_wf_state(&self, x: usize)
        requires
            self.wf(),
            self.state_id_to_state@.contains_key(x),
        ensures
            self.state_id_to_state@[x].edit_distance@.len() == self.pattern@.len() + 1,
            self.state_id_to_state@[x].diffs_allowed == self.diffs(),
            self.diffs() + 2 <= usize::MAX,
            self.transitions@.contains_key(x) <==> (!is_dead_row(
                self.state_id_to_state@[x].edit_distance@,
                self.diffs(),
            ) && self.alphabet@.len() > 0),
    {
        assert(self.states_ok() && self.diffs() + 2 <= usize::MAX) by {
            reveal(LevenshteinAutomaton::wf);
        }
        assert(self.transitions@.contains_key(x) <==> (!is_dead_row(
            self.state_id_to_state@[x].edit_distance@,
            self.diffs(),
        ) && self.alphabet@.len() > 0)) by {
            reveal(LevenshteinAutomaton::wf);
        }
    }

    pub(crate) proof fn lemma_wf_move(&self, x: usize, c: char)
        requires
            self.wf(),
            self.transitions@.contains_key(x),
        ensures
            self.transitions@[x]@.contains_key(c as u32) <==> self.alphabet@.contains(c),
            self.transitions@[x]@.contains_key(c as u32) ==> {
                let t = self.transitions@[x]@[c as u32];
                &&& self.state_id_to_state@.contains_key(t)
                &&& is_step(
                    self.state_id_to_state@[t].edit_distance@,
                    self.state_id_to_state@[x].edit_distance@,
                    self.pattern@,
                    c,
                    self.diffs(),
                )
            },
    {
        let a = self.alphabet@;
        let tx = self.transitions@[x]@;
        assert(row_transitions(tx, self.state_id_to_state@, self.state_id_to_state@[x].edit_distance@, self.pattern@, a, self.diffs(), a.len() as int)) by {
            reveal(LevenshteinAutomaton::wf);
        }
        if tx.contains_key(c as u32) {
            let j = choose|j: int| 0 <= j < a.len() && #[trigger] a[j] as u32 == c as u32;
            lemma_char_code_injective(a[j], c);
        }
        if a.contains(c) {
            let j = choose|j: int| 0 <= j < a.len() && a[j] == c;
            assert(tx.contains_key(a[j] as u32));
        }
    }

    /// The facts a built automaton carries: its initial state holds the row of
    /// the empty word; every recorded state carries the threshold, one
    /// distance per prefix of the pattern, and is named by its identifier;
    /// every recorded state is the row of a word over the alphabet;
    /// `dead_states` holds exactly the recorded dead states; `transitions`
    /// has an entry exactly for the recorded live states (when the alphabet
    /// is not empty), each with a correct move on every character of the
    /// alphabet and on nothing else.
    pub proof fn lemma_built_facts(&self)
        requires
            self.wf(),
        ensures
            self.state_id_to_state@.contains_key(self.init_state.0),
            is_row(
                self.state_id_to_state@[self.init_state.0].edit_distance@,
                self.pattern@,
                Seq::empty(),
                self.diffs(),
            ),
            self.diffs() + 2 <= usize::MAX,
            self.states_ok(),
            self.states_reachable(),
            self.dead_ok(),
            forall|y: usize|
                #![trigger self.transitions@.contains_key(y)]
                #![trigger self.state_id_to_state@.contains_key(y)]
                self.transitions@.contains_key(y) <==> (self.state_id_to_state@.contains_key(y)
                    && !is_dead_row(self.state_id_to_state@[y].edit_distance@, self.diffs())
                    && self.alphabet@.len() > 0),
            forall|y: usize| #[trigger]
                self.transitions@.contains_key(y) ==> row_transitions(
                    self.transitions@[y]@,
                    self.state_id_to_state@,
                    self.state_id_to_state@[y].edit_distance@,
                    self.pattern@,
                    self.alphabet@,
                    self.diffs(),
                    self.alphabet@.len() as int,
                ),
    {
        reveal(LevenshteinAutomaton::wf);
    }

    /// With a non-empty alphabet a built automaton records exactly one dead
    /// state, the row in which every entry is `k + 1` (any word over the
    /// alphabet longer than the pattern by more than `k` reaches it), so it has
    /// fewer states with moves than states. With an empty alphabet it records
    /// no dead state and no moves.
    pub proof fn lemma_dead_state_count(&self)
        requires
            self.wf(),
        ensures
            self.alphabet@.len() == 0 ==> self.dead_states@.len() == 0 && self.transitions@.len() == 0,
            self.alphabet@.len() > 0 ==> self.dead_states@.len() == 1 && self.transitions@.len()
                < self.state_id_to_state@.len(),
    {
        self.lemma_built_facts();
        let states = self.state_id_to_state@;
        let p = self.pattern@;
        let a = self.alphabet@;
        let k = self.diffs();
        if a.len() == 0 {
            assert forall|y: usize| !self.dead_states@.contains(y) by {
                if self.dead_states@.contains(y) {
                    let w = choose|w: Seq<char>| in_alphabet(w, a) && #[trigger] is_row(states[y].edit_distance@, p, w, k);
                    if w.len() > 0 {
                        assert(a.contains(w[0]));
                    }
                    assert(w =~= Seq::<char>::empty());
                    assert(p.take(0) =~= Seq::<char>::empty());
                    assert(states[y].edit_distance@[0] == clamp(levenshtein(w, p.take(0)), k));
                }
            }
            assert(self.dead_states@ =~= Set::<usize>::empty());
            assert(self.transitions@.dom() =~= Set::<usize>::empty());
        } else {
            let c = a[0];
            let w = Seq::new((p.len() + k + 1) as nat, |i: int| c);
            assert forall|i: int| 0 <= i < w.len() implies a.contains(#[trigger] w[i]) by {
                assert(w[i] == a[0]);
            }
            self.lemma_reachable(w);
            let x = choose|x: usize| states.contains_key(x) && #[trigger] is_row(states[x].edit_distance@, p, w, k);
            let vx = states[x].edit_distance@;
            assert forall|i: int| 0 <= i < vx.len() implies #[trigger] vx[i] > k by {
                lemma_levenshtein_lower_bound(w, p.take(i));
                assert(vx[i] == clamp(levenshtein(w, p.take(i)), k));
            }
            assert(self.dead_states@.contains(x));
            lemma_row_shape(vx, p, w, k);
            assert forall|y: usize| self.dead_states@.contains(y) implies y == x by {
                let vy = states[y].edit_distance@;
                let wy = choose|wy: Seq<char>| in_alphabet(wy, a) && #[trigger] is_row(vy, p, wy, k);
                lemma_row_shape(vy, p, wy, k);
                assert(vy =~= vx);
            }
            assert(self.dead_states@ =~= set![x]);
            let sd = states.dom();
            let td = self.transitions@.dom();
            assert(td.subset_of(sd.remove(x)));
            lemma_len_subset(td, sd.remove(x));
        }
    }

    /// The state reached from the initial state by following the recorded
    /// moves along `word`, if every one of them is recorded.
    pub open spec fn walk(&self, word: Seq<char>) -> Option<usize>
        decreases word.len(),
    {
        if word.len() == 0 {
            Some(self.init_state.0)
        } else {
            match self.walk(word.drop_last()) {
                Some(x) => if self.transitions@.contains_key(x) && self.transitions@[x]@.contains_key(
                    word.last() as u32,
                ) {
                    Some(self.transitions@[x]@[word.last() as u32])
                } else {
                    None
                },
                None => None,
            }
        }
    }

    /// Following the recorded moves along a word, when they are all there,
    /// leads to a recorded state holding the row of that word, and the word
    /// is written with the alphabet.
    pub proof fn lemma_walk_row(&self, word: Seq<char>)
        requires
            self.wf(),
            self.walk(word) is Some,
        ensures
            self.state_id_to_state@.contains_key(self.walk(word)->0),
            is_row(self.state_id_to_state@[self.walk(word)->0].edit_distance@, self.pattern@, word, self.diffs()),
            in_alphabet(word, self.alphabet@),
        decreases word.len(),
    {
        if word.len() == 0 {
            self.lemma_wf_init();
            assert(word =~= Seq::<char>::empty());
        } else {
            let u = word.drop_last();
            let c = word.last();
            self.lemma_walk_row(u);
            let y = self.walk(u)->0;
            self.lemma_wf_move(y, c);
            let t = self.transitions@[y]@[c as u32];
            lemma_step_of_row(
                self.state_id_to_state@[t].edit_distance@,
                self.state_id_to_state@[y].edit_distance@,
                self.pattern@,
                u,
                c,
                self.diffs(),
            );
            assert(word =~= u.push(c));
            assert forall|i: int| 0 <= i < word.len() implies self.alphabet@.contains(#[trigger] word[i]) by {
                if i < u.len() {
                    assert(word[i] == u[i]);
                }
            }
        }
    }

    /// Along any word over the alphabet the recorded moves lead, for some
    /// prefix, to a recorded state holding the row of the whole word; the walk
    /// stops before the end of the word only at a dead state.
    pub proof fn lemma_walk(&self, w: Seq<char>) -> (j: int)
        requires
            self.wf(),
            in_alphabet(w, self.alphabet@),
        ensures
            0 <= j <= w.len(),
            self.walk(w.take(j)) is Some,
            self.state_id_to_state@.contains_key(self.walk(w.take(j))->0),
            is_row(self.state_id_to_state@[self.walk(w.take(j))->0].edit_distance@, self.pattern@, w, self.diffs()),
            j < w.len() ==> is_dead_row(self.state_id_to_state@[self.walk(w.take(j))->0].edit_distance@, self.diffs()),
        decreases w.len(),
    {
        let states = self.state_id_to_state@;
        let p = self.pattern@;
        let a = self.alphabet@;
        let k = self.diffs();
        if w.len() == 0 {
            self.lemma_wf_init();
            assert(w.take(0) =~= Seq::<char>::empty());
            assert(w =~= Seq::<char>::empty());
            0
        } else {
            let u = w.drop_last();
            let c = w.last();
            assert forall|i: int| 0 <= i < u.len() implies a.contains(#[trigger] u[i]) by {
                assert(u[i] == w[i]);
            }
            let ju = self.lemma_walk(u);
            assert(u.take(ju) =~= w.take(ju));
            let x = self.walk(u.take(ju))->0;
            let v = states[x].edit_distance@;
            assert(w =~= u.push(c));
            assert(a.contains(w[w.len() - 1]));
            self.lemma_wf_state(x);
            if is_dead_row(v, k) {
                assert(dead_word(p, u, k)) by {
                    assert forall|i: int| 0 <= i <= p.len() implies levenshtein(u, #[trigger] p.take(i)) > k by {
                        assert(v[i] > k);
                    }
                }
                lemma_dead_word_extends(p, u, c, k);
                assert forall|i: int| 0 <= i <= p.len() implies #[trigger] v[i] == clamp(levenshtein(w, p.take(i)), k) by {
                    assert(v[i] > k);
                    assert(levenshtein(w, p.take(i)) > k);
                }
                ju
            } else {
                assert(u.take(u.len() as int) =~= u);
                assert(w.drop_last() =~= u);
                self.lemma_wf_move(x, c);
                let t = self.transitions@[x]@[c as u32];
                lemma_step_of_row(states[t].edit_distance@, v, p, u, c, k);
                assert(w.take(w.len() as int) =~= w);
                assert(self.walk(w) == Some(t));
                w.len() as int
            }
        }
    }

    /// Every recorded state is reached from the initial state by following
    /// the recorded moves along some word over the alphabet.
    pub proof fn lemma_every_state_reached(&self, y: usize)
        requires
            self.wf(),
            self.state_id_to_state@.contains_key(y),
        ensures
            exists|u: Seq<char>| in_alphabet(u, self.alphabet@) && #[trigger] self.walk(u) == Some(y),
    {
        self.lemma_built_facts();
        let states = self.state_id_to_state@;
        let p = self.pattern@;
        let a = self.alphabet@;
        let k = self.diffs();
        let w = choose|w: Seq<char>| in_alphabet(w, a) && #[trigger] is_row(states[y].edit_distance@, p, w, k);
        let j = self.lemma_walk(w);
        let u = w.take(j);
        let x = self.walk(u)->0;
        assert(states[x].edit_distance@ =~= states[y].edit_distance@);
        assert forall|i: int| 0 <= i < u.len() implies a.contains(#[trigger] u[i]) by {
            assert(u[i] == w[i]);
        }
        assert(in_alphabet(u, a) && self.walk(u) == Some(y));
    }

    /// A built automaton has at most `(k + 2)^(pattern.len() + 1)` states,
    /// one per clamped distance vector, and no more states with moves than states.
    pub proof fn lemma_state_count_bound(&self)
        requires
            self.wf(),
        ensures
            self.state_id_to_state@.len() <= pow(self.diffs() + 2int, (self.pattern@.len() + 1) as nat),
            self.transitions@.len() <= self.state_id_to_state@.len(),
    {
        self.lemma_built_facts();
        let states = self.state_id_to_state@;
        let p = self.pattern@;
        let a = self.alphabet@;
        let k = self.diffs();
        let base = k + 2int;
        let n = pow(base, (p.len() + 1) as nat);
        let dom = states.dom();
        let f = |y: usize| y as int;
        let img = dom.map(f);
        assert forall|y: usize| #[trigger] dom.contains(y) implies (y as int) < n by {
            let w = choose|w: Seq<char>| in_alphabet(w, a) && #[trigger] is_row(states[y].edit_distance@, p, w, k);
            lemma_row_shape(states[y].edit_distance@, p, w, k);
            lemma_id_value_below(states[y].edit_distance@, base);
        }
        assert(img.subset_of(set_int_range(0, n))) by {
            assert forall|z: int| img.contains(z) implies set_int_range(0, n).contains(z) by {
                let y = choose|y: usize| dom.contains(y) && f(y) == z;
            }
        }
        assert(injective_on(f, dom));
        lemma_map_size(dom, img, f);
        lemma_pow_at_least_one(base, (p.len() + 1) as nat);
        lemma_int_range(0, n);
        lemma_len_subset(img, set_int_range(0, n));
        assert(self.transitions@.dom().subset_of(dom));
        lemma_len_subset(self.transitions@.dom(), dom);
    }

    /// Running the recurrence directly agrees with walking the automaton: for
    /// a word over the alphabet, its row (what folding `on_new_char` over the
    /// word from `initial_state` gives, see `lemma_fold_step` and
    /// `lemma_initial_state_is_row`) accepts exactly when `match_word` does.
    pub proof fn lemma_fold_agrees_with_match(&self, w: Seq<char>)
        requires
            self.wf(),
            in_alphabet(w, self.alphabet@),
        ensures
            accepts_row(row_of(self.pattern@, w, self.diffs()), self.diffs()) == (in_alphabet(w, self.alphabet@)
                && levenshtein(w, self.pattern@) <= self.diffs()),
    {
        self.lemma_wf_init();
        lemma_row_accepts(self.pattern@, w, self.diffs());
    }

    /// A move recorded out of state `x` is on the code of a character of the alphabet.
    pub(crate) proof fn lemma_wf_code(&self, x: usize, code: u32)
        requires
            self.wf(),
            self.transitions@.contains_key(x),
            self.transitions@[x]@.contains_key(code),
        ensures
            exists|c: char| #[trigger] self.alphabet@.contains(c) && c as u32 == code,
    {
        let a = self.alphabet@;
        let tx = self.transitions@[x]@;
        assert(row_transitions(tx, self.state_id_to_state@, self.state_id_to_state@[x].edit_distance@, self.pattern@, a, self.diffs(), a.len() as int)) by {
            reveal(LevenshteinAutomaton::wf);
        }
        let j = choose|j: int| 0 <= j < a.len() && #[trigger] a[j] as u32 == code;
        assert(a.contains(a[j]) && a[j] as u32 == code);
    }

    /// In a built automaton every recorded distance is clamped to
    /// `diffs() + 1`, and equal distance vectors are one state: distinct
    /// identifiers hold distinct vectors.
    pub proof fn lemma_states_clamped_and_merged(&self)
        requires
            self.wf(),
        ensures
            forall|y: usize, i: int|
                #![trigger self.state_id_to_state@[y].edit_distance@[i]]
                self.state_id_to_state@.contains_key(y) && 0 <= i < self.state_id_to_state@[y].edit_distance@.len()
                    ==> self.state_id_to_state@[y].edit_distance@[i] <= self.diffs() + 1,
            forall|y1: usize, y2: usize|
                #![trigger self.state_id_to_state@[y1], self.state_id_to_state@[y2]]
                self.state_id_to_state@.contains_key(y1) && self.state_id_to_state@.contains_key(y2) && y1 != y2
                    ==> self.state_id_to_state@[y1].edit_distance@ != self.state_id_to_state@[y2].edit_distance@,
    {
        reveal(LevenshteinAutomaton::wf);
        let states = self.state_id_to_state@;
        let p = self.pattern@;
        let k = self.diffs();
        assert forall|y: usize, i: int|
            #![trigger states[y].edit_distance@[i]]
            states.contains_key(y) && 0 <= i < states[y].edit_distance@.len() implies states[y].edit_distance@[i] <= k + 1 by {
            let w = choose|w: Seq<char>| in_alphabet(w, self.alphabet@) && #[trigger] is_row(states[y].edit_distance@, p, w, k);
            assert(states[y].edit_distance@[i] == clamp(levenshtein(w, p.take(i)), k));
        }
    }

    /// In a built automaton the dead states are known states that have no
    /// moves and do not accept, and the initial state is not dead.
    pub proof fn lemma_dead_states(&self)
        requires
            self.wf(),
        ensures
            forall|y: usize| #[trigger]
                self.dead_states@.contains(y) ==> {
                    &&& self.state_id_to_state@.contains_key(y)
                    &&& !self.transitions@.contains_key(y)
                    &&& !accepts_row(self.state_id_to_state@[y].edit_distance@, self.diffs())
                },
            !self.dead_states@.contains(self.init_state.0),
    {
        reveal(LevenshteinAutomaton::wf);
        let states = self.state_id_to_state@;
        assert forall|y: usize| #[trigger] self.dead_states@.contains(y) implies {
            &&& states.contains_key(y)
            &&& !self.transitions@.contains_key(y)
            &&& !accepts_row(states[y].edit_distance@, self.diffs())
        } by {
            lemma_dead_not_accepting(states[y].edit_distance@, self.diffs());
        }
        let v = states[self.init_state.0].edit_distance@;
        assert(self.pattern@.take(0) =~= Seq::<char>::empty());
        assert(v[0] == 0);
    }

    /// For every word over the alphabet, some recorded state holds the row of
    /// that word.
    pub proof fn lemma_reachable(&self, w: Seq<char>)
        requires
            self.wf(),
            in_alphabet(w, self.alphabet@),
        ensures
            exists|x: usize|
                self.state_id_to_state@.contains_key(x) && #[trigger] is_row(
                    self.state_id_to_state@[x].edit_distance@,
                    self.pattern@,
                    w,
                    self.diffs(),
                ),
        decreases w.len(),
    {
        let states = self.state_id_to_state@;
        let p = self.pattern@;
        let a = self.alphabet@;
        let k = self.diffs();
        if w.len() == 0 {
            self.lemma_wf_init();
            assert(w =~= Seq::<char>::empty());
            assert(is_row(states[self.init_state.0].edit_distance@, p, w, k));
            assert(states.contains_key(self.init_state.0));
        } else {
            let u = w.drop_last();
            let c = w.last();
            assert forall|i: int| 0 <= i < u.len() implies a.contains(#[trigger] u[i]) by {
                assert(u[i] == w[i]);
            }
            self.lemma_reachable(u);
            let x = choose|x: usize| states.contains_key(x) && #[trigger] is_row(states[x].edit_distance@, p, u, k);
            let v = states[x].edit_distance@;
            assert(w =~= u.push(c));
            assert(a.contains(w[w.len() - 1]));
            self.lemma_wf_state(x);
            if is_dead_row(v, k) {
                assert(dead_word(p, u, k)) by {
                    assert forall|i: int| 0 <= i <= p.len() implies levenshtein(u, #[trigger] p.take(i)) > k by {
                        assert(v[i] > k);
                    }
                }
                lemma_dead_word_extends(p, u, c, k);
                assert(is_row(v, p, w, k)) by {
                    assert forall|i: int| 0 <= i <= p.len() implies #[trigger] v[i] == clamp(levenshtein(w, p.take(i)), k) by {
                        assert(v[i] > k);
                        assert(levenshtein(w, p.take(i)) > k);
                    }
                }
                assert(states.contains_key(x) && is_row(states[x].edit_distance@, p, w, k));
            } else {
                self.lemma_wf_move(x, c);
                let t = self.transitions@[x]@[c as u32];
                lemma_step_of_row(states[t].edit_distance@, v, p, u, c, k);
                assert(states.contains_key(t) && is_row(states[t].edit_distance@, p, w, k));
            }
        }
    }

    /// Walks the DFA over `against`. Returns `None` when the walk stops early:
    /// at a dead state, or on a character outside the alphabet; otherwise
    /// whether the final state accepts.
    fn match_word_internal(&self, against: &str) -> (r: Option<bool>)
        requires
            self.wf(),
        ensures
            r is None <==> exists|i: int|
                0 <= i < against@.len() && #[trigger] in_alphabet(against@.take(i), self.alphabet@)
                    && (dead_word(self.pattern@, against@.take(i), self.diffs())
                    || !self.alphabet@.contains(against@[i])),
            r matches Some(b) ==> in_alphabet(against@, self.alphabet@) && b == (levenshtein(
                against@,
                self.pattern@,
            ) <= self.diffs()),
    {
        let ghost states = self.state_id_to_state@;
        let ghost p = self.pattern@;
        let ghost a = self.alphabet@;
        let ghost k = self.diffs();
        let ghost w = against@;
        let mut start_state_id: usize = self.init_state.0;
        assert(w.take(0) =~= Seq::<char>::empty());
        proof {
            self.lemma_wf_init();
        }
        for c in it: against.chars()
            invariant
                self.wf(),
                states == self.state_id_to_state@,
                p == self.pattern@,
                a == self.alphabet@,
                k == self.diffs(),
                it.seq() == w,
                w == against@,
                states.contains_key(start_state_id),
                is_row(states[start_state_id].edit_distance@, p, w.take(it.index()), k),
                in_alphabet(w.take(it.index()), a),
                forall|i: int|
                    0 <= i < it.index() ==> !(#[trigger] in_alphabet(w.take(i), a) && (dead_word(p, w.take(i), k)
                        || !a.contains(w[i]))),
        {
            let ghost i = it.index();
            let ghost u = w.take(i);
            let ghost v = states[start_state_id].edit_distance@;
            assert(c == w[i]);
            proof {
                self.lemma_wf_state(start_state_id);
            }
            let inner = match self.transitions.get(&start_state_id) {
                Some(m) => m,
                None => {
                    proof {
                        if a.len() > 0 {
                            assert(is_dead_row(v, k));
                            assert forall|j: int| 0 <= j <= p.len() implies levenshtein(u, #[trigger] p.take(j)) > k by {
                                assert(v[j] > k);
                            }
                        }
                        assert(in_alphabet(w.take(i), a) && (dead_word(p, w.take(i), k) || !a.contains(w[i])));
                    }
                    return None;
                },
            };
            let next = match inner.get(&(c as u32)) {
                Some(n) => *n,
                None => {
                    proof {
                        self.lemma_wf_move(start_state_id, c);
                        assert(in_alphabet(w.take(i), a) && (dead_word(p, w.take(i), k) || !a.contains(w[i])));
                    }
                    return None;
                },
            };
            proof {
                self.lemma_wf_move(start_state_id, c);
                lemma_step_of_row(states[next].edit_distance@, v, p, u, c, k);
                assert(w.take(i + 1) =~= u.push(c));
                assert forall|m: int| 0 <= m < i + 1 implies a.contains(#[trigger] w.take(i + 1)[m]) by {
                    if m < i {
                        assert(w.take(i + 1)[m] == u[m]);
                    }
                }
                assert(!is_dead_row(v, k));
                if dead_word(p, u, k) {
                    assert forall|m: int| 0 <= m < v.len() implies #[trigger] v[m] > k by {
                        assert(levenshtein(u, p.take(m)) > k);
                    }
                }
            }
            start_state_id = next;
        }
        proof {
            assert(w.take(w.len() as int) =~= w);
        }
        match self.state_id_to_state.get(&start_state_id) {
            Some(state) => {
                proof {
                    self.lemma_wf_state(start_state_id);
                    let v = states[start_state_id].edit_distance@;
                    assert(p.take(p.len() as int) =~= p);
                    assert(v[p.len() as int] == clamp(levenshtein(w, p.take(p.len() as int)), k));
                }
                Some(state.is_accepting())
            },
            None => None,
        }
    }

    /// Returns true if the Levenshtein distance between `against` and the pattern
    /// is at most the allowed threshold, and every character of `against`
    /// belongs to the alphabet.
    pub fn match_word(&self, against: &str) -> (r: bool)
        requires
            self.wf(),
        ensures
            r == (in_alphabet(against@, self.alphabet@) && levenshtein(against@, self.pattern@)
                <= self.diffs()),
    {
        match self.match_word_internal(against) {
            Some(b) => b,
            None => {
                proof {
                    let i = choose|i: int|
                        0 <= i < against@.len() && #[trigger] in_alphabet(against@.take(i), self.alphabet@)
                            && (dead_word(self.pattern@, against@.take(i), self.diffs())
                            || !self.alphabet@.contains(against@[i]));
                    if dead_word(self.pattern@, against@.take(i), self.diffs()) {
                        lemma_dead_prefix(self.pattern@, against@, self.diffs(), i);
                        assert(self.pattern@.take(self.pattern@.len() as int) =~= self.pattern@);
                    }
                }
                false
            },
        }
    }
}

} // verus!

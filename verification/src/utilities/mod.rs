use vstd::prelude::*;
use std::collections::HashMap;
use vstd::std_specs::hash::spec_hash_map_iter;
use vstd::std_specs::iter::IteratorSpec;

verus! {

broadcast use vstd::std_specs::hash::group_hash_axioms;

/// A node of a trie of words. Each child is keyed by the code of the
/// character that leads to it; a node that ends a stored word holds it.
pub struct TrieNode {
    pub nodes: HashMap<u32, TrieNode>,
    pub word: Option<String>,
}

/// The text of an optional word.
pub open spec fn word_view(word: Option<String>) -> Option<Seq<char>> {
    match word {
        Some(s) => Some(s@),
        None => None,
    }
}

/// Follows `path` from `node`: `None` when some character has no child,
/// otherwise the word held by the node reached.
pub open spec fn lookup(node: TrieNode, path: Seq<char>) -> Option<Option<Seq<char>>>
    decreases path.len(),
{
    if path.len() == 0 {
        Some(word_view(node.word))
    } else if node.nodes@.contains_key(path[0] as u32) {
        lookup(node.nodes@[path[0] as u32], path.drop_first())
    } else {
        None
    }
}

/// `q` is a prefix of `w`.
pub open spec fn is_prefix(q: Seq<char>, w: Seq<char>) -> bool {
    q.len() <= w.len() && w.take(q.len() as int) == q
}

/// What `lookup(_, q)` gives after the word `word` is stored at the end of
/// `path` below `node`: the word at the end of the path, an empty node on
/// each prefix of the path that had none, and what was there elsewhere.
pub open spec fn inserted(node: TrieNode, path: Seq<char>, word: Seq<char>, q: Seq<char>) -> Option<Option<Seq<char>>> {
    if q == path {
        Some(Some(word))
    } else if is_prefix(q, path) && lookup(node, q) is None {
        Some(None)
    } else {
        lookup(node, q)
    }
}

/// `word` is stored in the trie rooted at `node`.
pub open spec fn holds_word(node: TrieNode, word: Seq<char>) -> bool {
    lookup(node, word) == Some(Some(word))
}

/// What looking up `q` finds in a trie built by adding `words`, in order,
/// to an empty trie: the word itself if it was added, an empty node on every
/// other prefix of an added word (and at the root), and nothing elsewhere.
pub open spec fn expected_lookup(words: Seq<Seq<char>>, q: Seq<char>) -> Option<Option<Seq<char>>> {
    if words.contains(q) {
        Some(Some(q))
    } else if q.len() == 0 || exists|i: int| 0 <= i < words.len() && #[trigger] is_prefix(q, words[i]) {
        Some(None)
    } else {
        None
    }
}

/// The trie rooted at `node` is the one built from `words`.
pub open spec fn built_from(node: TrieNode, words: Seq<Seq<char>>) -> bool {
    forall|q: Seq<char>| #[trigger] lookup(node, q) == expected_lookup(words, q)
}

/// Adding a word to a trie built from `words` gives the trie built from
/// `words` followed by that word.
pub proof fn lemma_add_built(before: TrieNode, after: TrieNode, words: Seq<Seq<char>>, word: Seq<char>)
    requires
        built_from(before, words),
        forall|q: Seq<char>| #[trigger] lookup(after, q) == inserted(before, word, word, q),
    ensures
        built_from(after, words.push(word)),
{
    let ws = words.push(word);
    assert forall|q: Seq<char>| #[trigger] lookup(after, q) == expected_lookup(ws, q) by {
        assert(lookup(after, q) == inserted(before, word, word, q));
        assert(lookup(before, q) == expected_lookup(words, q));
        assert(ws.contains(q) <==> (words.contains(q) || q == word)) by {
            if ws.contains(q) {
                let i = choose|i: int| 0 <= i < ws.len() && ws[i] == q;
                if i < words.len() {
                    assert(words[i] == q);
                }
            }
            if words.contains(q) {
                let i = choose|i: int| 0 <= i < words.len() && words[i] == q;
                assert(ws[i] == q);
            }
            assert(ws[words.len() as int] == word);
        }
        let old_prefix = exists|i: int| 0 <= i < words.len() && #[trigger] is_prefix(q, words[i]);
        let new_prefix = exists|i: int| 0 <= i < ws.len() && #[trigger] is_prefix(q, ws[i]);
        assert(new_prefix <==> (old_prefix || is_prefix(q, word))) by {
            if new_prefix {
                let i = choose|i: int| 0 <= i < ws.len() && #[trigger] is_prefix(q, ws[i]);
                if i < words.len() {
                    assert(ws[i] == words[i]);
                }
            }
            if old_prefix {
                let i = choose|i: int| 0 <= i < words.len() && #[trigger] is_prefix(q, words[i]);
                assert(ws[i] == words[i]);
            }
            if is_prefix(q, word) {
                assert(ws[words.len() as int] == word);
            }
        }
        if words.contains(q) {
            let i = choose|i: int| 0 <= i < words.len() && words[i] == q;
            assert(q.take(q.len() as int) =~= q);
            assert(is_prefix(q, words[i]));
        }
    }
}

/// What a trie built from `words` answers: it holds exactly the added words,
/// it has a node exactly on the prefixes of added words (and at the root),
/// every word it holds sits at its own path (so the internal lookup never
/// finds a different word), and its root has a child for `c` exactly when
/// some added word starts with `c`.
pub proof fn lemma_built_queries(node: TrieNode, words: Seq<Seq<char>>)
    requires
        built_from(node, words),
    ensures
        forall|w: Seq<char>| #[trigger] holds_word(node, w) <==> words.contains(w),
        forall|q: Seq<char>| (#[trigger] lookup(node, q) is Some) <==> (q.len() == 0 || exists|i: int|
            0 <= i < words.len() && #[trigger] is_prefix(q, words[i])),
        forall|q: Seq<char>| #[trigger] lookup(node, q) matches Some(Some(s)) ==> s == q,
        forall|c: char| #[trigger] node.nodes@.contains_key(c as u32) <==> exists|i: int|
            0 <= i < words.len() && words[i].len() > 0 && #[trigger] words[i][0] == c,
{
    assert forall|q: Seq<char>| (#[trigger] lookup(node, q) is Some) <==> (q.len() == 0 || exists|i: int|
        0 <= i < words.len() && #[trigger] is_prefix(q, words[i])) by {
        assert(lookup(node, q) == expected_lookup(words, q));
        if words.contains(q) {
            let i = choose|i: int| 0 <= i < words.len() && words[i] == q;
            assert(q.take(q.len() as int) =~= q);
            assert(is_prefix(q, words[i]));
        }
    }
    assert forall|w: Seq<char>| #[trigger] holds_word(node, w) <==> words.contains(w) by {
        assert(lookup(node, w) == expected_lookup(words, w));
    }
    assert forall|q: Seq<char>| #[trigger] lookup(node, q) is Some && lookup(node, q)->0 is Some implies lookup(node, q)->0->0 == q by {
        assert(lookup(node, q) == expected_lookup(words, q));
    }
    assert forall|c: char| #[trigger] node.nodes@.contains_key(c as u32) <==> exists|i: int|
        0 <= i < words.len() && words[i].len() > 0 && #[trigger] words[i][0] == c by {
        let q = seq![c];
        assert(q.drop_first() =~= Seq::<char>::empty());
        assert(lookup(node, q) == expected_lookup(words, q));
        if exists|i: int| 0 <= i < words.len() && words[i].len() > 0 && #[trigger] words[i][0] == c {
            let i = choose|i: int| 0 <= i < words.len() && words[i].len() > 0 && #[trigger] words[i][0] == c;
            assert(words[i].take(1) =~= q);
            assert(is_prefix(q, words[i]));
        }
        assert(q[0] == c);
        assert(q.len() == 1);
        if node.nodes@.contains_key(c as u32) {
            assert(lookup(node.nodes@[c as u32], Seq::<char>::empty()) is Some);
            assert(lookup(node, q) == lookup(node.nodes@[c as u32], q.drop_first()));
            assert(lookup(node, q) is Some);
            if words.contains(q) {
                let i = choose|i: int| 0 <= i < words.len() && words[i] == q;
                assert(words[i][0] == c);
            } else {
                let i = choose|i: int| 0 <= i < words.len() && #[trigger] is_prefix(q, words[i]);
                assert(words[i].take(1)[0] == words[i][0]);
            }
        }
    }
}

/// Distinct characters have distinct codes.
pub proof fn lemma_char_code_injective(c: char, d: char)
    requires
        c as u32 == d as u32,
    ensures
        c == d,
{
}

/// Storing a word stores it: looking it up afterwards finds it.
pub proof fn lemma_added_word_exists(before: TrieNode, after: TrieNode, word: Seq<char>)
    requires
        forall|q: Seq<char>| #[trigger] lookup(after, q) == inserted(before, word, word, q),
    ensures
        holds_word(after, word),
{
    assert(lookup(after, word) == inserted(before, word, word, word));
}

/// Storing a word leaves every other word as it was: present if it was
/// present, absent if it was absent.
pub proof fn lemma_add_keeps_other_words(before: TrieNode, after: TrieNode, word: Seq<char>, other: Seq<char>)
    requires
        forall|q: Seq<char>| #[trigger] lookup(after, q) == inserted(before, word, word, q),
        other != word,
    ensures
        holds_word(after, other) == holds_word(before, other),
{
    assert(lookup(after, other) == inserted(before, word, word, other));
}

impl Clone for TrieNode {
    /// A copy of the trie: every path leads to the same word as before.
    fn clone(&self) -> (r: Self)
        ensures
            forall|q: Seq<char>| #[trigger] lookup(r, q) == lookup(*self, q),
    {
        self.copy_node()
    }
}

impl TrieNode {
    /// A copy of the trie below this node, made child by child.
    fn copy_node(&self) -> (r: TrieNode)
        ensures
            forall|q: Seq<char>| #[trigger] lookup(r, q) == lookup(*self, q),
        decreases self,
    {
        let mut nodes: HashMap<u32, TrieNode> = HashMap::new();
        for pair in it: self.nodes.iter()
            invariant
                it.seq() == spec_hash_map_iter(&self.nodes).remaining(),
                forall|key: u32| #[trigger] nodes@.contains_key(key) <==> exists|i: int|
                    0 <= i < it.index() && *it.seq()[i].0 == key,
                forall|key: u32| #[trigger] nodes@.contains_key(key) ==> self.nodes@.contains_key(key)
                    && forall|q: Seq<char>| #[trigger] lookup(nodes@[key], q) == lookup(self.nodes@[key], q),
        {
            let (key, child) = pair;
            let ghost idx = it.index();
            proof {
                assert(it.seq()[idx] == pair);
                assert(self.nodes@.contains_key(*key) && self.nodes@[*key] == *child);
            }
            let copy = child.copy_node();
            nodes.insert(*key, copy);
            proof {
                assert forall|k2: u32| #[trigger] nodes@.contains_key(k2) <==> exists|i: int|
                    0 <= i < idx + 1 && *it.seq()[i].0 == k2 by {
                    if k2 == *key {
                        assert(*it.seq()[idx].0 == k2);
                    }
                }
            }
        }
        let word = match &self.word {
            Some(s) => Some(s.clone()),
            None => None,
        };
        let r = TrieNode { nodes, word };
        proof {
            let keys = spec_hash_map_iter(&self.nodes).remaining();
            assert forall|key: u32| #[trigger] self.nodes@.contains_key(key) implies r.nodes@.contains_key(key) by {
                assert(keys.contains((&key, &self.nodes@[key])));
                let i = choose|i: int| 0 <= i < keys.len() && keys[i] == (&key, &self.nodes@[key]);
                assert(*keys[i].0 == key);
            }
            assert forall|q: Seq<char>| #[trigger] lookup(r, q) == lookup(*self, q) by {
                if q.len() > 0 {
                    let code = q[0] as u32;
                    if r.nodes@.contains_key(code) {
                        assert(lookup(r.nodes@[code], q.drop_first()) == lookup(self.nodes@[code], q.drop_first()));
                    }
                }
            }
        }
        r
    }

    /// An empty trie: no children, no word.
    pub fn new() -> (r: Self)
        ensures
            r.nodes@ == Map::<u32, TrieNode>::empty(),
            r.word is None,
            forall|q: Seq<char>| #[trigger] lookup(r, q) == if q.len() == 0 {
                Some(None::<Seq<char>>)
            } else {
                None
            },
            built_from(r, Seq::empty()),
    {
        let r = TrieNode { nodes: HashMap::new(), word: None };
        assert forall|q: Seq<char>| #[trigger] lookup(r, q) == if q.len() == 0 {
            Some(None::<Seq<char>>)
        } else {
            None
        } by {}
        assert forall|q: Seq<char>| #[trigger] lookup(r, q) == expected_lookup(Seq::empty(), q) by {
            assert(!Seq::<Seq<char>>::empty().contains(q));
        }
        r
    }

    /// Stores `word` at the end of `chars[i..]` below `node`, creating the
    /// missing nodes on the way.
    fn insert_at(node: &mut TrieNode, chars: &Vec<char>, i: usize, word: &str)
        requires
            i <= chars@.len(),
        ensures
            forall|q: Seq<char>| #[trigger] lookup(*final(node), q) == inserted(*old(node), chars@.skip(i as int), word@, q),
        decreases chars@.len() - i,
    {
        let ghost path = chars@.skip(i as int);
        let ghost before = *node;
        if i == chars.len() {
            node.word = Some(word.to_owned());
            proof {
                assert(path =~= Seq::<char>::empty());
                assert forall|q: Seq<char>| #[trigger] lookup(*node, q) == inserted(before, path, word@, q) by {
                    if q.len() > 0 {
                        assert(!is_prefix(q, path));
                    } else {
                        assert(q =~= path);
                    }
                }
            }
        } else {
            let key = chars[i] as u32;
            let ghost had = before.nodes@.contains_key(key);
            let mut child = match node.nodes.remove(&key) {
                Some(c) => c,
                None => TrieNode::new(),
            };
            let ghost child_before = child;
            TrieNode::insert_at(&mut child, chars, i + 1, word);
            node.nodes.insert(key, child);
            proof {
                let rest = chars@.skip(i + 1);
                assert(path.drop_first() =~= rest);
                assert(path[0] == chars@[i as int]);
                assert forall|q: Seq<char>| #[trigger] lookup(*node, q) == inserted(before, path, word@, q) by {
                    if q.len() == 0 {
                        assert(is_prefix(q, path)) by {
                            assert(path.take(0) =~= q);
                        }
                    } else {
                        let d = q[0];
                        let r = q.drop_first();
                        if r.len() == 0 {
                            assert(rest.take(0) =~= r);
                        }
                        if d as u32 == key {
                            lemma_char_code_injective(d, chars@[i as int]);
                            assert(lookup(*node, q) == lookup(child, r));
                            assert(lookup(child, r) == inserted(child_before, rest, word@, r));
                            assert(q[0] == path[0]);
                            assert(q == path <==> r == rest) by {
                                if r == rest {
                                    assert forall|j: int| 0 <= j < q.len() implies q[j] == path[j] by {
                                        if j > 0 {
                                            assert(q[j] == r[j - 1]);
                                            assert(path[j] == rest[j - 1]);
                                        }
                                    }
                                    assert(q =~= path);
                                }
                            }
                            assert(is_prefix(q, path) <==> is_prefix(r, rest)) by {
                                if is_prefix(r, rest) {
                                    assert forall|j: int| 0 <= j < q.len() implies path.take(q.len() as int)[j] == q[j] by {
                                        if j > 0 {
                                            assert(q[j] == r[j - 1]);
                                            assert(path[j] == rest[j - 1]);
                                            assert(rest.take(r.len() as int)[j - 1] == r[j - 1]);
                                        }
                                    }
                                    assert(path.take(q.len() as int) =~= q);
                                }
                                if is_prefix(q, path) {
                                    assert(rest.take(r.len() as int) =~= path.take(q.len() as int).drop_first());
                                }
                            }
                            if !had {
                                assert(lookup(before, q) is None);
                                assert(lookup(child_before, r) == if r.len() == 0 {
                                    Some(None::<Seq<char>>)
                                } else {
                                    None
                                });
                            } else {
                                assert(lookup(before, q) == lookup(child_before, r));
                            }
                        } else {
                            assert(node.nodes@.contains_key(d as u32) == before.nodes@.contains_key(d as u32));
                            assert(lookup(*node, q) == lookup(before, q));
                            assert(q != path);
                            assert(!is_prefix(q, path)) by {
                                if is_prefix(q, path) {
                                    assert(path.take(q.len() as int)[0] == q[0]);
                                }
                            }
                        }
                    }
                }
            }
        }
    }

    /// Stores `word` in the trie. Always returns `true`.
    pub fn add_new_word(&mut self, word: &str) -> (r: bool)
        ensures
            r,
            forall|q: Seq<char>| #[trigger] lookup(*final(self), q) == inserted(*old(self), word@, word@, q),
    {
        let mut chars: Vec<char> = Vec::new();
        for c in it: word.chars()
            invariant
                chars@ == it.seq().take(it.index()),
                it.seq() == word@,
        {
            chars.push(c);
        }
        proof {
            assert(chars@.skip(0) =~= word@);
        }
        TrieNode::insert_at(self, &chars, 0, word);
        true
    }

    /// Is `word` stored in the trie?
    pub fn does_word_exist(&self, word: &str) -> (r: bool)
        ensures
            r == holds_word(*self, word@),
    {
        match self.does_word_exist_internal(word) {
            Some(b) => b,
            None => false,
        }
    }

    /// Follows `word` through the trie: `None` when the path is missing or
    /// its node holds no word, otherwise whether the word held equals `word`.
    fn does_word_exist_internal(&self, word: &str) -> (r: Option<bool>)
        ensures
            r == match lookup(*self, word@) {
                Some(Some(s)) => Some(s == word@),
                _ => None::<bool>,
            },
    {
        let mut node = self;
        let ghost w = word@;
        assert(w.skip(0) =~= w);
        for c in it: word.chars()
            invariant
                it.seq() == w,
                w == word@,
                lookup(*self, w) == lookup(*node, w.skip(it.index())),
        {
            let ghost i = it.index();
            proof {
                assert(w.skip(i).drop_first() =~= w.skip(i + 1));
                assert(w.skip(i)[0] == c);
            }
            node = match node.nodes.get(&(c as u32)) {
                Some(n) => n,
                None => {
                    return None;
                },
            };
        }
        proof {
            assert(w.skip(w.len() as int) =~= Seq::<char>::empty());
        }
        match &node.word {
            Some(s) => {
                let owned = word.to_owned();
                Some(*s == owned)
            },
            None => None,
        }
    }

    /// The child reached by `c`, if any.
    pub fn get_next_node(&self, c: char) -> (r: Option<&TrieNode>)
        ensures
            match r {
                Some(n) => {
                    &&& self.nodes@.contains_key(c as u32)
                    &&& *n == self.nodes@[c as u32]
                    &&& forall|q: Seq<char>| #[trigger] lookup(*n, q) == lookup(*self, seq![c] + q)
                },
                None => {
                    &&& !self.nodes@.contains_key(c as u32)
                    &&& forall|q: Seq<char>| #[trigger] lookup(*self, seq![c] + q) is None
                },
            },
    {
        let r = self.nodes.get(&(c as u32));
        proof {
            assert forall|q: Seq<char>| #[trigger] lookup(*self, seq![c] + q) == if self.nodes@.contains_key(c as u32) {
                lookup(self.nodes@[c as u32], q)
            } else {
                None
            } by {
                assert((seq![c] + q).drop_first() =~= q);
            }
        }
        r
    }
}

} // verus!

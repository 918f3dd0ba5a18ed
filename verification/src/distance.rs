use vstd::prelude::*;

verus! {

/// The smaller of two natural numbers.
pub open spec fn min_nat(a: nat, b: nat) -> nat {
    if a <= b {
        a
    } else {
        b
    }
}

/// The Levenshtein (edit) distance between `a` and `b`: the least number of
/// single-character substitutions, insertions and deletions that turn `a`
/// into `b`.
pub open spec fn levenshtein(a: Seq<char>, b: Seq<char>) -> nat
    decreases a.len() + b.len(),
{
    if a.len() == 0 {
        b.len()
    } else if b.len() == 0 {
        a.len()
    } else {
        let substitute = levenshtein(a.drop_last(), b.drop_last()) + if a.last() == b.last() {
            0nat
        } else {
            1nat
        };
        let delete = levenshtein(a.drop_last(), b) + 1;
        let insert = levenshtein(a, b.drop_last()) + 1;
        min_nat(substitute, min_nat(delete, insert))
    }
}

/// A distance as an automaton state records it: values above `k` are all
/// recorded as `k + 1`.
pub open spec fn clamp(d: nat, k: nat) -> nat {
    min_nat(d, k + 1)
}

/// `v` is the clamped row of distances between `word` and every prefix of
/// `pattern`: `v[i] == min(levenshtein(word, pattern[..i]), k + 1)`.
pub open spec fn is_row(v: Seq<usize>, pattern: Seq<char>, word: Seq<char>, k: nat) -> bool {
    &&& v.len() == pattern.len() + 1
    &&& forall|i: int|
        0 <= i <= pattern.len() ==> #[trigger] v[i] == clamp(levenshtein(word, pattern.take(i)), k)
}

/// Entry `i` of the row that follows `old` when the character `c` is read:
/// the clamped Levenshtein recurrence (match, substitution, insertion, deletion).
pub open spec fn step_value(old: Seq<usize>, pattern: Seq<char>, c: char, k: nat, i: nat) -> nat
    decreases i,
{
    if i == 0 {
        min_nat(old[0] as nat + 1, k + 1)
    } else if pattern[i - 1] == c {
        old[i - 1] as nat
    } else {
        let m = min_nat(
            step_value(old, pattern, c, k, (i - 1) as nat),
            min_nat(old[i - 1] as nat, old[i as int] as nat),
        );
        if m >= k {
            k + 1
        } else {
            m + 1
        }
    }
}

/// `new` is the row that follows `old` when `c` is read.
pub open spec fn is_step(new: Seq<usize>, old: Seq<usize>, pattern: Seq<char>, c: char, k: nat) -> bool {
    &&& new.len() == pattern.len() + 1
    &&& forall|i: int| 0 <= i <= pattern.len() ==> #[trigger] new[i] == step_value(old, pattern, c, k, i as nat)
}

/// Dropping the last character of the second word changes the distance by at most one.
proof fn lemma_drop_last_right(a: Seq<char>, b: Seq<char>)
    requires
        b.len() > 0,
    ensures
        levenshtein(a, b.drop_last()) <= levenshtein(a, b) + 1,
    decreases a.len() + b.len(),
{
    if a.len() > 0 {
        let a1 = a.drop_last();
        let b1 = b.drop_last();
        lemma_drop_last_right(a1, b);
        assert(levenshtein(a, b1) <= levenshtein(a1, b1) + 1);
    }
}

/// Dropping the last character of the first word changes the distance by at most one.
proof fn lemma_drop_last_left(a: Seq<char>, b: Seq<char>)
    requires
        a.len() > 0,
    ensures
        levenshtein(a.drop_last(), b) <= levenshtein(a, b) + 1,
    decreases a.len() + b.len(),
{
    if b.len() > 0 {
        let a1 = a.drop_last();
        let b1 = b.drop_last();
        lemma_drop_last_left(a, b1);
        assert(levenshtein(a1, b) <= levenshtein(a1, b1) + 1);
    }
}

/// Words that end in the same character are as far apart as the words without it.
proof fn lemma_same_last(a: Seq<char>, b: Seq<char>)
    requires
        a.len() > 0,
        b.len() > 0,
        a.last() == b.last(),
    ensures
        levenshtein(a, b) == levenshtein(a.drop_last(), b.drop_last()),
{
    lemma_drop_last_right(a.drop_last(), b);
    lemma_drop_last_left(a, b.drop_last());
}

/// A word is at distance zero from itself.
pub proof fn lemma_distance_to_self(a: Seq<char>)
    ensures
        levenshtein(a, a) == 0,
    decreases a.len(),
{
    if a.len() > 0 {
        lemma_distance_to_self(a.drop_last());
    }
}

/// The distance from the empty word to `b` is the length of `b`, and back.
pub proof fn lemma_distance_to_empty(a: Seq<char>)
    ensures
        levenshtein(Seq::empty(), a) == a.len(),
        levenshtein(a, Seq::empty()) == a.len(),
{
}

pub(crate) proof fn lemma_step_value_of_row(old: Seq<usize>, pattern: Seq<char>, word: Seq<char>, c: char, k: nat, i: nat)
    requires
        is_row(old, pattern, word, k),
        i <= pattern.len(),
    ensures
        step_value(old, pattern, c, k, i) == clamp(levenshtein(word.push(c), pattern.take(i as int)), k),
    decreases i,
{
    let wc = word.push(c);
    assert(wc.drop_last() =~= word);
    if i == 0 {
        assert(pattern.take(0) =~= Seq::<char>::empty());
        assert(old[0] == clamp(levenshtein(word, pattern.take(0)), k));
    } else {
        let q = pattern.take(i - 1);
        let qi = pattern.take(i as int);
        assert(qi.drop_last() =~= q);
        assert(old[i - 1] == clamp(levenshtein(word, pattern.take(i - 1)), k));
        assert(old[i as int] == clamp(levenshtein(word, pattern.take(i as int)), k));
        if pattern[i - 1] == c {
            lemma_same_last(wc, qi);
        } else {
            lemma_step_value_of_row(old, pattern, word, c, k, (i - 1) as nat);
        }
    }
}

/// Reading `c` from the row of `word` gives the row of `word` followed by `c`:
/// the step recurrence computes exactly the clamped Levenshtein row.
pub proof fn lemma_step_of_row(new: Seq<usize>, old: Seq<usize>, pattern: Seq<char>, word: Seq<char>, c: char, k: nat)
    requires
        is_row(old, pattern, word, k),
        is_step(new, old, pattern, c, k),
    ensures
        is_row(new, pattern, word.push(c), k),
{
    assert forall|i: int| 0 <= i <= pattern.len() implies #[trigger] new[i] == clamp(
        levenshtein(word.push(c), pattern.take(i)),
        k,
    ) by {
        lemma_step_value_of_row(old, pattern, word, c, k, i as nat);
    }
}

/// Every prefix of `pattern` is more than `k` edits away from `word`.
pub open spec fn dead_word(pattern: Seq<char>, word: Seq<char>, k: nat) -> bool {
    forall|i: int| 0 <= i <= pattern.len() ==> levenshtein(word, #[trigger] pattern.take(i)) > k
}

proof fn lemma_dead_word_extends_at(pattern: Seq<char>, word: Seq<char>, c: char, k: nat, i: int)
    requires
        dead_word(pattern, word, k),
        0 <= i <= pattern.len(),
    ensures
        levenshtein(word.push(c), pattern.take(i)) > k,
    decreases i,
{
    let wc = word.push(c);
    assert(wc.drop_last() =~= word);
    assert(levenshtein(word, pattern.take(i)) > k);
    if i == 0 {
        assert(pattern.take(0) =~= Seq::<char>::empty());
    } else {
        assert(pattern.take(i).drop_last() =~= pattern.take(i - 1));
        assert(levenshtein(word, pattern.take(i - 1)) > k);
        lemma_dead_word_extends_at(pattern, word, c, k, i - 1);
    }
}

/// Once every prefix of the pattern is out of reach, reading more input
/// cannot bring any of them back within `k` edits.
pub proof fn lemma_dead_word_extends(pattern: Seq<char>, word: Seq<char>, c: char, k: nat)
    requires
        dead_word(pattern, word, k),
    ensures
        dead_word(pattern, word.push(c), k),
{
    assert forall|i: int| 0 <= i <= pattern.len() implies levenshtein(word.push(c), #[trigger] pattern.take(i)) > k by {
        lemma_dead_word_extends_at(pattern, word, c, k, i);
    }
}

/// If a prefix of `word` is dead, so is `word`.
pub proof fn lemma_dead_prefix(pattern: Seq<char>, word: Seq<char>, k: nat, i: int)
    requires
        0 <= i <= word.len(),
        dead_word(pattern, word.take(i), k),
    ensures
        dead_word(pattern, word, k),
    decreases word.len() - i,
{
    if i == word.len() {
        assert(word.take(i) =~= word);
    } else {
        lemma_dead_word_extends(pattern, word.take(i), word[i], k);
        assert(word.take(i).push(word[i]) =~= word.take(i + 1));
        lemma_dead_prefix(pattern, word, k, i + 1);
    }
}

/// The edit distance is symmetric.
pub proof fn lemma_levenshtein_symmetric(a: Seq<char>, b: Seq<char>)
    ensures
        levenshtein(a, b) == levenshtein(b, a),
    decreases a.len() + b.len(),
{
    if a.len() > 0 && b.len() > 0 {
        lemma_levenshtein_symmetric(a.drop_last(), b.drop_last());
        lemma_levenshtein_symmetric(a.drop_last(), b);
        lemma_levenshtein_symmetric(a, b.drop_last());
    }
}

/// Turning `a` into `b` takes at least as many edits as `a` is longer than `b`.
pub proof fn lemma_levenshtein_lower_bound(a: Seq<char>, b: Seq<char>)
    ensures
        levenshtein(a, b) >= a.len() - b.len(),
    decreases a.len() + b.len(),
{
    if a.len() > 0 && b.len() > 0 {
        lemma_levenshtein_lower_bound(a.drop_last(), b.drop_last());
        lemma_levenshtein_lower_bound(a.drop_last(), b);
        lemma_levenshtein_lower_bound(a, b.drop_last());
    }
}

/// Appending a character to the second word changes the distance by at most one.
proof fn lemma_push_right_close(a: Seq<char>, q: Seq<char>, c: char)
    ensures
        levenshtein(a, q.push(c)) <= levenshtein(a, q) + 1,
        levenshtein(a, q) <= levenshtein(a, q.push(c)) + 1,
{
    assert(q.push(c).drop_last() =~= q);
    lemma_drop_last_right(a, q.push(c));
}

/// The shape of every distance row: its first entry is the clamped length of
/// the word, every entry is at most `k + 1`, neighbouring entries differ by at
/// most one, and the row is dead exactly when every entry is `k + 1`.
pub proof fn lemma_row_shape(v: Seq<usize>, pattern: Seq<char>, word: Seq<char>, k: nat)
    requires
        is_row(v, pattern, word, k),
    ensures
        v[0] == min_nat(word.len(), k + 1),
        forall|i: int| 0 <= i <= pattern.len() ==> #[trigger] v[i] <= k + 1,
        forall|i: int|
            0 <= i < pattern.len() ==> v[i + 1] <= #[trigger] v[i] + 1 && v[i] <= v[i + 1] + 1,
        (forall|i: int| 0 <= i < v.len() ==> #[trigger] v[i] > k) <==> (forall|i: int|
            0 <= i < v.len() ==> #[trigger] v[i] == k + 1),
{
    assert(pattern.take(0) =~= Seq::<char>::empty());
    assert(v[0] == clamp(levenshtein(word, pattern.take(0)), k));
    assert forall|i: int| 0 <= i < pattern.len() implies v[i + 1] <= #[trigger] v[i] + 1 && v[i] <= v[i + 1] + 1 by {
        assert(pattern.take(i + 1) =~= pattern.take(i).push(pattern[i]));
        lemma_push_right_close(word, pattern.take(i), pattern[i]);
        assert(v[i] == clamp(levenshtein(word, pattern.take(i)), k));
        assert(v[i + 1] == clamp(levenshtein(word, pattern.take(i + 1)), k));
    }
    assert forall|i: int| 0 <= i <= pattern.len() implies #[trigger] v[i] <= k + 1 by {
        assert(v[i] == clamp(levenshtein(word, pattern.take(i)), k));
    }
}

/// Reading a character is monotone in the row: a row that is pointwise no
/// larger steps to a row that is pointwise no larger.
pub proof fn lemma_step_monotone(old1: Seq<usize>, old2: Seq<usize>, pattern: Seq<char>, c: char, k: nat, i: nat)
    requires
        old1.len() == pattern.len() + 1,
        old2.len() == pattern.len() + 1,
        forall|j: int| 0 <= j < old1.len() ==> #[trigger] old1[j] <= old2[j],
        i <= pattern.len(),
    ensures
        step_value(old1, pattern, c, k, i) <= step_value(old2, pattern, c, k, i),
    decreases i,
{
    assert(old1[0] <= old2[0]);
    if i > 0 {
        assert(old1[i - 1] <= old2[i - 1]);
        assert(old1[i as int] <= old2[i as int]);
        lemma_step_monotone(old1, old2, pattern, c, k, (i - 1) as nat);
    }
}

/// The row of `word` against `pattern`, clamped at `k + 1`, as a vector.
pub open spec fn row_of(pattern: Seq<char>, word: Seq<char>, k: nat) -> Seq<usize> {
    Seq::new(pattern.len() + 1, |i: int| clamp(levenshtein(word, pattern.take(i)), k) as usize)
}

/// `row_of` is the row of the word.
pub proof fn lemma_row_of_is_row(pattern: Seq<char>, word: Seq<char>, k: nat)
    requires
        k + 1 <= usize::MAX,
    ensures
        is_row(row_of(pattern, word, k), pattern, word, k),
{
}

/// A row is `row_of` its word.
pub proof fn lemma_row_is_row_of(v: Seq<usize>, pattern: Seq<char>, word: Seq<char>, k: nat)
    requires
        is_row(v, pattern, word, k),
    ensures
        v == row_of(pattern, word, k),
{
    assert(v =~= row_of(pattern, word, k));
}

/// Folding the step over a word, from the row of the empty word, gives the
/// row of the word: reading `c` after `word` turns `row_of(word)` into
/// `row_of(word + c)`.
pub proof fn lemma_fold_step(new: Seq<usize>, pattern: Seq<char>, word: Seq<char>, c: char, k: nat)
    requires
        k + 1 <= usize::MAX,
        is_step(new, row_of(pattern, word, k), pattern, c, k),
    ensures
        new == row_of(pattern, word.push(c), k),
{
    lemma_row_of_is_row(pattern, word, k);
    lemma_step_of_row(new, row_of(pattern, word, k), pattern, word, c, k);
    lemma_row_is_row_of(new, pattern, word.push(c), k);
}

/// The row of a word accepts exactly when the word is within `k` edits of the pattern.
pub proof fn lemma_row_accepts(pattern: Seq<char>, word: Seq<char>, k: nat)
    requires
        k + 1 <= usize::MAX,
    ensures
        (row_of(pattern, word, k).last() <= k) <==> levenshtein(word, pattern) <= k,
{
    assert(pattern.take(pattern.len() as int) =~= pattern);
    assert(row_of(pattern, word, k).last() == row_of(pattern, word, k)[pattern.len() as int]);
}

} // verus!

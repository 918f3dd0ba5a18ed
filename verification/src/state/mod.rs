use vstd::prelude::*;
use vstd::arithmetic::div_mod::lemma_fundamental_div_mod;
use vstd::arithmetic::div_mod::lemma_fundamental_div_mod_converse;
use crate::distance::is_step;
use crate::distance::step_value;
use crate::distance::min_nat;
use crate::distance::is_row;
use crate::distance::clamp;
use crate::distance::levenshtein;
use crate::distance::row_of;
use crate::distance::lemma_row_is_row_of;

verus! {

/// A state of the Levenshtein automaton: the edit distances between the
/// prefixes of the pattern and the input consumed so far, each clamped to
/// `diffs_allowed + 1`.
#[derive(Clone)]
pub struct State {
    pub edit_distance: Vec<usize>,
    pub diffs_allowed: usize,
}

/// The identifier of a state: its distance vector read as a number in base
/// `diffs_allowed + 2`, entry `i` being the digit of weight `(diffs_allowed + 2)^i`.
#[derive(PartialEq, Eq, Structural, Hash, Clone, Copy)]
pub struct StateId(pub usize);

/// `base` raised to the power `e`.
pub open spec fn pow(base: int, e: nat) -> int
    decreases e,
{
    if e == 0 {
        1
    } else {
        base * pow(base, (e - 1) as nat)
    }
}

proof fn lemma_pow_positive(base: int, e: nat)
    requires
        base > 0,
    ensures
        pow(base, e) > 0,
    decreases e,
{
    if e > 0 {
        lemma_pow_positive(base, (e - 1) as nat);
        assert(base * pow(base, (e - 1) as nat) > 0) by (nonlinear_arith)
            requires
                base > 0,
                pow(base, (e - 1) as nat) > 0,
        ;
    }
}

/// The number whose digits in base `base` are `v`, least significant first.
pub open spec fn id_value(v: Seq<usize>, base: int) -> int
    decreases v.len(),
{
    if v.len() == 0 {
        0
    } else {
        id_value(v.drop_last(), base) + v.last() * pow(base, (v.len() - 1) as nat)
    }
}

/// The identifier of `v` can be computed without overflow: the weight of
/// every digit, and the whole number, are at most `usize::MAX`.
pub open spec fn id_fits(v: Seq<usize>, base: int) -> bool {
    &&& forall|i: int| 0 <= i < v.len() ==> #[trigger] pow(base, i as nat) <= usize::MAX
    &&& id_value(v, base) <= usize::MAX
}

proof fn lemma_pow_monotone(base: int, i: nat, j: nat)
    requires
        base >= 1,
        i <= j,
    ensures
        pow(base, i) <= pow(base, j),
    decreases j,
{
    if i < j {
        lemma_pow_monotone(base, i, (j - 1) as nat);
        lemma_pow_positive(base, (j - 1) as nat);
        assert(pow(base, (j - 1) as nat) <= base * pow(base, (j - 1) as nat)) by (nonlinear_arith)
            requires
                base >= 1,
                pow(base, (j - 1) as nat) > 0,
        ;
    }
}

/// When `base` to the power of the length, less one, fits in a `usize`, so
/// does the identifier of every vector of that length whose entries are
/// digits in that base.
pub proof fn lemma_small_ids_fit(v: Seq<usize>, base: int)
    requires
        base >= 2,
        forall|i: int| 0 <= i < v.len() ==> #[trigger] v[i] < base,
        pow(base, v.len()) - 1 <= usize::MAX,
    ensures
        id_fits(v, base),
{
    lemma_id_value_bound(v, base);
    assert forall|i: int| 0 <= i < v.len() implies #[trigger] pow(base, i as nat) <= usize::MAX by {
        lemma_pow_monotone(base, i as nat, (v.len() - 1) as nat);
        lemma_pow_positive(base, (v.len() - 1) as nat);
        assert(pow(base, v.len()) == base * pow(base, (v.len() - 1) as nat));
        assert(pow(base, (v.len() - 1) as nat) <= usize::MAX) by (nonlinear_arith)
            requires
                base >= 2,
                pow(base, (v.len() - 1) as nat) > 0,
                base * pow(base, (v.len() - 1) as nat) - 1 <= usize::MAX,
        ;
    }
}

/// Every distance in `v` is above `k`: no continuation can be accepted.
pub open spec fn is_dead_row(v: Seq<usize>, k: nat) -> bool {
    forall|i: int| 0 <= i < v.len() ==> #[trigger] v[i] > k
}

/// The distance to the whole pattern is at most `k`.
pub open spec fn accepts_row(v: Seq<usize>, k: nat) -> bool {
    v.last() <= k
}

proof fn lemma_id_value_take(v: Seq<usize>, base: int, i: int)
    requires
        0 <= i < v.len(),
    ensures
        id_value(v.take(i + 1), base) == id_value(v.take(i), base) + v[i] * pow(base, i as nat),
{
    assert(v.take(i + 1).drop_last() =~= v.take(i));
}

proof fn lemma_id_value_monotone(v: Seq<usize>, base: int, j: int)
    requires
        base > 0,
        0 <= j <= v.len(),
    ensures
        id_value(v.take(j), base) <= id_value(v, base),
    decreases v.len(),
{
    if j == v.len() {
        assert(v.take(j) =~= v);
    } else {
        let v1 = v.drop_last();
        assert(v.take(j) =~= v1.take(j));
        lemma_id_value_monotone(v1, base, j);
        lemma_pow_positive(base, (v.len() - 1) as nat);
        assert(v.last() * pow(base, (v.len() - 1) as nat) >= 0) by (nonlinear_arith)
            requires
                pow(base, (v.len() - 1) as nat) > 0,
                v.last() >= 0,
        ;
    }
}

proof fn lemma_id_value_bound(v: Seq<usize>, base: int)
    requires
        base > 0,
        forall|i: int| 0 <= i < v.len() ==> #[trigger] v[i] < base,
    ensures
        0 <= id_value(v, base) < pow(base, v.len()),
    decreases v.len(),
{
    if v.len() > 0 {
        let v1 = v.drop_last();
        lemma_id_value_bound(v1, base);
        lemma_pow_positive(base, v1.len());
        let p = pow(base, v1.len());
        let d = v.last() as int;
        assert(d < base);
        assert(pow(base, v.len()) == base * p);
        assert(0 <= id_value(v1, base) + d * p < base * p) by (nonlinear_arith)
            requires
                0 <= id_value(v1, base) < p,
                0 <= d < base,
        ;
    }
}

/// A vector of digits in base `base` names a number below `base` to the
/// power of its length.
pub proof fn lemma_id_value_below(v: Seq<usize>, base: int)
    requires
        base > 0,
        forall|i: int| 0 <= i < v.len() ==> #[trigger] v[i] < base,
    ensures
        0 <= id_value(v, base) < pow(base, v.len()),
{
    lemma_id_value_bound(v, base);
}

/// A positive base to any power is at least one.
pub proof fn lemma_pow_at_least_one(base: int, e: nat)
    requires
        base > 0,
    ensures
        pow(base, e) >= 1,
{
    lemma_pow_positive(base, e);
}

/// Distinct distance vectors of one length, with every entry below the
/// base, have distinct identifiers.
pub proof fn lemma_id_value_injective(a: Seq<usize>, b: Seq<usize>, base: int)
    requires
        base > 0,
        a.len() == b.len(),
        forall|i: int| 0 <= i < a.len() ==> #[trigger] a[i] < base,
        forall|i: int| 0 <= i < b.len() ==> #[trigger] b[i] < base,
        id_value(a, base) == id_value(b, base),
    ensures
        a == b,
    decreases a.len(),
{
    if a.len() > 0 {
        let a1 = a.drop_last();
        let b1 = b.drop_last();
        lemma_id_value_bound(a1, base);
        lemma_id_value_bound(b1, base);
        let p = pow(base, a1.len());
        let x = id_value(a, base);
        lemma_fundamental_div_mod_converse(x, p, a.last() as int, id_value(a1, base));
        lemma_fundamental_div_mod_converse(x, p, b.last() as int, id_value(b1, base));
        lemma_id_value_injective(a1, b1, base);
        assert(a =~= b) by {
            assert(a =~= a1.push(a.last()));
            assert(b =~= b1.push(b.last()));
        }
    } else {
        assert(a =~= b);
    }
}

/// A dead row stays dead, whatever character is read; a dead row whose
/// entries are all `k + 1` is left unchanged.
pub proof fn lemma_dead_row_absorbing(new: Seq<usize>, old: Seq<usize>, pattern: Seq<char>, c: char, k: nat)
    requires
        old.len() == pattern.len() + 1,
        is_dead_row(old, k),
        is_step(new, old, pattern, c, k),
    ensures
        is_dead_row(new, k),
        (forall|i: int| 0 <= i < old.len() ==> #[trigger] old[i] == k + 1) ==> new == old,
{
    assert forall|i: int| 0 <= i <= pattern.len() implies #[trigger] step_value(old, pattern, c, k, i as nat) > k by {
        lemma_step_value_dead(old, pattern, c, k, i as nat);
    }
    assert forall|i: int| 0 <= i < new.len() implies #[trigger] new[i] > k by {
        assert(new[i] == step_value(old, pattern, c, k, i as nat));
    }
    if forall|i: int| 0 <= i < old.len() ==> #[trigger] old[i] == k + 1 {
        assert forall|i: int| 0 <= i < new.len() implies #[trigger] new[i] == old[i] by {
            assert(new[i] == step_value(old, pattern, c, k, i as nat));
            lemma_step_value_dead(old, pattern, c, k, i as nat);
        }
        assert(new =~= old);
    }
}

proof fn lemma_step_value_dead(old: Seq<usize>, pattern: Seq<char>, c: char, k: nat, i: nat)
    requires
        old.len() == pattern.len() + 1,
        is_dead_row(old, k),
        i <= pattern.len(),
    ensures
        step_value(old, pattern, c, k, i) > k,
        (forall|j: int| 0 <= j < old.len() ==> #[trigger] old[j] == k + 1) ==> step_value(old, pattern, c, k, i) == k + 1,
    decreases i,
{
    assert(old[0] > k);
    if i > 0 {
        assert(old[i - 1] > k);
        lemma_step_value_dead(old, pattern, c, k, (i - 1) as nat);
    }
}

/// The initial state is the row of the empty word: reading nothing, the
/// `i`-th prefix of the pattern is `i` deletions away.
pub proof fn lemma_initial_state_is_row(v: Seq<usize>, pattern: Seq<char>, k: nat)
    requires
        v.len() == pattern.len() + 1,
        forall|i: int| 0 <= i <= pattern.len() ==> #[trigger] v[i] == min_nat(i as nat, k + 1),
    ensures
        is_row(v, pattern, Seq::empty(), k),
        v == row_of(pattern, Seq::empty(), k),
{
    assert forall|i: int| 0 <= i <= pattern.len() implies #[trigger] v[i] == clamp(
        levenshtein(Seq::<char>::empty(), pattern.take(i)),
        k,
    ) by {
        assert(pattern.take(i).len() == i);
    }
    lemma_row_is_row_of(v, pattern, Seq::empty(), k);
}

/// A dead row does not accept.
pub proof fn lemma_dead_not_accepting(v: Seq<usize>, k: nat)
    requires
        v.len() > 0,
        is_dead_row(v, k),
    ensures
        !accepts_row(v, k),
{
    assert(v[v.len() - 1] > k);
}

impl State {
    /// A copy of this state.
    pub(crate) fn copy_state(&self) -> (r: Self)
        ensures
            r.edit_distance@ == self.edit_distance@,
            r.diffs_allowed == self.diffs_allowed,
    {
        let mut edit_distance: Vec<usize> = Vec::new();
        let len = self.edit_distance.len();
        for i in 0..len
            invariant
                len == self.edit_distance@.len(),
                edit_distance@ == self.edit_distance@.take(i as int),
        {
            edit_distance.push(self.edit_distance[i]);
            proof {
                assert(self.edit_distance@.take(i + 1) =~= self.edit_distance@.take(i as int).push(self.edit_distance@[i as int]));
            }
        }
        proof {
            assert(self.edit_distance@.take(len as int) =~= self.edit_distance@);
        }
        State { edit_distance, diffs_allowed: self.diffs_allowed }
    }

    /// A state of `pattern_size + 1` zero distances.
    pub fn new(pattern_size: usize, diffs_allowed: usize) -> (r: Self)
        requires
            pattern_size < usize::MAX,
        ensures
            r.edit_distance@.len() == pattern_size + 1,
            forall|i: int| 0 <= i <= pattern_size ==> #[trigger] r.edit_distance@[i] == 0,
            r.diffs_allowed == diffs_allowed,
    {
        let mut edit_distance: Vec<usize> = Vec::new();
        let mut i: usize = 0;
        while i <= pattern_size
            invariant
                i <= pattern_size + 1,
                pattern_size < usize::MAX,
                edit_distance@.len() == i,
                forall|j: int| 0 <= j < i ==> #[trigger] edit_distance@[j] == 0,
            decreases pattern_size + 1 - i,
        {
            edit_distance.push(0);
            i = i + 1;
        }
        State { edit_distance, diffs_allowed }
    }

    /// The state before any input is read: `edit_distance[i] == min(i, diffs_allowed + 1)`,
    /// the cost of deleting the first `i` characters of the pattern.
    pub fn initial_state(pattern_size: usize, diffs_allowed: usize) -> (r: Self)
        requires
            pattern_size < usize::MAX,
            diffs_allowed < usize::MAX,
        ensures
            r.edit_distance@.len() == pattern_size + 1,
            forall|i: int| 0 <= i <= pattern_size ==> #[trigger] r.edit_distance@[i] == min_nat(i as nat, diffs_allowed as nat + 1),
            r.diffs_allowed == diffs_allowed,
    {
        let mut edit_distance: Vec<usize> = Vec::new();
        let mut i: usize = 0;
        while i <= pattern_size
            invariant
                i <= pattern_size + 1,
                pattern_size < usize::MAX,
                diffs_allowed < usize::MAX,
                edit_distance@.len() == i,
                forall|j: int| 0 <= j < i ==> #[trigger] edit_distance@[j] == min_nat(j as nat, diffs_allowed as nat + 1),
            decreases pattern_size + 1 - i,
        {
            let cap = diffs_allowed + 1;
            let d = if cap < i { cap } else { i };
            edit_distance.push(d);
            i = i + 1;
        }
        State { edit_distance, diffs_allowed }
    }

    /// Encodes the distance vector as a number in base `diffs_allowed + 2`.
    /// Returns `None` exactly when the computation would overflow a `usize`:
    /// the weight of some digit, or the number itself, exceeds `usize::MAX`.
    pub fn get_state_id(&self) -> (r: Option<StateId>)
        requires
            self.edit_distance@.len() > 0 ==> self.diffs_allowed + 2 <= usize::MAX,
        ensures
            r is Some <==> id_fits(self.edit_distance@, self.diffs_allowed + 2),
            r matches Some(id) ==> id.0 == id_value(self.edit_distance@, self.diffs_allowed + 2),
    {
        let v = &self.edit_distance;
        let len = v.len();
        if len == 0 {
            assert(v@.take(0) =~= v@);
            return Some(StateId(0));
        }
        let base: usize = self.diffs_allowed + 2;
        let ghost b = base as int;
        let mut acc: usize = 0;
        let mut power: usize = 1;
        let mut i: usize = 0;
        assert(v@.take(0) =~= Seq::<usize>::empty());
        while i < len
            invariant
                len == v@.len(),
                0 <= i <= len,
                base == self.diffs_allowed + 2,
                b == base,
                base >= 2,
                v == &self.edit_distance,
                acc == id_value(v@.take(i as int), b),
                i == 0 ==> power == 1,
                i > 0 ==> power == pow(b, (i - 1) as nat),
                forall|j: int| 0 <= j < i ==> #[trigger] pow(b, j as nat) <= usize::MAX,
            decreases len - i,
        {
            if i > 0 {
                match power.checked_mul(base) {
                    Some(p) => {
                        power = p;
                    },
                    None => {
                        proof {
                            assert(pow(b, i as nat) == b * pow(b, (i - 1) as nat));
                            assert(pow(b, i as nat) > usize::MAX) by (nonlinear_arith)
                                requires
                                    pow(b, i as nat) == b * power,
                                    power * b > usize::MAX,
                            ;
                            let ii: int = i as int;
                            assert(0 <= ii < v@.len() && pow(b, ii as nat) > usize::MAX);
                        }
                        return None;
                    },
                }
                proof {
                    assert(pow(b, i as nat) == b * pow(b, (i - 1) as nat));
                    assert(power == pow(b, i as nat)) by (nonlinear_arith)
                        requires
                            pow(b, i as nat) == b * pow(b, (i - 1) as nat),
                            power == pow(b, (i - 1) as nat) * b,
                    ;
                }
            }
            let n = v[i];
            let term: usize;
            proof {
                lemma_pow_positive(b, i as nat);
                lemma_fundamental_div_mod(usize::MAX as int, power as int);
                lemma_id_value_take(v@, b, i as int);
            }
            let q = usize::MAX / power;
            if q >= n {
                proof {
                    let r = usize::MAX as int % power as int;
                    assert(n * power <= usize::MAX) by (nonlinear_arith)
                        requires
                            q >= n,
                            n >= 0,
                            power > 0,
                            usize::MAX as int == power * q + r,
                            0 <= r < power,
                    ;
                }
                term = n * power;
            } else {
                proof {
                    let r = usize::MAX as int % power as int;
                    assert(n * power > usize::MAX) by (nonlinear_arith)
                        requires
                            q < n,
                            power > 0,
                            usize::MAX as int == power * q + r,
                            0 <= r < power,
                    ;
                    lemma_id_value_monotone(v@, b, i + 1);
                }
                return None;
            }
            if usize::MAX - acc >= term {
                acc = acc + term;
            } else {
                proof {
                    lemma_id_value_monotone(v@, b, i + 1);
                }
                return None;
            }
            i = i + 1;
        }
        proof {
            assert(v@.take(len as int) =~= v@);
        }
        Some(StateId(acc))
    }

    /// The state after reading `new_char`: the Levenshtein recurrence applied to
    /// each prefix of `pattern` (a match keeps the diagonal distance; otherwise
    /// one more than the least of substitution, insertion and deletion, clamped
    /// to `diffs_allowed + 1`).
    pub fn on_new_char(&self, pattern: &str, new_char: char) -> (r: Self)
        requires
            self.edit_distance@.len() > pattern@.len(),
            self.edit_distance@[0] < usize::MAX,
            self.diffs_allowed < usize::MAX,
        ensures
            r.diffs_allowed == self.diffs_allowed,
            is_step(r.edit_distance@, self.edit_distance@, pattern@, new_char, self.diffs_allowed as nat),
    {
        let mut pattern_chars: Vec<char> = Vec::new();
        for c in it: pattern.chars()
            invariant
                pattern_chars@ == it.seq().take(it.index()),
                it.seq() == pattern@,
        {
            pattern_chars.push(c);
        }
        let n = pattern_chars.len();
        let k = self.diffs_allowed;
        let old = &self.edit_distance;
        let first = if old[0] + 1 < k + 1 {
            old[0] + 1
        } else {
            k + 1
        };
        let mut new_state: Vec<usize> = Vec::new();
        new_state.push(first);
        let mut i: usize = 0;
        while i < n
            invariant
                n == pattern@.len(),
                pattern_chars@ == pattern@,
                old@.len() > n,
                old == &self.edit_distance,
                k == self.diffs_allowed,
                k < usize::MAX,
                0 <= i <= n,
                new_state@.len() == i + 1,
                forall|j: int| 0 <= j <= i ==> #[trigger] new_state@[j] == step_value(old@, pattern@, new_char, k as nat, j as nat),
            decreases n - i,
        {
            let value: usize;
            if pattern_chars[i] == new_char {
                value = old[i];
            } else {
                let prev = new_state[i];
                let a = if prev < old[i] {
                    prev
                } else {
                    old[i]
                };
                let min_count = if a < old[i + 1] {
                    a
                } else {
                    old[i + 1]
                };
                if min_count >= k {
                    value = k + 1;
                } else {
                    value = min_count + 1;
                }
            }
            new_state.push(value);
            i = i + 1;
        }
        State { edit_distance: new_state, diffs_allowed: k }
    }

    /// Is the distance to the whole pattern within the allowed threshold?
    pub fn is_accepting(&self) -> (r: bool)
        requires
            self.edit_distance@.len() > 0,
        ensures
            r == accepts_row(self.edit_distance@, self.diffs_allowed as nat),
    {
        self.edit_distance[self.edit_distance.len() - 1] <= self.diffs_allowed
    }

    /// Is every distance beyond the threshold, so that no continuation can match?
    pub fn is_dead_state(&self) -> (r: bool)
        requires
            self.edit_distance@.len() > 0 ==> self.diffs_allowed < usize::MAX,
        ensures
            r == is_dead_row(self.edit_distance@, self.diffs_allowed as nat),
    {
        let mut acc = true;
        let len = self.edit_distance.len();
        for i in 0..len
            invariant
                len == self.edit_distance@.len(),
                len > 0 ==> self.diffs_allowed < usize::MAX,
                acc == (forall|j: int| 0 <= j < i ==> #[trigger] self.edit_distance@[j] > self.diffs_allowed),
        {
            acc = acc && self.edit_distance[i] >= self.diffs_allowed + 1;
        }
        acc
    }
}

} // verus!

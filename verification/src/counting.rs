//! How many combinations a run of the cursor visits.

use crate::cursor::{
    exhausted, first_combination, has_room, is_combination, is_pivot, is_successor,
    lemma_entry_bound, steps_at,
};
use vstd::prelude::*;

verus! {

/// The number of ways to choose `k` of `n` things.
pub open spec fn binomial(n: int, k: int) -> nat
    decreases n,
{
    if k == 0 {
        1
    } else if n <= 0 || k < 0 {
        0
    } else {
        binomial(n - 1, k - 1) + binomial(n - 1, k)
    }
}

/// The number of combinations over `0..bound` that come after `s`: for each
/// entry, those that agree with `s` before it and are larger there.
pub open spec fn steps_left(s: Seq<usize>, bound: int) -> nat
    decreases s.len(),
{
    if s.len() == 0 {
        0
    } else {
        binomial(bound - 1 - s[0], s.len() as int) + steps_left(s.skip(1), bound)
    }
}

proof fn lemma_binomial_too_few(n: int, k: int)
    requires
        n < k,
        0 < k,
    ensures
        binomial(n, k) == 0,
    decreases n,
{
    if n > 0 {
        lemma_binomial_too_few(n - 1, k - 1);
        lemma_binomial_too_few(n - 1, k);
    }
}

proof fn lemma_steps_left_at_end(s: Seq<usize>, bound: int)
    requires
        forall|j: int| 0 <= j < s.len() ==> (#[trigger] s[j]) + (s.len() - j) == bound,
    ensures
        steps_left(s, bound) == 0,
    decreases s.len(),
{
    if s.len() > 0 {
        lemma_binomial_too_few(bound - 1 - s[0], s.len() as int);
        let rest = s.skip(1);
        assert forall|j: int| 0 <= j < rest.len() implies (#[trigger] rest[j]) + (rest.len() - j)
            == bound by {
            assert(rest[j] == s[j + 1]);
        }
        lemma_steps_left_at_end(rest, bound);
    }
}

proof fn lemma_steps_left_of_run(s: Seq<usize>, bound: int, from: int)
    requires
        forall|j: int| 0 <= j < s.len() ==> (#[trigger] s[j]) == from + j,
        from + s.len() <= bound,
    ensures
        steps_left(s, bound) + 1 == binomial(bound - from, s.len() as int),
    decreases s.len(),
{
    if s.len() > 0 {
        let rest = s.skip(1);
        assert forall|j: int| 0 <= j < rest.len() implies (#[trigger] rest[j]) == from + 1 + j by {
            assert(rest[j] == s[j + 1]);
        }
        lemma_steps_left_of_run(rest, bound, from + 1);
    }
}

/// A run of the cursor over `k` entries below `bound` starts with all but
/// one of the `bound` choose `k` combinations still to come.
pub proof fn lemma_steps_left_at_start(k: nat, bound: int)
    requires
        k <= bound <= usize::MAX,
    ensures
        steps_left(first_combination(k), bound) + 1 == binomial(bound, k as int),
{
    assert forall|j: int| 0 <= j < k implies (#[trigger] first_combination(k)[j]) == j by {}
    lemma_steps_left_of_run(first_combination(k), bound, 0);
}

/// The cursor reports exhaustion exactly when no combination is left.
pub proof fn lemma_steps_left_when_exhausted(s: Seq<usize>, bound: int)
    requires
        is_combination(s, bound),
        exhausted(s, bound),
    ensures
        steps_left(s, bound) == 0,
{
    assert forall|j: int| 0 <= j < s.len() implies (#[trigger] s[j]) + (s.len() - j) == bound by {
        lemma_entry_bound(s, bound, j);
        assert(!has_room(s, bound, j));
    }
    lemma_steps_left_at_end(s, bound);
}

proof fn lemma_step_at_pivot(s: Seq<usize>, t: Seq<usize>, bound: int, p: int)
    requires
        is_combination(s, bound),
        is_pivot(s, bound, p),
        steps_at(s, t, p),
    ensures
        steps_left(s, bound) == steps_left(t, bound) + 1,
    decreases p,
{
    let srest = s.skip(1);
    let trest = t.skip(1);
    if p == 0 {
        assert forall|j: int| 0 <= j < srest.len() implies (#[trigger] srest[j]) + (srest.len()
            - j) == bound by {
            assert(srest[j] == s[j + 1]);
            lemma_entry_bound(s, bound, j + 1);
            assert(!has_room(s, bound, j + 1));
        }
        lemma_steps_left_at_end(srest, bound);
        lemma_steps_left_of_run(t, bound, s[0] + 1);
    } else {
        assert forall|j: int| 0 <= j < srest.len() implies has_room(srest, bound, j) == has_room(
            s,
            bound,
            j + 1,
        ) by {
            assert(srest[j] == s[j + 1]);
        }
        assert(is_combination(srest, bound)) by {
            assert forall|i: int, j: int| 0 <= i < j < srest.len() implies srest[i] < srest[j] by {
                assert(srest[i] == s[i + 1] && srest[j] == s[j + 1]);
            }
            assert forall|i: int| 0 <= i < srest.len() implies (#[trigger] srest[i]) < bound by {
                assert(srest[i] == s[i + 1]);
            }
        }
        assert(is_pivot(srest, bound, p - 1));
        assert(steps_at(srest, trest, p - 1)) by {
            assert forall|j: int| 0 <= j < p - 1 implies trest[j] == srest[j] by {
                assert(trest[j] == t[j + 1] && srest[j] == s[j + 1]);
            }
            assert forall|j: int| p - 1 <= j < srest.len() implies trest[j] == srest[p - 1] + 1 + (j
                - (p - 1)) by {
                assert(trest[j] == t[j + 1]);
            }
        }
        lemma_step_at_pivot(srest, trest, bound, p - 1);
        assert(t[0] == s[0]);
    }
}

/// Every step of the cursor leaves exactly one combination fewer to come.
/// A run from the first combination of `k` entries below `bound` to
/// exhaustion therefore visits `bound` choose `k` combinations.
pub proof fn lemma_step_uses_one(s: Seq<usize>, t: Seq<usize>, bound: int)
    requires
        is_combination(s, bound),
        is_successor(s, t, bound),
    ensures
        steps_left(s, bound) == steps_left(t, bound) + 1,
{
    let p = choose|p: int| is_pivot(s, bound, p) && steps_at(s, t, p);
    lemma_step_at_pivot(s, t, bound, p);
}

} // verus!

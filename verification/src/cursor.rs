//! The combination cursor: stepping a strictly increasing index sequence to
//! its lexicographic successor.

use vstd::prelude::*;

verus! {

/// `s` is a combination over `0..bound`: strictly increasing, every entry
/// below `bound`.
pub open spec fn is_combination(s: Seq<usize>, bound: int) -> bool {
    &&& forall|i: int| 0 <= i < s.len() ==> (#[trigger] s[i]) < bound
    &&& forall|i: int, j: int| 0 <= i < j < s.len() ==> s[i] < s[j]
}

/// Entry `i` of `s` can grow by one and still leave space below `bound` for
/// the entries behind it.
pub open spec fn has_room(s: Seq<usize>, bound: int, i: int) -> bool {
    s[i] + (s.len() - i) < bound
}

/// No entry of `s` can grow: `s` is the last combination of its length.
pub open spec fn exhausted(s: Seq<usize>, bound: int) -> bool {
    forall|i: int| 0 <= i < s.len() ==> !has_room(s, bound, i)
}

/// `p` is the rightmost entry of `s` that can grow.
pub open spec fn is_pivot(s: Seq<usize>, bound: int, p: int) -> bool {
    &&& 0 <= p < s.len()
    &&& has_room(s, bound, p)
    &&& forall|j: int| p < j < s.len() ==> !has_room(s, bound, j)
}

/// `t` is `s` with entry `p` grown by one and the entries behind it reset to
/// the consecutive values that follow.
pub open spec fn steps_at(s: Seq<usize>, t: Seq<usize>, p: int) -> bool {
    &&& t.len() == s.len()
    &&& forall|j: int| 0 <= j < p ==> t[j] == s[j]
    &&& forall|j: int| p <= j < s.len() ==> t[j] == s[p] + 1 + (j - p)
}

/// `t` is the combination that follows `s` among those over `0..bound`.
pub open spec fn is_successor(s: Seq<usize>, t: Seq<usize>, bound: int) -> bool {
    exists|p: int| is_pivot(s, bound, p) && steps_at(s, t, p)
}

/// The first combination of length `k`: `0, 1, .., k - 1`.
pub open spec fn first_combination(k: nat) -> Seq<usize> {
    Seq::new(k, |i: int| i as usize)
}

/// `a` comes strictly before `b` in lexicographic order.
pub open spec fn lex_lt(a: Seq<usize>, b: Seq<usize>) -> bool {
    exists|d: int| differs_first_at(a, b, d)
}

/// `a` and `b` agree before position `d`, where `a` is smaller.
pub open spec fn differs_first_at(a: Seq<usize>, b: Seq<usize>, d: int) -> bool {
    &&& 0 <= d < a.len()
    &&& d < b.len()
    &&& a[d] < b[d]
    &&& forall|j: int| 0 <= j < d ==> a[j] == b[j]
}

/// Entry `i` of a combination leaves space for the entries behind it.
pub proof fn lemma_entry_bound(s: Seq<usize>, bound: int, i: int)
    requires
        is_combination(s, bound),
        0 <= i < s.len(),
    ensures
        s[i] + (s.len() - i) <= bound,
        i <= s[i],
{
    if i + 1 < s.len() {
        lemma_entry_bound_above(s, bound, i + 1);
    }
    if i > 0 {
        lemma_entry_bound_below(s, bound, i - 1);
    }
}

proof fn lemma_entry_bound_above(s: Seq<usize>, bound: int, i: int)
    requires
        is_combination(s, bound),
        0 <= i < s.len(),
    ensures
        s[i] + (s.len() - i) <= bound,
    decreases s.len() - i,
{
    if i + 1 < s.len() {
        lemma_entry_bound_above(s, bound, i + 1);
    }
}

proof fn lemma_entry_bound_below(s: Seq<usize>, bound: int, i: int)
    requires
        is_combination(s, bound),
        0 <= i < s.len(),
    ensures
        i <= s[i],
    decreases i,
{
    if i > 0 {
        lemma_entry_bound_below(s, bound, i - 1);
    }
}

/// Steps `set` to the combination over `0..bound` that follows it.
///
/// Returns `false` when `set` was the last one (or is empty); its contents
/// are then of no further use.
pub fn next_combination(set: &mut Vec<usize>, bound: usize) -> (advanced: bool)
    requires
        is_combination(old(set)@, bound as int),
    ensures
        final(set)@.len() == old(set)@.len(),
        advanced == !exhausted(old(set)@, bound as int),
        advanced ==> is_successor(old(set)@, final(set)@, bound as int),
        advanced ==> is_combination(final(set)@, bound as int),
{
    let len: usize = set.len();
    if len == 0 {
        return false;
    }
    let ghost before = set@;
    proof {
        lemma_entry_bound(before, bound as int, len - 1);
        lemma_entry_bound(before, bound as int, 0);
    }
    let last: usize = set[len - 1];
    set.set(len - 1, last + 1);
    if last + 1 == bound {
        assert(!has_room(before, bound as int, len - 1));
        if len == 1 {
            return false;
        }
        let mut offset: usize = 2;
        loop
            invariant
                2 <= offset <= len,
                before == old(set)@,
                len == before.len(),
                len <= bound,
                set@.len() == len,
                is_combination(before, bound as int),
                forall|j: int| 0 <= j < len - 1 ==> set@[j] == before[j],
                forall|j: int| len - offset < j < len ==> !has_room(before, bound as int, j),
            ensures
                2 <= offset <= len,
                has_room(before, bound as int, len - offset),
            decreases len - offset,
        {
            if set[len - offset] < bound - offset {
                break;
            }
            if offset == len {
                return false;
            }
            offset += 1;
        }
        let p: usize = len - offset;
        let grown: usize = set[p] + 1;
        set.set(p, grown);
        let mut j: usize = p + 1;
        while j < len
            invariant
                p < j <= len,
                len == before.len(),
                set@.len() == len,
                has_room(before, bound as int, p as int),
                forall|i: int| 0 <= i < p ==> set@[i] == before[i],
                forall|i: int| p <= i < j ==> set@[i] == before[p as int] + 1 + (i - p),
            decreases len - j,
        {
            let prev: usize = set[j - 1];
            set.set(j, prev + 1);
            j += 1;
        }
        assert(is_pivot(before, bound as int, p as int));
        assert(steps_at(before, set@, p as int));
    } else {
        assert(has_room(before, bound as int, len - 1));
        assert(is_pivot(before, bound as int, len - 1));
        assert(steps_at(before, set@, len - 1));
    }
    true
}

/// Builds the first combination of length `k`.
pub fn initial_combination(k: usize) -> (set: Vec<usize>)
    ensures
        set@ == first_combination(k as nat),
        forall|bound: int| k <= bound ==> is_combination(set@, bound),
{
    let mut set: Vec<usize> = Vec::new();
    let mut i: usize = 0;
    while i < k
        invariant
            i <= k,
            set@.len() == i,
            forall|j: int| 0 <= j < i ==> set@[j] == j,
        decreases k - i,
    {
        set.push(i);
        i += 1;
    }
    assert(set@ =~= first_combination(k as nat));
    set
}

/// Entries of a combination lie at least as far apart as their positions.
pub proof fn lemma_entry_gap(s: Seq<usize>, bound: int, i: int, j: int)
    requires
        is_combination(s, bound),
        0 <= i <= j < s.len(),
    ensures
        s[i] + (j - i) <= s[j],
    decreases j - i,
{
    if i < j {
        lemma_entry_gap(s, bound, i, j - 1);
    }
}

/// The first position from `from` on at which `a` and `b` differ, or their
/// length if there is none.
pub open spec fn first_difference(a: Seq<usize>, b: Seq<usize>, from: int) -> int
    decreases a.len() - from,
{
    if from >= a.len() {
        a.len() as int
    } else if a[from] != b[from] {
        from
    } else {
        first_difference(a, b, from + 1)
    }
}

proof fn lemma_first_difference(a: Seq<usize>, b: Seq<usize>, from: int)
    requires
        a.len() == b.len(),
        0 <= from <= a.len(),
    ensures
        from <= first_difference(a, b, from) <= a.len(),
        forall|j: int| from <= j < first_difference(a, b, from) ==> a[j] == b[j],
        first_difference(a, b, from) < a.len() ==> a[first_difference(a, b, from)]
            != b[first_difference(a, b, from)],
    decreases a.len() - from,
{
    if from < a.len() && a[from] == b[from] {
        lemma_first_difference(a, b, from + 1);
    }
}

/// Lexicographic order is total on sequences of one length.
pub proof fn lemma_lex_total(a: Seq<usize>, b: Seq<usize>)
    requires
        a.len() == b.len(),
    ensures
        a == b || lex_lt(a, b) || lex_lt(b, a),
{
    let d = first_difference(a, b, 0);
    lemma_first_difference(a, b, 0);
    if d == a.len() {
        assert(a =~= b);
    } else if a[d] < b[d] {
        assert(differs_first_at(a, b, d));
    } else {
        assert(differs_first_at(b, a, d));
    }
}

/// Lexicographic order is irreflexive and asymmetric: of `a` before `b` and
/// `b` before `a` at most one holds, and neither when they are equal.
pub proof fn lemma_lex_asymmetric(a: Seq<usize>, b: Seq<usize>)
    requires
        lex_lt(a, b),
    ensures
        !lex_lt(b, a),
        a != b,
{
    let d = choose|d: int| differs_first_at(a, b, d);
    if lex_lt(b, a) {
        let e = choose|e: int| differs_first_at(b, a, e);
        assert(d == e || d < e || e < d);
    }
}

/// Stepping a combination moves it strictly forward in lexicographic order,
/// so a run of steps never visits a combination twice.
pub proof fn lemma_successor_increases(s: Seq<usize>, t: Seq<usize>, bound: int)
    requires
        is_combination(s, bound),
        is_successor(s, t, bound),
    ensures
        lex_lt(s, t),
{
    let p = choose|p: int| is_pivot(s, bound, p) && steps_at(s, t, p);
    assert(differs_first_at(s, t, p));
}

/// Stepping a combination skips none: every combination of the same length
/// that comes after `s` is the successor `t` or comes after `t`.
pub proof fn lemma_successor_is_next(s: Seq<usize>, t: Seq<usize>, c: Seq<usize>, bound: int)
    requires
        is_combination(s, bound),
        is_successor(s, t, bound),
        is_combination(c, bound),
        c.len() == s.len(),
        lex_lt(s, c),
    ensures
        c == t || lex_lt(t, c),
{
    let p = choose|p: int| is_pivot(s, bound, p) && steps_at(s, t, p);
    let d = choose|d: int| differs_first_at(s, c, d);
    lemma_entry_bound(c, bound, d);
    if d > p {
        assert(!has_room(s, bound, d));
        assert(false);
    } else if d < p {
        assert(differs_first_at(t, c, d));
    } else if c[p] > t[p] {
        assert(differs_first_at(t, c, p));
    } else {
        lemma_lex_total(t, c);
        if lex_lt(c, t) {
            let e = choose|e: int| differs_first_at(c, t, e);
            assert(e > p);
            lemma_entry_gap(c, bound, p, e);
            assert(false);
        }
    }
}

/// No combination comes before the first one.
pub proof fn lemma_first_is_least(c: Seq<usize>, bound: int)
    requires
        is_combination(c, bound),
    ensures
        !lex_lt(c, first_combination(c.len())),
{
    if lex_lt(c, first_combination(c.len())) {
        let d = choose|d: int| differs_first_at(c, first_combination(c.len()), d);
        lemma_entry_bound(c, bound, d);
    }
}

/// No combination comes after one that the cursor reports as the last.
pub proof fn lemma_exhausted_is_greatest(s: Seq<usize>, c: Seq<usize>, bound: int)
    requires
        is_combination(s, bound),
        exhausted(s, bound),
        is_combination(c, bound),
        c.len() == s.len(),
    ensures
        !lex_lt(s, c),
{
    if lex_lt(s, c) {
        let d = choose|d: int| differs_first_at(s, c, d);
        lemma_entry_bound(c, bound, d);
        assert(!has_room(s, bound, d));
    }
}

/// `holds` is true of every combination of the length of `s` that comes
/// before `s`.
pub open spec fn holds_before(holds: spec_fn(Seq<usize>) -> bool, s: Seq<usize>, bound: int) -> bool {
    forall|c: Seq<usize>|
        is_combination(c, bound) && c.len() == s.len() && lex_lt(c, s) ==> #[trigger] holds(c)
}

/// `holds` is true of every combination of length `k` over `0..bound`.
pub open spec fn holds_of_all(holds: spec_fn(Seq<usize>) -> bool, k: nat, bound: int) -> bool {
    forall|c: Seq<usize>| is_combination(c, bound) && c.len() == k ==> #[trigger] holds(c)
}

/// A run of the cursor starts with nothing behind it.
pub proof fn lemma_cover_start(holds: spec_fn(Seq<usize>) -> bool, k: nat, bound: int)
    ensures
        holds_before(holds, first_combination(k), bound),
{
    assert forall|c: Seq<usize>|
        is_combination(c, bound) && c.len() == k && lex_lt(c, first_combination(k)) implies holds(
        c,
    ) by {
        lemma_first_is_least(c, bound);
    }
}

/// What holds of `s` and of all before it holds of all before its successor.
pub proof fn lemma_cover_step(
    holds: spec_fn(Seq<usize>) -> bool,
    s: Seq<usize>,
    t: Seq<usize>,
    bound: int,
)
    requires
        is_combination(s, bound),
        is_successor(s, t, bound),
        holds_before(holds, s, bound),
        holds(s),
    ensures
        holds_before(holds, t, bound),
{
    assert forall|c: Seq<usize>|
        is_combination(c, bound) && c.len() == t.len() && lex_lt(c, t) implies holds(c) by {
        lemma_lex_total(c, s);
        if lex_lt(s, c) {
            lemma_successor_is_next(s, t, c, bound);
            lemma_lex_asymmetric(c, t);
        }
    }
}

/// A run of the cursor from the first combination to exhaustion visits every
/// combination: what holds of the last one and of all before it holds of all.
pub proof fn lemma_cover_end(holds: spec_fn(Seq<usize>) -> bool, s: Seq<usize>, bound: int)
    requires
        is_combination(s, bound),
        exhausted(s, bound),
        holds_before(holds, s, bound),
        holds(s),
    ensures
        holds_of_all(holds, s.len(), bound),
{
    assert forall|c: Seq<usize>| is_combination(c, bound) && c.len() == s.len() implies holds(
        c,
    ) by {
        lemma_lex_total(c, s);
        lemma_exhausted_is_greatest(s, c, bound);
    }
}

} // verus!

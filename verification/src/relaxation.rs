//! Relaxing the selection rules never loses a match: what the search within
//! the rules can find, the search over all selections can find too.

use crate::cursor::{is_combination, lemma_entry_bound};
use crate::grouping::{
    accepted, consistent_oracle, groups_hit, is_partition, last_hit, middle_hit, picked_sum,
    without,
};
use crate::selector::{
    all_sides, every_pick_misses, gathered, hit, is_selection, lemma_first_sides_are_a_pick,
    lemma_unchecked_search_determined, named_positions, selected, some_pick_hits, Sides,
};
use vstd::prelude::*;

verus! {

/// `pool` with the entries at `i` and `i + 1` exchanged.
pub open spec fn swapped(pool: Seq<i32>, i: int) -> Seq<i32> {
    pool.update(i, pool[i + 1]).update(i + 1, pool[i])
}

/// `s` with the entry at `from` moved to the earlier position `to`.
pub open spec fn moved<T>(s: Seq<T>, from: int, to: int) -> Seq<T> {
    s.remove(from).insert(to, s[from])
}

/// Taking a group out of a pool shortens the pool by the group's length.
pub proof fn lemma_without_len(pool: Seq<i32>, g: Seq<usize>)
    requires
        is_combination(g, pool.len() as int),
    ensures
        without(pool, g).len() == pool.len() - g.len(),
    decreases g.len(),
{
    if g.len() > 0 {
        lemma_entry_bound(g, pool.len() as int, g.len() - 1);
        lemma_without_len(pool.remove(g.last() as int), g.drop_last());
    }
}

proof fn lemma_picked_sum_agrees(p: Seq<i32>, q: Seq<i32>, g: Seq<usize>)
    requires
        forall|j: int| 0 <= j < g.len() ==> p[(#[trigger] g[j]) as int] == q[g[j] as int],
    ensures
        picked_sum(p, g) == picked_sum(q, g),
    decreases g.len(),
{
    if g.len() > 0 {
        lemma_picked_sum_agrees(p, q, g.drop_last());
    }
}

/// For a group over a pool there is a group over the pool with two
/// neighbours exchanged that has the same sum and leaves the same rest, or
/// that rest with two neighbours exchanged (at the position returned, if it
/// is not negative).
proof fn lemma_swap_group(pool: Seq<i32>, g: Seq<usize>, i: int, bound: int) -> (r: (
    Seq<usize>,
    int,
))
    requires
        is_combination(g, bound),
        bound <= pool.len() <= usize::MAX,
        bound != i + 1,
        0 <= i,
        i + 1 < pool.len(),
    ensures
        is_combination(r.0, bound),
        r.0.len() == g.len(),
        picked_sum(swapped(pool, i), r.0) == picked_sum(pool, g),
        r.1 < 0 ==> without(swapped(pool, i), r.0) == without(pool, g),
        r.1 >= 0 ==> r.1 + 1 < pool.len() - g.len() && without(swapped(pool, i), r.0) == swapped(
            without(pool, g),
            r.1,
        ),
    decreases g.len(),
{
    let sp = swapped(pool, i);
    if g.len() == 0 {
        (g, i)
    } else {
        let m = g.last() as int;
        let h = g.drop_last();
        assert(is_combination(h, m));
        if m > i + 1 {
            assert(sp.remove(m) =~= swapped(pool.remove(m), i));
            let (h2, j) = lemma_swap_group(pool.remove(m), h, i, m);
            let g2 = h2.push(g.last());
            assert(g2.drop_last() =~= h2);
            lemma_picked_sum_agrees(sp, swapped(pool.remove(m), i), h2);
            lemma_picked_sum_agrees(pool.remove(m), pool, h);
            (g2, j)
        } else if m == i + 1 {
            if h.len() > 0 && h.last() == i {
                let hh = h.drop_last();
                assert(sp.remove(i + 1).remove(i) =~= pool.remove(i + 1).remove(i));
                lemma_picked_sum_agrees(sp, pool, hh);
                assert(picked_sum(sp, h) == picked_sum(sp, hh) + sp[i]);
                assert(picked_sum(pool, h) == picked_sum(pool, hh) + pool[i]);
                assert(without(sp.remove(i + 1), h) == without(sp.remove(i + 1).remove(i), hh));
                assert(without(pool.remove(i + 1), h) == without(
                    pool.remove(i + 1).remove(i),
                    hh,
                ));
                (g, -1)
            } else {
                let g2 = h.push(i as usize);
                assert(g2.drop_last() =~= h);
                assert(sp.remove(i) =~= pool.remove(i + 1));
                if h.len() > 0 {
                    assert(h.last() < i);
                }
                lemma_picked_sum_agrees(sp, pool, h);
                (g2, -1)
            }
        } else if m == i {
            let g2 = h.push((i + 1) as usize);
            assert(g2.drop_last() =~= h);
            assert(sp.remove(i + 1) =~= pool.remove(i));
            lemma_picked_sum_agrees(sp, pool, h);
            (g2, -1)
        } else {
            assert(sp.remove(m) =~= swapped(pool.remove(m), i - 1));
            let (h2, j) = lemma_swap_group(pool.remove(m), h, i - 1, m);
            let g2 = h2.push(g.last());
            assert(g2.drop_last() =~= h2);
            lemma_picked_sum_agrees(sp, swapped(pool.remove(m), i - 1), h2);
            lemma_picked_sum_agrees(pool.remove(m), pool, h);
            (g2, j)
        }
    }
}

proof fn lemma_swap_last<F: Fn(i64, i64, i64) -> bool>(
    oracle: F,
    pool: Seq<i32>,
    x: i64,
    y: i64,
    k: nat,
    i: int,
)
    requires
        last_hit(oracle, pool, x, y, k),
        0 <= i,
        i + 1 < pool.len() <= usize::MAX,
    ensures
        last_hit(oracle, swapped(pool, i), x, y, k),
{
    let c = choose|c: Seq<usize>|
        is_combination(c, pool.len() as int) && c.len() == k && call_ensures(
            oracle,
            (x, y, picked_sum(pool, c) as i64),
            true,
        );
    let (c2, j) = lemma_swap_group(pool, c, i, pool.len() as int);
    assert(is_combination(c2, swapped(pool, i).len() as int));
}

proof fn lemma_swap_middle<F: Fn(i64, i64, i64) -> bool>(
    oracle: F,
    pool: Seq<i32>,
    x: i64,
    k1: nat,
    k2: nat,
    i: int,
)
    requires
        middle_hit(oracle, pool, x, k1, k2),
        0 <= i,
        i + 1 < pool.len() <= usize::MAX,
    ensures
        middle_hit(oracle, swapped(pool, i), x, k1, k2),
{
    let b = choose|b: Seq<usize>|
        is_combination(b, pool.len() as int) && b.len() == k1 && #[trigger] last_hit(
            oracle,
            without(pool, b),
            x,
            picked_sum(pool, b) as i64,
            k2,
        );
    let (b2, j) = lemma_swap_group(pool, b, i, pool.len() as int);
    lemma_without_len(pool, b);
    if j >= 0 {
        lemma_swap_last(oracle, without(pool, b), x, picked_sum(pool, b) as i64, k2, j);
    }
    assert(is_combination(b2, swapped(pool, i).len() as int));
    assert(last_hit(
        oracle,
        without(swapped(pool, i), b2),
        x,
        picked_sum(swapped(pool, i), b2) as i64,
        k2,
    ));
}

proof fn lemma_swap_groups<F: Fn(i64, i64, i64) -> bool>(
    oracle: F,
    sides: Seq<i32>,
    k0: nat,
    k1: nat,
    k2: nat,
    i: int,
)
    requires
        groups_hit(oracle, sides, k0, k1, k2),
        0 <= i,
        i + 1 < sides.len() <= usize::MAX,
    ensures
        groups_hit(oracle, swapped(sides, i), k0, k1, k2),
{
    let a = choose|a: Seq<usize>|
        is_combination(a, sides.len() as int) && a.len() == k0 && #[trigger] middle_hit(
            oracle,
            without(sides, a),
            picked_sum(sides, a) as i64,
            k1,
            k2,
        );
    let (a2, j) = lemma_swap_group(sides, a, i, sides.len() as int);
    lemma_without_len(sides, a);
    if j >= 0 {
        lemma_swap_middle(oracle, without(sides, a), picked_sum(sides, a) as i64, k1, k2, j);
    }
    assert(is_combination(a2, swapped(sides, i).len() as int));
    assert(middle_hit(
        oracle,
        without(swapped(sides, i), a2),
        picked_sum(swapped(sides, i), a2) as i64,
        k1,
        k2,
    ));
}

/// Whether a list of sides is accepted does not depend on the order of two
/// neighbours in it.
pub proof fn lemma_swap_accepted<F: Fn(i64, i64, i64) -> bool>(oracle: F, sides: Seq<i32>, i: int)
    requires
        accepted(oracle, sides),
        0 <= i,
        i + 1 < sides.len() <= usize::MAX,
    ensures
        accepted(oracle, swapped(sides, i)),
{
    let (k0, k1, k2) = choose|k0: nat, k1: nat, k2: nat|
        is_partition(sides.len(), k0, k1, k2) && #[trigger] groups_hit(oracle, sides, k0, k1, k2);
    lemma_swap_groups(oracle, sides, k0, k1, k2, i);
    assert(is_partition(swapped(sides, i).len(), k0, k1, k2));
}

/// Whether a list of sides is accepted does not depend on where one of
/// them stands.
pub proof fn lemma_move_accepted<F: Fn(i64, i64, i64) -> bool>(
    oracle: F,
    sides: Seq<i32>,
    from: int,
    to: int,
)
    requires
        accepted(oracle, sides),
        0 <= to <= from < sides.len() <= usize::MAX,
    ensures
        accepted(oracle, moved(sides, from, to)),
    decreases from - to,
{
    if to == from {
        assert(moved(sides, from, to) =~= sides);
    } else {
        lemma_swap_accepted(oracle, sides, from - 1);
        let s1 = swapped(sides, from - 1);
        lemma_move_accepted(oracle, s1, from - 1, to);
        assert(moved(s1, from - 1, to) =~= moved(sides, from, to));
    }
}

/// Where the second side of triangle `td[at]` belongs among the sides in
/// the order of the twelve: before or behind the first side of that
/// triangle, and behind the second sides placed before it.
pub open spec fn place(ss: Seq<usize>, td: Seq<usize>, sd: Seq<usize>, at: int) -> int {
    let t = td[at] as int;
    if sd[at] < ss[t] {
        t + at
    } else {
        t + at + 1
    }
}

/// The positions that a selection names, in ascending order: each second
/// side moved to its place.
pub open spec fn ordered_positions(
    ts: Seq<usize>,
    ss: Seq<usize>,
    td: Seq<usize>,
    sd: Seq<usize>,
) -> Seq<usize> {
    let named = named_positions(ts, ss, td, sd);
    if td.len() == 0 {
        named
    } else if td.len() == 1 {
        moved(named, 4, place(ss, td, sd, 0))
    } else {
        moved(moved(named, 4, place(ss, td, sd, 0)), 5, place(ss, td, sd, 1))
    }
}

proof fn lemma_neighbours_ascend(s: Seq<usize>, bound: int, i: int, j: int)
    requires
        forall|k: int| 0 <= k < s.len() ==> (#[trigger] s[k]) < bound,
        forall|k: int| 0 <= k < s.len() - 1 ==> (#[trigger] s[k]) < s[k + 1],
        0 <= i < j < s.len(),
    ensures
        s[i] < s[j],
    decreases j - i,
{
    if i + 1 < j {
        lemma_neighbours_ascend(s, bound, i, j - 1);
    }
}

proof fn lemma_ascending_is_combination(s: Seq<usize>, bound: int)
    requires
        forall|k: int| 0 <= k < s.len() ==> (#[trigger] s[k]) < bound,
        forall|k: int| 0 <= k < s.len() - 1 ==> (#[trigger] s[k]) < s[k + 1],
    ensures
        is_combination(s, bound),
{
    assert forall|i: int, j: int| 0 <= i < j < s.len() implies s[i] < s[j] by {
        lemma_neighbours_ascend(s, bound, i, j);
    }
}

/// The position of the first side of triangle `j`, whose slot is `slot`.
pub open spec fn first_position(j: int, slot: int) -> int {
    3 * j + slot
}

/// Entry `k` of the ordered positions when all four triangles give a first
/// side, in the slots `s`, and triangle `t0` gives a second, in slot `d0`.
pub open spec fn with_one_extra(s: Seq<int>, t0: int, d0: int, k: int) -> int {
    let at = if d0 < s[t0] { t0 } else { t0 + 1 };
    if k < at {
        first_position(k, s[k])
    } else if k == at {
        3 * t0 + d0
    } else {
        first_position(k - 1, s[k - 1])
    }
}

/// Entry `k` of the ordered positions when triangle `t1` gives a second
/// side as well, in slot `d1`.
pub open spec fn with_two_extras(s: Seq<int>, t0: int, d0: int, t1: int, d1: int, k: int) -> int {
    let at = if d1 < s[t1] { t1 + 1 } else { t1 + 2 };
    if k < at {
        with_one_extra(s, t0, d0, k)
    } else if k == at {
        3 * t1 + d1
    } else {
        with_one_extra(s, t0, d0, k - 1)
    }
}

proof fn lemma_one_extra_ascends(s: Seq<int>, t0: int, d0: int, k: int)
    requires
        s.len() == 4,
        forall|j: int| 0 <= j < 4 ==> 0 <= #[trigger] s[j] < 3,
        0 <= t0 < 4,
        0 <= d0 < 3,
        d0 != s[t0],
        0 <= k < 4,
    ensures
        0 <= with_one_extra(s, t0, d0, k) < with_one_extra(s, t0, d0, k + 1) < 12,
{
    assert(0 <= s[0] < 3 && 0 <= s[1] < 3 && 0 <= s[2] < 3 && 0 <= s[3] < 3);
}

proof fn lemma_two_extras_ascend(s: Seq<int>, t0: int, d0: int, t1: int, d1: int, k: int)
    requires
        s.len() == 4,
        forall|j: int| 0 <= j < 4 ==> 0 <= #[trigger] s[j] < 3,
        0 <= t0 < t1 < 4,
        0 <= d0 < 3,
        0 <= d1 < 3,
        d0 != s[t0],
        d1 != s[t1],
        0 <= k < 5,
    ensures
        0 <= with_two_extras(s, t0, d0, t1, d1, k) < with_two_extras(s, t0, d0, t1, d1, k + 1)
            < 12,
{
    assert(0 <= s[0] < 3 && 0 <= s[1] < 3 && 0 <= s[2] < 3 && 0 <= s[3] < 3);
}

proof fn lemma_five_positions(ts: Seq<usize>, ss: Seq<usize>, td: Seq<usize>, sd: Seq<usize>)
    requires
        is_selection(ts, ss, td, sd),
        td.len() == 1,
    ensures
        is_combination(ordered_positions(ts, ss, td, sd), 12),
        ordered_positions(ts, ss, td, sd).len() == 5,
{
    let named = named_positions(ts, ss, td, sd);
    let q = ordered_positions(ts, ss, td, sd);
    let s = Seq::new(4, |j: int| ss[j] as int);
    let t0 = td[0] as int;
    let d0 = sd[0] as int;
    assert forall|k: int| 0 <= k < 4 implies ts[k] == k by {
        lemma_entry_bound(ts, 4, k);
    }
    assert forall|k: int| 0 <= k < 4 implies named[k] == first_position(k, s[k]) by {}
    assert(named[4] == 3 * t0 + d0);
    assert(sd[0] != ss[td[0] as int]);
    assert forall|k: int| 0 <= k < 5 implies (#[trigger] q[k]) == with_one_extra(s, t0, d0, k) by {}
    assert forall|k: int| 0 <= k < 4 implies (#[trigger] q[k]) < q[k + 1] && q[k + 1] < 12 by {
        lemma_one_extra_ascends(s, t0, d0, k);
    }
    lemma_ascending_is_combination(q, 12);
}

proof fn lemma_six_positions(ts: Seq<usize>, ss: Seq<usize>, td: Seq<usize>, sd: Seq<usize>)
    requires
        is_selection(ts, ss, td, sd),
        td.len() == 2,
    ensures
        is_combination(ordered_positions(ts, ss, td, sd), 12),
        ordered_positions(ts, ss, td, sd).len() == 6,
{
    let named = named_positions(ts, ss, td, sd);
    let q = ordered_positions(ts, ss, td, sd);
    let s = Seq::new(4, |j: int| ss[j] as int);
    let t0 = td[0] as int;
    let d0 = sd[0] as int;
    let t1 = td[1] as int;
    let d1 = sd[1] as int;
    assert forall|k: int| 0 <= k < 4 implies ts[k] == k by {
        lemma_entry_bound(ts, 4, k);
    }
    assert forall|k: int| 0 <= k < 4 implies named[k] == first_position(k, s[k]) by {}
    assert(named[4] == 3 * t0 + d0);
    assert(named[5] == 3 * t1 + d1);
    assert(sd[0] != ss[td[0] as int]);
    assert(sd[1] != ss[td[1] as int]);
    assert(td[0] < td[1]);
    let q1 = moved(named, 4, place(ss, td, sd, 0));
    assert forall|k: int| 0 <= k < 5 implies (#[trigger] q1[k]) == with_one_extra(s, t0, d0, k) by {}
    assert(q1[5] == named[5]);
    assert forall|k: int| 0 <= k < 6 implies (#[trigger] q[k]) == with_two_extras(
        s,
        t0,
        d0,
        t1,
        d1,
        k,
    ) by {}
    assert forall|k: int| 0 <= k < 5 implies (#[trigger] q[k]) < q[k + 1] && q[k + 1] < 12 by {
        lemma_two_extras_ascend(s, t0, d0, t1, d1, k);
    }
    lemma_ascending_is_combination(q, 12);
}

/// The positions that a selection within the rules names are, put in
/// order, a selection of the search without the rules.
pub proof fn lemma_ordered_positions(
    ts: Seq<usize>,
    ss: Seq<usize>,
    td: Seq<usize>,
    sd: Seq<usize>,
)
    requires
        is_selection(ts, ss, td, sd),
    ensures
        is_combination(ordered_positions(ts, ss, td, sd), 12),
        ordered_positions(ts, ss, td, sd).len() == ts.len() + td.len(),
{
    let named = named_positions(ts, ss, td, sd);
    if td.len() == 0 {
        assert forall|k: int| 0 <= k < named.len() - 1 implies (#[trigger] named[k]) < named[k
            + 1] by {
            assert(ts[k] < ts[k + 1]);
        }
        lemma_ascending_is_combination(named, 12);
    } else if td.len() == 1 {
        lemma_five_positions(ts, ss, td, sd);
    } else {
        lemma_six_positions(ts, ss, td, sd);
    }
}

/// Moving an entry of a list of positions moves the side gathered there.
proof fn lemma_gathered_moved(pool: Seq<i32>, q: Seq<usize>, from: int, to: int)
    requires
        0 <= to <= from < q.len(),
    ensures
        moved(gathered(pool, q), from, to) == gathered(pool, moved(q, from, to)),
{
    assert(moved(gathered(pool, q), from, to) =~= gathered(pool, moved(q, from, to)));
}

/// Relaxing the rules never loses a match: a selection within the rules
/// that has an accepted grouping gives a selection of as many of the twelve
/// sides, with no regard to their triangles, that has one too.
pub proof fn lemma_relaxing_keeps_hits<F: Fn(i64, i64, i64) -> bool>(
    oracle: F,
    case: [Sides; 4],
    ts: Seq<usize>,
    ss: Seq<usize>,
    td: Seq<usize>,
    sd: Seq<usize>,
)
    requires
        hit(oracle, case, ts, ss, td, sd),
    ensures
        some_pick_hits(oracle, all_sides(case), ts.len() + td.len()),
{
    let pool = all_sides(case);
    let named = named_positions(ts, ss, td, sd);
    let sides = selected(case, ts, ss, td, sd);
    let q = ordered_positions(ts, ss, td, sd);
    assert(sides =~= gathered(pool, named));
    lemma_ordered_positions(ts, ss, td, sd);
    if td.len() == 1 {
        let at0 = place(ss, td, sd, 0);
        lemma_move_accepted(oracle, sides, 4, at0);
        lemma_gathered_moved(pool, named, 4, at0);
    } else if td.len() == 2 {
        let at0 = place(ss, td, sd, 0);
        let at1 = place(ss, td, sd, 1);
        let q1 = moved(named, 4, at0);
        lemma_move_accepted(oracle, sides, 4, at0);
        lemma_gathered_moved(pool, named, 4, at0);
        lemma_move_accepted(oracle, gathered(pool, q1), 5, at1);
        lemma_gathered_moved(pool, q1, 5, at1);
    }
    assert(accepted(oracle, gathered(pool, q)));
}

/// With an oracle that has one answer to each triple: where the search
/// within the rules finds a match, the search without the rules cannot
/// come back empty.
pub proof fn lemma_relaxed_search_finds<F: Fn(i64, i64, i64) -> bool>(oracle: F, case: [Sides; 4])
    requires
        consistent_oracle(oracle),
        exists|ts: Seq<usize>, ss: Seq<usize>, td: Seq<usize>, sd: Seq<usize>|
            hit(oracle, case, ts, ss, td, sd),
    ensures
        !(forall|k: nat| 3 <= k <= 6 ==> #[trigger] every_pick_misses(oracle, all_sides(case), k)),
{
    let (ts, ss, td, sd) = choose|
        ts: Seq<usize>,
        ss: Seq<usize>,
        td: Seq<usize>,
        sd: Seq<usize>,
    |
        hit(oracle, case, ts, ss, td, sd);
    lemma_relaxing_keeps_hits(oracle, case, ts, ss, td, sd);
    let k = ts.len() + td.len();
    assert(3 <= k <= 6 && some_pick_hits(oracle, all_sides(case), k));
    lemma_unchecked_search_determined(oracle, case);
}

} // verus!

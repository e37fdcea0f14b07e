//! The grouping enumerator: every way to split a list of sides into three
//! summed groups, each tried against an oracle.

use crate::counting::{lemma_step_uses_one, steps_left};
use crate::cursor::{
    holds_before, holds_of_all, initial_combination, is_combination, lemma_cover_end,
    lemma_cover_start, lemma_cover_step, lemma_entry_bound, next_combination,
};
use itertools::Itertools;
use vstd::prelude::*;
use vstd::relations::*;
use vstd::seq_lib::*;

verus! {

/// The sum of the entries of `pool` at the positions in `group`.
pub open spec fn picked_sum(pool: Seq<i32>, group: Seq<usize>) -> int
    decreases group.len(),
{
    if group.len() == 0 {
        0
    } else {
        picked_sum(pool, group.drop_last()) + pool[group.last() as int]
    }
}

/// `pool` with the positions in `group` taken out, highest position first.
pub open spec fn without(pool: Seq<i32>, group: Seq<usize>) -> Seq<i32>
    decreases group.len(),
{
    if group.len() == 0 {
        pool
    } else {
        without(pool.remove(group.last() as int), group.drop_last())
    }
}

/// The most sides a pool holds.
pub const MAX_SIDES: usize = 6;

/// The least sides that can form three groups.
pub const MIN_SIDES: usize = 3;

/// The oracle takes every triple of sides.
pub open spec fn total_oracle<F: Fn(i64, i64, i64) -> bool>(oracle: F) -> bool {
    forall|x: i64, y: i64, z: i64| call_requires(oracle, (x, y, z))
}

/// The predicate "the oracle may answer no" on the choices of the last
/// group, the first two sides being `x` and `y`.
pub open spec fn last_rejects<F: Fn(i64, i64, i64) -> bool>(
    oracle: F,
    pool: Seq<i32>,
    x: i64,
    y: i64,
) -> spec_fn(Seq<usize>) -> bool {
    |c: Seq<usize>| call_ensures(oracle, (x, y, picked_sum(pool, c) as i64), false)
}

/// Some choice of `k` positions of `pool` gives a third side with which the
/// oracle may answer yes.
pub open spec fn last_hit<F: Fn(i64, i64, i64) -> bool>(
    oracle: F,
    pool: Seq<i32>,
    x: i64,
    y: i64,
    k: nat,
) -> bool {
    exists|c: Seq<usize>|
        is_combination(c, pool.len() as int) && c.len() == k && call_ensures(
            oracle,
            (x, y, picked_sum(pool, c) as i64),
            true,
        )
}

/// With every choice of `k` positions of `pool` as the third side the oracle
/// may answer no.
pub open spec fn last_miss<F: Fn(i64, i64, i64) -> bool>(
    oracle: F,
    pool: Seq<i32>,
    x: i64,
    y: i64,
    k: nat,
) -> bool {
    holds_of_all(last_rejects(oracle, pool, x, y), k, pool.len() as int)
}

/// A combination over a pool is no longer than the pool.
pub proof fn lemma_combination_len(s: Seq<usize>, bound: int)
    requires
        is_combination(s, bound),
        0 <= bound,
    ensures
        s.len() <= bound,
{
    if s.len() > 0 {
        lemma_entry_bound(s, bound, 0);
    }
}

/// Sorts positions with `Itertools::sorted`: the result holds the same
/// positions, each as often as before, in ascending order.
#[verifier::external_body]
fn ascending(group: &Vec<usize>) -> (sorted: Vec<usize>)
    ensures
        sorted@.to_multiset() == group@.to_multiset(),
        forall|i: int, j: int| 0 <= i < j < sorted@.len() ==> sorted@[i] <= sorted@[j],
{
    group.iter().cloned().sorted().collect()
}

/// Sums the sides of `pool` at the positions in `group`.
fn sum_at(pool: &Vec<i32>, group: &Vec<usize>) -> (sum: i64)
    requires
        pool@.len() <= MAX_SIDES,
        is_combination(group@, pool@.len() as int),
    ensures
        sum == picked_sum(pool@, group@),
{
    proof {
        lemma_combination_len(group@, pool@.len() as int);
    }
    let mut sum: i64 = 0;
    let mut i: usize = 0;
    while i < group.len()
        invariant
            i <= group@.len() <= MAX_SIDES,
            is_combination(group@, pool@.len() as int),
            sum == picked_sum(pool@, group@.take(i as int)),
            -0x8000_0000 * i <= sum <= 0x8000_0000 * i,
        decreases group@.len() - i,
    {
        proof {
            assert(group@.take(i + 1).drop_last() =~= group@.take(i as int));
        }
        sum = sum + pool[group[i]] as i64;
        i += 1;
    }
    assert(group@.take(i as int) =~= group@);
    sum
}

/// `group` names positions of a pool of `len` entries, none of them twice.
pub open spec fn are_positions(group: Seq<usize>, len: int) -> bool {
    &&& group.no_duplicates()
    &&& forall|i: int| 0 <= i < group.len() ==> (#[trigger] group[i]) < len
}

/// The order in which positions are sorted before they are taken out.
pub open spec fn ascending_order() -> spec_fn(usize, usize) -> bool {
    |a: usize, b: usize| a <= b
}

/// Takes the positions in `group` out of `pool`. The positions may come in
/// any order: they are sorted first, and the highest is taken out first, so
/// that each still names the entry it named in `pool`.
pub fn remove_all(pool: &Vec<i32>, group: &Vec<usize>) -> (rest: Vec<i32>)
    requires
        are_positions(group@, pool@.len() as int),
    ensures
        rest@ == without(pool@, group@.sort_by(ascending_order())),
        is_combination(group@, pool@.len() as int) ==> rest@ == without(pool@, group@),
        rest@.len() == pool@.len() - group@.len(),
{
    let order = ascending(group);
    proof {
        let leq = ascending_order();
        assert(total_ordering(leq));
        assert(sorted_by(order@, leq));
        group@.lemma_sort_by_ensures(leq);
        lemma_sorted_unique(order@, group@.sort_by(leq), leq);
        group@.lemma_multiset_has_no_duplicates();
        order@.lemma_multiset_has_no_duplicates_conv();
        order@.to_multiset_ensures();
        group@.to_multiset_ensures();
        assert forall|i: int| 0 <= i < order@.len() implies (#[trigger] order@[i]) < pool@.len() by {
            assert(order@.contains(order@[i]));
            assert(group@.contains(order@[i]));
        }
        assert forall|i: int, j: int| 0 <= i < j < order@.len() implies order@[i] < order@[j] by {
            assert(leq(order@[i], order@[j]));
        }
        if is_combination(group@, pool@.len() as int) {
            assert(sorted_by(group@, leq));
            lemma_sorted_unique(order@, group@, leq);
        }
    }
    let mut rest = pool.clone();
    assert(rest@ =~= pool@);
    let mut i: usize = order.len();
    assert(order@.take(i as int) =~= order@);
    while i > 0
        invariant
            i <= order@.len(),
            is_combination(order@, pool@.len() as int),
            rest@.len() == pool@.len() - (order@.len() - i),
            without(pool@, order@) == without(rest@, order@.take(i as int)),
        decreases i,
    {
        proof {
            lemma_entry_bound(order@, pool@.len() as int, i - 1);
            assert(order@.take(i as int).drop_last() =~= order@.take(i - 1));
        }
        i -= 1;
        rest.remove(order[i]);
    }
    rest
}

/// Tries every choice of `k` positions of `pool` as the third group.
fn try_last_group<F: Fn(i64, i64, i64) -> bool>(
    pool: &Vec<i32>,
    x: i64,
    y: i64,
    k: usize,
    oracle: &F,
) -> (found: bool)
    requires
        total_oracle(*oracle),
        pool@.len() <= MAX_SIDES,
        k <= pool@.len(),
    ensures
        found ==> last_hit(*oracle, pool@, x, y, k as nat),
        !found ==> last_miss(*oracle, pool@, x, y, k as nat),
{
    let bound = pool.len();
    let mut group = initial_combination(k);
    let ghost rejects = last_rejects(*oracle, pool@, x, y);
    proof {
        lemma_cover_start(rejects, k as nat, bound as int);
    }
    loop
        invariant_except_break
            is_combination(group@, bound as int),
            holds_before(rejects, group@, bound as int),
        invariant
            total_oracle(*oracle),
            bound == pool@.len() <= MAX_SIDES,
            group@.len() == k,
            rejects == last_rejects(*oracle, pool@, x, y),
        ensures
            last_miss(*oracle, pool@, x, y, k as nat),
        decreases steps_left(group@, bound as int),
    {
        let z = sum_at(pool, &group);
        if oracle(x, y, z) {
            return true;
        }
        let ghost tried = group@;
        assert(rejects(tried));
        if !next_combination(&mut group, bound) {
            proof {
                lemma_cover_end(rejects, tried, bound as int);
            }
            break;
        }
        proof {
            lemma_cover_step(rejects, tried, group@, bound as int);
            lemma_step_uses_one(tried, group@, bound as int);
        }
    }
    false
}

/// The predicate "no choice of the last group is accepted" on the choices of
/// the middle group, the first side being `x`.
pub open spec fn middle_rejects<F: Fn(i64, i64, i64) -> bool>(
    oracle: F,
    pool: Seq<i32>,
    x: i64,
    k2: nat,
) -> spec_fn(Seq<usize>) -> bool {
    |b: Seq<usize>| last_miss(oracle, without(pool, b), x, picked_sum(pool, b) as i64, k2)
}

/// Some choice of `k1` positions of `pool` as the second group, and of `k2`
/// positions of what is left as the third, may be accepted.
pub open spec fn middle_hit<F: Fn(i64, i64, i64) -> bool>(
    oracle: F,
    pool: Seq<i32>,
    x: i64,
    k1: nat,
    k2: nat,
) -> bool {
    exists|b: Seq<usize>|
        is_combination(b, pool.len() as int) && b.len() == k1 && #[trigger] last_hit(
            oracle,
            without(pool, b),
            x,
            picked_sum(pool, b) as i64,
            k2,
        )
}

/// Every choice of the second and third group may be rejected.
pub open spec fn middle_miss<F: Fn(i64, i64, i64) -> bool>(
    oracle: F,
    pool: Seq<i32>,
    x: i64,
    k1: nat,
    k2: nat,
) -> bool {
    holds_of_all(middle_rejects(oracle, pool, x, k2), k1, pool.len() as int)
}

/// Tries every choice of `k1` positions of `pool` as the second group, each
/// with every choice of `k2` positions of the rest as the third.
fn try_middle_group<F: Fn(i64, i64, i64) -> bool>(
    pool: &Vec<i32>,
    x: i64,
    k1: usize,
    k2: usize,
    oracle: &F,
) -> (found: bool)
    requires
        total_oracle(*oracle),
        pool@.len() <= MAX_SIDES,
        k1 + k2 <= pool@.len(),
    ensures
        found ==> middle_hit(*oracle, pool@, x, k1 as nat, k2 as nat),
        !found ==> middle_miss(*oracle, pool@, x, k1 as nat, k2 as nat),
{
    let bound = pool.len();
    let mut group = initial_combination(k1);
    let ghost rejects = middle_rejects(*oracle, pool@, x, k2 as nat);
    proof {
        lemma_cover_start(rejects, k1 as nat, bound as int);
    }
    loop
        invariant_except_break
            is_combination(group@, bound as int),
            holds_before(rejects, group@, bound as int),
        invariant
            total_oracle(*oracle),
            bound == pool@.len() <= MAX_SIDES,
            k1 + k2 <= bound,
            group@.len() == k1,
            rejects == middle_rejects(*oracle, pool@, x, k2 as nat),
        ensures
            middle_miss(*oracle, pool@, x, k1 as nat, k2 as nat),
        decreases steps_left(group@, bound as int),
    {
        let y = sum_at(pool, &group);
        let rest = remove_all(pool, &group);
        if try_last_group(&rest, x, y, k2, oracle) {
            assert(last_hit(
                *oracle,
                without(pool@, group@),
                x,
                picked_sum(pool@, group@) as i64,
                k2 as nat,
            ));
            return true;
        }
        let ghost tried = group@;
        assert(rejects(tried));
        if !next_combination(&mut group, bound) {
            proof {
                lemma_cover_end(rejects, tried, bound as int);
            }
            break;
        }
        proof {
            lemma_cover_step(rejects, tried, group@, bound as int);
            lemma_step_uses_one(tried, group@, bound as int);
        }
    }
    false
}

/// The predicate "no choice of the other two groups is accepted" on the
/// choices of the first group.
pub open spec fn first_rejects<F: Fn(i64, i64, i64) -> bool>(
    oracle: F,
    sides: Seq<i32>,
    k1: nat,
    k2: nat,
) -> spec_fn(Seq<usize>) -> bool {
    |a: Seq<usize>| middle_miss(oracle, without(sides, a), picked_sum(sides, a) as i64, k1, k2)
}

/// Some split of `sides` into groups of `k0`, `k1` and `k2` positions may be
/// accepted: the first group is chosen among all positions, the second among
/// those that the first left, the third among those that both left.
pub open spec fn groups_hit<F: Fn(i64, i64, i64) -> bool>(
    oracle: F,
    sides: Seq<i32>,
    k0: nat,
    k1: nat,
    k2: nat,
) -> bool {
    exists|a: Seq<usize>|
        is_combination(a, sides.len() as int) && a.len() == k0 && #[trigger] middle_hit(
            oracle,
            without(sides, a),
            picked_sum(sides, a) as i64,
            k1,
            k2,
        )
}

/// Every split of `sides` into groups of `k0`, `k1` and `k2` positions may
/// be rejected.
pub open spec fn groups_miss<F: Fn(i64, i64, i64) -> bool>(
    oracle: F,
    sides: Seq<i32>,
    k0: nat,
    k1: nat,
    k2: nat,
) -> bool {
    holds_of_all(first_rejects(oracle, sides, k1, k2), k0, sides.len() as int)
}

/// Tries every split of `sides` into groups of the given sizes.
fn try_groups<F: Fn(i64, i64, i64) -> bool>(
    sides: &Vec<i32>,
    k0: usize,
    k1: usize,
    k2: usize,
    oracle: &F,
) -> (found: bool)
    requires
        total_oracle(*oracle),
        sides@.len() <= MAX_SIDES,
        k0 + k1 + k2 <= sides@.len(),
    ensures
        found ==> groups_hit(*oracle, sides@, k0 as nat, k1 as nat, k2 as nat),
        !found ==> groups_miss(*oracle, sides@, k0 as nat, k1 as nat, k2 as nat),
{
    let bound = sides.len();
    let mut group = initial_combination(k0);
    let ghost rejects = first_rejects(*oracle, sides@, k1 as nat, k2 as nat);
    proof {
        lemma_cover_start(rejects, k0 as nat, bound as int);
    }
    loop
        invariant_except_break
            is_combination(group@, bound as int),
            holds_before(rejects, group@, bound as int),
        invariant
            total_oracle(*oracle),
            bound == sides@.len() <= MAX_SIDES,
            k0 + k1 + k2 <= bound,
            group@.len() == k0,
            rejects == first_rejects(*oracle, sides@, k1 as nat, k2 as nat),
        ensures
            groups_miss(*oracle, sides@, k0 as nat, k1 as nat, k2 as nat),
        decreases steps_left(group@, bound as int),
    {
        let x = sum_at(sides, &group);
        let rest = remove_all(sides, &group);
        if try_middle_group(&rest, x, k1, k2, oracle) {
            assert(middle_hit(
                *oracle,
                without(sides@, group@),
                picked_sum(sides@, group@) as i64,
                k1 as nat,
                k2 as nat,
            ));
            return true;
        }
        let ghost tried = group@;
        assert(rejects(tried));
        if !next_combination(&mut group, bound) {
            proof {
                lemma_cover_end(rejects, tried, bound as int);
            }
            break;
        }
        proof {
            lemma_cover_step(rejects, tried, group@, bound as int);
            lemma_step_uses_one(tried, group@, bound as int);
        }
    }
    false
}

/// `k0`, `k1`, `k2` are group sizes for `n` sides: positive, adding up to
/// `n`, none larger than the one before it.
pub open spec fn is_partition(n: nat, k0: nat, k1: nat, k2: nat) -> bool {
    &&& k0 >= k1 >= k2 >= 1
    &&& k0 + k1 + k2 == n
}

/// Some split of `sides` into three groups gives a triple of sums with
/// which the oracle may answer yes.
pub open spec fn accepted<F: Fn(i64, i64, i64) -> bool>(oracle: F, sides: Seq<i32>) -> bool {
    exists|k0: nat, k1: nat, k2: nat|
        is_partition(sides.len(), k0, k1, k2) && #[trigger] groups_hit(oracle, sides, k0, k1, k2)
}

/// With every split of `sides` into three groups the oracle may answer no.
pub open spec fn refused<F: Fn(i64, i64, i64) -> bool>(oracle: F, sides: Seq<i32>) -> bool {
    forall|k0: nat, k1: nat, k2: nat| #[trigger]
        is_partition(sides.len(), k0, k1, k2) ==> groups_miss(oracle, sides, k0, k1, k2)
}

/// Searches the splits of `sides` into three groups for one whose sums the
/// oracle accepts, and stops at the first.
///
/// The group sizes start as even as the number of sides allows and move one
/// position at a time from the last group that has more than one to the
/// first group. The oracle is asked about every triple until it answers yes.
pub fn brute_force_groupings<F: Fn(i64, i64, i64) -> bool>(sides: Vec<i32>, oracle: &F) -> (found:
    bool)
    requires
        total_oracle(*oracle),
        MIN_SIDES <= sides@.len() <= MAX_SIDES,
    ensures
        found ==> accepted(*oracle, sides@),
        !found ==> refused(*oracle, sides@),
{
    let n = sides.len();
    let mut k0: usize = if n == 3 { 1 } else { 2 };
    let mut k1: usize = if n <= 4 { 1 } else { 2 };
    let mut k2: usize = if n <= 5 { 1 } else { 2 };
    loop
        invariant_except_break
            is_partition(n as nat, k0 as nat, k1 as nat, k2 as nat),
            forall|h0: nat, h1: nat, h2: nat| #[trigger]
                is_partition(n as nat, h0, h1, h2) && h0 < k0 ==> groups_miss(
                    *oracle,
                    sides@,
                    h0,
                    h1,
                    h2,
                ),
        invariant
            total_oracle(*oracle),
            n == sides@.len(),
            MIN_SIDES <= n <= MAX_SIDES,
        ensures
            refused(*oracle, sides@),
        decreases k1 + k2,
    {
        if try_groups(&sides, k0, k1, k2, oracle) {
            return true;
        }
        if k2 > 1 {
            k0 += 1;
            k2 -= 1;
        } else if k1 > 1 {
            k0 += 1;
            k1 -= 1;
        } else {
            break;
        }
    }
    false
}

/// The oracle never has both answers to one triple.
pub open spec fn consistent_oracle<F: Fn(i64, i64, i64) -> bool>(oracle: F) -> bool {
    forall|x: i64, y: i64, z: i64|
        !(call_ensures(oracle, (x, y, z), true) && call_ensures(oracle, (x, y, z), false))
}

/// With an oracle that has one answer to each triple, the verdict on a list
/// of sides is determined by the list: it cannot be both accepted and
/// refused, so two searches of it agree.
pub proof fn lemma_verdict_determined<F: Fn(i64, i64, i64) -> bool>(oracle: F, sides: Seq<i32>)
    requires
        consistent_oracle(oracle),
    ensures
        !(accepted(oracle, sides) && refused(oracle, sides)),
{
    if accepted(oracle, sides) && refused(oracle, sides) {
        let (k0, k1, k2) = choose|k0: nat, k1: nat, k2: nat|
            is_partition(sides.len(), k0, k1, k2) && #[trigger] groups_hit(
                oracle,
                sides,
                k0,
                k1,
                k2,
            );
        assert(groups_miss(oracle, sides, k0, k1, k2));
        let a = choose|a: Seq<usize>|
            is_combination(a, sides.len() as int) && a.len() == k0 && #[trigger] middle_hit(
                oracle,
                without(sides, a),
                picked_sum(sides, a) as i64,
                k1,
                k2,
            );
        assert(first_rejects(oracle, sides, k1, k2)(a));
        let rest = without(sides, a);
        let x = picked_sum(sides, a) as i64;
        let b = choose|b: Seq<usize>|
            is_combination(b, rest.len() as int) && b.len() == k1 && #[trigger] last_hit(
                oracle,
                without(rest, b),
                x,
                picked_sum(rest, b) as i64,
                k2,
            );
        assert(middle_rejects(oracle, rest, x, k2)(b));
        let last = without(rest, b);
        let y = picked_sum(rest, b) as i64;
        let c = choose|c: Seq<usize>|
            is_combination(c, last.len() as int) && c.len() == k2 && call_ensures(
                oracle,
                (x, y, picked_sum(last, c) as i64),
                true,
            );
        assert(last_rejects(oracle, last, x, y)(c));
    }
}

} // verus!

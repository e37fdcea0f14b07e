//! The side selectors: which sides of the four triangles enter the search.

use crate::counting::{lemma_step_uses_one, steps_left};
use crate::cursor::{
    holds_before, holds_of_all, initial_combination, is_combination, lemma_cover_end,
    lemma_cover_start, lemma_cover_step, next_combination,
};
use crate::grouping::{
    accepted, brute_force_groupings, consistent_oracle, lemma_verdict_determined, refused,
    total_oracle,
};
use vstd::prelude::*;

verus! {

/// The three side lengths of one triangle.
pub type Sides = [i32; 3];

/// Side `slot` of triangle `triangle`.
pub open spec fn side(case: [Sides; 4], triangle: int, slot: int) -> i32 {
    case[triangle][slot]
}

/// The twelve sides of a case, triangle by triangle.
pub open spec fn all_sides(case: [Sides; 4]) -> Seq<i32> {
    Seq::new(12, |i: int| side(case, i / 3, i % 3))
}

/// The entries of `pool` at the positions in `picks`, in that order.
pub open spec fn gathered(pool: Seq<i32>, picks: Seq<usize>) -> Seq<i32> {
    Seq::new(picks.len(), |i: int| pool[picks[i] as int])
}

/// The predicate "every grouping may be rejected" on the selections of
/// positions of `pool`.
pub open spec fn pick_rejects<F: Fn(i64, i64, i64) -> bool>(oracle: F, pool: Seq<i32>) -> spec_fn(
    Seq<usize>,
) -> bool {
    |picks: Seq<usize>| refused(oracle, gathered(pool, picks))
}

/// Some selection of `k` positions of `pool` has a grouping that may be
/// accepted.
pub open spec fn some_pick_hits<F: Fn(i64, i64, i64) -> bool>(
    oracle: F,
    pool: Seq<i32>,
    k: nat,
) -> bool {
    exists|picks: Seq<usize>|
        is_combination(picks, pool.len() as int) && picks.len() == k && #[trigger] accepted(
            oracle,
            gathered(pool, picks),
        )
}

/// Every grouping of every selection of `k` positions of `pool` may be
/// rejected.
pub open spec fn every_pick_misses<F: Fn(i64, i64, i64) -> bool>(
    oracle: F,
    pool: Seq<i32>,
    k: nat,
) -> bool {
    holds_of_all(pick_rejects(oracle, pool), k, pool.len() as int)
}

/// Lists the twelve sides of a case, triangle by triangle.
fn flatten(case: &[Sides; 4]) -> (pool: Vec<i32>)
    ensures
        pool@ == all_sides(*case),
{
    let mut pool: Vec<i32> = Vec::new();
    let mut t: usize = 0;
    while t < 4
        invariant
            t <= 4,
            pool@.len() == 3 * t,
            forall|i: int| 0 <= i < 3 * t ==> pool@[i] == side(*case, i / 3, i % 3),
        decreases 4 - t,
    {
        pool.push(case[t][0]);
        pool.push(case[t][1]);
        pool.push(case[t][2]);
        t += 1;
    }
    assert(pool@ =~= all_sides(*case));
    pool
}

/// Collects the entries of `pool` at the positions in `picks`.
fn gather(pool: &Vec<i32>, picks: &Vec<usize>) -> (sides: Vec<i32>)
    requires
        forall|i: int| 0 <= i < picks@.len() ==> (#[trigger] picks@[i]) < pool@.len(),
    ensures
        sides@ == gathered(pool@, picks@),
{
    let mut sides: Vec<i32> = Vec::new();
    let mut i: usize = 0;
    while i < picks.len()
        invariant
            i <= picks@.len(),
            sides@.len() == i,
            forall|j: int| 0 <= j < picks@.len() ==> (#[trigger] picks@[j]) < pool@.len(),
            forall|j: int| 0 <= j < i ==> sides@[j] == pool@[picks@[j] as int],
        decreases picks@.len() - i,
    {
        sides.push(pool[picks[i]]);
        i += 1;
    }
    assert(sides@ =~= gathered(pool@, picks@));
    sides
}

/// Tries every selection of `k` positions of `pool`.
fn try_picks<F: Fn(i64, i64, i64) -> bool>(pool: &Vec<i32>, k: usize, oracle: &F) -> (found: bool)
    requires
        total_oracle(*oracle),
        3 <= k <= 6,
        k <= pool@.len(),
    ensures
        found ==> some_pick_hits(*oracle, pool@, k as nat),
        !found ==> every_pick_misses(*oracle, pool@, k as nat),
{
    let bound = pool.len();
    let mut group = initial_combination(k);
    let ghost rejects = pick_rejects(*oracle, pool@);
    proof {
        lemma_cover_start(rejects, k as nat, bound as int);
    }
    loop
        invariant_except_break
            is_combination(group@, bound as int),
            holds_before(rejects, group@, bound as int),
        invariant
            total_oracle(*oracle),
            bound == pool@.len(),
            3 <= k <= 6,
            group@.len() == k,
            rejects == pick_rejects(*oracle, pool@),
        ensures
            every_pick_misses(*oracle, pool@, k as nat),
        decreases steps_left(group@, bound as int),
    {
        let sides = gather(pool, &group);
        if brute_force_groupings(sides, oracle) {
            assert(accepted(*oracle, gathered(pool@, group@)));
            return true;
        }
        let ghost tried = group@;
        assert(rejects(tried));
        if !next_combination(&mut group, bound) {
            proof {
                lemma_cover_end(rejects, tried, bound as int);
            }
            break;
        }
        proof {
            lemma_cover_step(rejects, tried, group@, bound as int);
            lemma_step_uses_one(tried, group@, bound as int);
        }
    }
    false
}

/// Searches every selection of three to six of the twelve sides, with no
/// limit on how many come from one triangle, for a grouping that the oracle
/// accepts.
pub fn brute_force_by_area_unchecked<F: Fn(i64, i64, i64) -> bool>(
    case: &[Sides; 4],
    oracle: &F,
) -> (found: bool)
    requires
        total_oracle(*oracle),
    ensures
        found ==> exists|k: nat| 3 <= k <= 6 && #[trigger] some_pick_hits(*oracle, all_sides(*case), k),
        !found ==> forall|k: nat|
            3 <= k <= 6 ==> #[trigger] every_pick_misses(*oracle, all_sides(*case), k),
{
    let pool = flatten(case);
    let mut side_count: usize = 3;
    while side_count <= 6
        invariant
            total_oracle(*oracle),
            3 <= side_count <= 7,
            pool@ == all_sides(*case),
            forall|k: nat|
                3 <= k < side_count ==> #[trigger] every_pick_misses(*oracle, all_sides(*case), k),
        decreases 7 - side_count,
    {
        if try_picks(&pool, side_count, oracle) {
            return true;
        }
        side_count += 1;
    }
    false
}

/// Every entry is a side slot of a triangle: 0, 1 or 2.
pub open spec fn are_slots(slots: Seq<usize>) -> bool {
    forall|i: int| 0 <= i < slots.len() ==> (#[trigger] slots[i]) < 3
}

/// The triangles that give their first side, with its slot.
pub open spec fn is_first_choice(ts: Seq<usize>, ss: Seq<usize>) -> bool {
    &&& 3 <= ts.len() <= 4
    &&& is_combination(ts, 4)
    &&& ss.len() == ts.len()
    &&& are_slots(ss)
}

/// The triangles that give a second side. There are some only when each of
/// the four triangles gives a first one.
pub open spec fn is_second_choice(ts: Seq<usize>, td: Seq<usize>) -> bool {
    &&& td.len() <= 2
    &&& td.len() > 0 ==> ts.len() == 4
    &&& is_combination(td, 4)
}

/// A selection within the rules: three or four triangles `ts` give the side
/// in slot `ss`; when all four do, up to two triangles `td` give a second
/// side, in a slot `sd` other than that of their first. No side is taken
/// twice and no triangle gives more than two.
pub open spec fn is_selection(
    ts: Seq<usize>,
    ss: Seq<usize>,
    td: Seq<usize>,
    sd: Seq<usize>,
) -> bool {
    &&& is_first_choice(ts, ss)
    &&& is_second_choice(ts, td)
    &&& sd.len() == td.len()
    &&& are_slots(sd)
    &&& forall|i: int| 0 <= i < td.len() ==> sd[i] != ss[td[i] as int]
}

/// The side lengths of a selection: first sides, then second sides.
pub open spec fn selected(
    case: [Sides; 4],
    ts: Seq<usize>,
    ss: Seq<usize>,
    td: Seq<usize>,
    sd: Seq<usize>,
) -> Seq<i32> {
    Seq::new(
        ts.len() + td.len(),
        |i: int|
            if i < ts.len() {
                side(case, ts[i] as int, ss[i] as int)
            } else {
                side(case, td[i - ts.len()] as int, sd[i - ts.len()] as int)
            },
    )
}

/// The selection is within the rules and has a grouping that may be
/// accepted.
pub open spec fn hit<F: Fn(i64, i64, i64) -> bool>(
    oracle: F,
    case: [Sides; 4],
    ts: Seq<usize>,
    ss: Seq<usize>,
    td: Seq<usize>,
    sd: Seq<usize>,
) -> bool {
    is_selection(ts, ss, td, sd) && accepted(oracle, selected(case, ts, ss, td, sd))
}

/// If the selection is within the rules, each of its groupings may be
/// rejected.
pub open spec fn miss<F: Fn(i64, i64, i64) -> bool>(
    oracle: F,
    case: [Sides; 4],
    ts: Seq<usize>,
    ss: Seq<usize>,
    td: Seq<usize>,
    sd: Seq<usize>,
) -> bool {
    is_selection(ts, ss, td, sd) ==> refused(oracle, selected(case, ts, ss, td, sd))
}

/// The lower (`which == 0`) or higher of the two slots other than `taken`.
pub open spec fn other_slot(taken: usize, which: int) -> usize {
    if which == 0 {
        if taken == 0 {
            1
        } else {
            0
        }
    } else {
        if taken == 2 {
            1
        } else {
            2
        }
    }
}

/// The slots of the second sides under number `code`: bit `i` of `code`
/// says whether triangle `td[i]` gives the lower or the higher of its two
/// free slots.
pub open spec fn second_slots(ss: Seq<usize>, td: Seq<usize>, code: int) -> Seq<usize> {
    Seq::new(
        td.len(),
        |i: int| other_slot(ss[td[i] as int], if i == 0 { code % 2 } else { code / 2 }),
    )
}

/// Digit `i` of `code` in base three.
pub open spec fn slot_digit(code: int, i: int) -> int {
    if i == 0 {
        code % 3
    } else if i == 1 {
        (code / 3) % 3
    } else if i == 2 {
        (code / 9) % 3
    } else {
        (code / 27) % 3
    }
}

/// The slots of the first sides under number `code`: its digits in base
/// three, lowest first.
pub open spec fn first_slots(code: int, len: nat) -> Seq<usize> {
    Seq::new(len, |i: int| slot_digit(code, i) as usize)
}

fn make_second_slots(ss: &Vec<usize>, td: &Vec<usize>, code: usize) -> (sd: Vec<usize>)
    requires
        ss@.len() == 4,
        are_slots(ss@),
        td@.len() <= 2,
        is_combination(td@, 4),
        code < 4,
    ensures
        sd@ == second_slots(ss@, td@, code as int),
{
    let mut sd: Vec<usize> = Vec::new();
    let mut i: usize = 0;
    while i < td.len()
        invariant
            i <= td@.len() <= 2,
            ss@.len() == 4,
            is_combination(td@, 4),
            sd@.len() == i,
            forall|j: int| 0 <= j < i ==> sd@[j] == second_slots(ss@, td@, code as int)[j],
        decreases td@.len() - i,
    {
        let taken: usize = ss[td[i]];
        let which: usize = if i == 0 { code % 2 } else { code / 2 };
        let slot: usize = if which == 0 {
            if taken == 0 { 1 } else { 0 }
        } else {
            if taken == 2 { 1 } else { 2 }
        };
        sd.push(slot);
        i += 1;
    }
    assert(sd@ =~= second_slots(ss@, td@, code as int));
    sd
}

fn make_first_slots(code: usize, len: usize) -> (ss: Vec<usize>)
    requires
        3 <= len <= 4,
        code < 81,
    ensures
        ss@ == first_slots(code as int, len as nat),
{
    let mut ss: Vec<usize> = Vec::new();
    ss.push(code % 3);
    ss.push((code / 3) % 3);
    ss.push((code / 9) % 3);
    if len == 4 {
        ss.push((code / 27) % 3);
    }
    assert(ss@ =~= first_slots(code as int, len as nat));
    ss
}

/// Collects the side lengths of a selection.
fn select(
    case: &[Sides; 4],
    ts: &Vec<usize>,
    ss: &Vec<usize>,
    td: &Vec<usize>,
    sd: &Vec<usize>,
) -> (sides: Vec<i32>)
    requires
        is_selection(ts@, ss@, td@, sd@),
    ensures
        sides@ == selected(*case, ts@, ss@, td@, sd@),
{
    let mut sides: Vec<i32> = Vec::new();
    let mut i: usize = 0;
    while i < ts.len()
        invariant
            i <= ts@.len(),
            is_selection(ts@, ss@, td@, sd@),
            sides@.len() == i,
            forall|j: int| 0 <= j < i ==> sides@[j] == side(*case, ts@[j] as int, ss@[j] as int),
        decreases ts@.len() - i,
    {
        sides.push(case[ts[i]][ss[i]]);
        i += 1;
    }
    let mut k: usize = 0;
    while k < td.len()
        invariant
            k <= td@.len(),
            is_selection(ts@, ss@, td@, sd@),
            sides@.len() == ts@.len() + k,
            forall|j: int|
                0 <= j < ts@.len() ==> sides@[j] == side(*case, ts@[j] as int, ss@[j] as int),
            forall|j: int|
                0 <= j < k ==> sides@[ts@.len() + j] == side(
                    *case,
                    td@[j] as int,
                    sd@[j] as int,
                ),
        decreases td@.len() - k,
    {
        sides.push(case[td[k]][sd[k]]);
        k += 1;
    }
    assert(sides@ =~= selected(*case, ts@, ss@, td@, sd@));
    sides
}

/// Tries every choice of slots for the second sides.
fn try_second_slots<F: Fn(i64, i64, i64) -> bool>(
    case: &[Sides; 4],
    ts: &Vec<usize>,
    ss: &Vec<usize>,
    td: &Vec<usize>,
    oracle: &F,
) -> (found: bool)
    requires
        total_oracle(*oracle),
        is_first_choice(ts@, ss@),
        is_second_choice(ts@, td@),
    ensures
        found ==> exists|sd: Seq<usize>| hit(*oracle, *case, ts@, ss@, td@, sd),
        !found ==> forall|sd: Seq<usize>| miss(*oracle, *case, ts@, ss@, td@, sd),
{
    let codes: usize = if td.len() == 0 { 1 } else if td.len() == 1 { 2 } else { 4 };
    let mut code: usize = 0;
    while code < codes
        invariant
            total_oracle(*oracle),
            is_first_choice(ts@, ss@),
            is_second_choice(ts@, td@),
            code <= codes <= 4,
            codes == (if td@.len() == 0 { 1int } else if td@.len() == 1 { 2int } else { 4int }),
            forall|c: int|
                0 <= c < code ==> miss(
                    *oracle,
                    *case,
                    ts@,
                    ss@,
                    td@,
                    #[trigger] second_slots(ss@, td@, c),
                ),
        decreases codes - code,
    {
        let sd = if td.len() == 0 { Vec::new() } else { make_second_slots(ss, td, code) };
        assert(sd@ =~= second_slots(ss@, td@, code as int));
        assert(is_selection(ts@, ss@, td@, sd@));
        let sides = select(case, ts, ss, td, &sd);
        if brute_force_groupings(sides, oracle) {
            assert(hit(*oracle, *case, ts@, ss@, td@, sd@));
            return true;
        }
        code += 1;
    }
    assert forall|sd: Seq<usize>| miss(*oracle, *case, ts@, ss@, td@, sd) by {
        if is_selection(ts@, ss@, td@, sd) {
            let bit0: int = if td@.len() > 0 && sd[0] != other_slot(ss@[td@[0] as int], 0) { 1 } else { 0 };
            let bit1: int = if td@.len() > 1 && sd[1] != other_slot(ss@[td@[1] as int], 0) { 1 } else { 0 };
            let c = bit0 + 2 * bit1;
            assert(second_slots(ss@, td@, c) =~= sd);
        }
    }
    false
}

/// The predicate "no choice of slots is accepted" on the triangles that
/// give a second side.
pub open spec fn second_rejects<F: Fn(i64, i64, i64) -> bool>(
    oracle: F,
    case: [Sides; 4],
    ts: Seq<usize>,
    ss: Seq<usize>,
) -> spec_fn(Seq<usize>) -> bool {
    |td: Seq<usize>| forall|sd: Seq<usize>| miss(oracle, case, ts, ss, td, sd)
}

/// Tries every choice of `extra` triangles that give a second side.
fn try_second_triangles<F: Fn(i64, i64, i64) -> bool>(
    case: &[Sides; 4],
    ts: &Vec<usize>,
    ss: &Vec<usize>,
    extra: usize,
    oracle: &F,
) -> (found: bool)
    requires
        total_oracle(*oracle),
        is_first_choice(ts@, ss@),
        extra <= 2,
        extra > 0 ==> ts@.len() == 4,
    ensures
        found ==> exists|td: Seq<usize>, sd: Seq<usize>|
            td.len() == extra && hit(*oracle, *case, ts@, ss@, td, sd),
        !found ==> forall|td: Seq<usize>, sd: Seq<usize>|
            td.len() == extra ==> miss(*oracle, *case, ts@, ss@, td, sd),
{
    let mut group = initial_combination(extra);
    let ghost rejects = second_rejects(*oracle, *case, ts@, ss@);
    proof {
        lemma_cover_start(rejects, extra as nat, 4);
    }
    loop
        invariant_except_break
            is_combination(group@, 4),
            holds_before(rejects, group@, 4),
        invariant
            total_oracle(*oracle),
            is_first_choice(ts@, ss@),
            extra <= 2,
            extra > 0 ==> ts@.len() == 4,
            group@.len() == extra,
            rejects == second_rejects(*oracle, *case, ts@, ss@),
        ensures
            holds_of_all(rejects, extra as nat, 4),
        decreases steps_left(group@, 4),
    {
        if try_second_slots(case, ts, ss, &group, oracle) {
            return true;
        }
        let ghost tried = group@;
        assert(rejects(tried));
        if !next_combination(&mut group, 4) {
            proof {
                lemma_cover_end(rejects, tried, 4);
            }
            break;
        }
        proof {
            lemma_cover_step(rejects, tried, group@, 4);
            lemma_step_uses_one(tried, group@, 4);
        }
    }
    assert forall|td: Seq<usize>, sd: Seq<usize>| td.len() == extra implies miss(
        *oracle,
        *case,
        ts@,
        ss@,
        td,
        sd,
    ) by {
        if is_selection(ts@, ss@, td, sd) {
            assert(rejects(td));
        }
    }
    false
}

/// No selection with first slots `ss` and `extra` second sides is accepted.
pub open spec fn first_slots_miss<F: Fn(i64, i64, i64) -> bool>(
    oracle: F,
    case: [Sides; 4],
    ts: Seq<usize>,
    ss: Seq<usize>,
    extra: nat,
) -> bool {
    forall|td: Seq<usize>, sd: Seq<usize>|
        td.len() == extra ==> miss(oracle, case, ts, ss, td, sd)
}

/// Tries every choice of slots for the first sides.
fn try_first_slots<F: Fn(i64, i64, i64) -> bool>(
    case: &[Sides; 4],
    ts: &Vec<usize>,
    extra: usize,
    oracle: &F,
) -> (found: bool)
    requires
        total_oracle(*oracle),
        3 <= ts@.len() <= 4,
        is_combination(ts@, 4),
        extra <= 2,
        extra > 0 ==> ts@.len() == 4,
    ensures
        found ==> exists|ss: Seq<usize>, td: Seq<usize>, sd: Seq<usize>|
            td.len() == extra && hit(*oracle, *case, ts@, ss, td, sd),
        !found ==> forall|ss: Seq<usize>, td: Seq<usize>, sd: Seq<usize>|
            td.len() == extra ==> miss(*oracle, *case, ts@, ss, td, sd),
{
    let len: usize = ts.len();
    let codes: usize = if len == 3 { 27 } else { 81 };
    let mut code: usize = 0;
    while code < codes
        invariant
            total_oracle(*oracle),
            len == ts@.len(),
            3 <= len <= 4,
            is_combination(ts@, 4),
            extra <= 2,
            extra > 0 ==> ts@.len() == 4,
            code <= codes,
            codes == (if len == 3 { 27int } else { 81int }),
            forall|c: int|
                0 <= c < code ==> first_slots_miss(
                    *oracle,
                    *case,
                    ts@,
                    #[trigger] first_slots(c, len as nat),
                    extra as nat,
                ),
        decreases codes - code,
    {
        let ss = make_first_slots(code, len);
        assert(is_first_choice(ts@, ss@));
        if try_second_triangles(case, ts, &ss, extra, oracle) {
            return true;
        }
        code += 1;
    }
    assert forall|ss: Seq<usize>, td: Seq<usize>, sd: Seq<usize>| td.len() == extra implies miss(
        *oracle,
        *case,
        ts@,
        ss,
        td,
        sd,
    ) by {
        if is_selection(ts@, ss, td, sd) {
            let top: int = if len == 4 { 27 * ss[3] } else { 0 };
            let c: int = ss[0] + 3 * ss[1] + 9 * ss[2] + top;
            assert(first_slots(c, len as nat) =~= ss);
            assert(first_slots_miss(*oracle, *case, ts@, first_slots(c, len as nat), extra as nat));
        }
    }
    false
}

/// The predicate "no choice of slots and second sides is accepted" on the
/// triangles that give a first side.
pub open spec fn first_rejects<F: Fn(i64, i64, i64) -> bool>(
    oracle: F,
    case: [Sides; 4],
    extra: nat,
) -> spec_fn(Seq<usize>) -> bool {
    |ts: Seq<usize>|
        forall|ss: Seq<usize>, td: Seq<usize>, sd: Seq<usize>|
            td.len() == extra ==> miss(oracle, case, ts, ss, td, sd)
}

/// Tries every choice of `count` triangles that give a first side.
fn try_first_triangles<F: Fn(i64, i64, i64) -> bool>(
    case: &[Sides; 4],
    count: usize,
    extra: usize,
    oracle: &F,
) -> (found: bool)
    requires
        total_oracle(*oracle),
        3 <= count <= 4,
        extra <= 2,
        extra > 0 ==> count == 4,
    ensures
        found ==> exists|ts: Seq<usize>, ss: Seq<usize>, td: Seq<usize>, sd: Seq<usize>|
            hit(*oracle, *case, ts, ss, td, sd),
        !found ==> forall|ts: Seq<usize>, ss: Seq<usize>, td: Seq<usize>, sd: Seq<usize>|
            ts.len() == count && td.len() == extra ==> miss(*oracle, *case, ts, ss, td, sd),
{
    let mut group = initial_combination(count);
    let ghost rejects = first_rejects(*oracle, *case, extra as nat);
    proof {
        lemma_cover_start(rejects, count as nat, 4);
    }
    loop
        invariant_except_break
            is_combination(group@, 4),
            holds_before(rejects, group@, 4),
        invariant
            total_oracle(*oracle),
            3 <= count <= 4,
            extra <= 2,
            extra > 0 ==> count == 4,
            group@.len() == count,
            rejects == first_rejects(*oracle, *case, extra as nat),
        ensures
            holds_of_all(rejects, count as nat, 4),
        decreases steps_left(group@, 4),
    {
        if try_first_slots(case, &group, extra, oracle) {
            return true;
        }
        let ghost tried = group@;
        assert(rejects(tried));
        if !next_combination(&mut group, 4) {
            proof {
                lemma_cover_end(rejects, tried, 4);
            }
            break;
        }
        proof {
            lemma_cover_step(rejects, tried, group@, 4);
            lemma_step_uses_one(tried, group@, 4);
        }
    }
    assert forall|ts: Seq<usize>, ss: Seq<usize>, td: Seq<usize>, sd: Seq<usize>|
        ts.len() == count && td.len() == extra implies miss(*oracle, *case, ts, ss, td, sd) by {
        if is_selection(ts, ss, td, sd) {
            assert(rejects(ts));
        }
    }
    false
}

/// Searches the selections within the rules for one with a grouping that
/// the oracle accepts: three to six sides, at most two from one triangle,
/// no side twice.
///
/// Smaller selections are tried first, and the search stops at the first
/// grouping that the oracle accepts.
pub fn brute_force_by_area<F: Fn(i64, i64, i64) -> bool>(case: &[Sides; 4], oracle: &F) -> (found:
    bool)
    requires
        total_oracle(*oracle),
    ensures
        found ==> exists|ts: Seq<usize>, ss: Seq<usize>, td: Seq<usize>, sd: Seq<usize>|
            hit(*oracle, *case, ts, ss, td, sd),
        !found ==> forall|ts: Seq<usize>, ss: Seq<usize>, td: Seq<usize>, sd: Seq<usize>|
            miss(*oracle, *case, ts, ss, td, sd),
{
    let mut side_count: usize = 3;
    while side_count <= 6
        invariant
            total_oracle(*oracle),
            3 <= side_count <= 7,
            forall|ts: Seq<usize>, ss: Seq<usize>, td: Seq<usize>, sd: Seq<usize>|
                ts.len() + td.len() < side_count ==> miss(*oracle, *case, ts, ss, td, sd),
        decreases 7 - side_count,
    {
        let count: usize = if side_count < 4 { side_count } else { 4 };
        if try_first_triangles(case, count, side_count - count, oracle) {
            return true;
        }
        side_count += 1;
    }
    false
}

/// With an oracle that has one answer to each triple, the verdict of the
/// search within the rules is determined by the case: what one search finds
/// no other search of the same case can miss.
pub proof fn lemma_search_determined<F: Fn(i64, i64, i64) -> bool>(oracle: F, case: [Sides; 4])
    requires
        consistent_oracle(oracle),
    ensures
        !((exists|ts: Seq<usize>, ss: Seq<usize>, td: Seq<usize>, sd: Seq<usize>|
            hit(oracle, case, ts, ss, td, sd)) && (forall|
            ts: Seq<usize>,
            ss: Seq<usize>,
            td: Seq<usize>,
            sd: Seq<usize>,
        |
            miss(oracle, case, ts, ss, td, sd))),
{
    if exists|ts: Seq<usize>, ss: Seq<usize>, td: Seq<usize>, sd: Seq<usize>|
        hit(oracle, case, ts, ss, td, sd) {
        let (ts, ss, td, sd) = choose|
            ts: Seq<usize>,
            ss: Seq<usize>,
            td: Seq<usize>,
            sd: Seq<usize>,
        |
            hit(oracle, case, ts, ss, td, sd);
        lemma_verdict_determined(oracle, selected(case, ts, ss, td, sd));
        if miss(oracle, case, ts, ss, td, sd) {
            assert(false);
        }
    }
}

/// The same for the search without the rules.
pub proof fn lemma_unchecked_search_determined<F: Fn(i64, i64, i64) -> bool>(
    oracle: F,
    case: [Sides; 4],
)
    requires
        consistent_oracle(oracle),
    ensures
        !((exists|k: nat| 3 <= k <= 6 && #[trigger] some_pick_hits(oracle, all_sides(case), k))
            && (forall|k: nat|
            3 <= k <= 6 ==> #[trigger] every_pick_misses(oracle, all_sides(case), k))),
{
    if exists|k: nat| 3 <= k <= 6 && #[trigger] some_pick_hits(oracle, all_sides(case), k) {
        let k = choose|k: nat| 3 <= k <= 6 && #[trigger] some_pick_hits(oracle, all_sides(case), k);
        let pool = all_sides(case);
        let picks = choose|picks: Seq<usize>|
            is_combination(picks, pool.len() as int) && picks.len() == k && #[trigger] accepted(
                oracle,
                gathered(pool, picks),
            );
        lemma_verdict_determined(oracle, gathered(pool, picks));
        if every_pick_misses(oracle, pool, k) {
            assert(pick_rejects(oracle, pool)(picks));
            assert(false);
        }
    }
}

/// The positions among the twelve sides that a selection names: three for
/// each triangle before it, plus the slot.
pub open spec fn named_positions(
    ts: Seq<usize>,
    ss: Seq<usize>,
    td: Seq<usize>,
    sd: Seq<usize>,
) -> Seq<usize> {
    Seq::new(
        ts.len() + td.len(),
        |i: int|
            if i < ts.len() {
                (3 * ts[i] + ss[i]) as usize
            } else {
                (3 * td[i - ts.len()] + sd[i - ts.len()]) as usize
            },
    )
}

/// A selection within the rules without second sides is one of the
/// selections of the search without the rules: what the first search
/// accepts among three or four sides, the second has before it too.
pub proof fn lemma_first_sides_are_a_pick<F: Fn(i64, i64, i64) -> bool>(
    oracle: F,
    case: [Sides; 4],
    ts: Seq<usize>,
    ss: Seq<usize>,
)
    requires
        hit(oracle, case, ts, ss, Seq::<usize>::empty(), Seq::<usize>::empty()),
    ensures
        some_pick_hits(oracle, all_sides(case), ts.len()),
{
    let none = Seq::<usize>::empty();
    let picks = named_positions(ts, ss, none, none);
    assert(is_combination(picks, 12));
    assert(gathered(all_sides(case), picks) =~= selected(case, ts, ss, none, none));
}

} // verus!

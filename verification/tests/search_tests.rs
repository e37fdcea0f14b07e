use std::cell::{Cell, RefCell};
use triangle_regroup::grouping::{brute_force_groupings, remove_all};
use triangle_regroup::selector::{brute_force_by_area, brute_force_by_area_unchecked, Sides};

const TOLERANCE: f64 = 1e-10;

fn area(a: i64, b: i64, c: i64) -> f64 {
    if a + b <= c || a + c <= b || b + c <= a {
        return 0.0;
    }
    let a = a as f64;
    let b = b as f64;
    let c = c as f64;
    0.25 * f64::sqrt((a + b + c) * (a + b - c) * (a - b + c) * (-a + b + c))
}

fn target_area(case: &[Sides; 4]) -> f64 {
    case.iter().map(|t| area(t[0] as i64, t[1] as i64, t[2] as i64)).sum::<f64>()
}

fn find_match(sides: &[i32], target: f64) -> bool {
    let oracle = |a: i64, b: i64, c: i64| (area(a, b, c) - target).abs() < TOLERANCE;
    brute_force_groupings(sides.to_vec(), &oracle)
}

fn solve(case: &[Sides; 4]) -> bool {
    let target = target_area(case);
    let oracle = |a: i64, b: i64, c: i64| (area(a, b, c) - target).abs() < TOLERANCE;
    brute_force_by_area(case, &oracle)
}

fn solve_unchecked(case: &[Sides; 4]) -> bool {
    let target = target_area(case);
    let oracle = |a: i64, b: i64, c: i64| (area(a, b, c) - target).abs() < TOLERANCE;
    brute_force_by_area_unchecked(case, &oracle)
}

fn triples_of(sides: &[i32]) -> Vec<(i64, i64, i64)> {
    let asked: RefCell<Vec<(i64, i64, i64)>> = RefCell::new(Vec::new());
    let oracle = |a: i64, b: i64, c: i64| {
        asked.borrow_mut().push((a, b, c));
        false
    };
    assert!(!brute_force_groupings(sides.to_vec(), &oracle));
    asked.into_inner()
}

#[test]
fn area_of_right_triangle() {
    assert_eq!(area(3, 4, 5), 6.0);
    assert_eq!(area(6, 8, 10), 24.0);
}

#[test]
fn area_of_impossible_triangle_is_zero() {
    assert_eq!(area(1, 1, 3), 0.0);
    assert_eq!(area(1, 2, 3), 0.0);
    assert_eq!(area(0, 0, 0), 0.0);
}

#[test]
fn area_is_symmetric() {
    for &(a, b, c) in [(3i64, 4i64, 5i64), (5, 5, 6), (13, 14, 15), (1, 1, 3), (7, 15, 20)].iter() {
        let base = area(a, b, c);
        assert_eq!(area(a, c, b), base);
        assert_eq!(area(b, a, c), base);
        assert_eq!(area(b, c, a), base);
        assert_eq!(area(c, a, b), base);
        assert_eq!(area(c, b, a), base);
    }
}

#[test]
fn three_sides_give_every_order() {
    assert_eq!(
        triples_of(&[1, 2, 4]),
        vec![(1, 2, 4), (1, 4, 2), (2, 1, 4), (2, 4, 1), (4, 1, 2), (4, 2, 1)]
    );
}

#[test]
fn four_sides_pair_two_and_order_the_rest() {
    assert_eq!(
        triples_of(&[1, 2, 4, 8]),
        vec![
            (3, 4, 8),
            (3, 8, 4),
            (5, 2, 8),
            (5, 8, 2),
            (9, 2, 4),
            (9, 4, 2),
            (6, 1, 8),
            (6, 8, 1),
            (10, 1, 4),
            (10, 4, 1),
            (12, 1, 2),
            (12, 2, 1),
        ]
    );
}

#[test]
fn number_of_triples_by_side_count() {
    assert_eq!(triples_of(&[1, 2, 4]).len(), 6);
    assert_eq!(triples_of(&[1, 2, 4, 8]).len(), 12);
    assert_eq!(triples_of(&[1, 2, 4, 8, 16]).len(), 50);
    assert_eq!(triples_of(&[1, 2, 4, 8, 16, 32]).len(), 180);
}

#[test]
fn six_sides_start_with_even_groups() {
    let asked = triples_of(&[1, 2, 4, 8, 16, 32]);
    assert_eq!(asked[0], (3, 12, 48));
    assert_eq!(asked[1], (3, 20, 40));
    assert_eq!(asked[asked.len() - 1], (60, 2, 1));
    assert!(asked.iter().all(|&(a, b, c)| a + b + c == 63));
}

#[test]
fn five_sides_move_from_two_two_one_to_three_one_one() {
    let asked = triples_of(&[1, 2, 4, 8, 16]);
    assert_eq!(asked[0], (3, 12, 16));
    assert_eq!(asked[30], (7, 8, 16));
    assert_eq!(asked[49], (28, 2, 1));
}

#[test]
fn sums_of_extreme_sides_do_not_wrap() {
    let asked = triples_of(&[i32::MAX, i32::MAX, i32::MAX, i32::MAX, i32::MIN, i32::MIN]);
    assert!(asked.contains(&(4 * (i32::MAX as i64), i32::MIN as i64, i32::MIN as i64)));
    assert!(asked.contains(&(2 * (i32::MIN as i64), 2 * (i32::MAX as i64), 2 * (i32::MAX as i64))));
}

#[test]
fn grouping_stops_at_first_match() {
    let calls = Cell::new(0u32);
    let oracle = |a: i64, b: i64, c: i64| {
        calls.set(calls.get() + 1);
        (a, b, c) == (5, 2, 8)
    };
    assert!(brute_force_groupings(vec![1, 2, 4, 8], &oracle));
    assert_eq!(calls.get(), 3);
}

#[test]
fn two_right_triangles_merge_into_a_scaled_one() {
    assert!(find_match(&[3, 4, 5, 3, 4, 5], 4.0 * area(3, 4, 5)));
    assert!(find_match(&[6, 8, 10, 6, 8, 10], area(12, 16, 20)));
    assert_eq!(area(12, 16, 20), 96.0);
}

#[test]
fn no_split_of_two_six_eight_tens_has_their_joint_area() {
    assert!(!find_match(&[6, 8, 10, 6, 8, 10], 2.0 * area(6, 8, 10)));
    assert!(!find_match(&[3, 4, 5, 3, 4, 5], 12.0));
}

#[test]
fn three_sides_match_only_as_they_are() {
    assert!(find_match(&[3, 4, 5], 6.0));
    assert!(find_match(&[5, 3, 4], 6.0));
    assert!(!find_match(&[3, 4, 5], 24.0));
}

#[test]
fn four_three_four_fives() {
    let case: [Sides; 4] = [[3, 4, 5], [3, 4, 5], [3, 4, 5], [3, 4, 5]];
    assert_eq!(target_area(&case), 24.0);
    assert!(solve(&case));
    assert!(solve_unchecked(&case));
}

#[test]
fn case_without_regrouping() {
    let case: [Sides; 4] = [[5, 5, 6], [5, 5, 8], [13, 14, 15], [9, 10, 17]];
    assert_eq!(target_area(&case), 144.0);
    assert!(!solve(&case));
    assert!(!solve_unchecked(&case));
}

#[test]
fn three_sides_of_one_triangle_are_against_the_rules() {
    let case: [Sides; 4] = [[7, 15, 20], [1, 1, 50], [1, 1, 50], [1, 1, 50]];
    assert_eq!(target_area(&case), 42.0);
    assert!(!solve(&case));
    assert!(solve_unchecked(&case));
}

#[test]
fn all_degenerate_triangles_match_trivially() {
    let case: [Sides; 4] = [[1, 1, 3], [1, 2, 9], [2, 2, 7], [1, 1, 5]];
    assert_eq!(target_area(&case), 0.0);
    assert!(solve(&case));
    assert!(solve_unchecked(&case));
}

#[test]
fn more_cases_with_a_regrouping() {
    let ones: [Sides; 4] = [[1, 1, 1], [1, 1, 1], [1, 1, 1], [1, 1, 1]];
    assert!(solve(&ones));
    let mixed: [Sides; 4] = [[3, 4, 5], [5, 12, 13], [8, 15, 17], [7, 24, 25]];
    assert_eq!(target_area(&mixed), 180.0);
    assert!(solve(&mixed));
    let twos: [Sides; 4] = [[2, 2, 2], [2, 2, 2], [2, 2, 2], [2, 2, 2]];
    assert!(solve(&twos));
}

#[test]
fn match_at_three_sides_is_found_first() {
    let case: [Sides; 4] = [[3, 1, 7], [4, 1, 9], [5, 3, 4], [1, 1, 3]];
    assert_eq!(target_area(&case), 6.0);
    let target = 6.0;
    let calls = Cell::new(0u32);
    let oracle = |a: i64, b: i64, c: i64| {
        calls.set(calls.get() + 1);
        (area(a, b, c) - target).abs() < TOLERANCE
    };
    assert!(brute_force_by_area(&case, &oracle));
    assert_eq!(calls.get(), 1);
}

#[test]
fn first_selection_takes_slot_zero_of_the_first_three_triangles() {
    let case: [Sides; 4] = [[1, 2, 4], [8, 16, 32], [64, 128, 256], [512, 1024, 2048]];
    let first: RefCell<Option<(i64, i64, i64)>> = RefCell::new(None);
    let oracle = |a: i64, b: i64, c: i64| {
        first.borrow_mut().get_or_insert((a, b, c));
        true
    };
    assert!(brute_force_by_area(&case, &oracle));
    assert_eq!(first.into_inner(), Some((1, 8, 64)));
}

#[test]
fn selections_keep_to_the_rules() {
    let case: [Sides; 4] = [[1, 2, 4], [8, 16, 32], [64, 128, 256], [512, 1024, 2048]];
    let totals: RefCell<Vec<i64>> = RefCell::new(Vec::new());
    let oracle = |a: i64, b: i64, c: i64| {
        totals.borrow_mut().push(a + b + c);
        false
    };
    assert!(!brute_force_by_area(&case, &oracle));
    let totals = totals.into_inner();
    let mut distinct = totals.clone();
    distinct.sort();
    distinct.dedup();
    // selections tried: 4 * 27 of three sides, 81 of four, 81 * 4 * 2 of five, 81 * 6 * 4 of six
    assert_eq!(totals.len(), 108 * 6 + 81 * 12 + 648 * 50 + 1944 * 180);
    // sets of sides within the rules: a second side of a triangle may be named in either order
    assert_eq!(distinct.len(), 108 + 81 + 324 + 486);
    for total in distinct {
        let per_triangle: Vec<u32> =
            (0..4).map(|t| ((total >> (3 * t)) & 7).count_ones()).collect();
        let count: u32 = per_triangle.iter().sum();
        assert!((3..=6).contains(&count));
        assert!(per_triangle.iter().all(|&n| n <= 2));
        if count > 4 {
            assert!(per_triangle.iter().all(|&n| n >= 1));
        }
    }
}

#[test]
fn unchecked_selections_are_all_subsets_of_three_to_six() {
    let case: [Sides; 4] = [[1, 2, 4], [8, 16, 32], [64, 128, 256], [512, 1024, 2048]];
    let totals: RefCell<Vec<i64>> = RefCell::new(Vec::new());
    let oracle = |a: i64, b: i64, c: i64| {
        totals.borrow_mut().push(a + b + c);
        false
    };
    assert!(!brute_force_by_area_unchecked(&case, &oracle));
    let mut distinct = totals.into_inner();
    distinct.sort();
    distinct.dedup();
    assert_eq!(distinct.len(), 220 + 495 + 792 + 924);
    assert!(distinct.iter().all(|total| (3..=6).contains(&total.count_ones())));
}

#[test]
fn relaxing_the_rules_never_loses_a_match() {
    let cases: [[Sides; 4]; 6] = [
        [[3, 4, 5], [3, 4, 5], [3, 4, 5], [3, 4, 5]],
        [[5, 5, 6], [5, 5, 8], [13, 14, 15], [9, 10, 17]],
        [[7, 15, 20], [1, 1, 50], [1, 1, 50], [1, 1, 50]],
        [[3, 4, 5], [5, 12, 13], [8, 15, 17], [7, 24, 25]],
        [[3, 1, 7], [4, 1, 9], [5, 3, 4], [1, 1, 3]],
        [[3, 4, 5], [1, 1, 9], [1, 1, 9], [1, 1, 9]],
    ];
    for case in cases.iter() {
        if solve(case) {
            assert!(solve_unchecked(case));
        }
    }
}

#[test]
fn same_case_same_verdict() {
    let yes: [Sides; 4] = [[3, 4, 5], [3, 4, 5], [3, 4, 5], [3, 4, 5]];
    let no: [Sides; 4] = [[5, 5, 6], [5, 5, 8], [13, 14, 15], [9, 10, 17]];
    for _ in 0..3 {
        assert!(solve(&yes));
        assert!(!solve(&no));
    }
    assert!(solve(&yes));
}

#[test]
fn positions_are_taken_out_whatever_their_order() {
    let pool = vec![10, 20, 30, 40];
    assert_eq!(remove_all(&pool, &vec![2, 0]), vec![20, 40]);
    assert_eq!(remove_all(&pool, &vec![0, 2]), vec![20, 40]);
    assert_eq!(remove_all(&pool, &vec![3, 1, 2]), vec![10]);
    assert_eq!(remove_all(&pool, &vec![1]), vec![10, 30, 40]);
    assert_eq!(remove_all(&pool, &Vec::new()), pool);
    assert_eq!(remove_all(&pool, &vec![3, 2, 1, 0]), Vec::<i32>::new());
}

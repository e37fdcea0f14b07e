use triangle_regroup::cursor::{initial_combination, next_combination};

fn run(bound: usize, k: usize) -> Vec<Vec<usize>> {
    let mut set = initial_combination(k);
    let mut seen = vec![set.clone()];
    while next_combination(&mut set, bound) {
        seen.push(set.clone());
    }
    seen
}

fn binomial(n: usize, k: usize) -> usize {
    let mut value: usize = 1;
    for i in 0..k {
        value = value * (n - i) / (i + 1);
    }
    value
}

#[test]
fn initial_combination_counts_up_from_zero() {
    assert_eq!(initial_combination(0), Vec::<usize>::new());
    assert_eq!(initial_combination(1), vec![0]);
    assert_eq!(initial_combination(4), vec![0, 1, 2, 3]);
}

#[test]
fn pairs_of_four_in_order() {
    let expected: Vec<Vec<usize>> = vec![
        vec![0, 1],
        vec![0, 2],
        vec![0, 3],
        vec![1, 2],
        vec![1, 3],
        vec![2, 3],
    ];
    assert_eq!(run(4, 2), expected);
}

#[test]
fn empty_set_is_exhausted_at_once() {
    let mut set: Vec<usize> = Vec::new();
    assert!(!next_combination(&mut set, 4));
    assert!(!next_combination(&mut set, 0));
}

#[test]
fn single_entry_counts_to_the_bound() {
    assert_eq!(run(3, 1), vec![vec![0], vec![1], vec![2]]);
    let mut set = vec![2];
    assert!(!next_combination(&mut set, 3));
}

#[test]
fn full_width_combination_is_the_only_one() {
    assert_eq!(run(4, 4), vec![vec![0, 1, 2, 3]]);
    assert_eq!(run(1, 1), vec![vec![0]]);
}

#[test]
fn carry_resets_the_entries_behind_the_pivot() {
    let mut set = vec![0, 3];
    assert!(next_combination(&mut set, 4));
    assert_eq!(set, vec![1, 2]);

    let mut set = vec![0, 4, 5];
    assert!(next_combination(&mut set, 6));
    assert_eq!(set, vec![1, 2, 3]);

    let mut set = vec![1, 2, 5];
    assert!(next_combination(&mut set, 6));
    assert_eq!(set, vec![1, 3, 4]);

    let mut set = vec![0, 1, 2];
    assert!(next_combination(&mut set, 6));
    assert_eq!(set, vec![0, 1, 3]);
}

#[test]
fn last_combination_reports_exhaustion() {
    let mut set = vec![2, 3];
    assert!(!next_combination(&mut set, 4));
    assert_eq!(set.len(), 2);
    let mut set = vec![3, 4, 5];
    assert!(!next_combination(&mut set, 6));
    assert_eq!(set.len(), 3);
}

#[test]
fn visits_every_combination_once_in_order() {
    for bound in 0..=12usize {
        for k in 1..=bound.min(6) {
            let seen = run(bound, k);
            assert_eq!(seen.len(), binomial(bound, k));
            for set in seen.iter() {
                assert_eq!(set.len(), k);
                assert!(set.iter().all(|&entry| entry < bound));
                assert!(set.windows(2).all(|pair| pair[0] < pair[1]));
            }
            assert!(seen.windows(2).all(|pair| pair[0] < pair[1]));
        }
    }
}

#[test]
fn twelve_choose_six_and_three() {
    assert_eq!(run(12, 3).len(), 220);
    assert_eq!(run(12, 6).len(), 924);
}

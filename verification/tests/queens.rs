//! The n queens puzzle, driven through the backtracking engine.

use backtracking::Solutions;
use backtracking::n_queens::NQueens;

/// Every solution for a board of side length `n`, in emission order.
fn all_solutions(n: u32) -> Vec<Vec<u32>> {
    let mut solutions = Solutions::new(NQueens::new(n));
    let mut found = Vec::new();
    while let Some(solution) = solutions.next() {
        found.push(solution.columns().clone());
    }
    found
}

#[test]
fn one_queen_fits_a_single_field() {
    assert_eq!(vec![vec![0u32]], all_solutions(1));
}

#[test]
fn two_and_three_queens_have_no_solution() {
    assert_eq!(0, all_solutions(2).len());
    assert_eq!(0, all_solutions(3).len());
}

#[test]
fn four_queens_have_exactly_two_solutions() {
    // The stack explores the last enumerated column first, so the
    // placement starting in column 2 comes out first.
    assert_eq!(
        vec![vec![2u32, 0, 3, 1], vec![1u32, 3, 0, 2]],
        all_solutions(4)
    );
}

#[test]
fn six_queens_have_exactly_four_solutions() {
    let found = all_solutions(6);
    assert_eq!(4, found.len());
    assert_eq!(vec![4u32, 2, 0, 5, 3, 1], found[0]);
}

#[test]
fn the_sequence_terminates_and_stays_exhausted() {
    let mut solutions = Solutions::new(NQueens::new(5));
    let mut count = 0;
    while solutions.next().is_some() {
        count += 1;
    }
    assert_eq!(10, count);
    assert!(solutions.next().is_none());
}

#[test]
fn reruns_yield_the_same_solutions_in_the_same_order() {
    assert_eq!(all_solutions(4), all_solutions(4));
    assert_eq!(all_solutions(6), all_solutions(6));
}

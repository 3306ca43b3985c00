use football_game_theory::exact::rational::Rational;
use football_game_theory::solver::simplex::{Simplex, SimplexError};

fn q(n: i64, d: u64) -> Rational {
    Rational::from_ratio(n, d).unwrap()
}

fn ints(values: &[i64]) -> Vec<Rational> {
    values.iter().map(|&v| Rational::from_int(v)).collect()
}

fn table(values: &[&[i64]]) -> Vec<Vec<Rational>> {
    values.iter().map(|r| ints(r)).collect()
}

fn same_table(t: &Vec<Vec<Rational>>, want: &[&[i64]]) -> bool {
    t.len() == want.len()
        && t.iter().zip(want).all(|(row, w)| {
            row.len() == w.len() && row.iter().zip(*w).all(|(x, y)| x.same(&Rational::from_int(*y)))
        })
}

fn production() -> Simplex {
    Simplex::new(&ints(&[3, 2]), &table(&[&[1, 1], &[1, 0], &[0, 1]]), &ints(&[4, 2, 3])).unwrap()
}

#[test]
fn initial_tableau_has_slack_identity_and_negated_objective() {
    let solver = production();
    assert!(same_table(
        solver.tableau(),
        &[
            &[1, 1, 1, 0, 0, 4],
            &[1, 0, 0, 1, 0, 2],
            &[0, 1, 0, 0, 1, 3],
            &[-3, -2, 0, 0, 0, 0],
        ]
    ));
}

#[test]
fn mismatched_right_hand_side_is_rejected() {
    let r = Simplex::new(&ints(&[1, 1]), &table(&[&[1, 1]]), &ints(&[1, 2]));
    assert_eq!(r.err(), Some(SimplexError::InvalidDimensions));
}

#[test]
fn ragged_constraint_row_is_rejected() {
    let r = Simplex::new(&ints(&[1, 1]), &table(&[&[1, 1], &[1]]), &ints(&[1, 2]));
    assert_eq!(r.err(), Some(SimplexError::InvalidDimensions));
}

#[test]
fn program_without_constraints_or_variables_is_accepted() {
    let mut empty = Simplex::new(&[], &[], &[]).unwrap();
    let (optimal, solution) = empty.solve().unwrap();
    assert!(optimal.is_zero());
    assert!(solution.is_empty());
}

#[test]
fn entering_column_is_the_leftmost_most_negative() {
    let solver = production();
    assert_eq!(solver.find_pivot_column(), Some(0));
    let tie =
        Simplex::new(&ints(&[2, 5, 5]), &table(&[&[1, 1, 1]]), &ints(&[4])).unwrap();
    assert_eq!(tie.find_pivot_column(), Some(1));
    let done = Simplex::new(&ints(&[-1, 0]), &table(&[&[1, 1]]), &ints(&[4])).unwrap();
    assert_eq!(done.find_pivot_column(), None);
}

#[test]
fn leaving_row_is_the_first_of_least_ratio() {
    let solver = production();
    // Ratios in column 0: 4/1, 2/1, and no ratio for the zero entry.
    assert_eq!(solver.find_pivot_row(0).ok(), Some(1));
    let tie = Simplex::new(&ints(&[1]), &table(&[&[2], &[1], &[1]]), &ints(&[4, 2, 2])).unwrap();
    assert_eq!(tie.find_pivot_row(0).ok(), Some(0));
}

#[test]
fn entries_within_the_tolerance_do_not_leave() {
    let tiny = q(1, 10_000_000_000);
    let a = vec![vec![tiny], vec![Rational::from_int(-1)]];
    let solver = Simplex::new(&ints(&[1]), &a, &ints(&[1, 1])).unwrap();
    assert_eq!(solver.find_pivot_row(0).err(), Some(SimplexError::Unbounded));
    let above = q(2, 10_000_000_000);
    let a = vec![vec![above], vec![Rational::from_int(-1)]];
    let solver = Simplex::new(&ints(&[1]), &a, &ints(&[1, 1])).unwrap();
    assert_eq!(solver.find_pivot_row(0).ok(), Some(0));
}

#[test]
fn pivot_scales_its_row_and_clears_its_column() {
    let mut solver =
        Simplex::new(&ints(&[3, 2]), &table(&[&[2, 1], &[1, 3]]), &ints(&[4, 6])).unwrap();
    solver.pivot(0, 0);
    let t = solver.tableau();
    let want: Vec<Vec<Rational>> = vec![
        vec![q(1, 1), q(1, 2), q(1, 2), q(0, 1), q(2, 1)],
        vec![q(0, 1), q(5, 2), q(-1, 2), q(1, 1), q(4, 1)],
        vec![q(0, 1), q(-1, 2), q(3, 2), q(0, 1), q(6, 1)],
    ];
    for i in 0..3 {
        for j in 0..5 {
            assert!(t[i][j].same(&want[i][j]), "entry {} {}", i, j);
        }
    }
}

#[test]
fn solution_is_read_off_unit_columns() {
    let mut solver = production();
    solver.pivot(1, 0);
    let (value, solution) = solver.extract_solution();
    assert!(value.same(&Rational::from_int(6)));
    assert!(solution[0].same(&Rational::from_int(2)));
    assert!(solution[1].is_zero());
}

#[test]
fn unbounded_program_is_reported() {
    let mut solver = Simplex::new(&ints(&[1]), &table(&[&[-1]]), &ints(&[1])).unwrap();
    assert_eq!(solver.solve().err(), Some(SimplexError::Unbounded));
}

#[test]
fn iteration_cap_counts_the_optimality_check() {
    for cap in 0..3 {
        let mut solver = production().max_iterations(cap);
        assert_eq!(solver.solve().err(), Some(SimplexError::MaxIterations));
    }
    let mut solver = production().max_iterations(3);
    let (optimal, solution) = solver.solve().unwrap();
    assert!(optimal.same(&Rational::from_int(10)));
    assert!(solution[0].same(&Rational::from_int(2)));
    assert!(solution[1].same(&Rational::from_int(2)));
}

#[test]
fn solve_leaves_the_optimal_tableau() {
    let mut solver = production();
    solver.solve().unwrap();
    assert_eq!(solver.find_pivot_column(), None);
    let t = solver.tableau();
    assert!(t[3][5].same(&Rational::from_int(10)));
}

#[test]
fn fractional_optimum_is_exact() {
    let mut solver =
        Simplex::new(&ints(&[5, 4]), &table(&[&[1, 1], &[10, 6]]), &ints(&[5, 45])).unwrap();
    let (optimal, solution) = solver.solve().unwrap();
    assert!(optimal.same(&q(95, 4)));
    assert!(solution[0].same(&q(15, 4)));
    assert!(solution[1].same(&q(5, 4)));
}

#[test]
fn clone_solves_apart_from_its_source() {
    let source = production();
    let mut copy = source.clone();
    copy.solve().unwrap();
    assert_eq!(source.find_pivot_column(), Some(0));
    assert_eq!(copy.find_pivot_column(), None);
}

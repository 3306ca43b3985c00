use football_game_theory::exact::rational::Rational;
use football_game_theory::exact::vector::sum;
use football_game_theory::solver::elimination::gaussian_elimination;
use football_game_theory::solver::game::{GameError, GameSolver};
use football_game_theory::solver::nash::NashEquilibrium;
use football_game_theory::solver::simplex::SimplexError;

fn q(n: i64, d: u64) -> Rational {
    Rational::from_ratio(n, d).unwrap()
}

fn ints(values: &[i64]) -> Vec<Rational> {
    values.iter().map(|&v| Rational::from_int(v)).collect()
}

fn game(values: &[&[i64]]) -> Vec<Vec<Rational>> {
    values.iter().map(|r| ints(r)).collect()
}

fn same_vector(v: &[Rational], want: &[Rational]) -> bool {
    v.len() == want.len() && v.iter().zip(want).all(|(x, y)| x.same(y))
}

#[test]
fn matrix_without_rows_is_empty() {
    assert_eq!(GameSolver::new(vec![]).err(), Some(GameError::EmptyMatrix));
    assert_eq!(NashEquilibrium::find(vec![]).err(), Some(GameError::EmptyMatrix));
}

#[test]
fn matrix_without_columns_is_empty() {
    assert_eq!(GameSolver::new(vec![vec![], vec![]]).err(), Some(GameError::EmptyMatrix));
    assert_eq!(
        GameSolver::new(vec![vec![], ints(&[1])]).err(),
        Some(GameError::EmptyMatrix)
    );
}

#[test]
fn rows_of_unequal_length_are_inconsistent() {
    assert_eq!(
        GameSolver::new(game(&[&[1, 2], &[3]])).err(),
        Some(GameError::InconsistentRows)
    );
    assert_eq!(
        NashEquilibrium::find(game(&[&[1], &[3, 4]])).err(),
        Some(GameError::InconsistentRows)
    );
}

#[test]
fn solver_keeps_its_matrix() {
    let solver = GameSolver::new(game(&[&[1, -1], &[-1, 1]])).unwrap();
    let m = solver.payoff_matrix();
    assert_eq!(m.len(), 2);
    assert!(m[0][1].same(&Rational::from_int(-1)));
}

#[test]
fn shift_lifts_the_least_entry_to_one() {
    let negative = GameSolver::new(game(&[&[1, -3], &[0, 2]])).unwrap();
    assert!(negative.calculate_shift().same(&Rational::from_int(4)));
    let zero = GameSolver::new(game(&[&[0, 2]])).unwrap();
    assert!(zero.calculate_shift().same(&Rational::one()));
    let small = GameSolver::new(vec![vec![q(1, 4), q(3, 1)]]).unwrap();
    assert!(small.calculate_shift().same(&q(3, 4)));
    let large = GameSolver::new(game(&[&[2, 5]])).unwrap();
    assert!(large.calculate_shift().is_zero());
    let one = GameSolver::new(game(&[&[1, 5]])).unwrap();
    assert!(one.calculate_shift().is_zero());
}

#[test]
fn shifted_matrix_adds_the_shift_everywhere() {
    let solver = GameSolver::new(game(&[&[1, -3], &[0, 2]])).unwrap();
    let shifted = solver.shift_matrix(&Rational::from_int(4));
    assert!(same_vector(&shifted[0], &ints(&[5, 1])));
    assert!(same_vector(&shifted[1], &ints(&[4, 6])));
}

#[test]
fn expected_payoff_is_the_double_sum() {
    let solver = GameSolver::new(game(&[&[3, -1, 2], &[-2, 4, 1]])).unwrap();
    let p = vec![q(1, 4), q(3, 4)];
    let r = vec![q(1, 2), q(1, 3), q(1, 6)];
    // 1/4 * (3/2 - 1/3 + 1/3) + 3/4 * (-1 + 4/3 + 1/6) = 3/8 + 3/8
    assert!(solver.expected_payoff(&p, &r).same(&q(3, 4)));
    assert!(NashEquilibrium::expected_payoff(solver.payoff_matrix(), &p, &r).same(&q(3, 4)));
}

#[test]
fn expected_payoff_is_linear_in_each_strategy() {
    let solver = GameSolver::new(game(&[&[3, -1, 2], &[-2, 4, 1]])).unwrap();
    let first = vec![q(1, 4), q(3, 4)];
    let second = vec![q(2, 3), q(1, 3)];
    let c = vec![q(1, 2), q(1, 3), q(1, 6)];
    let (s, t) = (q(2, 5), q(3, 5));
    let mixed: Vec<Rational> =
        first.iter().zip(&second).map(|(x, y)| s.mul(x).add(&t.mul(y))).collect();
    let left = solver.expected_payoff(&mixed, &c);
    let right =
        s.mul(&solver.expected_payoff(&first, &c)).add(&t.mul(&solver.expected_payoff(&second, &c)));
    assert!(left.same(&right));
}

#[test]
fn game_value_is_the_least_column_payoff() {
    let solver = GameSolver::new(game(&[&[3, -1, 2], &[-2, 4, 1]])).unwrap();
    let p = vec![q(1, 2), q(1, 2)];
    // Columns pay 1/2, 3/2 and 3/2.
    assert!(solver.calculate_game_value(&p).same(&q(1, 2)));
}

#[test]
fn matching_pennies_is_solved_exactly() {
    let solution = GameSolver::new(game(&[&[1, -1], &[-1, 1]])).unwrap().solve().unwrap();
    assert!(same_vector(&solution.row_strategy, &[q(1, 2), q(1, 2)]));
    assert!(same_vector(&solution.col_strategy, &[q(1, 2), q(1, 2)]));
    assert!(solution.game_value.is_zero());
}

#[test]
fn asymmetric_game_is_solved_exactly() {
    let solution =
        GameSolver::new(game(&[&[3, -1, 2], &[-2, 4, 1]])).unwrap().solve().unwrap();
    assert!(same_vector(&solution.row_strategy, &[q(3, 5), q(2, 5)]));
    assert!(same_vector(&solution.col_strategy, &[q(1, 2), q(1, 2), q(0, 1)]));
    assert!(solution.game_value.same(&Rational::one()));
}

#[test]
fn strategies_sum_to_one_without_negative_entries() {
    let games: Vec<Vec<Vec<Rational>>> = vec![
        game(&[&[1, -1], &[-1, 1]]),
        game(&[&[3, -1, 2], &[-2, 4, 1]]),
        game(&[&[4, 1], &[2, 3]]),
        game(&[&[5]]),
        game(&[&[2, 0, 3], &[-2, -3, 0], &[-3, 3, 0]]),
    ];
    for matrix in games {
        let solution = GameSolver::new(matrix).unwrap().solve().unwrap();
        assert!(sum(&solution.row_strategy).same(&Rational::one()));
        assert!(sum(&solution.col_strategy).same(&Rational::one()));
        assert!(solution.row_strategy.iter().all(|p| !p.is_negative()));
        assert!(solution.col_strategy.iter().all(|p| !p.is_negative()));
    }
}

#[test]
fn one_active_column_gets_the_first_best_response() {
    // Column 0 alone is played, and both rows pay 3 against it.
    let solution = GameSolver::new(game(&[&[3, 1], &[3, 3]])).unwrap().solve().unwrap();
    assert!(same_vector(&solution.row_strategy, &ints(&[1, 0])));
    assert!(same_vector(&solution.col_strategy, &ints(&[1, 0])));
    assert!(solution.game_value.same(&Rational::one()));
}

#[test]
fn solution_without_active_column_is_infeasible() {
    let solver = GameSolver::new(game(&[&[2, -3], &[3, -2], &[-3, 1]])).unwrap();
    assert_eq!(
        solver.solve().err(),
        Some(GameError::SolverError(SimplexError::Infeasible))
    );
}

#[test]
fn active_columns_exceed_the_threshold() {
    let z = vec![q(1, 1_000_000_000), q(2, 1_000_000_000), q(0, 1), q(1, 2)];
    assert_eq!(GameSolver::active_columns_of(&z), vec![1, 3]);
}

#[test]
fn column_solution_is_scaled_to_sum_to_one() {
    let q_strategy = GameSolver::normalize_solution(&[q(1, 5), q(3, 5), q(0, 1)]).unwrap();
    assert!(same_vector(&q_strategy, &[q(1, 4), q(3, 4), q(0, 1)]));
    assert_eq!(
        GameSolver::normalize_solution(&[q(1, 2), q(-1, 2)]).err(),
        Some(GameError::SolverError(SimplexError::Infeasible))
    );
}

#[test]
fn negative_solution_entries_are_clamped() {
    let p = GameSolver::strategy_from_solution(&[q(3, 2), q(-1, 2), q(1, 2)]).unwrap();
    assert!(same_vector(&p, &[q(3, 4), q(0, 1), q(1, 4)]));
    assert_eq!(
        GameSolver::strategy_from_solution(&[q(-1, 1), q(1, 100_000_000_000)]).err(),
        Some(GameError::SolverError(SimplexError::Infeasible))
    );
    let floor = GameSolver::strategy_from_solution(&[q(1, 10_000_000_000)]).unwrap();
    assert!(same_vector(&floor, &ints(&[1])));
}

#[test]
fn indifference_makes_active_columns_pay_the_same() {
    let solver = GameSolver::new(game(&[&[4, 1], &[2, 3]])).unwrap();
    let p = solver.solve_indifference_system(solver.payoff_matrix(), &[0, 1]).unwrap();
    assert!(same_vector(&p, &[q(1, 4), q(3, 4)]));
}

#[test]
fn players_are_solved_on_the_shifted_matrix() {
    let solver = GameSolver::new(game(&[&[4, 1], &[2, 3]])).unwrap();
    let m = solver.payoff_matrix();
    let z = solver.solve_col_player_internal(m).unwrap();
    assert!(same_vector(&z, &[q(1, 5), q(1, 5)]));
    assert!(same_vector(&solver.solve_col_player(m).unwrap(), &[q(1, 2), q(1, 2)]));
    assert!(same_vector(&solver.solve_row_player(m).unwrap(), &[q(1, 4), q(3, 4)]));
    assert!(same_vector(&solver.row_strategy_from(m, &z).unwrap(), &[q(1, 4), q(3, 4)]));
}

#[test]
fn elimination_solves_a_square_system() {
    let mut a = game(&[&[2, 1], &[1, 3]]);
    let mut b = ints(&[5, 10]);
    let x = gaussian_elimination(&mut a, &mut b, 2).unwrap();
    assert!(same_vector(&x, &ints(&[1, 3])));
    // The reduced system is left behind.
    assert!(same_vector(&a[1], &[q(0, 1), q(5, 2)]));
    assert!(same_vector(&b, &[q(5, 1), q(15, 2)]));
}

#[test]
fn elimination_brings_the_largest_pivot_up() {
    let mut a = game(&[&[0, 1], &[1, 0]]);
    let mut b = ints(&[2, 3]);
    let x = gaussian_elimination(&mut a, &mut b, 2).unwrap();
    assert!(same_vector(&x, &ints(&[3, 2])));
    assert!(same_vector(&a[0], &ints(&[1, 0])));
}

#[test]
fn elimination_leaves_free_unknowns_at_zero() {
    let mut a = game(&[&[1, 1, 1]]);
    let mut b = ints(&[1]);
    let x = gaussian_elimination(&mut a, &mut b, 3).unwrap();
    assert!(same_vector(&x, &ints(&[1, 0, 0])));
}

#[test]
fn elimination_needs_an_equation_and_an_unknown() {
    let mut none: Vec<Vec<Rational>> = vec![];
    let mut b: Vec<Rational> = vec![];
    assert_eq!(
        gaussian_elimination(&mut none, &mut b, 2).err(),
        Some(GameError::SolverError(SimplexError::InvalidDimensions))
    );
    let mut a = vec![vec![]];
    let mut b = ints(&[1]);
    assert_eq!(
        gaussian_elimination(&mut a, &mut b, 0).err(),
        Some(GameError::SolverError(SimplexError::InvalidDimensions))
    );
}

#[test]
fn equilibrium_accessors_give_the_solution() {
    let nash = NashEquilibrium::find(game(&[&[4, 1], &[2, 3]])).unwrap();
    assert!(same_vector(nash.row_strategy(), &[q(1, 4), q(3, 4)]));
    assert!(same_vector(nash.col_strategy(), &[q(1, 2), q(1, 2)]));
    assert!(nash.value().same(&q(5, 2)));
    assert!(nash.solution().game_value.same(&q(5, 2)));
}

#[test]
fn solved_games_pass_the_equilibrium_check() {
    let eps = q(1, 100);
    for values in [
        game(&[&[1, -1], &[-1, 1]]),
        game(&[&[3, -1, 2], &[-2, 4, 1]]),
        game(&[&[4, 1], &[2, 3]]),
        game(&[&[1, 2], &[3, 4]]),
        game(&[&[5]]),
    ] {
        let nash = NashEquilibrium::find(
            values.iter().map(|r| r.iter().map(|x| x.clone()).collect()).collect(),
        )
        .unwrap();
        assert!(NashEquilibrium::is_epsilon_nash(
            &values,
            nash.row_strategy(),
            nash.col_strategy(),
            &eps
        ));
    }
}

#[test]
fn equilibrium_check_refuses_a_profitable_deviation() {
    let pennies = game(&[&[1, -1], &[-1, 1]]);
    let eps = q(1, 100);
    // Against a column player who always plays column 0, row 0 gains.
    assert!(!NashEquilibrium::is_epsilon_nash(
        &pennies,
        &[q(1, 2), q(1, 2)],
        &ints(&[1, 0]),
        &eps
    ));
    // A row player who always plays row 0 loses to column 1.
    assert!(!NashEquilibrium::is_epsilon_nash(
        &pennies,
        &ints(&[1, 0]),
        &[q(1, 2), q(1, 2)],
        &eps
    ));
    // A large tolerance accepts both.
    assert!(NashEquilibrium::is_epsilon_nash(
        &pennies,
        &ints(&[1, 0]),
        &[q(1, 2), q(1, 2)],
        &Rational::from_int(1)
    ));
}

#[test]
fn indifference_on_too_few_equations_can_miss_the_equilibrium() {
    let values = game(&[&[2, 0, 3], &[-2, -3, 0], &[-3, 3, 0]]);
    let nash = NashEquilibrium::find(game(&[&[2, 0, 3], &[-2, -3, 0], &[-3, 3, 0]])).unwrap();
    assert!(same_vector(nash.row_strategy(), &ints(&[0, 1, 0])));
    assert!(same_vector(nash.col_strategy(), &[q(3, 8), q(5, 8), q(0, 1)]));
    assert!(nash.value().same(&Rational::from_int(-3)));
    assert!(!NashEquilibrium::is_epsilon_nash(
        &values,
        nash.row_strategy(),
        nash.col_strategy(),
        &q(1, 100)
    ));
}

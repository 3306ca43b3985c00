use football_game_theory::exact::rational::Rational;
use football_game_theory::solver::game::GameSolver;
use football_game_theory::solver::nash::NashEquilibrium;
use football_game_theory::solver::simplex::Simplex;

/// The exact rational value of a finite float.
fn rat(x: f64) -> Rational {
    assert!(x.is_finite());
    let bits = x.to_bits();
    let negative = (bits >> 63) == 1;
    let exponent = ((bits >> 52) & 0x7ff) as i64;
    let fraction = bits & 0x000f_ffff_ffff_ffff;
    let (mantissa, power) = if exponent == 0 {
        (fraction, -1074i64)
    } else {
        (fraction | (1u64 << 52), exponent - 1075)
    };
    let mut scale: Vec<u32> = vec![0; (power.unsigned_abs() / 32) as usize];
    scale.push(1u32 << (power.unsigned_abs() % 32));
    let digits = vec![mantissa as u32, (mantissa >> 32) as u32];
    let base = Rational::from_parts(negative, digits, vec![1]).unwrap();
    let factor = Rational::from_parts(false, scale, vec![1]).unwrap();
    if power >= 0 {
        base.mul(&factor)
    } else {
        base.div(&factor)
    }
}

/// The leading digits of a number as a float, and the power of two they
/// are to be scaled by.
fn leading(digits: &[u32]) -> (f64, i32) {
    let mut top = digits.len();
    while top > 0 && digits[top - 1] == 0 {
        top -= 1;
    }
    let mut value = 0.0f64;
    let low = top.saturating_sub(3);
    for k in (low..top).rev() {
        value = value * 4294967296.0 + digits[k] as f64;
    }
    (value, 32 * low as i32)
}

/// The float nearest to a rational, up to rounding in the last places.
fn num(r: &Rational) -> f64 {
    let (negative, numer, denom) = r.to_parts();
    let (n, en) = leading(&numer);
    let (d, ed) = leading(&denom);
    let magnitude = (n / d) * 2.0f64.powi(en - ed);
    if negative {
        -magnitude
    } else {
        magnitude
    }
}

fn row(values: &[f64]) -> Vec<Rational> {
    values.iter().map(|&v| rat(v)).collect()
}

fn rows(values: &[&[f64]]) -> Vec<Vec<Rational>> {
    values.iter().map(|r| row(r)).collect()
}

#[test]
fn test_simple_maximization() {
    // Maximize: 3x + 2y
    // Subject to: x + y <= 4, x <= 2, y <= 3
    let c = row(&[3.0, 2.0]);
    let a = rows(&[&[1.0, 1.0], &[1.0, 0.0], &[0.0, 1.0]]);
    let b = row(&[4.0, 2.0, 3.0]);

    let mut solver = Simplex::new(&c, &a, &b).unwrap();
    let (optimal, solution) = solver.solve().unwrap();

    assert!((num(&optimal) - 10.0).abs() <= 1e-6);
    assert!((num(&solution[0]) - 2.0).abs() <= 1e-6);
    assert!((num(&solution[1]) - 2.0).abs() <= 1e-6);
}

#[test]
fn test_another_lp() {
    // Maximize: 5x + 4y
    // Subject to: x + y <= 5, 10x + 6y <= 45
    let c = row(&[5.0, 4.0]);
    let a = rows(&[&[1.0, 1.0], &[10.0, 6.0]]);
    let b = row(&[5.0, 45.0]);

    let mut solver = Simplex::new(&c, &a, &b).unwrap();
    let (optimal, solution) = solver.solve().unwrap();

    // Optimal: x=3.75, y=1.25, value=23.75
    assert!((num(&optimal) - 23.75).abs() <= 1e-6);
    assert!((num(&solution[0]) - 3.75).abs() <= 1e-6);
    assert!((num(&solution[1]) - 1.25).abs() <= 1e-6);
}

#[test]
fn test_matching_pennies() {
    let matrix = rows(&[&[1.0, -1.0], &[-1.0, 1.0]]);

    let solver = GameSolver::new(matrix).unwrap();
    let solution = solver.solve().unwrap();

    assert!((num(&solution.row_strategy[0]) - 0.5).abs() <= 0.01);
    assert!((num(&solution.row_strategy[1]) - 0.5).abs() <= 0.01);
    assert!((num(&solution.col_strategy[0]) - 0.5).abs() <= 0.01);
    assert!((num(&solution.col_strategy[1]) - 0.5).abs() <= 0.01);
    assert!((num(&solution.game_value) - 0.0).abs() <= 0.01);
}

#[test]
fn test_asymmetric_game() {
    let matrix = rows(&[&[3.0, -1.0, 2.0], &[-2.0, 4.0, 1.0]]);

    let solver = GameSolver::new(matrix).unwrap();
    let solution = solver.solve().unwrap();

    let row_sum: f64 = solution.row_strategy.iter().map(num).sum();
    let col_sum: f64 = solution.col_strategy.iter().map(num).sum();
    assert!((row_sum - 1.0).abs() <= 0.01);
    assert!((col_sum - 1.0).abs() <= 0.01);

    for p in &solution.row_strategy {
        assert!(num(p) >= -0.01);
    }
    for q in &solution.col_strategy {
        assert!(num(q) >= -0.01);
    }
}

#[test]
fn test_nash_equilibrium_verification() {
    let matrix = rows(&[&[1.0, -1.0], &[-1.0, 1.0]]);

    let nash = NashEquilibrium::find(rows(&[&[1.0, -1.0], &[-1.0, 1.0]])).unwrap();

    assert!(NashEquilibrium::is_epsilon_nash(
        &matrix,
        nash.row_strategy(),
        nash.col_strategy(),
        &rat(0.01)
    ));
}

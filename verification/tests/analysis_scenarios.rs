use football_game_theory::analysis::sensitivity::SensitivityAnalyzer;
use football_game_theory::analysis::simulation::{sample_direction, SimpleRng, Simulator};
use football_game_theory::exact::rational::Rational;
use football_game_theory::football::payoff::PayoffError;
use football_game_theory::football::penalty::Direction;
use football_game_theory::solver::game::GameError;

/// The exact rational value of a finite float.
fn rat(x: f64) -> Rational {
    assert!(x.is_finite());
    let bits = x.to_bits();
    let negative = (bits >> 63) == 1;
    let exponent = ((bits >> 52) & 0x7ff) as i64;
    let fraction = bits & 0x000f_ffff_ffff_ffff;
    let (mantissa, power) = if exponent == 0 {
        (fraction, -1074i64)
    } else {
        (fraction | (1u64 << 52), exponent - 1075)
    };
    let mut scale: Vec<u32> = vec![0; (power.unsigned_abs() / 32) as usize];
    scale.push(1u32 << (power.unsigned_abs() % 32));
    let digits = vec![mantissa as u32, (mantissa >> 32) as u32];
    let base = Rational::from_parts(negative, digits, vec![1]).unwrap();
    let factor = Rational::from_parts(false, scale, vec![1]).unwrap();
    if power >= 0 {
        base.mul(&factor)
    } else {
        base.div(&factor)
    }
}

/// The leading digits of a number as a float, and the power of two they
/// are to be scaled by.
fn leading(digits: &[u32]) -> (f64, i32) {
    let mut top = digits.len();
    while top > 0 && digits[top - 1] == 0 {
        top -= 1;
    }
    let mut value = 0.0f64;
    let low = top.saturating_sub(3);
    for k in (low..top).rev() {
        value = value * 4294967296.0 + digits[k] as f64;
    }
    (value, 32 * low as i32)
}

/// The float nearest to a rational, up to rounding in the last places.
fn num(r: &Rational) -> f64 {
    let (negative, numer, denom) = r.to_parts();
    let (n, en) = leading(&numer);
    let (d, ed) = leading(&denom);
    let magnitude = (n / d) * 2.0f64.powi(en - ed);
    if negative {
        -magnitude
    } else {
        magnitude
    }
}

fn row(values: &[f64]) -> Vec<Rational> {
    values.iter().map(|&v| rat(v)).collect()
}

fn rows(values: &[&[f64]]) -> Vec<Vec<Rational>> {
    values.iter().map(|r| row(r)).collect()
}

#[test]
fn test_sensitivity_analysis() {
    let analyzer = SensitivityAnalyzer::with_default_data();
    let result = analyzer.analyze_single_change(0, 0, &rat(0.1)).unwrap();

    assert_eq!(num(&result.original_value), 0.58);
    assert!((num(&result.new_value) - 0.68).abs() < 0.001);
}

#[test]
fn test_full_analysis() {
    let analyzer = SensitivityAnalyzer::with_default_data();
    let results = analyzer.full_analysis(&rat(0.05)).unwrap();

    assert_eq!(results.len(), 9); // 3x3 matrix
}

#[test]
fn test_simulation_basic() {
    let sim = Simulator::new().seed(42);
    let uniform = row(&[1.0 / 3.0, 1.0 / 3.0, 1.0 / 3.0]);

    let result = sim.simulate(&uniform, &uniform, 1000);

    assert_eq!(result.total_kicks, 1000);
    assert!(result.goals_scored > 0);
    assert!(result.goals_scored < 1000);
}

#[test]
fn test_simulation_reproducibility() {
    let sim1 = Simulator::new().seed(12345);
    let sim2 = Simulator::new().seed(12345);

    let uniform = row(&[1.0 / 3.0, 1.0 / 3.0, 1.0 / 3.0]);

    let result1 = sim1.simulate(&uniform, &uniform, 100);
    let result2 = sim2.simulate(&uniform, &uniform, 100);

    assert_eq!(result1.goals_scored, result2.goals_scored);
}

#[test]
fn test_strategy_comparison() {
    let sim = Simulator::new().seed(42);
    let uniform = row(&[1.0 / 3.0, 1.0 / 3.0, 1.0 / 3.0]);

    let (optimal, alternative) = sim.compare_strategies(&uniform, &uniform, 1000).unwrap();

    assert_eq!(optimal.total_kicks, 1000);
    assert_eq!(alternative.total_kicks, 1000);
}

#[test]
fn generator_steps_by_its_recurrence() {
    let mut rng = SimpleRng::new(0);
    assert_eq!(rng.next_u64(), 1);
    assert_eq!(rng.next_u64(), 6364136223846793006);
    let mut wrapped = SimpleRng::new(u64::MAX);
    assert_eq!(wrapped.next_u64(), 12082607849862758612);
    let mut unit = SimpleRng::new(0);
    // The state 1 has no bit among its upper 53.
    assert!(unit.next_unit().is_zero());
    // 6364136223846793006 / 2048 = 3107488390550191
    let second = unit.next_unit();
    assert!(second.same(&Rational::from_ratio(3107488390550191, 1 << 53).unwrap()));
}

#[test]
fn direction_is_drawn_by_the_running_sum() {
    // From the state 0 the first number drawn is zero.
    let certain = row(&[0.0, 1.0, 0.0]);
    assert_eq!(sample_direction(&mut SimpleRng::new(0), &certain), Direction::Center);
    let first = row(&[0.5, 0.5]);
    assert_eq!(sample_direction(&mut SimpleRng::new(0), &first), Direction::Left);
    // Where the sum never exceeds the number, the last index is taken.
    let nothing = row(&[0.0, 0.0]);
    assert_eq!(sample_direction(&mut SimpleRng::new(0), &nothing), Direction::Center);
    let long = row(&[0.0, 0.0, 0.0, 0.0]);
    assert_eq!(sample_direction(&mut SimpleRng::new(0), &long), Direction::Right);
    let late = row(&[0.0, 0.0, 0.0, 1.0]);
    assert_eq!(sample_direction(&mut SimpleRng::new(0), &late), Direction::Center);
}

#[test]
fn simulation_counts_its_goals() {
    let sure = rows(&[&[1.0, 1.0, 1.0], &[1.0, 1.0, 1.0], &[0.0, 0.0, 0.0]]);
    let sim = Simulator::with_matrix(sure).unwrap().seed(7);
    let left = row(&[1.0, 0.0, 0.0]);
    let right = row(&[0.0, 0.0, 1.0]);
    let goals = sim.simulate(&left, &right, 50);
    assert_eq!(goals.goals_scored, 50);
    assert_eq!(goals.kicks.len(), 50);
    assert!(goals.kicks.iter().all(|k| k.kick_direction == Direction::Left
        && k.gk_direction == Direction::Right
        && k.is_goal));
    assert!(goals.goal_percentage().same(&Rational::from_int(100)));
    assert_eq!(goals.direction_stats(), vec![((Direction::Left, Direction::Right), 50, 50)]);
    let saves = sim.simulate(&right, &left, 20);
    assert_eq!(saves.goals_scored, 0);
    assert!(saves.goal_percentage().is_zero());
    assert_eq!(saves.direction_stats(), vec![((Direction::Right, Direction::Left), 0, 20)]);
    let none = sim.simulate(&left, &left, 0);
    assert!(none.goal_percentage().is_zero());
    assert!(none.direction_stats().is_empty());
    assert!(sim.penalty_kick().payoff_matrix().get(2, 0).unwrap().is_zero());
}

#[test]
fn simulator_needs_a_penalty_kick() {
    assert!(matches!(
        Simulator::with_matrix(rows(&[&[0.5, 0.5]])),
        Err(PayoffError::DimensionMismatch)
    ));
}

#[test]
fn direction_stats_go_row_by_row() {
    let sim = Simulator::new().seed(3);
    let uniform = row(&[0.25, 0.5, 0.25]);
    let result = sim.simulate(&uniform, &uniform, 200);
    let stats = result.direction_stats();
    let attempts: u32 = stats.iter().map(|s| s.2).sum();
    let goals: u32 = stats.iter().map(|s| s.1).sum();
    assert_eq!(attempts, 200);
    assert_eq!(goals, result.goals_scored);
    let cells: Vec<usize> =
        stats.iter().map(|((k, g), _, _)| 3 * k.index() + g.index()).collect();
    assert!(cells.windows(2).all(|w| w[0] < w[1]));
    assert!(stats.iter().all(|s| s.2 > 0 && s.1 <= s.2));
    assert_eq!(stats[0].0 .0, Direction::Left);
}

#[test]
fn changed_rate_stays_a_probability() {
    let analyzer = SensitivityAnalyzer::with_default_data();
    let up = analyzer.analyze_single_change(2, 1, &rat(0.5)).unwrap();
    assert_eq!(up.parameter, "Success rate [2,1]");
    assert!(up.original_value.same(&Rational::from_ratio(9, 10).unwrap()));
    assert!(up.new_value.same(&Rational::one()));
    let down = analyzer.analyze_single_change(1, 1, &rat(-0.5)).unwrap();
    assert!(down.new_value.is_zero());
    let still = analyzer.analyze_single_change(0, 0, &Rational::zero()).unwrap();
    assert!(still.kicker_strategy_change.iter().all(|c| c.is_zero()));
    assert!(still.goalkeeper_strategy_change.iter().all(|c| c.is_zero()));
    assert!(still.goal_probability_change.is_zero());
    assert_eq!(still.kicker_strategy_change.len(), 3);
}

#[test]
fn analyzer_of_no_kick_fails_as_empty() {
    let wrong = SensitivityAnalyzer::new(rows(&[&[0.5, 0.5], &[0.5, 0.5]]));
    assert!(matches!(
        wrong.analyze_single_change(0, 0, &rat(0.1)),
        Err(GameError::EmptyMatrix)
    ));
    let empty = SensitivityAnalyzer::new(vec![]);
    assert!(matches!(empty.full_analysis(&rat(0.1)), Err(GameError::EmptyMatrix)));
    assert!(matches!(empty.find_critical_parameters(&rat(0.1)), Err(GameError::EmptyMatrix)));
}

#[test]
fn critical_parameters_come_most_sensitive_first() {
    let analyzer = SensitivityAnalyzer::with_default_data();
    let critical = analyzer.find_critical_parameters(&rat(0.05)).unwrap();
    assert_eq!(critical.len(), 9);
    let mut cells: Vec<usize> = critical.iter().map(|(r, c, _)| 3 * r + c).collect();
    for pair in critical.windows(2) {
        let (a, b) = (&pair[0], &pair[1]);
        assert!(a.2.gt(&b.2) || (a.2.same(&b.2) && 3 * a.0 + a.1 < 3 * b.0 + b.1));
    }
    cells.sort();
    assert_eq!(cells, (0..9).collect::<Vec<usize>>());
    let results = analyzer.full_analysis(&rat(0.05)).unwrap();
    for (r, c, total) in &critical {
        let result = &results[3 * r + c];
        let mut sum = Rational::zero();
        for x in result.kicker_strategy_change.iter().chain(&result.goalkeeper_strategy_change) {
            sum = sum.add(&x.abs());
        }
        assert!(sum.same(total));
    }
}

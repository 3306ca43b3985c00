use football_game_theory::exact::rational::Rational;
use football_game_theory::football::payoff::PayoffMatrix;
use football_game_theory::football::penalty::{Direction, PenaltyKick};
use football_game_theory::football::stats::{direction_to_index, PkRecord};

/// The exact rational value of a finite float.
fn rat(x: f64) -> Rational {
    assert!(x.is_finite());
    let bits = x.to_bits();
    let negative = (bits >> 63) == 1;
    let exponent = ((bits >> 52) & 0x7ff) as i64;
    let fraction = bits & 0x000f_ffff_ffff_ffff;
    let (mantissa, power) = if exponent == 0 {
        (fraction, -1074i64)
    } else {
        (fraction | (1u64 << 52), exponent - 1075)
    };
    let mut scale: Vec<u32> = vec![0; (power.unsigned_abs() / 32) as usize];
    scale.push(1u32 << (power.unsigned_abs() % 32));
    let digits = vec![mantissa as u32, (mantissa >> 32) as u32];
    let base = Rational::from_parts(negative, digits, vec![1]).unwrap();
    let factor = Rational::from_parts(false, scale, vec![1]).unwrap();
    if power >= 0 {
        base.mul(&factor)
    } else {
        base.div(&factor)
    }
}

/// The leading digits of a number as a float, and the power of two they
/// are to be scaled by.
fn leading(digits: &[u32]) -> (f64, i32) {
    let mut top = digits.len();
    while top > 0 && digits[top - 1] == 0 {
        top -= 1;
    }
    let mut value = 0.0f64;
    let low = top.saturating_sub(3);
    for k in (low..top).rev() {
        value = value * 4294967296.0 + digits[k] as f64;
    }
    (value, 32 * low as i32)
}

/// The float nearest to a rational, up to rounding in the last places.
fn num(r: &Rational) -> f64 {
    let (negative, numer, denom) = r.to_parts();
    let (n, en) = leading(&numer);
    let (d, ed) = leading(&denom);
    let magnitude = (n / d) * 2.0f64.powi(en - ed);
    if negative {
        -magnitude
    } else {
        magnitude
    }
}

fn row(values: &[f64]) -> Vec<Rational> {
    values.iter().map(|&v| rat(v)).collect()
}

fn rows(values: &[&[f64]]) -> Vec<Vec<Rational>> {
    values.iter().map(|r| row(r)).collect()
}

#[test]
fn test_direction_conversion() {
    for dir in Direction::all() {
        let index = dir.index();
        let recovered = Direction::from_index(index).unwrap();
        assert_eq!(*dir, recovered);
    }
}

#[test]
fn test_penalty_analysis() {
    let pk = PenaltyKick::with_default_data();
    let analysis = pk.analyze().unwrap();

    let kicker_sum: f64 = analysis.kicker_strategy.iter().map(|(_, p)| num(p)).sum();
    let gk_sum: f64 = analysis.goalkeeper_strategy.iter().map(|(_, p)| num(p)).sum();

    assert!((kicker_sum - 1.0).abs() <= 0.01);
    assert!((gk_sum - 1.0).abs() <= 0.01);

    assert!(num(&analysis.goal_probability) >= 0.0);
    assert!(num(&analysis.goal_probability) <= 1.0);

    assert!(num(&analysis.goal_probability) > 0.5);
}

#[test]
fn test_expected_goal_probability() {
    let pk = PenaltyKick::with_default_data();

    let kick = row(&[1.0, 0.0, 0.0]);
    let gk = row(&[1.0, 0.0, 0.0]);

    let prob = pk.expected_goal_probability(&kick, &gk);
    assert!((num(&prob) - 0.58).abs() <= 0.001);
}

#[test]
fn test_direction_parsing() {
    assert_eq!(direction_to_index("left").unwrap(), 0);
    assert_eq!(direction_to_index("Left").unwrap(), 0);
    assert_eq!(direction_to_index("CENTER").unwrap(), 1);
    assert_eq!(direction_to_index("r").unwrap(), 2);
}

#[test]
fn test_success_rate() {
    let record = PkRecord {
        kick_direction: "left".into(),
        gk_direction: "left".into(),
        goals: 58,
        attempts: 100,
    };

    assert!((num(&record.success_rate()) - 0.58).abs() < 0.001);
}

#[test]
fn test_payoff_matrix_creation() {
    let matrix = rows(&[&[0.58, 0.93, 0.95], &[0.83, 0.44, 0.83], &[0.93, 0.90, 0.60]]);

    let row_labels = vec!["Kick Left".into(), "Kick Center".into(), "Kick Right".into()];
    let col_labels = vec!["GK Left".into(), "GK Center".into(), "GK Right".into()];

    let payoff = PayoffMatrix::new(matrix, row_labels, col_labels).unwrap();

    assert_eq!(payoff.num_rows(), 3);
    assert_eq!(payoff.num_cols(), 3);
    assert!(payoff.get(0, 0).unwrap().same(&rat(0.58)));
    assert!(payoff.get(1, 2).unwrap().same(&rat(0.83)));
}

#[test]
fn test_to_expected_payoff() {
    let matrix = rows(&[&[0.5, 1.0], &[0.0, 0.75]]);
    let payoff = PayoffMatrix::from_success_rates(matrix).unwrap();
    let expected = payoff.to_expected_payoff();

    assert!((num(&expected[0][0]) - 0.0).abs() < 0.001); // 0.5 -> 0.0
    assert!((num(&expected[0][1]) - 1.0).abs() < 0.001); // 1.0 -> 1.0
    assert!((num(&expected[1][0]) - (-1.0)).abs() < 0.001); // 0.0 -> -1.0
    assert!((num(&expected[1][1]) - 0.5).abs() < 0.001); // 0.75 -> 0.5
}

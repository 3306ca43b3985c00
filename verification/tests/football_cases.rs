use football_game_theory::exact::rational::Rational;
use football_game_theory::football::payoff::{numbered_label, PayoffError, PayoffMatrix};
use football_game_theory::football::penalty::{Direction, PenaltyKick};
use football_game_theory::football::stats::{
    aggregate_records, direction_to_index, index_of_word, index_to_direction, records_to_matrix,
    try_aggregate_records, PkRecord, StatsError,
};
use football_game_theory::solver::game::GameError;

fn q(n: i64, d: u64) -> Rational {
    Rational::from_ratio(n, d).unwrap()
}

fn hundredths(values: &[&[i64]]) -> Vec<Vec<Rational>> {
    values.iter().map(|r| r.iter().map(|&v| q(v, 100)).collect()).collect()
}

fn record(kick: &str, gk: &str, goals: u32, attempts: u32) -> PkRecord {
    PkRecord { kick_direction: kick.into(), gk_direction: gk.into(), goals, attempts }
}

fn text(e: StatsError) -> String {
    match e {
        StatsError::InvalidData(t) => t,
    }
}

fn full_table() -> Vec<PkRecord> {
    let words = ["left", "center", "right"];
    let mut records = Vec::new();
    for (i, k) in words.iter().enumerate() {
        for (j, g) in words.iter().enumerate() {
            records.push(record(k, g, (3 * i + j + 1) as u32, 10));
        }
    }
    records
}

#[test]
fn directions_have_names_and_indices() {
    assert_eq!(Direction::all(), &[Direction::Left, Direction::Center, Direction::Right]);
    assert_eq!(Direction::Left.name(), "Left");
    assert_eq!(Direction::Center.name(), "Center");
    assert_eq!(Direction::Right.name(), "Right");
    assert_eq!(Direction::Right.index(), 2);
    assert_eq!(Direction::from_index(1), Some(Direction::Center));
    assert_eq!(Direction::from_index(3), None);
}

#[test]
fn labels_count_in_decimal() {
    assert_eq!(numbered_label("Row ", 0), "Row 0");
    assert_eq!(numbered_label("Col ", 10), "Col 10");
    assert_eq!(numbered_label("", 4096), "4096");
}

#[test]
fn labels_must_fit_the_matrix() {
    let labels = |n: usize| -> Vec<String> { (0..n).map(|i| i.to_string()).collect() };
    assert!(PayoffMatrix::new(hundredths(&[&[1, 2], &[3, 4]]), labels(2), labels(2)).is_ok());
    assert!(matches!(
        PayoffMatrix::new(hundredths(&[&[1, 2], &[3, 4]]), labels(3), labels(2)),
        Err(PayoffError::DimensionMismatch)
    ));
    assert!(matches!(
        PayoffMatrix::new(hundredths(&[&[1, 2], &[3, 4]]), labels(2), labels(1)),
        Err(PayoffError::DimensionMismatch)
    ));
    assert!(matches!(
        PayoffMatrix::new(hundredths(&[&[1, 2], &[3]]), labels(2), labels(2)),
        Err(PayoffError::DimensionMismatch)
    ));
    // An empty matrix takes any labels.
    let empty = PayoffMatrix::new(vec![], labels(2), labels(5)).unwrap();
    assert_eq!(empty.num_rows(), 0);
    assert_eq!(empty.num_cols(), 0);
    assert_eq!(empty.row_labels().len(), 2);
}

#[test]
fn success_rates_must_be_probabilities() {
    let m = PayoffMatrix::from_success_rates(hundredths(&[&[0, 100], &[50, 25], &[1, 99]])).unwrap();
    assert_eq!(m.num_rows(), 3);
    assert_eq!(m.num_cols(), 2);
    assert_eq!(m.row_labels(), &["Row 0", "Row 1", "Row 2"]);
    assert_eq!(m.col_labels(), &["Col 0", "Col 1"]);
    match PayoffMatrix::from_success_rates(hundredths(&[&[50, 101], &[-1, 200]])) {
        Err(PayoffError::InvalidProbability(p)) => assert!(p.same(&q(101, 100))),
        _ => panic!("the first entry above one was expected"),
    }
    match PayoffMatrix::from_success_rates(hundredths(&[&[50], &[-1, 200]])) {
        Err(PayoffError::InvalidProbability(p)) => assert!(p.same(&q(-1, 100))),
        _ => panic!("the negative entry was expected"),
    }
    assert!(matches!(
        PayoffMatrix::from_success_rates(hundredths(&[&[50], &[10, 20]])),
        Err(PayoffError::DimensionMismatch)
    ));
}

#[test]
fn entries_outside_the_matrix_are_none() {
    let m = PayoffMatrix::from_success_rates(hundredths(&[&[10, 20], &[30, 40]])).unwrap();
    assert!(m.get(1, 0).unwrap().same(&q(3, 10)));
    assert!(m.get(2, 0).is_none());
    assert!(m.get(0, 2).is_none());
    assert!(m.matrix()[0][1].same(&q(1, 5)));
}

#[test]
fn default_matrix_is_empty() {
    let m = PayoffMatrix::default();
    assert_eq!(m.num_rows(), 0);
    assert_eq!(m.num_cols(), 0);
    assert!(m.row_labels().is_empty());
    assert!(m.col_labels().is_empty());
    assert!(m.to_expected_payoff().is_empty());
}

#[test]
fn payoff_form_is_twice_the_rate_less_one() {
    let m = PayoffMatrix::from_success_rates(hundredths(&[&[58, 100], &[0, 44]])).unwrap();
    let p = m.to_expected_payoff();
    assert!(p[0][0].same(&q(4, 25)));
    assert!(p[0][1].same(&Rational::one()));
    assert!(p[1][0].same(&Rational::from_int(-1)));
    assert!(p[1][1].same(&q(-3, 25)));
    let copy = m.clone();
    assert!(copy.get(0, 0).unwrap().same(&q(58, 100)));
    assert_eq!(copy.col_labels(), m.col_labels());
}

#[test]
fn penalty_kick_is_three_by_three() {
    assert!(matches!(
        PenaltyKick::new(hundredths(&[&[10, 20], &[30, 40]])),
        Err(PayoffError::DimensionMismatch)
    ));
    let pk = PenaltyKick::new(hundredths(&[&[58, 93, 95], &[83, 44, 83], &[93, 90, 60]])).unwrap();
    assert_eq!(pk.payoff_matrix().row_labels(), &["Kick Left", "Kick Center", "Kick Right"]);
    assert_eq!(pk.payoff_matrix().col_labels(), &["GK Left", "GK Center", "GK Right"]);
    let none = PenaltyKick::new(vec![]).unwrap();
    assert!(matches!(none.analyze(), Err(GameError::EmptyMatrix)));
}

#[test]
fn default_kick_has_its_exact_equilibrium() {
    let analysis = PenaltyKick::with_default_data().analyze().unwrap();
    let kicker: Vec<&Rational> = analysis.kicker_strategy.iter().map(|(_, p)| p).collect();
    let keeper: Vec<&Rational> = analysis.goalkeeper_strategy.iter().map(|(_, p)| p).collect();
    assert_eq!(analysis.kicker_strategy[0].0, Direction::Left);
    assert_eq!(analysis.kicker_strategy[2].0, Direction::Right);
    assert!(kicker[0].same(&q(429, 1258)));
    assert!(kicker[1].same(&q(174, 629)));
    assert!(kicker[2].same(&q(13, 34)));
    assert!(keeper[0].same(&q(1679, 3774)));
    assert!(keeper[1].same(&q(455, 3774)));
    assert!(keeper[2].same(&q(820, 1887)));
    assert!(analysis.goal_probability.same(&q(98499, 125800)));
    assert!(analysis.payoff_matrix.get(1, 1).unwrap().same(&q(44, 100)));
}

#[test]
fn goal_chance_is_the_weighted_sum_of_rates() {
    let pk = PenaltyKick::with_default_data();
    let half = vec![q(1, 2), q(1, 2)];
    // (58 + 93 + 83 + 44) / 400
    assert!(pk.expected_goal_probability(&half, &half).same(&q(278, 400)));
    assert!(pk.expected_goal_probability(&[], &half).is_zero());
}

#[test]
fn direction_words_are_read_in_any_case() {
    for (word, index) in [
        ("left", 0),
        ("L", 0),
        ("Center", 1),
        ("centre", 1),
        ("MIDDLE", 1),
        ("c", 1),
        ("M", 1),
        ("Right", 2),
        ("R", 2),
    ] {
        assert_eq!(direction_to_index(word).unwrap(), index);
    }
    assert_eq!(text(direction_to_index("Up").unwrap_err()), "Unknown direction: up");
    assert_eq!(text(direction_to_index("").unwrap_err()), "Unknown direction: ");
    // Only words in lowercase are known to the table itself.
    assert_eq!(index_of_word("right"), Some(2));
    assert_eq!(index_of_word("Right"), None);
    assert_eq!(index_to_direction(0), "left");
    assert_eq!(index_to_direction(1), "center");
    assert_eq!(index_to_direction(2), "right");
    assert_eq!(index_to_direction(3), "unknown");
}

#[test]
fn success_rate_without_attempts_is_zero() {
    assert!(record("left", "left", 0, 0).success_rate().is_zero());
    assert!(record("left", "left", 3, 0).success_rate().is_zero());
    assert!(record("left", "left", 3, 4).success_rate().same(&q(3, 4)));
}

#[test]
fn records_with_the_same_directions_are_summed() {
    let records = vec![
        record("Left", "RIGHT", 3, 5),
        record("center", "left", 1, 2),
        record("left", "right", 4, 5),
        record("LEFT", "Right", 1, 1),
    ];
    let mut sums = aggregate_records(records);
    sums.sort_by(|a, b| a.kick_direction.cmp(&b.kick_direction));
    assert_eq!(sums.len(), 2);
    assert_eq!(sums[0].kick_direction, "center");
    assert_eq!(sums[0].gk_direction, "left");
    assert_eq!((sums[0].goals, sums[0].attempts), (1, 2));
    assert_eq!(sums[1].kick_direction, "left");
    assert_eq!(sums[1].gk_direction, "right");
    assert_eq!((sums[1].goals, sums[1].attempts), (8, 11));
    assert!(aggregate_records(vec![]).is_empty());
}

#[test]
fn sums_beyond_the_counter_are_not_aggregated() {
    let records = vec![record("left", "left", u32::MAX, 1), record("LEFT", "left", 1, 1)];
    assert!(try_aggregate_records(records).is_none());
    let records = vec![record("left", "left", 1, u32::MAX), record("left", "Left", 0, 1)];
    assert!(try_aggregate_records(records).is_none());
    let records = vec![record("left", "left", u32::MAX, 1), record("right", "left", 1, 1)];
    let sums = try_aggregate_records(records).unwrap();
    assert_eq!(sums.len(), 2);
    assert_eq!(sums[0].goals, u32::MAX);
}

#[test]
fn records_fill_the_matrix_and_the_last_counts() {
    let mut records = full_table();
    records.push(record("C", "M", 9, 10));
    let matrix = records_to_matrix(&records).unwrap();
    assert_eq!(matrix.len(), 3);
    assert!(matrix[0][0].same(&q(1, 10)));
    assert!(matrix[0][2].same(&q(3, 10)));
    assert!(matrix[1][1].same(&q(9, 10)));
    assert!(matrix[2][1].same(&q(8, 10)));
}

#[test]
fn records_with_unknown_or_missing_directions_fail() {
    let mut records = full_table();
    records.insert(1, record("left", "Post", 1, 1));
    records.insert(2, record("Bar", "left", 1, 1));
    assert_eq!(text(records_to_matrix(&records).unwrap_err()), "Unknown direction: post");
    let mut records = full_table();
    records.remove(5);
    records.remove(1);
    assert_eq!(
        text(records_to_matrix(&records).unwrap_err()),
        "Missing data for kick=left, gk=center"
    );
    assert_eq!(
        text(records_to_matrix(&[]).unwrap_err()),
        "Missing data for kick=left, gk=left"
    );
}

#[test]
fn strategy_text_shows_played_directions_in_percent() {
    let mut analysis = PenaltyKick::with_default_data().analyze().unwrap();
    // 429/1258 = 34.10..%, 174/629 = 27.66..%, 13/34 = 38.23..%
    assert_eq!(analysis.kicker_strategy_string(), "Left: 34.1%, Center: 27.7%, Right: 38.2%");
    assert_eq!(analysis.goalkeeper_strategy_string(), "Left: 44.5%, Center: 12.1%, Right: 43.5%");
    analysis.kicker_strategy[1].1 = q(1, 1000);
    analysis.kicker_strategy[2].1 = q(2, 1000);
    analysis.goalkeeper_strategy[0].1 = Rational::zero();
    analysis.goalkeeper_strategy[1].1 = q(-1, 2);
    analysis.goalkeeper_strategy[2].1 = q(1, 1);
    assert_eq!(analysis.kicker_strategy_string(), "Left: 34.1%, Right: 0.2%");
    assert_eq!(analysis.goalkeeper_strategy_string(), "Right: 100.0%");
    analysis.goalkeeper_strategy[2].1 = Rational::zero();
    assert_eq!(analysis.goalkeeper_strategy_string(), "");
}

#[test]
fn matrix_is_displayed_as_a_table() {
    let m = PayoffMatrix::new(
        hundredths(&[&[58, 93], &[0, 100]]),
        vec!["Kick Left".to_string(), "A label beyond its column".to_string()],
        vec!["GK Left".to_string(), "GK Right".to_string()],
    )
    .unwrap();
    let want = "                 GK Left    GK Right\n   Kick Left       0.580       0.930\nA label beyond its column       0.000       1.000\n";
    assert_eq!(m.display(), want);
    assert_eq!(PayoffMatrix::default().display(), "            \n");
}

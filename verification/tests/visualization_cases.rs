use football_game_theory::exact::rational::Rational;
use football_game_theory::visualization::ascii::{render_pitch, GoalVisualizer};
use football_game_theory::visualization::chart::{extremes, sparkline_levels, BarChart};
use football_game_theory::visualization::heatmap::HeatmapRenderer;
use football_game_theory::visualization::layout::{align_left, align_right, centre, repeat};

fn q(n: i64, d: u64) -> Rational {
    Rational::from_ratio(n, d).unwrap()
}

#[test]
fn numbers_round_half_away_from_zero() {
    assert_eq!(q(0, 1).round_to_usize(), 0);
    assert_eq!(q(49, 100).round_to_usize(), 0);
    assert_eq!(q(1, 2).round_to_usize(), 1);
    assert_eq!(q(3, 2).round_to_usize(), 2);
    assert_eq!(q(249, 100).round_to_usize(), 2);
    assert_eq!(q(-1, 4).round_to_usize(), 0);
    assert_eq!(q(-7, 2).round_to_usize(), 0);
    assert_eq!(Rational::from_usize(usize::MAX).round_to_usize(), usize::MAX);
    let beyond = Rational::from_usize(usize::MAX).mul(&Rational::from_int(3));
    assert_eq!(beyond.round_to_usize(), usize::MAX);
}

#[test]
fn pitch_shows_goal_and_kicker() {
    let pitch = render_pitch();
    assert!(pitch.contains("GOAL"));
    assert!(pitch.contains("PENALTY"));
    assert!(pitch.contains("KICKER"));
}

#[test]
fn goal_has_three_sections() {
    let viz = GoalVisualizer::new();
    assert_eq!(viz.width(), 60);
    assert_eq!(viz.section_width(), 18);
    assert_eq!(GoalVisualizer::default().width(), 60);
}

#[test]
fn probability_fills_a_tenth_per_block() {
    let viz = GoalVisualizer::new();
    assert_eq!(viz.probability_blocks(&q(1, 2)), (5, 5));
    assert_eq!(viz.probability_blocks(&q(34, 100)), (3, 7));
    assert_eq!(viz.probability_blocks(&q(35, 100)), (4, 6));
    assert_eq!(viz.probability_blocks(&q(0, 1)), (0, 10));
    assert_eq!(viz.probability_blocks(&q(1, 1)), (10, 0));
    assert_eq!(viz.probability_blocks(&q(104, 100)), (10, 0));
    assert_eq!(viz.probability_blocks(&q(-1, 2)), (0, 10));
}

#[test]
fn bars_are_as_long_as_their_share() {
    let chart = BarChart::new();
    assert_eq!(chart.max_bar_width(), 40);
    assert_eq!(chart.label_width(), 15);
    assert_eq!(BarChart::default().max_bar_width(), 40);
    assert_eq!(chart.bar_length(&q(34, 100), &q(1, 1)), 14);
    assert_eq!(chart.bar_length(&q(1, 2), &q(2, 1)), 10);
    assert_eq!(chart.bar_length(&q(3, 1), &q(2, 1)), 60);
    assert_eq!(chart.bar_length(&q(-1, 2), &q(1, 1)), 0);
    assert_eq!(chart.bar_length(&q(1, 2), &q(0, 1)), usize::MAX);
    assert_eq!(chart.bar_length(&q(0, 1), &q(0, 1)), 0);
    assert_eq!(chart.bar_length(&q(-1, 1), &q(0, 1)), 0);
    assert_eq!(chart.comparison_length(&q(1, 3)), 7);
    assert_eq!(chart.comparison_length(&q(1, 1)), 20);
}

#[test]
fn sparkline_spreads_values_over_eight_levels() {
    let values = vec![q(1, 10), q(5, 10), q(3, 10), q(9, 10), q(2, 10)];
    assert_eq!(sparkline_levels(&values), vec![0, 4, 2, 7, 1]);
    assert_eq!(sparkline_levels(&[q(1, 3), q(1, 3)]), vec![4, 4]);
    assert!(sparkline_levels(&[]).is_empty());
    let (least, greatest) = extremes(&values).unwrap();
    assert!(least.same(&q(1, 10)) && greatest.same(&q(9, 10)));
    assert!(extremes(&[]).is_none());
}

#[test]
fn heat_levels_run_from_least_to_greatest() {
    let renderer = HeatmapRenderer::new();
    assert_eq!(renderer.cell_width(), 12);
    assert_eq!(HeatmapRenderer::default().cell_width(), 12);
    let (zero, one) = (q(0, 1), q(1, 1));
    assert_eq!(renderer.heat_level_of(&zero, &zero, &one), 0);
    assert_eq!(renderer.heat_level_of(&one, &zero, &one), 9);
    assert_eq!(renderer.heat_level_of(&q(1, 2), &zero, &one), 5);
    assert_eq!(renderer.heat_level_of(&q(49, 100), &zero, &one), 4);
    assert_eq!(renderer.heat_level_of(&q(3, 1), &zero, &one), 9);
    assert_eq!(renderer.heat_level_of(&q(-3, 1), &zero, &one), 0);
    assert_eq!(renderer.heat_level_of(&q(7, 1), &one, &one), 5);
}

#[test]
fn range_of_a_matrix_is_its_least_and_greatest_entry() {
    let renderer = HeatmapRenderer::new();
    let matrix = vec![vec![q(58, 100), q(93, 100)], vec![], vec![q(44, 100), q(95, 100), q(60, 100)]];
    let (least, greatest) = renderer.find_range(&matrix).unwrap();
    assert!(least.same(&q(44, 100)));
    assert!(greatest.same(&q(95, 100)));
    assert!(renderer.find_range(&[]).is_none());
    assert!(renderer.find_range(&[vec![], vec![]]).is_none());
    let single = renderer.find_range(&[vec![q(1, 7)]]).unwrap();
    assert!(single.0.same(&q(1, 7)) && single.1.same(&q(1, 7)));
}

#[test]
fn test_heat_levels() {
    let renderer = HeatmapRenderer::new();
    let low = renderer.value_to_heat(&q(0, 1), &q(0, 1), &q(1, 1));
    let high = renderer.value_to_heat(&q(1, 1), &q(0, 1), &q(1, 1));
    assert_eq!(low, "░░░");
    assert_eq!(high, "███");
}

#[test]
fn text_is_padded_to_its_column() {
    assert_eq!(repeat("ab", 3), "ababab");
    assert_eq!(repeat("x", 0), "");
    assert_eq!(align_right("abc", 6, " "), "   abc");
    assert_eq!(align_left("abc", 6, "."), "abc...");
    assert_eq!(centre("abc", 6, " "), " abc  ");
    assert_eq!(centre("abc", 7, "─"), "──abc──");
    assert_eq!(centre("abcdef", 3, " "), "abcdef");
    assert_eq!(align_right("⚽⚽", 4, " "), "  ⚽⚽");
}

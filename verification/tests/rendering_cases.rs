use football_game_theory::exact::rational::Rational;
use football_game_theory::visualization::ascii::GoalVisualizer;
use football_game_theory::visualization::chart::{sparkline, BarChart};
use football_game_theory::visualization::heatmap::HeatmapRenderer;

/// The exact rational value of a finite float.
fn rat(x: f64) -> Rational {
    assert!(x.is_finite());
    let bits = x.to_bits();
    let negative = (bits >> 63) == 1;
    let exponent = ((bits >> 52) & 0x7ff) as i64;
    let fraction = bits & 0x000f_ffff_ffff_ffff;
    let (mantissa, power) = if exponent == 0 {
        (fraction, -1074i64)
    } else {
        (fraction | (1u64 << 52), exponent - 1075)
    };
    let mut scale: Vec<u32> = vec![0; (power.unsigned_abs() / 32) as usize];
    scale.push(1u32 << (power.unsigned_abs() % 32));
    let digits = vec![mantissa as u32, (mantissa >> 32) as u32];
    let base = Rational::from_parts(negative, digits, vec![1]).unwrap();
    let factor = Rational::from_parts(false, scale, vec![1]).unwrap();
    if power >= 0 {
        base.mul(&factor)
    } else {
        base.div(&factor)
    }
}

fn row(values: &[f64]) -> Vec<Rational> {
    values.iter().map(|&v| rat(v)).collect()
}

#[test]
fn test_goal_visualizer() {
    let viz = GoalVisualizer::new();
    let output = viz.render_kicker_strategy(&rat(0.34), &rat(0.28), &rat(0.38));
    assert!(output.contains("LEFT"));
    assert!(output.contains("CENTER"));
    assert!(output.contains("RIGHT"));
    assert!(output.contains("34.0%"));
}

#[test]
fn test_bar_chart() {
    let chart = BarChart::new();
    let data = vec![("Left", rat(0.34)), ("Center", rat(0.28)), ("Right", rat(0.38))];

    let output = chart.render("Kicker Strategy", &data, &rat(1.0));
    assert!(output.contains("Left"));
    assert!(output.contains("34.0%"));
}

#[test]
fn test_distribution() {
    let chart = BarChart::new();
    let labels = vec!["A", "B", "C"];
    let values = row(&[0.3, 0.5, 0.2]);

    let output = chart.render_distribution("Test", &labels, &values);
    assert!(output.contains("A"));
    assert!(output.contains("B"));
    assert!(output.contains("C"));
}

#[test]
fn test_heatmap_render() {
    let renderer = HeatmapRenderer::new();
    let matrix = vec![row(&[0.58, 0.93, 0.95]), row(&[0.83, 0.44, 0.83]), row(&[0.93, 0.90, 0.60])];
    let rows = vec!["Kick L", "Kick C", "Kick R"];
    let cols = vec!["GK Left", "GK Center", "GK Right"];

    let output = renderer.render(&matrix, &rows, &cols, "PK Success Rates");
    assert!(output.contains("PK Success Rates"));
    assert!(output.contains("Kick L"));
}

#[test]
fn goal_is_drawn_line_by_line() {
    let viz = GoalVisualizer::new();
    let half = Rational::from_ratio(1, 2).unwrap();
    let quarter = Rational::from_ratio(1, 4).unwrap();
    let output = viz.render_goalkeeper_strategy(&quarter, &half, &quarter);
    let bar = "═".repeat(18);
    let want = format!(
        "\n    {:^60}\n    ╔{b}╦{b}╦{b}╗\n    ║{:^18}║{:^18}║{:^18}║\n    ║{:^18}║{:^18}║{:^18}║\n    ║{:^18}║{:^18}║{:^18}║\n    ║{:^18}║{:^18}║{:^18}║\n    ╠{b}╩{b}╩{b}╣\n    ║{:^58}║\n    ╚{}╝\n",
        "GOALKEEPER STRATEGY",
        "LEFT",
        "CENTER",
        "RIGHT",
        "[███░░░░░░░]",
        "[█████░░░░░]",
        "[███░░░░░░░]",
        "25.0%",
        "50.0%",
        "25.0%",
        "",
        "",
        "",
        "⚽ GOAL ⚽",
        "═".repeat(58),
        b = bar
    );
    assert_eq!(output, want);
    assert_eq!(viz.probability_bar(&half), "[█████░░░░░]");
}

#[test]
fn bar_chart_is_drawn_line_by_line() {
    let chart = BarChart::new();
    let data = vec![("Left", Rational::from_ratio(1, 4).unwrap()), ("A long label indeed", Rational::one())];
    let output = chart.render("Títle", &data, &Rational::one());
    let want = format!(
        "\nTítle\n──────\n\n{:>15} │{:<40}│ 25.0%\n{:>15} │{:<40}│ 100.0%\n{:>15} └{}┘\n{:>15}  0%{:^34}100%\n",
        "Left",
        "█".repeat(10),
        "A long label indeed",
        "█".repeat(40),
        "",
        "─".repeat(40),
        "",
        ""
    );
    assert_eq!(output, want);
}

#[test]
fn comparison_is_drawn_line_by_line() {
    let chart = BarChart::new();
    let first = row(&[0.5, 0.25]);
    let second = row(&[1.0]);
    let output = chart.render_comparison("Two", &["a", "b", "c"], ("One", &first), ("Other", &second));
    let want = format!(
        "\nTwo\n───\n  One = ████  Other = ░░░░\n\n{:>15} │{:<20}│{:<20}│ 50.0% vs 100.0%\n{:>15} │{:<20}│{:<20}│ 25.0% vs 0.0%\n{:>15} │{:<20}│{:<20}│ 0.0% vs 0.0%\n",
        "a",
        "█".repeat(10),
        "░".repeat(20),
        "b",
        "█".repeat(5),
        "",
        "c",
        "",
        ""
    );
    assert_eq!(output, want);
}

#[test]
fn distribution_is_drawn_with_its_legend() {
    let chart = BarChart::new();
    let values = row(&[0.25, 0.5, 0.25, 1.0]);
    let output = chart.render_distribution("Mix", &["A", "B", "C"], &values);
    let want = format!(
        "\nMix\n───\n\n  [{}{}{}{}]\n\n  █ A = 12.5%\n  ▓ B = 25.0%\n  ░ C = 12.5%\n",
        "█".repeat(5),
        "▓".repeat(10),
        "░".repeat(5),
        "█".repeat(20)
    );
    assert_eq!(output, want);
    let nothing = chart.render_distribution("None", &["A"], &row(&[0.0]));
    assert_eq!(nothing, "\nNone\n────\n\n  []\n\n  █ A = NaN%\n");
}

#[test]
fn test_probability_bar() {
    let viz = GoalVisualizer::new();
    let bar = viz.probability_bar(&rat(0.5));
    assert!(bar.contains("█████"));
}

#[test]
fn test_sparkline() {
    let values = row(&[0.1, 0.5, 0.3, 0.9, 0.2]);
    let spark = sparkline(&values);
    assert_eq!(spark.chars().count(), 5);
}

#[test]
fn sparkline_has_a_block_for_every_level() {
    assert_eq!(sparkline(&[]), "");
    let exact: Vec<Rational> =
        [1, 5, 3, 9, 2].iter().map(|&n| Rational::from_ratio(n, 10).unwrap()).collect();
    assert_eq!(sparkline(&exact), "▁▅▃█▂");
}

#[test]
fn heatmap_is_drawn_line_by_line() {
    let renderer = HeatmapRenderer::new();
    let matrix = vec![
        vec![Rational::zero(), Rational::one()],
        vec![Rational::from_ratio(1, 2).unwrap()],
    ];
    let output = renderer.render(&matrix, &["top"], &["a", "b"], "T");
    let legend = "Low (0.00) ░░░ ░▒▒ ▒▓▓ ▓▓█ ███ High (1.00)";
    let want = format!(
        "\n{:^40}\n{:^40}\n\n{:>12} {:^12} {:^12}\n{:>12} {:─^12} {:─^12}\n{:>12} {:^12} {:^12}\n{:>12} {:^12}\n",
        "T",
        legend,
        "",
        "a",
        "b",
        "",
        "",
        "",
        "top",
        "░░░ 0.00",
        "███ 1.00",
        "",
        "▒▓▓ 0.50"
    );
    assert_eq!(output, want);
    let empty = renderer.render(&[], &[], &[], "E");
    assert_eq!(
        empty,
        format!(
            "\n{:^14}\n{:^14}\n\n{:>12}\n{:>12}\n",
            "E",
            "Low (inf) ░░░ ░▒▒ ▒▓▓ ▓▓█ ███ High (-inf)",
            "",
            ""
        )
    );
}

#[test]
fn compact_heatmap_is_drawn_line_by_line() {
    let renderer = HeatmapRenderer::new();
    let matrix = vec![vec![Rational::zero(), Rational::one()], vec![Rational::one()]];
    let output = renderer.render_compact(&matrix, &["up"], &["a", "b"]);
    let want = format!(
        "          {:^7} {:^7}\n{:>8}  ░░░  ███   <- up\n{:>8}  ███   <- \n",
        "a", "b", "up", ""
    );
    assert_eq!(output, want);
}

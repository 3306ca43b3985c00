//! The goal with the strategies of kicker or goalkeeper over it.

use super::layout::{centre, centred, repeat, repeated_text};
use crate::exact::decimal::{fixed, fixed_text};
use crate::exact::rational::{rounded, saturated, Rational};
use vstd::prelude::*;
use vstd::string::StringExecFns;

verus! {

/// The blocks of a probability bar.
pub open spec fn bar_blocks() -> nat {
    10
}

/// The blocks of a probability bar that are filled for the probability
/// `prob`: ten times the probability, rounded.
pub open spec fn filled_blocks(prob: real) -> usize {
    saturated(rounded(prob * 10real))
}

/// The probability `prob` in percent with one decimal.
pub open spec fn percent_text(prob: real) -> Seq<char> {
    fixed_text(prob * 100real, 1) + "%"@
}

/// The bar for the probability `prob`: ten blocks between brackets, as many
/// of them filled as tenths of the probability.
pub open spec fn bar_text(prob: real) -> Seq<char> {
    "["@ + repeated_text("█"@, filled_blocks(prob) as nat) + repeated_text(
        "░"@,
        (bar_blocks() - filled_blocks(prob)) as nat,
    ) + "]"@
}

/// A line of the goal: three cells, each centred in its section, between
/// posts.
pub open spec fn framed_line(left: Seq<char>, middle: Seq<char>, right: Seq<char>, section: nat) -> Seq<
    char,
> {
    "    ║"@ + centred(left, section, " "@) + "║"@ + centred(middle, section, " "@) + "║"@ + centred(
        right,
        section,
        " "@,
    ) + "║\n"@
}

/// A bar of the goal's frame over its three sections, with the given
/// corners and joints.
pub open spec fn border_line(open: Seq<char>, joint: Seq<char>, close: Seq<char>, section: nat) -> Seq<
    char,
> {
    "    "@ + open + repeated_text("═"@, section) + joint + repeated_text("═"@, section) + joint
        + repeated_text("═"@, section) + close + "\n"@
}

/// The goal `width` columns wide under `title`, with the three
/// probabilities as bars and in percent over its sections.
pub open spec fn goal_text(title: Seq<char>, left: real, center: real, right: real, width: nat) -> Seq<
    char,
> {
    let section = ((width - 4) / 3) as nat;
    let inner = (width - 2) as nat;
    "\n    "@ + centred(title, width, " "@) + "\n"@ + border_line("╔"@, "╦"@, "╗"@, section)
        + framed_line("LEFT"@, "CENTER"@, "RIGHT"@, section) + framed_line(
        bar_text(left),
        bar_text(center),
        bar_text(right),
        section,
    ) + framed_line(percent_text(left), percent_text(center), percent_text(right), section)
        + framed_line(Seq::empty(), Seq::empty(), Seq::empty(), section) + border_line(
        "╠"@,
        "╩"@,
        "╣"@,
        section,
    ) + "    ║"@ + centred("⚽ GOAL ⚽"@, inner, " "@) + "║\n"@ + "    ╚"@ + repeated_text("═"@, inner)
        + "╝\n"@
}

/// The goal in text, three sections wide.
#[derive(Debug)]
pub struct GoalVisualizer {
    width: usize,
}

impl GoalVisualizer {
    /// The width leaves room for the frame: four columns at least.
    #[verifier::type_invariant]
    spec fn well_formed(&self) -> bool {
        self.width >= 4
    }

    /// The width of the diagram in columns.
    pub closed spec fn total_width(&self) -> nat {
        self.width as nat
    }

    /// A goal 60 columns wide.
    pub fn new() -> (r: GoalVisualizer)
        ensures
            r.total_width() == 60,
    {
        GoalVisualizer { width: 60 }
    }

    /// The width of the diagram in columns.
    pub fn width(&self) -> (r: usize)
        ensures
            r == self.total_width(),
            r >= 4,
    {
        proof {
            use_type_invariant(self);
        }
        self.width
    }

    /// The width of each of the three sections of the goal: a third of what
    /// the frame leaves.
    pub fn section_width(&self) -> (r: usize)
        ensures
            r == (self.total_width() - 4) / 3,
    {
        proof {
            use_type_invariant(self);
        }
        (self.width - 4) / 3
    }

    /// How many blocks of the bar for the probability `prob` are filled, and
    /// how many are empty.
    pub fn probability_blocks(&self, prob: &Rational) -> (r: (usize, usize))
        requires
            filled_blocks(prob@) <= bar_blocks(),
        ensures
            r.0 == filled_blocks(prob@),
            r.0 + r.1 == bar_blocks(),
    {
        let filled = prob.mul(&Rational::from_int(10)).round_to_usize();
        (filled, 10 - filled)
    }
}

impl GoalVisualizer {
    /// The probability in percent with one decimal.
    fn percent(prob: &Rational) -> (r: String)
        ensures
            r@ == percent_text(prob@),
    {
        fixed(&prob.mul(&Rational::from_int(100)), 1).concat("%")
    }

    /// The bar for the probability `prob`.
    pub fn probability_bar(&self, prob: &Rational) -> (r: String)
        requires
            filled_blocks(prob@) <= bar_blocks(),
        ensures
            r@ == bar_text(prob@),
    {
        let (filled, empty) = self.probability_blocks(prob);
        let mut bar = String::from_str("[");
        bar.append(repeat("█", filled).as_str());
        bar.append(repeat("░", empty).as_str());
        bar.append("]");
        bar
    }

    /// A line of the goal with three centred cells.
    fn framed(left: &str, middle: &str, right: &str, section: usize) -> (r: String)
        ensures
            r@ == framed_line(left@, middle@, right@, section as nat),
    {
        let mut line = String::from_str("    ║");
        line.append(centre(left, section, " ").as_str());
        line.append("║");
        line.append(centre(middle, section, " ").as_str());
        line.append("║");
        line.append(centre(right, section, " ").as_str());
        line.append("║\n");
        line
    }

    /// A bar of the frame with the given corners and joints.
    fn border(open: &str, joint: &str, close: &str, section: usize) -> (r: String)
        ensures
            r@ == border_line(open@, joint@, close@, section as nat),
    {
        let bar = repeat("═", section);
        let mut line = String::from_str("    ");
        line.append(open);
        line.append(bar.as_str());
        line.append(joint);
        line.append(bar.as_str());
        line.append(joint);
        line.append(bar.as_str());
        line.append(close);
        line.append("\n");
        line
    }

    /// The goal under `title` with the three probabilities over its
    /// sections.
    fn render_strategy(&self, title: &str, left: &Rational, center: &Rational, right: &Rational) -> (r:
        String)
        requires
            filled_blocks(left@) <= bar_blocks(),
            filled_blocks(center@) <= bar_blocks(),
            filled_blocks(right@) <= bar_blocks(),
        ensures
            r@ == goal_text(title@, left@, center@, right@, self.total_width()),
    {
        proof {
            use_type_invariant(self);
        }
        let section = self.section_width();
        let inner = self.width - 2;
        let mut out = String::from_str("\n    ");
        out.append(centre(title, self.width, " ").as_str());
        out.append("\n");
        out.append(GoalVisualizer::border("╔", "╦", "╗", section).as_str());
        out.append(GoalVisualizer::framed("LEFT", "CENTER", "RIGHT", section).as_str());
        out.append(
            GoalVisualizer::framed(
                self.probability_bar(left).as_str(),
                self.probability_bar(center).as_str(),
                self.probability_bar(right).as_str(),
                section,
            ).as_str(),
        );
        out.append(
            GoalVisualizer::framed(
                GoalVisualizer::percent(left).as_str(),
                GoalVisualizer::percent(center).as_str(),
                GoalVisualizer::percent(right).as_str(),
                section,
            ).as_str(),
        );
        proof {
            reveal_strlit("");
            assert(""@ =~= Seq::<char>::empty());
        }
        out.append(GoalVisualizer::framed("", "", "", section).as_str());
        out.append(GoalVisualizer::border("╠", "╩", "╣", section).as_str());
        out.append("    ║");
        out.append(centre("⚽ GOAL ⚽", inner, " ").as_str());
        out.append("║\n");
        out.append("    ╚");
        out.append(repeat("═", inner).as_str());
        out.append("╝\n");
        out
    }

    /// The goal with the kicker's strategy over it.
    pub fn render_kicker_strategy(&self, left: &Rational, center: &Rational, right: &Rational) -> (r:
        String)
        requires
            filled_blocks(left@) <= bar_blocks(),
            filled_blocks(center@) <= bar_blocks(),
            filled_blocks(right@) <= bar_blocks(),
        ensures
            r@ == goal_text("KICKER STRATEGY"@, left@, center@, right@, self.total_width()),
    {
        self.render_strategy("KICKER STRATEGY", left, center, right)
    }

    /// The goal with the goalkeeper's strategy over it.
    pub fn render_goalkeeper_strategy(&self, left: &Rational, center: &Rational, right: &Rational) -> (r:
        String)
        requires
            filled_blocks(left@) <= bar_blocks(),
            filled_blocks(center@) <= bar_blocks(),
            filled_blocks(right@) <= bar_blocks(),
        ensures
            r@ == goal_text("GOALKEEPER STRATEGY"@, left@, center@, right@, self.total_width()),
    {
        self.render_strategy("GOALKEEPER STRATEGY", left, center, right)
    }
}

impl Default for GoalVisualizer {
    /// The goal that `new` gives.
    fn default() -> (r: GoalVisualizer)
        ensures
            r.total_width() == 60,
    {
        GoalVisualizer::new()
    }
}

/// The diagram of the pitch at a penalty kick: goal, penalty box, ball and
/// kicker.
pub open spec fn pitch_text() -> Seq<char> {
    PITCH@
}

/// The diagram of the pitch at a penalty kick.
pub fn render_pitch() -> (r: String)
    ensures
        r@ == pitch_text(),
{
    String::from_str(PITCH)
}

/// The text of the diagram.
pub const PITCH: &'static str = r#"
                    ┌─────────────────────────────┐
                    │           GOAL              │
                    └─────────────────────────────┘
                           ┌───────────┐
                           │  PENALTY  │
                           │    BOX    │
                           └───────────┘

                                ⚽

                              KICKER
    "#;

} // verus!

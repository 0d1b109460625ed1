//! Scoring of a rock-paper-scissors strategy guide.
//!
//! Each input line holds the opponent's shape and a second letter: read as
//! an own shape for the first total, as a demanded round outcome for the
//! second.  A round scores the own shape's base value plus nothing, three
//! or six for a loss, draw or win.

use vstd::prelude::*;

verus! {

use crate::parse::chars_of;

#[derive(PartialEq, Eq, Structural, Clone, Copy, Debug)]
pub enum Shape {
    Rock,
    Paper,
    Scissors,
}

#[derive(PartialEq, Eq, Structural, Clone, Copy, Debug)]
pub enum RoundOutcome {
    Lose,
    Draw,
    Win,
}

/// A letter that names a shape.
pub open spec fn shape_char(c: char) -> bool {
    c == 'A' || c == 'B' || c == 'C' || c == 'X' || c == 'Y' || c == 'Z'
}

/// The shape a letter names.
pub open spec fn spec_shape(c: char) -> Shape {
    if c == 'A' || c == 'X' {
        Shape::Rock
    } else if c == 'B' || c == 'Y' {
        Shape::Paper
    } else {
        Shape::Scissors
    }
}

/// An outcome letter.
pub open spec fn outcome_char(c: char) -> bool {
    c == 'X' || c == 'Y' || c == 'Z'
}

/// The outcome a letter demands.
pub open spec fn spec_outcome(c: char) -> RoundOutcome {
    if c == 'X' {
        RoundOutcome::Lose
    } else if c == 'Y' {
        RoundOutcome::Draw
    } else {
        RoundOutcome::Win
    }
}

impl Shape {
    /// The shape a strategy letter names.
    pub fn from_char(c: char) -> (s: Shape)
        requires
            shape_char(c),
        ensures
            s == spec_shape(c),
    {
        if c == 'A' || c == 'X' {
            Shape::Rock
        } else if c == 'B' || c == 'Y' {
            Shape::Paper
        } else {
            Shape::Scissors
        }
    }

    /// One for rock, two for paper, three for scissors.
    pub fn base_score(&self) -> (r: u64)
        ensures
            r == spec_base_score(*self),
    {
        match self {
            Shape::Rock => 1,
            Shape::Paper => 2,
            Shape::Scissors => 3,
        }
    }

    /// Whether this shape beats `other`.
    pub fn is_winning_against(&self, other: Shape) -> (r: bool)
        ensures
            r == spec_beats(*self, other),
    {
        match (self, other) {
            (Shape::Rock, Shape::Scissors) => true,
            (Shape::Paper, Shape::Rock) => true,
            (Shape::Scissors, Shape::Paper) => true,
            _ => false,
        }
    }

    /// The shape to play against this one to force `outcome`.
    pub fn get_shape_for_outcome(&self, outcome: RoundOutcome) -> (r: Shape)
        ensures
            r == spec_shape_for_outcome(*self, outcome),
            outcome == RoundOutcome::Draw ==> r == *self,
            outcome == RoundOutcome::Win ==> spec_beats(r, *self),
            outcome == RoundOutcome::Lose ==> spec_beats(*self, r),
    {
        match outcome {
            RoundOutcome::Draw => *self,
            RoundOutcome::Win => match self {
                Shape::Scissors => Shape::Rock,
                Shape::Rock => Shape::Paper,
                Shape::Paper => Shape::Scissors,
            },
            RoundOutcome::Lose => match self {
                Shape::Rock => Shape::Scissors,
                Shape::Paper => Shape::Rock,
                Shape::Scissors => Shape::Paper,
            },
        }
    }
}

impl RoundOutcome {
    /// The outcome a strategy letter demands.
    pub fn from_char(c: char) -> (o: RoundOutcome)
        requires
            outcome_char(c),
        ensures
            o == spec_outcome(c),
    {
        if c == 'X' {
            RoundOutcome::Lose
        } else if c == 'Y' {
            RoundOutcome::Draw
        } else {
            RoundOutcome::Win
        }
    }
}

/// The base value of a shape.
pub open spec fn spec_base_score(s: Shape) -> int {
    match s {
        Shape::Rock => 1,
        Shape::Paper => 2,
        Shape::Scissors => 3,
    }
}

/// `a` beats `b`.
pub open spec fn spec_beats(a: Shape, b: Shape) -> bool {
    (a == Shape::Rock && b == Shape::Scissors) || (a == Shape::Paper && b == Shape::Rock) || (a
        == Shape::Scissors && b == Shape::Paper)
}

/// The shape to play against `theirs` to force `outcome`.
pub open spec fn spec_shape_for_outcome(theirs: Shape, outcome: RoundOutcome) -> Shape {
    match outcome {
        RoundOutcome::Draw => theirs,
        RoundOutcome::Win => match theirs {
            Shape::Scissors => Shape::Rock,
            Shape::Rock => Shape::Paper,
            Shape::Paper => Shape::Scissors,
        },
        RoundOutcome::Lose => match theirs {
            Shape::Rock => Shape::Scissors,
            Shape::Paper => Shape::Rock,
            Shape::Scissors => Shape::Paper,
        },
    }
}

/// The score of one round: the own shape's base value, plus three for a
/// draw and six for a win.
pub open spec fn spec_round_score(theirs: Shape, ours: Shape) -> int {
    spec_base_score(ours) + if theirs == ours {
        3int
    } else if spec_beats(ours, theirs) {
        6int
    } else {
        0int
    }
}

/// The score of one round for the own shape `ours` against `theirs`.
pub fn get_round_score(theirs: Shape, ours: Shape) -> (r: u64)
    ensures
        r == spec_round_score(theirs, ours),
{
    let round_outcome_score: u64 = if theirs == ours {
        3
    } else if ours.is_winning_against(theirs) {
        6
    } else {
        0
    };
    ours.base_score() + round_outcome_score
}

/// A strategy line: a shape letter, a space, and a second letter.
pub open spec fn strategy_line(s: Seq<char>, second_outcome: bool) -> bool {
    &&& s.len() == 3
    &&& (s[0] == 'A' || s[0] == 'B' || s[0] == 'C')
    &&& s[1] == ' '
    &&& if second_outcome {
        outcome_char(s[2])
    } else {
        shape_char(s[2])
    }
}

/// The total score with the second letter read as an own shape.
pub open spec fn spec_part1_sum(lines: Seq<String>, upto: int) -> int
    decreases upto,
{
    if upto <= 0 {
        0
    } else {
        spec_part1_sum(lines, upto - 1) + spec_round_score(
            spec_shape(lines[upto - 1]@[0]),
            spec_shape(lines[upto - 1]@[2]),
        )
    }
}

/// The total score with the second letter read as a demanded outcome.
pub open spec fn spec_part2_sum(lines: Seq<String>, upto: int) -> int
    decreases upto,
{
    if upto <= 0 {
        0
    } else {
        spec_part2_sum(lines, upto - 1) + spec_round_score(
            spec_shape(lines[upto - 1]@[0]),
            spec_shape_for_outcome(
                spec_shape(lines[upto - 1]@[0]),
                spec_outcome(lines[upto - 1]@[2]),
            ),
        )
    }
}

/// Total score of the guide, second letter read as the own shape.
pub fn part1(lines: &Vec<String>) -> (r: u64)
    requires
        forall|i: int| 0 <= i < lines@.len() ==> strategy_line((#[trigger] lines@[i])@, false),
        lines@.len() < 0x1000_0000_0000_0000,
    ensures
        r == spec_part1_sum(lines@, lines@.len() as int),
{
    let n = lines.len();
    let mut score: u64 = 0;
    let mut i: usize = 0;
    while i < n
        invariant
            n == lines@.len(),
            n < 0x1000_0000_0000_0000,
            forall|i2: int| 0 <= i2 < n ==> strategy_line((#[trigger] lines@[i2])@, false),
            i <= n,
            score == spec_part1_sum(lines@, i as int),
            score <= 9 * i,
        decreases n - i,
    {
        let cs = chars_of(lines[i].as_str());
        let theirs = Shape::from_char(cs[0]);
        let ours = Shape::from_char(cs[2]);
        score = score + get_round_score(theirs, ours);
        i = i + 1;
    }
    score
}

/// Total score of the guide, second letter read as the demanded outcome.
pub fn part2(lines: &Vec<String>) -> (r: u64)
    requires
        forall|i: int| 0 <= i < lines@.len() ==> strategy_line((#[trigger] lines@[i])@, true),
        lines@.len() < 0x1000_0000_0000_0000,
    ensures
        r == spec_part2_sum(lines@, lines@.len() as int),
{
    let n = lines.len();
    let mut score: u64 = 0;
    let mut i: usize = 0;
    while i < n
        invariant
            n == lines@.len(),
            n < 0x1000_0000_0000_0000,
            forall|i2: int| 0 <= i2 < n ==> strategy_line((#[trigger] lines@[i2])@, true),
            i <= n,
            score == spec_part2_sum(lines@, i as int),
            score <= 9 * i,
        decreases n - i,
    {
        let cs = chars_of(lines[i].as_str());
        let theirs = Shape::from_char(cs[0]);
        let expected = RoundOutcome::from_char(cs[2]);
        let ours = theirs.get_shape_for_outcome(expected);
        score = score + get_round_score(theirs, ours);
        i = i + 1;
    }
    score
}

} // verus!

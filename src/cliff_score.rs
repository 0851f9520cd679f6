use std::cmp::Ordering;
use vstd::prelude::*;

verus! {

/// The fitness of a candidate under the cliff model: a candidate that fits in
/// the knapsack is scored by its value, and every candidate that does not fit
/// ranks below all candidates that do.
#[derive(Debug, Clone, Copy, PartialEq, Eq, Structural, Ord)]
pub enum CliffScore {
    Overloaded,
    Score(u128),
}

impl CliffScore {
    /// The position of a score on the number line: overloaded scores sit
    /// below every numeric score.
    pub open spec fn rank(self) -> int {
        match self {
            CliffScore::Overloaded => -1,
            CliffScore::Score(n) => n as int,
        }
    }

    /// How two scores compare, by rank.
    pub open spec fn compare(self, other: CliffScore) -> Ordering {
        if self.rank() < other.rank() {
            Ordering::Less
        } else if self.rank() == other.rank() {
            Ordering::Equal
        } else {
            Ordering::Greater
        }
    }
}

impl PartialOrd for CliffScore {
    fn partial_cmp(&self, other: &CliffScore) -> (r: Option<Ordering>)
        ensures
            r == Some(self.compare(*other)),
    {
        match (self, other) {
            (CliffScore::Score(s), CliffScore::Score(o)) => {
                if *s < *o {
                    Some(Ordering::Less)
                } else if *s == *o {
                    Some(Ordering::Equal)
                } else {
                    Some(Ordering::Greater)
                }
            },
            (CliffScore::Score(_), CliffScore::Overloaded) => Some(Ordering::Greater),
            (CliffScore::Overloaded, CliffScore::Score(_)) => Some(Ordering::Less),
            (CliffScore::Overloaded, CliffScore::Overloaded) => Some(Ordering::Equal),
        }
    }
}

impl vstd::std_specs::cmp::PartialOrdSpecImpl for CliffScore {
    open spec fn obeys_partial_cmp_spec() -> bool {
        true
    }

    open spec fn partial_cmp_spec(&self, other: &CliffScore) -> Option<Ordering> {
        Some(self.compare(*other))
    }
}

/// Numeric scores order as their payloads do, and are equal exactly when
/// their payloads are.
pub proof fn lemma_numeric_scores_order(a: u128, b: u128)
    ensures
        (CliffScore::Score(a).compare(CliffScore::Score(b)) == Ordering::Less) <==> a < b,
        (CliffScore::Score(a).compare(CliffScore::Score(b)) == Ordering::Greater) <==> a > b,
        (CliffScore::Score(a) == CliffScore::Score(b)) <==> a == b,
{
}

/// An overloaded score ranks below every numeric score, seen from either side.
pub proof fn lemma_overloaded_below_scores(n: u128)
    ensures
        CliffScore::Overloaded.compare(CliffScore::Score(n)) == Ordering::Less,
        CliffScore::Score(n).compare(CliffScore::Overloaded) == Ordering::Greater,
{
}

/// The comparison of scores is a total order that agrees with `==`: every
/// score equals itself (two overloaded scores are equal), two scores compare
/// equal exactly when they are equal, swapping the operands flips the
/// outcome, any two scores are related one way or the other, and the
/// relation is transitive.
pub proof fn lemma_scores_totally_ordered(a: CliffScore, b: CliffScore, c: CliffScore)
    ensures
        CliffScore::Overloaded == CliffScore::Overloaded,
        a.compare(a) == Ordering::Equal,
        (a.compare(b) == Ordering::Equal) <==> a == b,
        (a.compare(b) == Ordering::Less) <==> (b.compare(a) == Ordering::Greater),
        a.compare(b) == Ordering::Less || a.compare(b) == Ordering::Equal || a.compare(b)
            == Ordering::Greater,
        a.compare(b) == Ordering::Less && b.compare(c) == Ordering::Less ==> a.compare(c)
            == Ordering::Less,
        a.compare(b) != Ordering::Greater && b.compare(c) != Ordering::Greater ==> a.compare(c)
            != Ordering::Greater,
{
}

} // verus!

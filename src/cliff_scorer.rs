use crate::knapsack::{total_value, total_weight, Knapsack};
use vstd::prelude::*;

pub use crate::cliff_score::CliffScore;

verus! {

/// The cliff-model score of a candidate with the given totals against a
/// capacity: overloaded when the weight exceeds the capacity, else the value.
pub open spec fn cliff_score_of(value: int, weight: int, capacity: int) -> CliffScore {
    if weight > capacity {
        CliffScore::Overloaded
    } else {
        CliffScore::Score(value as u128)
    }
}

/// Scores candidates against one knapsack instance that it owns.
#[derive(Debug, Clone)]
pub struct CliffScorer {
    knapsack: Knapsack,
}

impl CliffScorer {
    /// The instance that candidates are scored against.
    pub closed spec fn spec_knapsack(&self) -> Knapsack {
        self.knapsack
    }

    pub fn new(knapsack: Knapsack) -> (r: CliffScorer)
        ensures
            r.spec_knapsack() == knapsack,
    {
        CliffScorer { knapsack }
    }

    /// The score of a candidate: `Overloaded` when the weight of the items it
    /// includes exceeds the capacity, else `Score` of their value. A weight
    /// equal to the capacity fits.
    pub fn score(&self, choices: &[bool]) -> (r: CliffScore)
        ensures
            r == cliff_score_of(
                total_value(self.spec_knapsack().spec_items(), choices@),
                total_weight(self.spec_knapsack().spec_items(), choices@),
                self.spec_knapsack().capacity() as int,
            ),
            (total_weight(self.spec_knapsack().spec_items(), choices@)
                > self.spec_knapsack().capacity()) <==> r is Overloaded,
            r is Score ==> r->0 == total_value(self.spec_knapsack().spec_items(), choices@),
    {
        let value = self.knapsack.value(choices);
        let weight = self.knapsack.weight(choices);
        if weight > self.knapsack.capacity() as u128 {
            CliffScore::Overloaded
        } else {
            CliffScore::Score(value)
        }
    }
}

} // verus!

//! One row of the input table: a team's statistics for one season.

use vstd::prelude::*;

verus! {

/// A parsed statistics row. The numeric attributes are whole numbers;
/// only `wins` enters the edge-weight metric, the others are carried
/// for diagnostics and potential future metrics.
pub struct TeamStats {
    pub team: String,
    pub wins: i32,
    pub losses: i32,
    pub goals: i32,
    pub season: String,
}

/// The weight of the edge between two rows: the absolute difference of
/// their `wins` values, as a mathematical integer.
pub open spec fn spec_edge_weight(a: TeamStats, b: TeamStats) -> int {
    if a.wins >= b.wins {
        a.wins - b.wins
    } else {
        b.wins - a.wins
    }
}

impl TeamStats {
    /// The edge weight toward `other`: |self.wins - other.wins|.
    pub fn calculate_edge_weight(&self, other: &TeamStats) -> (r: i64)
        ensures
            r == spec_edge_weight(*self, *other),
            0 <= r <= 0xffff_ffffi64,
    {
        let a = self.wins as i64;
        let b = other.wins as i64;
        if a >= b {
            a - b
        } else {
            b - a
        }
    }
}

} // verus!

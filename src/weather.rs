use vstd::prelude::*;

verus! {

/// The four seasons of the weather's yearly cycle.
#[derive(Clone, Copy, Debug, PartialEq, Eq, Structural)]
pub enum Season {
    Spring,
    Summer,
    Autumn,
    Winter,
}

/// The season of quarter `q` of the cycle (quarters repeat every four).
pub open spec fn season_spec(q: u64) -> Season {
    if q % 4 == 0 {
        Season::Spring
    } else if q % 4 == 1 {
        Season::Summer
    } else if q % 4 == 2 {
        Season::Autumn
    } else {
        Season::Winter
    }
}

impl Season {
    /// The season of quarter `q` of the yearly cycle, counting from spring.
    pub fn of_quarter(q: u64) -> (r: Season)
        ensures
            r == season_spec(q),
    {
        let m = q % 4;
        if m == 0 {
            Season::Spring
        } else if m == 1 {
            Season::Summer
        } else if m == 2 {
            Season::Autumn
        } else {
            Season::Winter
        }
    }
}

} // verus!

use vstd::prelude::*;

verus! {

/// Kinds of zone a cell may belong to.
#[derive(Clone, Copy, Debug, PartialEq, Eq, Structural)]
pub enum ZoneType {
    /// No zone.
    Open,
    /// Harms hyphae.
    Toxic,
    /// A competitor that consumes nutrients.
    Competitor,
    /// Nutrient-rich deadwood.
    Deadwood,
}

/// A request to advance the simulation: how many ticks, if given.
#[derive(Clone, Copy, Debug, PartialEq, Eq, Structural)]
pub struct StepQuery {
    pub steps: Option<usize>,
}

impl StepQuery {
    /// The number of ticks asked for; one when the request names none.
    pub fn steps_requested(&self) -> (r: usize)
        ensures
            r == match self.steps {
                Some(n) => n,
                None => 1,
            },
    {
        match self.steps {
            Some(n) => n,
            None => 1,
        }
    }
}

/// Live counts of the simulation's collections.
#[derive(Clone, Copy, Debug, PartialEq, Eq, Structural)]
pub struct Census {
    pub hyphae: usize,
    pub spores: usize,
    pub connections: usize,
    pub fruit_bodies: usize,
}

} // verus!

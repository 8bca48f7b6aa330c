//! A verified core for a fungal mycelium growth simulation.
//!
//! The library keeps the discrete structure of the simulation: the population
//! of hyphae with their liveness and parent links, the deduplicated network of
//! connections between them, the spatial hash index used for neighbour
//! queries, grid geometry for diffusion and nutrient injection, and the
//! fruiting trigger's decision logic. The continuous state that each hypha or
//! connection carries is a type parameter, supplied by the caller.

pub mod network;
pub mod colony;
pub mod spatial;
pub mod grid;
pub mod fruiting;
pub mod types;
pub mod weather;

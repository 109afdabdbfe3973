//! CLONALG, an artificial-immune-system metaheuristic, specialized to the
//! Traveling Salesman Problem over a fixed set of cities with a pairwise
//! distance matrix.
//!
//! The engine works on `Path` values (permutations of city indices), ranks
//! them by a fitness capability (lower cost is better), clones the best
//! parents proportionally to rank, hypermutates the clones, and merges
//! survivors back into the population.

use vstd::prelude::*;

pub mod clonalg;
pub mod matrix;
pub mod utils;

verus! {

/// Errors surfaced by the engine. All fitness values are unsigned integers,
/// so comparisons are always total: no incomparable-fitness condition can
/// arise.
#[derive(Clone, Copy, Debug, PartialEq, Eq, Structural)]
pub enum ClonalgError {
    /// A requested subset size exceeds the available population length.
    InvalidSelectionSize,
    /// A mutation was requested on a tour of fewer than two cities.
    DegenerateMutation,
    /// A matrix was built from a side length and entry list that do not
    /// form a square.
    MalformedMatrix,
}

} // verus!

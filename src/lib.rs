//! Roman domination by a genetic algorithm: a graph with four greedy seeding
//! heuristics, feasibility checking and repair of labelings, and an engine that
//! evolves a population of labelings toward a minimal-weight Roman dominating
//! function.
use vstd::prelude::*;

pub mod genetic_algorithm;
pub mod graph;
pub mod heuristics;
pub mod labeling;
pub mod random;
pub mod seqs;

pub use genetic_algorithm::{tournament_winner, crossover_at, RomanDominationGA, Solution};
pub use graph::{Graph, MAX_VERTICES};
pub use random::RandomSource;

verus! {

} // verus!

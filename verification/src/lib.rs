//! An ant-colony search for low-cost Hamiltonian cycles over a weighted
//! graph, with a verified core: deterministic greedy baseline, stochastic
//! path construction over a shared pheromone trail, elitist trail updates
//! with clamping, stagnation handling, and best-solution tracking.
//!
//! All weights, costs and trail strengths are fixed-point integers, so the
//! numeric behaviour of every step is stated exactly in the contracts.

pub mod agent;
pub mod colony;
pub mod graph;
pub mod input;
pub mod params;
pub mod pheromone;
pub mod rng;
pub mod sampling;
pub mod stagnation;
pub mod tracker;

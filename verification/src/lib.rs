//! An ant-colony optimiser and a deterministic local-search engine for the
//! Euclidean travelling-salesman problem.
//!
//! All geometry and all pheromone bookkeeping are carried out in milli-unit
//! fixed point (one unit is `fixed::SCALE` milli-units), so every quantity the
//! engine computes is an exact integer and every contract states the exact
//! value produced.

pub mod cities;
pub mod cycle;
pub mod edges;
pub mod instance;
pub mod fixed;
pub mod parameters;
pub mod universe;

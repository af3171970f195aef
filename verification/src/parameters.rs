//! The classic parameter set of the ant-colony optimiser, with its
//! documented defaults, in milli-unit fixed point.

use vstd::prelude::*;

use crate::fixed::SCALE;

verus! {

/// Largest admissible pheromone constant `Q`, in milli-units: keeps the
/// deposit computation `Q * SCALE` inside `u64`.
pub const DISTANCE_CONSTANT_MAX: u64 = 1000000000000000;

/// Immutable configuration of one solve.
///
/// `trail_importance` is the exponent applied to an edge's pheromone trail
/// and `distance_importance` the exponent applied to its inverse distance;
/// `distance_constant` (milli-units) scales deposits, `trail_decay`
/// (milli-units of one, so at most `SCALE`) is the per-round evaporation
/// share, and `max_cycles` is the fixed cycle budget.
#[derive(Clone, Copy, Debug, PartialEq, Eq, Structural)]
pub struct Parameters {
    pub trail_importance: u32,
    pub distance_importance: u32,
    pub distance_constant: u64,
    pub trail_decay: u64,
    pub max_cycles: usize,
}

impl Parameters {
    /// All parameters inside their documented domains.
    pub open spec fn wf(self) -> bool {
        &&& 1 <= self.distance_constant <= DISTANCE_CONSTANT_MAX
        &&& self.trail_decay <= SCALE
        &&& self.max_cycles >= 1
    }
}

impl Default for Parameters {
    /// The documented defaults: trail exponent one, inverse-distance
    /// exponent five, `Q` of one hundred units, half decay, five hundred
    /// cycles.
    fn default() -> (r: Self)
        ensures
            r == (Parameters {
                trail_importance: 1u32,
                distance_importance: 5u32,
                distance_constant: 100000u64,
                trail_decay: 500u64,
                max_cycles: 500usize,
            }),
            r.wf(),
    {
        Parameters {
            trail_importance: 1,
            distance_importance: 5,
            distance_constant: 100000,
            trail_decay: 500,
            max_cycles: 500,
        }
    }
}

} // verus!

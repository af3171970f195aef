//! The configuration of the ant-colony universe. The solver itself also
//! lives here and drives construction rounds against one shared distance
//! store.

use vstd::prelude::*;

use crate::cities::{City, DIST_MAX};
use crate::cycle::{
    copied_tour, is_closed_tour, lemma_closed_tour_legs_distinct, lemma_path_len_congruence,
    path_len, trail_reinforced, Cycle, CycleResult,
};
use crate::edges::{Edges, N_MAX};
use crate::fixed::SCALE;
use crate::parameters::DISTANCE_CONSTANT_MAX;

verus! {

/// Immutable configuration of the ant-colony universe; the fields mirror
/// [`crate::parameters::Parameters`].
#[derive(Clone, Copy, Debug, PartialEq, Eq, Structural)]
pub struct UniverseParams {
    pub trail_importance: u32,
    pub distance_importance: u32,
    pub distance_constant: u64,
    pub trail_decay: u64,
    pub max_cycles: usize,
}

impl UniverseParams {
    /// All parameters inside their documented domains.
    pub open spec fn wf(self) -> bool {
        &&& 1 <= self.distance_constant <= DISTANCE_CONSTANT_MAX
        &&& self.trail_decay <= SCALE
        &&& self.max_cycles >= 1
    }
}

impl Default for UniverseParams {
    /// The documented defaults: trail exponent one, inverse-distance
    /// exponent five, `Q` of one hundred units, half decay, five hundred
    /// cycles.
    fn default() -> (r: Self)
        ensures
            r == (UniverseParams {
                trail_importance: 1u32,
                distance_importance: 5u32,
                distance_constant: 100000u64,
                trail_decay: 500u64,
                max_cycles: 500usize,
            }),
            r.wf(),
    {
        UniverseParams {
            trail_importance: 1,
            distance_importance: 5,
            distance_constant: 100000,
            trail_decay: 500,
            max_cycles: 500,
        }
    }
}

/// A configuration rejected at construction time, before any round runs.
#[derive(Clone, Copy, Debug, PartialEq, Eq, Structural)]
pub enum ConfigError {
    /// Fewer than two cities were supplied.
    TooFewCities,
    /// More cities than the store can index.
    TooManyCities,
    /// A coordinate magnitude beyond the admissible range.
    CoordinateOutOfRange,
    /// A pheromone constant of zero, or one beyond its admissible range.
    InvalidDistanceConstant,
    /// A decay share of more than the whole.
    InvalidTrailDecay,
    /// A cycle budget of zero.
    InvalidMaxCycles,
}

/// An admissible problem instance: enough cities, all in bounds, and
/// parameters inside their domains.
pub open spec fn config_ok(cities: Seq<City>, p: UniverseParams) -> bool {
    &&& 2 <= cities.len() <= N_MAX
    &&& forall|k: int| 0 <= k < cities.len() ==> (#[trigger] cities[k]).in_bounds()
    &&& p.wf()
}

/// The first configuration fault found, in the fixed order in which the
/// constructor checks them.
pub open spec fn first_config_error(cities: Seq<City>, p: UniverseParams) -> ConfigError {
    if cities.len() < 2 {
        ConfigError::TooFewCities
    } else if cities.len() > N_MAX {
        ConfigError::TooManyCities
    } else if exists|k: int| 0 <= k < cities.len() && !(#[trigger] cities[k]).in_bounds() {
        ConfigError::CoordinateOutOfRange
    } else if p.distance_constant < 1 || p.distance_constant > DISTANCE_CONSTANT_MAX {
        ConfigError::InvalidDistanceConstant
    } else if p.trail_decay > SCALE {
        ConfigError::InvalidTrailDecay
    } else {
        ConfigError::InvalidMaxCycles
    }
}

/// The top-level solver: it owns the distance store, runs construction
/// rounds against it, and tracks the best tour seen across rounds.
#[derive(Debug)]
pub struct Universe {
    pub cities: Vec<City>,
    pub edges: Edges,
    pub params: UniverseParams,
    pub best: Option<CycleResult>,
    pub cycles_done: usize,
}

impl Universe {
    /// A well-formed solver: the store matches the cities, the budget is
    /// respected, and the best result, once there is one, is a closed tour
    /// with its exact length.
    pub open spec fn wf(self) -> bool {
        &&& self.edges.wf()
        &&& self.edges.n() == self.cities@.len()
        &&& self.params.wf()
        &&& self.cycles_done <= self.params.max_cycles
        &&& self.cycles_done >= 1 ==> self.best is Some
        &&& match self.best {
            Option::Some(b) => {
                &&& is_closed_tour(b.shortest_tour@, self.edges.n())
                &&& b.shortest_length == path_len(b.shortest_tour@, self.edges)
                &&& b.shortest_length <= self.edges.n() * (DIST_MAX as int)
            },
            Option::None => true,
        }
    }

    /// Build a solver over the given cities, rejecting every inadmissible
    /// configuration before any round runs: the result is an error exactly
    /// when the instance is not admissible, and it is the first fault
    /// found.
    pub fn new(cities: Vec<City>, params: UniverseParams) -> (r: Result<Universe, ConfigError>)
        ensures
            r is Ok <==> config_ok(cities@, params),
            match r {
                Result::Ok(u) => {
                    &&& u.wf()
                    &&& u.cities@ == cities@
                    &&& u.params == params
                    &&& u.cycles_done == 0
                    &&& u.best is None
                    &&& u.edges.n() == cities@.len()
                    &&& forall|i: int, j: int|
                        0 <= i < cities@.len() && 0 <= j < cities@.len() && i != j
                            ==> (#[trigger] u.edges.spec_get(i, j)).distance == cities@[i].dist_spec(
                            cities@[j],
                        ) && u.edges.spec_get(i, j).trail == 0 && u.edges.spec_get(
                            i,
                            j,
                        ).trail_delta == 0
                },
                Result::Err(e) => e == first_config_error(cities@, params),
            },
    {
        if cities.len() < 2 {
            return Err(ConfigError::TooFewCities);
        }
        if cities.len() > N_MAX {
            return Err(ConfigError::TooManyCities);
        }
        let mut k: usize = 0;
        while k < cities.len()
            invariant
                k <= cities@.len(),
                2 <= cities@.len() <= N_MAX,
                forall|m: int| 0 <= m < k ==> (#[trigger] cities@[m]).in_bounds(),
            decreases cities@.len() - k,
        {
            let c = cities[k];
            if c.x < -1000000000 || c.x > 1000000000 || c.y < -1000000000 || c.y > 1000000000 {
                proof {
                    assert(!cities@[k as int].in_bounds());
                }
                return Err(ConfigError::CoordinateOutOfRange);
            }
            k = k + 1;
        }
        if params.distance_constant < 1 || params.distance_constant > DISTANCE_CONSTANT_MAX {
            return Err(ConfigError::InvalidDistanceConstant);
        }
        if params.trail_decay > SCALE {
            return Err(ConfigError::InvalidTrailDecay);
        }
        if params.max_cycles < 1 {
            return Err(ConfigError::InvalidMaxCycles);
        }
        let edges = Edges::new(cities.as_slice());
        proof {
            assert forall|i: int, j: int|
                0 <= i < cities@.len() && 0 <= j < cities@.len() && i != j implies (
            #[trigger] edges.spec_get(i, j)).distance == cities@[i].dist_spec(cities@[j])
                && edges.spec_get(i, j).trail == 0 && edges.spec_get(i, j).trail_delta == 0 by {
                crate::cities::lemma_dist_spec_bound(cities@[i], cities@[j]);
            }
        }
        Ok(Universe { cities, edges, params, best: None, cycles_done: 0 })
    }

    /// Advance by one construction round: run it to completion against the
    /// shared store, count it, and keep the round's result as the best if
    /// it is strictly shorter than the best so far. The second component
    /// reports whether the cycle budget is now exhausted.
    pub fn run_cycle(&mut self) -> (r: (CycleResult, bool))
        requires
            old(self).wf(),
            old(self).cycles_done < old(self).params.max_cycles,
        ensures
            final(self).wf(),
            final(self).cities == old(self).cities,
            final(self).params == old(self).params,
            final(self).cycles_done == old(self).cycles_done + 1,
            r.1 == (old(self).cycles_done + 1 == old(self).params.max_cycles),
            is_closed_tour(r.0.shortest_tour@, old(self).edges.n()),
            r.0.shortest_length == path_len(r.0.shortest_tour@, final(self).edges),
            r.0.shortest_length <= old(self).edges.n() * (DIST_MAX as int),
            forall|k: int|
                0 <= k < old(self).edges.edges@.len()
                    ==> (#[trigger] final(self).edges.edges@[k]).trail_delta == 0,
            forall|k: int|
                0 <= k < old(self).edges.edges@.len()
                    ==> (#[trigger] final(self).edges.edges@[k]).distance
                    == old(self).edges.edges@[k].distance,
            forall|k: int|
                0 <= k < old(self).edges.edges@.len() ==> trail_reinforced(
                    old(self).edges.edges@[k],
                    #[trigger] final(self).edges.edges@[k],
                    old(self).params.trail_decay as int,
                ),
            final(self).best is Some,
            match (old(self).best, final(self).best) {
                (Option::None, Option::Some(nb)) => nb.shortest_tour@ == r.0.shortest_tour@
                    && nb.shortest_length == r.0.shortest_length,
                (Option::Some(ob), Option::Some(nb)) => {
                    if r.0.shortest_length < ob.shortest_length {
                        nb.shortest_tour@ == r.0.shortest_tour@ && nb.shortest_length
                            == r.0.shortest_length
                    } else {
                        nb.shortest_tour@ == ob.shortest_tour@ && nb.shortest_length
                            == ob.shortest_length
                    }
                },
                _ => false,
            },
    {
        let round = Cycle::new(&self.edges, &self.params);
        let ghost pre_edges = self.edges;
        let result = round.complete(&mut self.edges);
        proof {
            match old(self).best {
                Option::Some(b) => {
                    lemma_closed_tour_legs_distinct(b.shortest_tour@, old(self).edges.n());
                    lemma_path_len_congruence(
                        b.shortest_tour@,
                        pre_edges,
                        self.edges,
                        pre_edges.n() as int,
                    );
                },
                Option::None => {},
            }
        }
        let keep_new: bool = match &self.best {
            Option::None => true,
            Option::Some(b) => result.shortest_length < b.shortest_length,
        };
        if keep_new {
            let copy = CycleResult {
                shortest_tour: copied_tour(&result.shortest_tour),
                shortest_length: result.shortest_length,
            };
            self.best = Some(copy);
        }
        self.cycles_done = self.cycles_done + 1;
        let done: bool = self.cycles_done >= self.params.max_cycles;
        (result, done)
    }

    /// Run the remaining budget to completion and return the best result
    /// seen over the whole run.
    pub fn solve(&mut self) -> (r: CycleResult)
        requires
            old(self).wf(),
        ensures
            final(self).wf(),
            final(self).cities == old(self).cities,
            final(self).params == old(self).params,
            final(self).cycles_done == old(self).params.max_cycles,
            old(self).cycles_done < old(self).params.max_cycles ==> forall|k: int|
                0 <= k < final(self).edges.edges@.len()
                    ==> (#[trigger] final(self).edges.edges@[k]).trail_delta == 0,
            is_closed_tour(r.shortest_tour@, old(self).edges.n()),
            r.shortest_length == path_len(r.shortest_tour@, final(self).edges),
            r.shortest_length <= old(self).edges.n() * (DIST_MAX as int),
            match final(self).best {
                Option::Some(b) => r.shortest_tour@ == b.shortest_tour@ && r.shortest_length
                    == b.shortest_length,
                Option::None => false,
            },
    {
        while self.cycles_done < self.params.max_cycles
            invariant
                self.wf(),
                self.cities == old(self).cities,
                self.params == old(self).params,
                self.edges.n() == old(self).edges.n(),
                forall|k: int|
                    0 <= k < old(self).edges.edges@.len() ==> (#[trigger] self.edges.edges@[k]).distance
                        == old(self).edges.edges@[k].distance,
                self.edges.edges@.len() == old(self).edges.edges@.len(),
                self.cycles_done > old(self).cycles_done ==> forall|k: int|
                    0 <= k < self.edges.edges@.len() ==> (#[trigger] self.edges.edges@[k]).trail_delta
                        == 0,
            decreases self.params.max_cycles - self.cycles_done,
        {
            self.run_cycle();
        }
        match &self.best {
            Option::Some(b) => {
                let r = CycleResult {
                    shortest_tour: copied_tour(&b.shortest_tour),
                    shortest_length: b.shortest_length,
                };
                r
            },
            Option::None => {
                proof {
                    assert(false);
                }
                CycleResult { shortest_tour: Vec::new(), shortest_length: 0 }
            },
        }
    }

    /// The cities of this instance, for the host to read.
    pub fn get_cities(&self) -> (r: &Vec<City>)
        ensures
            r@ == self.cities@,
    {
        &self.cities
    }

    /// The current pheromone trail of every edge, in the triangular layout
    /// of the store, for the host to read.
    pub fn get_trails(&self) -> (r: Vec<u64>)
        requires
            self.wf(),
        ensures
            r@.len() == self.edges.edges@.len(),
            forall|k: int|
                0 <= k < r@.len() ==> (#[trigger] r@[k]) == self.edges.edges@[k].trail,
    {
        let mut r: Vec<u64> = Vec::new();
        let mut k: usize = 0;
        let len: usize = self.edges.edges.len();
        while k < len
            invariant
                k <= len,
                len == self.edges.edges@.len(),
                r@.len() == k,
                forall|m: int|
                    0 <= m < k ==> (#[trigger] r@[m]) == self.edges.edges@[m].trail,
            decreases len - k,
        {
            r.push(self.edges.edges[k].trail);
            k = k + 1;
        }
        r
    }
}

} // verus!

//! The distance store: every unordered pair of cities is mapped by the
//! lower-triangular flattening to one slot of a packed vector, and each slot
//! carries the fixed distance together with the mutable pheromone trail and
//! the pending trail delta of the pair.

use vstd::prelude::*;

use crate::cities::{lemma_dist_spec_bound, lemma_distance_symmetric, City, DIST_MAX};
use crate::fixed::{sat64, SCALE};

verus! {

/// Largest admissible number of cities: keeps the flattened pair index well
/// inside `usize` on every platform.
pub const N_MAX: usize = 40000;

/// The n-th triangular number.
pub open spec fn tri(n: int) -> int
    decreases n,
{
    if n <= 0 {
        0
    } else {
        tri(n - 1) + n
    }
}

/// Number of stored edges for `n` cities: one per unordered pair.
pub open spec fn num_edges(n: int) -> int {
    tri(n - 1)
}

/// The flattened lower-triangular index of the unordered pair `{i, j}`.
pub open spec fn pair_index(i: int, j: int) -> int {
    if i > j {
        tri(i - 1) + j
    } else {
        tri(j - 1) + i
    }
}

pub proof fn lemma_tri_nonneg(n: int)
    ensures
        tri(n) >= 0,
    decreases n,
{
    if n > 0 {
        lemma_tri_nonneg(n - 1);
    }
}

pub proof fn lemma_tri_mono(a: int, b: int)
    requires
        a <= b,
    ensures
        tri(a) <= tri(b),
    decreases b - a,
{
    if a < b {
        lemma_tri_mono(a, b - 1);
        if b > 0 {
            lemma_tri_nonneg(b - 1);
        }
    }
}

/// The recursive triangular number agrees with the closed form, so the pair
/// count for `n` cities is exactly `n * (n - 1) / 2`.
pub proof fn lemma_num_edges_closed_form(n: int)
    requires
        n >= 1,
    ensures
        num_edges(n) == n * (n - 1) / 2,
    decreases n,
{
    if n == 1 {
    } else {
        lemma_num_edges_closed_form(n - 1);
        assert((n - 1) * (n - 2) / 2 + (n - 1) == n * (n - 1) / 2) by (nonlinear_arith)
            requires
                n >= 2;
    }
}

/// The flattened index of every valid pair lands inside the packed vector.
pub proof fn lemma_pair_index_in_range(n: int, i: int, j: int)
    requires
        0 <= i < n,
        0 <= j < n,
        i != j,
    ensures
        0 <= pair_index(i, j) < num_edges(n),
{
    let hi = if i > j { i } else { j };
    let lo = if i > j { j } else { i };
    lemma_tri_nonneg(hi - 1);
    lemma_tri_mono(hi, n - 1);
}

proof fn lemma_ordered_index_lt(a1: int, b1: int, a2: int, b2: int)
    requires
        0 <= b1 < a1,
        0 <= b2 < a2,
        a1 < a2,
    ensures
        tri(a1 - 1) + b1 < tri(a2 - 1) + b2,
{
    lemma_tri_mono(a1, a2 - 1);
}

/// The flattened lower-triangular indexing is collision-free: two pairs that
/// share a slot are the same unordered pair.
pub proof fn lemma_pair_index_bijective(i1: int, j1: int, i2: int, j2: int)
    requires
        0 <= i1,
        0 <= j1,
        0 <= i2,
        0 <= j2,
        i1 != j1,
        i2 != j2,
        pair_index(i1, j1) == pair_index(i2, j2),
    ensures
        (i1 == i2 && j1 == j2) || (i1 == j2 && j1 == i2),
{
    let a1 = if i1 > j1 { i1 } else { j1 };
    let b1 = if i1 > j1 { j1 } else { i1 };
    let a2 = if i2 > j2 { i2 } else { j2 };
    let b2 = if i2 > j2 { j2 } else { i2 };
    if a1 < a2 {
        lemma_ordered_index_lt(a1, b1, a2, b2);
    }
    if a2 < a1 {
        lemma_ordered_index_lt(a2, b2, a1, b1);
    }
}

/// One unordered pair of cities: the distance fixed at construction, the
/// active pheromone trail, and the deposit pending until the next decay.
#[derive(Clone, Copy, Debug, PartialEq, Eq, Structural)]
pub struct Edge {
    pub distance: u64,
    pub trail: u64,
    pub trail_delta: u64,
}

/// The symmetric distance and pheromone store over all city pairs.
#[derive(Clone, Debug)]
pub struct Edges {
    pub n_cities: usize,
    pub edges: Vec<Edge>,
}

/// The trail that an edge carries after one decay step: the surviving share
/// of the old trail plus the whole pending delta, clamped to `u64`.
pub open spec fn decayed_trail(e: Edge, trail_decay: int) -> int {
    sat64(e.trail * (SCALE as int - trail_decay) / (SCALE as int) + e.trail_delta)
}

impl Edges {
    pub open spec fn n(self) -> int {
        self.n_cities as int
    }

    /// Well-formed store: a packed vector of exactly one slot per unordered
    /// pair, every distance within the geometric bound.
    pub open spec fn wf(self) -> bool {
        &&& 2 <= self.n_cities <= N_MAX
        &&& self.edges@.len() == num_edges(self.n())
        &&& forall|k: int|
            0 <= k < self.edges@.len() ==> (#[trigger] self.edges@[k]).distance <= DIST_MAX
    }

    /// The edge stored for the unordered pair `{i, j}`.
    pub open spec fn spec_get(self, i: int, j: int) -> Edge {
        self.edges@[pair_index(i, j)]
    }

    /// Build the store for the given cities: all pairwise distances are
    /// computed once, all trails and deltas start at zero.
    pub fn new(cities: &[City]) -> (r: Edges)
        requires
            2 <= cities@.len() <= N_MAX,
            forall|k: int| 0 <= k < cities@.len() ==> (#[trigger] cities@[k]).in_bounds(),
        ensures
            r.wf(),
            r.n() == cities@.len(),
            r.edges@.len() == cities@.len() * (cities@.len() - 1) / 2,
            forall|i: int, j: int|
                0 <= i < cities@.len() && 0 <= j < cities@.len() && i != j ==> (#[trigger] r.spec_get(
                    i,
                    j,
                )) == (Edge {
                    distance: cities@[i].dist_spec(cities@[j]) as u64,
                    trail: 0,
                    trail_delta: 0,
                }),
            forall|i: int, j: int|
                0 <= i < cities@.len() && 0 <= j < cities@.len() && i != j
                    ==> (#[trigger] r.spec_get(i, j)).distance == cities@[i].dist_spec(cities@[j]),
    {
        let n: usize = cities.len();
        let mut edges: Vec<Edge> = Vec::new();
        let mut i: usize = 1;
        while i < n
            invariant
                1 <= i <= n,
                n == cities@.len(),
                2 <= n <= N_MAX,
                forall|k: int| 0 <= k < n ==> (#[trigger] cities@[k]).in_bounds(),
                edges@.len() == tri(i - 1),
                forall|a: int, b: int|
                    0 <= b < a < i ==> #[trigger] edges@[pair_index(a, b)] == (Edge {
                        distance: cities@[a].dist_spec(cities@[b]) as u64,
                        trail: 0,
                        trail_delta: 0,
                    }),
                forall|k: int|
                    0 <= k < edges@.len() ==> (#[trigger] edges@[k]).distance <= DIST_MAX,
            decreases n - i,
        {
            let mut j: usize = 0;
            while j < i
                invariant
                    0 <= j <= i < n,
                    n == cities@.len(),
                    2 <= n <= N_MAX,
                    forall|k: int| 0 <= k < n ==> (#[trigger] cities@[k]).in_bounds(),
                    edges@.len() == tri(i - 1) + j,
                    forall|a: int, b: int|
                        0 <= b < a < i ==> #[trigger] edges@[pair_index(a, b)] == (Edge {
                            distance: cities@[a].dist_spec(cities@[b]) as u64,
                            trail: 0,
                            trail_delta: 0,
                        }),
                    forall|b: int|
                        0 <= b < j ==> #[trigger] edges@[pair_index(i as int, b)] == (Edge {
                            distance: cities@[i as int].dist_spec(cities@[b]) as u64,
                            trail: 0,
                            trail_delta: 0,
                        }),
                    forall|k: int|
                        0 <= k < edges@.len() ==> (#[trigger] edges@[k]).distance <= DIST_MAX,
                decreases i - j,
            {
                proof {
                    lemma_tri_nonneg(i - 1);
                }
                let d: u64 = cities[i].distance(&cities[j]);
                let ghost pre = edges@;
                edges.push(Edge { distance: d, trail: 0, trail_delta: 0 });
                proof {
                    assert forall|a: int, b: int| 0 <= b < a < i implies #[trigger] edges@[pair_index(
                        a,
                        b,
                    )] == (Edge {
                        distance: cities@[a].dist_spec(cities@[b]) as u64,
                        trail: 0,
                        trail_delta: 0,
                    }) by {
                        lemma_tri_nonneg(a - 1);
                        lemma_ordered_index_lt(a, b, i as int, j as int);
                        assert(edges@[pair_index(a, b)] == pre[pair_index(a, b)]);
                    }
                    assert forall|b: int| 0 <= b < j + 1 implies #[trigger] edges@[pair_index(
                        i as int,
                        b,
                    )] == (Edge {
                        distance: cities@[i as int].dist_spec(cities@[b]) as u64,
                        trail: 0,
                        trail_delta: 0,
                    }) by {
                        if b < j {
                            assert(edges@[pair_index(i as int, b)] == pre[pair_index(i as int, b)]);
                        } else {
                            assert(pair_index(i as int, b) == tri(i - 1) + j);
                        }
                    }
                }
                j = j + 1;
            }
            i = i + 1;
        }
        proof {
            assert(tri(n - 1) == num_edges(n as int));
            lemma_num_edges_closed_form(n as int);
        }
        let r = Edges { n_cities: n, edges };
        proof {
            assert forall|i2: int, j2: int|
                0 <= i2 < cities@.len() && 0 <= j2 < cities@.len() && i2 != j2 implies (
            #[trigger] r.spec_get(i2, j2)) == (Edge {
                distance: cities@[i2].dist_spec(cities@[j2]) as u64,
                trail: 0,
                trail_delta: 0,
            }) by {
                lemma_dist_spec_bound(cities@[i2], cities@[j2]);
                lemma_pair_index_in_range(n as int, i2, j2);
                if i2 < j2 {
                    lemma_distance_symmetric(cities@[i2], cities@[j2]);
                    assert(r.edges@[pair_index(j2, i2)] == (Edge {
                        distance: cities@[j2].dist_spec(cities@[i2]) as u64,
                        trail: 0,
                        trail_delta: 0,
                    }));
                } else {
                    assert(r.edges@[pair_index(i2, j2)] == (Edge {
                        distance: cities@[i2].dist_spec(cities@[j2]) as u64,
                        trail: 0,
                        trail_delta: 0,
                    }));
                }
            }
            assert forall|i2: int, j2: int|
                0 <= i2 < cities@.len() && 0 <= j2 < cities@.len() && i2 != j2 implies (
            #[trigger] r.spec_get(i2, j2)).distance == cities@[i2].dist_spec(cities@[j2]) by {
                lemma_dist_spec_bound(cities@[i2], cities@[j2]);
                assert(r.spec_get(i2, j2) == (Edge {
                    distance: cities@[i2].dist_spec(cities@[j2]) as u64,
                    trail: 0,
                    trail_delta: 0,
                }));
            }
        }
        r
    }

    /// The packed slot of the unordered pair `{i, j}`.
    pub fn edge_index(&self, i: usize, j: usize) -> (r: usize)
        requires
            self.wf(),
            i < self.n(),
            j < self.n(),
            i != j,
        ensures
            r == pair_index(i as int, j as int),
            r < self.edges@.len(),
    {
        let (hi, lo): (usize, usize) = if i > j {
            (i, j)
        } else {
            (j, i)
        };
        proof {
            lemma_pair_index_in_range(self.n(), i as int, j as int);
            lemma_num_edges_closed_form(hi as int);
            lemma_tri_mono(hi as int, self.n() - 1);
            lemma_num_edges_closed_form(self.n());
            assert(hi * (hi - 1) / 2 == tri(hi - 1));
            assert(hi * (hi - 1) <= N_MAX * N_MAX) by (nonlinear_arith)
                requires
                    0 < hi <= N_MAX;
        }
        hi * (hi - 1) / 2 + lo
    }

    /// The edge record of the unordered pair `{i, j}`; there is no edge from
    /// a city to itself, so `i != j` is demanded of every caller.
    pub fn get(&self, i: usize, j: usize) -> (r: Edge)
        requires
            self.wf(),
            i < self.n(),
            j < self.n(),
            i != j,
        ensures
            r == self.spec_get(i as int, j as int),
    {
        let k: usize = self.edge_index(i, j);
        self.edges[k]
    }

    /// All neighbours of city `i`: the pairs `(j, edge)` for every `j != i`,
    /// in ascending order of `j`.
    pub fn adjacent(&self, i: usize) -> (r: Vec<(usize, Edge)>)
        requires
            self.wf(),
            i < self.n(),
        ensures
            r@.len() == self.n() - 1,
            forall|m: int|
                0 <= m < r@.len() ==> (#[trigger] r@[m]).0 == (if m < i {
                    m
                } else {
                    m + 1
                }),
            forall|m: int|
                0 <= m < r@.len() ==> (#[trigger] r@[m]).1 == self.spec_get(i as int, r@[m].0 as int),
    {
        let n: usize = self.n_cities;
        let mut r: Vec<(usize, Edge)> = Vec::new();
        let mut j: usize = 0;
        while j < n
            invariant
                j <= n,
                n == self.n_cities,
                self.wf(),
                i < n,
                r@.len() == (if j <= i {
                    j as int
                } else {
                    j - 1
                }),
                forall|m: int|
                    0 <= m < r@.len() ==> (#[trigger] r@[m]).0 == (if m < i {
                        m
                    } else {
                        m + 1
                    }),
                forall|m: int|
                    0 <= m < r@.len() ==> (#[trigger] r@[m]).1 == self.spec_get(
                        i as int,
                        r@[m].0 as int,
                    ),
            decreases n - j,
        {
            if j != i {
                let e: Edge = self.get(i, j);
                r.push((j, e));
            }
            j = j + 1;
        }
        r
    }

    /// Accumulate a pheromone deposit for the pair `{i, j}` into its pending
    /// delta; the active trail is untouched until the next decay.
    pub fn add_trail_delta(&mut self, i: usize, j: usize, amount: u64)
        requires
            old(self).wf(),
            i < old(self).n(),
            j < old(self).n(),
            i != j,
        ensures
            final(self).wf(),
            final(self).n_cities == old(self).n_cities,
            final(self).edges@.len() == old(self).edges@.len(),
            forall|k: int|
                0 <= k < old(self).edges@.len() && k != pair_index(i as int, j as int)
                    ==> #[trigger] final(self).edges@[k] == old(self).edges@[k],
            final(self).spec_get(i as int, j as int).distance == old(self).spec_get(
                i as int,
                j as int,
            ).distance,
            final(self).spec_get(i as int, j as int).trail == old(self).spec_get(
                i as int,
                j as int,
            ).trail,
            final(self).spec_get(i as int, j as int).trail_delta == sat64(
                old(self).spec_get(i as int, j as int).trail_delta + amount,
            ),
    {
        let k: usize = self.edge_index(i, j);
        let e: Edge = self.edges[k];
        let new_delta: u64 = if e.trail_delta > u64::MAX - amount {
            u64::MAX
        } else {
            e.trail_delta + amount
        };
        self.edges.set(k, Edge { distance: e.distance, trail: e.trail, trail_delta: new_delta });
    }

    /// One decay pass: on every edge the trail loses its decayed share and
    /// absorbs the whole pending delta, and the delta is reset to zero.
    pub fn apply_decay(&mut self, trail_decay: u64)
        requires
            old(self).wf(),
            trail_decay <= SCALE,
        ensures
            final(self).wf(),
            final(self).n_cities == old(self).n_cities,
            final(self).edges@.len() == old(self).edges@.len(),
            forall|k: int|
                0 <= k < old(self).edges@.len() ==> (#[trigger] final(self).edges@[k]).distance
                    == old(self).edges@[k].distance,
            forall|k: int|
                0 <= k < old(self).edges@.len() ==> (#[trigger] final(self).edges@[k]).trail
                    == decayed_trail(old(self).edges@[k], trail_decay as int),
            forall|k: int|
                0 <= k < old(self).edges@.len() ==> (#[trigger] final(self).edges@[k]).trail_delta
                    == 0,
    {
        let len: usize = self.edges.len();
        let keep: u64 = SCALE - trail_decay;
        let mut k: usize = 0;
        while k < len
            invariant
                k <= len,
                len == self.edges@.len(),
                len == old(self).edges@.len(),
                self.n_cities == old(self).n_cities,
                self.wf(),
                keep == SCALE - trail_decay,
                keep <= SCALE,
                forall|m: int|
                    k <= m < len ==> #[trigger] self.edges@[m] == old(self).edges@[m],
                forall|m: int|
                    0 <= m < k ==> (#[trigger] self.edges@[m]).distance == old(
                        self,
                    ).edges@[m].distance,
                forall|m: int|
                    0 <= m < k ==> (#[trigger] self.edges@[m]).trail == decayed_trail(
                        old(self).edges@[m],
                        trail_decay as int,
                    ),
                forall|m: int|
                    0 <= m < k ==> (#[trigger] self.edges@[m]).trail_delta == 0,
            decreases len - k,
        {
            let e: Edge = self.edges[k];
            proof {
                assert((e.trail as int) * (keep as int) <= (u64::MAX as int) * (SCALE as int))
                    by (nonlinear_arith)
                    requires
                        0 <= e.trail as int <= u64::MAX as int,
                        0 <= keep as int <= SCALE as int;
            }
            let wide: u128 = (e.trail as u128) * (keep as u128) / (SCALE as u128) + (e.trail_delta
                as u128);
            let new_trail: u64 = if wide > u64::MAX as u128 {
                u64::MAX
            } else {
                wide as u64
            };
            self.edges.set(k, Edge { distance: e.distance, trail: new_trail, trail_delta: 0 });
            k = k + 1;
        }
    }
}

/// The store is symmetric: the unordered pair `{i, j}` has one record, so
/// both orders read the same edge and the same distance.
pub proof fn lemma_spec_get_symmetric(e: Edges, i: int, j: int)
    ensures
        e.spec_get(i, j) == e.spec_get(j, i),
{
}

/// A pheromone trail is never negative: it is carried as an unsigned
/// fixed-point number, whatever deposits and decay steps were applied.
pub proof fn lemma_trails_nonnegative(e: Edges)
    ensures
        forall|k: int| 0 <= k < e.edges@.len() ==> 0 <= (#[trigger] e.edges@[k]).trail,
{
}

} // verus!

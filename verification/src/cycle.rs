//! One construction round of the ant colony: a population of agents, one
//! per city, extends its tours turn by turn with a roulette-wheel draw over
//! desirability weights, then deposits pheromone in proportion to tour
//! quality and applies one decay pass.
//!
//! Two conventions are fixed here deliberately. Desirability uses the
//! inverse distance, so nearer cities are more attractive; and every
//! weight carries a constant positive term, so the candidate mass is
//! provably positive whenever unvisited cities remain and the degenerate
//! zero-mass turn cannot arise.

use vstd::prelude::*;
use vstd::seq_lib::*;
use vstd::set_lib::*;

use crate::edges::{decayed_trail, Edges, Edge, N_MAX};
use crate::cities::DIST_MAX;
use crate::fixed::{pow_fixed, pow_fixed_spec, lemma_pow_fixed_spec_range, sat64, SCALE};
use crate::parameters::DISTANCE_CONSTANT_MAX;
use crate::universe::UniverseParams;

verus! {

/// One tour-construction walker: the set of cities it has visited, as a
/// bitmap, and its ordered partial tour.
#[derive(Clone, Debug)]
pub struct Ant {
    pub visited: Vec<bool>,
    pub tour: Vec<usize>,
}

/// A well-formed agent over `n` cities at time `t`: the tour holds `t`
/// distinct cities, and the bitmap marks exactly the cities of the tour.
pub open spec fn ant_wf(a: Ant, n: int, t: int) -> bool {
    &&& a.visited@.len() == n
    &&& a.tour@.len() == t
    &&& a.tour@.no_duplicates()
    &&& forall|k: int| 0 <= k < t ==> (#[trigger] a.tour@[k]) < n
    &&& forall|c: int| 0 <= c < n ==> ((#[trigger] a.visited@[c]) <==> a.tour@.contains(c as usize))
}

/// The inverse of a milli-unit distance, in milli-units; distances below
/// one milli-unit are treated as one milli-unit, so the result is defined
/// and at most `SCALE * SCALE`.
pub open spec fn inv_dist(d: int) -> int {
    (SCALE * SCALE) as int / (if d < 1 {
        1
    } else {
        d
    })
}

/// Desirability of one edge: inverse distance to the power of the distance
/// importance, times the trail to the power of the trail importance, in
/// milli-units, plus one so that every candidate keeps positive mass.
pub open spec fn edge_weight(e: Edge, p: UniverseParams) -> int {
    sat64(
        pow_fixed_spec(inv_dist(e.distance as int), p.distance_importance as int) * pow_fixed_spec(
            e.trail as int,
            p.trail_importance as int,
        ) / (SCALE as int) + 1,
    )
}

/// The guarded inverse distance stays within one million milli-units.
pub proof fn lemma_inv_dist_range(d: int)
    ensures
        0 <= inv_dist(d) <= (SCALE * SCALE) as int,
{
}

/// Every edge weight is positive and fits in 64 bits.
pub proof fn lemma_edge_weight_range(e: Edge, p: UniverseParams)
    ensures
        1 <= edge_weight(e, p) <= u64::MAX as int,
{
    lemma_inv_dist_range(e.distance as int);
    lemma_pow_fixed_spec_range(inv_dist(e.distance as int), p.distance_importance as int);
    lemma_pow_fixed_spec_range(e.trail as int, p.trail_importance as int);
    let a = pow_fixed_spec(inv_dist(e.distance as int), p.distance_importance as int);
    let b = pow_fixed_spec(e.trail as int, p.trail_importance as int);
    assert(a * b >= 0) by (nonlinear_arith)
        requires
            a >= 0,
            b >= 0;
}

/// Exact desirability weight of one edge.
fn edge_weight_exec(e: Edge, p: &UniverseParams) -> (w: u64)
    ensures
        w == edge_weight(e, *p),
        w >= 1,
{
    let dd: u64 = if e.distance < 1 {
        1
    } else {
        e.distance
    };
    let invd: u64 = (SCALE * SCALE) / dd;
    let p1: u64 = pow_fixed(invd, p.distance_importance);
    let p2: u64 = pow_fixed(e.trail, p.trail_importance);
    proof {
        lemma_edge_weight_range(e, *p);
        assert((p1 as int) * (p2 as int) <= u128::MAX as int) by (nonlinear_arith)
            requires
                0 <= p1 as int <= u64::MAX as int,
                0 <= p2 as int <= u64::MAX as int;
    }
    let wide: u128 = (p1 as u128) * (p2 as u128) / (SCALE as u128) + 1;
    if wide > u64::MAX as u128 {
        u64::MAX
    } else {
        wide as u64
    }
}

/// Sum of the weights of the first `k` candidates.
pub open spec fn weight_prefix(s: Seq<(usize, u64)>, k: int) -> int
    decreases k,
{
    if k <= 0 {
        0
    } else {
        weight_prefix(s, k - 1) + s[k - 1].1
    }
}

/// Total weight mass of a candidate list.
pub open spec fn weight_total(s: Seq<(usize, u64)>) -> int {
    weight_prefix(s, s.len() as int)
}

/// The candidate picked by the roulette wheel for a target mass: the first
/// whose cumulative weight exceeds the target.
pub open spec fn pick_index(s: Seq<(usize, u64)>, target: int) -> int
    decreases s.len(),
{
    if s.len() <= 1 {
        0
    } else if target < s[0].1 {
        0
    } else {
        1 + pick_index(s.drop_first(), target - s[0].1)
    }
}

pub proof fn lemma_weight_prefix_mono(s: Seq<(usize, u64)>, a: int, b: int)
    requires
        a <= b,
    ensures
        weight_prefix(s, a) <= weight_prefix(s, b),
    decreases b - a,
{
    if a < b {
        lemma_weight_prefix_mono(s, a, b - 1);
    }
}

proof fn lemma_weight_prefix_drop_first(s: Seq<(usize, u64)>, k: int)
    requires
        s.len() >= 1,
        0 <= k,
        k + 1 <= s.len(),
    ensures
        weight_prefix(s, k + 1) == s[0].1 + weight_prefix(s.drop_first(), k),
    decreases k,
{
    if k == 0 {
        assert(weight_prefix(s, 1) == weight_prefix(s, 0) + s[0].1);
        assert(weight_prefix(s.drop_first(), 0) == 0);
    } else {
        lemma_weight_prefix_drop_first(s, k - 1);
        assert(weight_prefix(s, k + 1) == weight_prefix(s, k) + s[k].1);
        assert(weight_prefix(s.drop_first(), k) == weight_prefix(s.drop_first(), k - 1)
            + s.drop_first()[k - 1].1);
        assert(s.drop_first()[k - 1] == s[k]);
    }
}

/// The picked candidate is the unique one whose cumulative weight interval
/// contains the target.
pub proof fn lemma_pick_index_characterized(s: Seq<(usize, u64)>, target: int)
    requires
        s.len() >= 1,
        0 <= target < weight_total(s),
    ensures
        0 <= pick_index(s, target) < s.len(),
        weight_prefix(s, pick_index(s, target)) <= target,
        target < weight_prefix(s, pick_index(s, target) + 1),
    decreases s.len(),
{
    if s.len() == 1 {
    } else if target < s[0].1 {
    } else {
        let rest = s.drop_first();
        lemma_weight_prefix_drop_first(s, s.len() - 1);
        lemma_pick_index_characterized(rest, target - s[0].1);
        let p = pick_index(rest, target - s[0].1);
        lemma_weight_prefix_drop_first(s, p);
        lemma_weight_prefix_drop_first(s, p + 1);
    }
}

/// Roulette-wheel selection: reduce the draw to a target mass below the
/// total and return the first candidate whose cumulative weight exceeds it.
/// Ties are impossible: every interval is non-empty because every weight is
/// positive.
pub fn select_next(cands: &Vec<(usize, u64)>, draw: u64) -> (r: usize)
    requires
        cands@.len() >= 1,
        forall|k: int| 0 <= k < cands@.len() ==> (#[trigger] cands@[k]).1 >= 1,
    ensures
        r == cands@[pick_index(cands@, draw as int % weight_total(cands@))].0,
{
    let n: usize = cands.len();
    let mut total: u128 = 0;
    let mut i: usize = 0;
    while i < n
        invariant
            i <= n,
            n == cands@.len(),
            total == weight_prefix(cands@, i as int),
            total <= (i as int) * (u64::MAX as int),
        decreases n - i,
    {
        proof {
            assert((i as int) * (u64::MAX as int) + (u64::MAX as int) == (i + 1) * (
            u64::MAX as int)) by (nonlinear_arith);
            assert((i + 1) * (u64::MAX as int) <= u128::MAX as int) by (nonlinear_arith)
                requires
                    0 <= i as int + 1 <= u64::MAX as int;
        }
        total = total + (cands[i].1 as u128);
        i = i + 1;
    }
    proof {
        lemma_weight_prefix_mono(cands@, 1, cands@.len() as int);
        assert(weight_prefix(cands@, 1) >= 1);
    }
    let target: u128 = (draw as u128) % total;
    let ghost t = target as int;
    proof {
        lemma_pick_index_characterized(cands@, t);
    }
    let ghost p = pick_index(cands@, t);
    let mut acc: u128 = 0;
    let mut k: usize = 0;
    let last: usize = n - 1;
    while k < last
        invariant
            k <= last,
            last == n - 1,
            n == cands@.len(),
            forall|m: int| 0 <= m < cands@.len() ==> (#[trigger] cands@[m]).1 >= 1,
            acc == weight_prefix(cands@, k as int),
            acc <= target,
            t == target as int,
            t == draw as int % weight_total(cands@),
            0 <= t < weight_total(cands@),
            weight_total(cands@) <= (n as int) * (u64::MAX as int),
            p == pick_index(cands@, t),
            0 <= p < cands@.len(),
            weight_prefix(cands@, p) <= t,
            t < weight_prefix(cands@, p + 1),
            k <= p,
        decreases last - k,
    {
        proof {
            lemma_weight_prefix_mono(cands@, 0, k as int);
            assert((n as int) * (u64::MAX as int) + (u64::MAX as int) <= u128::MAX as int)
                by (nonlinear_arith)
                requires
                    0 <= n as int <= u64::MAX as int;
        }
        let w: u64 = cands[k].1;
        acc = acc + (w as u128);
        if acc > target {
            proof {
                if p > k {
                    lemma_weight_prefix_mono(cands@, k + 1, p);
                }
            }
            return cands[k].0;
        }
        proof {
            if p == k {
                assert(t < weight_prefix(cands@, k + 1));
            }
        }
        k = k + 1;
    }
    proof {
        if p < last {
            lemma_weight_prefix_mono(cands@, p + 1, last as int);
        }
    }
    cands[last].0
}

proof fn lemma_push_contains(s: Seq<usize>, x: usize, c: usize)
    ensures
        s.push(x).contains(c) <==> (s.contains(c) || c == x),
{
    if s.contains(c) {
        let i = choose|i: int| 0 <= i < s.len() && s[i] == c;
        assert(s.push(x)[i] == c);
    }
    if c == x {
        assert(s.push(x)[s.len() as int] == c);
    }
    if s.push(x).contains(c) {
        let i = choose|i: int| 0 <= i < s.push(x).len() && s.push(x)[i] == c;
        if i < s.len() {
            assert(s[i] == c);
        }
    }
}

proof fn lemma_push_no_duplicates(s: Seq<usize>, x: usize)
    requires
        s.no_duplicates(),
        !s.contains(x),
    ensures
        s.push(x).no_duplicates(),
{
    let t = s.push(x);
    assert forall|i: int, j: int| 0 <= i < t.len() && 0 <= j < t.len() && i != j implies t[i]
        != t[j] by {
        if i < s.len() && j < s.len() {
        } else if i == s.len() && j < s.len() {
            if t[i] == t[j] {
                assert(s[j] == x);
            }
        } else if j == s.len() && i < s.len() {
            if t[i] == t[j] {
                assert(s[i] == x);
            }
        }
    }
}

/// A well-formed agent that has not yet visited every city always has an
/// unvisited city left to move to.
pub proof fn lemma_unvisited_exists(a: Ant, n: int, t: int)
    requires
        ant_wf(a, n, t),
        0 <= t < n,
    ensures
        exists|c: int| 0 <= c < n && !a.visited@[c],
{
    broadcast use vstd::set::group_set_axioms;

    assert(a.visited.len() == a.visited@.len());
    if forall|c: int| 0 <= c < n ==> #[trigger] a.visited@[c] {
        let f = |u: usize| u as int;
        assert(vstd::relations::injective(f)) by {
            assert forall|u1: usize, u2: usize| #[trigger] f(u1) == #[trigger] f(u2) implies u1
                == u2 by {}
        }
        let ti = a.tour@.map_values(f);
        a.tour@.lemma_no_duplicates_injective(f);
        ti.unique_seq_to_set();
        lemma_int_range(0, n);
        assert(set_int_range(0, n).subset_of(ti.to_set())) by {
            assert forall|x: int| set_int_range(0, n).contains(x) implies ti.to_set().contains(
                x,
            ) by {
                assert(a.visited@[x]);
                assert(a.tour@.contains(x as usize));
                let k = choose|k: int| 0 <= k < a.tour@.len() && a.tour@[k] == x as usize;
                assert(ti[k] == (x as usize) as int);
                assert(ti[k] == x);
                assert(ti.contains(x));
            }
        }
        lemma_len_subset(set_int_range(0, n), ti.to_set());
        assert(false);
    }
}

/// A tour that holds `n` distinct cities, all below `n`, holds every city
/// below `n`: it is a permutation of the whole city set.
pub proof fn lemma_full_tour_is_permutation(t: Seq<usize>, n: int)
    requires
        t.len() == n,
        t.no_duplicates(),
        forall|k: int| 0 <= k < n ==> (#[trigger] t[k]) < n,
    ensures
        forall|c: usize| c < n ==> #[trigger] t.contains(c),
{
    broadcast use vstd::set::group_set_axioms;

    assert forall|c: usize| c < n implies #[trigger] t.contains(c) by {
        if !t.contains(c) {
            let f = |u: usize| u as int;
            assert(vstd::relations::injective(f)) by {
                assert forall|u1: usize, u2: usize| #[trigger] f(u1) == #[trigger] f(u2) implies u1
                    == u2 by {}
            }
            let ti = t.map_values(f);
            t.lemma_no_duplicates_injective(f);
            ti.unique_seq_to_set();
            lemma_int_range(0, n);
            assert(ti.to_set().subset_of(set_int_range(0, n).remove(c as int))) by {
                assert forall|x: int| ti.to_set().contains(x) implies set_int_range(0, n).remove(
                    c as int,
                ).contains(x) by {
                    let k = choose|k: int| 0 <= k < ti.len() && ti[k] == x;
                    assert(t[k] == x as usize);
                    assert(0 <= x < n);
                    if x == c as int {
                        assert(t[k] == c);
                        assert(t.contains(c));
                    }
                }
            }
            assert(set_int_range(0, n).remove(c as int).len() == n - 1);
            lemma_len_subset(ti.to_set(), set_int_range(0, n).remove(c as int));
            assert(false);
        }
    }
}

pub(crate) fn copied_tour(v: &Vec<usize>) -> (r: Vec<usize>)
    ensures
        r@ == v@,
{
    let mut r: Vec<usize> = Vec::new();
    let mut i: usize = 0;
    while i < v.len()
        invariant
            i <= v@.len(),
            r@ == v@.subrange(0, i as int),
        decreases v@.len() - i,
    {
        r.push(v[i]);
        assert(r@ =~= v@.subrange(0, i + 1));
        i = i + 1;
    }
    assert(r@ =~= v@);
    r
}

fn copied_bitmap(v: &Vec<bool>) -> (r: Vec<bool>)
    ensures
        r@ == v@,
{
    let mut r: Vec<bool> = Vec::new();
    let mut i: usize = 0;
    while i < v.len()
        invariant
            i <= v@.len(),
            r@ == v@.subrange(0, i as int),
        decreases v@.len() - i,
    {
        r.push(v[i]);
        assert(r@ =~= v@.subrange(0, i + 1));
        i = i + 1;
    }
    assert(r@ =~= v@);
    r
}

/// Relies on rand::random: draws a 64-bit value from the thread-local
/// generator. Nothing is promised of the value; every caller must be
/// correct for every possible draw.
#[verifier::external_body]
fn random_u64() -> u64 {
    rand::random::<u64>()
}

/// Length of the first `k` legs of a tour, in milli-units, against the
/// distances of a store.
pub open spec fn path_len_prefix(t: Seq<usize>, e: Edges, k: int) -> int
    decreases k,
{
    if k <= 0 {
        0
    } else {
        path_len_prefix(t, e, k - 1) + e.spec_get(t[k - 1] as int, t[k] as int).distance
    }
}

/// Total length of a tour: the sum of the distances of its consecutive
/// legs.
pub open spec fn path_len(t: Seq<usize>, e: Edges) -> int {
    path_len_prefix(t, e, t.len() - 1)
}

/// A tour is as long against one store as against another with the same
/// city count and the same distances.
pub proof fn lemma_path_len_congruence(t: Seq<usize>, e1: Edges, e2: Edges, k: int)
    requires
        e1.wf(),
        e2.wf(),
        e1.n_cities == e2.n_cities,
        forall|m: int|
            0 <= m < e1.edges@.len() ==> (#[trigger] e1.edges@[m]).distance
                == e2.edges@[m].distance,
        forall|w: int| 0 <= w < t.len() ==> (#[trigger] t[w]) < e1.n_cities,
        forall|w: int| 0 <= w < t.len() - 1 ==> t[w] != (#[trigger] t[w + 1]),
        k <= t.len() - 1,
    ensures
        path_len_prefix(t, e1, k) == path_len_prefix(t, e2, k),
    decreases k,
{
    if k > 0 {
        lemma_path_len_congruence(t, e1, e2, k - 1);
        assert(t[k - 1] != t[(k - 1) + 1]);
        crate::edges::lemma_pair_index_in_range(e1.n() as int, t[k - 1] as int, t[k] as int);
    }
}

/// Consecutive cities of a closed tour are distinct, so every leg is a
/// real edge of the store.
pub proof fn lemma_closed_tour_legs_distinct(t: Seq<usize>, n: int)
    requires
        is_closed_tour(t, n),
        n >= 2,
    ensures
        forall|w: int| 0 <= w < t.len() - 1 ==> t[w] != (#[trigger] t[w + 1]),
{
    assert forall|w: int| 0 <= w < t.len() - 1 implies t[w] != (#[trigger] t[w + 1]) by {
        let s = t.subrange(0, n);
        if w + 1 < n {
            assert(s[w] == t[w]);
            assert(s[w + 1] == t[w + 1]);
        } else {
            assert(t[w + 1] == t[n]);
            assert(s[0] == t[0]);
            assert(s[w] == t[w]);
        }
    }
}

/// The result of one construction round: the shortest closed tour any
/// agent built, and its length in milli-units.
#[derive(Clone, Debug)]
pub struct CycleResult {
    pub shortest_tour: Vec<usize>,
    pub shortest_length: u64,
}

/// An open tour closed by repeating its starting city at the end.
pub open spec fn close_tour(t: Seq<usize>) -> Seq<usize> {
    t.push(t[0])
}

/// The relation between an edge before and after one round's
/// reinforcement: the new trail is exactly one decay step of the old
/// trail plus some aggregate deposit `d`, no smaller than the delta that
/// was already pending.
pub open spec fn trail_reinforced(e0: Edge, e1: Edge, trail_decay: int) -> bool {
    exists|d: int|
        d >= e0.trail_delta && e1.trail == #[trigger] sat64(
            e0.trail * ((SCALE as int) - trail_decay) / (SCALE as int) + d,
        )
}

/// A closed tour over `n` cities: `n` distinct cities, each below `n`,
/// followed by a repeat of the starting city; every city appears.
pub open spec fn is_closed_tour(t: Seq<usize>, n: int) -> bool {
    &&& t.len() == n + 1
    &&& t[0] == t[n]
    &&& t.subrange(0, n).no_duplicates()
    &&& forall|k: int| 0 <= k < t.len() ==> (#[trigger] t[k]) < n
    &&& forall|c: usize| c < n ==> #[trigger] t.subrange(0, n).contains(c)
}

/// One construction round over all agents, advanced one time step per
/// tick.
#[derive(Debug)]
pub struct Cycle {
    pub params: UniverseParams,
    pub time: usize,
    pub ants: Vec<Ant>,
    pub n_cities: usize,
}

/// The agent of the second state extends the agent of the first by exactly
/// one previously unvisited city.
pub open spec fn ant_extended(a0: Ant, a1: Ant, n: int) -> bool {
    exists|c: int|
        0 <= c < n && !a0.visited@[c] && a1.tour@ == a0.tour@.push(c as usize) && a1.visited@
            == a0.visited@.update(c, true)
}

impl Cycle {
    /// A well-formed round: one agent per city, all agents at the current
    /// time step, the time within the round.
    pub open spec fn wf(self) -> bool {
        &&& 2 <= self.n_cities <= N_MAX
        &&& self.ants@.len() == self.n_cities
        &&& 1 <= self.time <= self.n_cities
        &&& self.params.wf()
        &&& forall|a: int|
            0 <= a < self.ants@.len() ==> ant_wf(
                #[trigger] self.ants@[a],
                self.n_cities as int,
                self.time as int,
            )
    }

    /// Start a round over the store's cities: agent `i` stands at city `i`
    /// with only that city visited.
    pub fn new(edges: &Edges, params: &UniverseParams) -> (r: Cycle)
        requires
            edges.wf(),
            params.wf(),
        ensures
            r.wf(),
            r.n_cities == edges.n_cities,
            r.params == *params,
            r.time == 1,
            forall|i: int|
                0 <= i < edges.n() ==> (#[trigger] r.ants@[i]).tour@ == seq![i as usize],
    {
        let n: usize = edges.n_cities;
        let mut ants: Vec<Ant> = Vec::new();
        let mut i: usize = 0;
        while i < n
            invariant
                i <= n,
                2 <= n <= N_MAX,
                ants@.len() == i,
                forall|m: int| 0 <= m < i ==> ant_wf(#[trigger] ants@[m], n as int, 1),
                forall|m: int| 0 <= m < i ==> (#[trigger] ants@[m]).tour@ == seq![m as usize],
            decreases n - i,
        {
            let mut visited: Vec<bool> = Vec::new();
            let mut j: usize = 0;
            while j < n
                invariant
                    j <= n,
                    i < n,
                    visited@.len() == j,
                    forall|c: int| 0 <= c < j ==> ((#[trigger] visited@[c]) <==> c == i),
                decreases n - j,
            {
                visited.push(j == i);
                j = j + 1;
            }
            let tour: Vec<usize> = vec![i];
            let ant = Ant { visited, tour };
            proof {
                assert(ant.tour@ =~= seq![i as usize]);
                assert(ant.tour@.contains(i));
                assert forall|c: int| 0 <= c < n implies ((#[trigger] ant.visited@[c])
                    <==> ant.tour@.contains(c as usize)) by {
                    if ant.tour@.contains(c as usize) {
                        let k = choose|k: int|
                            0 <= k < ant.tour@.len() && ant.tour@[k] == c as usize;
                        assert(k == 0);
                    }
                }
            }
            ants.push(ant);
            i = i + 1;
        }
        Cycle { params: *params, time: 1, ants, n_cities: n }
    }

    /// One time step: every agent draws its next city among the unvisited
    /// ones, with probability proportional to the desirability weights, and
    /// moves there. Returns false, and changes nothing, once the round is
    /// complete. Selection always succeeds: the weights are positive, so
    /// the candidate mass is never zero while unvisited cities remain.
    pub fn tick(&mut self, edges: &Edges) -> (more: bool)
        requires
            old(self).wf(),
            edges.wf(),
            edges.n() == old(self).n_cities,
        ensures
            final(self).wf(),
            final(self).n_cities == old(self).n_cities,
            final(self).params == old(self).params,
            more == (old(self).time < old(self).n_cities),
            !more ==> *final(self) == *old(self),
            more ==> final(self).time == old(self).time + 1,
            more ==> forall|a: int|
                0 <= a < old(self).ants@.len() ==> ant_extended(
                    old(self).ants@[a],
                    #[trigger] final(self).ants@[a],
                    old(self).n_cities as int,
                ),
    {
        if self.time >= self.n_cities {
            return false;
        }
        let n: usize = self.n_cities;
        let mut new_ants: Vec<Ant> = Vec::new();
        let mut a: usize = 0;
        while a < n
            invariant
                a <= n,
                *self == *old(self),
                self.wf(),
                n == self.n_cities,
                self.time < n,
                edges.wf(),
                edges.n() == n,
                new_ants@.len() == a,
                forall|m: int|
                    0 <= m < a ==> ant_wf(#[trigger] new_ants@[m], n as int, self.time + 1),
                forall|m: int|
                    0 <= m < a ==> ant_extended(self.ants@[m], #[trigger] new_ants@[m], n as int),
            decreases n - a,
        {
            let ant = &self.ants[a];
            let current: usize = ant.tour[self.time - 1];
            proof {
                assert(ant.tour@.contains(current));
                assert(ant.visited@[current as int]);
            }
            let mut cands: Vec<(usize, u64)> = Vec::new();
            let mut j: usize = 0;
            while j < n
                invariant
                    j <= n,
                    n == self.n_cities,
                    edges.wf(),
                    edges.n() == n,
                    ant == &self.ants@[a as int],
                    a < self.ants@.len(),
                    self.wf(),
                    current < n,
                    ant.visited@[current as int],
                    ant.visited@.len() == n,
                    forall|m: int|
                        0 <= m < cands@.len() ==> (#[trigger] cands@[m]).0 < n
                            && !ant.visited@[cands@[m].0 as int] && cands@[m].1 >= 1,
                    (exists|jj: int| 0 <= jj < j && !ant.visited@[jj]) ==> cands@.len() >= 1,
                decreases n - j,
            {
                if !ant.visited[j] {
                    let e: Edge = edges.get(current, j);
                    let w: u64 = edge_weight_exec(e, &self.params);
                    cands.push((j, w));
                }
                j = j + 1;
            }
            proof {
                lemma_unvisited_exists(
                    self.ants@[a as int],
                    n as int,
                    self.time as int,
                );
                assert(cands@.len() >= 1);
                lemma_weight_prefix_mono(cands@, 1, cands@.len() as int);
                assert(weight_prefix(cands@, 0) == 0);
                assert(cands@[0].1 >= 1);
                assert(weight_prefix(cands@, 1) >= 1);
                assert(weight_total(cands@) >= 1);
            }
            let draw: u64 = random_u64();
            proof {
                lemma_pick_index_characterized(
                    cands@,
                    draw as int % weight_total(cands@),
                );
            }
            let choice: usize = select_next(&cands, draw);
            let mut tour: Vec<usize> = copied_tour(&ant.tour);
            tour.push(choice);
            let mut visited: Vec<bool> = copied_bitmap(&ant.visited);
            visited.set(choice, true);
            let next = Ant { visited, tour };
            proof {
                let n_int = n as int;
                let t_int = self.time as int;
                let a0 = self.ants@[a as int];
                assert(!a0.tour@.contains(choice));
                lemma_push_no_duplicates(a0.tour@, choice);
                assert forall|c: int| 0 <= c < n_int implies ((#[trigger] next.visited@[c])
                    <==> next.tour@.contains(c as usize)) by {
                    lemma_push_contains(a0.tour@, choice, c as usize);
                }
                assert(ant_wf(next, n_int, t_int + 1));
                assert(ant_extended(a0, next, n_int));
            }
            new_ants.push(next);
            a = a + 1;
        }
        self.ants = new_ants;
        self.time = self.time + 1;
        true
    }

    /// Run the round to completion: finish all ticks, then score,
    /// reinforce and decay. Returns the shortest closed tour of the round
    /// together with its exact length; every edge ends with a zero delta
    /// and a trail that is exactly one decay step of its old trail plus
    /// some aggregate deposit no smaller than what was already pending.
    pub fn complete(self, edges: &mut Edges) -> (r: CycleResult)
        requires
            self.wf(),
            old(edges).wf(),
            old(edges).n() == self.n_cities,
        ensures
            final(edges).wf(),
            final(edges).n_cities == old(edges).n_cities,
            final(edges).edges@.len() == old(edges).edges@.len(),
            forall|k: int|
                0 <= k < old(edges).edges@.len() ==> (#[trigger] final(edges).edges@[k]).distance
                    == old(edges).edges@[k].distance,
            forall|k: int|
                0 <= k < old(edges).edges@.len() ==> (#[trigger] final(edges).edges@[k]).trail_delta
                    == 0,
            forall|k: int|
                0 <= k < old(edges).edges@.len() ==> trail_reinforced(
                    old(edges).edges@[k],
                    #[trigger] final(edges).edges@[k],
                    self.params.trail_decay as int,
                ),
            is_closed_tour(r.shortest_tour@, old(edges).n()),
            r.shortest_length == path_len(r.shortest_tour@, *final(edges)),
            r.shortest_length <= old(edges).n() * (DIST_MAX as int),
    {
        let mut me = self;
        while me.time < me.n_cities
            invariant
                me.wf(),
                me.n_cities == old(edges).n_cities,
                me.params == self.params,
                *edges == *old(edges),
                edges.wf(),
                edges.n() == me.n_cities,
            decreases me.n_cities - me.time,
        {
            me.tick(edges);
        }
        me.evaluate(edges)
    }

    /// Score and reinforce a finished round: close every agent's tour, sum
    /// its exact length, deposit `Q * SCALE / length` on every leg of it,
    /// then apply exactly one decay pass. The result is the closed tour of
    /// one of the agents, no longer than any agent's closed tour; every
    /// edge ends with a zero delta and a trail that is one decay step of
    /// its old trail plus some aggregate deposit no smaller than what was
    /// already pending.
    pub fn evaluate(self, edges: &mut Edges) -> (r: CycleResult)
        requires
            self.wf(),
            self.time == self.n_cities,
            old(edges).wf(),
            old(edges).n() == self.n_cities,
        ensures
            final(edges).wf(),
            final(edges).n_cities == old(edges).n_cities,
            final(edges).edges@.len() == old(edges).edges@.len(),
            forall|k: int|
                0 <= k < old(edges).edges@.len() ==> (#[trigger] final(edges).edges@[k]).distance
                    == old(edges).edges@[k].distance,
            forall|k: int|
                0 <= k < old(edges).edges@.len() ==> (#[trigger] final(edges).edges@[k]).trail_delta
                    == 0,
            forall|k: int|
                0 <= k < old(edges).edges@.len() ==> trail_reinforced(
                    old(edges).edges@[k],
                    #[trigger] final(edges).edges@[k],
                    self.params.trail_decay as int,
                ),
            is_closed_tour(r.shortest_tour@, old(edges).n()),
            r.shortest_length == path_len(r.shortest_tour@, *final(edges)),
            r.shortest_length <= old(edges).n() * (DIST_MAX as int),
            exists|m: int|
                0 <= m < self.ants@.len() && r.shortest_tour@ == #[trigger] close_tour(
                    self.ants@[m].tour@,
                ),
            forall|m: int|
                0 <= m < self.ants@.len() ==> r.shortest_length <= path_len(
                    #[trigger] close_tour(self.ants@[m].tour@),
                    *old(edges),
                ),
    {
        let me = self;
        let n: usize = me.n_cities;
        let q: u64 = me.params.distance_constant;
        let mut best_tour: Vec<usize> = Vec::new();
        let mut best_len: u64 = u64::MAX;
        let mut a: usize = 0;
        while a < n
            invariant
                a <= n,
                n == me.n_cities,
                me.wf(),
                me.time == n,
                q == me.params.distance_constant,
                1 <= q <= DISTANCE_CONSTANT_MAX,
                edges.wf(),
                old(edges).wf(),
                edges.n_cities == old(edges).n_cities,
                n == old(edges).n_cities,
                edges.edges@.len() == old(edges).edges@.len(),
                forall|k: int|
                    0 <= k < old(edges).edges@.len() ==> (#[trigger] edges.edges@[k]).distance
                        == old(edges).edges@[k].distance,
                forall|k: int|
                    0 <= k < old(edges).edges@.len() ==> (#[trigger] edges.edges@[k]).trail == old(
                        edges,
                    ).edges@[k].trail,
                forall|k: int|
                    0 <= k < old(edges).edges@.len() ==> (#[trigger] edges.edges@[k]).trail_delta
                        >= old(edges).edges@[k].trail_delta,
                a >= 1 ==> is_closed_tour(best_tour@, n as int),
                a >= 1 ==> best_len == path_len(best_tour@, *old(edges)),
                a >= 1 ==> best_len <= (n as int) * (DIST_MAX as int),
                a >= 1 ==> exists|m: int|
                    0 <= m < a && best_tour@ == #[trigger] close_tour(me.ants@[m].tour@),
                forall|m: int|
                    0 <= m < a ==> best_len <= path_len(
                        #[trigger] close_tour(me.ants@[m].tour@),
                        *old(edges),
                    ),
                a == 0 ==> best_len == u64::MAX,
            decreases n - a,
        {
            let ant = &me.ants[a];
            let mut tour: Vec<usize> = copied_tour(&ant.tour);
            let first: usize = tour[0];
            tour.push(first);
            proof {
                assert(tour@ == close_tour(me.ants@[a as int].tour@));
                assert(tour@.subrange(0, n as int) =~= ant.tour@);
                lemma_full_tour_is_permutation(ant.tour@, n as int);
                assert(is_closed_tour(tour@, n as int));
            }
            let mut len: u64 = 0;
            let mut w: usize = 0;
            while w < n
                invariant
                    w <= n,
                    n == me.n_cities,
                    2 <= n <= N_MAX,
                    tour@.len() == n + 1,
                    is_closed_tour(tour@, n as int),
                    edges.wf(),
                    edges.n_cities == n,
                    edges.edges@.len() == old(edges).edges@.len(),
                    forall|k: int|
                        0 <= k < old(edges).edges@.len() ==> (#[trigger] edges.edges@[k]).distance
                            == old(edges).edges@[k].distance,
                    len == path_len_prefix(tour@, *edges, w as int),
                    len <= (w as int) * (DIST_MAX as int),
                decreases n - w,
            {
                let c1: usize = tour[w];
                let c2: usize = tour[w + 1];
                proof {
                    if w + 1 < n {
                        assert(tour@.subrange(0, n as int)[w as int] == c1);
                        assert(tour@.subrange(0, n as int)[w + 1] == c2);
                    } else {
                        assert(c2 == tour@[n as int]);
                        assert(tour@.subrange(0, n as int)[0] == tour@[0]);
                        assert(tour@.subrange(0, n as int)[w as int] == c1);
                    }
                    assert(c1 != c2);
                }
                let e: Edge = edges.get(c1, c2);
                proof {
                    crate::edges::lemma_pair_index_in_range(n as int, c1 as int, c2 as int);
                    assert(e.distance <= DIST_MAX);
                    assert((w as int) * (DIST_MAX as int) + (DIST_MAX as int) == (w + 1) * (
                    DIST_MAX as int)) by (nonlinear_arith);
                    assert((w + 1) * (DIST_MAX as int) <= (n as int) * (DIST_MAX as int))
                        by (nonlinear_arith)
                        requires
                            0 <= w as int + 1 <= n as int;
                    assert((n as int) * (DIST_MAX as int) <= (N_MAX as int) * (DIST_MAX as int))
                        by (nonlinear_arith)
                        requires
                            0 <= n as int <= N_MAX as int;
                }
                len = len + e.distance;
                w = w + 1;
            }
            proof {
                assert(len == path_len(tour@, *edges));
                lemma_closed_tour_legs_distinct(tour@, n as int);
                lemma_path_len_congruence(tour@, *edges, *old(edges), n as int);
                assert((n as int) * (DIST_MAX as int) <= (N_MAX as int) * (DIST_MAX as int))
                    by (nonlinear_arith)
                    requires
                        0 <= n as int <= N_MAX as int;
                assert(len < u64::MAX);
            }
            let ll: u64 = if len < 1 {
                1
            } else {
                len
            };
            proof {
                assert(q * (SCALE as int) <= DISTANCE_CONSTANT_MAX * (SCALE as int))
                    by (nonlinear_arith)
                    requires
                        0 <= q <= DISTANCE_CONSTANT_MAX;
            }
            let deposit: u64 = q * SCALE / ll;
            let mut w2: usize = 0;
            while w2 < n
                invariant
                    w2 <= n,
                    n == me.n_cities,
                    2 <= n <= N_MAX,
                    tour@.len() == n + 1,
                    is_closed_tour(tour@, n as int),
                    edges.wf(),
                    edges.n_cities == n,
                    edges.edges@.len() == old(edges).edges@.len(),
                    forall|k: int|
                        0 <= k < old(edges).edges@.len() ==> (#[trigger] edges.edges@[k]).distance
                            == old(edges).edges@[k].distance,
                    forall|k: int|
                        0 <= k < old(edges).edges@.len() ==> (#[trigger] edges.edges@[k]).trail
                            == old(edges).edges@[k].trail,
                    forall|k: int|
                        0 <= k < old(edges).edges@.len() ==> (#[trigger] edges.edges@[k]).trail_delta
                            >= old(edges).edges@[k].trail_delta,
                decreases n - w2,
            {
                let c1: usize = tour[w2];
                let c2: usize = tour[w2 + 1];
                proof {
                    if w2 + 1 < n {
                        assert(tour@.subrange(0, n as int)[w2 as int] == c1);
                        assert(tour@.subrange(0, n as int)[w2 + 1] == c2);
                    } else {
                        assert(c2 == tour@[n as int]);
                        assert(tour@.subrange(0, n as int)[0] == tour@[0]);
                        assert(tour@.subrange(0, n as int)[w2 as int] == c1);
                    }
                    assert(c1 != c2);
                }
                edges.add_trail_delta(c1, c2, deposit);
                w2 = w2 + 1;
            }
            if len < best_len {
                best_len = len;
                best_tour = tour;
                proof {
                    assert(best_tour@ == close_tour(me.ants@[a as int].tour@));
                }
            }
            a = a + 1;
        }
        let ghost pre = *edges;
        edges.apply_decay(me.params.trail_decay);
        proof {
            lemma_closed_tour_legs_distinct(best_tour@, n as int);
            lemma_path_len_congruence(best_tour@, *old(edges), *edges, n as int);
            assert forall|k: int| 0 <= k < old(edges).edges@.len() implies trail_reinforced(
                old(edges).edges@[k],
                #[trigger] edges.edges@[k],
                me.params.trail_decay as int,
            ) by {
                let d: int = pre.edges@[k].trail_delta as int;
                assert(edges.edges@[k].trail == decayed_trail(
                    pre.edges@[k],
                    me.params.trail_decay as int,
                ));
                assert(pre.edges@[k].trail == old(edges).edges@[k].trail);
                assert(edges.edges@[k].trail == sat64(
                    old(edges).edges@[k].trail * ((SCALE as int) - (me.params.trail_decay as int))
                        / (SCALE as int) + d,
                ));
                assert(d >= old(edges).edges@[k].trail_delta);
            }
        }
        CycleResult { shortest_tour: best_tour, shortest_length: best_len }
    }
}

} // verus!

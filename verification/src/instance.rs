//! The deterministic local-search engine: it holds one candidate tour and
//! repeatedly applies the first strictly improving three-cut move found, in
//! a fixed scan order, until no improving move remains.

use vstd::prelude::*;
use vstd::seq_lib::*;

use crate::cities::{lemma_dist_spec_bound, City, DIST_MAX};
use crate::cycle::copied_tour;
use crate::edges::{lemma_pair_index_in_range, Edges, N_MAX};

verus! {

/// An open tour: a permutation of all `n` city indices, implicitly closed
/// from its last city back to its first.
pub open spec fn is_tour(t: Seq<usize>, n: int) -> bool {
    &&& t.len() == n
    &&& t.no_duplicates()
    &&& forall|k: int| 0 <= k < n ==> (#[trigger] t[k]) < n
}

/// A valid three-cut combination `(i, j, k)`: the cut points are pairwise
/// at least two apart, and the third may reach `n` (the closing edge) only
/// when the first is not zero, so the three cut edges are distinct.
pub open spec fn valid_comb(n: int, c: (usize, usize, usize)) -> bool {
    &&& c.0 + 2 <= c.1
    &&& c.1 + 2 <= c.2
    &&& c.1 < n
    &&& (if c.0 == 0 {
        c.2 < n
    } else {
        c.2 <= n
    })
}

/// Lexicographic order on combinations: the scan order of the engine.
pub open spec fn lex_lt(c1: (usize, usize, usize), c2: (usize, usize, usize)) -> bool {
    ||| c1.0 < c2.0
    ||| (c1.0 == c2.0 && c1.1 < c2.1)
    ||| (c1.0 == c2.0 && c1.1 == c2.1 && c1.2 < c2.2)
}

/// The city before the first cut (wrapping to the last city when the cut
/// is at the start).
pub open spec fn city_a(t: Seq<usize>, n: int, c: (usize, usize, usize)) -> usize {
    if c.0 == 0 {
        t[n - 1]
    } else {
        t[c.0 - 1]
    }
}

pub open spec fn city_b(t: Seq<usize>, c: (usize, usize, usize)) -> usize {
    t[c.0 as int]
}

pub open spec fn city_c(t: Seq<usize>, c: (usize, usize, usize)) -> usize {
    t[c.1 - 1]
}

pub open spec fn city_d(t: Seq<usize>, c: (usize, usize, usize)) -> usize {
    t[c.1 as int]
}

pub open spec fn city_e(t: Seq<usize>, c: (usize, usize, usize)) -> usize {
    t[c.2 - 1]
}

/// The city after the third cut (wrapping to the first city when the cut
/// is the closing edge).
pub open spec fn city_f(t: Seq<usize>, n: int, c: (usize, usize, usize)) -> usize {
    if c.2 == n {
        t[0]
    } else {
        t[c.2 as int]
    }
}

/// The stored distance of the edge between two distinct cities.
pub open spec fn leg(e: Edges, x: usize, y: usize) -> int {
    e.spec_get(x as int, y as int).distance as int
}

/// Cost of the three edges the combination would cut.
pub open spec fn cost_current(e: Edges, t: Seq<usize>, n: int, c: (usize, usize, usize)) -> int {
    leg(e, city_a(t, n, c), city_b(t, c)) + leg(e, city_c(t, c), city_d(t, c)) + leg(
        e,
        city_e(t, c),
        city_f(t, n, c),
    )
}

/// Cost after reversing the first segment.
pub open spec fn cost_first(e: Edges, t: Seq<usize>, n: int, c: (usize, usize, usize)) -> int {
    leg(e, city_a(t, n, c), city_c(t, c)) + leg(e, city_b(t, c), city_d(t, c)) + leg(
        e,
        city_e(t, c),
        city_f(t, n, c),
    )
}

/// Cost after reversing the second segment.
pub open spec fn cost_second(e: Edges, t: Seq<usize>, n: int, c: (usize, usize, usize)) -> int {
    leg(e, city_a(t, n, c), city_b(t, c)) + leg(e, city_c(t, c), city_e(t, c)) + leg(
        e,
        city_d(t, c),
        city_f(t, n, c),
    )
}

/// Cost after reversing both segments.
pub open spec fn cost_third(e: Edges, t: Seq<usize>, n: int, c: (usize, usize, usize)) -> int {
    leg(e, city_a(t, n, c), city_c(t, c)) + leg(e, city_b(t, c), city_e(t, c)) + leg(
        e,
        city_d(t, c),
        city_f(t, n, c),
    )
}

/// Cost after splicing the two segments in swapped order.
pub open spec fn cost_fourth(e: Edges, t: Seq<usize>, n: int, c: (usize, usize, usize)) -> int {
    leg(e, city_a(t, n, c), city_d(t, c)) + leg(e, city_e(t, c), city_b(t, c)) + leg(
        e,
        city_c(t, c),
        city_f(t, n, c),
    )
}

/// Whether any of the four reconnection patterns strictly beats the three
/// edges the combination cuts.
pub open spec fn comb_improves(e: Edges, t: Seq<usize>, n: int, c: (usize, usize, usize)) -> bool {
    ||| cost_first(e, t, n, c) < cost_current(e, t, n, c)
    ||| cost_second(e, t, n, c) < cost_current(e, t, n, c)
    ||| cost_third(e, t, n, c) < cost_current(e, t, n, c)
    ||| cost_fourth(e, t, n, c) < cost_current(e, t, n, c)
}

/// The tour with the segment `[i, j)` reversed.
pub open spec fn rev_range(s: Seq<usize>, i: int, j: int) -> Seq<usize> {
    s.take(i) + s.subrange(i, j).reverse() + s.skip(j)
}

/// The tour with the segments `[i, j)` and `[j, k)` spliced in swapped
/// order.
pub open spec fn splice_range(s: Seq<usize>, i: int, j: int, k: int) -> Seq<usize> {
    s.take(i) + s.subrange(j, k) + s.subrange(i, j) + s.skip(k)
}

/// The tour that one call of the improvement step on this combination
/// produces: the first strictly improving pattern is applied, and the tour
/// is unchanged when none improves.
pub open spec fn apply_comb(e: Edges, t: Seq<usize>, n: int, c: (usize, usize, usize)) -> Seq<
    usize,
> {
    let cur = cost_current(e, t, n, c);
    if cost_first(e, t, n, c) < cur {
        rev_range(t, c.0 as int, c.1 as int)
    } else if cost_second(e, t, n, c) < cur {
        rev_range(t, c.1 as int, c.2 as int)
    } else if cost_third(e, t, n, c) < cur {
        rev_range(rev_range(t, c.0 as int, c.1 as int), c.1 as int, c.2 as int)
    } else if cost_fourth(e, t, n, c) < cur {
        splice_range(t, c.0 as int, c.1 as int, c.2 as int)
    } else {
        t
    }
}

/// A sequence with the same multiset of entries as a tour is again a tour.
proof fn lemma_permuted_tour(t1: Seq<usize>, t2: Seq<usize>, n: int)
    requires
        is_tour(t1, n),
        t2.to_multiset() == t1.to_multiset(),
        t2.len() == t1.len(),
    ensures
        is_tour(t2, n),
{
    broadcast use vstd::seq_lib::group_to_multiset_ensures;

    t1.lemma_multiset_has_no_duplicates();
    assert forall|x: usize| t2.to_multiset().contains(x) implies t2.to_multiset().count(x)
        == 1 by {
        assert(t1.to_multiset().contains(x));
        assert(t1.contains(x));
    }
    t2.lemma_multiset_has_no_duplicates_conv();
    assert forall|k: int| 0 <= k < n implies (#[trigger] t2[k]) < n by {
        assert(t2.contains(t2[k]));
        assert(t2.to_multiset().count(t2[k]) > 0);
        assert(t1.to_multiset().count(t2[k]) > 0);
        assert(t1.contains(t2[k]));
        let m = choose|m: int| 0 <= m < t1.len() && t1[m] == t2[k];
        assert(t1[m] < n);
    }
}

/// Reversing a segment permutes the tour.
proof fn lemma_rev_range_is_tour(t: Seq<usize>, n: int, i: int, j: int)
    requires
        is_tour(t, n),
        0 <= i <= j <= n,
    ensures
        is_tour(rev_range(t, i, j), n),
        rev_range(t, i, j).to_multiset() == t.to_multiset(),
        rev_range(t, i, j).len() == n,
{
    broadcast use lemma_multiset_commutative;

    let x = t.take(i);
    let y = t.subrange(i, j);
    let z = t.skip(j);
    assert(t =~= x + y + z);
    y.lemma_reverse_to_multiset();
    assert(rev_range(t, i, j).to_multiset() == (x + y.reverse() + z).to_multiset());
    assert((x + y + z).to_multiset() =~= x.to_multiset().add(y.to_multiset()).add(
        z.to_multiset(),
    )) by {
        assert((x + y).to_multiset() =~= x.to_multiset().add(y.to_multiset()));
    }
    assert((x + y.reverse() + z).to_multiset() =~= x.to_multiset().add(
        y.reverse().to_multiset(),
    ).add(z.to_multiset())) by {
        assert((x + y.reverse()).to_multiset() =~= x.to_multiset().add(y.reverse().to_multiset()));
    }
    assert(rev_range(t, i, j).to_multiset() =~= t.to_multiset());
    lemma_permuted_tour(t, rev_range(t, i, j), n);
}

/// Splicing the two segments in swapped order permutes the tour.
proof fn lemma_splice_range_is_tour(t: Seq<usize>, n: int, i: int, j: int, k: int)
    requires
        is_tour(t, n),
        0 <= i <= j <= k <= n,
    ensures
        is_tour(splice_range(t, i, j, k), n),
        splice_range(t, i, j, k).to_multiset() == t.to_multiset(),
        splice_range(t, i, j, k).len() == n,
{
    broadcast use lemma_multiset_commutative;

    let x = t.take(i);
    let y = t.subrange(i, j);
    let z = t.subrange(j, k);
    let w = t.skip(k);
    assert(t =~= x + y + z + w);
    assert((x + y + z + w).to_multiset() =~= x.to_multiset().add(y.to_multiset()).add(
        z.to_multiset(),
    ).add(w.to_multiset())) by {
        assert((x + y).to_multiset() =~= x.to_multiset().add(y.to_multiset()));
        assert((x + y + z).to_multiset() =~= (x + y).to_multiset().add(z.to_multiset()));
    }
    assert((x + z + y + w).to_multiset() =~= x.to_multiset().add(z.to_multiset()).add(
        y.to_multiset(),
    ).add(w.to_multiset())) by {
        assert((x + z).to_multiset() =~= x.to_multiset().add(z.to_multiset()));
        assert((x + z + y).to_multiset() =~= (x + z).to_multiset().add(y.to_multiset()));
    }
    assert(x.to_multiset().add(y.to_multiset()).add(z.to_multiset()).add(w.to_multiset()) =~= x
        .to_multiset()
        .add(z.to_multiset())
        .add(y.to_multiset())
        .add(w.to_multiset()));
    assert(splice_range(t, i, j, k).to_multiset() =~= t.to_multiset());
    lemma_permuted_tour(t, splice_range(t, i, j, k), n);
}

/// Reverse the segment `[i, j)` of a tour in place.
fn reverse_range(v: &mut Vec<usize>, i: usize, j: usize)
    requires
        i <= j <= old(v)@.len(),
    ensures
        final(v)@ == rev_range(old(v)@, i as int, j as int),
        final(v)@.len() == old(v)@.len(),
{
    let mut lo: usize = i;
    let mut hi: usize = j;
    while hi - lo > 1
        invariant
            i <= lo <= hi <= j <= v@.len(),
            v@.len() == old(v)@.len(),
            lo - i == j - hi,
            forall|m: int| 0 <= m < i ==> (#[trigger] v@[m]) == old(v)@[m],
            forall|m: int| j <= m < v@.len() ==> (#[trigger] v@[m]) == old(v)@[m],
            forall|m: int| i <= m < lo ==> (#[trigger] v@[m]) == old(v)@[i + j - 1 - m],
            forall|m: int| hi <= m < j ==> (#[trigger] v@[m]) == old(v)@[i + j - 1 - m],
            forall|m: int| lo <= m < hi ==> (#[trigger] v@[m]) == old(v)@[m],
        decreases hi - lo,
    {
        let x: usize = v[lo];
        let y: usize = v[hi - 1];
        v.set(lo, y);
        v.set(hi - 1, x);
        lo = lo + 1;
        hi = hi - 1;
    }
    proof {
        let t = old(v)@;
        let rr = rev_range(t, i as int, j as int);
        assert(t.take(i as int).len() == i);
        assert(t.subrange(i as int, j as int).reverse().len() == j - i);
        assert(t.skip(j as int).len() == t.len() - j);
        assert forall|m: int| 0 <= m < v@.len() implies v@[m] == rr[m] by {
            if m < i {
                assert(rr[m] == t.take(i as int)[m]);
            } else if m < j {
                assert(rr[m] == t.subrange(i as int, j as int).reverse()[m - i]);
                assert(t.subrange(i as int, j as int).reverse()[m - i] == t.subrange(
                    i as int,
                    j as int,
                )[(j - i) - 1 - (m - i)]);
                assert(t.subrange(i as int, j as int)[(j - i) - 1 - (m - i)] == t[i + j - 1 - m]);
            } else {
                assert(rr[m] == t.skip(j as int)[m - j]);
            }
        }
        assert(v@ =~= rr);
    }
}

/// The tour with the segments `[i, j)` and `[j, k)` exchanged without
/// reversal.
fn spliced(v: &Vec<usize>, i: usize, j: usize, k: usize) -> (r: Vec<usize>)
    requires
        i <= j <= k <= v@.len(),
    ensures
        r@ == splice_range(v@, i as int, j as int, k as int),
        r@.len() == v@.len(),
{
    let mut r: Vec<usize> = Vec::new();
    let mut m: usize = 0;
    while m < i
        invariant
            m <= i <= v@.len(),
            r@ == v@.subrange(0, m as int),
        decreases i - m,
    {
        r.push(v[m]);
        proof {
            assert(r@ =~= v@.subrange(0, m + 1));
        }
        m = m + 1;
    }
    let mut m2: usize = j;
    while m2 < k
        invariant
            j <= m2 <= k <= v@.len(),
            i <= j,
            r@ == v@.subrange(0, i as int) + v@.subrange(j as int, m2 as int),
        decreases k - m2,
    {
        r.push(v[m2]);
        proof {
            assert(r@ =~= v@.subrange(0, i as int) + v@.subrange(j as int, m2 + 1));
        }
        m2 = m2 + 1;
    }
    let mut m3: usize = i;
    while m3 < j
        invariant
            i <= m3 <= j <= k <= v@.len(),
            r@ == v@.subrange(0, i as int) + v@.subrange(j as int, k as int) + v@.subrange(
                i as int,
                m3 as int,
            ),
        decreases j - m3,
    {
        r.push(v[m3]);
        proof {
            assert(r@ =~= v@.subrange(0, i as int) + v@.subrange(j as int, k as int) + v@.subrange(
                i as int,
                m3 + 1,
            ));
        }
        m3 = m3 + 1;
    }
    let mut m4: usize = k;
    let len: usize = v.len();
    while m4 < len
        invariant
            k <= m4 <= len,
            len == v@.len(),
            i <= j <= k,
            r@ == v@.subrange(0, i as int) + v@.subrange(j as int, k as int) + v@.subrange(
                i as int,
                j as int,
            ) + v@.subrange(k as int, m4 as int),
        decreases len - m4,
    {
        r.push(v[m4]);
        proof {
            assert(r@ =~= v@.subrange(0, i as int) + v@.subrange(j as int, k as int) + v@.subrange(
                i as int,
                j as int,
            ) + v@.subrange(k as int, m4 + 1));
        }
        m4 = m4 + 1;
    }
    proof {
        assert(v@.take(i as int) =~= v@.subrange(0, i as int));
        assert(v@.skip(k as int) =~= v@.subrange(k as int, v@.len() as int));
        assert(r@ =~= splice_range(v@, i as int, j as int, k as int));
    }
    r
}

/// The result of one improvement step: the current tour and whether the
/// engine has reached a local optimum.
#[derive(Clone, Debug)]
pub struct CycleResult {
    pub shortest_tour: Vec<usize>,
    pub done: bool,
}

/// The local-search engine: the problem instance and its single candidate
/// tour.
#[derive(Debug)]
pub struct Instance {
    pub n: usize,
    pub cities: Vec<City>,
    pub edges: Edges,
    pub tour: Vec<usize>,
    pub cycle_count: usize,
}

impl Instance {
    /// A well-formed engine: the store matches the cities and the
    /// candidate tour is a permutation of all of them.
    pub open spec fn wf(self) -> bool {
        &&& self.edges.wf()
        &&& self.n == self.cities@.len()
        &&& self.edges.n() == self.n
        &&& is_tour(self.tour@, self.n as int)
    }

    /// Build the engine over the given cities, starting from the identity
    /// tour.
    pub fn new(cities: &[City]) -> (r: Instance)
        requires
            2 <= cities@.len() <= N_MAX,
            forall|k: int| 0 <= k < cities@.len() ==> (#[trigger] cities@[k]).in_bounds(),
        ensures
            r.wf(),
            r.n == cities@.len(),
            r.cities@ == cities@,
            r.cycle_count == 0,
            r.tour@.len() == cities@.len(),
            forall|k: int| 0 <= k < cities@.len() ==> (#[trigger] r.tour@[k]) == k,
            forall|i: int, j: int|
                0 <= i < cities@.len() && 0 <= j < cities@.len() && i != j
                    ==> (#[trigger] r.edges.spec_get(i, j)).distance == cities@[i].dist_spec(
                    cities@[j],
                ) && r.edges.spec_get(i, j).trail == 0 && r.edges.spec_get(i, j).trail_delta == 0,
    {
        let n: usize = cities.len();
        let edges = Edges::new(cities);
        let mut tour: Vec<usize> = Vec::new();
        let mut k: usize = 0;
        while k < n
            invariant
                k <= n,
                tour@.len() == k,
                forall|m: int| 0 <= m < k ==> (#[trigger] tour@[m]) == m,
            decreases n - k,
        {
            tour.push(k);
            k = k + 1;
        }
        let mut own_cities: Vec<City> = Vec::new();
        let mut m: usize = 0;
        while m < n
            invariant
                m <= n,
                n == cities@.len(),
                own_cities@ == cities@.subrange(0, m as int),
            decreases n - m,
        {
            own_cities.push(cities[m]);
            proof {
                assert(own_cities@ =~= cities@.subrange(0, m + 1));
            }
            m = m + 1;
        }
        proof {
            assert(own_cities@ =~= cities@);
            assert(tour@.no_duplicates());
            assert forall|i: int, j: int|
                0 <= i < cities@.len() && 0 <= j < cities@.len() && i != j implies (
            #[trigger] edges.spec_get(i, j)).distance == cities@[i].dist_spec(cities@[j])
                && edges.spec_get(i, j).trail == 0 && edges.spec_get(i, j).trail_delta == 0 by {
                lemma_dist_spec_bound(cities@[i], cities@[j]);
            }
        }
        Instance { n, cities: own_cities, edges, tour, cycle_count: 0 }
    }

    /// All valid combinations, in the lexicographic scan order: the result
    /// holds exactly the valid combinations, each once, strictly
    /// increasing.
    pub fn combinations(&self) -> (r: Vec<(usize, usize, usize)>)
        requires
            self.wf(),
        ensures
            forall|c: (usize, usize, usize)|
                #[trigger] r@.contains(c) <==> valid_comb(self.n as int, c),
            forall|x: int, y: int| 0 <= x < y < r@.len() ==> lex_lt(#[trigger] r@[x], #[trigger] r@[y]),
    {
        let n: usize = self.n;
        let mut r: Vec<(usize, usize, usize)> = Vec::new();
        let mut i: usize = 0;
        while i < n
            invariant
                i <= n,
                n == self.n,
                2 <= n <= N_MAX,
                forall|c: (usize, usize, usize)|
                    #[trigger] r@.contains(c) <==> (valid_comb(n as int, c) && c.0 < i),
                forall|x: int, y: int|
                    0 <= x < y < r@.len() ==> lex_lt(#[trigger] r@[x], #[trigger] r@[y]),
            decreases n - i,
        {
            let mut j: usize = i + 2;
            while j < n
                invariant
                    i + 2 <= j <= n + 2,
                    i < n,
                    n == self.n,
                    2 <= n <= N_MAX,
                    forall|c: (usize, usize, usize)|
                        #[trigger] r@.contains(c) <==> (valid_comb(n as int, c) && (c.0 < i || (
                        c.0 == i && c.1 < j))),
                    forall|x: int, y: int|
                        0 <= x < y < r@.len() ==> lex_lt(#[trigger] r@[x], #[trigger] r@[y]),
                decreases n - j,
            {
                let end: usize = if i > 0 {
                    n + 1
                } else {
                    n
                };
                let mut k: usize = j + 2;
                while k < end
                    invariant
                        j + 2 <= k <= end + 2,
                        i + 2 <= j < n,
                        i < n,
                        n == self.n,
                        2 <= n <= N_MAX,
                        end as int == (if i > 0 {
                            n as int + 1
                        } else {
                            n as int
                        }),
                        forall|c: (usize, usize, usize)|
                            #[trigger] r@.contains(c) <==> (valid_comb(n as int, c) && (c.0 < i
                                || (c.0 == i && c.1 < j) || (c.0 == i && c.1 == j && c.2 < k))),
                        forall|x: int, y: int|
                            0 <= x < y < r@.len() ==> lex_lt(
                                #[trigger] r@[x],
                                #[trigger] r@[y],
                            ),
                    decreases end - k,
                {
                    let ghost pre = r@;
                    let cmb: (usize, usize, usize) = (i, j, k);
                    r.push(cmb);
                    proof {
                        assert(valid_comb(n as int, cmb));
                        assert forall|c: (usize, usize, usize)| #[trigger] r@.contains(c) implies (
                        valid_comb(n as int, c) && (c.0 < i || (c.0 == i && c.1 < j) || (c.0 == i
                            && c.1 == j && c.2 < k + 1))) by {
                            let m = choose|m: int| 0 <= m < r@.len() && r@[m] == c;
                            if m < pre.len() {
                                assert(pre[m] == c);
                                assert(pre.contains(c));
                            }
                        }
                        assert forall|c: (usize, usize, usize)|
                            valid_comb(n as int, c) && (c.0 < i || (c.0 == i && c.1 < j) || (c.0
                                == i && c.1 == j && c.2 < k + 1)) implies #[trigger] r@.contains(
                            c,
                        ) by {
                            if c == cmb {
                                assert(r@[pre.len() as int] == c);
                            } else {
                                assert(pre.contains(c));
                                let m = choose|m: int| 0 <= m < pre.len() && pre[m] == c;
                                assert(r@[m] == c);
                            }
                        }
                        assert forall|x: int, y: int| 0 <= x < y < r@.len() implies lex_lt(
                            #[trigger] r@[x],
                            #[trigger] r@[y],
                        ) by {
                            if y == pre.len() {
                                assert(pre[x] == r@[x]);
                                assert(pre.contains(pre[x]));
                            }
                        }
                    }
                    k = k + 1;
                }
                j = j + 1;
            }
            i = i + 1;
        }
        r
    }

    /// The stored distance between two distinct cities of the instance.
    fn leg_dist(&self, x: usize, y: usize) -> (d: u64)
        requires
            self.wf(),
            x < self.n,
            y < self.n,
            x != y,
        ensures
            d == leg(self.edges, x, y),
            d <= DIST_MAX,
    {
        proof {
            lemma_pair_index_in_range(self.edges.n(), x as int, y as int);
        }
        self.edges.get(x, y).distance
    }

    /// Try the four reconnection patterns of one combination against the
    /// three edges it cuts, apply the first strictly improving one to the
    /// tour, and report whether any improved. The new tour is exactly
    /// `apply_comb` of the old.
    pub fn try_combination(&mut self, combination: &(usize, usize, usize)) -> (improved: bool)
        requires
            old(self).wf(),
            valid_comb(old(self).n as int, *combination),
        ensures
            final(self).wf(),
            final(self).n == old(self).n,
            final(self).cities == old(self).cities,
            final(self).edges == old(self).edges,
            final(self).cycle_count == old(self).cycle_count,
            improved == comb_improves(
                old(self).edges,
                old(self).tour@,
                old(self).n as int,
                *combination,
            ),
            final(self).tour@ == apply_comb(
                old(self).edges,
                old(self).tour@,
                old(self).n as int,
                *combination,
            ),
    {
        let i: usize = combination.0;
        let j: usize = combination.1;
        let k: usize = combination.2;
        let n: usize = self.n;
        let ghost t = self.tour@;
        let ghost cb = *combination;
        let a: usize = if i == 0 {
            self.tour[n - 1]
        } else {
            self.tour[i - 1]
        };
        let b: usize = self.tour[i];
        let c: usize = self.tour[j - 1];
        let d: usize = self.tour[j];
        let e: usize = self.tour[k - 1];
        let f: usize = if k == n {
            self.tour[0]
        } else {
            self.tour[k]
        };
        proof {
            assert(a == city_a(t, n as int, cb));
            assert(b == city_b(t, cb));
            assert(c == city_c(t, cb));
            assert(d == city_d(t, cb));
            assert(e == city_e(t, cb));
            assert(f == city_f(t, n as int, cb));
            assert(a != b);
            assert(c != d);
            assert(e != f);
            assert(a != c);
            assert(b != d);
            assert(c != e);
            assert(d != f);
            assert(b != e);
            assert(a != d);
            assert(c != f);
            assert(e != b);
        }
        let current: u64 = self.leg_dist(a, b) + self.leg_dist(c, d) + self.leg_dist(e, f);
        let first_try: u64 = self.leg_dist(a, c) + self.leg_dist(b, d) + self.leg_dist(e, f);
        if first_try < current {
            reverse_range(&mut self.tour, i, j);
            proof {
                lemma_rev_range_is_tour(t, n as int, i as int, j as int);
            }
            return true;
        }
        let second_try: u64 = self.leg_dist(a, b) + self.leg_dist(c, e) + self.leg_dist(d, f);
        if second_try < current {
            reverse_range(&mut self.tour, j, k);
            proof {
                lemma_rev_range_is_tour(t, n as int, j as int, k as int);
            }
            return true;
        }
        let third_try: u64 = self.leg_dist(a, c) + self.leg_dist(b, e) + self.leg_dist(d, f);
        if third_try < current {
            reverse_range(&mut self.tour, i, j);
            proof {
                lemma_rev_range_is_tour(t, n as int, i as int, j as int);
            }
            reverse_range(&mut self.tour, j, k);
            proof {
                lemma_rev_range_is_tour(rev_range(t, i as int, j as int), n as int, j as int, k as int);
            }
            return true;
        }
        let fourth_try: u64 = self.leg_dist(a, d) + self.leg_dist(e, b) + self.leg_dist(c, f);
        if fourth_try < current {
            let new_tour = spliced(&self.tour, i, j, k);
            self.tour = new_tour;
            proof {
                lemma_splice_range_is_tour(t, n as int, i as int, j as int, k as int);
            }
            return true;
        }
        false
    }

    /// One improvement pass: scan the combinations in order and apply the
    /// first improving move. The step is done — a local optimum — exactly
    /// when no valid combination improves the tour, and then the tour is
    /// left unchanged; otherwise the tour becomes the first improving
    /// move's result.
    pub fn cycle(&mut self) -> (r: CycleResult)
        requires
            old(self).wf(),
        ensures
            final(self).wf(),
            final(self).n == old(self).n,
            final(self).cities == old(self).cities,
            final(self).edges == old(self).edges,
            final(self).cycle_count == old(self).cycle_count,
            r.done == !(exists|c: (usize, usize, usize)|
                valid_comb(old(self).n as int, c) && #[trigger] comb_improves(
                    old(self).edges,
                    old(self).tour@,
                    old(self).n as int,
                    c,
                )),
            r.done ==> final(self).tour@ == old(self).tour@,
            !r.done ==> (exists|c: (usize, usize, usize)|
                #[trigger] is_first_improving(
                    old(self).edges,
                    old(self).tour@,
                    old(self).n as int,
                    c,
                ) && final(self).tour@ == apply_comb(
                    old(self).edges,
                    old(self).tour@,
                    old(self).n as int,
                    c,
                )),
            r.shortest_tour@ == final(self).tour@,
    {
        let combs = self.combinations();
        let ghost t0 = self.tour@;
        let ghost e0 = self.edges;
        let ghost n0 = self.n as int;
        let mut idx: usize = 0;
        while idx < combs.len()
            invariant
                idx <= combs@.len(),
                self.wf(),
                self.n == old(self).n,
                self.cities == old(self).cities,
                self.edges == old(self).edges,
                self.cycle_count == old(self).cycle_count,
                self.tour@ == old(self).tour@,
                t0 == old(self).tour@,
                e0 == old(self).edges,
                n0 == old(self).n as int,
                forall|c: (usize, usize, usize)| #[trigger] combs@.contains(c) <==> valid_comb(
                    n0,
                    c,
                ),
                forall|x: int, y: int|
                    0 <= x < y < combs@.len() ==> lex_lt(
                        #[trigger] combs@[x],
                        #[trigger] combs@[y],
                    ),
                forall|m: int| 0 <= m < idx ==> !comb_improves(e0, t0, n0, #[trigger] combs@[m]),
            decreases combs@.len() - idx,
        {
            let comb: (usize, usize, usize) = combs[idx];
            proof {
                assert(combs@.contains(comb));
            }
            let improved: bool = self.try_combination(&comb);
            if improved {
                proof {
                    assert forall|c2: (usize, usize, usize)|
                        valid_comb(n0, c2) && lex_lt(c2, comb) implies !comb_improves(
                        e0,
                        t0,
                        n0,
                        c2,
                    ) by {
                        assert(combs@.contains(c2));
                        let m = choose|m: int| 0 <= m < combs@.len() && combs@[m] == c2;
                        if m > idx {
                            assert(lex_lt(combs@[idx as int], combs@[m]));
                        }
                    }
                    assert(is_first_improving(e0, t0, n0, comb));
                }
                let tour_copy = copied_tour(&self.tour);
                return CycleResult { shortest_tour: tour_copy, done: false };
            }
            idx = idx + 1;
        }
        proof {
            assert forall|c: (usize, usize, usize)| valid_comb(n0, c) implies !comb_improves(
                e0,
                t0,
                n0,
                c,
            ) by {
                assert(combs@.contains(c));
                let m = choose|m: int| 0 <= m < combs@.len() && combs@[m] == c;
                assert(!comb_improves(e0, t0, n0, combs@[m]));
            }
        }
        let tour_copy = copied_tour(&self.tour);
        CycleResult { shortest_tour: tour_copy, done: true }
    }
}

/// The combination that the scan applies: the lexicographically first
/// valid combination that improves the tour.
pub open spec fn is_first_improving(
    e: Edges,
    t: Seq<usize>,
    n: int,
    c: (usize, usize, usize),
) -> bool {
    &&& valid_comb(n, c)
    &&& comb_improves(e, t, n, c)
    &&& forall|c2: (usize, usize, usize)|
        valid_comb(n, c2) && lex_lt(c2, c) ==> !(#[trigger] comb_improves(e, t, n, c2))
}

/// A local optimum is a terminal state: once no combination improves a
/// tour, the improvement step maps the tour to itself, so re-invoking the
/// step changes neither the tour nor its length.
pub proof fn lemma_local_optimum_is_stable(e: Edges, t: Seq<usize>, n: int)
    requires
        forall|c: (usize, usize, usize)|
            valid_comb(n, c) ==> !(#[trigger] comb_improves(e, t, n, c)),
    ensures
        forall|c: (usize, usize, usize)|
            valid_comb(n, c) ==> #[trigger] apply_comb(e, t, n, c) == t,
{
    assert forall|c: (usize, usize, usize)| valid_comb(n, c) implies #[trigger] apply_comb(
        e,
        t,
        n,
        c,
    ) == t by {
        assert(!comb_improves(e, t, n, c));
    }
}

} // verus!

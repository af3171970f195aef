//! Cities: immutable 2-D points in milli-unit coordinates, with their exact
//! integer Euclidean distance.

use vstd::prelude::*;

use crate::fixed::{isqrt, lemma_sqrt_floor_bounds, sqrt_floor};

verus! {

/// Largest admissible coordinate magnitude, in milli-units (one million
/// units), chosen so that squared distances always fit in 64 bits.
pub const COORD_LIMIT: i64 = 1000000000;

/// Largest distance two in-bounds cities can have: `sqrt_floor` of the
/// largest possible squared distance is below this.
pub const DIST_MAX: u64 = 3000000000;

/// A 2-D point, in milli-units: `x == 1500` stands for one and a half units.
#[derive(Clone, Copy, Debug, PartialEq, Eq, Structural)]
pub struct City {
    pub x: i64,
    pub y: i64,
}

impl City {
    /// Both coordinates are within the admissible range.
    pub open spec fn in_bounds(self) -> bool {
        -COORD_LIMIT <= self.x <= COORD_LIMIT && -COORD_LIMIT <= self.y <= COORD_LIMIT
    }

    /// The Euclidean distance between two cities, rounded down to a whole
    /// number of milli-units.
    pub open spec fn dist_spec(self, other: City) -> int {
        sqrt_floor(
            (self.x - other.x) * (self.x - other.x) + (self.y - other.y) * (self.y - other.y),
        )
    }

    /// Euclidean distance in milli-units, rounded down.
    pub fn distance(&self, city: &City) -> (r: u64)
        requires
            self.in_bounds(),
            city.in_bounds(),
        ensures
            r == self.dist_spec(*city),
            r <= DIST_MAX,
    {
        let dx: i64 = self.x - city.x;
        let dy: i64 = self.y - city.y;
        proof {
            assert(0 <= dx * dx <= 4000000000000000000int && 0 <= dy * dy
                <= 4000000000000000000int) by (nonlinear_arith)
                requires
                    -2000000000int <= dx <= 2000000000int,
                    -2000000000int <= dy <= 2000000000int;
        }
        let dd: i64 = dx * dx + dy * dy;
        let r: u64 = isqrt(dd as u64);
        proof {
            lemma_sqrt_floor_bounds(dd as int);
            assert(sqrt_floor(dd as int) < 3000000000int) by (nonlinear_arith)
                requires
                    0 <= dd <= 8000000000000000000int,
                    sqrt_floor(dd as int) >= 0,
                    sqrt_floor(dd as int) * sqrt_floor(dd as int) <= dd as int;
        }
        r
    }
}

/// The distance between two cities does not depend on the order in which
/// they are given.
pub proof fn lemma_distance_symmetric(a: City, b: City)
    ensures
        a.dist_spec(b) == b.dist_spec(a),
{
    assert((a.x - b.x) * (a.x - b.x) == (b.x - a.x) * (b.x - a.x) && (a.y - b.y) * (a.y - b.y)
        == (b.y - a.y) * (b.y - a.y)) by (nonlinear_arith);
}

/// Distances between in-bounds cities are non-negative and bounded.
pub proof fn lemma_dist_spec_bound(a: City, b: City)
    requires
        a.in_bounds(),
        b.in_bounds(),
    ensures
        0 <= a.dist_spec(b) <= DIST_MAX,
{
    let dd = (a.x - b.x) * (a.x - b.x) + (a.y - b.y) * (a.y - b.y);
    assert(0 <= dd <= 8000000000000000000int) by (nonlinear_arith)
        requires
            dd == (a.x - b.x) * (a.x - b.x) + (a.y - b.y) * (a.y - b.y),
            -2000000000int <= a.x - b.x <= 2000000000int,
            -2000000000int <= a.y - b.y <= 2000000000int;
    lemma_sqrt_floor_bounds(dd);
    assert(sqrt_floor(dd) < 3000000000int) by (nonlinear_arith)
        requires
            0 <= dd <= 8000000000000000000int,
            sqrt_floor(dd) >= 0,
            sqrt_floor(dd) * sqrt_floor(dd) <= dd;
}

} // verus!

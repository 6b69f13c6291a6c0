//! Cities on an integer grid, the distance between two of them, and the cost
//! of a closed tour.
//!
//! Coordinates are grid steps. Distances are Euclidean distances rounded down
//! to a whole number of grid steps, so every cost is an exact integer and a
//! strict improvement is a decrease by at least one step.

use vstd::prelude::*;

verus! {

/// A city at a point of the grid.
#[derive(Clone, Copy, Debug, PartialEq, Eq, Structural)]
pub struct City {
    pub x: i32,
    pub y: i32,
}

/// `r` is the square root of `s`, rounded down.
pub open spec fn is_floor_sqrt(s: nat, r: nat) -> bool {
    r * r <= s < (r + 1) * (r + 1)
}

/// The square root of `s`, rounded down.
pub open spec fn floor_sqrt(s: nat) -> nat {
    choose|r: nat| is_floor_sqrt(s, r)
}

/// The square of the Euclidean distance between two cities.
pub open spec fn squared_distance(a: City, b: City) -> nat {
    ((a.x - b.x) * (a.x - b.x) + (a.y - b.y) * (a.y - b.y)) as nat
}

/// The Euclidean distance between two cities, rounded down to grid steps.
pub open spec fn distance(a: City, b: City) -> nat {
    floor_sqrt(squared_distance(a, b))
}

/// No distance between two cities reaches this bound.
pub open spec fn distance_bound() -> nat {
    0x2_0000_0000
}

/// At most one number is the rounded-down square root of `s`.
pub proof fn lemma_floor_sqrt_unique(s: nat, r1: nat, r2: nat)
    requires
        is_floor_sqrt(s, r1),
        is_floor_sqrt(s, r2),
    ensures
        r1 == r2,
{
    if r1 < r2 {
        assert((r1 + 1) * (r1 + 1) <= r2 * r2) by (nonlinear_arith)
            requires
                r1 + 1 <= r2,
        ;
    } else if r2 < r1 {
        assert((r2 + 1) * (r2 + 1) <= r1 * r1) by (nonlinear_arith)
            requires
                r2 + 1 <= r1,
        ;
    }
}

/// A number that passes the test of `is_floor_sqrt` is the rounded-down root.
pub proof fn lemma_floor_sqrt_is(s: nat, r: nat)
    requires
        is_floor_sqrt(s, r),
    ensures
        floor_sqrt(s) == r,
{
    let c = floor_sqrt(s);
    assert(is_floor_sqrt(s, c));
    lemma_floor_sqrt_unique(s, c, r);
}

/// The square root of `s`, rounded down.
pub fn integer_sqrt(s: u128) -> (r: u64)
    requires
        s < 0x4_0000_0000_0000_0000,
    ensures
        is_floor_sqrt(s as nat, r as nat),
        r as nat == floor_sqrt(s as nat),
        r < 0x2_0000_0000,
{
    let mut lo: u64 = 0;
    let mut hi: u64 = 0x2_0000_0000;
    while hi - lo > 1
        invariant
            lo < hi <= 0x2_0000_0000,
            lo * lo <= s,
            s < hi * hi,
        decreases hi - lo,
    {
        let mid: u64 = lo + (hi - lo) / 2;
        assert(mid * mid < 0x4_0000_0000_0000_0000) by (nonlinear_arith)
            requires
                0 <= mid < 0x2_0000_0000,
        ;
        let square: u128 = (mid as u128) * (mid as u128);
        if square <= s {
            lo = mid;
        } else {
            hi = mid;
        }
    }
    proof {
        assert(hi == lo + 1);
        lemma_floor_sqrt_is(s as nat, lo as nat);
    }
    lo
}

/// Distances do not depend on the direction of travel.
pub proof fn lemma_distance_symmetric(a: City, b: City)
    ensures
        distance(a, b) == distance(b, a),
{
    assert(squared_distance(a, b) == squared_distance(b, a)) by (nonlinear_arith)
        requires
            squared_distance(a, b) == ((a.x - b.x) * (a.x - b.x) + (a.y - b.y) * (a.y - b.y)) as nat,
            squared_distance(b, a) == ((b.x - a.x) * (b.x - a.x) + (b.y - a.y) * (b.y - a.y)) as nat,
    ;
}

/// The squared distance between two cities stays below 2^65.
pub proof fn lemma_squared_distance_bound(a: City, b: City)
    ensures
        squared_distance(a, b) < 0x2_0000_0000_0000_0000,
        squared_distance(a, b) == (a.x - b.x) * (a.x - b.x) + (a.y - b.y) * (a.y - b.y),
{
    let dx = a.x - b.x;
    let dy = a.y - b.y;
    assert(0 <= dx * dx <= 0xffff_ffff * 0xffff_ffff) by (nonlinear_arith)
        requires
            -0xffff_ffff <= dx <= 0xffff_ffff,
    ;
    assert(0 <= dy * dy <= 0xffff_ffff * 0xffff_ffff) by (nonlinear_arith)
        requires
            -0xffff_ffff <= dy <= 0xffff_ffff,
    ;
}

/// Every distance is below `distance_bound()`, and a city is at distance 0
/// from itself.
pub proof fn lemma_distance_bound(a: City, b: City)
    ensures
        distance(a, b) < distance_bound(),
        is_floor_sqrt(squared_distance(a, b), distance(a, b)),
{
    lemma_squared_distance_bound(a, b);
    let s = squared_distance(a, b);
    lemma_floor_sqrt_exists(s);
    let r = distance(a, b);
    if r >= 0x2_0000_0000 {
        assert(r * r >= 0x2_0000_0000 * 0x2_0000_0000) by (nonlinear_arith)
            requires
                r >= 0x2_0000_0000,
        ;
    }
}

/// Every number has a rounded-down square root.
pub proof fn lemma_floor_sqrt_exists(s: nat)
    ensures
        is_floor_sqrt(s, floor_sqrt(s)),
    decreases s,
{
    if s == 0 {
        assert(is_floor_sqrt(0, 0)) by (nonlinear_arith);
    } else {
        lemma_floor_sqrt_exists((s - 1) as nat);
        let r = floor_sqrt((s - 1) as nat);
        if s < (r + 1) * (r + 1) {
            assert(is_floor_sqrt(s, r));
        } else {
            assert(is_floor_sqrt(s, r + 1)) by (nonlinear_arith)
                requires
                    r * r <= s - 1,
                    s - 1 < (r + 1) * (r + 1),
                    s >= (r + 1) * (r + 1),
            ;
        }
    }
}

/// The Euclidean distance between two cities, rounded down to grid steps.
pub fn euclidean_distance(a: &City, b: &City) -> (d: u64)
    ensures
        d as nat == distance(*a, *b),
        d < 0x2_0000_0000,
{
    let dx: i64 = a.x as i64 - b.x as i64;
    let dy: i64 = a.y as i64 - b.y as i64;
    proof {
        lemma_squared_distance_bound(*a, *b);
        assert(0 <= dx * dx <= 0xffff_ffff * 0xffff_ffff) by (nonlinear_arith)
            requires
                -0xffff_ffff <= dx <= 0xffff_ffff,
        ;
        assert(0 <= dy * dy <= 0xffff_ffff * 0xffff_ffff) by (nonlinear_arith)
            requires
                -0xffff_ffff <= dy <= 0xffff_ffff,
        ;
    }
    let sx: u128 = (dx as i128 * dx as i128) as u128;
    let sy: u128 = (dy as i128 * dy as i128) as u128;
    integer_sqrt(sx + sy)
}

} // verus!

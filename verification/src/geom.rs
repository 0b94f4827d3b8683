//! Planar geometry on integer millimeter coordinates: squared distance,
//! a verified integer square root, and straight-line travel time at a
//! constant speed.

use vstd::prelude::*;

verus! {

/// Largest coordinate magnitude the planar frame admits (millimeters).
/// Keeps every squared distance inside the unsigned 64-bit range.
pub const COORD_LIMIT: i64 = 1_000_000_000;

/// A planar point with coordinates of bounded magnitude.
pub open spec fn coords_in_range(p: (i64, i64)) -> bool {
    -COORD_LIMIT <= p.0 <= COORD_LIMIT && -COORD_LIMIT <= p.1 <= COORD_LIMIT
}

/// Squared Euclidean distance between two planar points.
pub open spec fn dist2(a: (i64, i64), b: (i64, i64)) -> int {
    (a.0 - b.0) * (a.0 - b.0) + (a.1 - b.1) * (a.1 - b.1)
}

/// The integer square root: the unique `r >= 0` with `r * r <= n < (r + 1) * (r + 1)`.
pub open spec fn sqrt_floor(n: int) -> int {
    choose|r: int| 0 <= r && #[trigger] (r * r) <= n && n < (r + 1) * (r + 1)
}

/// Any two integer square roots of the same value coincide.
proof fn lemma_sqrt_unique(n: int, r1: int, r2: int)
    requires
        0 <= r1 && r1 * r1 <= n && n < (r1 + 1) * (r1 + 1),
        0 <= r2 && r2 * r2 <= n && n < (r2 + 1) * (r2 + 1),
    ensures
        r1 == r2,
{
    assert(r1 < r2 ==> (r1 + 1) * (r1 + 1) <= r2 * r2) by (nonlinear_arith)
        requires 0 <= r1, 0 <= r2;
    assert(r2 < r1 ==> (r2 + 1) * (r2 + 1) <= r1 * r1) by (nonlinear_arith)
        requires 0 <= r1, 0 <= r2;
}

/// Pins `sqrt_floor(n)` once a witness is known.
pub proof fn lemma_sqrt_floor_is(n: int, r: int)
    requires
        0 <= r && r * r <= n && n < (r + 1) * (r + 1),
    ensures
        sqrt_floor(n) == r,
{
    let w = choose|w: int| 0 <= w && #[trigger] (w * w) <= n && n < (w + 1) * (w + 1);
    lemma_sqrt_unique(n, w, r);
}

/// Integer square root by bisection. The input bound keeps the midpoint
/// square inside the 64-bit range.
pub fn isqrt(n: u64) -> (r: u64)
    requires
        n <= 8_000_000_000_000_000_000,
    ensures
        r * r <= n < (r + 1) * (r + 1),
        r == sqrt_floor(n as int),
{
    let mut lo: u64 = 0;
    let mut hi: u64 = 2_900_000_000;
    proof {
        assert(2_900_000_001int * 2_900_000_001int > 8_000_000_000_000_000_000int)
            by (nonlinear_arith);
    }
    while lo < hi
        invariant
            lo <= hi <= 2_900_000_000,
            lo * lo <= n,
            n < (hi + 1) * (hi + 1),
        decreases hi - lo,
    {
        let mid: u64 = lo + (hi - lo + 1) / 2;
        proof {
            assert(mid as int * mid as int <= 2_900_000_000int * 2_900_000_000int)
                by (nonlinear_arith)
                requires 0 <= mid as int <= 2_900_000_000int;
        }
        if mid * mid <= n {
            lo = mid;
        } else {
            hi = mid - 1;
        }
    }
    proof {
        lemma_sqrt_floor_is(n as int, lo as int);
    }
    lo
}

/// Euclidean distance, rounded down to whole millimeters.
pub open spec fn dist_spec(a: (i64, i64), b: (i64, i64)) -> int {
    sqrt_floor(dist2(a, b))
}

/// Straight-line travel time in whole seconds at `speed` millimeters per
/// second, rounded down.
pub open spec fn travel_time_spec(a: (i64, i64), b: (i64, i64), speed: u64) -> int
    recommends
        speed >= 1,
{
    dist_spec(a, b) / (speed as int)
}

/// Travel between coincident points takes no time.
pub proof fn lemma_travel_time_zero(a: (i64, i64), speed: u64)
    requires
        speed >= 1,
    ensures
        travel_time_spec(a, a, speed) == 0,
{
    assert(dist2(a, a) == 0) by (nonlinear_arith);
    lemma_sqrt_floor_is(0, 0);
}

/// Bounds the squared distance of in-range points.
proof fn lemma_dist2_bound(a: (i64, i64), b: (i64, i64))
    requires
        coords_in_range(a),
        coords_in_range(b),
    ensures
        0 <= dist2(a, b) <= 8_000_000_000_000_000_000,
{
    let dx = a.0 - b.0;
    let dy = a.1 - b.1;
    assert(-2_000_000_000 <= dx <= 2_000_000_000);
    assert(-2_000_000_000 <= dy <= 2_000_000_000);
    assert(dx * dx <= 4_000_000_000_000_000_000) by (nonlinear_arith)
        requires -2_000_000_000 <= dx <= 2_000_000_000;
    assert(dy * dy <= 4_000_000_000_000_000_000) by (nonlinear_arith)
        requires -2_000_000_000 <= dy <= 2_000_000_000;
    assert(dx * dx >= 0) by (nonlinear_arith);
    assert(dy * dy >= 0) by (nonlinear_arith);
}

/// Straight-line travel time between two in-range planar points.
pub fn travel_time(a: (i64, i64), b: (i64, i64), speed: u64) -> (r: u64)
    requires
        coords_in_range(a),
        coords_in_range(b),
        speed >= 1,
    ensures
        r == travel_time_spec(a, b, speed),
{
    proof {
        lemma_dist2_bound(a, b);
    }
    let dx: i64 = a.0 - b.0;
    let dy: i64 = a.1 - b.1;
    proof {
        assert(dx * dx + dy * dy == dist2(a, b));
        assert(dx * dx >= 0 && dy * dy >= 0) by (nonlinear_arith);
        assert(dx * dx <= 4_000_000_000_000_000_000 && dy * dy <= 4_000_000_000_000_000_000)
            by (nonlinear_arith)
            requires -2_000_000_000 <= dx <= 2_000_000_000 && -2_000_000_000 <= dy <= 2_000_000_000;
    }
    let d2: u64 = (dx * dx) as u64 + (dy * dy) as u64;
    let dist: u64 = isqrt(d2);
    dist / speed
}

} // verus!

//! Points on the integer plane, squared Euclidean distances and the integer
//! square root used to turn a direction into a step of a given length.
//!
//! Coordinates are counted in thousandths of a world unit, so that a speed in
//! whole units per second times a time step in milliseconds is a length in
//! the same thousandths.
use vstd::prelude::*;

verus! {

/// Largest magnitude of a coordinate of a stored position.
pub const COORD_LIMIT: i64 = 1_099_511_627_776;

/// Largest magnitude of a component of a direction vector.
pub const DIR_LIMIT: i64 = 2_199_023_255_552;

/// A position (or, under `valid_dir`, a displacement) on the plane.
#[derive(Clone, Copy, Debug, PartialEq, Eq, Structural)]
pub struct Point {
    pub x: i64,
    pub y: i64,
}

impl Point {
    /// Coordinates lie in the range that the library stores positions in.
    pub open spec fn valid(self) -> bool {
        -COORD_LIMIT <= self.x <= COORD_LIMIT && -COORD_LIMIT <= self.y <= COORD_LIMIT
    }

    /// Components lie in the range of a difference of two valid positions.
    pub open spec fn valid_dir(self) -> bool {
        -DIR_LIMIT <= self.x <= DIR_LIMIT && -DIR_LIMIT <= self.y <= DIR_LIMIT
    }

    pub open spec fn is_zero(self) -> bool {
        self.x == 0 && self.y == 0
    }

    pub fn new(x: i64, y: i64) -> (r: Point)
        ensures
            r.x == x,
            r.y == y,
    {
        Point { x, y }
    }

    pub fn zero() -> (r: Point)
        ensures
            r.is_zero(),
    {
        Point { x: 0, y: 0 }
    }
}

/// Squared Euclidean distance between two points.
pub open spec fn dist_sq(a: Point, b: Point) -> int {
    (a.x - b.x) * (a.x - b.x) + (a.y - b.y) * (a.y - b.y)
}

/// Squared length of a vector.
pub open spec fn norm_sq(v: Point) -> int {
    v.x * v.x + v.y * v.y
}

/// `r` is the square root of `n`, rounded down.
pub open spec fn is_floor_sqrt(n: int, r: int) -> bool {
    0 <= r && r * r <= n && n < (r + 1) * (r + 1)
}

pub open spec fn clamp_coord(v: int) -> int {
    if v < -COORD_LIMIT {
        -COORD_LIMIT as int
    } else if v > COORD_LIMIT {
        COORD_LIMIT as int
    } else {
        v
    }
}

/// The point `p + v`, each coordinate held to the stored range.
pub open spec fn offset_clamped(p: Point, v: Point) -> Point {
    Point { x: clamp_coord(p.x + v.x) as i64, y: clamp_coord(p.y + v.y) as i64 }
}

/// The vector from `from` to `to`.
pub open spec fn diff(to: Point, from: Point) -> Point {
    Point { x: (to.x - from.x) as i64, y: (to.y - from.y) as i64 }
}

/// Midpoint of two points, each coordinate rounded down.
pub open spec fn midpoint_spec(a: Point, b: Point) -> Point {
    Point { x: ((a.x + b.x) / 2) as i64, y: ((a.y + b.y) / 2) as i64 }
}

proof fn lemma_square_bound(d: int, lim: int)
    requires
        -lim <= d <= lim,
    ensures
        0 <= d * d <= lim * lim,
{
    assert(0 <= d * d) by (nonlinear_arith);
    assert(d * d <= lim * lim) by (nonlinear_arith)
        requires
            -lim <= d <= lim,
    ;
}

/// The squared distance between two stored positions is far below `2^128`.
pub proof fn lemma_dist_sq_bounds(a: Point, b: Point)
    requires
        a.valid(),
        b.valid(),
    ensures
        0 <= dist_sq(a, b) <= 2 * (DIR_LIMIT as int) * (DIR_LIMIT as int),
{
    lemma_square_bound(a.x - b.x, DIR_LIMIT as int);
    lemma_square_bound(a.y - b.y, DIR_LIMIT as int);
}

/// Distance does not depend on the order of the points.
pub proof fn lemma_dist_sq_symmetric(a: Point, b: Point)
    ensures
        dist_sq(a, b) == dist_sq(b, a),
{
    assert((a.x - b.x) * (a.x - b.x) == (b.x - a.x) * (b.x - a.x)) by (nonlinear_arith);
    assert((a.y - b.y) * (a.y - b.y) == (b.y - a.y) * (b.y - a.y)) by (nonlinear_arith);
}

/// `r * r`, for comparing a radius with a squared distance.
pub fn square(r: u64) -> (s: u128)
    ensures
        s == (r as int) * (r as int),
{
    assert((r as int) * (r as int) <= 0xffff_ffff_ffff_ffff * 0xffff_ffff_ffff_ffff)
        by (nonlinear_arith)
        requires
            r <= 0xffff_ffff_ffff_ffffu64,
    ;
    r as u128 * r as u128
}

/// Squared length of a direction vector.
pub fn length_sq(v: Point) -> (r: u128)
    requires
        v.valid_dir(),
    ensures
        r == norm_sq(v),
{
    proof {
        lemma_square_bound(v.x as int, DIR_LIMIT as int);
        lemma_square_bound(v.y as int, DIR_LIMIT as int);
    }
    let x = v.x as i128;
    let y = v.y as i128;
    (x * x + y * y) as u128
}

/// Squared Euclidean distance between two stored positions.
pub fn distance_sq(a: Point, b: Point) -> (r: u128)
    requires
        a.valid(),
        b.valid(),
    ensures
        r == dist_sq(a, b),
{
    let v = vector_between(a, b);
    length_sq(v)
}

/// The vector `to - from` between two stored positions.
pub fn vector_between(to: Point, from: Point) -> (r: Point)
    requires
        to.valid(),
        from.valid(),
    ensures
        r == diff(to, from),
        r.valid_dir(),
        r.x == to.x - from.x,
        r.y == to.y - from.y,
{
    Point { x: to.x - from.x, y: to.y - from.y }
}

/// The midpoint of two stored positions, rounded down on each axis.
pub fn midpoint(a: Point, b: Point) -> (r: Point)
    requires
        a.valid(),
        b.valid(),
    ensures
        r == midpoint_spec(a, b),
        r.valid(),
{
    Point { x: half_down(a.x + b.x), y: half_down(a.y + b.y) }
}

fn half_down(s: i64) -> (r: i64)
    requires
        -2 * COORD_LIMIT <= s <= 2 * COORD_LIMIT,
    ensures
        r == s as int / 2,
        -COORD_LIMIT <= r <= COORD_LIMIT,
{
    if s >= 0 {
        s / 2
    } else {
        -((1 - s) / 2)
    }
}

fn clamp(v: i128) -> (r: i64)
    ensures
        r == clamp_coord(v as int),
{
    if v < -(COORD_LIMIT as i128) {
        -COORD_LIMIT
    } else if v > COORD_LIMIT as i128 {
        COORD_LIMIT
    } else {
        v as i64
    }
}

/// `p + v`, each coordinate held to the stored range.
pub fn offset(p: Point, v: Point) -> (r: Point)
    requires
        v.valid_dir(),
    ensures
        r == offset_clamped(p, v),
        r.valid(),
{
    Point { x: clamp(p.x as i128 + v.x as i128), y: clamp(p.y as i128 + v.y as i128) }
}

/// Square root of `n`, rounded down.
pub fn isqrt(n: u128) -> (r: u128)
    ensures
        is_floor_sqrt(n as int, r as int),
{
    let mut lo: u128 = 0;
    let mut hi: u128 = 0x1_0000_0000_0000_0000;
    assert(hi * hi == 0x1_0000_0000_0000_0000_0000_0000_0000_0000);
    while hi - lo > 1
        invariant
            lo < hi <= 0x1_0000_0000_0000_0000,
            lo * lo <= n,
            n < hi * hi,
        decreases hi - lo,
    {
        let mid = lo + (hi - lo) / 2;
        assert(mid * mid <= 0xffff_ffff_ffff_ffff * 0xffff_ffff_ffff_ffff) by (nonlinear_arith)
            requires
                mid < 0x1_0000_0000_0000_0000,
        ;
        if mid * mid <= n {
            lo = mid;
        } else {
            hi = mid;
        }
    }
    lo
}

/// The floor square root is unique.
pub proof fn lemma_floor_sqrt_unique(n: int, r1: int, r2: int)
    requires
        is_floor_sqrt(n, r1),
        is_floor_sqrt(n, r2),
    ensures
        r1 == r2,
{
    if r1 < r2 {
        assert((r1 + 1) * (r1 + 1) <= r2 * r2) by (nonlinear_arith)
            requires
                0 <= r1 < r2,
        ;
    } else if r2 < r1 {
        assert((r2 + 1) * (r2 + 1) <= r1 * r1) by (nonlinear_arith)
            requires
                0 <= r2 < r1,
        ;
    }
}

} // verus!

//! The movement model: a speed and a direction, integrated once per tick.
use vstd::prelude::*;

use crate::geometry::{
    clamp_coord, diff, dist_sq, is_floor_sqrt, isqrt, length_sq, lemma_floor_sqrt_unique, norm_sq,
    offset, offset_clamped, vector_between, Point, COORD_LIMIT, DIR_LIMIT,
};

verus! {

/// Longest step taken in one tick, in thousandths of a unit.
pub const STEP_LIMIT: u64 = 1_099_511_627_776;

/// Movement intent: `speed` in whole units per second along `direction`.
/// When `stop_at_end` is set, `direction` is the displacement to a goal and
/// a step never carries past it; otherwise it is a pure heading.
#[derive(Clone, Copy, Debug, PartialEq, Eq, Structural)]
pub struct Movement {
    pub speed: u64,
    pub direction: Point,
    pub stop_at_end: bool,
}

/// The square root of `n`, rounded down.
pub open spec fn floor_sqrt(n: int) -> int {
    choose|r: int| is_floor_sqrt(n, r)
}

/// The square root of `n`, rounded up.
pub open spec fn ceil_sqrt(n: int) -> int {
    if floor_sqrt(n) * floor_sqrt(n) == n {
        floor_sqrt(n)
    } else {
        floor_sqrt(n) + 1
    }
}

/// Length of one step: speed times the tick in milliseconds, capped.
pub open spec fn step_len(speed: u64, dt: u64) -> int {
    if speed * dt > STEP_LIMIT {
        STEP_LIMIT as int
    } else {
        speed * dt
    }
}

/// `d * len / n`, rounded toward zero.
pub open spec fn scale_comp(d: int, len: int, n: int) -> int {
    if d >= 0 {
        d * len / n
    } else {
        -((-d) * len / n)
    }
}

/// The displacement one tick of `dt` milliseconds gives. A heading is
/// scaled by its length rounded up, so a step is never longer than
/// `step_len`.
pub open spec fn step_vector(m: Movement, dt: u64) -> Point {
    let len = step_len(m.speed, dt);
    let d2 = norm_sq(m.direction);
    if d2 == 0 || len == 0 {
        Point { x: 0, y: 0 }
    } else if m.stop_at_end && d2 <= len * len {
        m.direction
    } else {
        let n = ceil_sqrt(d2);
        Point {
            x: scale_comp(m.direction.x as int, len, n) as i64,
            y: scale_comp(m.direction.y as int, len, n) as i64,
        }
    }
}

/// Where an entity at `pos` stands after one tick.
pub open spec fn moved(pos: Point, m: Movement, dt: u64) -> Point {
    offset_clamped(pos, step_vector(m, dt))
}

impl Movement {
    pub open spec fn wf(self) -> bool {
        self.direction.valid_dir()
    }

    /// Standing still at `speed`.
    pub fn still(speed: u64) -> (r: Movement)
        ensures
            r == (Movement { speed, direction: Point { x: 0, y: 0 }, stop_at_end: false }),
            r.wf(),
    {
        Movement { speed, direction: Point::zero(), stop_at_end: false }
    }

    /// Heading for `to` from `from`, stopping on arrival.
    pub fn toward(speed: u64, from: Point, to: Point) -> (r: Movement)
        requires
            from.valid(),
            to.valid(),
        ensures
            r == (Movement { speed, direction: diff(to, from), stop_at_end: true }),
            r.speed == speed,
            r.direction == diff(to, from),
            r.direction.x == to.x - from.x,
            r.direction.y == to.y - from.y,
            r.stop_at_end,
            r.wf(),
    {
        Movement { speed, direction: vector_between(to, from), stop_at_end: true }
    }

    /// Heading directly away from `from`, without end.
    pub fn away(speed: u64, pos: Point, from: Point) -> (r: Movement)
        requires
            pos.valid(),
            from.valid(),
        ensures
            r == (Movement { speed, direction: diff(pos, from), stop_at_end: false }),
            r.speed == speed,
            r.direction == diff(pos, from),
            r.direction.x == pos.x - from.x,
            r.direction.y == pos.y - from.y,
            !r.stop_at_end,
            r.wf(),
    {
        Movement { speed, direction: vector_between(pos, from), stop_at_end: false }
    }
}

fn scale(d: i64, len: u128, n: u128) -> (r: i64)
    requires
        n >= 1,
        len <= STEP_LIMIT,
        -(n as int) <= d <= n,
        -DIR_LIMIT <= d <= DIR_LIMIT,
    ensures
        r == scale_comp(d as int, len as int, n as int),
        -(STEP_LIMIT as int) <= r <= STEP_LIMIT,
{
    let a: u128 = if d >= 0 {
        d as u128
    } else {
        (-(d as i128)) as u128
    };
    assert(a * len <= (DIR_LIMIT as int) * (STEP_LIMIT as int)) by (nonlinear_arith)
        requires
            a <= DIR_LIMIT,
            len <= STEP_LIMIT,
    ;
    let q = a * len / n;
    assert((a as int) * (len as int) / (n as int) <= len as int) by (nonlinear_arith)
        requires
            a <= n,
            n >= 1,
            len >= 0,
    ;
    if d >= 0 {
        q as i64
    } else {
        -(q as i64)
    }
}

proof fn lemma_component_le_root(d: int, d2: int, n: int)
    requires
        d * d <= d2,
        is_floor_sqrt(d2, n),
    ensures
        -n <= d <= n,
{
    if d > n {
        assert((n + 1) * (n + 1) <= d * d) by (nonlinear_arith)
            requires
                d > n >= 0,
        ;
    }
    if d < -n {
        assert((n + 1) * (n + 1) <= d * d) by (nonlinear_arith)
            requires
                d < -n,
                n >= 0,
        ;
    }
}

proof fn lemma_scaled_square(d: int, len: int, c: int)
    requires
        c >= 1,
        len >= 0,
    ensures
        scale_comp(d, len, c) * scale_comp(d, len, c) * (c * c) <= d * d * (len * len),
{
    let a = if d >= 0 { d } else { -d };
    let q = a * len / c;
    assert(0 <= q && q * c <= a * len) by (nonlinear_arith)
        requires
            a >= 0,
            len >= 0,
            c >= 1,
            q == a * len / c,
    ;
    assert(q * q * (c * c) <= a * a * (len * len)) by (nonlinear_arith)
        requires
            0 <= q,
            q * c <= a * len,
            c >= 1,
            a >= 0,
            len >= 0,
    ;
    assert(a * a == d * d) by (nonlinear_arith)
        requires
            a == d || a == -d,
    ;
    assert(scale_comp(d, len, c) * scale_comp(d, len, c) == q * q) by (nonlinear_arith)
        requires
            scale_comp(d, len, c) == q || scale_comp(d, len, c) == -q,
    ;
}

proof fn lemma_step_short(x: int, y: int, dx: int, dy: int, len: int, c: int)
    requires
        c >= 1,
        len >= 0,
        x * x * (c * c) <= dx * dx * (len * len),
        y * y * (c * c) <= dy * dy * (len * len),
        dx * dx + dy * dy <= c * c,
    ensures
        x * x + y * y <= len * len,
{
    assert((x * x + y * y) * (c * c) <= (dx * dx + dy * dy) * (len * len)) by (nonlinear_arith)
        requires
            x * x * (c * c) <= dx * dx * (len * len),
            y * y * (c * c) <= dy * dy * (len * len),
    ;
    assert((dx * dx + dy * dy) * (len * len) <= (c * c) * (len * len)) by (nonlinear_arith)
        requires
            dx * dx + dy * dy <= c * c,
            len >= 0,
    ;
    assert(x * x + y * y <= len * len) by (nonlinear_arith)
        requires
            (x * x + y * y) * (c * c) <= (c * c) * (len * len),
            c >= 1,
    ;
}

/// The displacement of one tick of `dt` milliseconds.
pub fn step(m: Movement, dt: u64) -> (r: Point)
    requires
        m.wf(),
    ensures
        r == step_vector(m, dt),
        r.valid_dir(),
        norm_sq(r) <= step_len(m.speed, dt) * step_len(m.speed, dt),
{
    assert(m.speed as u128 * dt as u128 <= 0xffff_ffff_ffff_ffff * 0xffff_ffff_ffff_ffff)
        by (nonlinear_arith)
        requires
            m.speed <= 0xffff_ffff_ffff_ffffu64,
            dt <= 0xffff_ffff_ffff_ffffu64,
    ;
    let full: u128 = m.speed as u128 * dt as u128;
    let len: u128 = if full > STEP_LIMIT as u128 {
        STEP_LIMIT as u128
    } else {
        full
    };
    let d2 = length_sq(m.direction);
    if d2 == 0 || len == 0 {
        return Point::zero();
    }
    assert(len * len <= (STEP_LIMIT as int) * (STEP_LIMIT as int)) by (nonlinear_arith)
        requires
            len <= STEP_LIMIT,
    ;
    if m.stop_at_end && d2 <= len * len {
        return m.direction;
    }
    let n = isqrt(d2);
    proof {
        assert(is_floor_sqrt(d2 as int, n as int));
        lemma_floor_sqrt_unique(d2 as int, n as int, floor_sqrt(d2 as int));
        assert(0 <= m.direction.y * m.direction.y) by (nonlinear_arith);
        assert(0 <= m.direction.x * m.direction.x) by (nonlinear_arith);
        lemma_component_le_root(m.direction.x as int, d2 as int, n as int);
        lemma_component_le_root(m.direction.y as int, d2 as int, n as int);
        assert(n * n <= d2 < (n + 1) * (n + 1));
        assert(n >= 1) by (nonlinear_arith)
            requires
                d2 < (n + 1) * (n + 1),
                d2 >= 1,
                n >= 0,
        ;
        assert(n < 0x1_0000_0000_0000_0000) by (nonlinear_arith)
            requires
                n * n <= d2,
                d2 < 0x1_0000_0000_0000_0000_0000_0000_0000_0000,
                n >= 0,
        ;
    }
    let c: u128 = if n * n == d2 {
        n
    } else {
        n + 1
    };
    proof {
        assert(c as int == ceil_sqrt(d2 as int));
        assert(d2 <= c * c);
    }
    let r = Point { x: scale(m.direction.x, len, c), y: scale(m.direction.y, len, c) };
    proof {
        lemma_scaled_square(m.direction.x as int, len as int, c as int);
        lemma_scaled_square(m.direction.y as int, len as int, c as int);
        lemma_step_short(
            r.x as int,
            r.y as int,
            m.direction.x as int,
            m.direction.y as int,
            len as int,
            c as int,
        );
    }
    r
}

/// Where an entity at `pos` moving by `m` stands after `dt` milliseconds.
pub fn advance(pos: Point, m: Movement, dt: u64) -> (r: Point)
    requires
        m.wf(),
        pos.valid(),
    ensures
        r == moved(pos, m, dt),
        r.valid(),
        dist_sq(r, pos) <= step_len(m.speed, dt) * step_len(m.speed, dt),
{
    let v = step(m, dt);
    let r = offset(pos, v);
    proof {
        lemma_clamp_shorter(pos.x as int, v.x as int);
        lemma_clamp_shorter(pos.y as int, v.y as int);
    }
    r
}

/// Holding `p + v` to the stored range moves it no farther from a stored
/// `p` than `v` does.
proof fn lemma_clamp_shorter(p: int, v: int)
    requires
        -COORD_LIMIT <= p <= COORD_LIMIT,
    ensures
        (clamp_coord(p + v) - p) * (clamp_coord(p + v) - p) <= v * v,
{
    let d = clamp_coord(p + v) - p;
    assert(0 <= d <= v || v <= d <= 0);
    assert(d * d <= v * v) by (nonlinear_arith)
        requires
            0 <= d <= v || v <= d <= 0,
    ;
}

} // verus!

//! Plain 2-D integer vectors.
//!
//! Positions are fixed-point integers: a caller picks the unit (for
//! instance a millionth of a world unit) and converts at the edge. Axes are
//! differences of positions, so they get a wider component type.
use vstd::prelude::*;

verus! {

/// A position in the plane.
#[derive(Clone, Copy, PartialEq, Eq, Structural, Debug)]
pub struct Vector2 {
    pub x: i32,
    pub y: i32,
}

/// A direction in the plane, not necessarily of unit length.
#[derive(Clone, Copy, PartialEq, Eq, Structural, Debug)]
pub struct Axis {
    pub x: i64,
    pub y: i64,
}

/// Largest magnitude of an axis component: enough for any difference of two
/// positions.
pub const AXIS_LIMIT: i64 = 4294967296;

impl Vector2 {
    pub fn new(x: i32, y: i32) -> (r: Vector2)
        ensures
            r.x == x,
            r.y == y,
    {
        Vector2 { x, y }
    }
}

impl Axis {
    pub fn new(x: i64, y: i64) -> (r: Axis)
        ensures
            r.x == x,
            r.y == y,
    {
        Axis { x, y }
    }

    /// Components small enough that every projection computed from them fits
    /// the integer types used.
    pub open spec fn in_range(self) -> bool {
        -AXIS_LIMIT <= self.x <= AXIS_LIMIT && -AXIS_LIMIT <= self.y <= AXIS_LIMIT
    }

    pub open spec fn is_zero(self) -> bool {
        self.x == 0 && self.y == 0
    }
}

/// Scalar product of an axis and a position.
pub open spec fn dot(a: Axis, p: Vector2) -> int {
    a.x * p.x + a.y * p.y
}

/// Squared length of an axis.
pub open spec fn norm2(a: Axis) -> int {
    a.x * a.x + a.y * a.y
}

/// The direction that leads from `to` back to `from`, i.e. `from - to`.
pub open spec fn difference(from: Vector2, to: Vector2) -> Axis {
    Axis { x: (from.x - to.x) as i64, y: (from.y - to.y) as i64 }
}

/// The edge from `a` to `b` turned a quarter turn counter-clockwise.
pub open spec fn edge_normal(a: Vector2, b: Vector2) -> Axis {
    Axis { x: (a.y - b.y) as i64, y: (b.x - a.x) as i64 }
}

/// Cross product of `q - p` and `r - p`: zero iff the three points lie on a
/// line.
pub open spec fn cross3(p: Vector2, q: Vector2, r: Vector2) -> int {
    (q.x - p.x) * (r.y - p.y) - (q.y - p.y) * (r.x - p.x)
}

/// Largest `w` with `w * w <= x`.
pub open spec fn is_floor_sqrt(w: int, x: int) -> bool {
    0 <= w && w * w <= x && x < (w + 1) * (w + 1)
}

pub open spec fn floor_sqrt(x: int) -> int {
    choose|w: int| is_floor_sqrt(w, x)
}

/// There is at most one floor square root.
pub proof fn lemma_floor_sqrt_unique(w1: int, w2: int, x: int)
    requires
        is_floor_sqrt(w1, x),
        is_floor_sqrt(w2, x),
    ensures
        w1 == w2,
{
    if w1 < w2 {
        assert((w1 + 1) * (w1 + 1) <= w2 * w2) by (nonlinear_arith)
            requires
                0 <= w1 + 1 <= w2,
        ;
    } else if w2 < w1 {
        assert((w2 + 1) * (w2 + 1) <= w1 * w1) by (nonlinear_arith)
            requires
                0 <= w2 + 1 <= w1,
        ;
    }
}

/// `floor_sqrt` is the floor square root wherever one exists.
pub proof fn lemma_floor_sqrt_is(w: int, x: int)
    requires
        is_floor_sqrt(w, x),
    ensures
        floor_sqrt(x) == w,
{
    lemma_floor_sqrt_unique(floor_sqrt(x), w, x);
}

/// Floor square root of a 128-bit integer, by bisection.
pub fn isqrt(x: u128) -> (r: u64)
    ensures
        is_floor_sqrt(r as int, x as int),
        floor_sqrt(x as int) == r,
{
    let mut lo: u128 = 0;
    let mut hi: u128 = 18446744073709551616;
    assert(x < hi * hi) by (nonlinear_arith)
        requires
            hi == 18446744073709551616,
            x <= 340282366920938463463374607431768211455,
    ;
    while hi - lo > 1
        invariant
            lo < hi <= 18446744073709551616,
            lo * lo <= x,
            x < hi * hi,
        decreases hi - lo,
    {
        let mid: u128 = lo + (hi - lo) / 2;
        assert(mid * mid <= 340282366920938463463374607431768211455) by (nonlinear_arith)
            requires
                mid < 18446744073709551616,
        ;
        if mid * mid <= x {
            lo = mid;
        } else {
            hi = mid;
        }
    }
    assert(hi == lo + 1);
    proof {
        lemma_floor_sqrt_is(lo as int, x as int);
    }
    lo as u64
}

/// Scalar product, exactly.
pub fn dot_exec(a: Axis, p: Vector2) -> (r: i128)
    requires
        a.in_range(),
    ensures
        r == dot(a, p),
        -36893488147419103232 <= r <= 36893488147419103232,
{
    assert(-9223372036854775808 <= a.x * p.x <= 9223372036854775808) by (nonlinear_arith)
        requires
            -4294967296 <= a.x <= 4294967296,
            -2147483648 <= p.x <= 2147483647,
    ;
    assert(-9223372036854775808 <= a.y * p.y <= 9223372036854775808) by (nonlinear_arith)
        requires
            -4294967296 <= a.y <= 4294967296,
            -2147483648 <= p.y <= 2147483647,
    ;
    (a.x as i128) * (p.x as i128) + (a.y as i128) * (p.y as i128)
}

/// Squared length, exactly.
pub fn norm2_exec(a: Axis) -> (r: u128)
    requires
        a.in_range(),
    ensures
        r == norm2(a),
        r <= 36893488147419103232,
{
    assert(0 <= a.x * a.x <= 18446744073709551616) by (nonlinear_arith)
        requires
            -4294967296 <= a.x <= 4294967296,
    ;
    assert(0 <= a.y * a.y <= 18446744073709551616) by (nonlinear_arith)
        requires
            -4294967296 <= a.y <= 4294967296,
    ;
    let x: i128 = a.x as i128;
    let y: i128 = a.y as i128;
    (x * x + y * y) as u128
}

/// Every non-negative integer has a floor square root.
pub proof fn lemma_floor_sqrt_exists(x: int)
    requires
        0 <= x,
    ensures
        is_floor_sqrt(floor_sqrt(x), x),
    decreases x,
{
    if x == 0 {
        assert(is_floor_sqrt(0, 0));
    } else {
        lemma_floor_sqrt_exists(x - 1);
        let w = floor_sqrt(x - 1);
        if (w + 1) * (w + 1) <= x {
            assert(x < (w + 2) * (w + 2)) by (nonlinear_arith)
                requires
                    x - 1 < (w + 1) * (w + 1),
                    0 <= w,
            ;
            assert(is_floor_sqrt(w + 1, x));
        } else {
            assert(is_floor_sqrt(w, x));
        }
    }
}

/// A non-zero axis has a positive squared length.
pub proof fn lemma_norm2_positive(a: Axis)
    requires
        !a.is_zero(),
    ensures
        norm2(a) >= 1,
{
    assert(a.x * a.x >= 0) by (nonlinear_arith);
    assert(a.y * a.y >= 0) by (nonlinear_arith);
    if a.x != 0 {
        assert(a.x * a.x >= 1) by (nonlinear_arith)
            requires
                a.x != 0,
        ;
    } else {
        assert(a.y * a.y >= 1) by (nonlinear_arith)
            requires
                a.y != 0,
        ;
    }
}

/// Three points whose projections onto a non-zero axis coincide lie on a
/// line.
pub proof fn lemma_same_projection_collinear(a: Axis, p: Vector2, q: Vector2, r: Vector2)
    requires
        !a.is_zero(),
        dot(a, p) == dot(a, q),
        dot(a, p) == dot(a, r),
    ensures
        cross3(p, q, r) == 0,
{
    let (ux, uy, wx, wy) = (q.x - p.x, q.y - p.y, r.x - p.x, r.y - p.y);
    let (ax, ay) = (a.x as int, a.y as int);
    assert(ax * ux + ay * uy == 0) by (nonlinear_arith)
        requires
            ax * p.x + ay * p.y == ax * q.x + ay * q.y,
            ux == q.x - p.x,
            uy == q.y - p.y,
    ;
    assert(ax * wx + ay * wy == 0) by (nonlinear_arith)
        requires
            ax * p.x + ay * p.y == ax * r.x + ay * r.y,
            wx == r.x - p.x,
            wy == r.y - p.y,
    ;
    let c = ux * wy - uy * wx;
    assert(ax * c == 0) by (nonlinear_arith)
        requires
            ax * ux + ay * uy == 0,
            ax * wx + ay * wy == 0,
            c == ux * wy - uy * wx,
    ;
    assert(ay * c == 0) by (nonlinear_arith)
        requires
            ax * ux + ay * uy == 0,
            ax * wx + ay * wy == 0,
            c == ux * wy - uy * wx,
    ;
    if ax != 0 {
        assert(c == 0) by (nonlinear_arith)
            requires
                ax * c == 0,
                ax != 0,
        ;
    } else {
        assert(c == 0) by (nonlinear_arith)
            requires
                ay * c == 0,
                ay != 0,
        ;
    }
}

} // verus!

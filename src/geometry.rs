use vstd::prelude::*;

verus! {

/// Number of fixed-point steps in one world unit: a coordinate `c` stands for
/// the world position `c / UNIT`.
pub const UNIT: i32 = 256;

/// A point of the plane, in fixed-point coordinates (see `UNIT`).
#[derive(Clone, Copy, Debug, PartialEq, Eq, Structural)]
pub struct Point {
    pub x: i32,
    pub y: i32,
}

impl Point {
    pub fn new(x: i32, y: i32) -> (r: Point)
        ensures
            r.x == x,
            r.y == y,
    {
        Point { x, y }
    }

    pub fn origin() -> (r: Point)
        ensures
            r.x == 0,
            r.y == 0,
    {
        Point { x: 0, y: 0 }
    }
}

/// Twice the signed area of the triangle `a, b, c`: positive when `a -> b -> c`
/// turns counter-clockwise, negative when it turns clockwise, zero when the
/// three points are collinear.
pub open spec fn area2_spec(a: Point, b: Point, c: Point) -> int {
    (b.x - a.x) * (c.y - a.y) - (c.x - a.x) * (b.y - a.y)
}

/// Orientation is a property of the triangle: reversing the order of two
/// corners flips the sign of the signed area, and rotating them keeps it.
pub proof fn lemma_area2_orientation(a: Point, b: Point, c: Point)
    ensures
        area2_spec(a, c, b) == -area2_spec(a, b, c),
        area2_spec(b, c, a) == area2_spec(a, b, c),
{
    assert(area2_spec(b, c, a) == area2_spec(a, b, c)) by (nonlinear_arith);
}

/// Squared Euclidean distance between two points.
pub open spec fn dist_sq(a: Point, b: Point) -> nat {
    ((b.x - a.x) * (b.x - a.x) + (b.y - a.y) * (b.y - a.y)) as nat
}

/// `r` is the integer square root of `n`, rounded down.
pub open spec fn is_floor_sqrt(n: nat, r: nat) -> bool {
    r * r <= n && n < (r + 1) * (r + 1)
}

/// The integer square root of `n`, rounded down.
pub open spec fn floor_sqrt(n: nat) -> nat {
    choose|r: nat| is_floor_sqrt(n, r)
}

/// Euclidean distance between two points, rounded down to a fixed-point step.
pub open spec fn distance_spec(a: Point, b: Point) -> nat {
    floor_sqrt(dist_sq(a, b))
}

/// There is at most one rounded-down square root.
pub proof fn lemma_floor_sqrt_unique(n: nat, r1: nat, r2: nat)
    requires
        is_floor_sqrt(n, r1),
        is_floor_sqrt(n, r2),
    ensures
        r1 == r2,
{
    if r1 < r2 {
        assert((r1 + 1) * (r1 + 1) <= r2 * r2) by (nonlinear_arith)
            requires
                r1 + 1 <= r2,
        ;
    } else if r2 < r1 {
        assert((r2 + 1) * (r2 + 1) <= r1 * r1) by (nonlinear_arith)
            requires
                r2 + 1 <= r1,
        ;
    }
}

/// A witness of `is_floor_sqrt` is the value of `floor_sqrt`.
pub proof fn lemma_floor_sqrt_is(n: nat, r: nat)
    requires
        is_floor_sqrt(n, r),
    ensures
        floor_sqrt(n) == r,
{
    let c = floor_sqrt(n);
    assert(is_floor_sqrt(n, c));
    lemma_floor_sqrt_unique(n, c, r);
}

/// Twice the signed area of the triangle `a, b, c` (see `area2_spec`).
pub fn area2(a: &Point, b: &Point, c: &Point) -> (r: i128)
    ensures
        r == area2_spec(*a, *b, *c),
{
    let bx = b.x as i128 - a.x as i128;
    let by = b.y as i128 - a.y as i128;
    let cx = c.x as i128 - a.x as i128;
    let cy = c.y as i128 - a.y as i128;
    assert(-0x1_0000_0000 < bx < 0x1_0000_0000);
    assert(-0x1_0000_0000 < by < 0x1_0000_0000);
    assert(-0x1_0000_0000 < cx < 0x1_0000_0000);
    assert(-0x1_0000_0000 < cy < 0x1_0000_0000);
    assert(-0x1_0000_0000_0000_0000 <= bx * cy <= 0x1_0000_0000_0000_0000) by (nonlinear_arith)
        requires
            -0x1_0000_0000 < bx < 0x1_0000_0000,
            -0x1_0000_0000 < cy < 0x1_0000_0000,
    ;
    assert(-0x1_0000_0000_0000_0000 <= cx * by <= 0x1_0000_0000_0000_0000) by (nonlinear_arith)
        requires
            -0x1_0000_0000 < cx < 0x1_0000_0000,
            -0x1_0000_0000 < by < 0x1_0000_0000,
    ;
    bx * cy - cx * by
}

/// The integer square root of `n`, rounded down.
pub fn isqrt(n: u128) -> (r: u64)
    ensures
        is_floor_sqrt(n as nat, r as nat),
        r == floor_sqrt(n as nat),
{
    let mut lo: u128 = 0;
    let mut hi: u128 = 0x1_0000_0000_0000_0000;
    assert(n < hi * hi);
    while hi - lo > 1
        invariant
            lo < hi <= 0x1_0000_0000_0000_0000,
            lo * lo <= n,
            n < hi * hi,
        decreases hi - lo,
    {
        let mid: u128 = lo + (hi - lo) / 2;
        assert(mid * mid < 0x1_0000_0000_0000_0000 * 0x1_0000_0000_0000_0000) by (nonlinear_arith)
            requires
                mid < 0x1_0000_0000_0000_0000,
        ;
        if mid * mid <= n {
            lo = mid;
        } else {
            hi = mid;
        }
    }
    assert(hi == lo + 1);
    proof {
        lemma_floor_sqrt_is(n as nat, lo as nat);
    }
    lo as u64
}

/// Euclidean distance between two points, rounded down to a fixed-point step.
pub fn distance(a: &Point, b: &Point) -> (r: u64)
    ensures
        r == distance_spec(*a, *b),
        r < 0x2_0000_0000,
{
    let dx = b.x as i128 - a.x as i128;
    let dy = b.y as i128 - a.y as i128;
    let ux: u128 = if dx < 0 { (-dx) as u128 } else { dx as u128 };
    let uy: u128 = if dy < 0 { (-dy) as u128 } else { dy as u128 };
    assert(ux * ux <= 0x1_0000_0000_0000_0000) by (nonlinear_arith)
        requires
            ux <= 0x1_0000_0000,
    ;
    assert(uy * uy <= 0x1_0000_0000_0000_0000) by (nonlinear_arith)
        requires
            uy <= 0x1_0000_0000,
    ;
    assert(ux * ux == dx * dx) by (nonlinear_arith)
        requires
            ux == dx || ux == -dx,
    ;
    assert(uy * uy == dy * dy) by (nonlinear_arith)
        requires
            uy == dy || uy == -dy,
    ;
    let sq = ux * ux + uy * uy;
    let r = isqrt(sq);
    assert(r < 0x2_0000_0000) by (nonlinear_arith)
        requires
            r * r <= sq,
            sq <= 0x2_0000_0000_0000_0000,
    ;
    r
}

} // verus!

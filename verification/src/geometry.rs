//! Lattice points and the exact integer arithmetic on them: floor square
//! roots, distances, how often an edge is cut, and where the cuts fall.

use vstd::prelude::*;

verus! {

/// A point of space with integer coordinates.
#[derive(Clone, Copy, Debug, PartialEq, Eq, Structural)]
pub struct Point3 {
    pub x: i32,
    pub y: i32,
    pub z: i32,
}

/// The largest natural number whose square does not exceed `x`.
pub open spec fn floor_sqrt(x: nat) -> nat
    decreases x,
{
    if x == 0 {
        0
    } else {
        let r = floor_sqrt((x - 1) as nat);
        if (r + 1) * (r + 1) <= x {
            r + 1
        } else {
            r
        }
    }
}

/// `floor_sqrt(x)` squared is at most `x`, and the next square is above `x`.
pub proof fn lemma_floor_sqrt_bounds(x: nat)
    ensures
        floor_sqrt(x) * floor_sqrt(x) <= x,
        x < (floor_sqrt(x) + 1) * (floor_sqrt(x) + 1),
    decreases x,
{
    let s = floor_sqrt(x);
    if x > 0 {
        lemma_floor_sqrt_bounds((x - 1) as nat);
        let r = floor_sqrt((x - 1) as nat);
        if (r + 1) * (r + 1) <= x {
            assert(s == r + 1);
            assert(s * s <= x && x < (s + 1) * (s + 1)) by (nonlinear_arith)
                requires
                    s == r + 1,
                    (r + 1) * (r + 1) <= x,
                    x - 1 < (r + 1) * (r + 1),
            ;
        } else {
            assert(s == r);
            assert(s * s <= x && x < (s + 1) * (s + 1)) by (nonlinear_arith)
                requires
                    s == r,
                    r * r <= x - 1,
                    !((r + 1) * (r + 1) <= x),
            ;
        }
    } else {
        assert(s == 0);
        assert(s * s <= x && x < (s + 1) * (s + 1)) by (nonlinear_arith)
            requires
                s == 0,
                x == 0,
        ;
    }
}

/// Only one number lies between the two bounds of `lemma_floor_sqrt_bounds`.
pub proof fn lemma_floor_sqrt_unique(x: nat, r: nat)
    requires
        r * r <= x,
        x < (r + 1) * (r + 1),
    ensures
        r == floor_sqrt(x),
{
    lemma_floor_sqrt_bounds(x);
    let s = floor_sqrt(x);
    if r < s {
        assert((r + 1) * (r + 1) <= s * s) by (nonlinear_arith)
            requires
                r + 1 <= s,
        ;
    }
    if s < r {
        assert((s + 1) * (s + 1) <= r * r) by (nonlinear_arith)
            requires
                s + 1 <= r,
        ;
    }
}

/// Floor square root of a 128-bit number.
pub fn isqrt(x: u128) -> (r: u64)
    ensures
        r == floor_sqrt(x as nat),
{
    let mut lo: u128 = 0;
    let mut hi: u128 = 0x1_0000_0000_0000_0000;
    assert(x < hi * hi) by (nonlinear_arith)
        requires
            hi == 0x1_0000_0000_0000_0000,
            x <= u128::MAX,
    ;
    while hi - lo > 1
        invariant
            lo < hi <= 0x1_0000_0000_0000_0000,
            lo * lo <= x,
            x < hi * hi,
        decreases hi - lo,
    {
        let mid: u128 = lo + (hi - lo) / 2;
        assert(mid * mid <= u128::MAX) by (nonlinear_arith)
            requires
                0 <= mid < 0x1_0000_0000_0000_0000,
        ;
        if mid * mid <= x {
            lo = mid;
        } else {
            hi = mid;
        }
    }
    proof {
        lemma_floor_sqrt_unique(x as nat, lo as nat);
    }
    lo as u64
}

/// Square of the Euclidean distance between two points.
pub open spec fn squared_distance(a: Point3, b: Point3) -> nat {
    ((a.x - b.x) * (a.x - b.x) + (a.y - b.y) * (a.y - b.y) + (a.z - b.z) * (a.z - b.z)) as nat
}

/// Euclidean distance between two points, rounded down to a whole unit.
pub open spec fn distance(a: Point3, b: Point3) -> nat {
    floor_sqrt(squared_distance(a, b))
}

/// No two lattice points are `DISTANCE_LIMIT` or more apart.
pub const DISTANCE_LIMIT: u64 = 0x2_0000_0000;

/// Square of the difference of two coordinates.
fn squared_difference(a: i32, b: i32) -> (r: u128)
    ensures
        r == (a - b) * (a - b),
        r <= 0xffff_ffff * 0xffff_ffff,
{
    let d: u64 = if a >= b {
        (a as i64 - b as i64) as u64
    } else {
        (b as i64 - a as i64) as u64
    };
    assert(d * d == (a - b) * (a - b)) by (nonlinear_arith)
        requires
            d == a - b || d == b - a,
    ;
    assert(d * d <= 0xffff_ffff * 0xffff_ffff) by (nonlinear_arith)
        requires
            0 <= d <= 0xffff_ffff,
    ;
    (d as u128) * (d as u128)
}

/// Distance between two points.
pub fn norm(a: Point3, b: Point3) -> (r: u64)
    ensures
        r == distance(a, b),
        r < DISTANCE_LIMIT,
{
    let sx: u128 = squared_difference(a.x, b.x);
    let sy: u128 = squared_difference(a.y, b.y);
    let sz: u128 = squared_difference(a.z, b.z);
    let s: u128 = sx + sy + sz;
    let r: u64 = isqrt(s);
    proof {
        lemma_floor_sqrt_bounds(s as nat);
        if r >= 0x2_0000_0000 {
            assert(r * r >= 0x2_0000_0000 * 0x2_0000_0000) by (nonlinear_arith)
                requires
                    r >= 0x2_0000_0000,
            ;
        }
    }
    r
}

/// Into how many equal pieces an edge of length `len` is cut: as many as
/// `dist_max` fits into it, but no more than `subdiv_max`. A value of 0 or 1
/// leaves the edge whole. A `dist_max` of zero asks for as many pieces as
/// are allowed, except on an edge of length zero.
pub open spec fn piece_count(len: nat, dist_max: nat, subdiv_max: nat) -> nat {
    if dist_max == 0 {
        if len == 0 {
            0
        } else {
            subdiv_max
        }
    } else if len / dist_max > subdiv_max {
        subdiv_max
    } else {
        len / dist_max
    }
}

/// How many new points are set on an edge: one less than the pieces.
pub open spec fn interior_count(len: nat, dist_max: nat, subdiv_max: nat) -> nat {
    if piece_count(len, dist_max, subdiv_max) <= 1 {
        0
    } else {
        (piece_count(len, dist_max, subdiv_max) - 1) as nat
    }
}

/// Computes `piece_count`.
pub fn subdivision_count(len: u64, dist_max: u64, subdiv_max: usize) -> (n: usize)
    ensures
        n == piece_count(len as nat, dist_max as nat, subdiv_max as nat),
        n <= subdiv_max,
{
    if dist_max == 0 {
        if len == 0 {
            0
        } else {
            subdiv_max
        }
    } else {
        let q: u64 = len / dist_max;
        if q > subdiv_max as u64 {
            subdiv_max
        } else {
            q as usize
        }
    }
}

/// The value `j` parts out of `n` of the way from `a` to `b`, rounded
/// towards `a`.
pub open spec fn lerp(a: int, b: int, j: nat, n: nat) -> int {
    if b >= a {
        a + (j * (b - a)) / (n as int)
    } else {
        a - (j * (a - b)) / (n as int)
    }
}

/// A value between `a` and `b` stays between them.
pub proof fn lemma_lerp_between(a: int, b: int, j: nat, n: nat)
    requires
        0 < n,
        j <= n,
    ensures
        a <= b ==> a <= lerp(a, b, j, n) <= b,
        b <= a ==> b <= lerp(a, b, j, n) <= a,
        lerp(a, b, 0, n) == a,
        lerp(a, b, n, n) == b,
{
    let d: int = if b >= a { b - a } else { a - b };
    assert(0 <= j * d <= n * d) by (nonlinear_arith)
        requires
            0 <= j <= n,
            0 <= d,
    ;
    assert(0 <= (j * d) / (n as int) <= d) by (nonlinear_arith)
        requires
            0 <= j * d <= n * d,
            0 < n,
    ;
    assert((0 * d) / (n as int) == 0) by (nonlinear_arith)
        requires
            0 < n,
    ;
    assert((n * d) / (n as int) == d) by (nonlinear_arith)
        requires
            0 < n,
    ;
}

/// Computes `lerp` on coordinates.
pub fn interpolate(a: i32, b: i32, j: usize, n: usize) -> (r: i32)
    requires
        0 < n,
        j <= n,
    ensures
        r == lerp(a as int, b as int, j as nat, n as nat),
{
    proof {
        lemma_lerp_between(a as int, b as int, j as nat, n as nat);
    }
    if b >= a {
        let d: u128 = (b as i64 - a as i64) as u128;
        assert(j * d <= 0xffff_ffff_ffff_ffff * 0xffff_ffff) by (nonlinear_arith)
            requires
                0 <= j <= 0xffff_ffff_ffff_ffff,
                0 <= d <= 0xffff_ffff,
        ;
        let step: u128 = (j as u128 * d) / (n as u128);
        (a as i64 + step as i64) as i32
    } else {
        let d: u128 = (a as i64 - b as i64) as u128;
        assert(j * d <= 0xffff_ffff_ffff_ffff * 0xffff_ffff) by (nonlinear_arith)
            requires
                0 <= j <= 0xffff_ffff_ffff_ffff,
                0 <= d <= 0xffff_ffff,
        ;
        let step: u128 = (j as u128 * d) / (n as u128);
        (a as i64 - step as i64) as i32
    }
}

/// The point `j` parts out of `n` of the way from `a` to `b`.
pub open spec fn lerp_point(a: Point3, b: Point3, j: nat, n: nat) -> Point3 {
    Point3 {
        x: lerp(a.x as int, b.x as int, j, n) as i32,
        y: lerp(a.y as int, b.y as int, j, n) as i32,
        z: lerp(a.z as int, b.z as int, j, n) as i32,
    }
}

/// Computes `lerp_point`.
pub fn interpolate_point(a: Point3, b: Point3, j: usize, n: usize) -> (p: Point3)
    requires
        0 < n,
        j <= n,
    ensures
        p == lerp_point(a, b, j as nat, n as nat),
{
    Point3 {
        x: interpolate(a.x, b.x, j, n),
        y: interpolate(a.y, b.y, j, n),
        z: interpolate(a.z, b.z, j, n),
    }
}

/// Radius of a point set on an edge: unknown (-1) as soon as one end's
/// radius is unknown, otherwise between the two ends' radii.
pub open spec fn lerp_radius(r1: int, r2: int, j: nat, n: nat) -> int {
    if r1 < 0 || r2 < 0 {
        -1
    } else {
        lerp(r1, r2, j, n)
    }
}

/// Computes `lerp_radius`.
pub fn interpolate_radius(r1: i32, r2: i32, j: usize, n: usize) -> (r: i32)
    requires
        0 < n,
        j <= n,
    ensures
        r == lerp_radius(r1 as int, r2 as int, j as nat, n as nat),
        (r1 >= 0 && r2 >= 0) ==> r >= 0,
{
    if r1 < 0 || r2 < 0 {
        -1
    } else {
        proof {
            lemma_lerp_between(r1 as int, r2 as int, j as nat, n as nat);
        }
        interpolate(r1, r2, j, n)
    }
}

} // verus!

use vstd::prelude::*;

verus! {

/// Largest magnitude, in millimetres, of any ECEF coordinate the kernel
/// handles (about 1.1 million km from the Earth's centre).
pub const MAX_COORD_MM: i64 = 1_099_511_627_776;

/// A point in the Earth-centred, Earth-fixed frame, in whole millimetres.
#[derive(Clone, Copy, Debug, PartialEq, Eq, Structural)]
pub struct Ecef {
    pub x: i64,
    pub y: i64,
    pub z: i64,
}

/// The ECEF origin, used where a position is undefined (an empty route).
pub open spec fn origin() -> Ecef {
    Ecef { x: 0, y: 0, z: 0 }
}

/// Every coordinate lies within `MAX_COORD_MM` of zero.
pub open spec fn coord_ok(c: int) -> bool {
    -MAX_COORD_MM <= c <= MAX_COORD_MM
}

impl Ecef {
    pub open spec fn in_bounds(self) -> bool {
        coord_ok(self.x as int) && coord_ok(self.y as int) && coord_ok(self.z as int)
    }
}

/// Squared straight-line (flat Euclidean) distance, in square millimetres.
pub open spec fn dist_sq(a: Ecef, b: Ecef) -> int {
    (a.x - b.x) * (a.x - b.x) + (a.y - b.y) * (a.y - b.y) + (a.z - b.z) * (a.z - b.z)
}

/// `r` is the whole part of the square root of `n`.
pub open spec fn is_floor_sqrt(n: int, r: int) -> bool {
    0 <= r && r * r <= n < (r + 1) * (r + 1)
}

/// `m` is the square root of `n_sq` square millimetres, in metres, rounded
/// to the nearest whole metre with halves rounded up.
pub open spec fn rounds_to_metres(n_sq: int, m: int) -> bool {
    &&& 0 <= m
    &&& (m == 0 || (1000 * m - 500) * (1000 * m - 500) <= n_sq)
    &&& n_sq < (1000 * m + 500) * (1000 * m + 500)
}

/// Squared distance between two in-bounds points.
pub fn distance_sq(a: Ecef, b: Ecef) -> (r: u128)
    requires
        a.in_bounds(),
        b.in_bounds(),
    ensures
        r == dist_sq(a, b),
        r < SQRT_CAP * SQRT_CAP,
{
    let dx: i128 = a.x as i128 - b.x as i128;
    let dy: i128 = a.y as i128 - b.y as i128;
    let dz: i128 = a.z as i128 - b.z as i128;
    assert(-0x200_0000_0000 <= dx <= 0x200_0000_0000);
    assert(-0x200_0000_0000 <= dy <= 0x200_0000_0000);
    assert(-0x200_0000_0000 <= dz <= 0x200_0000_0000);
    assert(0 <= dx * dx <= 0x200_0000_0000 * 0x200_0000_0000) by (nonlinear_arith)
        requires -0x200_0000_0000 <= dx <= 0x200_0000_0000;
    assert(0 <= dy * dy <= 0x200_0000_0000 * 0x200_0000_0000) by (nonlinear_arith)
        requires -0x200_0000_0000 <= dy <= 0x200_0000_0000;
    assert(0 <= dz * dz <= 0x200_0000_0000 * 0x200_0000_0000) by (nonlinear_arith)
        requires -0x200_0000_0000 <= dz <= 0x200_0000_0000;
    (dx * dx + dy * dy + dz * dz) as u128
}

/// Bound on the square root of an in-bounds squared distance: squares of
/// in-bounds distances stay below its square.
pub const SQRT_CAP: u128 = 0x400_0000_0000;

/// 2^64: every square root of a `u128` lies below it.
pub const TWO_POW_64: u128 = 0x1_0000_0000_0000_0000;

/// `r` is the least integer whose square is at least `n`.
pub open spec fn is_ceil_sqrt(n: int, r: int) -> bool {
    0 <= r && n <= r * r && (r == 0 || (r - 1) * (r - 1) < n)
}

/// The whole part of the square root of `n`, by bisection.
pub fn floor_sqrt(n: u128) -> (r: u128)
    ensures
        is_floor_sqrt(n as int, r as int),
        r < TWO_POW_64,
{
    let mut lo: u128 = 0;
    let mut hi: u128 = TWO_POW_64;
    while lo + 1 < hi
        invariant
            lo < hi <= TWO_POW_64,
            lo * lo <= n,
            n < hi * hi,
        decreases hi - lo,
    {
        let mid: u128 = lo + (hi - lo) / 2;
        assert(mid * mid < TWO_POW_64 * TWO_POW_64) by (nonlinear_arith)
            requires mid < TWO_POW_64;
        if mid * mid <= n {
            lo = mid;
        } else {
            hi = mid;
        }
    }
    assert(hi == lo + 1);
    lo
}

/// The square root of `n`, rounded up.
pub fn ceil_sqrt(n: u128) -> (r: u128)
    ensures
        is_ceil_sqrt(n as int, r as int),
        r <= TWO_POW_64,
{
    if n == 0 {
        0
    } else {
        let f = floor_sqrt(n - 1);
        f + 1
    }
}

/// Straight-line distance between two in-bounds points, in whole
/// millimetres (rounded down).
pub fn distance_ecef(a: Ecef, b: Ecef) -> (r: u128)
    requires
        a.in_bounds(),
        b.in_bounds(),
    ensures
        is_floor_sqrt(dist_sq(a, b), r as int),
        r < SQRT_CAP,
{
    let d = distance_sq(a, b);
    let r = floor_sqrt(d);
    assert(r < SQRT_CAP) by (nonlinear_arith)
        requires r * r <= d, d < SQRT_CAP * SQRT_CAP, r >= 0;
    r
}

/// Rounds the square root of `n_sq` square millimetres to whole metres.
pub fn sqrt_mm_to_metres(n_sq: u128) -> (m: i64)
    requires
        n_sq < SQRT_CAP * SQRT_CAP,
    ensures
        rounds_to_metres(n_sq as int, m as int),
{
    let s = floor_sqrt(n_sq);
    let m: u128 = (s + 500) / 1000;
    proof {
        let si = s as int;
        let mi = m as int;
        assert(1000 * mi <= si + 500 < 1000 * mi + 1000);
        if mi > 0 {
            assert(0 <= 1000 * mi - 500 <= si);
            assert((1000 * mi - 500) * (1000 * mi - 500) <= si * si) by (nonlinear_arith)
                requires 0 <= 1000 * mi - 500 <= si;
        }
        assert(si + 1 <= 1000 * mi + 500);
        assert((si + 1) * (si + 1) <= (1000 * mi + 500) * (1000 * mi + 500)) by (nonlinear_arith)
            requires 0 <= si + 1 <= 1000 * mi + 500;
    }
    m as i64
}

} // verus!

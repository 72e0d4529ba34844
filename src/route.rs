use vstd::prelude::*;

use vstd::arithmetic::div_mod::lemma_fundamental_div_mod;

use crate::geo::{
    ceil_sqrt, dist_sq, distance_sq, is_ceil_sqrt, is_floor_sqrt, Ecef, SQRT_CAP, TWO_POW_64,
};

verus! {

/// Milliseconds per hour: a speed in millimetres per hour covers a distance
/// in millimetres in `distance * MS_PER_HOUR / speed` milliseconds.
pub const MS_PER_HOUR: u128 = 3_600_000;

/// One waypoint of a route: where it is, and the speed (millimetres per
/// hour) at which the entity travels on to the next waypoint.
#[derive(Clone, Copy, Debug, PartialEq, Eq, Structural)]
pub struct RoutePoint {
    pub ecef: Ecef,
    pub speed_mm_per_h: i64,
}

/// Whole part of the square root of a non-negative `n`.
pub open spec fn floor_sqrt_of(n: int) -> int {
    choose|r: int| is_floor_sqrt(n, r)
}

/// The whole part of a square root is unique.
pub proof fn lemma_floor_sqrt_unique(n: int, r: int)
    requires
        is_floor_sqrt(n, r),
    ensures
        floor_sqrt_of(n) == r,
{
    let s = floor_sqrt_of(n);
    assert(is_floor_sqrt(n, s));
    if s < r {
        assert((s + 1) * (s + 1) <= r * r) by (nonlinear_arith)
            requires 0 <= s < r;
    } else if r < s {
        assert((r + 1) * (r + 1) <= s * s) by (nonlinear_arith)
            requires 0 <= r < s;
    }
}

/// Every non-negative integer has a whole square root.
pub proof fn lemma_floor_sqrt_exists(n: int)
    requires
        n >= 0,
    ensures
        is_floor_sqrt(n, floor_sqrt_of(n)),
    decreases n,
{
    if n == 0 {
        assert(is_floor_sqrt(0, 0));
    } else {
        lemma_floor_sqrt_exists(n - 1);
        let r = floor_sqrt_of(n - 1);
        if (r + 1) * (r + 1) <= n {
            assert(n < (r + 2) * (r + 2)) by (nonlinear_arith)
                requires n - 1 < (r + 1) * (r + 1), r >= 0;
            assert(is_floor_sqrt(n, r + 1));
        } else {
            assert(is_floor_sqrt(n, r));
        }
    }
}

/// Every waypoint lies within the coordinate bounds.
pub open spec fn route_in_bounds(route: Seq<RoutePoint>) -> bool {
    forall|j: int| 0 <= j < route.len() ==> #[trigger] route[j].ecef.in_bounds()
}

/// The square root of `n`, rounded up.
pub open spec fn ceil_sqrt_of(n: int) -> int {
    if n <= 0 {
        0
    } else {
        floor_sqrt_of(n - 1) + 1
    }
}

pub proof fn lemma_ceil_sqrt_exists(n: int)
    requires
        n >= 0,
    ensures
        is_ceil_sqrt(n, ceil_sqrt_of(n)),
{
    if n > 0 {
        lemma_floor_sqrt_exists(n - 1);
    }
}

/// The rounded-up square root is unique.
pub proof fn lemma_ceil_sqrt_unique(n: int, r: int)
    requires
        is_ceil_sqrt(n, r),
    ensures
        ceil_sqrt_of(n) == r,
{
    if n > 0 {
        if r == 0 {
            assert(r * r == 0);
        }
        assert(r >= 1);
        assert(r * r == (r - 1) * (r - 1) + 2 * (r - 1) + 1) by (nonlinear_arith);
        assert(is_floor_sqrt(n - 1, r - 1));
        lemma_floor_sqrt_unique(n - 1, r - 1);
    } else if r > 0 {
        assert((r - 1) * (r - 1) >= 0) by (nonlinear_arith);
    }
}

/// Squared length of segment `k` in the units of time times speed: the
/// segment is travelled in `d` milliseconds at `s` millimetres per hour
/// exactly when `(d * s)^2` is at least this.
pub open spec fn segment_span_sq(route: Seq<RoutePoint>, k: int) -> int {
    dist_sq(route[k].ecef, route[k + 1].ecef) * (MS_PER_HOUR * MS_PER_HOUR)
}

/// Time in whole milliseconds to travel segment `k`, rounded up: the
/// length times `MS_PER_HOUR` over the speed. `None` where the speed is not
/// positive and the segment is never finished.
pub open spec fn segment_duration(route: Seq<RoutePoint>, k: int) -> Option<int> {
    let s = route[k].speed_mm_per_h as int;
    if s <= 0 {
        None
    } else {
        Some((ceil_sqrt_of(segment_span_sq(route, k)) + s - 1) / s)
    }
}

/// A segment's time is the least whole number of milliseconds in which it
/// is travelled at its speed; a segment of positive length takes at least
/// one millisecond.
pub proof fn lemma_segment_duration_least(route: Seq<RoutePoint>, k: int)
    requires
        0 <= k < route.len() - 1,
        route[k].speed_mm_per_h > 0,
    ensures
        segment_duration(route, k) matches Some(d) && {
            let s = route[k].speed_mm_per_h as int;
            let span = segment_span_sq(route, k);
            &&& 0 <= d
            &&& (d * s) * (d * s) >= span
            &&& (d == 0 || ((d - 1) * s) * ((d - 1) * s) < span)
            &&& (dist_sq(route[k].ecef, route[k + 1].ecef) > 0 ==> d >= 1)
        },
{
    let s = route[k].speed_mm_per_h as int;
    let (a, b) = (route[k].ecef, route[k + 1].ecef);
    let ds = dist_sq(a, b);
    assert(ds >= 0) by (nonlinear_arith)
        requires
            ds == (a.x - b.x) * (a.x - b.x) + (a.y - b.y) * (a.y - b.y) + (a.z - b.z) * (a.z - b.z),
    ;
    let span = segment_span_sq(route, k);
    assert(span >= 0 && (ds > 0 ==> span > 0)) by (nonlinear_arith)
        requires span == ds * (MS_PER_HOUR * MS_PER_HOUR), ds >= 0;
    lemma_ceil_sqrt_exists(span);
    let c = ceil_sqrt_of(span);
    let q = (c + s - 1) / s;
    lemma_fundamental_div_mod(c + s - 1, s);
    let r = (c + s - 1) % s;
    assert(s * q >= c && s * (q - 1) <= c - 1 && q >= 0) by (nonlinear_arith)
        requires c + s - 1 == s * q + r, 0 <= r < s, c >= 0, s > 0;
    assert((q * s) * (q * s) >= c * c) by (nonlinear_arith)
        requires q * s >= c, c >= 0;
    if q >= 1 {
        assert(c >= 1) by (nonlinear_arith)
            requires s * (q - 1) <= c - 1, s > 0, q >= 1;
        assert(((q - 1) * s) * ((q - 1) * s) <= (c - 1) * (c - 1)) by (nonlinear_arith)
            requires (q - 1) * s <= c - 1, q >= 1, s > 0;
    }
    if ds > 0 {
        if c == 0 {
            assert(c * c == 0) by (nonlinear_arith)
                requires c == 0;
        }
        assert(q >= 1) by (nonlinear_arith)
            requires s * q >= c, c >= 1, s > 0;
    }
}

/// Milliseconds after the start at which the end of segment `k` is
/// reached (`k == -1`: the start itself); `None` if never.
pub open spec fn arrival(route: Seq<RoutePoint>, k: int) -> Option<int>
    decreases k + 1,
{
    if k < 0 {
        Some(0)
    } else {
        match (arrival(route, k - 1), segment_duration(route, k)) {
            (Some(a), Some(d)) => Some(a + d),
            _ => None,
        }
    }
}

/// Time to travel the whole route: the arrival at its last waypoint, and
/// zero for a route of fewer than two waypoints.
pub open spec fn total_duration(route: Seq<RoutePoint>) -> Option<int> {
    if route.len() < 2 {
        Some(0)
    } else {
        arrival(route, route.len() - 2)
    }
}

/// Arrival times never decrease along a route: reaching the end of segment
/// `k` means having reached the end of every earlier segment, no later.
pub proof fn lemma_arrivals_non_decreasing(route: Seq<RoutePoint>, j: int, k: int)
    requires
        -1 <= j <= k,
        k < route.len() - 1,
    ensures
        arrival(route, k) matches Some(b) ==> (arrival(route, j) matches Some(a) && a <= b),
    decreases k - j,
{
    if j < k {
        lemma_arrivals_non_decreasing(route, j, k - 1);
        let (a, b) = (route[k].ecef, route[k + 1].ecef);
        assert(dist_sq(a, b) >= 0) by (nonlinear_arith)
            requires
                dist_sq(a, b) == (a.x - b.x) * (a.x - b.x) + (a.y - b.y) * (a.y - b.y) + (a.z - b.z)
                    * (a.z - b.z),
        ;
        if route[k].speed_mm_per_h > 0 {
            lemma_segment_duration_least(route, k);
        }
    }
}

/// A stored time, with `None` for never.
pub open spec fn time_of(t: Option<u128>) -> Option<int> {
    match t {
        Some(v) => Some(v as int),
        None => None,
    }
}

/// `ends` holds the arrival time at the end of every segment of `route`.
pub open spec fn segment_ends_of(route: Seq<RoutePoint>, ends: Seq<Option<u128>>) -> bool {
    &&& ends.len() == (if route.len() < 2 { 0 } else { route.len() - 1 })
    &&& forall|k: int| 0 <= k < ends.len() ==> time_of(#[trigger] ends[k]) == arrival(route, k)
}

/// A finite segment time is below 2^64 milliseconds.
pub proof fn lemma_segment_duration_bound(route: Seq<RoutePoint>, k: int)
    requires
        route_in_bounds(route),
        0 <= k < route.len() - 1,
    ensures
        segment_duration(route, k) matches Some(d) ==> 0 <= d < TWO_POW_64,
{
    let a = route[k].ecef;
    let b = route[k + 1].ecef;
    assert(a.in_bounds() && b.in_bounds());
    let n = dist_sq(a, b);
    let dx = a.x - b.x;
    let dy = a.y - b.y;
    let dz = a.z - b.z;
    assert(0 <= dx * dx <= 0x200_0000_0000 * 0x200_0000_0000) by (nonlinear_arith)
        requires -0x200_0000_0000 <= dx <= 0x200_0000_0000;
    assert(0 <= dy * dy <= 0x200_0000_0000 * 0x200_0000_0000) by (nonlinear_arith)
        requires -0x200_0000_0000 <= dy <= 0x200_0000_0000;
    assert(0 <= dz * dz <= 0x200_0000_0000 * 0x200_0000_0000) by (nonlinear_arith)
        requires -0x200_0000_0000 <= dz <= 0x200_0000_0000;
    if route[k].speed_mm_per_h > 0 {
        let s = route[k].speed_mm_per_h as int;
        let span = segment_span_sq(route, k);
        let cap = SQRT_CAP * MS_PER_HOUR;
        assert(0 <= n < SQRT_CAP * SQRT_CAP);
        assert(0 <= span < cap * cap) by (nonlinear_arith)
            requires
                span == n * (MS_PER_HOUR * MS_PER_HOUR),
                0 <= n < SQRT_CAP * SQRT_CAP,
                cap == SQRT_CAP * MS_PER_HOUR,
        ;
        lemma_ceil_sqrt_exists(span);
        let c = ceil_sqrt_of(span);
        if c > cap {
            assert((c - 1) * (c - 1) >= cap * cap) by (nonlinear_arith)
                requires c - 1 >= cap, cap >= 0;
        }
        lemma_fundamental_div_mod(c + s - 1, s);
        let q = (c + s - 1) / s;
        let r = (c + s - 1) % s;
        assert(0 <= q <= c) by (nonlinear_arith)
            requires c + s - 1 == s * q + r, 0 <= r < s, c >= 0, s >= 1;
    }
}

/// Reaching the end of segment `k` means reaching the end of the one
/// before it and then travelling segment `k`.
pub proof fn lemma_arrival_step(route: Seq<RoutePoint>, k: int)
    requires
        k >= 0,
    ensures
        arrival(route, k) matches Some(a) ==> (arrival(route, k - 1) matches Some(s) && segment_duration(route, k) == Some(a - s)),
        arrival(route, k - 1) is Some && arrival(route, k) is None ==> segment_duration(route, k) is None,
{
}


/// Travel time of one segment, as `segment_duration` gives it.
fn segment_time(route: &Vec<RoutePoint>, k: usize) -> (r: Option<u128>)
    requires
        route_in_bounds(route@),
        k + 1 < route@.len(),
    ensures
        time_of(r) == segment_duration(route@, k as int),
        r matches Some(d) ==> d < TWO_POW_64,
{
    assert(k + 1 < route.len());
    let speed = route[k].speed_mm_per_h;
    if speed <= 0 {
        return None;
    }
    let dsq = distance_sq(route[k].ecef, route[k + 1].ecef);
    assert(dsq * (MS_PER_HOUR * MS_PER_HOUR) < SQRT_CAP * SQRT_CAP * (MS_PER_HOUR * MS_PER_HOUR)) by (nonlinear_arith)
        requires dsq < SQRT_CAP * SQRT_CAP;
    assert(0x400_0000_0000int * 0x400_0000_0000int * 12_960_000_000_000int
        <= 0xffff_ffff_ffff_ffff_ffff_ffff_ffff_ffffint);
    assert(dsq * (MS_PER_HOUR * MS_PER_HOUR) <= 0x400_0000_0000int * 0x400_0000_0000int * 12_960_000_000_000int) by (nonlinear_arith)
        requires dsq < 0x400_0000_0000int * 0x400_0000_0000int, MS_PER_HOUR == 3_600_000;
    let span: u128 = dsq * (MS_PER_HOUR * MS_PER_HOUR);
    let c = ceil_sqrt(span);
    proof {
        lemma_ceil_sqrt_unique(span as int, c as int);
        lemma_segment_duration_bound(route@, k as int);
    }
    let d: u128 = (c + speed as u128 - 1) / (speed as u128);
    Some(d)
}

/// Per-segment arrival times of `route` and the time to travel all of it
/// (`None`: never, because some segment has a speed that is not positive).
pub fn build_segment_times(route: &Vec<RoutePoint>) -> (r: (Vec<Option<u128>>, Option<u128>))
    requires
        route_in_bounds(route@),
    ensures
        segment_ends_of(route@, r.0@),
        time_of(r.1) == total_duration(route@),
{
    let mut ends: Vec<Option<u128>> = Vec::new();
    if route.len() < 2 {
        return (ends, Some(0));
    }
    let mut acc: Option<u128> = Some(0);
    let mut k: usize = 0;
    while k + 1 < route.len()
        invariant
            route_in_bounds(route@),
            route@.len() >= 2,
            k + 1 <= route@.len(),
            ends@.len() == k,
            forall|j: int| 0 <= j < k ==> time_of(#[trigger] ends@[j]) == arrival(route@, j),
            time_of(acc) == arrival(route@, k - 1),
            acc matches Some(a) ==> a <= k * TWO_POW_64,
        decreases route.len() - k,
    {
        let d = segment_time(route, k);
        acc = match (acc, d) {
            (Some(a), Some(t)) => {
                assert(a + t <= (k + 1) * TWO_POW_64) by (nonlinear_arith)
                    requires a <= k * TWO_POW_64, t < TWO_POW_64;
                assert((k + 1) * TWO_POW_64 <= 0xffff_ffff_ffff_ffff * TWO_POW_64) by (nonlinear_arith)
                    requires k + 1 < 0x1_0000_0000_0000_0000;
                Some(a + t)
            },
            _ => None,
        };
        ends.push(acc);
        k = k + 1;
    }
    (ends, acc)
}

} // verus!

use vstd::arithmetic::div_mod::lemma_fundamental_div_mod;
use vstd::arithmetic::div_mod::lemma_fundamental_div_mod_converse;
use vstd::prelude::*;

use crate::geo::{dist_sq, origin, Ecef};
use crate::role::Role;
use crate::geo::{coord_ok, TWO_POW_64};
use crate::route::{
    arrival, lemma_arrival_step, lemma_segment_duration_bound, lemma_segment_duration_least, route_in_bounds, segment_duration,
    segment_ends_of, time_of, total_duration, RoutePoint,
};

verus! {

/// Milliseconds from the start tick `start` to tick `tick` (seconds).
pub open spec fn elapsed_ms(tick: int, start: int) -> int {
    (tick - start) * 1000
}

/// Whether elapsed time `e` has not gone strictly past arrival time `a`
/// (`None`: never arrived, so never passed).
pub open spec fn not_passed(a: Option<int>, e: int) -> bool {
    match a {
        Some(t) => e <= t,
        None => true,
    }
}

/// First segment, from `k` on, whose end has not been passed at elapsed
/// time `e`; the segment count if there is none.
pub open spec fn segment_from(route: Seq<RoutePoint>, e: int, k: int) -> int
    decreases route.len() - 1 - k,
{
    if k >= route.len() - 1 || k < 0 {
        k
    } else if not_passed(arrival(route, k), e) {
        k
    } else {
        segment_from(route, e, k + 1)
    }
}

/// The segment an entity is on at elapsed time `e`: the first one whose end
/// it has not gone past (a tie at a boundary belongs to the segment that
/// ends there).
pub open spec fn current_segment(route: Seq<RoutePoint>, e: int) -> int {
    segment_from(route, e, 0)
}

/// Linear interpolation from `a` to `b` at fraction `num / den`, rounded down.
pub open spec fn lerp(a: int, b: int, num: int, den: int) -> int {
    a + (b - a) * num / den
}

pub open spec fn lerp_ecef(a: Ecef, b: Ecef, num: int, den: int) -> Ecef {
    Ecef {
        x: lerp(a.x as int, b.x as int, num, den) as i64,
        y: lerp(a.y as int, b.y as int, num, den) as i64,
        z: lerp(a.z as int, b.z as int, num, den) as i64,
    }
}

/// Where an entity on its way is at elapsed time `e`, once it has started
/// and not yet finished a route of two or more waypoints.
pub open spec fn en_route(route: Seq<RoutePoint>, e: int) -> Ecef {
    let k = current_segment(route, e);
    if k >= route.len() - 1 {
        route.last().ecef
    } else {
        let s = match arrival(route, k - 1) {
            Some(t) => t,
            None => 0,
        };
        match segment_duration(route, k) {
            None => route[k].ecef,
            Some(d) => if d <= 0 {
                route[k + 1].ecef
            } else {
                lerp_ecef(route[k].ecef, route[k + 1].ecef, e - s, d)
            },
        }
    }
}

/// Whether the whole route has been travelled at elapsed time `e`.
pub open spec fn finished(route: Seq<RoutePoint>, e: int) -> bool {
    match total_duration(route) {
        Some(t) => e >= t,
        None => false,
    }
}

/// Position of an entity at tick `tick`, by the first rule that applies:
/// a commander stays at its first waypoint; an empty route gives the
/// origin; before its start tick an entity waits at its first waypoint; a
/// single waypoint, or a finished route, gives the last waypoint; otherwise
/// the entity is on its current segment.
pub open spec fn position_at(role: Role, start: int, route: Seq<RoutePoint>, tick: int) -> Ecef {
    if role == Role::Commander {
        if route.len() > 0 {
            route[0].ecef
        } else {
            origin()
        }
    } else if route.len() == 0 {
        origin()
    } else if tick < start {
        route[0].ecef
    } else if route.len() < 2 {
        route.last().ecef
    } else if finished(route, elapsed_ms(tick, start)) {
        route.last().ecef
    } else {
        en_route(route, elapsed_ms(tick, start))
    }
}

/// Halving through a common factor: `x * e / (2 * e) == x / 2`.
proof fn lemma_half_fraction(x: int, e: int)
    requires
        e > 0,
    ensures
        x * e / (2 * e) == x / 2,
{
    lemma_fundamental_div_mod(x, 2);
    let q = x / 2;
    let r = x % 2;
    assert(x * e == q * (2 * e) + r * e && 0 <= r * e < 2 * e) by (nonlinear_arith)
        requires x == 2 * q + r, 0 <= r < 2, e > 0;
    lemma_fundamental_div_mod_converse(x * e, 2 * e, q, r * e);
}

/// On a route of two distinct waypoints travelled at a positive speed, the
/// travel takes some `t > 0` milliseconds, and a moving entity is exactly at
/// the first waypoint at its start tick, at the interpolated midpoint when
/// half of `t` has passed, and exactly at the second waypoint from `t` on.
pub proof fn lemma_two_waypoint_route(role: Role, start: int, route: Seq<RoutePoint>, tick: int)
    requires
        role != Role::Commander,
        route.len() == 2,
        route[0].speed_mm_per_h > 0,
        route[0].ecef != route[1].ecef,
    ensures
        total_duration(route) matches Some(t) && t > 0,
        tick == start ==> position_at(role, start, route, tick) == route[0].ecef,
        2 * elapsed_ms(tick, start) == total_duration(route)->Some_0 ==> position_at(
            role,
            start,
            route,
            tick,
        ) == lerp_ecef(route[0].ecef, route[1].ecef, 1, 2),
        elapsed_ms(tick, start) >= total_duration(route)->Some_0 ==> position_at(
            role,
            start,
            route,
            tick,
        ) == route[1].ecef,
{
    let a = route[0].ecef;
    let b = route[1].ecef;
    let (dx, dy, dz) = (a.x - b.x, a.y - b.y, a.z - b.z);
    assert(dist_sq(a, b) > 0) by (nonlinear_arith)
        requires
            dist_sq(a, b) == dx * dx + dy * dy + dz * dz,
            dx != 0 || dy != 0 || dz != 0,
    ;
    lemma_segment_duration_least(route, 0);
    let t = total_duration(route)->Some_0;
    let e = elapsed_ms(tick, start);
    lemma_arrival_step(route, 0);
    assert(arrival(route, 0) == Some(t));
    assert(segment_duration(route, 0) == Some(t));
    if 0 <= e < t {
        assert(current_segment(route, e) == 0);
    }
    if tick == start {
        assert(e == 0);
        assert(lerp_ecef(a, b, 0, t) == a);
    }
    if 2 * e == t {
        lemma_half_fraction(b.x - a.x, e);
        lemma_half_fraction(b.y - a.y, e);
        lemma_half_fraction(b.z - a.z, e);
        assert(lerp_ecef(a, b, e, t) == lerp_ecef(a, b, 1, 2));
    }
}

/// A commander is at the same place at every pair of ticks, whatever its route.
pub proof fn lemma_commander_fixed(start: int, route: Seq<RoutePoint>, t1: int, t2: int)
    ensures
        position_at(Role::Commander, start, route, t1) == position_at(
            Role::Commander,
            start,
            route,
            t2,
        ),
{
}

/// No segment after one that is never finished is ever reached.
proof fn lemma_never_after(route: Seq<RoutePoint>, k: int, j: int)
    requires
        0 <= k <= j,
        segment_duration(route, k) is None,
    ensures
        arrival(route, j) is None,
    decreases j - k,
{
    if j > k {
        lemma_never_after(route, k, j - 1);
    }
}

proof fn lemma_segment_from_stops(route: Seq<RoutePoint>, e: int, k: int, j: int)
    requires
        0 <= j <= k < route.len() - 1,
        arrival(route, k) is None,
    ensures
        segment_from(route, e, j) <= k,
    decreases k - j,
{
    if j < k {
        lemma_segment_from_stops(route, e, k, j + 1);
    }
}

/// An entity whose speed on segment `k` is not positive never gets past
/// waypoint `k`: its route is never finished, its current segment is at
/// most `k`, and on segment `k` itself it stays at waypoint `k`.
pub proof fn lemma_stalled_segment(
    role: Role,
    start: int,
    route: Seq<RoutePoint>,
    k: int,
    tick: int,
)
    requires
        0 <= k < route.len() - 1,
        route[k].speed_mm_per_h <= 0,
    ensures
        !finished(route, elapsed_ms(tick, start)),
        current_segment(route, elapsed_ms(tick, start)) <= k,
        role != Role::Commander && tick >= start && current_segment(
            route,
            elapsed_ms(tick, start),
        ) == k ==> position_at(role, start, route, tick) == route[k].ecef,
{
    let e = elapsed_ms(tick, start);
    lemma_never_after(route, k, route.len() - 2);
    lemma_never_after(route, k, k);
    lemma_segment_from_stops(route, e, k, 0);
}

/// Floor division by a positive divisor.
fn floor_div_wide(v: i128, d: i128) -> (q: i128)
    requires
        d > 0,
    ensures
        q == v / d,
{
    if v >= 0 {
        ((v as u128) / (d as u128)) as i128
    } else {
        let m: u128 = (-(v + 1)) as u128;
        let k: u128 = m / (d as u128);
        proof {
            let r = (m % (d as u128)) as int;
            lemma_fundamental_div_mod(m as int, d as int);
            assert(v as int == (-(k as int) - 1) * d + (d - r - 1)) by (nonlinear_arith)
                requires
                    m as int == d * (k as int) + r,
                    m as int == -(v + 1),
            ;
            lemma_fundamental_div_mod_converse(v as int, d as int, -(k as int) - 1, d - r - 1);
        }
        -(k as i128) - 1
    }
}

/// A point interpolated between two values lies between them.
proof fn lemma_lerp_between(a: int, b: int, num: int, den: int)
    requires
        0 <= num <= den,
        den > 0,
    ensures
        a <= b ==> a <= lerp(a, b, num, den) <= b,
        b <= a ==> b <= lerp(a, b, num, den) <= a,
{
    let x = (b - a) * num;
    lemma_fundamental_div_mod(x, den);
    let q = x / den;
    let r = x % den;
    if a <= b {
        assert(0 <= x <= (b - a) * den) by (nonlinear_arith)
            requires 0 <= num <= den, a <= b, x == (b - a) * num;
        assert(0 <= q <= b - a) by (nonlinear_arith)
            requires x == den * q + r, 0 <= r < den, 0 <= x <= (b - a) * den;
    } else {
        assert((b - a) * den <= x <= 0) by (nonlinear_arith)
            requires 0 <= num <= den, b < a, x == (b - a) * num;
        assert(b - a <= q <= 0) by (nonlinear_arith)
            requires x == den * q + r, 0 <= r < den, (b - a) * den <= x <= 0;
    }
}

/// One coordinate of a linear interpolation.
fn lerp_coord(a: i64, b: i64, num: u128, den: u128) -> (r: i64)
    requires
        coord_ok(a as int),
        coord_ok(b as int),
        0 <= num <= den,
        0 < den < TWO_POW_64,
    ensures
        r == lerp(a as int, b as int, num as int, den as int),
        coord_ok(r as int),
{
    let diff: i128 = b as i128 - a as i128;
    assert(-0x400_0000_0000 * TWO_POW_64 <= diff * num <= 0x400_0000_0000 * TWO_POW_64) by (nonlinear_arith)
        requires -0x400_0000_0000 <= diff <= 0x400_0000_0000, 0 <= num < TWO_POW_64;
    let q = floor_div_wide(diff * (num as i128), den as i128);
    proof {
        lemma_lerp_between(a as int, b as int, num as int, den as int);
    }
    a + q as i64
}

fn lerp_point(a: Ecef, b: Ecef, num: u128, den: u128) -> (r: Ecef)
    requires
        a.in_bounds(),
        b.in_bounds(),
        0 <= num <= den,
        0 < den < TWO_POW_64,
    ensures
        r == lerp_ecef(a, b, num as int, den as int),
        r.in_bounds(),
{
    Ecef {
        x: lerp_coord(a.x, b.x, num, den),
        y: lerp_coord(a.y, b.y, num, den),
        z: lerp_coord(a.z, b.z, num, den),
    }
}

/// Whether elapsed time `e` has gone strictly past arrival time `a`.
fn is_passed(a: Option<u128>, e: u128) -> (r: bool)
    ensures
        r == !not_passed(time_of(a), e as int),
{
    match a {
        Some(t) => e > t,
        None => false,
    }
}

/// Position of an entity at tick `tick` (see `position_at`), given its
/// route and the segment times built from it.
pub fn position_at_time(
    role: Role,
    start_sec: i64,
    route: &Vec<RoutePoint>,
    segment_ends: &Vec<Option<u128>>,
    total: Option<u128>,
    tick: i64,
) -> (r: Ecef)
    requires
        route_in_bounds(route@),
        segment_ends_of(route@, segment_ends@),
        time_of(total) == total_duration(route@),
    ensures
        r == position_at(role, start_sec as int, route@, tick as int),
        r.in_bounds(),
{
    let ghost rt = route@;
    if role == Role::Commander {
        if route.len() > 0 {
            return route[0].ecef;
        } else {
            return Ecef { x: 0, y: 0, z: 0 };
        }
    }
    if route.len() == 0 {
        return Ecef { x: 0, y: 0, z: 0 };
    }
    if tick < start_sec {
        return route[0].ecef;
    }
    let last = route.len() - 1;
    if segment_ends.len() == 0 {
        return route[last].ecef;
    }
    let e: u128 = ((tick as i128 - start_sec as i128) * 1000) as u128;
    assert(e == elapsed_ms(tick as int, start_sec as int));
    if let Some(t) = total {
        if e >= t {
            return route[last].ecef;
        }
    }
    let n = segment_ends.len();
    let mut k: usize = 0;
    while k < n && is_passed(segment_ends[k], e)
        invariant
            n == segment_ends@.len(),
            n == rt.len() - 1,
            segment_ends_of(rt, segment_ends@),
            0 <= k <= n,
            current_segment(rt, e as int) == segment_from(rt, e as int, k as int),
            forall|j: int| 0 <= j < k ==> !not_passed(arrival(rt, j), e as int),
        decreases n - k,
    {
        assert(time_of(segment_ends@[k as int]) == arrival(rt, k as int));
        k = k + 1;
    }
    if k >= n {
        return route[last].ecef;
    }
    assert(time_of(segment_ends@[k as int]) == arrival(rt, k as int));
    assert(segment_from(rt, e as int, k as int) == k);
    let s: u128 = if k == 0 {
        0
    } else {
        assert(time_of(segment_ends@[k - 1]) == arrival(rt, k - 1));
        match segment_ends[k - 1] {
            Some(t) => t,
            None => 0,
        }
    };
    proof {
        lemma_arrival_step(rt, k as int);
        lemma_segment_duration_bound(rt, k as int);
        if k > 0 {
            assert(!not_passed(arrival(rt, k - 1), e as int));
        }
        assert(arrival(rt, k - 1) == Some(s as int));
        assert(rt[k as int].ecef.in_bounds() && rt[k + 1].ecef.in_bounds());
    }
    match segment_ends[k] {
        None => route[k].ecef,
        Some(end) => {
            let d: u128 = end - s;
            if d == 0 {
                route[k + 1].ecef
            } else {
                lerp_point(route[k].ecef, route[k + 1].ecef, e - s, d)
            }
        },
    }
}

} // verus!

use wargame_sim::detect::{push_scout_events, Action, Detection, DetectionInfo};
use wargame_sim::geo::{distance_ecef, distance_sq, floor_sqrt, sqrt_mm_to_metres, Ecef};
use wargame_sim::motion::position_at_time;
use wargame_sim::role::Role;
use wargame_sim::route::{build_segment_times, RoutePoint};
use wargame_sim::sim::{build_state, ObjectInit, SoaState};
use wargame_sim::spatial::{build_spatial_hash, cell_key, floor_div, pack, CellKey};

fn pt(x: i64, y: i64, z: i64) -> Ecef {
    Ecef { x, y, z }
}

fn wp(p: Ecef, speed_mm_per_h: i64) -> RoutePoint {
    RoutePoint { ecef: p, speed_mm_per_h }
}

fn obj(id: &str, team: &str, role: Role, start_sec: i64, route: Vec<RoutePoint>) -> ObjectInit {
    ObjectInit {
        id: id.to_string(),
        team_id: team.to_string(),
        role,
        start_sec,
        route,
    }
}

/// 36 km along x at 36 km/h: one hour.
fn straight_route() -> Vec<RoutePoint> {
    vec![wp(pt(0, 0, 0), 36_000_000), wp(pt(36_000_000, 0, 0), 0)]
}

fn position_of(role: Role, start: i64, route: &Vec<RoutePoint>, tick: i64) -> Ecef {
    let (ends, total) = build_segment_times(route);
    position_at_time(role, start, route, &ends, total, tick)
}

#[test]
fn role_names() {
    assert_eq!(Role::Commander.as_str(), "commander");
    assert_eq!(Role::Scout.as_str(), "scout");
    assert_eq!(Role::Messenger.as_str(), "messenger");
    assert_eq!(Role::Attacker.as_str(), "attacker");
}

#[test]
fn floor_division_rounds_down_for_negatives() {
    assert_eq!(floor_div(7, 2), 3);
    assert_eq!(floor_div(0, 5), 0);
    assert_eq!(floor_div(-1, 5), -1);
    assert_eq!(floor_div(-5, 5), -1);
    assert_eq!(floor_div(-6, 5), -2);
    assert_eq!(cell_key(pt(-1, 999, 1000), 1000), CellKey { x: -1, y: 0, z: 1 });
}

#[test]
fn square_roots_and_rounding() {
    assert_eq!(floor_sqrt(0), 0);
    assert_eq!(floor_sqrt(15), 3);
    assert_eq!(floor_sqrt(16), 4);
    assert_eq!(distance_sq(pt(0, 0, 0), pt(3, 4, 12)), 169);
    assert_eq!(distance_ecef(pt(0, 0, 0), pt(3, 4, 12)), 13);
    assert_eq!(sqrt_mm_to_metres(1_499_500u128 * 1_499_500), 1500);
    assert_eq!(sqrt_mm_to_metres(1_499_499u128 * 1_499_499), 1499);
    assert_eq!(sqrt_mm_to_metres(499 * 499), 0);
    assert_eq!(sqrt_mm_to_metres(500 * 500), 1);
}

#[test]
fn segment_times_from_distance_and_speed() {
    let (ends, total) = build_segment_times(&straight_route());
    assert_eq!(ends, vec![Some(3_600_000)]);
    assert_eq!(total, Some(3_600_000));

    let stalled = vec![
        wp(pt(0, 0, 0), 3_600_000),
        wp(pt(1_000, 0, 0), 0),
        wp(pt(2_000, 0, 0), 0),
    ];
    let (ends, total) = build_segment_times(&stalled);
    assert_eq!(ends, vec![Some(1_000), None]);
    assert_eq!(total, None);

    let (ends, total) = build_segment_times(&vec![wp(pt(5, 5, 5), 10)]);
    assert!(ends.is_empty());
    assert_eq!(total, Some(0));
}

#[test]
fn two_waypoint_interpolation() {
    let route = straight_route();
    assert_eq!(position_of(Role::Scout, 0, &route, 0), pt(0, 0, 0));
    assert_eq!(position_of(Role::Scout, 0, &route, 1800), pt(18_000_000, 0, 0));
    assert_eq!(position_of(Role::Scout, 0, &route, 1000), pt(10_000_000, 0, 0));
    assert_eq!(position_of(Role::Scout, 0, &route, 3600), pt(36_000_000, 0, 0));
    assert_eq!(position_of(Role::Scout, 0, &route, 86_400), pt(36_000_000, 0, 0));
    // Before its start tick an entity waits at the first waypoint.
    assert_eq!(position_of(Role::Scout, 100, &route, 50), pt(0, 0, 0));
    assert_eq!(position_of(Role::Scout, 100, &route, 1900), pt(18_000_000, 0, 0));
}

#[test]
fn interpolation_rounds_down_on_negative_axes() {
    // 2 mm at 2.4 m/h takes 3 s; after one second two thirds of a
    // millimetre are covered, which rounds down.
    let back = vec![wp(pt(0, 0, 0), 2_400), wp(pt(-2, 0, 0), 0)];
    assert_eq!(build_segment_times(&back).1, Some(3_000));
    assert_eq!(position_of(Role::Messenger, 0, &back, 1), pt(-1, 0, 0));
    let forth = vec![wp(pt(0, 0, 0), 2_400), wp(pt(2, 0, 0), 0)];
    assert_eq!(position_of(Role::Messenger, 0, &forth, 1), pt(0, 0, 0));
    assert_eq!(position_of(Role::Messenger, 0, &forth, 2), pt(1, 0, 0));
}

#[test]
fn commander_never_moves() {
    let route = straight_route();
    let first = position_of(Role::Commander, 0, &route, 0);
    assert_eq!(first, pt(0, 0, 0));
    assert_eq!(position_of(Role::Commander, 0, &route, 86_400), first);
    assert_eq!(position_of(Role::Commander, 0, &Vec::new(), 10), pt(0, 0, 0));
}

#[test]
fn empty_and_single_point_routes() {
    assert_eq!(position_of(Role::Scout, 0, &Vec::new(), 10), pt(0, 0, 0));
    let single = vec![wp(pt(7, 8, 9), 1_000)];
    assert_eq!(position_of(Role::Scout, 0, &single, 10), pt(7, 8, 9));
}

#[test]
fn stalled_segment_is_never_passed() {
    // 1 m in 1 s, then a segment with speed zero.
    let route = vec![
        wp(pt(0, 0, 0), 3_600_000),
        wp(pt(1_000, 0, 0), 0),
        wp(pt(2_000, 0, 0), 3_600_000),
    ];
    for tick in [1i64, 2, 100, 86_400] {
        assert_eq!(position_of(Role::Attacker, 0, &route, tick), pt(1_000, 0, 0));
    }
    let negative = vec![wp(pt(0, 0, 0), -5), wp(pt(1_000, 0, 0), 0)];
    assert_eq!(position_of(Role::Scout, 0, &negative, 86_400), pt(0, 0, 0));
}

#[test]
fn grid_puts_near_points_in_adjacent_cells() {
    let positions = vec![pt(999, 0, 0), pt(1_001, 0, 0), pt(-1, 0, 0), pt(5_000, 0, 0)];
    let index = build_spatial_hash(&positions, 1_000);
    assert_eq!(index.cell_mm, 1_000);
    let cell = |k: CellKey| index.cells.get(&pack(k)).cloned().unwrap_or_default();
    assert_eq!(cell(CellKey { x: 0, y: 0, z: 0 }), vec![0]);
    assert_eq!(cell(CellKey { x: 1, y: 0, z: 0 }), vec![1]);
    assert_eq!(cell(CellKey { x: -1, y: 0, z: 0 }), vec![2]);
    assert_eq!(cell(CellKey { x: 5, y: 0, z: 0 }), vec![3]);
    // Points 2 mm apart, cell edge 1 m: keys differ by at most one.
    let a = cell_key(positions[0], 1_000);
    let b = cell_key(positions[1], 1_000);
    assert!((a.x - b.x).abs() <= 1 && (a.y - b.y).abs() <= 1 && (a.z - b.z).abs() <= 1);
}

#[test]
fn grid_with_non_positive_cell_is_empty() {
    let positions = vec![pt(1, 2, 3)];
    assert!(build_spatial_hash(&positions, 0).cells.is_empty());
    assert!(build_spatial_hash(&positions, -10).cells.is_empty());
}

#[test]
fn scout_events_found_then_lost_in_fixed_order() {
    let info = |d: i64| DetectionInfo { position: pt(d, 0, 0), distance_m: d };
    let prior = vec![
        Detection { target: 1, info: info(1) },
        Detection { target: 2, info: info(2) },
    ];
    let current = vec![
        Detection { target: 3, info: info(3) },
        Detection { target: 2, info: info(20) },
    ];
    let mut out = Vec::new();
    push_scout_events(&mut out, 7, 0, &prior, &current);
    assert_eq!(out.len(), 2);
    assert_eq!((out[0].action, out[0].target, out[0].info.distance_m), (Action::Found, 3, 3));
    assert_eq!((out[1].action, out[1].target, out[1].info.distance_m), (Action::Lost, 1, 1));
    assert!(out.iter().all(|e| e.time_sec == 7 && e.scout == 0));
}

fn crossing_state() -> SoaState {
    // A scout of team B sits at the origin; a messenger of team A crosses
    // from +3 km to -3 km along x at 1 m/s; a commander of team B sits
    // beside the scout.
    build_state(&vec![
        obj("scout", "B", Role::Scout, 0, vec![wp(pt(0, 0, 0), 0)]),
        obj(
            "runner",
            "A",
            Role::Messenger,
            0,
            vec![wp(pt(3_000_000, 0, 0), 3_600_000), wp(pt(-3_000_000, 0, 0), 0)],
        ),
        obj("boss", "B", Role::Commander, 0, vec![wp(pt(10, 0, 0), 0)]),
    ])
}

#[test]
fn target_entering_and_leaving_range_gives_one_found_and_one_lost() {
    let mut state = crossing_state();
    let mut found = Vec::new();
    let mut lost = Vec::new();
    for tick in 0..=4_100i64 {
        let events = state.run_tick(tick, 1_000, 0);
        for e in events.detections.iter() {
            assert_eq!((e.scout, e.target), (0, 1));
            match e.action {
                Action::Found => found.push((tick, e.info)),
                Action::Lost => lost.push((tick, e.info)),
            }
        }
    }
    assert_eq!(found.len(), 1);
    assert_eq!(found[0].0, 2_000);
    assert_eq!(found[0].1, DetectionInfo { position: pt(1_000_000, 0, 0), distance_m: 1_000 });
    assert_eq!(lost.len(), 1);
    assert_eq!(lost[0].0, 4_001);
    // The lost event carries the last record the scout held.
    assert_eq!(lost[0].1, DetectionInfo { position: pt(-1_000_000, 0, 0), distance_m: 1_000 });
    assert!(state.detect_state[0].is_empty());
}

#[test]
fn non_positive_range_turns_detection_off() {
    let mut state = crossing_state();
    for tick in 0..=3i64 {
        let events = state.run_tick(2_500 + tick, 0, 0);
        assert!(events.detections.is_empty());
    }
    assert!(state.detect_state[0].is_empty());
}

#[test]
fn same_team_and_self_are_never_detected() {
    let mut state = crossing_state();
    let events = state.run_tick(0, 100_000, 0);
    let targets: Vec<usize> = events.detections.iter().map(|e| e.target).collect();
    assert_eq!(targets, vec![1]);
    assert_eq!(events.detections[0].info.distance_m, 3_000);
}

#[test]
fn attacker_detonates_once_when_route_completes() {
    // 500 m at 1 m/s: the route completes at tick 500.
    let mut state = build_state(&vec![obj(
        "striker",
        "A",
        Role::Attacker,
        0,
        vec![wp(pt(0, 0, 0), 3_600_000), wp(pt(500_000, 0, 0), 0)],
    )]);
    let mut records = Vec::new();
    for tick in 0..=800i64 {
        let events = state.run_tick(tick, 1_000, 250);
        records.extend(events.detonations);
    }
    assert_eq!(records.len(), 1);
    assert_eq!(records[0].time_sec, 500);
    assert_eq!(records[0].attacker, 0);
    assert_eq!(records[0].position, pt(500_000, 0, 0));
    assert_eq!(records[0].bom_range_m, 250);
    assert!(state.has_detonated[0]);
}

#[test]
fn delayed_attacker_detonates_after_start_plus_duration() {
    let mut state = build_state(&vec![obj(
        "late",
        "A",
        Role::Attacker,
        100,
        vec![wp(pt(0, 0, 0), 3_600_000), wp(pt(500_000, 0, 0), 0)],
    )]);
    assert!(state.emit_detonation_events(599, 1).is_empty());
    let fired = state.emit_detonation_events(600, 1);
    assert_eq!(fired.len(), 1);
    assert!(state.emit_detonation_events(601, 1).is_empty());
}

#[test]
fn coincident_commander_and_scout_found_at_tick_zero() {
    // (35.0 deg, 135.0 deg, 0 m) in ECEF millimetres.
    let here = pt(-3_698_470_287, 3_698_470_287, 3_637_866_909);
    let mut state = build_state(&vec![
        obj("hq", "A", Role::Commander, 0, vec![wp(here, 0)]),
        obj("eye", "B", Role::Scout, 0, vec![wp(here, 36_000_000), wp(here, 0)]),
    ]);
    let events = state.run_tick(0, 1_000, 0);
    assert_eq!(events.detections.len(), 1);
    let e = events.detections[0];
    assert_eq!((e.scout, e.action, e.target), (1, Action::Found, 0));
    assert_eq!(e.info.distance_m, 0);
    assert_eq!(state.positions, vec![here, here]);
    assert_eq!(state.ids[0], "hq");
    assert_eq!(state.team_ids[1], "B");
}

#[test]
fn run_covers_ticks_zero_to_one_day() {
    let mut t = wargame_sim::sim::SimTime::start();
    let mut count: i64 = 1;
    while let Some(n) = t.next() {
        t = n;
        count += 1;
    }
    assert_eq!(t.time_sec, 86_400);
    assert_eq!(count, 86_401);
}

#[test]
fn short_segment_still_starts_at_first_waypoint() {
    // 1 mm at 36 km/h takes a tenth of a millisecond, rounded up to one.
    let route = vec![wp(pt(0, 0, 0), 36_000_000), wp(pt(1, 0, 0), 0)];
    assert_eq!(build_segment_times(&route).1, Some(1));
    assert_eq!(position_of(Role::Scout, 0, &route, 0), pt(0, 0, 0));
    assert_eq!(position_of(Role::Scout, 0, &route, 1), pt(1, 0, 0));
}

#[test]
fn segment_times_round_up_exact_lengths() {
    // sqrt(2) mm at 1 mm/s: 1414.2 ms, rounded up.
    let route = vec![wp(pt(0, 0, 0), 3_600), wp(pt(1, 1, 0), 0)];
    assert_eq!(build_segment_times(&route).1, Some(1_415));
}

#[test]
fn detonation_waits_for_the_tick_after_a_fractional_completion() {
    // About 499000.4 mm at 1 m/s: completes 0.4 ms after tick 499.
    let mut state = build_state(&vec![obj(
        "striker",
        "A",
        Role::Attacker,
        0,
        vec![wp(pt(0, 0, 0), 3_600_000), wp(pt(499_000, 632, 0), 0)],
    )]);
    assert_eq!(state.total_duration_ms[0], Some(499_001));
    let mut ticks = Vec::new();
    for tick in 0..=600i64 {
        for d in state.run_tick(tick, 0, 10).detonations.iter() {
            ticks.push(d.time_sec);
        }
    }
    assert_eq!(ticks, vec![500]);
}

#[test]
fn scout_lists_targets_in_scan_order() {
    // Cell edge 1 km: the target at +x (index 1) lies in a higher slot than
    // the one at -x (index 2), so it comes second.
    let mut state = build_state(&vec![
        obj("scout", "B", Role::Scout, 0, vec![wp(pt(500_000, 500_000, 500_000), 0)]),
        obj("east", "A", Role::Messenger, 0, vec![wp(pt(1_200_000, 500_000, 500_000), 0)]),
        obj("west", "A", Role::Messenger, 0, vec![wp(pt(-200_000, 500_000, 500_000), 0)]),
    ]);
    let events = state.run_tick(0, 1_000, 0);
    let targets: Vec<usize> = events.detections.iter().map(|e| e.target).collect();
    assert_eq!(targets, vec![2, 1]);
    let held: Vec<usize> = state.detect_state[0].iter().map(|d| d.target).collect();
    assert_eq!(held, vec![2, 1]);
}

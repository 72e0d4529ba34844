use vstd::prelude::*;

use crate::detect::{
    push_scout_events, scan_neighbourhood, scout_events, sees_exactly, targets, Detection,
    DetectionEvent,
};
use crate::geo::{origin, Ecef};
use crate::motion::{elapsed_ms, finished, position_at, position_at_time};
use crate::role::Role;
use crate::route::{
    build_segment_times, route_in_bounds, segment_ends_of, time_of, total_duration, RoutePoint,
};
use crate::spatial::{all_in_bounds, build_spatial_hash, SpatialIndex};

verus! {

/// Largest detection range, in metres, whose millimetre value fits in an `i64`.
pub const MAX_DETECT_RANGE_M: i64 = 9_223_372_036_854_775;

/// Last tick of a run: one day of one-second ticks, from tick 0.
pub const END_SEC: i64 = 86_400;

/// The current tick of a run, in seconds from its start.
#[derive(Clone, Copy, Debug, PartialEq, Eq, Structural)]
pub struct SimTime {
    pub time_sec: i64,
}

impl SimTime {
    /// The first tick of a run.
    pub fn start() -> (r: SimTime)
        ensures
            r.time_sec == 0,
    {
        SimTime { time_sec: 0 }
    }

    /// The tick after this one, or `None` once the last tick is reached.
    pub fn next(&self) -> (r: Option<SimTime>)
        ensures
            self.time_sec < END_SEC ==> r == Some(SimTime { time_sec: (self.time_sec + 1) as i64 }),
            self.time_sec >= END_SEC ==> r is None,
    {
        if self.time_sec < END_SEC {
            Some(SimTime { time_sec: self.time_sec + 1 })
        } else {
            None
        }
    }
}

/// One entity as a scenario describes it, with its route already in ECEF.
pub struct ObjectInit {
    pub id: String,
    pub team_id: String,
    pub role: Role,
    pub start_sec: i64,
    pub route: Vec<RoutePoint>,
}

/// The whole simulation, one vector per attribute; entity `i` is index
/// `i` of every vector, in the order the entities were created.
pub struct SoaState {
    pub ids: Vec<String>,
    pub team_ids: Vec<String>,
    pub roles: Vec<Role>,
    pub start_secs: Vec<i64>,
    pub routes: Vec<Vec<RoutePoint>>,
    pub segment_end_ms: Vec<Vec<Option<u128>>>,
    pub total_duration_ms: Vec<Option<u128>>,
    pub positions: Vec<Ecef>,
    pub detect_state: Vec<Vec<Detection>>,
    pub has_detonated: Vec<bool>,
}

/// A detonation: the attacker, where it is, and the blast range in metres.
#[derive(Clone, Copy, Debug, PartialEq, Eq, Structural)]
pub struct DetonationEvent {
    pub time_sec: i64,
    pub attacker: usize,
    pub position: Ecef,
    pub bom_range_m: i64,
}

/// The detection events of one tick: scouts in ascending index order,
/// each with its `scout_events` between detect-states `before` and `after`.
pub open spec fn tick_events(
    t: i64,
    roles: Seq<Role>,
    before: Seq<Seq<Detection>>,
    after: Seq<Seq<Detection>>,
    n: int,
) -> Seq<DetectionEvent>
    decreases n,
{
    if n <= 0 {
        Seq::empty()
    } else {
        tick_events(t, roles, before, after, n - 1) + (if roles[n - 1] == Role::Scout {
            scout_events(t, (n - 1) as usize, before[n - 1], after[n - 1])
        } else {
            Seq::empty()
        })
    }
}

proof fn lemma_tick_events_prefix(
    t: i64,
    roles: Seq<Role>,
    before: Seq<Seq<Detection>>,
    a1: Seq<Seq<Detection>>,
    a2: Seq<Seq<Detection>>,
    n: int,
)
    requires
        forall|k: int| 0 <= k < n ==> a1[k] == a2[k],
    ensures
        tick_events(t, roles, before, a1, n) == tick_events(t, roles, before, a2, n),
    decreases n,
{
    if n > 0 {
        lemma_tick_events_prefix(t, roles, before, a1, a2, n - 1);
    }
}

/// Attacker `i`, with detonation flags `det`, detonates at tick `t`: it has
/// not detonated yet and its whole route has been travelled.
pub open spec fn fires(s: SoaState, det: Seq<bool>, i: int, t: int) -> bool {
    &&& s.roles@[i] == Role::Attacker
    &&& !det[i]
    &&& finished(s.routes@[i]@, elapsed_ms(t, s.start_secs@[i] as int))
}

/// The detonations of tick `t` among the first `n` entities, in ascending
/// index order.
pub open spec fn detonations(
    s: SoaState,
    det: Seq<bool>,
    t: i64,
    bom_range_m: i64,
    n: int,
) -> Seq<DetonationEvent>
    decreases n,
{
    if n <= 0 {
        Seq::empty()
    } else {
        let rest = detonations(s, det, t, bom_range_m, n - 1);
        if fires(s, det, n - 1, t as int) {
            rest.push(
                DetonationEvent {
                    time_sec: t,
                    attacker: (n - 1) as usize,
                    position: s.positions@[n - 1],
                    bom_range_m,
                },
            )
        } else {
            rest
        }
    }
}

/// Detonation flags after tick `t`: set for every attacker that fires.
pub open spec fn flags_after(s: SoaState, t: int) -> Seq<bool> {
    flags_step(s, s.has_detonated@, t)
}

/// Detonation flags `det` after tick `t`: set for every attacker that fires.
pub open spec fn flags_step(s: SoaState, det: Seq<bool>, t: int) -> Seq<bool> {
    Seq::new(det.len(), |i: int| det[i] || fires(s, det, i, t))
}

/// Detonation flags after the `m` consecutive ticks `t0 .. t0 + m - 1`,
/// starting from flags `det`.
pub open spec fn flags_run(s: SoaState, det: Seq<bool>, t0: int, m: nat) -> Seq<bool>
    decreases m,
{
    if m == 0 {
        det
    } else {
        flags_step(s, flags_run(s, det, t0, (m - 1) as nat), t0 + m - 1)
    }
}

proof fn lemma_flags_run(s: SoaState, det: Seq<bool>, i: int, t0: int, done: int, m: nat)
    requires
        0 <= i < det.len(),
        s.roles@[i] == Role::Attacker,
        !det[i],
        t0 <= done,
        forall|t: int|
            t0 <= t ==> (finished(s.routes@[i]@, elapsed_ms(t, s.start_secs@[i] as int)) <==> t
                >= done),
    ensures
        flags_run(s, det, t0, m).len() == det.len(),
        flags_run(s, det, t0, m)[i] == (done < t0 + m),
    decreases m,
{
    if m > 0 {
        lemma_flags_run(s, det, i, t0, done, (m - 1) as nat);
    }
}

/// Over a run of consecutive ticks from `t0`, an attacker that has not
/// detonated before `t0`, and whose route is first travelled at tick
/// `done >= t0`, fires at tick `t0 + m` exactly when `t0 + m == done`:
/// once, at that tick, and never before or after. Each tick's flags follow
/// `flags_step`, which is what `run_tick` and `emit_detonation_events` do.
pub proof fn lemma_detonation_over_run(
    s: SoaState,
    det: Seq<bool>,
    i: int,
    t0: int,
    done: int,
    m: nat,
)
    requires
        0 <= i < det.len(),
        s.roles@[i] == Role::Attacker,
        !det[i],
        t0 <= done,
        finished(s.routes@[i]@, elapsed_ms(done, s.start_secs@[i] as int)),
        done == t0 || !finished(s.routes@[i]@, elapsed_ms(done - 1, s.start_secs@[i] as int)),
    ensures
        fires(s, flags_run(s, det, t0, m), i, t0 + m) <==> t0 + m == done,
{
    let st = s.start_secs@[i] as int;
    assert forall|t: int|
        t0 <= t implies (finished(s.routes@[i]@, elapsed_ms(t, st)) <==> t >= done) by {
        if t >= done {
            assert(elapsed_ms(t, st) >= elapsed_ms(done, st)) by (nonlinear_arith)
                requires t >= done;
        } else {
            assert(elapsed_ms(t, st) <= elapsed_ms(done - 1, st)) by (nonlinear_arith)
                requires t <= done - 1;
        }
    }
    lemma_flags_run(s, det, i, t0, done, m);
}

/// Number of detonations of attacker `i` in `evs`.
pub open spec fn count_detonations(evs: Seq<DetonationEvent>, i: usize) -> nat
    decreases evs.len(),
{
    if evs.len() == 0 {
        0
    } else {
        count_detonations(evs.drop_last(), i) + (if evs.last().attacker == i {
            1nat
        } else {
            0nat
        })
    }
}

proof fn lemma_count_detonations(s: SoaState, det: Seq<bool>, t: i64, bom_range_m: i64, n: int, i: usize)
    requires
        0 <= n <= usize::MAX,
    ensures
        count_detonations(detonations(s, det, t, bom_range_m, n), i) == (if i < n && fires(
            s,
            det,
            i as int,
            t as int,
        ) {
            1nat
        } else {
            0nat
        }),
    decreases n,
{
    if n > 0 {
        lemma_count_detonations(s, det, t, bom_range_m, n - 1, i);
        let rest = detonations(s, det, t, bom_range_m, n - 1);
        if fires(s, det, n - 1, t as int) {
            let ev = DetonationEvent {
                time_sec: t,
                attacker: (n - 1) as usize,
                position: s.positions@[n - 1],
                bom_range_m,
            };
            assert(rest.push(ev).drop_last() == rest);
        }
    }
}

/// An attacker detonates exactly once: never at a tick before its route is
/// travelled; at the first tick at which it is, one detonation of it (and
/// no other) is recorded; and once its flag is set it never fires again,
/// at any later tick.
pub proof fn lemma_detonates_once(s: SoaState, t: i64, bom_range_m: i64, i: usize, later: int)
    requires
        s.wf(),
        i < s.len(),
        s.roles@[i as int] == Role::Attacker,
    ensures
        !finished(s.routes@[i as int]@, elapsed_ms(t as int, s.start_secs@[i as int] as int))
            ==> count_detonations(detonations(s, s.has_detonated@, t, bom_range_m, s.len() as int), i) == 0,
        !s.has_detonated@[i as int] && finished(
            s.routes@[i as int]@,
            elapsed_ms(t as int, s.start_secs@[i as int] as int),
        ) ==> count_detonations(detonations(s, s.has_detonated@, t, bom_range_m, s.len() as int), i) == 1,
        s.has_detonated@[i as int] || finished(
            s.routes@[i as int]@,
            elapsed_ms(t as int, s.start_secs@[i as int] as int),
        ) ==> !fires(s, flags_after(s, t as int), i as int, later),
{
    lemma_count_detonations(s, s.has_detonated@, t, bom_range_m, s.len() as int, i);
}

proof fn lemma_detonations_same(
    s1: SoaState,
    s2: SoaState,
    det: Seq<bool>,
    t: i64,
    bom_range_m: i64,
    n: int,
)
    requires
        s1.same_entities(s2),
        s1.positions == s2.positions,
    ensures
        detonations(s1, det, t, bom_range_m, n) == detonations(s2, det, t, bom_range_m, n),
    decreases n,
{
    if n > 0 {
        lemma_detonations_same(s1, s2, det, t, bom_range_m, n - 1);
    }
}

/// Where an entity stands when it is created: its first waypoint, or the
/// origin for an empty route.
pub open spec fn initial_position(route: Seq<RoutePoint>) -> Ecef {
    if route.len() > 0 {
        route[0].ecef
    } else {
        origin()
    }
}

fn copy_route(route: &Vec<RoutePoint>) -> (r: Vec<RoutePoint>)
    ensures
        r@ == route@,
{
    let mut r: Vec<RoutePoint> = Vec::new();
    let mut k: usize = 0;
    while k < route.len()
        invariant
            k <= route@.len(),
            r@ == route@.take(k as int),
        decreases route.len() - k,
    {
        r.push(route[k]);
        k = k + 1;
    }
    assert(route@.take(route@.len() as int) == route@);
    r
}

/// Creates the simulation state for `objects`, in their order: each entity
/// stands at its first waypoint, has the segment times of its route, sees
/// nothing and has not detonated.
pub fn build_state(objects: &Vec<ObjectInit>) -> (r: SoaState)
    requires
        forall|i: int| 0 <= i < objects@.len() ==> route_in_bounds(#[trigger] objects@[i].route@),
    ensures
        r.wf(),
        r.len() == objects@.len(),
        forall|i: int|
            0 <= i < objects@.len() ==> {
                &&& #[trigger] r.ids@[i]@ == objects@[i].id@
                &&& r.team_ids@[i]@ == objects@[i].team_id@
                &&& r.roles@[i] == objects@[i].role
                &&& r.start_secs@[i] == objects@[i].start_sec
                &&& r.routes@[i]@ == objects@[i].route@
                &&& r.positions@[i] == initial_position(objects@[i].route@)
                &&& r.detect_state@[i]@.len() == 0
                &&& !r.has_detonated@[i]
            },
{
    let mut st = SoaState {
        ids: Vec::new(),
        team_ids: Vec::new(),
        roles: Vec::new(),
        start_secs: Vec::new(),
        routes: Vec::new(),
        segment_end_ms: Vec::new(),
        total_duration_ms: Vec::new(),
        positions: Vec::new(),
        detect_state: Vec::new(),
        has_detonated: Vec::new(),
    };
    let mut i: usize = 0;
    while i < objects.len()
        invariant
            i <= objects@.len(),
            st.len() == i,
            st.wf(),
            forall|i: int| 0 <= i < objects@.len() ==> route_in_bounds(#[trigger] objects@[i].route@),
            forall|k: int| 0 <= k < i ==> #[trigger] st.ids@[k]@ == objects@[k].id@,
            forall|k: int| 0 <= k < i ==> #[trigger] st.team_ids@[k]@ == objects@[k].team_id@,
            forall|k: int| 0 <= k < i ==> #[trigger] st.roles@[k] == objects@[k].role,
            forall|k: int| 0 <= k < i ==> #[trigger] st.start_secs@[k] == objects@[k].start_sec,
            forall|k: int| 0 <= k < i ==> #[trigger] st.routes@[k]@ == objects@[k].route@,
            forall|k: int|
                0 <= k < i ==> #[trigger] st.positions@[k] == initial_position(objects@[k].route@),
            forall|k: int| 0 <= k < i ==> (#[trigger] st.detect_state@[k])@.len() == 0,
            forall|k: int| 0 <= k < i ==> !#[trigger] st.has_detonated@[k],
        decreases objects.len() - i,
    {
        let obj = &objects[i];
        let route = copy_route(&obj.route);
        let (ends, total) = build_segment_times(&route);
        let position = if route.len() > 0 {
            route[0].ecef
        } else {
            Ecef { x: 0, y: 0, z: 0 }
        };
        let ghost old_st = st;
        st.ids.push(obj.id.clone());
        st.team_ids.push(obj.team_id.clone());
        st.roles.push(obj.role);
        st.start_secs.push(obj.start_sec);
        st.routes.push(route);
        st.segment_end_ms.push(ends);
        st.total_duration_ms.push(total);
        st.positions.push(position);
        st.detect_state.push(Vec::new());
        st.has_detonated.push(false);
        proof {
            assert(targets(Seq::<Detection>::empty()).no_duplicates());
            assert forall|k: int| 0 <= k < st.len() implies route_in_bounds(
                #[trigger] st.routes@[k]@,
            ) by {
                if k < i {
                    assert(st.routes@[k] == old_st.routes@[k]);
                }
            }
            assert forall|k: int| 0 <= k < st.len() implies targets(
                (#[trigger] st.detect_state@[k])@,
            ).no_duplicates() by {
                if k < i {
                    assert(st.detect_state@[k] == old_st.detect_state@[k]);
                } else {
                    assert(targets(st.detect_state@[k]@) =~= Seq::<usize>::empty());
                }
            }
            assert(all_in_bounds(st.positions@));
            assert forall|k: int| 0 <= k < i implies st.ids@[k] == old_st.ids@[k] && st.team_ids@[k]
                == old_st.team_ids@[k] && st.routes@[k] == old_st.routes@[k] && st.detect_state@[k]
                == old_st.detect_state@[k] by {}
        }
        i = i + 1;
    }
    st
}

/// The events of one tick.
pub struct TickEvents {
    pub detections: Vec<DetectionEvent>,
    pub detonations: Vec<DetonationEvent>,
}

impl SoaState {
    pub open spec fn len(self) -> nat {
        self.ids@.len()
    }

    pub open spec fn route(self, i: int) -> Seq<RoutePoint> {
        self.routes@[i]@
    }

    /// Every scout's detect-state.
    pub open spec fn states(self) -> Seq<Seq<Detection>> {
        self.detect_state@.map_values(|v: Vec<Detection>| v@)
    }

    /// All attribute vectors have one entry per entity, segment times are
    /// those of each route, positions are in bounds, and only scouts hold
    /// a detect-state, which names each target once.
    pub open spec fn wf(self) -> bool {
        let n = self.len();
        &&& n <= usize::MAX
        &&& self.team_ids@.len() == n
        &&& self.roles@.len() == n
        &&& self.start_secs@.len() == n
        &&& self.routes@.len() == n
        &&& self.segment_end_ms@.len() == n
        &&& self.total_duration_ms@.len() == n
        &&& self.positions@.len() == n
        &&& self.detect_state@.len() == n
        &&& self.has_detonated@.len() == n
        &&& forall|i: int| 0 <= i < n ==> route_in_bounds(#[trigger] self.routes@[i]@)
        &&& forall|i: int|
            0 <= i < n ==> segment_ends_of(self.routes@[i]@, (#[trigger] self.segment_end_ms@[i])@)
        &&& forall|i: int|
            0 <= i < n ==> time_of(#[trigger] self.total_duration_ms@[i]) == total_duration(
                self.routes@[i]@,
            )
        &&& all_in_bounds(self.positions@)
        &&& forall|i: int|
            0 <= i < n ==> targets((#[trigger] self.detect_state@[i])@).no_duplicates()
        &&& forall|i: int|
            0 <= i < n && self.roles@[i] != Role::Scout ==> (#[trigger] self.detect_state@[i])@.len()
                == 0
    }

    /// Everything but the positions is as in `other`.
    pub open spec fn same_but_positions(self, other: SoaState) -> bool {
        &&& self.ids == other.ids
        &&& self.team_ids == other.team_ids
        &&& self.roles == other.roles
        &&& self.start_secs == other.start_secs
        &&& self.routes == other.routes
        &&& self.segment_end_ms == other.segment_end_ms
        &&& self.total_duration_ms == other.total_duration_ms
        &&& self.detect_state == other.detect_state
        &&& self.has_detonated == other.has_detonated
    }

    /// Everything that never changes after creation is as in `other`.
    pub open spec fn same_entities(self, other: SoaState) -> bool {
        &&& self.ids == other.ids
        &&& self.team_ids == other.team_ids
        &&& self.roles == other.roles
        &&& self.start_secs == other.start_secs
        &&& self.routes == other.routes
        &&& self.segment_end_ms == other.segment_end_ms
        &&& self.total_duration_ms == other.total_duration_ms
    }

    /// Everything but the detect-states is as in `other`.
    pub open spec fn same_but_detect_state(self, other: SoaState) -> bool {
        &&& self.same_entities(other)
        &&& self.positions == other.positions
        &&& self.has_detonated == other.has_detonated
    }

    /// Runs detection for every scout at tick `time_sec`, with range
    /// `detect_range_m` metres, over `index` built from the current
    /// positions with the range as cell edge. Each scout's detect-state
    /// becomes what it sees now, and the events between the old and new
    /// states are returned, scouts in ascending index order. A range that
    /// is not positive turns detection off for the tick: no event, no
    /// change.
    pub fn emit_detection_events(
        &mut self,
        time_sec: i64,
        detect_range_m: i64,
        index: &SpatialIndex,
    ) -> (r: Vec<DetectionEvent>)
        requires
            old(self).wf(),
            detect_range_m <= MAX_DETECT_RANGE_M,
            detect_range_m > 0 ==> index.cell_mm == detect_range_m * 1000,
            detect_range_m > 0 ==> index.covers(old(self).positions@),
        ensures
            detect_range_m <= 0 ==> r@.len() == 0 && *final(self) == *old(self),
            final(self).wf(),
            final(self).same_but_detect_state(*old(self)),
            detect_range_m > 0 ==> {
                &&& forall|i: int|
                    0 <= i < old(self).len() && old(self).roles@[i] == Role::Scout ==> sees_exactly(
                        #[trigger] final(self).states()[i],
                        old(self).positions@,
                        old(self).team_ids@,
                        i,
                        detect_range_m * 1000,
                    )
                &&& forall|i: int|
                    0 <= i < old(self).len() && old(self).roles@[i] != Role::Scout
                        ==> #[trigger] final(self).states()[i] == old(self).states()[i]
                &&& r@ == tick_events(
                    time_sec,
                    old(self).roles@,
                    old(self).states(),
                    final(self).states(),
                    old(self).len() as int,
                )
            },
    {
        let mut events: Vec<DetectionEvent> = Vec::new();
        if detect_range_m <= 0 {
            return events;
        }
        let range_mm: i64 = detect_range_m * 1000;
        let n = self.ids.len();
        let ghost before = self.states();
        let mut i: usize = 0;
        while i < n
            invariant
                n == self.len(),
                n == old(self).len(),
                i <= n,
                self.wf(),
                self.same_but_detect_state(*old(self)),
                range_mm == detect_range_m * 1000,
                range_mm > 0,
                index.cell_mm == range_mm,
                index.covers(self.positions@),
                before == old(self).states(),
                self.states().len() == n,
                forall|k: int|
                    0 <= k < i && old(self).roles@[k] == Role::Scout ==> sees_exactly(
                        #[trigger] self.states()[k],
                        old(self).positions@,
                        old(self).team_ids@,
                        k,
                        range_mm as int,
                    ),
                forall|k: int|
                    0 <= k < n && !(k < i && old(self).roles@[k] == Role::Scout)
                        ==> #[trigger] self.states()[k] == before[k],
                events@ == tick_events(time_sec, old(self).roles@, before, self.states(), i as int),
            decreases n - i,
        {
            if self.roles[i] == Role::Scout {
                let current = scan_neighbourhood(&self.positions, &self.team_ids, index, i, range_mm);
                let ghost mid = self.states();
                push_scout_events(&mut events, time_sec, i, &self.detect_state[i], &current);
                self.detect_state.set(i, current);
                proof {
                    assert(self.states() == mid.update(i as int, current@));
                    lemma_tick_events_prefix(time_sec, old(self).roles@, before, mid, self.states(), i as int);
                    assert(before[i as int] == mid[i as int]);
                    assert(targets(self.detect_state@[i as int]@).no_duplicates());
                }
            } else {
                proof {
                    assert(tick_events(time_sec, old(self).roles@, before, self.states(), i + 1)
                        == tick_events(time_sec, old(self).roles@, before, self.states(), i as int) + Seq::<DetectionEvent>::empty());
                }
            }
            i = i + 1;
        }
        events
    }

    /// Everything but the detonation flags is as in `other`.
    pub open spec fn same_but_flags(self, other: SoaState) -> bool {
        &&& self.same_entities(other)
        &&& self.positions == other.positions
        &&& self.detect_state == other.detect_state
    }

    /// Detonates, at tick `time_sec`, every attacker that has not yet
    /// detonated and has travelled its whole route, sets its flag, and
    /// returns the detonations in ascending index order.
    pub fn emit_detonation_events(&mut self, time_sec: i64, bom_range_m: i64) -> (r: Vec<
        DetonationEvent,
    >)
        requires
            old(self).wf(),
        ensures
            final(self).wf(),
            final(self).same_but_flags(*old(self)),
            final(self).has_detonated@ == flags_after(*old(self), time_sec as int),
            r@ == detonations(*old(self), old(self).has_detonated@, time_sec, bom_range_m, old(self).len() as int),
    {
        let mut events: Vec<DetonationEvent> = Vec::new();
        let n = self.ids.len();
        let mut i: usize = 0;
        while i < n
            invariant
                n == self.len(),
                n == old(self).len(),
                i <= n,
                self.wf(),
                self.same_but_flags(*old(self)),
                self.has_detonated@.len() == n,
                old(self).has_detonated@.len() == n,
                forall|k: int|
                    0 <= k < n ==> #[trigger] self.has_detonated@[k] == if k < i {
                        flags_after(*old(self), time_sec as int)[k]
                    } else {
                        old(self).has_detonated@[k]
                    },
                events@ == detonations(*old(self), old(self).has_detonated@, time_sec, bom_range_m, i as int),
            decreases n - i,
        {
            if self.roles[i] == Role::Attacker && !self.has_detonated[i] {
                let due = match self.total_duration_ms[i] {
                    Some(t) => {
                        let e: i128 = (time_sec as i128 - self.start_secs[i] as i128) * 1000;
                        e >= 0 && e as u128 >= t
                    },
                    None => false,
                };
                assert(due == finished(
                    old(self).routes@[i as int]@,
                    elapsed_ms(time_sec as int, old(self).start_secs@[i as int] as int),
                ));
                if due {
                    events.push(
                        DetonationEvent {
                            time_sec,
                            attacker: i,
                            position: self.positions[i],
                            bom_range_m,
                        },
                    );
                    self.has_detonated.set(i, true);
                }
            }
            i = i + 1;
        }
        assert(self.has_detonated@ == flags_after(*old(self), time_sec as int));
        events
    }

    /// Runs one tick, in the fixed order of its phases: every entity moves
    /// to where it is at `tick`; the grid is rebuilt over the new positions
    /// with the detection range as cell edge; scouts detect (unless the
    /// range is not positive); attackers detonate.
    pub fn run_tick(&mut self, tick: i64, detect_range_m: i64, bom_range_m: i64) -> (r: TickEvents)
        requires
            old(self).wf(),
            detect_range_m <= MAX_DETECT_RANGE_M,
        ensures
            final(self).wf(),
            final(self).same_entities(*old(self)),
            forall|i: int|
                0 <= i < old(self).len() ==> #[trigger] final(self).positions@[i] == position_at(
                    old(self).roles@[i],
                    old(self).start_secs@[i] as int,
                    old(self).routes@[i]@,
                    tick as int,
                ),
            detect_range_m <= 0 ==> r.detections@.len() == 0 && final(self).detect_state
                == old(self).detect_state,
            detect_range_m > 0 ==> {
                &&& forall|i: int|
                    0 <= i < old(self).len() && old(self).roles@[i] == Role::Scout ==> sees_exactly(
                        #[trigger] final(self).states()[i],
                        final(self).positions@,
                        old(self).team_ids@,
                        i,
                        detect_range_m * 1000,
                    )
                &&& forall|i: int|
                    0 <= i < old(self).len() && old(self).roles@[i] != Role::Scout
                        ==> #[trigger] final(self).states()[i] == old(self).states()[i]
                &&& r.detections@ == tick_events(
                    tick,
                    old(self).roles@,
                    old(self).states(),
                    final(self).states(),
                    old(self).len() as int,
                )
            },
            final(self).has_detonated@ == flags_after(*old(self), tick as int),
            r.detonations@ == detonations(
                *final(self),
                old(self).has_detonated@,
                tick,
                bom_range_m,
                old(self).len() as int,
            ),
    {
        self.update_positions(tick);
        let ghost moved = *self;
        let cell_mm: i64 = if detect_range_m > 0 {
            detect_range_m * 1000
        } else {
            0
        };
        let index = build_spatial_hash(&self.positions, cell_mm);
        let detections = self.emit_detection_events(tick, detect_range_m, &index);
        let ghost detected = *self;
        let detonations = self.emit_detonation_events(tick, bom_range_m);
        proof {
            lemma_detonations_same(detected, *self, old(self).has_detonated@, tick, bom_range_m, old(self).len() as int);
            assert(flags_after(detected, tick as int) == flags_after(*old(self), tick as int));
        }
        TickEvents { detections, detonations }
    }

    /// Moves every entity to where it is at tick `tick`.
    pub fn update_positions(&mut self, tick: i64)
        requires
            old(self).wf(),
        ensures
            final(self).wf(),
            final(self).same_but_positions(*old(self)),
            final(self).positions@.len() == old(self).len(),
            forall|i: int|
                0 <= i < old(self).len() ==> #[trigger] final(self).positions@[i] == position_at(
                    old(self).roles@[i],
                    old(self).start_secs@[i] as int,
                    old(self).routes@[i]@,
                    tick as int,
                ),
    {
        let n = self.ids.len();
        let mut i: usize = 0;
        while i < n
            invariant
                n == self.len(),
                i <= n,
                self.wf(),
                self.same_but_positions(*old(self)),
                forall|k: int|
                    0 <= k < i ==> #[trigger] self.positions@[k] == position_at(
                        old(self).roles@[k],
                        old(self).start_secs@[k] as int,
                        old(self).routes@[k]@,
                        tick as int,
                    ),
            decreases n - i,
        {
            let p = position_at_time(
                self.roles[i],
                self.start_secs[i],
                &self.routes[i],
                &self.segment_end_ms[i],
                self.total_duration_ms[i],
                tick,
            );
            self.positions.set(i, p);
            i = i + 1;
        }
    }
}

} // verus!

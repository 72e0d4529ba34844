use vstd::prelude::*;

use crate::geo::{dist_sq, distance_sq, rounds_to_metres, sqrt_mm_to_metres, Ecef, MAX_COORD_MM};
use crate::spatial::{
    adjacent, all_in_bounds, bucket_ok, cell_key, cell_of, cells_cover_prefix, key_packable,
    lemma_cell_of_bounds, lemma_packed_injective, lemma_within_edge_is_adjacent, pack, packed,
    CellKey, SpatialIndex,
};

verus! {

broadcast use vstd::std_specs::hash::group_hash_axioms;

/// What a scout knows of one target it sees: where the target is and how
/// far away, in whole metres.
#[derive(Clone, Copy, Debug, PartialEq, Eq, Structural)]
pub struct DetectionInfo {
    pub position: Ecef,
    pub distance_m: i64,
}

/// One entry of a scout's detect-state: the target's index and its record.
#[derive(Clone, Copy, Debug, PartialEq, Eq, Structural)]
pub struct Detection {
    pub target: usize,
    pub info: DetectionInfo,
}

/// Whether a detection event reports a target coming into view or going out of it.
#[derive(Clone, Copy, Debug, PartialEq, Eq, Structural)]
pub enum Action {
    Found,
    Lost,
}

/// A change in what a scout sees. A `Found` event carries the target's
/// current record; a `Lost` event carries the last record the scout held
/// of it.
#[derive(Clone, Copy, Debug, PartialEq, Eq, Structural)]
pub struct DetectionEvent {
    pub time_sec: i64,
    pub scout: usize,
    pub action: Action,
    pub target: usize,
    pub info: DetectionInfo,
}

/// The target indices of a detect-state, in order.
pub open spec fn targets(s: Seq<Detection>) -> Seq<usize> {
    s.map_values(|d: Detection| d.target)
}

/// Scout `i` detects entity `j`: another entity of another team, no
/// farther than `range_mm` in a straight line.
pub open spec fn detects(ps: Seq<Ecef>, teams: Seq<String>, i: int, j: int, range_mm: int) -> bool {
    &&& 0 <= j < ps.len()
    &&& j != i
    &&& teams[j]@ != teams[i]@
    &&& dist_sq(ps[i], ps[j]) <= range_mm * range_mm
}

/// The record a scout at `scout` makes of a target at `target`.
pub open spec fn info_ok(info: DetectionInfo, scout: Ecef, target: Ecef) -> bool {
    info.position == target && rounds_to_metres(dist_sq(scout, target), info.distance_m as int)
}

/// In a scan around scout `i` (cells of edge `c`), entity `a` comes before
/// entity `b`: its cell has a lower slot, or the same slot and `a` has the
/// lower index.
pub open spec fn scan_before(ps: Seq<Ecef>, c: int, i: int, a: int, b: int) -> bool {
    slot(ps, c, i, a) < slot(ps, c, i, b) || (slot(ps, c, i, a) == slot(ps, c, i, b) && a < b)
}

/// The entries of `d` come in scan order around scout `i`.
pub open spec fn in_scan_order(d: Seq<Detection>, ps: Seq<Ecef>, c: int, i: int) -> bool {
    forall|x: int, y: int|
        0 <= x < y < d.len() ==> scan_before(ps, c, i, d[x].target as int, d[y].target as int)
}

/// `d` is what scout `i` sees now: each detected entity once, with its
/// record, in scan order (cells of edge `range_mm`), and nothing else.
pub open spec fn sees_exactly(
    d: Seq<Detection>,
    ps: Seq<Ecef>,
    teams: Seq<String>,
    i: int,
    range_mm: int,
) -> bool {
    &&& targets(d).no_duplicates()
    &&& forall|j: usize| targets(d).contains(j) <==> detects(ps, teams, i, j as int, range_mm)
    &&& forall|k: int|
        0 <= k < d.len() ==> info_ok(#[trigger] d[k].info, ps[i], ps[d[k].target as int])
    &&& in_scan_order(d, ps, range_mm, i)
}

proof fn lemma_rounds_unique(n: int, m1: int, m2: int)
    requires
        rounds_to_metres(n, m1),
        rounds_to_metres(n, m2),
    ensures
        m1 == m2,
{
    if m1 < m2 {
        assert((1000 * m1 + 500) * (1000 * m1 + 500) <= (1000 * m2 - 500) * (1000 * m2 - 500))
            by (nonlinear_arith)
            requires m1 + 1 <= m2, m1 >= 0;
    } else if m2 < m1 {
        assert((1000 * m2 + 500) * (1000 * m2 + 500) <= (1000 * m1 - 500) * (1000 * m1 - 500))
            by (nonlinear_arith)
            requires m2 + 1 <= m1, m2 >= 0;
    }
}

proof fn lemma_scan_order_targets_unique(
    d1: Seq<Detection>,
    d2: Seq<Detection>,
    ps: Seq<Ecef>,
    c: int,
    i: int,
)
    requires
        in_scan_order(d1, ps, c, i),
        in_scan_order(d2, ps, c, i),
        forall|j: usize| targets(d1).contains(j) <==> targets(d2).contains(j),
    ensures
        targets(d1) == targets(d2),
    decreases d1.len(),
{
    if d1.len() == 0 || d2.len() == 0 {
        if d2.len() > 0 {
            assert(targets(d2)[0] == d2[0].target);
            assert(targets(d2).contains(d2[0].target));
        }
        if d1.len() > 0 {
            assert(targets(d1)[0] == d1[0].target);
            assert(targets(d1).contains(d1[0].target));
        }
        assert(targets(d1) =~= targets(d2));
    } else {
        let n1 = d1.len() - 1;
        let n2 = d2.len() - 1;
        let l1 = d1[n1].target;
        let l2 = d2[n2].target;
        assert(targets(d1)[n1] == l1);
        assert(targets(d2)[n2] == l2);
        assert(targets(d1).contains(l1));
        assert(targets(d2).contains(l2));
        let k2 = choose|k: int| 0 <= k < targets(d2).len() && targets(d2)[k] == l1;
        let k1 = choose|k: int| 0 <= k < targets(d1).len() && targets(d1)[k] == l2;
        assert(d2[k2].target == l1);
        assert(d1[k1].target == l2);
        if l1 != l2 {
            assert(scan_before(ps, c, i, d2[k2].target as int, d2[n2].target as int));
            assert(scan_before(ps, c, i, d1[k1].target as int, d1[n1].target as int));
        }
        let i1 = d1.drop_last();
        let i2 = d2.drop_last();
        assert forall|j: usize| targets(i1).contains(j) <==> targets(i2).contains(j) by {
            if targets(i1).contains(j) {
                let k = choose|k: int| 0 <= k < targets(i1).len() && targets(i1)[k] == j;
                assert(d1[k].target == j);
                assert(targets(d1)[k] == j);
                assert(scan_before(ps, c, i, d1[k].target as int, d1[n1].target as int));
                assert(targets(d1).contains(j));
                let m = choose|m: int| 0 <= m < targets(d2).len() && targets(d2)[m] == j;
                assert(d2[m].target == j);
                assert(m != n2);
                assert(targets(i2)[m] == j);
            }
            if targets(i2).contains(j) {
                let k = choose|k: int| 0 <= k < targets(i2).len() && targets(i2)[k] == j;
                assert(d2[k].target == j);
                assert(targets(d2)[k] == j);
                assert(scan_before(ps, c, i, d2[k].target as int, d2[n2].target as int));
                assert(targets(d2).contains(j));
                let m = choose|m: int| 0 <= m < targets(d1).len() && targets(d1)[m] == j;
                assert(d1[m].target == j);
                assert(m != n1);
                assert(targets(i1)[m] == j);
            }
        }
        lemma_scan_order_targets_unique(i1, i2, ps, c, i);
        assert(targets(d1) =~= targets(i1).push(l1));
        assert(targets(d2) =~= targets(i2).push(l2));
    }
}

/// What a scout sees is determined by the positions, the teams and the
/// range: two detect-states that both meet `sees_exactly` for the same
/// inputs are equal, entry for entry. So the detect-states, and with them
/// the events, of a tick are a function of that tick's inputs.
pub proof fn lemma_sees_exactly_unique(
    d1: Seq<Detection>,
    d2: Seq<Detection>,
    ps: Seq<Ecef>,
    teams: Seq<String>,
    i: int,
    range_mm: int,
)
    requires
        sees_exactly(d1, ps, teams, i, range_mm),
        sees_exactly(d2, ps, teams, i, range_mm),
    ensures
        d1 == d2,
{
    lemma_scan_order_targets_unique(d1, d2, ps, range_mm, i);
    assert(d1.len() == targets(d1).len());
    assert forall|k: int| 0 <= k < d1.len() implies d1[k] == d2[k] by {
        assert(targets(d1)[k] == targets(d2)[k]);
        assert(info_ok(d1[k].info, ps[i], ps[d1[k].target as int]));
        assert(info_ok(d2[k].info, ps[i], ps[d2[k].target as int]));
        lemma_rounds_unique(
            dist_sq(ps[i], ps[d1[k].target as int]),
            d1[k].info.distance_m as int,
            d2[k].info.distance_m as int,
        );
    }
    assert(d1 =~= d2);
}

/// One event of the given action for each entry of `s`, in order, whose
/// target does not appear in `other`.
pub open spec fn changes(
    t: i64,
    scout: usize,
    action: Action,
    s: Seq<Detection>,
    other: Seq<Detection>,
) -> Seq<DetectionEvent>
    decreases s.len(),
{
    if s.len() == 0 {
        Seq::empty()
    } else {
        let rest = changes(t, scout, action, s.drop_last(), other);
        if targets(other).contains(s.last().target) {
            rest
        } else {
            rest.push(
                DetectionEvent { time_sec: t, scout, action, target: s.last().target, info: s.last().info },
            )
        }
    }
}

/// The events of one scout for one tick: first a `Found` event for each
/// target seen now and not before (in the order of `current`), then a
/// `Lost` event for each target seen before and not now (in the order of
/// `prior`, with the prior record).
pub open spec fn scout_events(
    t: i64,
    scout: usize,
    prior: Seq<Detection>,
    current: Seq<Detection>,
) -> Seq<DetectionEvent> {
    changes(t, scout, Action::Found, current, prior) + changes(t, scout, Action::Lost, prior, current)
}

/// Number of events in `evs` of the given action about the given target.
pub open spec fn count_events(evs: Seq<DetectionEvent>, action: Action, target: usize) -> nat
    decreases evs.len(),
{
    if evs.len() == 0 {
        0
    } else {
        count_events(evs.drop_last(), action, target) + (if evs.last().action == action
            && evs.last().target == target {
            1nat
        } else {
            0nat
        })
    }
}

proof fn lemma_count_concat(a: Seq<DetectionEvent>, b: Seq<DetectionEvent>, action: Action, target: usize)
    ensures
        count_events(a + b, action, target) == count_events(a, action, target) + count_events(
            b,
            action,
            target,
        ),
    decreases b.len(),
{
    if b.len() > 0 {
        assert((a + b).drop_last() == a + b.drop_last());
        lemma_count_concat(a, b.drop_last(), action, target);
    } else {
        assert(a + b == a);
    }
}

proof fn lemma_count_changes(
    t: i64,
    scout: usize,
    action: Action,
    s: Seq<Detection>,
    other: Seq<Detection>,
    a: Action,
    j: usize,
)
    requires
        targets(s).no_duplicates(),
    ensures
        count_events(changes(t, scout, action, s, other), a, j) == (if a == action && targets(
            s,
        ).contains(j) && !targets(other).contains(j) {
            1nat
        } else {
            0nat
        }),
    decreases s.len(),
{
    if s.len() > 0 {
        let init = s.drop_last();
        assert(targets(init) == targets(s).drop_last());
        assert(targets(init).no_duplicates()) by {
            assert forall|x: int, y: int|
                0 <= x < targets(init).len() && 0 <= y < targets(init).len() && x != y implies targets(
                init,
            )[x] != targets(init)[y] by {
                assert(targets(init)[x] == targets(s)[x]);
                assert(targets(init)[y] == targets(s)[y]);
            }
        }
        lemma_count_changes(t, scout, action, init, other, a, j);
        let last = s.last().target;
        assert(targets(s)[s.len() - 1] == last);
        let rest = changes(t, scout, action, init, other);
        let ev = DetectionEvent { time_sec: t, scout, action, target: last, info: s.last().info };
        assert(rest.push(ev).drop_last() == rest);
        if targets(s).contains(j) && last != j {
            let k = choose|k: int| 0 <= k < targets(s).len() && targets(s)[k] == j;
            assert(targets(init)[k] == j);
        }
        if last == j && targets(init).contains(j) {
            let k = choose|k: int| 0 <= k < targets(init).len() && targets(init)[k] == j;
            assert(targets(s)[k] == j);
        }
        if targets(init).contains(j) {
            let k = choose|k: int| 0 <= k < targets(init).len() && targets(init)[k] == j;
            assert(targets(s)[k] == j);
        }
    }
}

/// Over one tick, a scout reports a target as found exactly once if the
/// target is in view now and was not before, and never otherwise; it
/// reports it as lost exactly once if the target was in view before and is
/// not now, and never otherwise. A target that stays in view, or stays out
/// of it, gives no event.
pub proof fn lemma_found_lost_once(
    t: i64,
    scout: usize,
    prior: Seq<Detection>,
    current: Seq<Detection>,
    j: usize,
)
    requires
        targets(prior).no_duplicates(),
        targets(current).no_duplicates(),
    ensures
        count_events(scout_events(t, scout, prior, current), Action::Found, j) == (if targets(
            current,
        ).contains(j) && !targets(prior).contains(j) {
            1nat
        } else {
            0nat
        }),
        count_events(scout_events(t, scout, prior, current), Action::Lost, j) == (if targets(
            prior,
        ).contains(j) && !targets(current).contains(j) {
            1nat
        } else {
            0nat
        }),
{
    let f = changes(t, scout, Action::Found, current, prior);
    let l = changes(t, scout, Action::Lost, prior, current);
    lemma_count_concat(f, l, Action::Found, j);
    lemma_count_concat(f, l, Action::Lost, j);
    lemma_count_changes(t, scout, Action::Found, current, prior, Action::Found, j);
    lemma_count_changes(t, scout, Action::Found, current, prior, Action::Lost, j);
    lemma_count_changes(t, scout, Action::Lost, prior, current, Action::Found, j);
    lemma_count_changes(t, scout, Action::Lost, prior, current, Action::Lost, j);
}

/// Over a run, `states[0]` is a scout's detect-state before the first
/// tick and `states[k]` its state after tick `k` (at time `times[k]`); each
/// tick's events are `scout_events` between consecutive states, which is
/// what `emit_detection_events` and `run_tick` produce. A target absent at
/// step `enter - 1`, present from `enter` to `leave - 1` and absent again at
/// `leave` is reported found exactly once, at `enter`, and lost exactly
/// once, at `leave`, with no event about it in between.
pub proof fn lemma_found_lost_over_run(
    times: Seq<i64>,
    scout: usize,
    states: Seq<Seq<Detection>>,
    j: usize,
    enter: int,
    leave: int,
)
    requires
        times.len() == states.len(),
        forall|k: int| 0 <= k < states.len() ==> targets(#[trigger] states[k]).no_duplicates(),
        1 <= enter < leave < states.len(),
        !targets(states[enter - 1]).contains(j),
        forall|k: int| enter <= k < leave ==> targets(#[trigger] states[k]).contains(j),
        !targets(states[leave]).contains(j),
    ensures
        forall|k: int|
            enter <= k <= leave ==> count_events(
                #[trigger] scout_events(times[k], scout, states[k - 1], states[k]),
                Action::Found,
                j,
            ) == (if k == enter {
                1nat
            } else {
                0nat
            }),
        forall|k: int|
            enter <= k <= leave ==> count_events(
                #[trigger] scout_events(times[k], scout, states[k - 1], states[k]),
                Action::Lost,
                j,
            ) == (if k == leave {
                1nat
            } else {
                0nat
            }),
{
    assert forall|k: int| enter <= k <= leave implies {
        let evs = #[trigger] scout_events(times[k], scout, states[k - 1], states[k]);
        &&& count_events(evs, Action::Found, j) == (if k == enter {
            1nat
        } else {
            0nat
        })
        &&& count_events(evs, Action::Lost, j) == (if k == leave {
            1nat
        } else {
            0nat
        })
    } by {
        assert(targets(states[k - 1]).no_duplicates());
        assert(targets(states[k]).no_duplicates());
        if k > enter {
            assert(targets(states[k - 1]).contains(j));
        }
        if k < leave {
            assert(targets(states[k]).contains(j));
        }
        lemma_found_lost_once(times[k], scout, states[k - 1], states[k], j);
    }
}

/// Whether `s` holds an entry for target `j`.
fn holds_target(s: &Vec<Detection>, j: usize) -> (r: bool)
    ensures
        r == targets(s@).contains(j),
{
    let mut k: usize = 0;
    while k < s.len()
        invariant
            k <= s@.len(),
            forall|m: int| 0 <= m < k ==> s@[m].target != j,
        decreases s.len() - k,
    {
        if s[k].target == j {
            assert(targets(s@)[k as int] == j);
            return true;
        }
        k = k + 1;
    }
    proof {
        if targets(s@).contains(j) {
            let m = choose|m: int| 0 <= m < targets(s@).len() && targets(s@)[m] == j;
            assert(s@[m].target == j);
        }
    }
    false
}

/// Appends to `out` the events of `changes(t, scout, action, s, other)`.
fn push_changes(
    out: &mut Vec<DetectionEvent>,
    t: i64,
    scout: usize,
    action: Action,
    s: &Vec<Detection>,
    other: &Vec<Detection>,
)
    ensures
        final(out)@ == old(out)@ + changes(t, scout, action, s@, other@),
{
    let mut k: usize = 0;
    while k < s.len()
        invariant
            k <= s@.len(),
            out@ == old(out)@ + changes(t, scout, action, s@.take(k as int), other@),
        decreases s.len() - k,
    {
        assert(s@.take(k + 1).drop_last() == s@.take(k as int));
        let d = s[k];
        if !holds_target(other, d.target) {
            out.push(
                DetectionEvent { time_sec: t, scout, action, target: d.target, info: d.info },
            );
        }
        k = k + 1;
    }
    assert(s@.take(s@.len() as int) == s@);
}

/// Appends to `out` the events of scout `scout` between its prior and its
/// current detect-state.
pub fn push_scout_events(
    out: &mut Vec<DetectionEvent>,
    t: i64,
    scout: usize,
    prior: &Vec<Detection>,
    current: &Vec<Detection>,
)
    ensures
        final(out)@ == old(out)@ + scout_events(t, scout, prior@, current@),
{
    push_changes(out, t, scout, Action::Found, current, prior);
    push_changes(out, t, scout, Action::Lost, prior, current);
    assert(final(out)@ == old(out)@ + scout_events(t, scout, prior@, current@));
}

/// Position, from 0 to 26, of `j`'s cell in the 3x3x3 block around `i`'s
/// cell (x slowest, z fastest); 27 outside the block.
pub open spec fn slot(ps: Seq<Ecef>, c: int, i: int, j: int) -> int {
    let a = cell_of(ps[j], c);
    let b = cell_of(ps[i], c);
    if adjacent(a, b) {
        (a.x - b.x + 1) * 9 + (a.y - b.y + 1) * 3 + (a.z - b.z + 1)
    } else {
        27
    }
}

/// Offset of the `n`-th cell of the 3x3x3 block (x slowest, z fastest).
fn block_offset(n: u8) -> (r: (i64, i64, i64))
    requires
        n < 27,
    ensures
        -1 <= r.0 <= 1 && -1 <= r.1 <= 1 && -1 <= r.2 <= 1,
        (r.0 + 1) * 9 + (r.1 + 1) * 3 + (r.2 + 1) == n,
{
    let dx: i64 = if n < 9 {
        -1
    } else if n < 18 {
        0
    } else {
        1
    };
    let m: i64 = n as i64 - 9 * (dx + 1);
    let dy: i64 = if m < 3 {
        -1
    } else if m < 6 {
        0
    } else {
        1
    };
    let dz: i64 = m - 3 * (dy + 1) - 1;
    (dx, dy, dz)
}

/// The entities that scout `i` detects, found through the grid: the 27
/// cells around the scout's cell are scanned in slot order, each cell's
/// entities in increasing index order, and each candidate is kept only if
/// it passes the exact distance test.
pub fn scan_neighbourhood(
    positions: &Vec<Ecef>,
    team_ids: &Vec<String>,
    index: &SpatialIndex,
    i: usize,
    range_mm: i64,
) -> (r: Vec<Detection>)
    requires
        all_in_bounds(positions@),
        team_ids@.len() == positions@.len(),
        i < positions@.len(),
        range_mm > 0,
        index.cell_mm == range_mm,
        index.covers(positions@),
    ensures
        sees_exactly(r@, positions@, team_ids@, i as int, range_mm as int),
{
    let ghost ps = positions@;
    let ghost teams = team_ids@;
    let ghost c = range_mm as int;
    let ghost n_ent = ps.len() as int;
    assert(n_ent == positions.len());
    assert((range_mm as u128) * (range_mm as u128) < 0x4000_0000_0000_0000_0000_0000_0000_0000) by (nonlinear_arith)
        requires 0 < range_mm < 0x8000_0000_0000_0000;
    let range_sq: u128 = (range_mm as u128) * (range_mm as u128);
    let here = positions[i];
    proof {
        lemma_cell_of_bounds(here, c);
    }
    let base = cell_key(here, range_mm);
    let mut found: Vec<Detection> = Vec::new();
    let mut n: u8 = 0;
    while n < 27
        invariant
            ps == positions@,
            teams == team_ids@,
            c == range_mm,
            c > 0,
            n_ent == ps.len(),
            n_ent <= usize::MAX,
            all_in_bounds(ps),
            teams.len() == ps.len(),
            0 <= i < ps.len(),
            index.cell_mm == range_mm,
            cells_cover_prefix(index.cells@, ps, c, n_ent),
            here == ps[i as int],
            base == cell_of(here, c),
            -MAX_COORD_MM - 1 <= base.x <= MAX_COORD_MM,
            -MAX_COORD_MM - 1 <= base.y <= MAX_COORD_MM,
            -MAX_COORD_MM - 1 <= base.z <= MAX_COORD_MM,
            range_sq == c * c,
            n <= 27,
            targets(found@).no_duplicates(),
            in_scan_order(found@, ps, c, i as int),
            forall|k: int|
                0 <= k < found@.len() ==> {
                    let j = (#[trigger] found@[k]).target as int;
                    &&& detects(ps, teams, i as int, j, c)
                    &&& slot(ps, c, i as int, j) < n
                    &&& info_ok(found@[k].info, here, ps[j])
                },
            forall|j: int|
                0 <= j < n_ent && detects(ps, teams, i as int, j, c) && slot(ps, c, i as int, j) < n
                    ==> targets(found@).contains(j as usize),
        decreases 27 - n,
    {
        let off = block_offset(n);
        let cell = CellKey { x: base.x + off.0, y: base.y + off.1, z: base.z + off.2 };
        assert(key_packable(cell));
        let key = pack(cell);
        proof {
            // A position lands in this cell exactly when its slot is `n`.
            assert forall|j: int| 0 <= j < n_ent implies (cell_of(ps[j], c) == cell <==> slot(
                ps,
                c,
                i as int,
                j,
            ) == n) by {
                lemma_cell_of_bounds(ps[j], c);
            }
        }
        match index.cells.get(&key) {
            Some(bucket) => {
                assert(index.cells@.contains_key(key) && index.cells@[key] == *bucket);
                assert(bucket_ok(bucket@, ps, c, key as int, n_ent));
                let mut u: usize = 0;
                while u < bucket.len()
                    invariant
                        ps == positions@,
                        teams == team_ids@,
                        c == range_mm,
                        c > 0,
                        n_ent == ps.len(),
                        n_ent <= usize::MAX,
                        all_in_bounds(ps),
                        teams.len() == ps.len(),
                        0 <= i < ps.len(),
                        here == ps[i as int],
                        range_sq == c * c,
                        n < 27,
                        key == packed(cell),
                        key_packable(cell),
                        bucket_ok(bucket@, ps, c, key as int, n_ent),
                        forall|j: int| 0 <= j < n_ent ==> (cell_of(ps[j], c) == cell <==> slot(
                            ps,
                            c,
                            i as int,
                            j,
                        ) == n),
                        u <= bucket@.len(),
                        targets(found@).no_duplicates(),
                        in_scan_order(found@, ps, c, i as int),
                        forall|k: int|
                            0 <= k < found@.len() ==> {
                                let j = (#[trigger] found@[k]).target as int;
                                &&& detects(ps, teams, i as int, j, c)
                                &&& slot(ps, c, i as int, j) <= n
                                &&& (slot(ps, c, i as int, j) == n ==> bucket@.subrange(
                                    0,
                                    u as int,
                                ).contains(j as usize))
                                &&& info_ok(found@[k].info, here, ps[j])
                            },
                        forall|j: int|
                            0 <= j < n_ent && detects(ps, teams, i as int, j, c) && (slot(
                                ps,
                                c,
                                i as int,
                                j,
                            ) < n || bucket@.subrange(0, u as int).contains(j as usize))
                                ==> targets(found@).contains(j as usize),
                    decreases bucket.len() - u,
                {
                    let j = bucket[u];
                    proof {
                        lemma_cell_of_bounds(ps[j as int], c);
                        lemma_packed_injective(cell_of(ps[j as int], c), cell);
                    }
                    let ghost prev = found@;
                    if j != i && team_ids[j] != team_ids[i] {
                        let there = positions[j];
                        let d_sq = distance_sq(here, there);
                        if d_sq <= range_sq {
                            let dist = sqrt_mm_to_metres(d_sq);
                            let rec = Detection {
                                target: j,
                                info: DetectionInfo { position: there, distance_m: dist },
                            };
                            let ghost before = found@;
                            assert(before == prev);
                            proof {
                                assert forall|k: int| 0 <= k < before.len() implies before[k].target
                                    != j by {
                                    let t = before[k].target;
                                    if t == j {
                                        let w = choose|w: int|
                                            0 <= w < u && bucket@.subrange(0, u as int)[w] == t;
                                        assert(bucket@[w] < bucket@[u as int]);
                                    }
                                }
                            }
                            found.push(rec);
                            proof {
                                assert(targets(found@) == targets(before).push(j));
                                assert forall|k: int| 0 <= k < found@.len() implies {
                                    let t = (#[trigger] found@[k]).target as int;
                                    &&& detects(ps, teams, i as int, t, c)
                                    &&& slot(ps, c, i as int, t) <= n
                                    &&& (slot(ps, c, i as int, t) == n ==> bucket@.subrange(
                                        0,
                                        u + 1,
                                    ).contains(t as usize))
                                    &&& info_ok(found@[k].info, here, ps[t])
                                } by {
                                    if k < before.len() {
                                        let t = before[k].target;
                                        if slot(ps, c, i as int, t as int) == n {
                                            let w = choose|w: int|
                                                0 <= w < u && bucket@.subrange(0, u as int)[w] == t;
                                            assert(bucket@.subrange(0, u + 1)[w] == t);
                                        }
                                    } else {
                                        assert(bucket@.subrange(0, u + 1)[u as int] == j);
                                    }
                                }
                            }
                        }
                    }
                    proof {
                        assert(found@.len() >= prev.len());
                        assert(forall|k: int| 0 <= k < prev.len() ==> found@[k] == prev[k]);
                        assert(detects(ps, teams, i as int, j as int, c) ==> found@[found@.len() - 1].target == j);
                        assert forall|jj: int|
                            0 <= jj < n_ent && detects(ps, teams, i as int, jj, c) && (slot(
                                ps,
                                c,
                                i as int,
                                jj,
                            ) < n || bucket@.subrange(0, u + 1).contains(jj as usize))
                                implies targets(found@).contains(jj as usize) by {
                            if jj == j as int {
                                assert(targets(found@)[found@.len() - 1] == j);
                            } else {
                                if slot(ps, c, i as int, jj) >= n {
                                    let sub = bucket@.subrange(0, u + 1);
                                    let w = choose|w: int| 0 <= w < sub.len() && #[trigger] sub[w] == jj as usize;
                                    assert(sub[u as int] == j);
                                    assert(w != u);
                                    assert(bucket@.subrange(0, u as int)[w] == jj as usize);
                                }
                                assert(targets(prev).contains(jj as usize));
                                let k = choose|k: int| 0 <= k < prev.len() && #[trigger] targets(prev)[k] == jj as usize;
                                assert(targets(found@)[k] == jj as usize);
                            }
                        }
                    }
                    u = u + 1;
                }
                proof {
                    assert forall|j: int|
                        0 <= j < n_ent && detects(ps, teams, i as int, j, c) && slot(ps, c, i as int, j)
                            < n + 1 implies targets(found@).contains(j as usize) by {
                        if slot(ps, c, i as int, j) == n {
                            lemma_cell_of_bounds(ps[j], c);
                            assert(bucket@.contains(j as usize));
                            assert(bucket@.subrange(0, bucket@.len() as int) == bucket@);
                        }
                    }
                }
            },
            None => {
                proof {
                    assert forall|j: int|
                        0 <= j < n_ent && detects(ps, teams, i as int, j, c) && slot(ps, c, i as int, j)
                            < n + 1 implies targets(found@).contains(j as usize) by {
                        if slot(ps, c, i as int, j) == n {
                            assert(index.cells@.contains_key(packed(cell_of(ps[j], c)) as u128));
                        }
                    }
                }
            },
        }
        n = n + 1;
    }
    proof {
        assert forall|j: usize| targets(found@).contains(j) <==> detects(
            ps,
            teams,
            i as int,
            j as int,
            c,
        ) by {
            if detects(ps, teams, i as int, j as int, c) {
                lemma_within_edge_is_adjacent(ps[i as int], ps[j as int], c);
            }
            if targets(found@).contains(j) {
                let k = choose|k: int| 0 <= k < found@.len() && targets(found@)[k] == j;
                assert(found@[k].target == j);
            }
        }
    }
    found
}

} // verus!

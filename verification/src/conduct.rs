//! What one step of a robot does, stated over the map, the known
//! resources and the cells other robots occupy, with the facts about steps
//! that the worlds rely on.
use vstd::prelude::*;

use crate::knowledge::{
    all_on_map, best_known_resource, knows_position, learn, lemma_learn_on_map, lemma_window_on_map, obstacle_at,
    obstacles_real, reports_on_map, scan_reports,
};
use crate::map::{Tile, TileMap, after_taking, grid_units, has_unit, kind_units, lemma_grid_units_update};
use crate::path::{first_step_of_shortest, is_next_step, link, walk_between};
use crate::robot::{
    CollectorMode, Point, ResourceDiscovery, Robot, RobotMessage, RobotType, keep_if,
    open_neighbours,
};

verus! {

/// `s` without its first occurrence of `p`, if it has one.
pub open spec fn drop_point(s: Seq<Point>, p: Point) -> Seq<Point>
    decreases s.len(),
{
    if s.len() == 0 {
        s
    } else if s[0] == p {
        s.drop_first()
    } else {
        seq![s[0]] + drop_point(s.drop_first(), p)
    }
}

pub(crate) proof fn lemma_drop_point_first(s: Seq<Point>, p: Point, idx: int)
    requires
        0 <= idx < s.len(),
        s[idx] == p,
        forall|j: int| 0 <= j < idx ==> s[j] != p,
    ensures
        drop_point(s, p) == s.remove(idx),
    decreases s.len(),
{
    if idx > 0 {
        lemma_drop_point_first(s.drop_first(), p, idx - 1);
        assert(drop_point(s, p) =~= s.remove(idx));
    } else {
        assert(s.drop_first() =~= s.remove(0));
    }
}

pub(crate) proof fn lemma_drop_point_absent(s: Seq<Point>, p: Point)
    requires
        !s.contains(p),
    ensures
        drop_point(s, p) == s,
    decreases s.len(),
{
    if s.len() > 0 {
        assert(!s.drop_first().contains(p)) by {
            if s.drop_first().contains(p) {
                let i = choose|i: int| 0 <= i < s.len() - 1 && s.drop_first()[i] == p;
                assert(s[i + 1] == p);
            }
        }
        lemma_drop_point_absent(s.drop_first(), p);
        assert(drop_point(s, p) =~= s);
    }
}

/// The cells a search must route around: the occupied ones when robots
/// avoid each other, none otherwise.
pub open spec fn blocked_cells(occupied: Seq<Point>, avoid: bool) -> Seq<Point> {
    if avoid {
        occupied
    } else {
        seq![]
    }
}

/// A robot trying to step on `next` gets there unless robots avoid each
/// other and the cell is taken.
pub open spec fn may_enter(occupied: Seq<Point>, avoid: bool, next: Point) -> bool {
    !(avoid && occupied.contains(next))
}

/// The occupied cells once a robot has moved from `from` to `to`: the cell
/// left is freed and the one entered taken, when robots avoid each other.
pub open spec fn relocate(occupied: Seq<Point>, avoid: bool, from: Point, to: Point) -> Seq<Point> {
    if avoid {
        drop_point(occupied, from).push(to)
    } else {
        occupied
    }
}

/// `r1` is `r0` with nothing changed but its place and the cells it has visited.
pub open spec fn same_load(r0: Robot, r1: Robot) -> bool {
    &&& r1.robot_type == r0.robot_type
    &&& r1.carrying_energy == r0.carrying_energy
    &&& r1.carrying_crystal == r0.carrying_crystal
    &&& r1.mode == r0.mode
}

/// The result of `r0` trying to step on `next`: it moves there, the
/// occupied cells follow it, and it remembers the cell if asked to, unless
/// the cell is taken, in which case nothing changes.
pub open spec fn attempt(
    r0: Robot,
    occ0: Seq<Point>,
    avoid: bool,
    next: Point,
    record: bool,
    r1: Robot,
    occ1: Seq<Point>,
) -> bool {
    &&& same_load(r0, r1)
    &&& if may_enter(occ0, avoid, next) {
        &&& r1.at() == next
        &&& occ1 == relocate(occ0, avoid, r0.at(), next)
        &&& r1.visited@ == if record { visit(r0.visited@, next) } else { r0.visited@ }
    } else {
        &&& r1.at() == r0.at()
        &&& occ1 == occ0
        &&& r1.visited@ == r0.visited@
    }
}

/// `v` with `p` added, unless it is there already.
pub open spec fn visit(v: Seq<Point>, p: Point) -> Seq<Point> {
    if v.contains(p) {
        v
    } else {
        v.push(p)
    }
}

/// No cell appears twice in `s`.
pub open spec fn distinct_cells(s: Seq<Point>) -> bool {
    forall|i: int, j: int| 0 <= i < s.len() && 0 <= j < s.len() && i != j ==> s[i] != s[j]
}

/// Adding a cell with `visit` keeps the cells of a list apart.
pub proof fn lemma_visit_distinct(s: Seq<Point>, p: Point)
    ensures
        distinct_cells(s) ==> distinct_cells(visit(s, p)),
{
    if distinct_cells(s) && !s.contains(p) {
        let t = s.push(p);
        assert forall|i: int, j: int| 0 <= i < t.len() && 0 <= j < t.len() && i != j implies t[i] != t[j] by {
            if i < s.len() && j < s.len() {
                assert(t[i] == s[i]);
                assert(t[j] == s[j]);
            } else if i < s.len() {
                assert(t[i] == s[i]);
            } else {
                assert(t[j] == s[j]);
            }
        }
    }
}

pub(crate) proof fn lemma_visits_distinct(s: Seq<Point>)
    ensures
        forall|p: Point| distinct_cells(s) ==> distinct_cells(#[trigger] visit(s, p)),
{
    assert forall|p: Point| distinct_cells(s) implies distinct_cells(#[trigger] visit(s, p)) by {
        lemma_visit_distinct(s, p);
    }
}

/// The cells of `c` not in `v`, in order.
pub open spec fn fresh_cells(v: Seq<Point>, c: Seq<Point>) -> Seq<Point>
    decreases c.len(),
{
    if c.len() == 0 {
        c
    } else {
        fresh_cells(v, c.drop_last()) + if v.contains(c.last()) {
            Seq::<Point>::empty()
        } else {
            seq![c.last()]
        }
    }
}

/// The cells of `c` in `v`, in order.
pub open spec fn seen_cells(v: Seq<Point>, c: Seq<Point>) -> Seq<Point>
    decreases c.len(),
{
    if c.len() == 0 {
        c
    } else {
        seen_cells(v, c.drop_last()) + if v.contains(c.last()) {
            seq![c.last()]
        } else {
            Seq::<Point>::empty()
        }
    }
}

pub(crate) proof fn lemma_split_cells(v: Seq<Point>, c: Seq<Point>)
    ensures
        forall|p: Point| fresh_cells(v, c).contains(p) <==> (c.contains(p) && !v.contains(p)),
        forall|p: Point| seen_cells(v, c).contains(p) <==> (c.contains(p) && v.contains(p)),
    decreases c.len(),
{
    if c.len() > 0 {
        lemma_split_cells(v, c.drop_last());
        let d = c.drop_last();
        assert forall|p: Point| c.contains(p) <==> (d.contains(p) || p == c.last()) by {
            if c.contains(p) {
                let i = choose|i: int| 0 <= i < c.len() && c[i] == p;
                if i < c.len() - 1 {
                    assert(d[i] == p);
                }
            }
            if d.contains(p) {
                let i = choose|i: int| 0 <= i < d.len() && d[i] == p;
                assert(c[i] == p);
            }
        }
        let f = fresh_cells(v, d);
        let e = if v.contains(c.last()) { Seq::<Point>::empty() } else { seq![c.last()] };
        assert forall|p: Point| (f + e).contains(p) <==> (f.contains(p) || e.contains(p)) by {
            if (f + e).contains(p) {
                let i = choose|i: int| 0 <= i < (f + e).len() && (f + e)[i] == p;
                if i >= f.len() {
                    assert(e[i - f.len()] == p);
                }
            }
            if f.contains(p) {
                let i = choose|i: int| 0 <= i < f.len() && f[i] == p;
                assert((f + e)[i] == p);
            }
            if e.contains(p) {
                assert((f + e)[f.len() as int] == p);
            }
        }
        let g = seen_cells(v, d);
        let h = if v.contains(c.last()) { seq![c.last()] } else { Seq::<Point>::empty() };
        assert forall|p: Point| (g + h).contains(p) <==> (g.contains(p) || h.contains(p)) by {
            if (g + h).contains(p) {
                let i = choose|i: int| 0 <= i < (g + h).len() && (g + h)[i] == p;
                if i >= g.len() {
                    assert(h[i - g.len()] == p);
                }
            }
            if g.contains(p) {
                let i = choose|i: int| 0 <= i < g.len() && g[i] == p;
                assert((g + h)[i] == p);
            }
            if h.contains(p) {
                assert((g + h)[g.len() as int] == p);
            }
        }
        assert(fresh_cells(v, c) == f + e);
        assert(seen_cells(v, c) == g + h);
        assert forall|p: Point| fresh_cells(v, c).contains(p) <==> (c.contains(p) && !v.contains(p)) by {
            assert(f.contains(p) <==> (d.contains(p) && !v.contains(p)));
            assert((f + e).contains(p) <==> (f.contains(p) || e.contains(p)));
            assert(c.contains(p) <==> (d.contains(p) || p == c.last()));
            if e.contains(p) {
                assert(e[0] == p);
            }
            if p == c.last() && !v.contains(p) {
                assert(e[0] == p);
            }
        }
        assert forall|p: Point| seen_cells(v, c).contains(p) <==> (c.contains(p) && v.contains(p)) by {
            assert(g.contains(p) <==> (d.contains(p) && v.contains(p)));
            assert((g + h).contains(p) <==> (g.contains(p) || h.contains(p)));
            assert(c.contains(p) <==> (d.contains(p) || p == c.last()));
            if h.contains(p) {
                assert(h[0] == p);
            }
            if p == c.last() && v.contains(p) {
                assert(h[0] == p);
            }
        }
    } else {
        assert forall|p: Point| !fresh_cells(v, c).contains(p) && !seen_cells(v, c).contains(p) && !c.contains(p) by {
        }
    }
}

/// What a scout does in one step: with no neighbour to step on it stays
/// and reports nothing; otherwise it tries to step on a neighbouring cell,
/// one it has not visited if there is such a cell, remembers the cell if it
/// got there, and scans from where it stands.
pub open spec fn scout_step(
    map: TileMap,
    r0: Robot,
    occ0: Seq<Point>,
    avoid: bool,
    r1: Robot,
    occ1: Seq<Point>,
    reports: Seq<RobotMessage>,
) -> bool {
    let cands = open_neighbours(map, r0.at());
    let fresh = fresh_cells(r0.visited@, cands);
    if cands.len() == 0 {
        &&& r1.at() == r0.at()
        &&& r1.visited@ == r0.visited@
        &&& same_load(r0, r1)
        &&& occ1 == occ0
        &&& reports == Seq::<RobotMessage>::empty()
    } else {
        exists|next: Point|
            {
                &&& (if fresh.len() > 0 { fresh.contains(next) } else { cands.contains(next) })
                &&& #[trigger] attempt(r0, occ0, avoid, next, true, r1, occ1)
                &&& reports == scan_reports(map, r1.at())
            }
    }
}

/// What patrolling around the base does: the robot tries to step on one of
/// its open neighbours, remembering the cell if it gets there.
pub open spec fn patrol_step(map: TileMap, r0: Robot, occ0: Seq<Point>, avoid: bool, r1: Robot, occ1: Seq<Point>) -> bool {
    let cands = open_neighbours(map, r0.at());
    if cands.len() == 0 {
        &&& r1.at() == r0.at()
        &&& r1.visited@ == r0.visited@
        &&& same_load(r0, r1)
        &&& occ1 == occ0
    } else {
        exists|next: Point| cands.contains(next) && #[trigger] attempt(r0, occ0, avoid, next, true, r1, occ1)
    }
}

/// What heading for `goal` does: the robot asks the search for the first
/// move of a shortest walk there, around the occupied cells when robots
/// avoid each other, and tries to make it; with no such move it stays.
pub open spec fn heads_for(
    map: TileMap,
    r0: Robot,
    occ0: Seq<Point>,
    avoid: bool,
    goal: Point,
    r1: Robot,
    occ1: Seq<Point>,
) -> bool {
    exists|s: Option<Point>|
        {
            &&& #[trigger] is_next_step(map, blocked_cells(occ0, avoid), r0.at(), goal, s)
            &&& match s {
                Some(n) => attempt(r0, occ0, avoid, n, false, r1, occ1),
                None => r1.at() == r0.at() && r1.visited@ == r0.visited@ && same_load(r0, r1) && occ1 == occ0,
            }
        }
}

/// `r` set to the given mode.
pub open spec fn with_mode(r: Robot, mode: CollectorMode) -> Robot {
    Robot { mode, ..r }
}

/// `r1` is `r0` where it stood, with its visited cells and type, in `mode`.
pub open spec fn stays_in_mode(r0: Robot, r1: Robot, mode: CollectorMode) -> bool {
    &&& r1.at() == r0.at()
    &&& r1.visited@ == r0.visited@
    &&& r1.robot_type == r0.robot_type
    &&& r1.carrying_energy == r0.carrying_energy
    &&& r1.carrying_crystal == r0.carrying_crystal
    &&& r1.mode == mode
}

/// The two maps hold the same tiles and base.
pub open spec fn same_map(m0: TileMap, m1: TileMap) -> bool {
    &&& m1.width == m0.width
    &&& m1.height == m0.height
    &&& m1.base == m0.base
    &&& m1.cells() == m0.cells()
}

/// `m1` is `m0` with one unit taken from the tile at `p`.
pub open spec fn taken_from(m0: TileMap, m1: TileMap, p: Point) -> bool {
    &&& m1.width == m0.width
    &&& m1.height == m0.height
    &&& m1.base == m0.base
    &&& m1.cells() == m0.cells().update(
        p.y as int,
        m0.cells()[p.y as int].update(p.x as int, after_taking(m0.tile(p.x as int, p.y as int))),
    )
}

/// What a collector in the mode it has settled on does in one step.
/// Heading home, it moves towards the base. Heading for a resource that is
/// no longer known, it goes back to exploring; standing on it, it takes a
/// unit, or reports the tile depleted and goes back to exploring; elsewhere
/// it moves towards it, or goes back to exploring when no walk leads there.
/// Exploring, it heads for the best known resource; with none left, it
/// patrols when at the base and heads home otherwise.
pub open spec fn collector_acts(
    map: TileMap,
    known: Seq<ResourceDiscovery>,
    r0: Robot,
    occ0: Seq<Point>,
    avoid: bool,
    m1: TileMap,
    r1: Robot,
    occ1: Seq<Point>,
    reports: Seq<RobotMessage>,
) -> bool {
    match r0.mode {
        CollectorMode::ReturningBase => {
            &&& same_map(map, m1)
            &&& reports == Seq::<RobotMessage>::empty()
            &&& heads_for(map, r0, occ0, avoid, map.base, r1, occ1)
        },
        CollectorMode::ToResource(target) => {
            if !knows_position(known, target) {
                &&& same_map(map, m1)
                &&& reports == Seq::<RobotMessage>::empty()
                &&& occ1 == occ0
                &&& stays_in_mode(r0, r1, CollectorMode::Exploring)
            } else if r0.at() == target {
                let t = map.tile(target.x as int, target.y as int);
                if has_unit(t) {
                    &&& taken_from(map, m1, target)
                    &&& reports == Seq::<RobotMessage>::empty()
                    &&& occ1 == occ0
                    &&& r1.at() == r0.at()
                    &&& r1.visited@ == r0.visited@
                    &&& r1.robot_type == r0.robot_type
                    &&& r1.mode == r0.mode
                    &&& if t is Energy {
                        r1.carrying_energy == r0.carrying_energy + 1 && r1.carrying_crystal == r0.carrying_crystal
                    } else {
                        r1.carrying_energy == r0.carrying_energy && r1.carrying_crystal == r0.carrying_crystal + 1
                    }
                } else {
                    &&& same_map(map, m1)
                    &&& reports == seq![RobotMessage::ResourceDepleted(target)]
                    &&& occ1 == occ0
                    &&& stays_in_mode(r0, r1, CollectorMode::Exploring)
                }
            } else {
                &&& same_map(map, m1)
                &&& reports == Seq::<RobotMessage>::empty()
                &&& exists|s: Option<Point>|
                    {
                        &&& #[trigger] is_next_step(map, blocked_cells(occ0, avoid), r0.at(), target, s)
                        &&& match s {
                            Some(n) => attempt(r0, occ0, avoid, n, false, r1, occ1),
                            None => occ1 == occ0 && stays_in_mode(r0, r1, CollectorMode::Exploring),
                        }
                    }
            }
        },
        CollectorMode::Exploring => {
            &&& same_map(map, m1)
            &&& reports == Seq::<RobotMessage>::empty()
            &&& exists|choice: Option<Point>|
                {
                    &&& #[trigger] best_known_resource(map, r0.at(), known, choice)
                    &&& match choice {
                        Some(target) => heads_for(
                            map,
                            with_mode(r0, CollectorMode::ToResource(target)),
                            occ0,
                            avoid,
                            target,
                            r1,
                            occ1,
                        ),
                        None => if r0.at() == map.base {
                            patrol_step(map, r0, occ0, avoid, r1, occ1)
                        } else {
                            heads_for(map, r0, occ0, avoid, map.base, r1, occ1)
                        },
                    }
                }
        },
    }
}

/// The load at which a collector turns home.
pub open spec fn full_load() -> int {
    12
}

/// The mode a collector acts in once it has looked at where it stands and
/// what it carries: exploring at the base, heading home with a full load,
/// and otherwise the mode it was in.
pub open spec fn settled_mode(map: TileMap, r: Robot) -> CollectorMode {
    if r.at() == map.base {
        CollectorMode::Exploring
    } else if r.cargo() >= full_load() {
        CollectorMode::ReturningBase
    } else {
        r.mode
    }
}

/// One step of a collector. At the base with a load, it hands the load over
/// and goes back to exploring. Otherwise it settles its mode (exploring at
/// the base, heading home when carrying a full load) and acts on it.
pub open spec fn collector_step(
    map: TileMap,
    known: Seq<ResourceDiscovery>,
    r0: Robot,
    occ0: Seq<Point>,
    avoid: bool,
    m1: TileMap,
    r1: Robot,
    occ1: Seq<Point>,
    reports: Seq<RobotMessage>,
    delivered: Option<(u32, u32)>,
) -> bool {
    let at_base = r0.at() == map.base;
    if at_base && r0.cargo() > 0 {
        &&& delivered == Some((r0.carrying_energy, r0.carrying_crystal))
        &&& r1.at() == r0.at()
        &&& r1.visited@ == r0.visited@
        &&& r1.robot_type == r0.robot_type
        &&& r1.carrying_energy == 0
        &&& r1.carrying_crystal == 0
        &&& r1.mode == CollectorMode::Exploring
        &&& same_map(map, m1)
        &&& occ1 == occ0
        &&& reports == Seq::<RobotMessage>::empty()
    } else {
        let mode = settled_mode(map, r0);
        &&& delivered is None
        &&& collector_acts(map, known, with_mode(r0, mode), occ0, avoid, m1, r1, occ1, reports)
    }
}

/// Two maps with the same obstacles agree on where the obstacles are.
pub(crate) proof fn lemma_terrain_obstacles(m0: TileMap, m1: TileMap, reports: Seq<RobotMessage>)
    requires
        same_terrain(m0, m1),
        obstacles_real(m0, reports),
    ensures
        obstacles_real(m1, reports),
{
    assert forall|i: int| 0 <= i < reports.len() implies (#[trigger] reports[i] matches RobotMessage::ObstacleFound(p)
        ==> obstacle_at(m1, p)) by {
        if let RobotMessage::ObstacleFound(p) = reports[i] {
            assert(obstacle_at(m0, p));
            assert(m1.walkable_at(p.x as int, p.y as int) == m0.walkable_at(p.x as int, p.y as int));
        }
    }
}

pub(crate) proof fn lemma_acts_reports_on_map(
    map: TileMap,
    known: Seq<ResourceDiscovery>,
    r0: Robot,
    occ0: Seq<Point>,
    avoid: bool,
    m1: TileMap,
    r1: Robot,
    occ1: Seq<Point>,
    reports: Seq<RobotMessage>,
    delivered: Option<(u32, u32)>,
)
    requires
        robot_acts(map, known, r0, occ0, avoid, m1, r1, occ1, reports, delivered),
    ensures
        reports_on_map(map, reports),
        reports_on_map(m1, reports),
        obstacles_real(map, reports),
        m1.width == map.width,
        m1.height == map.height,
{
    lemma_window_on_map(map, r1.at(), 9);
    lemma_window_on_map(m1, r1.at(), 9);
}

/// One step of a robot of either type, scans aside.
pub open spec fn robot_acts(
    map: TileMap,
    known: Seq<ResourceDiscovery>,
    r0: Robot,
    occ0: Seq<Point>,
    avoid: bool,
    m1: TileMap,
    r1: Robot,
    occ1: Seq<Point>,
    reports: Seq<RobotMessage>,
    delivered: Option<(u32, u32)>,
) -> bool {
    match r0.robot_type {
        RobotType::Scout => {
            &&& scout_step(map, r0, occ0, avoid, r1, occ1, reports)
            &&& same_map(map, m1)
            &&& delivered is None
        },
        RobotType::Collector => collector_step(map, known, r0, occ0, avoid, m1, r1, occ1, reports, delivered),
    }
}

/// What `Robot::update` does: the robot scans, takes in what it saw, acts
/// on what it now knows (robots do not avoid each other here), takes in what
/// it reported, scans again and takes that in too.
pub open spec fn robot_update(
    r0: Robot,
    m0: TileMap,
    k0: Seq<ResourceDiscovery>,
    r1: Robot,
    m1: TileMap,
    k1: Seq<ResourceDiscovery>,
    delivered: Option<(u32, u32)>,
) -> bool {
    let seen = learn(k0, scan_reports(m0, r0.at()));
    exists|reports: Seq<RobotMessage>|
        {
            &&& #[trigger] robot_acts(m0, seen, r0, seq![], false, m1, r1, seq![], reports, delivered)
            &&& k1 == learn(learn(seen, reports), scan_reports(m1, r1.at()))
        }
}

/// What `Robot::update_shared` does: the robot reports what it sees, acts
/// on the shared snapshot `known` while keeping off the occupied cells,
/// and reports what it sees from where it ends up. `reports` is everything
/// it sent, in order.
pub open spec fn robot_update_shared(
    r0: Robot,
    m0: TileMap,
    known: Seq<ResourceDiscovery>,
    occ0: Seq<Point>,
    r1: Robot,
    m1: TileMap,
    occ1: Seq<Point>,
    sent: Seq<RobotMessage>,
    delivered: Option<(u32, u32)>,
) -> bool {
    exists|reports: Seq<RobotMessage>|
        {
            &&& #[trigger] robot_acts(m0, known, r0, occ0, true, m1, r1, occ1, reports, delivered)
            &&& sent == scan_reports(m0, r0.at()) + reports + scan_reports(m1, r1.at())
        }
}

/// The two maps have the same size and the same obstacles.
pub open spec fn same_terrain(m0: TileMap, m1: TileMap) -> bool {
    &&& m1.width == m0.width
    &&& m1.height == m0.height
    &&& m1.base == m0.base
    &&& forall|x: int, y: int| m0.inside(x, y) ==> #[trigger] m1.walkable_at(x, y) == m0.walkable_at(x, y)
}

/// The robot stands on the map, on a cell that is not an obstacle.
pub open spec fn on_open_ground(map: TileMap, r: Robot) -> bool {
    map.inside(r.x as int, r.y as int) && map.walkable_at(r.x as int, r.y as int)
}

pub(crate) proof fn lemma_open_neighbours(map: TileMap, p: Point)
    ensures
        forall|n: Point| #[trigger] open_neighbours(map, p).contains(n) ==> map.inside(n.x as int, n.y as int)
            && map.walkable_at(n.x as int, n.y as int),
{
    let s = open_neighbours(map, p);
    assert forall|n: Point| #[trigger] s.contains(n) implies map.inside(n.x as int, n.y as int) && map.walkable_at(
        n.x as int,
        n.y as int,
    ) by {
        let i = choose|i: int| 0 <= i < s.len() && s[i] == n;
        let up = Point { x: p.x, y: (p.y - 1) as usize };
        let right = Point { x: (p.x + 1) as usize, y: p.y };
        let down = Point { x: p.x, y: (p.y + 1) as usize };
        let left = Point { x: (p.x - 1) as usize, y: p.y };
        let a = keep_if(p.y >= 1 && map.inside(up.x as int, up.y as int) && map.walkable_at(up.x as int, up.y as int), up);
        let b = keep_if(p.x + 1 < map.width && map.inside(right.x as int, right.y as int) && map.walkable_at(right.x as int, right.y as int), right);
        let c = keep_if(p.y + 1 < map.height && map.inside(down.x as int, down.y as int) && map.walkable_at(down.x as int, down.y as int), down);
        let d = keep_if(p.x >= 1 && map.inside(left.x as int, left.y as int) && map.walkable_at(left.x as int, left.y as int), left);
        assert(s == a + b + c + d);
        if i < a.len() {
            assert(s[i] == a[i]);
        } else if i < a.len() + b.len() {
            assert(s[i] == b[i - a.len()]);
        } else if i < a.len() + b.len() + c.len() {
            assert(s[i] == c[i - a.len() - b.len()]);
        } else {
            assert(s[i] == d[i - a.len() - b.len() - c.len()]);
        }
    }
}

pub(crate) proof fn lemma_next_step_open(map: TileMap, blocked: Seq<Point>, start: Point, goal: Point, s: Point)
    requires
        crate::path::first_step_of_shortest(map, blocked, start, goal, s),
    ensures
        map.inside(s.x as int, s.y as int) && map.walkable_at(s.x as int, s.y as int),
{
    let w = choose|w: Seq<Point>|
        {
            &&& #[trigger] walk_between(map, blocked, goal, w, start, goal)
            &&& w.len() >= 2
            &&& w[1] == s
            &&& forall|w2: Seq<Point>| #[trigger] walk_between(map, blocked, goal, w2, start, goal) ==> w.len() <= w2.len()
        };
    assert(link(map, blocked, goal, w[0], w[1]));
}

pub(crate) proof fn lemma_heads_for_open(map: TileMap, r0: Robot, occ0: Seq<Point>, avoid: bool, goal: Point, r1: Robot, occ1: Seq<Point>)
    requires
        heads_for(map, r0, occ0, avoid, goal, r1, occ1),
    ensures
        r1.at() == r0.at() || on_open_ground(map, r1),
{
    let s = choose|s: Option<Point>| {
        &&& #[trigger] is_next_step(map, blocked_cells(occ0, avoid), r0.at(), goal, s)
        &&& match s {
            Some(n) => attempt(r0, occ0, avoid, n, false, r1, occ1),
            None => r1.at() == r0.at() && r1.visited@ == r0.visited@ && same_load(r0, r1) && occ1 == occ0,
        }
    };
    if let Some(n) = s {
        lemma_next_step_open(map, blocked_cells(occ0, avoid), r0.at(), goal, n);
    }
}

/// A robot's step leaves the obstacles where they are and puts the robot
/// on open ground, unless it stays where it was.
pub(crate) proof fn lemma_acts_terrain(
    map: TileMap,
    known: Seq<ResourceDiscovery>,
    r0: Robot,
    occ0: Seq<Point>,
    avoid: bool,
    m1: TileMap,
    r1: Robot,
    occ1: Seq<Point>,
    reports: Seq<RobotMessage>,
    d: Option<(u32, u32)>,
)
    requires
        map.wf(),
        r0.robot_type is Collector ==> all_on_map(map, known),
        robot_acts(map, known, r0, occ0, avoid, m1, r1, occ1, reports, d),
    ensures
        same_terrain(map, m1),
        r1.at() == r0.at() || on_open_ground(map, r1),
{
    lemma_open_neighbours(map, r0.at());
    if r0.robot_type is Scout {
        let cands = open_neighbours(map, r0.at());
        if cands.len() > 0 {
            lemma_split_cells(r0.visited@, cands);
            let next = choose|next: Point| {
                &&& (if fresh_cells(r0.visited@, cands).len() > 0 { fresh_cells(r0.visited@, cands).contains(next) } else { cands.contains(next) })
                &&& #[trigger] attempt(r0, occ0, avoid, next, true, r1, occ1)
                &&& reports == scan_reports(map, r1.at())
            };
            assert(cands.contains(next));
        }
    } else {
        let at_base = r0.at() == map.base;
        if !(at_base && r0.cargo() > 0) {
            let mode = settled_mode(map, r0);
            let rm = with_mode(r0, mode);
            match rm.mode {
                CollectorMode::ReturningBase => {
                    lemma_heads_for_open(map, rm, occ0, avoid, map.base, r1, occ1);
                },
                CollectorMode::ToResource(target) => {
                    if knows_position(known, target) && rm.at() == target {
                        let t = map.tile(target.x as int, target.y as int);
                        if has_unit(t) {
                            assert(collector_acts(map, known, rm, occ0, avoid, m1, r1, occ1, reports));
                            assert(taken_from(map, m1, target));
                            let c = map.cells();
                            let ty = target.y as int;
                            let tx = target.x as int;
                            assert(m1.cells() == c.update(ty, c[ty].update(tx, after_taking(t))));
                            assert(c.len() == map.height);
                            assert(c[ty] == map.grid@[ty]@);
                            assert(c[ty].len() == map.width);
                            assert forall|x: int, y: int| map.inside(x, y) implies #[trigger] m1.walkable_at(x, y)
                                == map.walkable_at(x, y) by {
                                if y == ty {
                                    if x == tx {
                                    } else {
                                        assert(c[ty].update(tx, after_taking(t))[x] == c[ty][x]);
                                    }
                                } else {
                                    assert(c.update(ty, c[ty].update(tx, after_taking(t)))[y] == c[y]);
                                    assert(m1.cells()[y] == c[y]);
                                }
                            }
                        }
                    } else if knows_position(known, target) {
                        let s = choose|s: Option<Point>| {
                            &&& #[trigger] is_next_step(map, blocked_cells(occ0, avoid), rm.at(), target, s)
                            &&& match s {
                                Some(n) => attempt(rm, occ0, avoid, n, false, r1, occ1),
                                None => occ1 == occ0 && stays_in_mode(rm, r1, CollectorMode::Exploring),
                            }
                        };
                        if let Some(n) = s {
                            lemma_next_step_open(map, blocked_cells(occ0, avoid), rm.at(), target, n);
                        }
                    }
                },
                CollectorMode::Exploring => {
                    let choice = choose|choice: Option<Point>| {
                        &&& #[trigger] best_known_resource(map, rm.at(), known, choice)
                        &&& match choice {
                            Some(target) => heads_for(
                                map,
                                with_mode(rm, CollectorMode::ToResource(target)),
                                occ0,
                                avoid,
                                target,
                                r1,
                                occ1,
                            ),
                            None => if rm.at() == map.base {
                                patrol_step(map, rm, occ0, avoid, r1, occ1)
                            } else {
                                heads_for(map, rm, occ0, avoid, map.base, r1, occ1)
                            },
                        }
                    };
                    match choice {
                        Some(target) => {
                            lemma_heads_for_open(map, with_mode(rm, CollectorMode::ToResource(target)), occ0, avoid, target, r1, occ1);
                        },
                        None => {
                            if rm.at() == map.base {
                                let cands = open_neighbours(map, rm.at());
                                if cands.len() > 0 {
                                    let next = choose|next: Point| cands.contains(next) && #[trigger] attempt(rm, occ0, avoid, next, true, r1, occ1);
                                }
                            } else {
                                lemma_heads_for_open(map, rm, occ0, avoid, map.base, r1, occ1);
                            }
                        },
                    }
                },
            }
        }
    }
}

pub(crate) proof fn lemma_update_terrain(
    r0: Robot,
    m0: TileMap,
    k0: Seq<ResourceDiscovery>,
    r1: Robot,
    m1: TileMap,
    k1: Seq<ResourceDiscovery>,
    d: Option<(u32, u32)>,
)
    requires
        m0.wf(),
        r0.robot_type is Collector ==> all_on_map(m0, k0),
        robot_update(r0, m0, k0, r1, m1, k1, d),
    ensures
        same_terrain(m0, m1),
        r1.at() == r0.at() || on_open_ground(m0, r1),
{
    let seen = learn(k0, scan_reports(m0, r0.at()));
    let reports = choose|reports: Seq<RobotMessage>| {
        &&& #[trigger] robot_acts(m0, seen, r0, seq![], false, m1, r1, seq![], reports, d)
        &&& k1 == learn(learn(seen, reports), scan_reports(m1, r1.at()))
    };
    if r0.robot_type is Collector {
        lemma_window_on_map(m0, r0.at(), 9);
        lemma_learn_on_map(m0, k0, scan_reports(m0, r0.at()));
    }
    lemma_acts_terrain(m0, seen, r0, seq![], false, m1, r1, seq![], reports, d);
}

pub(crate) proof fn lemma_shared_terrain(
    r0: Robot,
    m0: TileMap,
    known: Seq<ResourceDiscovery>,
    occ0: Seq<Point>,
    r1: Robot,
    m1: TileMap,
    occ1: Seq<Point>,
    sent: Seq<RobotMessage>,
    d: Option<(u32, u32)>,
)
    requires
        m0.wf(),
        r0.robot_type is Collector ==> all_on_map(m0, known),
        robot_update_shared(r0, m0, known, occ0, r1, m1, occ1, sent, d),
    ensures
        same_terrain(m0, m1),
        r1.at() == r0.at() || on_open_ground(m0, r1),
{
    let reports = choose|reports: Seq<RobotMessage>| {
        &&& #[trigger] robot_acts(m0, known, r0, occ0, true, m1, r1, occ1, reports, d)
        &&& sent == scan_reports(m0, r0.at()) + reports + scan_reports(m1, r1.at())
    };
    lemma_acts_terrain(m0, known, r0, occ0, true, m1, r1, occ1, reports, d);
}

/// Within one shared update a robot either stays put, leaving the occupied
/// cells alone, or steps on a cell nobody held, which it then holds in place
/// of the one it left.
pub(crate) proof fn lemma_shared_moves(
    r0: Robot,
    m0: TileMap,
    known: Seq<ResourceDiscovery>,
    occ0: Seq<Point>,
    r1: Robot,
    m1: TileMap,
    occ1: Seq<Point>,
    sent: Seq<RobotMessage>,
    d: Option<(u32, u32)>,
)
    requires
        robot_update_shared(r0, m0, known, occ0, r1, m1, occ1, sent, d),
    ensures
        (r1.at() == r0.at() && occ1 == occ0) || (!occ0.contains(r1.at()) && occ1 == drop_point(occ0, r0.at()).push(
            r1.at(),
        )),
{
    let reports = choose|reports: Seq<RobotMessage>| {
        &&& #[trigger] robot_acts(m0, known, r0, occ0, true, m1, r1, occ1, reports, d)
        &&& sent == scan_reports(m0, r0.at()) + reports + scan_reports(m1, r1.at())
    };
    if r0.robot_type is Collector {
        let at_base = r0.at() == m0.base;
        if !(at_base && r0.cargo() > 0) {
            let mode = settled_mode(m0, r0);
            lemma_collector_acts_moves(m0, known, with_mode(r0, mode), occ0, m1, r1, occ1, reports);
        }
    }
}

pub(crate) proof fn lemma_collector_acts_moves(
    map: TileMap,
    known: Seq<ResourceDiscovery>,
    r0: Robot,
    occ0: Seq<Point>,
    m1: TileMap,
    r1: Robot,
    occ1: Seq<Point>,
    reports: Seq<RobotMessage>,
)
    requires
        collector_acts(map, known, r0, occ0, true, m1, r1, occ1, reports),
    ensures
        (r1.at() == r0.at() && occ1 == occ0) || (!occ0.contains(r1.at()) && occ1 == drop_point(occ0, r0.at()).push(
            r1.at(),
        )),
{
}

pub(crate) proof fn lemma_shared_keeps_load(
    r0: Robot,
    m0: TileMap,
    known: Seq<ResourceDiscovery>,
    occ0: Seq<Point>,
    r1: Robot,
    m1: TileMap,
    occ1: Seq<Point>,
    sent: Seq<RobotMessage>,
    d: Option<(u32, u32)>,
)
    requires
        robot_update_shared(r0, m0, known, occ0, r1, m1, occ1, sent, d),
    ensures
        r1.cargo() <= if r0.cargo() <= full_load() { full_load() } else { r0.cargo() },
        r1.robot_type == r0.robot_type,
        r0.robot_type is Scout ==> r1.cargo() == r0.cargo() && d is None,
        m1.width == m0.width,
        m1.height == m0.height,
        m1.base == m0.base,
        reports_on_map(m0, sent),
        m0.wf() && (r0.robot_type is Collector ==> all_on_map(m0, known)) ==> obstacles_real(m0, sent),
{
    let reports = choose|reports: Seq<RobotMessage>| {
        &&& #[trigger] robot_acts(m0, known, r0, occ0, true, m1, r1, occ1, reports, d)
        &&& sent == scan_reports(m0, r0.at()) + reports + scan_reports(m1, r1.at())
    };
    lemma_acts_reports_on_map(m0, known, r0, occ0, true, m1, r1, occ1, reports, d);
    lemma_window_on_map(m0, r0.at(), 9);
    lemma_window_on_map(m1, r1.at(), 9);
    let a = scan_reports(m0, r0.at());
    let c = scan_reports(m1, r1.at());
    if m0.wf() && (r0.robot_type is Collector ==> all_on_map(m0, known)) {
        lemma_acts_terrain(m0, known, r0, occ0, true, m1, r1, occ1, reports, d);
        assert(same_terrain(m1, m0)) by {
            assert forall|x: int, y: int| m1.inside(x, y) implies #[trigger] m0.walkable_at(x, y) == m1.walkable_at(x, y) by {
                assert(m1.walkable_at(x, y) == m0.walkable_at(x, y));
            }
        }
        lemma_terrain_obstacles(m1, m0, c);
        assert forall|q: int| 0 <= q < sent.len() implies (#[trigger] sent[q] matches RobotMessage::ObstacleFound(pp)
            ==> obstacle_at(m0, pp)) by {
            if q < a.len() {
                assert(sent[q] == a[q]);
            } else if q < a.len() + reports.len() {
                assert(sent[q] == reports[q - a.len()]);
            } else {
                assert(sent[q] == c[q - a.len() - reports.len()]);
            }
        }
    }
    assert forall|q: int| 0 <= q < sent.len() implies (#[trigger] sent[q] matches RobotMessage::ResourceFound(dd)
        ==> m0.inside(dd.position.x as int, dd.position.y as int)) by {
        if q < a.len() {
            assert(sent[q] == a[q]);
        } else if q < a.len() + reports.len() {
            assert(sent[q] == reports[q - a.len()]);
        } else {
            assert(sent[q] == c[q - a.len() - reports.len()]);
        }
    }
    if r0.robot_type is Collector {
        let at_base = r0.at() == m0.base;
        if !(at_base && r0.cargo() > 0) {
            let mode = settled_mode(m0, r0);
            lemma_collector_acts_load(m0, known, with_mode(r0, mode), occ0, true, m1, r1, occ1, reports);
        }
    }
}

pub(crate) proof fn lemma_update_keeps_load(
    r0: Robot,
    m0: TileMap,
    k0: Seq<ResourceDiscovery>,
    r1: Robot,
    m1: TileMap,
    k1: Seq<ResourceDiscovery>,
    d: Option<(u32, u32)>,
)
    requires
        robot_update(r0, m0, k0, r1, m1, k1, d),
    ensures
        r1.cargo() <= if r0.cargo() <= full_load() { full_load() } else { r0.cargo() },
        r1.robot_type == r0.robot_type,
        r0.robot_type is Scout ==> r1.cargo() == r0.cargo() && d is None,
        m1.width == m0.width,
        m1.height == m0.height,
        m1.base == m0.base,
{
    let seen = learn(k0, scan_reports(m0, r0.at()));
    let reports = choose|reports: Seq<RobotMessage>| {
        &&& #[trigger] robot_acts(m0, seen, r0, seq![], false, m1, r1, seq![], reports, d)
        &&& k1 == learn(learn(seen, reports), scan_reports(m1, r1.at()))
    };
    if r0.robot_type is Collector {
        let at_base = r0.at() == m0.base;
        if !(at_base && r0.cargo() > 0) {
            let mode = settled_mode(m0, r0);
            lemma_collector_acts_load(m0, seen, with_mode(r0, mode), seq![], false, m1, r1, seq![], reports);
        }
    }
}

pub(crate) proof fn lemma_collector_acts_load(
    map: TileMap,
    known: Seq<ResourceDiscovery>,
    r0: Robot,
    occ0: Seq<Point>,
    avoid: bool,
    m1: TileMap,
    r1: Robot,
    occ1: Seq<Point>,
    reports: Seq<RobotMessage>,
)
    requires
        collector_acts(map, known, r0, occ0, avoid, m1, r1, occ1, reports),
    ensures
        r1.cargo() == r0.cargo() || (r0.mode is ToResource && r1.cargo() == r0.cargo() + 1),
        m1.width == map.width,
        m1.height == map.height,
        m1.base == map.base,
{
}


/// The units of energy (or of crystal) a robot carries.
pub open spec fn carried(r: Robot, energy: bool) -> int {
    if energy {
        r.carrying_energy as int
    } else {
        r.carrying_crystal as int
    }
}

/// The units of energy (or of crystal) handed over at the base.
pub open spec fn handed_over(d: Option<(u32, u32)>, energy: bool) -> int {
    match d {
        Some((e, c)) => if energy { e as int } else { c as int },
        None => 0,
    }
}

/// A collector's action moves units between the map and its load and
/// creates or destroys none.
pub(crate) proof fn lemma_collector_acts_units(
    map: TileMap,
    known: Seq<ResourceDiscovery>,
    r0: Robot,
    occ0: Seq<Point>,
    avoid: bool,
    m1: TileMap,
    r1: Robot,
    occ1: Seq<Point>,
    reports: Seq<RobotMessage>,
    energy: bool,
)
    requires
        map.wf(),
        all_on_map(map, known),
        collector_acts(map, known, r0, occ0, avoid, m1, r1, occ1, reports),
    ensures
        carried(r1, energy) + grid_units(m1.cells(), energy) == carried(r0, energy) + grid_units(map.cells(), energy),
{
    if let CollectorMode::ToResource(target) = r0.mode {
        if knows_position(known, target) && r0.at() == target {
            let t = map.tile(target.x as int, target.y as int);
            if has_unit(t) {
                let i = choose|i: int| 0 <= i < known.len() && (#[trigger] known[i]).position == target;
                assert(map.inside(known[i].position.x as int, known[i].position.y as int));
                let c = map.cells();
                assert(c[target.y as int] == map.grid@[target.y as int]@);
                lemma_grid_units_update(c, target.y as int, target.x as int, after_taking(t), energy);
            }
        }
    }
}

/// One update of a robot on its own creates or destroys no resource unit:
/// what it carries, what the map holds and what it hands over at the base
/// add up, kind by kind, to what it carried and the map held before.
pub(crate) proof fn lemma_update_units(
    r0: Robot,
    m0: TileMap,
    k0: Seq<ResourceDiscovery>,
    r1: Robot,
    m1: TileMap,
    k1: Seq<ResourceDiscovery>,
    d: Option<(u32, u32)>,
    energy: bool,
)
    requires
        m0.wf(),
        r0.robot_type is Collector ==> all_on_map(m0, k0),
        robot_update(r0, m0, k0, r1, m1, k1, d),
    ensures
        carried(r1, energy) + grid_units(m1.cells(), energy) + handed_over(d, energy) == carried(r0, energy)
            + grid_units(m0.cells(), energy),
{
    let seen = learn(k0, scan_reports(m0, r0.at()));
    let reports = choose|reports: Seq<RobotMessage>| {
        &&& #[trigger] robot_acts(m0, seen, r0, seq![], false, m1, r1, seq![], reports, d)
        &&& k1 == learn(learn(seen, reports), scan_reports(m1, r1.at()))
    };
    if r0.robot_type is Collector {
        lemma_window_on_map(m0, r0.at(), 9);
        lemma_learn_on_map(m0, k0, scan_reports(m0, r0.at()));
        let at_base = r0.at() == m0.base;
        if !(at_base && r0.cargo() > 0) {
            let mode = settled_mode(m0, r0);
            lemma_collector_acts_units(m0, seen, with_mode(r0, mode), seq![], false, m1, r1, seq![], reports, energy);
        }
    }
}

/// How one update of a robot on its own changes its load: a load within
/// the full load stays within it; without a delivery the load grows by at
/// most one unit; a scout carries what it carried, keeps its mode, leaves
/// the map as it was and delivers nothing.
pub(crate) proof fn lemma_update_load_bounds(
    r0: Robot,
    m0: TileMap,
    k0: Seq<ResourceDiscovery>,
    r1: Robot,
    m1: TileMap,
    k1: Seq<ResourceDiscovery>,
    d: Option<(u32, u32)>,
)
    requires
        robot_update(r0, m0, k0, r1, m1, k1, d),
    ensures
        r0.cargo() <= full_load() ==> r1.cargo() <= full_load(),
        d is None ==> r1.cargo() <= r0.cargo() + 1,
        r0.robot_type is Scout ==> r1.cargo() == r0.cargo() && r1.mode == r0.mode && same_map(m0, m1) && d is None,
{
    let seen = learn(k0, scan_reports(m0, r0.at()));
    let reports = choose|reports: Seq<RobotMessage>| {
        &&& #[trigger] robot_acts(m0, seen, r0, seq![], false, m1, r1, seq![], reports, d)
        &&& k1 == learn(learn(seen, reports), scan_reports(m1, r1.at()))
    };
    lemma_update_keeps_load(r0, m0, k0, r1, m1, k1, d);
    if r0.robot_type is Collector {
        let at_base = r0.at() == m0.base;
        if !(at_base && r0.cargo() > 0) {
            let mode = settled_mode(m0, r0);
            lemma_collector_acts_load(m0, seen, with_mode(r0, mode), seq![], false, m1, r1, seq![], reports);
        }
    } else {
        let cands = open_neighbours(m0, r0.at());
        if cands.len() > 0 {
            let next = choose|next: Point| {
                &&& (if fresh_cells(r0.visited@, cands).len() > 0 { fresh_cells(r0.visited@, cands).contains(next) } else { cands.contains(next) })
                &&& #[trigger] attempt(r0, seq![], false, next, true, r1, seq![])
                &&& reports == scan_reports(m0, r1.at())
            };
        }
    }
}


/// `t1` is what `t0` may have become by taking units: a resource tile of
/// the same kind with no more units, or empty ground; any other tile stays
/// as it is.
pub open spec fn worn_tile(t0: Tile, t1: Tile) -> bool {
    match t0 {
        Tile::Energy(a) => t1 is Empty || (t1 is Energy && t1->Energy_0 <= a),
        Tile::Crystal(a) => t1 is Empty || (t1 is Crystal && t1->Crystal_0 <= a),
        _ => t1 == t0,
    }
}

/// Every cell of `m1` is what the same cell of `m0` may have become by
/// taking units, on a map of the same size and base.
pub open spec fn worn_map(m0: TileMap, m1: TileMap) -> bool {
    &&& m1.width == m0.width
    &&& m1.height == m0.height
    &&& m1.base == m0.base
    &&& forall|x: int, y: int| m0.inside(x, y) ==> worn_tile(m0.tile(x, y), #[trigger] m1.tile(x, y))
}

pub(crate) proof fn lemma_worn_trans(m0: TileMap, m1: TileMap, m2: TileMap)
    requires
        worn_map(m0, m1),
        worn_map(m1, m2),
    ensures
        worn_map(m0, m2),
{
    assert forall|x: int, y: int| m0.inside(x, y) implies worn_tile(m0.tile(x, y), #[trigger] m2.tile(x, y)) by {
        assert(worn_tile(m0.tile(x, y), m1.tile(x, y)));
        assert(worn_tile(m1.tile(x, y), m2.tile(x, y)));
    }
}

pub(crate) proof fn lemma_same_map_worn(m0: TileMap, m1: TileMap)
    requires
        same_map(m0, m1),
    ensures
        worn_map(m0, m1),
{
    assert forall|x: int, y: int| m0.inside(x, y) implies worn_tile(m0.tile(x, y), #[trigger] m1.tile(x, y)) by {
        assert(m1.tile(x, y) == m0.tile(x, y));
    }
}

/// A collector's action only wears tiles down.
pub(crate) proof fn lemma_collector_acts_wears(
    map: TileMap,
    known: Seq<ResourceDiscovery>,
    r0: Robot,
    occ0: Seq<Point>,
    avoid: bool,
    m1: TileMap,
    r1: Robot,
    occ1: Seq<Point>,
    reports: Seq<RobotMessage>,
)
    requires
        map.wf(),
        all_on_map(map, known),
        collector_acts(map, known, r0, occ0, avoid, m1, r1, occ1, reports),
    ensures
        worn_map(map, m1),
{
    if let CollectorMode::ToResource(target) = r0.mode {
        if knows_position(known, target) && r0.at() == target {
            let t = map.tile(target.x as int, target.y as int);
            if has_unit(t) {
                let i = choose|i: int| 0 <= i < known.len() && (#[trigger] known[i]).position == target;
                assert(map.inside(known[i].position.x as int, known[i].position.y as int));
                let c = map.cells();
                let ty = target.y as int;
                let tx = target.x as int;
                assert(c[ty] == map.grid@[ty]@);
                assert forall|x: int, y: int| map.inside(x, y) implies worn_tile(map.tile(x, y), #[trigger] m1.tile(x, y)) by {
                    assert(c[y] == map.grid@[y]@);
                    if y == ty {
                        if x == tx {
                        } else {
                            assert(c[ty].update(tx, after_taking(t))[x] == c[ty][x]);
                        }
                    } else {
                        assert(c.update(ty, c[ty].update(tx, after_taking(t)))[y] == c[y]);
                    }
                }
                return;
            }
        }
    }
    lemma_same_map_worn(map, m1);
}

/// One update of a robot on its own only wears tiles down.
pub(crate) proof fn lemma_update_wears(
    r0: Robot,
    m0: TileMap,
    k0: Seq<ResourceDiscovery>,
    r1: Robot,
    m1: TileMap,
    k1: Seq<ResourceDiscovery>,
    d: Option<(u32, u32)>,
)
    requires
        m0.wf(),
        r0.robot_type is Collector ==> all_on_map(m0, k0),
        robot_update(r0, m0, k0, r1, m1, k1, d),
    ensures
        worn_map(m0, m1),
{
    let seen = learn(k0, scan_reports(m0, r0.at()));
    let reports = choose|reports: Seq<RobotMessage>| {
        &&& #[trigger] robot_acts(m0, seen, r0, seq![], false, m1, r1, seq![], reports, d)
        &&& k1 == learn(learn(seen, reports), scan_reports(m1, r1.at()))
    };
    if r0.robot_type is Collector {
        lemma_window_on_map(m0, r0.at(), 9);
        lemma_learn_on_map(m0, k0, scan_reports(m0, r0.at()));
        let at_base = r0.at() == m0.base;
        if !(at_base && r0.cargo() > 0) {
            let mode = settled_mode(m0, r0);
            lemma_collector_acts_wears(m0, seen, with_mode(r0, mode), seq![], false, m1, r1, seq![], reports);
        } else {
            lemma_same_map_worn(m0, m1);
        }
    } else {
        lemma_same_map_worn(m0, m1);
    }
}


/// One shared update of a robot only wears tiles down.
pub(crate) proof fn lemma_shared_wears(
    r0: Robot,
    m0: TileMap,
    known: Seq<ResourceDiscovery>,
    occ0: Seq<Point>,
    r1: Robot,
    m1: TileMap,
    occ1: Seq<Point>,
    sent: Seq<RobotMessage>,
    d: Option<(u32, u32)>,
)
    requires
        m0.wf(),
        r0.robot_type is Collector ==> all_on_map(m0, known),
        robot_update_shared(r0, m0, known, occ0, r1, m1, occ1, sent, d),
    ensures
        worn_map(m0, m1),
{
    let reports = choose|reports: Seq<RobotMessage>| {
        &&& #[trigger] robot_acts(m0, known, r0, occ0, true, m1, r1, occ1, reports, d)
        &&& sent == scan_reports(m0, r0.at()) + reports + scan_reports(m1, r1.at())
    };
    if r0.robot_type is Collector {
        let at_base = r0.at() == m0.base;
        if !(at_base && r0.cargo() > 0) {
            let mode = settled_mode(m0, r0);
            lemma_collector_acts_wears(m0, known, with_mode(r0, mode), occ0, true, m1, r1, occ1, reports);
        } else {
            lemma_same_map_worn(m0, m1);
        }
    } else {
        lemma_same_map_worn(m0, m1);
    }
}


/// One shared update of a robot creates or destroys no resource unit.
pub(crate) proof fn lemma_shared_units(
    r0: Robot,
    m0: TileMap,
    known: Seq<ResourceDiscovery>,
    occ0: Seq<Point>,
    r1: Robot,
    m1: TileMap,
    occ1: Seq<Point>,
    sent: Seq<RobotMessage>,
    d: Option<(u32, u32)>,
    energy: bool,
)
    requires
        m0.wf(),
        r0.robot_type is Collector ==> all_on_map(m0, known),
        robot_update_shared(r0, m0, known, occ0, r1, m1, occ1, sent, d),
    ensures
        carried(r1, energy) + grid_units(m1.cells(), energy) + handed_over(d, energy) == carried(r0, energy)
            + grid_units(m0.cells(), energy),
{
    let reports = choose|reports: Seq<RobotMessage>| {
        &&& #[trigger] robot_acts(m0, known, r0, occ0, true, m1, r1, occ1, reports, d)
        &&& sent == scan_reports(m0, r0.at()) + reports + scan_reports(m1, r1.at())
    };
    if r0.robot_type is Collector {
        let at_base = r0.at() == m0.base;
        if !(at_base && r0.cargo() > 0) {
            let mode = settled_mode(m0, r0);
            lemma_collector_acts_units(m0, known, with_mode(r0, mode), occ0, true, m1, r1, occ1, reports, energy);
        }
    }
}


/// A step of a robot keeps the cells it has visited listed once each.
pub(crate) proof fn lemma_acts_visited(
    map: TileMap,
    known: Seq<ResourceDiscovery>,
    r0: Robot,
    occ0: Seq<Point>,
    avoid: bool,
    m1: TileMap,
    r1: Robot,
    occ1: Seq<Point>,
    reports: Seq<RobotMessage>,
    d: Option<(u32, u32)>,
)
    requires
        robot_acts(map, known, r0, occ0, avoid, m1, r1, occ1, reports, d),
    ensures
        distinct_cells(r0.visited@) ==> distinct_cells(r1.visited@),
{
    lemma_visits_distinct(r0.visited@);
    if r0.robot_type is Scout {
        let cands = open_neighbours(map, r0.at());
        if cands.len() > 0 {
            let next = choose|next: Point| {
                &&& (if fresh_cells(r0.visited@, cands).len() > 0 { fresh_cells(r0.visited@, cands).contains(next) } else { cands.contains(next) })
                &&& #[trigger] attempt(r0, occ0, avoid, next, true, r1, occ1)
                &&& reports == scan_reports(map, r1.at())
            };
            lemma_visit_distinct(r0.visited@, next);
        }
    } else {
        let at_base = r0.at() == map.base;
        if !(at_base && r0.cargo() > 0) {
            let rm = with_mode(r0, settled_mode(map, r0));
            if rm.mode is Exploring {
                let choice = choose|choice: Option<Point>| {
                    &&& #[trigger] best_known_resource(map, rm.at(), known, choice)
                    &&& match choice {
                        Some(target) => heads_for(
                            map,
                            with_mode(rm, CollectorMode::ToResource(target)),
                            occ0,
                            avoid,
                            target,
                            r1,
                            occ1,
                        ),
                        None => if rm.at() == map.base {
                            patrol_step(map, rm, occ0, avoid, r1, occ1)
                        } else {
                            heads_for(map, rm, occ0, avoid, map.base, r1, occ1)
                        },
                    }
                };
                if choice is None && rm.at() == map.base {
                    let cands = open_neighbours(map, rm.at());
                    if cands.len() > 0 {
                        let next = choose|next: Point| cands.contains(next) && #[trigger] attempt(rm, occ0, avoid, next, true, r1, occ1);
                        lemma_visit_distinct(r0.visited@, next);
                    }
                }
            }
        }
    }
}

/// One update of a robot on its own keeps its visited cells listed once each.
pub(crate) proof fn lemma_update_visited(
    r0: Robot,
    m0: TileMap,
    k0: Seq<ResourceDiscovery>,
    r1: Robot,
    m1: TileMap,
    k1: Seq<ResourceDiscovery>,
    d: Option<(u32, u32)>,
)
    requires
        robot_update(r0, m0, k0, r1, m1, k1, d),
    ensures
        distinct_cells(r0.visited@) ==> distinct_cells(r1.visited@),
{
    let seen = learn(k0, scan_reports(m0, r0.at()));
    let reports = choose|reports: Seq<RobotMessage>| {
        &&& #[trigger] robot_acts(m0, seen, r0, seq![], false, m1, r1, seq![], reports, d)
        &&& k1 == learn(learn(seen, reports), scan_reports(m1, r1.at()))
    };
    lemma_acts_visited(m0, seen, r0, seq![], false, m1, r1, seq![], reports, d);
}

/// One shared update of a robot keeps its visited cells listed once each.
pub(crate) proof fn lemma_shared_visited(
    r0: Robot,
    m0: TileMap,
    known: Seq<ResourceDiscovery>,
    occ0: Seq<Point>,
    r1: Robot,
    m1: TileMap,
    occ1: Seq<Point>,
    sent: Seq<RobotMessage>,
    d: Option<(u32, u32)>,
)
    requires
        robot_update_shared(r0, m0, known, occ0, r1, m1, occ1, sent, d),
    ensures
        distinct_cells(r0.visited@) ==> distinct_cells(r1.visited@),
{
    let reports = choose|reports: Seq<RobotMessage>| {
        &&& #[trigger] robot_acts(m0, known, r0, occ0, true, m1, r1, occ1, reports, d)
        &&& sent == scan_reports(m0, r0.at()) + reports + scan_reports(m1, r1.at())
    };
    lemma_acts_visited(m0, known, r0, occ0, true, m1, r1, occ1, reports, d);
}


/// After a robot's update, every resource tile in the 3 x 3 window around
/// the cell it ends on is known: it looks around once more where it stands.
pub proof fn lemma_update_sees_around(
    r0: Robot,
    m0: TileMap,
    k0: Seq<ResourceDiscovery>,
    r1: Robot,
    m1: TileMap,
    k1: Seq<ResourceDiscovery>,
    d: Option<(u32, u32)>,
)
    requires
        robot_update(r0, m0, k0, r1, m1, k1, d),
    ensures
        forall|c: Point|
            m1.inside(c.x as int, c.y as int) && r1.x - 1 <= c.x <= r1.x + 1 && r1.y - 1 <= c.y <= r1.y + 1
                && crate::map::is_resource(#[trigger] m1.tile(c.x as int, c.y as int)) ==> knows_position(k1, c),
{
    let seen = learn(k0, scan_reports(m0, r0.at()));
    let reports = choose|reports: Seq<RobotMessage>| {
        &&& #[trigger] robot_acts(m0, seen, r0, seq![], false, m1, r1, seq![], reports, d)
        &&& k1 == learn(learn(seen, reports), scan_reports(m1, r1.at()))
    };
    crate::knowledge::lemma_scan_learned(learn(seen, reports), m1, r1.at());
}


/// A collector away from the base with fewer than a full load, standing on
/// the resource it heads for, which it knows of and which still has a unit,
/// takes one unit and keeps at it: it stays on the cell, in the same mode,
/// and hands nothing over.
pub proof fn lemma_collector_keeps_collecting(
    r0: Robot,
    m0: TileMap,
    k0: Seq<ResourceDiscovery>,
    r1: Robot,
    m1: TileMap,
    k1: Seq<ResourceDiscovery>,
    d: Option<(u32, u32)>,
)
    requires
        robot_update(r0, m0, k0, r1, m1, k1, d),
        r0.robot_type is Collector,
        r0.at() != m0.base,
        r0.cargo() < full_load(),
        r0.mode == CollectorMode::ToResource(r0.at()),
        knows_position(k0, r0.at()),
        has_unit(m0.tile(r0.x as int, r0.y as int)),
    ensures
        r1.mode == r0.mode,
        r1.at() == r0.at(),
        r1.cargo() == r0.cargo() + 1,
        d is None,
{
    let seen = learn(k0, scan_reports(m0, r0.at()));
    let reports = choose|reports: Seq<RobotMessage>| {
        &&& #[trigger] robot_acts(m0, seen, r0, seq![], false, m1, r1, seq![], reports, d)
        &&& k1 == learn(learn(seen, reports), scan_reports(m1, r1.at()))
    };
    crate::knowledge::lemma_window_no_depletion(m0, r0.at(), 9);
    crate::knowledge::lemma_learn_found(k0, scan_reports(m0, r0.at()), r0.at());
    assert(collector_acts(m0, seen, r0, seq![], false, m1, r1, seq![], reports));
}

/// A collector away from the base carrying a full load turns home, whatever
/// it was doing, and hands nothing over.
pub proof fn lemma_full_collector_turns_home(
    r0: Robot,
    m0: TileMap,
    k0: Seq<ResourceDiscovery>,
    r1: Robot,
    m1: TileMap,
    k1: Seq<ResourceDiscovery>,
    d: Option<(u32, u32)>,
)
    requires
        robot_update(r0, m0, k0, r1, m1, k1, d),
        r0.robot_type is Collector,
        r0.at() != m0.base,
        r0.cargo() >= full_load(),
    ensures
        r1.mode == CollectorMode::ReturningBase,
        d is None,
        r1.cargo() == r0.cargo(),
{
    let seen = learn(k0, scan_reports(m0, r0.at()));
    let reports = choose|reports: Seq<RobotMessage>| {
        &&& #[trigger] robot_acts(m0, seen, r0, seq![], false, m1, r1, seq![], reports, d)
        &&& k1 == learn(learn(seen, reports), scan_reports(m1, r1.at()))
    };
    let rm = with_mode(r0, CollectorMode::ReturningBase);
    assert(collector_acts(m0, seen, rm, seq![], false, m1, r1, seq![], reports));
    let s = choose|s: Option<Point>| {
        &&& #[trigger] is_next_step(m0, blocked_cells(seq![], false), rm.at(), m0.base, s)
        &&& match s {
            Some(n) => attempt(rm, seq![], false, n, false, r1, seq![]),
            None => r1.at() == rm.at() && r1.visited@ == rm.visited@ && same_load(rm, r1),
        }
    };
}

} // verus!

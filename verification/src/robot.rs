//! Robots: their state and what they do in a step. The world they live in
//! is `crate::world::World`, which is also reachable from here.
use vstd::prelude::*;

pub use crate::world::World;

use crate::conduct::{
    attempt, blocked_cells, carried, collector_step, handed_over, worn_map, fresh_cells, full_load, heads_for,
    lemma_acts_reports_on_map, lemma_drop_point_absent, lemma_drop_point_first,
    lemma_split_cells, may_enter, patrol_step, robot_acts, robot_update, robot_update_shared,
    scout_step, seen_cells, visit, with_mode,
};
use crate::knowledge::{
    all_on_map, best_known_resource, cell_report, find_position, is_best_index,
    knows_position, learn_from, lemma_learn_on_map, lemma_learn_unique,
    lemma_window_on_map, remember, scan_reports, still_there, unique_cells, window_prefix,
};
use crate::map::{Tile, TileMap, after_taking, grid_units, rows_of};
use crate::path::{
    adjacent, expanded_complete, first_step_of_shortest, grid_unseen, is_next_step, is_walk,
    lemma_search_discover, lemma_search_reaches, lemma_walk_drop_last, lemma_walk_prepend,
    link, lemma_order_advance, lemma_order_discover, move_rank, passable, search_core, search_links, search_order,
    walk_between,
};

verus! {

/// A cell of the map, by column `x` and row `y`.
#[derive(Clone, Copy, Debug, PartialEq, Eq, Structural, Hash)]
pub struct Point {
    pub x: usize,
    pub y: usize,
}

/// What a robot reports to the world about the map.
#[derive(Clone, Copy, Debug, PartialEq, Eq, Structural)]
pub enum RobotMessage {
    ResourceFound(ResourceDiscovery),
    ResourceDepleted(Point),
    ObstacleFound(Point),
}

#[derive(Clone, Copy, Debug, PartialEq, Eq, Structural)]
pub enum RobotType {
    Scout,
    Collector,
}

#[derive(Clone, Copy, Debug, PartialEq, Eq, Structural, Hash)]
pub enum ResourceKind {
    Energy,
    Crystal,
}

/// A resource tile that some robot has seen.
#[derive(Clone, Copy, Debug, PartialEq, Eq, Structural, Hash)]
pub struct ResourceDiscovery {
    pub position: Point,
    pub kind: ResourceKind,
}

/// What a collector is busy with.
#[derive(Clone, Copy, Debug, PartialEq, Eq, Structural)]
pub enum CollectorMode {
    Exploring,
    ToResource(Point),
    ReturningBase,
}

/// A robot on the map, with what it carries and the cells it has stood on.
#[derive(Clone, Debug)]
pub struct Robot {
    pub x: usize,
    pub y: usize,
    pub robot_type: RobotType,
    pub carrying_energy: u32,
    pub carrying_crystal: u32,
    pub mode: CollectorMode,
    /// The cells the robot has stepped on, each listed once (kept so by
    /// `visit`; see the `ensures` of `Robot::update` and `World::tick`).
    pub visited: Vec<Point>,
}

/// `p` if `keep` holds, and nothing otherwise.
pub open spec fn keep_if(keep: bool, p: Point) -> Seq<Point> {
    if keep {
        seq![p]
    } else {
        seq![]
    }
}

/// The cells next to `p` that lie on the map and are not obstacles, in the
/// order up, right, down, left.
pub open spec fn open_neighbours(map: TileMap, p: Point) -> Seq<Point> {
    let up = Point { x: p.x, y: (p.y - 1) as usize };
    let right = Point { x: (p.x + 1) as usize, y: p.y };
    let down = Point { x: p.x, y: (p.y + 1) as usize };
    let left = Point { x: (p.x - 1) as usize, y: p.y };
    keep_if(p.y >= 1 && map.inside(up.x as int, up.y as int) && map.walkable_at(up.x as int, up.y as int), up)
        + keep_if(p.x + 1 < map.width && map.inside(right.x as int, right.y as int) && map.walkable_at(right.x as int, right.y as int), right)
        + keep_if(p.y + 1 < map.height && map.inside(down.x as int, down.y as int) && map.walkable_at(down.x as int, down.y as int), down)
        + keep_if(p.x >= 1 && map.inside(left.x as int, left.y as int) && map.walkable_at(left.x as int, left.y as int), left)
}

/// The open neighbours of `p` come in the order up, right, down, left.
pub(crate) proof fn lemma_neighbours_ranked(map: TileMap, p: Point)
    ensures
        forall|i: int, j: int|
            0 <= i < j < open_neighbours(map, p).len() ==> move_rank(p, #[trigger] open_neighbours(map, p)[i]) < move_rank(
                p,
                #[trigger] open_neighbours(map, p)[j],
            ),
{
    let up = Point { x: p.x, y: (p.y - 1) as usize };
    let right = Point { x: (p.x + 1) as usize, y: p.y };
    let down = Point { x: p.x, y: (p.y + 1) as usize };
    let left = Point { x: (p.x - 1) as usize, y: p.y };
    let a = keep_if(p.y >= 1 && map.inside(up.x as int, up.y as int) && map.walkable_at(up.x as int, up.y as int), up);
    let b = keep_if(p.x + 1 < map.width && map.inside(right.x as int, right.y as int) && map.walkable_at(right.x as int, right.y as int), right);
    let c = keep_if(p.y + 1 < map.height && map.inside(down.x as int, down.y as int) && map.walkable_at(down.x as int, down.y as int), down);
    let d = keep_if(p.x >= 1 && map.inside(left.x as int, left.y as int) && map.walkable_at(left.x as int, left.y as int), left);
    let s = open_neighbours(map, p);
    assert(s == a + b + c + d);
    let la = a.len() as int;
    let lb = b.len() as int;
    let lc = c.len() as int;
    assert forall|i: int| 0 <= i < s.len() implies move_rank(p, #[trigger] s[i]) == if i < la {
        0int
    } else if i < la + lb {
        1int
    } else if i < la + lb + lc {
        2int
    } else {
        3int
    } by {
        if i < la {
            assert(s[i] == a[i]);
        } else if i < la + lb {
            assert(s[i] == b[i - la]);
        } else if i < la + lb + lc {
            assert(s[i] == c[i - la - lb]);
        } else {
            assert(s[i] == d[i - la - lb - lc]);
        }
    }
}

/// The cells next to `point` that a robot may step on, in the order up,
/// right, down, left.
pub(crate) fn neighbors_of(point: Point, map: &TileMap) -> (r: Vec<Point>)
    requires
        map.wf(),
    ensures
        r@ == open_neighbours(*map, point),
        forall|n: Point|
            adjacent(point, n) && map.inside(n.x as int, n.y as int) && map.walkable_at(n.x as int, n.y as int)
                <==> r@.contains(n),
{
    let ghost up = Point { x: point.x, y: (point.y - 1) as usize };
    let ghost right = Point { x: (point.x + 1) as usize, y: point.y };
    let ghost down = Point { x: point.x, y: (point.y + 1) as usize };
    let ghost left = Point { x: (point.x - 1) as usize, y: point.y };
    let ghost open = |c: Point| map.inside(c.x as int, c.y as int) && map.walkable_at(c.x as int, c.y as int);
    let mut neighbors: Vec<Point> = Vec::new();
    if point.y >= 1 && point.y - 1 < map.height && point.x < map.width {
        let candidate = Point { x: point.x, y: point.y - 1 };
        if map.is_walkable(candidate.x, candidate.y) {
            neighbors.push(candidate);
        }
    }
    assert(neighbors@ =~= keep_if(point.y >= 1 && open(up), up));
    let ghost s1 = neighbors@;
    if point.x < map.width && point.x + 1 < map.width && point.y < map.height {
        let candidate = Point { x: point.x + 1, y: point.y };
        if map.is_walkable(candidate.x, candidate.y) {
            neighbors.push(candidate);
        }
    }
    assert(neighbors@ =~= s1 + keep_if(point.x + 1 < map.width && open(right), right));
    let ghost s2 = neighbors@;
    if point.y < map.height && point.y + 1 < map.height && point.x < map.width {
        let candidate = Point { x: point.x, y: point.y + 1 };
        if map.is_walkable(candidate.x, candidate.y) {
            neighbors.push(candidate);
        }
    }
    assert(neighbors@ =~= s2 + keep_if(point.y + 1 < map.height && open(down), down));
    let ghost s3 = neighbors@;
    if point.x >= 1 && point.x - 1 < map.width && point.y < map.height {
        let candidate = Point { x: point.x - 1, y: point.y };
        if map.is_walkable(candidate.x, candidate.y) {
            neighbors.push(candidate);
        }
    }
    assert(neighbors@ =~= s3 + keep_if(point.x >= 1 && open(left), left));
    proof {
        assert(neighbors@ =~= open_neighbours(*map, point));
        assert forall|n: Point|
            adjacent(point, n) && map.inside(n.x as int, n.y as int) && map.walkable_at(n.x as int, n.y as int)
                implies neighbors@.contains(n) by {
            if n.y + 1 == point.y && n.x == point.x {
                assert(n == up);
                assert(neighbors@[0] == n);
            } else if n.x == point.x + 1 && n.y == point.y {
                assert(n == right);
                assert(neighbors@[s2.len() - 1] == n);
            } else if n.y == point.y + 1 && n.x == point.x {
                assert(n == down);
                assert(neighbors@[s3.len() - 1] == n);
            } else {
                assert(n == left);
                assert(neighbors@[neighbors@.len() - 1] == n);
            }
        }
        assert forall|n: Point| neighbors@.contains(n) implies
            adjacent(point, n) && map.inside(n.x as int, n.y as int) && map.walkable_at(n.x as int, n.y as int) by {
            let k = choose|k: int| 0 <= k < neighbors@.len() && neighbors@[k] == n;
            if k < s1.len() {} else if k < s2.len() {} else if k < s3.len() {} else {}
        }
    }
    neighbors
}

/// The distance from `a` to `b` in moves along the axes.
pub open spec fn manhattan_distance(a: Point, b: Point) -> int {
    (if a.x >= b.x { a.x - b.x } else { b.x - a.x }) + (if a.y >= b.y { a.y - b.y } else { b.y - a.y })
}

/// How far along one axis the farthest of `size` cells lies from `c`.
pub open spec fn farthest(c: int, size: int) -> int {
    if c >= size - 1 - c {
        c
    } else {
        size - 1 - c
    }
}

/// Every cell of the map lies within `usize::MAX` moves of `p`, so that a
/// distance from `p` to a cell of the map can be counted in a `usize`.
pub open spec fn within_reach(map: TileMap, p: Point) -> bool {
    farthest(p.x as int, map.width as int) + farthest(p.y as int, map.height as int) <= usize::MAX
}

/// Whether `p` is among the cells of `v`.
pub(crate) fn contains_point(v: &Vec<Point>, p: Point) -> (r: bool)
    ensures
        r == v@.contains(p),
{
    let mut i: usize = 0;
    while i < v.len()
        invariant
            i <= v.len(),
            forall|j: int| 0 <= j < i ==> v@[j] != p,
        decreases v.len() - i,
    {
        if v[i] == p {
            return true;
        }
        i += 1;
    }
    false
}

/// The index of the first occurrence of `p` in `v`, if any.
pub(crate) fn index_of_point(v: &Vec<Point>, p: Point) -> (r: Option<usize>)
    ensures
        r is None <==> !v@.contains(p),
        r matches Some(i) ==> i < v@.len() && v@[i as int] == p && forall|j: int| 0 <= j < i ==> v@[j] != p,
{
    let mut i: usize = 0;
    while i < v.len()
        invariant
            i <= v@.len(),
            forall|j: int| 0 <= j < i ==> v@[j] != p,
        decreases v.len() - i,
    {
        if v[i] == p {
            return Some(i);
        }
        i += 1;
    }
    None
}

/// Adds `p` to the visited cells, unless it is there already.
pub(crate) fn visit_cell(visited: &mut Vec<Point>, p: Point)
    ensures
        final(visited)@ == visit(old(visited)@, p),
{
    if !contains_point(visited, p) {
        visited.push(p);
    }
}

/// The cells of `cells` not in `visited` followed by those in it, each
/// group in the order of `cells`.
pub(crate) fn unvisited_first(visited: &Vec<Point>, cells: &Vec<Point>) -> (r: (Vec<Point>, Vec<Point>))
    ensures
        r.0@ == fresh_cells(visited@, cells@),
        r.1@ == seen_cells(visited@, cells@),
{
    let mut fresh: Vec<Point> = Vec::new();
    let mut seen: Vec<Point> = Vec::new();
    let mut i: usize = 0;
    while i < cells.len()
        invariant
            i <= cells@.len(),
            fresh@ == fresh_cells(visited@, cells@.take(i as int)),
            seen@ == seen_cells(visited@, cells@.take(i as int)),
        decreases cells.len() - i,
    {
        assert(cells@.take(i + 1).drop_last() =~= cells@.take(i as int));
        let c = cells[i];
        if contains_point(visited, c) {
            seen.push(c);
            assert(seen@ =~= seen_cells(visited@, cells@.take(i + 1)));
            assert(fresh@ =~= fresh_cells(visited@, cells@.take(i + 1)));
        } else {
            fresh.push(c);
            assert(seen@ =~= seen_cells(visited@, cells@.take(i + 1)));
            assert(fresh@ =~= fresh_cells(visited@, cells@.take(i + 1)));
        }
        i += 1;
    }
    assert(cells@.take(cells@.len() as int) =~= cells@);
    (fresh, seen)
}

/// A grid of `height` rows of `width` empty slots.
pub(crate) fn empty_slots(width: usize, height: usize) -> (g: Vec<Vec<Option<Point>>>)
    ensures
        g@.len() == height,
        forall|y: int| 0 <= y < height ==> (#[trigger] g@[y])@.len() == width,
        forall|y: int, x: int| 0 <= y < height && 0 <= x < width ==> (#[trigger] g@[y]@[x]) is None,
{
    let mut g: Vec<Vec<Option<Point>>> = Vec::new();
    let mut y: usize = 0;
    while y < height
        invariant
            y <= height,
            g@.len() == y,
            forall|i: int| 0 <= i < y ==> (#[trigger] g@[i])@.len() == width,
            forall|i: int, x: int| 0 <= i < y && 0 <= x < width ==> (#[trigger] g@[i]@[x]) is None,
        decreases height - y,
    {
        let mut row: Vec<Option<Point>> = Vec::new();
        let mut x: usize = 0;
        while x < width
            invariant
                x <= width,
                row@.len() == x,
                forall|j: int| 0 <= j < x ==> (#[trigger] row@[j]) is None,
            decreases width - x,
        {
            row.push(None);
            x += 1;
        }
        g.push(row);
        y += 1;
    }
    g
}

impl Robot {
    /// A robot of the given type at `(x, y)`, empty-handed, exploring, that
    /// has visited only its starting cell.
    pub fn new(x: usize, y: usize, robot_type: RobotType) -> (r: Robot)
        ensures
            r.x == x,
            r.y == y,
            r.robot_type == robot_type,
            r.carrying_energy == 0,
            r.carrying_crystal == 0,
            r.mode == CollectorMode::Exploring,
            r.visited@ == seq![Point { x, y }],
    {
        let mut visited: Vec<Point> = Vec::new();
        visited.push(Point { x, y });
        Robot {
            x,
            y,
            robot_type,
            carrying_energy: 0,
            carrying_crystal: 0,
            mode: CollectorMode::Exploring,
            visited,
        }
    }

    /// The units the robot carries, of both kinds together.
    pub open spec fn cargo(&self) -> int {
        self.carrying_energy + self.carrying_crystal
    }

    pub fn cargo_total(&self) -> (t: u32)
        requires
            self.cargo() <= u32::MAX,
        ensures
            t == self.cargo(),
    {
        self.carrying_energy + self.carrying_crystal
    }

    pub fn is_at_base(&self, map: &TileMap) -> (b: bool)
        ensures
            b == (self.at() == map.base),
    {
        self.x == map.base.x && self.y == map.base.y
    }

    /// The robot's distance to `target` counted in moves along the axes.
    fn manhattan(&self, target: Point) -> (d: usize)
        requires
            manhattan_distance(self.at(), target) <= usize::MAX,
        ensures
            d == manhattan_distance(self.at(), target),
    {
        let dx = if self.x >= target.x { self.x - target.x } else { target.x - self.x };
        let dy = if self.y >= target.y { self.y - target.y } else { target.y - self.y };
        dx + dy
    }

    fn move_to(&mut self, next: Point)
        ensures
            *final(self) == (Robot { x: next.x, y: next.y, ..*old(self) }),
    {
        self.x = next.x;
        self.y = next.y;
    }

    /// Steps on `next` unless robots avoid each other and the cell is
    /// taken; when they do, the occupied cells follow the robot. Tells
    /// whether the robot moved.
    fn try_move_to(&mut self, next: Point, occupied: &mut Vec<Point>, avoid: bool) -> (moved: bool)
        ensures
            moved == may_enter(old(occupied)@, avoid, next),
            attempt(*old(self), old(occupied)@, avoid, next, false, *final(self), final(occupied)@),
    {
        if avoid {
            if contains_point(occupied, next) {
                return false;
            }
            let here = self.position();
            match index_of_point(occupied, here) {
                Some(idx) => {
                    proof {
                        lemma_drop_point_first(occupied@, here, idx as int);
                    }
                    occupied.remove(idx);
                },
                None => {
                    proof {
                        lemma_drop_point_absent(occupied@, here);
                    }
                },
            }
            occupied.push(next);
        }
        self.move_to(next);
        true
    }

    /// One step of a scout: it wanders to a neighbouring cell, preferring
    /// cells it has not visited yet, and reports what it sees from there.
    fn step_scout(&mut self, map: &TileMap, outbox: &mut Vec<RobotMessage>, occupied: &mut Vec<Point>, avoid: bool)
        requires
            map.wf(),
        ensures
            map.inside(old(self).x as int, old(self).y as int) ==> map.inside(final(self).x as int, final(self).y as int),
            final(outbox)@.len() >= old(outbox)@.len(),
            final(outbox)@.take(old(outbox)@.len() as int) == old(outbox)@,
            scout_step(
                *map,
                *old(self),
                old(occupied)@,
                avoid,
                *final(self),
                final(occupied)@,
                final(outbox)@.skip(old(outbox)@.len() as int),
            ),
    {
        let ghost r0 = *self;
        let ghost occ0 = occupied@;
        let ghost out0 = outbox@;
        let candidates = self.walkable_neighbors(map);
        if candidates.len() == 0 {
            assert(outbox@.skip(out0.len() as int) =~= Seq::<RobotMessage>::empty());
            assert(outbox@.take(out0.len() as int) =~= out0);
            return;
        }
        let (fresh, seen) = unvisited_first(&self.visited, &candidates);
        proof {
            lemma_split_cells(r0.visited@, candidates@);
            assert(candidates@.contains(candidates@[0]));
        }
        let next = if fresh.len() > 0 {
            fresh[crate::random::random_between(0, fresh.len())]
        } else {
            seen[crate::random::random_between(0, seen.len())]
        };
        proof {
            assert(candidates@.contains(next));
        }
        let moved = self.try_move_to(next, occupied, avoid);
        if moved {
            visit_cell(&mut self.visited, next);
        }
        let ghost r1 = *self;
        self.scan(map, outbox);
        proof {
            assert(outbox@.skip(out0.len() as int) =~= scan_reports(*map, r1.at()));
            assert(outbox@.take(out0.len() as int) =~= out0);
            assert(attempt(r0, occ0, avoid, next, true, *self, occupied@));
        }
    }

    /// A collector idling at the base steps on a neighbouring cell at
    /// random.
    fn patrol_near_base(&mut self, map: &TileMap, occupied: &mut Vec<Point>, avoid: bool)
        requires
            map.wf(),
        ensures
            map.inside(old(self).x as int, old(self).y as int) ==> map.inside(final(self).x as int, final(self).y as int),
            patrol_step(*map, *old(self), old(occupied)@, avoid, *final(self), final(occupied)@),
    {
        let ghost r0 = *self;
        let ghost occ0 = occupied@;
        let options = self.walkable_neighbors(map);
        if options.len() == 0 {
            return;
        }
        let (fresh, seen) = unvisited_first(&self.visited, &options);
        let mut ordered = fresh;
        let mut rest = seen;
        ordered.append(&mut rest);
        proof {
            lemma_split_cells(r0.visited@, options@);
            assert(options@.contains(options@[0]));
            if r0.visited@.contains(options@[0]) {
                let k = choose|k: int| 0 <= k < seen_cells(r0.visited@, options@).len() && seen_cells(r0.visited@, options@)[k] == options@[0];
                assert(ordered@[fresh_cells(r0.visited@, options@).len() + k] == options@[0]);
            } else {
                let k = choose|k: int| 0 <= k < fresh_cells(r0.visited@, options@).len() && fresh_cells(r0.visited@, options@)[k] == options@[0];
                assert(ordered@[k] == options@[0]);
            }
        }
        let pick = crate::random::random_between(0, ordered.len());
        let next = ordered[pick];
        proof {
            let f = fresh_cells(r0.visited@, options@);
            if pick < f.len() {
                assert(f[pick as int] == next);
            } else {
                assert(seen_cells(r0.visited@, options@)[pick - f.len()] == next);
            }
            assert(options@.contains(next));
        }
        if self.try_move_to(next, occupied, avoid) {
            visit_cell(&mut self.visited, next);
        }
        proof {
            assert(attempt(r0, occ0, avoid, next, true, *self, occupied@));
        }
    }

    /// Moves towards `goal` along a shortest walk, if there is one.
    fn head_for(&mut self, map: &TileMap, goal: Point, occupied: &mut Vec<Point>, avoid: bool)
        requires
            map.wf(),
        ensures
            map.inside(old(self).x as int, old(self).y as int) ==> map.inside(final(self).x as int, final(self).y as int),
            heads_for(*map, *old(self), old(occupied)@, avoid, goal, *final(self), final(occupied)@),
    {
        let ghost r0 = *self;
        let ghost occ0 = occupied@;
        let no_block: Vec<Point> = Vec::new();
        let step = if avoid {
            self.next_step_towards(map, goal, occupied)
        } else {
            self.next_step_towards(map, goal, &no_block)
        };
        proof {
            assert(no_block@ =~= Seq::<Point>::empty());
        }
        match step {
            Some(next) => {
                proof {
                    assert(crate::path::first_step_of_shortest(*map, blocked_cells(occ0, avoid), r0.at(), goal, next));
                    let w = choose|w: Seq<Point>| {
                        &&& #[trigger] walk_between(*map, blocked_cells(occ0, avoid), goal, w, r0.at(), goal)
                        &&& w.len() >= 2
                        &&& w[1] == next
                        &&& forall|w2: Seq<Point>|
                            #[trigger] walk_between(*map, blocked_cells(occ0, avoid), goal, w2, r0.at(), goal) ==> w.len() <= w2.len()
                    };
                    assert(link(*map, blocked_cells(occ0, avoid), goal, w[0], w[1]));
                }
                self.try_move_to(next, occupied, avoid);
            },
            None => {},
        }
        proof {
            assert(is_next_step(*map, blocked_cells(occ0, avoid), r0.at(), goal, step));
        }
    }

    /// One step of a collector: deliver at the base, head home when full,
    /// collect from the resource it targets, or pick the best known one.
    fn step_collector(
        &mut self,
        map: &mut TileMap,
        known_resources: &Vec<ResourceDiscovery>,
        outbox: &mut Vec<RobotMessage>,
        occupied: &mut Vec<Point>,
        avoid: bool,
    ) -> (delivered: Option<(u32, u32)>)
        requires
            old(map).wf(),
            within_reach(*old(map), old(self).at()),
            all_on_map(*old(map), known_resources@),
            old(self).cargo() <= u32::MAX,
        ensures
            final(map).wf(),
            old(map).inside(old(self).x as int, old(self).y as int) ==> final(map).inside(final(self).x as int, final(self).y as int),
            final(outbox)@.len() >= old(outbox)@.len(),
            final(outbox)@.take(old(outbox)@.len() as int) == old(outbox)@,
            collector_step(
                *old(map),
                known_resources@,
                *old(self),
                old(occupied)@,
                avoid,
                *final(map),
                *final(self),
                final(occupied)@,
                final(outbox)@.skip(old(outbox)@.len() as int),
                delivered,
            ),
    {
        let ghost r0 = *self;
        let ghost m0 = *map;
        let ghost out0 = outbox@;
        proof {
            assert(outbox@.skip(out0.len() as int) =~= Seq::<RobotMessage>::empty());
            assert(outbox@.take(out0.len() as int) =~= out0);
        }
        if self.cargo_total() >= 12 {
            self.mode = CollectorMode::ReturningBase;
        }
        if self.is_at_base(map) {
            if self.cargo_total() > 0 {
                let delivered = (self.carrying_energy, self.carrying_crystal);
                self.carrying_energy = 0;
                self.carrying_crystal = 0;
                self.mode = CollectorMode::Exploring;
                return Some(delivered);
            }
            self.mode = CollectorMode::Exploring;
        }
        let ghost r_mode = *self;
        assert(r_mode == with_mode(r0, r_mode.mode));
        match self.mode {
            CollectorMode::ReturningBase => {
                let base = map.base;
                self.head_for(map, base, occupied, avoid);
            },
            CollectorMode::ToResource(target) => {
                match find_position(known_resources, target) {
                    Some(_) => {
                        if self.position() == target {
                            proof {
                                assert(map.inside(target.x as int, target.y as int));
                            }
                            let energy = map.is_energy_at(target.x, target.y);
                            match map.take_resource_unit(target.x, target.y) {
                                Some(_) => {
                                    if energy {
                                        self.carrying_energy += 1;
                                    } else {
                                        self.carrying_crystal += 1;
                                    }
                                },
                                None => {
                                    proof {
                                        let c = m0.cells();
                                        let ty = target.y as int;
                                        let tx = target.x as int;
                                        assert(after_taking(c[ty][tx]) == c[ty][tx]);
                                        assert(c[ty].update(tx, c[ty][tx]) =~= c[ty]);
                                        assert(c.update(ty, c[ty]) =~= c);
                                    }
                                    outbox.push(RobotMessage::ResourceDepleted(target));
                                    self.mode = CollectorMode::Exploring;
                                    proof {
                                        assert(outbox@.skip(out0.len() as int) =~= seq![RobotMessage::ResourceDepleted(target)]);
                                        assert(outbox@.take(out0.len() as int) =~= out0);
                                    }
                                },
                            }
                        } else {
                            let ghost occ0 = occupied@;
                            let no_block: Vec<Point> = Vec::new();
                            let step = if avoid {
                                self.next_step_towards(map, target, occupied)
                            } else {
                                self.next_step_towards(map, target, &no_block)
                            };
                            proof {
                                assert(no_block@ =~= Seq::<Point>::empty());
                            }
                            match step {
                                Some(next) => {
                                    proof {
                                        let w = choose|w: Seq<Point>| {
                                            &&& #[trigger] walk_between(*map, blocked_cells(occ0, avoid), target, w, r_mode.at(), target)
                                            &&& w.len() >= 2
                                            &&& w[1] == next
                                            &&& forall|w2: Seq<Point>|
                                                #[trigger] walk_between(*map, blocked_cells(occ0, avoid), target, w2, r_mode.at(), target) ==> w.len() <= w2.len()
                                        };
                                        assert(link(*map, blocked_cells(occ0, avoid), target, w[0], w[1]));
                                    }
                                    self.try_move_to(next, occupied, avoid);
                                },
                                None => {
                                    self.mode = CollectorMode::Exploring;
                                },
                            }
                            proof {
                                assert(is_next_step(*map, blocked_cells(occ0, avoid), r_mode.at(), target, step));
                            }
                        }
                    },
                    None => {
                        self.mode = CollectorMode::Exploring;
                    },
                }
            },
            CollectorMode::Exploring => {
                let choice = self.choose_best_known_resource(map, known_resources);
                match choice {
                    Some(target) => {
                        self.mode = CollectorMode::ToResource(target);
                        self.head_for(map, target, occupied, avoid);
                    },
                    None => {
                        if self.is_at_base(map) {
                            self.patrol_near_base(map, occupied, avoid);
                        } else {
                            let base = map.base;
                            self.head_for(map, base, occupied, avoid);
                        }
                    },
                }
                proof {
                    assert(best_known_resource(*map, r_mode.at(), known_resources@, choice));
                }
            },
        }
        None
    }

    /// One tick of the robot on its own: it scans, acts, and scans again,
    /// taking what it sees into `known_resources` as it goes. Returns the
    /// load handed over at the base, if any.
    pub fn update(&mut self, map: &mut TileMap, known_resources: &mut Vec<ResourceDiscovery>) -> (delivered: Option<(u32, u32)>)
        requires
            old(map).wf(),
            old(self).robot_type is Collector ==> within_reach(*old(map), old(self).at()),
            old(self).robot_type is Collector ==> all_on_map(*old(map), old(known_resources)@),
            old(self).robot_type is Collector ==> old(self).cargo() <= u32::MAX,
        ensures
            final(map).wf(),
            old(map).inside(old(self).x as int, old(self).y as int) ==> final(map).inside(final(self).x as int, final(self).y as int),
            all_on_map(*old(map), old(known_resources)@) ==> all_on_map(*final(map), final(known_resources)@),
            unique_cells(old(known_resources)@) ==> unique_cells(final(known_resources)@),
            old(self).cargo() <= full_load() ==> final(self).cargo() <= full_load(),
            delivered is None ==> final(self).cargo() <= old(self).cargo() + 1,
            old(self).robot_type is Scout ==> final(self).cargo() == old(self).cargo() && final(self).mode == old(self).mode
                && final(map).cells() == old(map).cells() && delivered is None,
            carried(*final(self), true) + grid_units(final(map).cells(), true) + handed_over(delivered, true)
                == carried(*old(self), true) + grid_units(old(map).cells(), true),
            carried(*final(self), false) + grid_units(final(map).cells(), false) + handed_over(delivered, false)
                == carried(*old(self), false) + grid_units(old(map).cells(), false),
            worn_map(*old(map), *final(map)),
            old(self).robot_type is Collector && old(self).at() != old(map).base && old(self).cargo() >= full_load()
                ==> final(self).mode == CollectorMode::ReturningBase && delivered is None,
            old(self).robot_type is Collector && old(self).at() != old(map).base && old(self).cargo() < full_load()
                && old(self).mode == CollectorMode::ToResource(old(self).at()) && knows_position(old(known_resources)@, old(self).at())
                && crate::map::has_unit(old(map).tile(old(self).x as int, old(self).y as int)) ==> final(self).mode == old(self).mode
                && final(self).at() == old(self).at() && final(self).cargo() == old(self).cargo() + 1 && delivered is None,
            forall|c: Point|
                final(map).inside(c.x as int, c.y as int) && final(self).x - 1 <= c.x <= final(self).x + 1 && final(self).y - 1
                    <= c.y <= final(self).y + 1 && crate::map::is_resource(#[trigger] final(map).tile(c.x as int, c.y as int))
                    ==> knows_position(final(known_resources)@, c),
            crate::conduct::distinct_cells(old(self).visited@) ==> crate::conduct::distinct_cells(final(self).visited@),
            crate::conduct::same_terrain(*old(map), *final(map)),
            final(self).at() == old(self).at() || crate::conduct::on_open_ground(*old(map), *final(self)),
            robot_update(
                *old(self),
                *old(map),
                old(known_resources)@,
                *final(self),
                *final(map),
                final(known_resources)@,
                delivered,
            ),
    {
        let ghost r0 = *self;
        let ghost m0 = *map;
        let ghost k0 = known_resources@;
        let mut seen: Vec<RobotMessage> = Vec::new();
        self.scan(map, &mut seen);
        let ghost on_map0 = all_on_map(m0, known_resources@);
        proof {
            assert(seen@ =~= scan_reports(m0, r0.at()));
            lemma_window_on_map(m0, r0.at(), 9);
            if on_map0 {
                lemma_learn_on_map(m0, known_resources@, seen@);
            }
        }
        learn_from(known_resources, &seen);
        let ghost k_seen = known_resources@;
        let mut reports: Vec<RobotMessage> = Vec::new();
        let mut unused: Vec<Point> = Vec::new();
        let delivered = match self.robot_type {
            RobotType::Scout => {
                self.step_scout(map, &mut reports, &mut unused, false);
                None
            },
            RobotType::Collector => self.step_collector(map, known_resources, &mut reports, &mut unused, false),
        };
        let ghost r1 = *self;
        let ghost m1 = *map;
        proof {
            assert(reports@.skip(0) =~= reports@);
            assert(robot_acts(m0, k_seen, r0, seq![], false, m1, r1, seq![], reports@, delivered));
            lemma_acts_reports_on_map(m0, k_seen, r0, seq![], false, m1, r1, seq![], reports@, delivered);
            if on_map0 {
                lemma_learn_on_map(m1, k_seen, reports@);
            }
        }
        learn_from(known_resources, &reports);
        let mut last: Vec<RobotMessage> = Vec::new();
        self.scan(map, &mut last);
        proof {
            assert(last@ =~= scan_reports(m1, r1.at()));
        }
        proof {
            lemma_window_on_map(m1, r1.at(), 9);
            if on_map0 {
                lemma_learn_on_map(m1, known_resources@, last@);
            }
        }
        let ghost k_before_last = known_resources@;
        learn_from(known_resources, &last);
        proof {
            assert(robot_acts(m0, k_seen, r0, seq![], false, m1, r1, seq![], reports@, delivered));
            if unique_cells(k0) {
                lemma_learn_unique(k0, seen@);
                lemma_learn_unique(k_seen, reports@);
                lemma_learn_unique(k_before_last, last@);
            }
            assert(robot_update(r0, m0, k0, *self, *map, known_resources@, delivered));
            crate::conduct::lemma_update_load_bounds(r0, m0, k0, *self, *map, known_resources@, delivered);
            crate::conduct::lemma_update_units(r0, m0, k0, *self, *map, known_resources@, delivered, true);
            crate::conduct::lemma_update_units(r0, m0, k0, *self, *map, known_resources@, delivered, false);
            crate::conduct::lemma_update_wears(r0, m0, k0, *self, *map, known_resources@, delivered);
            crate::knowledge::lemma_scan_learned(k_before_last, m1, r1.at());
            if r0.robot_type is Collector && r0.at() != m0.base {
                if r0.cargo() >= full_load() {
                    crate::conduct::lemma_full_collector_turns_home(r0, m0, k0, *self, *map, known_resources@, delivered);
                } else if r0.mode == CollectorMode::ToResource(r0.at()) && knows_position(k0, r0.at())
                    && crate::map::has_unit(m0.tile(r0.x as int, r0.y as int)) {
                    crate::conduct::lemma_collector_keeps_collecting(r0, m0, k0, *self, *map, known_resources@, delivered);
                }
            }
            crate::conduct::lemma_update_visited(r0, m0, k0, *self, *map, known_resources@, delivered);
            crate::conduct::lemma_update_terrain(r0, m0, k0, *self, *map, known_resources@, delivered);
        }
        delivered
    }

    /// One tick of the robot among others: it reports what it sees to
    /// `outbox` rather than changing what is known, acts on the snapshot
    /// `known`, and never steps on a cell in `occupied`, which follows its
    /// moves. Returns the load handed over at the base, if any.
    pub fn update_shared(
        &mut self,
        map: &mut TileMap,
        known: &Vec<ResourceDiscovery>,
        outbox: &mut Vec<RobotMessage>,
        occupied: &mut Vec<Point>,
    ) -> (delivered: Option<(u32, u32)>)
        requires
            old(map).wf(),
            old(self).robot_type is Collector ==> within_reach(*old(map), old(self).at()),
            old(self).robot_type is Collector ==> all_on_map(*old(map), known@),
            old(self).robot_type is Collector ==> old(self).cargo() <= u32::MAX,
        ensures
            final(map).wf(),
            old(map).inside(old(self).x as int, old(self).y as int) ==> final(map).inside(final(self).x as int, final(self).y as int),
            final(outbox)@.len() >= old(outbox)@.len(),
            final(outbox)@.take(old(outbox)@.len() as int) == old(outbox)@,
            crate::conduct::distinct_cells(old(self).visited@) ==> crate::conduct::distinct_cells(final(self).visited@),
            robot_update_shared(
                *old(self),
                *old(map),
                known@,
                old(occupied)@,
                *final(self),
                *final(map),
                final(occupied)@,
                final(outbox)@.skip(old(outbox)@.len() as int),
                delivered,
            ),
    {
        let ghost r0 = *self;
        let ghost m0 = *map;
        let ghost occ0 = occupied@;
        let ghost out0 = outbox@;
        self.scan(map, outbox);
        let ghost out1 = outbox@;
        let delivered = match self.robot_type {
            RobotType::Scout => {
                self.step_scout(map, outbox, occupied, true);
                None
            },
            RobotType::Collector => self.step_collector(map, known, outbox, occupied, true),
        };
        let ghost r1 = *self;
        let ghost m1 = *map;
        let ghost out2 = outbox@;
        self.scan(map, outbox);
        proof {
            let reports = out2.skip(out1.len() as int);
            assert(robot_acts(m0, known@, r0, occ0, true, m1, r1, occupied@, reports, delivered));
            assert(out1 =~= out0 + scan_reports(m0, r0.at()));
            assert(out2 =~= out1 + reports);
            assert(outbox@ =~= out2 + scan_reports(m1, r1.at()));
            assert(outbox@.skip(out0.len() as int) =~= scan_reports(m0, r0.at()) + reports + scan_reports(m1, r1.at()));
            assert(outbox@.take(out0.len() as int) =~= out0);
            assert(robot_update_shared(r0, m0, known@, occ0, *self, *map, occupied@, outbox@.skip(out0.len() as int), delivered));
            crate::conduct::lemma_shared_visited(r0, m0, known@, occ0, *self, *map, occupied@, outbox@.skip(out0.len() as int), delivered);
        }
        delivered
    }

    /// Takes the found resource in, unless one is already known at its cell.
    pub(crate) fn remember_resource(known_resources: &mut Vec<ResourceDiscovery>, discovery: ResourceDiscovery)
        ensures
            final(known_resources)@ == remember(old(known_resources)@, discovery),
    {
        if find_position(known_resources, discovery.position).is_none() {
            known_resources.push(discovery);
        }
    }

    /// The cells next to the robot that it may step on.
    fn walkable_neighbors(&self, map: &TileMap) -> (r: Vec<Point>)
        requires
            map.wf(),
        ensures
            r@ == open_neighbours(*map, self.at()),
            forall|n: Point|
                adjacent(self.at(), n) && map.inside(n.x as int, n.y as int) && map.walkable_at(n.x as int, n.y as int)
                    <==> r@.contains(n),
    {
        neighbors_of(self.position(), map)
    }

    /// Reports what the robot sees in the 3 x 3 window around it.
    fn scan(&self, map: &TileMap, outbox: &mut Vec<RobotMessage>)
        requires
            map.wf(),
        ensures
            final(outbox)@ == old(outbox)@ + scan_reports(*map, self.at()),
    {
        let ghost start = outbox@;
        let mut i: usize = 0;
        while i < 9
            invariant
                i <= 9,
                map.wf(),
                outbox@ == start + window_prefix(*map, self.at(), i as nat),
            decreases 9 - i,
        {
            let dx = i % 3;
            let dy = i / 3;
            let ghost before = outbox@;
            let column_ok = if dx >= 1 { self.x < map.width } else { self.x >= 1 && self.x - 1 < map.width };
            let row_ok = if dy >= 1 { self.y < map.height } else { self.y >= 1 && self.y - 1 < map.height };
            if column_ok && row_ok {
                let x = if dx >= 1 { self.x + (dx - 1) } else { self.x - 1 };
                let y = if dy >= 1 { self.y + (dy - 1) } else { self.y - 1 };
                if x < map.width && y < map.height {
                    let position = Point { x, y };
                    match map.grid[y][x] {
                        Tile::Energy(_) => {
                            outbox.push(RobotMessage::ResourceFound(
                                ResourceDiscovery { position, kind: ResourceKind::Energy },
                            ));
                        },
                        Tile::Crystal(_) => {
                            outbox.push(RobotMessage::ResourceFound(
                                ResourceDiscovery { position, kind: ResourceKind::Crystal },
                            ));
                        },
                        Tile::Obstacle => {
                            outbox.push(RobotMessage::ObstacleFound(position));
                        },
                        _ => {},
                    }
                }
            }
            assert(outbox@ =~= before + cell_report(*map, self.x + i % 3 - 1, self.y + i / 3 - 1));
            i += 1;
        }
    }

    /// The known resource whose tile still holds something and that lies
    /// nearest to the robot; the earliest in the list among equally near ones.
    #[verifier::rlimit(40)]
    fn choose_best_known_resource(&self, map: &TileMap, known_resources: &Vec<ResourceDiscovery>) -> (r: Option<Point>)
        requires
            map.wf(),
            within_reach(*map, self.at()),
            all_on_map(*map, known_resources@),
        ensures
            best_known_resource(*map, self.at(), known_resources@, r),
    {
        let mut best: Option<usize> = None;
        let mut best_distance: usize = 0;
        let mut i: usize = 0;
        while i < known_resources.len()
            invariant
                i <= known_resources@.len(),
                map.wf(),
                within_reach(*map, self.at()),
                all_on_map(*map, known_resources@),
                best is None <==> forall|j: int| 0 <= j < i ==> !still_there(*map, #[trigger] known_resources@[j]),
                best matches Some(b) ==> {
                    &&& b < i
                    &&& still_there(*map, known_resources@[b as int])
                    &&& best_distance == manhattan_distance(self.at(), known_resources@[b as int].position)
                    &&& forall|j: int| 0 <= j < i && still_there(*map, #[trigger] known_resources@[j]) ==> best_distance
                        <= manhattan_distance(self.at(), known_resources@[j].position)
                    &&& forall|j: int| 0 <= j < b && still_there(*map, #[trigger] known_resources@[j]) ==> best_distance
                        < manhattan_distance(self.at(), known_resources@[j].position)
                },
            decreases known_resources.len() - i,
        {
            let resource = known_resources[i];
            proof {
                assert(map.inside(resource.position.x as int, resource.position.y as int));
            }
            if !map.is_empty_at(resource.position.x, resource.position.y) {
                let distance = self.manhattan(resource.position);
                if best.is_none() || distance < best_distance {
                    best = Some(i);
                    best_distance = distance;
                }
            }
            assert(known_resources@[i as int] == resource);
            i += 1;
        }
        match best {
            Some(b) => {
                proof {
                    assert(is_best_index(*map, self.at(), known_resources@, b as int));
                }
                Some(known_resources[b].position)
            },
            None => None,
        }
    }

    /// The cell the robot stands on.
    pub open spec fn at(&self) -> Point {
        Point { x: self.x, y: self.y }
    }

    pub fn position(&self) -> (p: Point)
        ensures
            p == self.at(),
    {
        Point { x: self.x, y: self.y }
    }

    /// The first move of a shortest walk from the robot to `goal` that avoids
    /// obstacles and the `blocked` cells (the goal excepted), found by
    /// breadth-first search; `None` when the robot is at the goal or no walk
    /// leads there.
    #[verifier::rlimit(60)]
    fn next_step_towards(&self, map: &TileMap, goal: Point, blocked: &Vec<Point>) -> (r: Option<Point>)
        requires
            map.wf(),
        ensures
            is_next_step(*map, blocked@, self.at(), goal, r),
    {
        let start = self.position();
        if start == goal {
            return None;
        }
        let ghost m = *map;
        let ghost b = blocked@;
        proof {
            reveal(search_links);
        }
        let mut came_from = empty_slots(map.width, map.height);
        let ghost g0 = rows_of(came_from@);
        if start.x < map.width && start.y < map.height {
            came_from[start.y][start.x] = Some(start);
            assert(rows_of(came_from@) =~= g0.update(start.y as int, g0[start.y as int].update(start.x as int, Some(start))));
        }
        let mut queue: Vec<Point> = Vec::new();
        queue.push(start);
        let mut head: usize = 0;
        let ghost mut dist: Map<Point, nat> = Map::empty().insert(start, 0nat);
        let ghost mut marks: Map<Point, Point> = Map::empty();
        proof {
            reveal(search_order);
            assert forall|p: Point| #[trigger] dist.contains_key(p) implies queue@.contains(p) by {
                assert(queue@[0] == start);
            }
            assert forall|p: Point, w: Seq<Point>|
                #[trigger] dist.contains_key(p) && #[trigger] walk_between(m, b, goal, w, start, p) implies dist[p]
                    <= w.len() - 1 by {}
        }
        while head < queue.len()
            invariant
                m == *map,
                b == blocked@,
                map.wf(),
                start == self.at(),
                start != goal,
                head <= queue@.len(),
                search_core(m, b, goal, start, rows_of(came_from@), queue@, dist),
                search_order(m, b, goal, start, rows_of(came_from@), queue@, dist, marks, head as int),
                expanded_complete(m, b, goal, queue@, dist, head as int),
                head < queue@.len() ==> dist[queue@.last()] <= dist[queue@[head as int]] + 1,
            ensures
                dist.contains_key(goal) || head == queue@.len(),
            decreases grid_unseen(rows_of(came_from@)) + queue@.len() - head,
        {
            proof {
                reveal(search_links);
            }
            let current = queue[head];
            if current == goal {
                break;
            }
            proof {
                reveal(search_order);
                if current == start {
                    assert(head == 0) by {
                        if head != 0 {
                            assert(queue@[0] == start);
                        }
                    }
                    assert forall|x: Point| #[trigger] dist.contains_key(x) implies x == start by {
                        assert(queue@.contains(x));
                    }
                }
                lemma_order_advance(m, b, goal, start, rows_of(came_from@), queue@, dist, marks, head as int);
            }
            head += 1;
            let neighbors = neighbors_of(current, map);
            let ghost total = grid_unseen(rows_of(came_from@)) + queue@.len();
            let ghost dc = dist[current];
            let mut k: usize = 0;
            while k < neighbors.len()
                invariant
                    m == *map,
                    b == blocked@,
                    map.wf(),
                    start != goal,
                    1 <= head <= queue@.len(),
                    k <= neighbors@.len(),
                    neighbors@ == crate::robot::open_neighbours(m, current),
                    forall|n: Point|
                        adjacent(current, n) && m.inside(n.x as int, n.y as int) && m.walkable_at(n.x as int, n.y as int)
                            <==> neighbors@.contains(n),
                    current == queue@[head - 1],
                    dc == dist[current],
                    total == grid_unseen(rows_of(came_from@)) + queue@.len(),
                    search_core(m, b, goal, start, rows_of(came_from@), queue@, dist),
                    expanded_complete(m, b, goal, queue@, dist, head - 1),
                    dist[queue@.last()] <= dc + 1,
                    forall|j: int|
                        0 <= j < k && passable(m, b, goal, #[trigger] neighbors@[j]) ==> dist.contains_key(neighbors@[j])
                            && dist[neighbors@[j]] <= dc + 1,
                    search_order(m, b, goal, start, rows_of(came_from@), queue@, dist, marks, head as int),
                    current == start ==> forall|x: Point|
                        #[trigger] dist.contains_key(x) && x != start ==> exists|j: int| 0 <= j < k && neighbors@[j] == x,
                decreases neighbors.len() - k,
            {
                proof {
                    reveal(search_links);
                }
                let neighbor = neighbors[k];
                k += 1;
                if contains_point(blocked, neighbor) && neighbor != goal {
                    continue;
                }
                proof {
                    assert(neighbors@.contains(neighbor));
                    assert(came_from@[neighbor.y as int]@ == rows_of(came_from@)[neighbor.y as int]);
                }
                if came_from[neighbor.y][neighbor.x].is_some() {
                    proof {
                        assert(dist.contains_key(neighbor));
                        let i = choose|i: int| 0 <= i < queue@.len() && queue@[i] == neighbor;
                        assert(dist[queue@[i]] <= dist[queue@[queue@.len() - 1]]);
                    }
                    continue;
                }
                let ghost cf_before = rows_of(came_from@);
                let ghost q_before = queue@;
                let ghost d_before = dist;
                let ghost marks_before = marks;
                proof {
                    assert(link(m, b, goal, current, neighbor));
                    lemma_search_discover(m, b, goal, start, cf_before, q_before, d_before, head as int, neighbor);
                    if current == start {
                        lemma_neighbours_ranked(m, current);
                        assert forall|x: Point| #[trigger] d_before.contains_key(x) && x != start implies move_rank(start, x)
                            < move_rank(start, neighbor) by {
                            let j = choose|j: int| 0 <= j < k - 1 + 1 && neighbors@[j] == x;
                            if j == k - 1 {
                                assert(false);
                            }
                        }
                    }
                    lemma_order_discover(m, b, goal, start, cf_before, q_before, d_before, marks_before, head as int, neighbor);
                }
                came_from[neighbor.y][neighbor.x] = Some(current);
                queue.push(neighbor);
                proof {
                    dist = dist.insert(neighbor, dc + 1);
                    marks = marks.insert(neighbor, if current == start { neighbor } else { marks[current] });
                    if current == start {
                        assert forall|x: Point| #[trigger] dist.contains_key(x) && x != start implies exists|j: int|
                            0 <= j < k && neighbors@[j] == x by {
                            if x == neighbor {
                                assert(neighbors@[k - 1] == x);
                            } else {
                                assert(d_before.contains_key(x));
                            }
                        }
                    }
                    assert(rows_of(came_from@) =~= cf_before.update(
                        neighbor.y as int,
                        cf_before[neighbor.y as int].update(neighbor.x as int, Some(current)),
                    ));
                    assert(queue@ =~= q_before.push(neighbor));
                    assert forall|j: int|
                        0 <= j < k && passable(m, b, goal, #[trigger] neighbors@[j]) implies dist.contains_key(neighbors@[j])
                            && dist[neighbors@[j]] <= dc + 1 by {
                        if j < k - 1 {
                            assert(d_before.contains_key(neighbors@[j]));
                        }
                    }
                }
            }
        }
        if !(goal.x < map.width && goal.y < map.height) {
            proof {
                assert forall|w: Seq<Point>| !#[trigger] walk_between(m, b, goal, w, start, goal) by {
                    if walk_between(m, b, goal, w, start, goal) && w.len() >= 2 {
                        crate::path::lemma_walk_drop_last(m, b, goal, w);
                    }
                }
            }
            return None;
        }
        proof {
            assert(came_from@[goal.y as int]@ == rows_of(came_from@)[goal.y as int]);
        }
        if came_from[goal.y][goal.x].is_none() {
            proof {
                assert(!dist.contains_key(goal));
                assert forall|w: Seq<Point>| !#[trigger] walk_between(m, b, goal, w, start, goal) by {
                    if walk_between(m, b, goal, w, start, goal) {
                        lemma_search_reaches(m, b, goal, start, queue@, dist, head as int, (w.len() - 1) as nat, w);
                    }
                }
            }
            return None;
        }
        proof {
            reveal(search_order);
        }
        let mut step = goal;
        let ghost mut tail: Seq<Point> = seq![goal];
        loop
            invariant
                m == *map,
                b == blocked@,
                map.wf(),
                start == self.at(),
                start != goal,
                search_core(m, b, goal, start, rows_of(came_from@), queue@, dist),
                search_order(m, b, goal, start, rows_of(came_from@), queue@, dist, marks, head as int),
                dist.contains_key(goal),
                dist.contains_key(step),
                step != start,
                marks.contains_key(step),
                marks.contains_key(goal),
                marks[step] == marks[goal],
                crate::path::is_walk(m, b, goal, tail),
                tail[0] == step,
                tail.last() == goal,
                tail.len() - 1 + dist[step] == dist[goal],
            decreases dist[step],
        {
            proof {
                reveal(search_links);
                reveal(search_order);
                assert(came_from@[step.y as int]@ == rows_of(came_from@)[step.y as int]);
            }
            let previous = match came_from[step.y][step.x] {
                Some(p) => p,
                None => {
                    proof {
                        assert(m.inside(step.x as int, step.y as int));
                    }
                    return None;
                },
            };
            if previous == start {
                proof {
                    lemma_walk_prepend(m, b, goal, start, tail);
                    let w = seq![start] + tail;
                    assert(walk_between(m, b, goal, w, start, goal));
                    assert(w[1] == step);
                    assert forall|w2: Seq<Point>| #[trigger] walk_between(m, b, goal, w2, start, goal) implies w.len()
                        <= w2.len() by {}
                    assert(marks[step] == step);
                    assert(crate::path::best_first_move(m, b, goal, start, goal, dist[goal], marks[goal]));
                    let wb = choose|wb: Seq<Point>|
                        #[trigger] walk_between(m, b, goal, wb, start, goal) && wb.len() == dist[goal] + 1 && wb.len() >= 2
                            && wb[1] == marks[goal];
                    assert forall|w3: Seq<Point>|
                        #[trigger] walk_between(m, b, goal, w3, start, goal) && w3.len() >= 2 && (forall|w2: Seq<Point>|
                            #[trigger] walk_between(m, b, goal, w2, start, goal) ==> w3.len() <= w2.len()) implies move_rank(
                            start, step) <= move_rank(start, w3[1]) by {
                        assert(w3.len() <= wb.len());
                        assert(dist[goal] <= w3.len() - 1);
                    }
                }
                return Some(step);
            }
            if previous == step {
                return None;
            }
            proof {
                lemma_walk_prepend(m, b, goal, previous, tail);
                tail = seq![previous] + tail;
            }
            step = previous;
        }
    }
}

/// `x + y`, or `u32::MAX` when that overflows.
pub open spec fn sat_add(x: u32, y: u32) -> u32 {
    if x + y > u32::MAX {
        u32::MAX
    } else {
        (x + y) as u32
    }
}

/// The energy total after the deliveries `ds` are added in turn to `total`.
pub open spec fn add_energy(total: u32, ds: Seq<Option<(u32, u32)>>) -> u32
    decreases ds.len(),
{
    if ds.len() == 0 {
        total
    } else {
        let before = add_energy(total, ds.drop_last());
        match ds.last() {
            Some((e, _)) => sat_add(before, e),
            None => before,
        }
    }
}

/// The crystal total after the deliveries `ds` are added in turn to `total`.
pub open spec fn add_crystals(total: u32, ds: Seq<Option<(u32, u32)>>) -> u32
    decreases ds.len(),
{
    if ds.len() == 0 {
        total
    } else {
        let before = add_crystals(total, ds.drop_last());
        match ds.last() {
            Some((_, c)) => sat_add(before, c),
            None => before,
        }
    }
}

/// The units of energy (or of crystal) handed over in the deliveries `ds`
/// together.
pub open spec fn handed_sum(ds: Seq<Option<(u32, u32)>>, energy: bool) -> int
    decreases ds.len(),
{
    if ds.len() == 0 {
        0
    } else {
        handed_sum(ds.drop_last(), energy) + handed_over(ds.last(), energy)
    }
}

/// While the deliveries fit, the totals are plain sums.
pub(crate) proof fn lemma_totals_exact(total: u32, ds: Seq<Option<(u32, u32)>>)
    ensures
        total + handed_sum(ds, true) <= u32::MAX ==> add_energy(total, ds) == total + handed_sum(ds, true),
        total + handed_sum(ds, false) <= u32::MAX ==> add_crystals(total, ds) == total + handed_sum(ds, false),
        handed_sum(ds, true) >= 0,
        handed_sum(ds, false) >= 0,
    decreases ds.len(),
{
    if ds.len() > 0 {
        lemma_totals_exact(total, ds.drop_last());
    }
}

/// The entries of `known` whose tile on `map` still holds something.
pub open spec fn present_only(map: TileMap, known: Seq<ResourceDiscovery>) -> Seq<ResourceDiscovery>
    decreases known.len(),
{
    if known.len() == 0 {
        known
    } else {
        present_only(map, known.drop_last()) + if still_there(map, known.last()) {
            seq![known.last()]
        } else {
            Seq::<ResourceDiscovery>::empty()
        }
    }
}

/// An entry known at a cell that still holds something survives the sweep.
pub(crate) proof fn lemma_present_keeps(map: TileMap, known: Seq<ResourceDiscovery>, p: Point)
    requires
        knows_position(known, p),
        !(map.tile(p.x as int, p.y as int) is Empty),
    ensures
        knows_position(present_only(map, known), p),
    decreases known.len(),
{
    let rest = known.drop_last();
    let a = present_only(map, rest);
    let b = if still_there(map, known.last()) { seq![known.last()] } else { Seq::<ResourceDiscovery>::empty() };
    assert(present_only(map, known) == a + b);
    let i = choose|i: int| 0 <= i < known.len() && (#[trigger] known[i]).position == p;
    if i < known.len() - 1 {
        assert(rest[i] == known[i]);
        lemma_present_keeps(map, rest, p);
        let j = choose|j: int| 0 <= j < a.len() && (#[trigger] a[j]).position == p;
        assert((a + b)[j] == a[j]);
    } else {
        assert(known.last() == known[i]);
        assert(b[0] == known.last());
        assert((a + b)[a.len() as int] == b[0]);
    }
}

pub(crate) proof fn lemma_present_subset(map: TileMap, known: Seq<ResourceDiscovery>, p: Point)
    ensures
        knows_position(present_only(map, known), p) ==> knows_position(known, p),
    decreases known.len(),
{
    if known.len() > 0 {
        let rest = known.drop_last();
        lemma_present_subset(map, rest, p);
        let a = present_only(map, rest);
        let b = if still_there(map, known.last()) { seq![known.last()] } else { Seq::<ResourceDiscovery>::empty() };
        if knows_position(a + b, p) {
            let i = choose|i: int| 0 <= i < (a + b).len() && (#[trigger] (a + b)[i]).position == p;
            if i < a.len() {
                assert((a + b)[i] == a[i]);
                let j = choose|j: int| 0 <= j < rest.len() && (#[trigger] rest[j]).position == p;
                assert(known[j] == rest[j]);
            } else {
                assert((a + b)[i] == b[i - a.len()]);
                assert(known[known.len() - 1] == known.last());
            }
        }
    }
}

/// The units of energy (or of crystal) the robots carry together.
pub open spec fn carried_sum(robots: Seq<Robot>, energy: bool) -> int
    decreases robots.len(),
{
    if robots.len() == 0 {
        0
    } else {
        carried_sum(robots.drop_last(), energy) + carried(robots.last(), energy)
    }
}

/// The units of energy (or of crystal) in the world: brought in to the
/// base, carried by the robots, and left on the map.
pub open spec fn units_in_play(total: u32, robots: Seq<Robot>, map: TileMap, energy: bool) -> int {
    total + carried_sum(robots, energy) + grid_units(map.cells(), energy)
}

proof fn lemma_carried_sum_concat(a: Seq<Robot>, b: Seq<Robot>, energy: bool)
    ensures
        carried_sum(a + b, energy) == carried_sum(a, energy) + carried_sum(b, energy),
    decreases b.len(),
{
    if b.len() == 0 {
        assert(a + b =~= a);
    } else {
        assert((a + b).drop_last() =~= a + b.drop_last());
        lemma_carried_sum_concat(a, b.drop_last(), energy);
    }
}

proof fn lemma_carried_sum_nonneg(a: Seq<Robot>, energy: bool)
    ensures
        carried_sum(a, energy) >= 0,
    decreases a.len(),
{
    if a.len() > 0 {
        lemma_carried_sum_nonneg(a.drop_last(), energy);
    }
}

/// One robot's turn keeps the units in play when what it hands over is
/// added to the total in full.
pub(crate) proof fn lemma_turn_keeps_units(
    total0: u32,
    total1: u32,
    before: Seq<Robot>,
    r0: Robot,
    r1: Robot,
    rest: Seq<Robot>,
    m0: TileMap,
    m1: TileMap,
    d: Option<(u32, u32)>,
    energy: bool,
)
    requires
        total1 as int == total0 + handed_over(d, energy),
        carried(r1, energy) + grid_units(m1.cells(), energy) + handed_over(d, energy) == carried(r0, energy)
            + grid_units(m0.cells(), energy),
    ensures
        units_in_play(total1, before.push(r1) + rest, m1, energy) == units_in_play(
            total0,
            before + (seq![r0] + rest),
            m0,
            energy,
        ),
{
    lemma_carried_sum_concat(before, seq![r0] + rest, energy);
    lemma_carried_sum_concat(seq![r0], rest, energy);
    lemma_carried_sum_concat(before.push(r1), rest, energy);
    lemma_carried_sum_nonneg(before, energy);
    lemma_carried_sum_nonneg(rest, energy);
    assert(seq![r0].drop_last() =~= Seq::<Robot>::empty());
    assert(carried_sum(seq![r0].drop_last(), energy) == 0);
    assert(seq![r0].last() == r0);
    assert(before.push(r1).drop_last() =~= before);
    assert(carried_sum(seq![r0], energy) == carried(r0, energy));
}

/// Every collector has the whole map within reach and carries a load that
/// `u32` can count.
pub open spec fn robots_fit(map: TileMap, robots: Seq<Robot>) -> bool {
    forall|i: int|
        0 <= i < robots.len() && (#[trigger] robots[i]).robot_type is Collector ==> within_reach(map, robots[i].at())
            && robots[i].cargo() <= u32::MAX
}

/// `r` is a robot of type `t` just set down at `p`.
pub open spec fn fresh_robot(r: Robot, p: Point, t: RobotType) -> bool {
    &&& r.at() == p
    &&& r.robot_type == t
    &&& r.carrying_energy == 0
    &&& r.carrying_crystal == 0
    &&& r.mode == CollectorMode::Exploring
    &&& r.visited@ == seq![p]
}

/// The types of the robots a world starts with: two scouts, then three
/// collectors.
pub open spec fn crew() -> Seq<RobotType> {
    seq![RobotType::Scout, RobotType::Scout, RobotType::Collector, RobotType::Collector, RobotType::Collector]
}

pub(crate) proof fn lemma_totals_grow(total: u32, ds: Seq<Option<(u32, u32)>>)
    ensures
        add_energy(total, ds) >= total,
        add_crystals(total, ds) >= total,
    decreases ds.len(),
{
    if ds.len() > 0 {
        lemma_totals_grow(total, ds.drop_last());
    }
}

pub(crate) proof fn lemma_present_unique(map: TileMap, known: Seq<ResourceDiscovery>)
    requires
        unique_cells(known),
    ensures
        unique_cells(present_only(map, known)),
        forall|q: Point| knows_position(present_only(map, known), q) ==> knows_position(known, q),
    decreases known.len(),
{
    if known.len() > 0 {
        let rest = known.drop_last();
        assert(unique_cells(rest)) by {
            assert forall|i: int, j: int| 0 <= i < rest.len() && 0 <= j < rest.len() && i != j implies rest[i].position != rest[j].position by {
                assert(rest[i] == known[i]);
                assert(rest[j] == known[j]);
            }
        }
        lemma_present_unique(map, rest);
        let a = present_only(map, rest);
        let b = if still_there(map, known.last()) { seq![known.last()] } else { Seq::<ResourceDiscovery>::empty() };
        assert(present_only(map, known) == a + b);
        assert forall|q: Point| knows_position(rest, q) implies knows_position(known, q) by {
            let i = choose|i: int| 0 <= i < rest.len() && (#[trigger] rest[i]).position == q;
            assert(known[i] == rest[i]);
        }
        assert(!knows_position(rest, known.last().position)) by {
            if knows_position(rest, known.last().position) {
                let i = choose|i: int| 0 <= i < rest.len() && (#[trigger] rest[i]).position == known.last().position;
                assert(known[i] == rest[i]);
                assert(known[known.len() - 1] == known.last());
            }
        }
        let ab = a + b;
        assert forall|q: Point| knows_position(ab, q) implies knows_position(known, q) by {
            let i = choose|i: int| 0 <= i < ab.len() && (#[trigger] ab[i]).position == q;
            if i < a.len() {
                assert(ab[i] == a[i]);
                assert(knows_position(a, q));
            } else {
                assert(ab[i] == b[i - a.len()]);
                assert(known[known.len() - 1] == known.last());
            }
        }
        assert forall|i: int, j: int| 0 <= i < ab.len() && 0 <= j < ab.len() && i != j implies ab[i].position != ab[j].position by {
            if i < a.len() && j < a.len() {
                assert(ab[i] == a[i]);
                assert(ab[j] == a[j]);
            } else if i < a.len() {
                assert(ab[i] == a[i]);
                assert(knows_position(a, a[i].position));
            } else if j < a.len() {
                assert(ab[j] == a[j]);
                assert(knows_position(a, a[j].position));
            }
        }
    }
}

pub(crate) proof fn lemma_present_on_map(map: TileMap, known: Seq<ResourceDiscovery>)
    requires
        all_on_map(map, known),
    ensures
        all_on_map(map, present_only(map, known)),
        forall|i: int| 0 <= i < present_only(map, known).len() ==> still_there(map, #[trigger] present_only(map, known)[i]),
    decreases known.len(),
{
    if known.len() > 0 {
        let rest = known.drop_last();
        assert(all_on_map(map, rest)) by {
            assert forall|i: int| 0 <= i < rest.len() implies map.inside((#[trigger] rest[i]).position.x as int, rest[i].position.y as int) by {
                assert(rest[i] == known[i]);
            }
        }
        lemma_present_on_map(map, rest);
        let a = present_only(map, rest);
        let b = if still_there(map, known.last()) { seq![known.last()] } else { Seq::<ResourceDiscovery>::empty() };
        assert(present_only(map, known) == a + b);
        assert forall|i: int| 0 <= i < (a + b).len() implies map.inside((#[trigger] (a + b)[i]).position.x as int, (a + b)[i].position.y as int)
            && still_there(map, (a + b)[i]) by {
            if i < a.len() {
                assert((a + b)[i] == a[i]);
            } else {
                assert((a + b)[i] == b[i - a.len()]);
                assert(known[known.len() - 1] == known.last());
            }
        }
    }
}

} // verus!

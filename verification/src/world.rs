//! The world in which robots share what they learn by messages and keep
//! off each other's cells.
use vstd::prelude::*;

use crate::conduct::{
    distinct_cells, full_load, lemma_visit_distinct, on_open_ground, robot_update_shared, same_terrain, visit,
};
use crate::knowledge::{
    all_on_map, knows_position, obstacle_at, obstacles_real, remember, reports_on_map,
    still_there, unique_cells,
};
use crate::map::{TileMap, is_generated, rows_of};
use crate::robot::{
    Point, ResourceDiscovery, Robot, RobotMessage, RobotType, add_crystals, add_energy,
    handed_sum, present_only, robots_fit, units_in_play, visit_cell, within_reach,
};

verus! {

/// A map, the robots on it, what they have reported and what they have
/// brought in. Robots report by message; the world reads the messages at the
/// end of each tick.
#[derive(Debug)]
pub struct World {
    pub map: TileMap,
    pub robots: Vec<Robot>,
    pub known_resources: Vec<ResourceDiscovery>,
    pub known_obstacles: Vec<Point>,
    pub total_energy: u32,
    pub total_crystals: u32,
    /// How many ticks have passed, counted modulo 2^64.
    pub tick: u64,
}

/// Where the robots of a new world are set down: on the base, then right
/// of, left of, below and above it, each kept on the map.
pub open spec fn spawn_points(base: Point, width: usize, height: usize) -> Seq<Point> {
    let left = if base.x == 0 { 0 } else { (base.x - 1) as usize };
    let right = if base.x + 1 < width { (base.x + 1) as usize } else { (width - 1) as usize };
    let up = if base.y == 0 { 0 } else { (base.y - 1) as usize };
    let down = if base.y + 1 < height { (base.y + 1) as usize } else { (height - 1) as usize };
    seq![
        base,
        Point { x: right, y: base.y },
        Point { x: left, y: base.y },
        Point { x: base.x, y: down },
        Point { x: base.x, y: up },
    ]
}

/// The cells the robots stand on, each once, in order of first appearance.
pub open spec fn occupancy(robots: Seq<Robot>) -> Seq<Point>
    decreases robots.len(),
{
    if robots.len() == 0 {
        Seq::<Point>::empty()
    } else {
        visit(occupancy(robots.drop_last()), robots.last().at())
    }
}

/// `known` without any entry at `p`.
pub open spec fn without_position(known: Seq<ResourceDiscovery>, p: Point) -> Seq<ResourceDiscovery>
    decreases known.len(),
{
    if known.len() == 0 {
        known
    } else {
        without_position(known.drop_last(), p) + if known.last().position == p {
            Seq::<ResourceDiscovery>::empty()
        } else {
            seq![known.last()]
        }
    }
}

/// The known resources once the messages are read in order: a found
/// resource is added unless one is known at its cell, a depleted cell loses
/// its entries, and obstacles leave the list alone.
pub open spec fn absorb(known: Seq<ResourceDiscovery>, mail: Seq<RobotMessage>) -> Seq<ResourceDiscovery>
    decreases mail.len(),
{
    if mail.len() == 0 {
        known
    } else {
        let before = absorb(known, mail.drop_last());
        match mail.last() {
            RobotMessage::ResourceFound(d) => remember(before, d),
            RobotMessage::ResourceDepleted(p) => without_position(before, p),
            RobotMessage::ObstacleFound(_) => before,
        }
    }
}

/// Of the messages in `mail` that name the cell `p` (as found or as
/// depleted), the last one reports it depleted.
pub open spec fn last_word_depleted(mail: Seq<RobotMessage>, p: Point) -> bool
    decreases mail.len(),
{
    if mail.len() == 0 {
        false
    } else {
        match mail.last() {
            RobotMessage::ResourceDepleted(q) => q == p || last_word_depleted(mail.drop_last(), p),
            RobotMessage::ResourceFound(d) => d.position != p && last_word_depleted(mail.drop_last(), p),
            RobotMessage::ObstacleFound(_) => last_word_depleted(mail.drop_last(), p),
        }
    }
}

proof fn lemma_without_position(known: Seq<ResourceDiscovery>, q: Point, p: Point)
    ensures
        !knows_position(without_position(known, q), q),
        knows_position(without_position(known, q), p) ==> knows_position(known, p),
    decreases known.len(),
{
    if known.len() > 0 {
        let rest = known.drop_last();
        lemma_without_position(rest, q, p);
        let a = without_position(rest, q);
        let b = if known.last().position == q { Seq::<ResourceDiscovery>::empty() } else { seq![known.last()] };
        assert forall|i: int| 0 <= i < (a + b).len() implies (#[trigger] (a + b)[i]).position != q by {
            if i < a.len() {
                assert((a + b)[i] == a[i]);
            } else {
                assert((a + b)[i] == b[i - a.len()]);
            }
        }
        if knows_position(a + b, p) {
            let i = choose|i: int| 0 <= i < (a + b).len() && (#[trigger] (a + b)[i]).position == p;
            if i < a.len() {
                assert((a + b)[i] == a[i]);
                let j = choose|j: int| 0 <= j < rest.len() && (#[trigger] rest[j]).position == p;
                assert(known[j] == rest[j]);
            } else {
                assert((a + b)[i] == b[i - a.len()]);
                assert(known[known.len() - 1] == known.last());
            }
        }
    }
}

/// A cell whose last word in the mail is "depleted" is not among the known
/// resources once the mail is read.
pub proof fn lemma_depleted_forgotten(known: Seq<ResourceDiscovery>, mail: Seq<RobotMessage>, p: Point)
    requires
        last_word_depleted(mail, p),
    ensures
        !knows_position(absorb(known, mail), p),
    decreases mail.len(),
{
    let before = absorb(known, mail.drop_last());
    match mail.last() {
        RobotMessage::ResourceDepleted(q) => {
            lemma_without_position(before, q, p);
            if q != p {
                lemma_depleted_forgotten(known, mail.drop_last(), p);
            }
        },
        RobotMessage::ResourceFound(d) => {
            lemma_depleted_forgotten(known, mail.drop_last(), p);
            if !knows_position(before, d.position) {
                let r = before.push(d);
                if knows_position(r, p) {
                    let i = choose|i: int| 0 <= i < r.len() && (#[trigger] r[i]).position == p;
                    assert(before[i] == r[i]);
                }
            }
        },
        RobotMessage::ObstacleFound(_) => {
            lemma_depleted_forgotten(known, mail.drop_last(), p);
        },
    }
}

/// Of the messages in `mail` that name the cell `p` (as found or as
/// depleted), the last one reports a resource found there.
pub open spec fn last_word_found(mail: Seq<RobotMessage>, p: Point) -> bool
    decreases mail.len(),
{
    if mail.len() == 0 {
        false
    } else {
        match mail.last() {
            RobotMessage::ResourceFound(d) => d.position == p || last_word_found(mail.drop_last(), p),
            RobotMessage::ResourceDepleted(q) => q != p && last_word_found(mail.drop_last(), p),
            RobotMessage::ObstacleFound(_) => last_word_found(mail.drop_last(), p),
        }
    }
}

proof fn lemma_without_keeps(known: Seq<ResourceDiscovery>, q: Point, p: Point)
    requires
        knows_position(known, p),
        p != q,
    ensures
        knows_position(without_position(known, q), p),
    decreases known.len(),
{
    let rest = known.drop_last();
    let a = without_position(rest, q);
    let b = if known.last().position == q { Seq::<ResourceDiscovery>::empty() } else { seq![known.last()] };
    let i = choose|i: int| 0 <= i < known.len() && (#[trigger] known[i]).position == p;
    if i < known.len() - 1 {
        assert(rest[i] == known[i]);
        lemma_without_keeps(rest, q, p);
        let j = choose|j: int| 0 <= j < a.len() && (#[trigger] a[j]).position == p;
        assert((a + b)[j] == a[j]);
    } else {
        assert(b[0] == known.last());
        assert((a + b)[a.len() as int] == b[0]);
    }
}

proof fn lemma_remember_keeps(known: Seq<ResourceDiscovery>, d: ResourceDiscovery, p: Point)
    ensures
        knows_position(remember(known, d), d.position),
        knows_position(known, p) ==> knows_position(remember(known, d), p),
{
    if !knows_position(known, d.position) {
        let r = known.push(d);
        assert(r[known.len() as int] == d);
        if knows_position(known, p) {
            let i = choose|i: int| 0 <= i < known.len() && (#[trigger] known[i]).position == p;
            assert(r[i] == known[i]);
        }
    }
}

/// A cell whose last word in the mail is "found" is among the known
/// resources once the mail is read, whatever kind of resource was found.
pub proof fn lemma_found_known(known: Seq<ResourceDiscovery>, mail: Seq<RobotMessage>, p: Point)
    requires
        last_word_found(mail, p),
    ensures
        knows_position(absorb(known, mail), p),
    decreases mail.len(),
{
    let before = absorb(known, mail.drop_last());
    match mail.last() {
        RobotMessage::ResourceFound(d) => {
            if d.position != p {
                lemma_found_known(known, mail.drop_last(), p);
            }
            lemma_remember_keeps(before, d, p);
        },
        RobotMessage::ResourceDepleted(q) => {
            lemma_found_known(known, mail.drop_last(), p);
            lemma_without_keeps(before, q, p);
        },
        RobotMessage::ObstacleFound(_) => {
            lemma_found_known(known, mail.drop_last(), p);
        },
    }
}

/// Reading the mail keeps the known obstacles and adds to them at the end.
pub proof fn lemma_obstacles_grow(obstacles: Seq<Point>, mail: Seq<RobotMessage>)
    ensures
        absorb_obstacles(obstacles, mail).len() >= obstacles.len(),
        absorb_obstacles(obstacles, mail).take(obstacles.len() as int) == obstacles,
    decreases mail.len(),
{
    if mail.len() > 0 {
        lemma_obstacles_grow(obstacles, mail.drop_last());
        let before = absorb_obstacles(obstacles, mail.drop_last());
        if let RobotMessage::ObstacleFound(p) = mail.last() {
            if !before.contains(p) {
                assert(before.push(p).take(obstacles.len() as int) =~= before.take(obstacles.len() as int));
            }
        }
    }
}

/// The known obstacles once the messages are read in order: each reported
/// obstacle is added unless it is known already.
pub open spec fn absorb_obstacles(obstacles: Seq<Point>, mail: Seq<RobotMessage>) -> Seq<Point>
    decreases mail.len(),
{
    if mail.len() == 0 {
        obstacles
    } else {
        let before = absorb_obstacles(obstacles, mail.drop_last());
        match mail.last() {
            RobotMessage::ObstacleFound(p) => visit(before, p),
            _ => before,
        }
    }
}

/// The messages of all the lists in `parts`, in order.
pub open spec fn concat_all(parts: Seq<Seq<RobotMessage>>) -> Seq<RobotMessage>
    decreases parts.len(),
{
    if parts.len() == 0 {
        Seq::<RobotMessage>::empty()
    } else {
        concat_all(parts.drop_last()) + parts.last()
    }
}

/// Robot `i` of `r0s` becomes robot `i` of `r1s` by `Robot::update_shared`,
/// on the map and occupied cells the robots before it left, sending `sents[i]`.
pub open spec fn shared_chain(
    r0s: Seq<Robot>,
    r1s: Seq<Robot>,
    known: Seq<ResourceDiscovery>,
    ms: Seq<TileMap>,
    occs: Seq<Seq<Point>>,
    sents: Seq<Seq<RobotMessage>>,
    ds: Seq<Option<(u32, u32)>>,
) -> bool {
    &&& r1s.len() == r0s.len()
    &&& ds.len() == r0s.len()
    &&& sents.len() == r0s.len()
    &&& ms.len() == r0s.len() + 1
    &&& occs.len() == r0s.len() + 1
    &&& forall|i: int|
        0 <= i < r0s.len() ==> #[trigger] robot_update_shared(
            r0s[i],
            ms[i],
            known,
            occs[i],
            r1s[i],
            ms[i + 1],
            occs[i + 1],
            sents[i],
            ds[i],
        )
}

/// The robots `r0s` act one after the other on the snapshot `known`, from
/// map `m0` to map `m1`, keeping off the cells taken (starting from where
/// they all stand), sending `mail` and delivering `ds`.
pub open spec fn robots_move_together(
    r0s: Seq<Robot>,
    m0: TileMap,
    known: Seq<ResourceDiscovery>,
    r1s: Seq<Robot>,
    m1: TileMap,
    mail: Seq<RobotMessage>,
    ds: Seq<Option<(u32, u32)>>,
) -> bool {
    exists|ms: Seq<TileMap>, occs: Seq<Seq<Point>>, sents: Seq<Seq<RobotMessage>>|
        {
            &&& #[trigger] shared_chain(r0s, r1s, known, ms, occs, sents, ds)
            &&& ms[0] == m0
            &&& ms.last() == m1
            &&& occs[0] == occupancy(r0s)
            &&& mail == concat_all(sents)
        }
}

/// The cells the robots stand on, in robot order.
pub open spec fn cells_of(robots: Seq<Robot>) -> Seq<Point> {
    robots.map_values(|r: Robot| r.at())
}


/// No two robots stand on the same cell.
pub open spec fn apart(robots: Seq<Robot>) -> bool {
    distinct_cells(cells_of(robots))
}

proof fn lemma_occupancy(robots: Seq<Robot>)
    ensures
        distinct_cells(occupancy(robots)),
        forall|p: Point| occupancy(robots).contains(p) <==> cells_of(robots).contains(p),
    decreases robots.len(),
{
    if robots.len() > 0 {
        let rest = robots.drop_last();
        lemma_occupancy(rest);
        let o = occupancy(rest);
        let q = robots.last().at();
        assert forall|p: Point| cells_of(robots).contains(p) <==> (cells_of(rest).contains(p) || p == q) by {
            if cells_of(robots).contains(p) {
                let i = choose|i: int| 0 <= i < robots.len() && cells_of(robots)[i] == p;
                if i < rest.len() {
                    assert(cells_of(rest)[i] == p);
                }
            }
            if cells_of(rest).contains(p) {
                let i = choose|i: int| 0 <= i < rest.len() && cells_of(rest)[i] == p;
                assert(cells_of(robots)[i] == p);
            }
            if p == q {
                assert(cells_of(robots)[robots.len() - 1] == p);
            }
        }
        if !o.contains(q) {
            assert forall|p: Point| o.push(q).contains(p) <==> (o.contains(p) || p == q) by {
                if o.push(q).contains(p) {
                    let i = choose|i: int| 0 <= i < o.len() + 1 && o.push(q)[i] == p;
                    if i < o.len() {
                        assert(o[i] == p);
                    }
                }
                if o.contains(p) {
                    let i = choose|i: int| 0 <= i < o.len() && o[i] == p;
                    assert(o.push(q)[i] == p);
                }
                if p == q {
                    assert(o.push(q)[o.len() as int] == p);
                }
            }
        }
    }
}

proof fn lemma_drop_point_contents(s: Seq<Point>, p: Point)
    requires
        distinct_cells(s),
    ensures
        distinct_cells(crate::conduct::drop_point(s, p)),
        forall|x: Point| crate::conduct::drop_point(s, p).contains(x) <==> (s.contains(x) && x != p),
    decreases s.len(),
{
    let d = crate::conduct::drop_point(s, p);
    if s.len() > 0 {
        let t = s.drop_first();
        assert(distinct_cells(t)) by {
            assert forall|i: int, j: int| 0 <= i < t.len() && 0 <= j < t.len() && i != j implies t[i] != t[j] by {
                assert(t[i] == s[i + 1]);
                assert(t[j] == s[j + 1]);
            }
        }
        assert forall|x: Point| s.contains(x) <==> (x == s[0] || t.contains(x)) by {
            if s.contains(x) {
                let i = choose|i: int| 0 <= i < s.len() && s[i] == x;
                if i > 0 {
                    assert(t[i - 1] == x);
                }
            }
            if t.contains(x) {
                let i = choose|i: int| 0 <= i < t.len() && t[i] == x;
                assert(s[i + 1] == x);
            }
        }
        assert(!t.contains(s[0])) by {
            if t.contains(s[0]) {
                let i = choose|i: int| 0 <= i < t.len() && t[i] == s[0];
                assert(s[i + 1] == s[0]);
            }
        }
        if s[0] == p {
            assert(d == t);
        } else {
            lemma_drop_point_contents(t, p);
            let dt = crate::conduct::drop_point(t, p);
            assert(d == seq![s[0]] + dt);
            assert forall|x: Point| d.contains(x) <==> (x == s[0] || dt.contains(x)) by {
                if d.contains(x) {
                    let i = choose|i: int| 0 <= i < d.len() && d[i] == x;
                    if i > 0 {
                        assert(dt[i - 1] == x);
                    }
                }
                if dt.contains(x) {
                    let i = choose|i: int| 0 <= i < dt.len() && dt[i] == x;
                    assert(d[i + 1] == x);
                }
                if x == s[0] {
                    assert(d[0] == x);
                }
            }
            assert forall|i: int, j: int| 0 <= i < d.len() && 0 <= j < d.len() && i != j implies d[i] != d[j] by {
                if i > 0 && j > 0 {
                    assert(d[i] == dt[i - 1]);
                    assert(d[j] == dt[j - 1]);
                } else if i == 0 {
                    assert(d[j] == dt[j - 1]);
                    assert(dt.contains(dt[j - 1]));
                } else {
                    assert(d[i] == dt[i - 1]);
                    assert(dt.contains(dt[i - 1]));
                }
            }
        }
    }
}

/// The cells stood on once the first `k` robots have acted: those robots
/// stand where `r1s` puts them, the others where `r0s` does.
pub open spec fn cells_midway(r0s: Seq<Robot>, r1s: Seq<Robot>, k: int) -> Seq<Point> {
    Seq::new(r0s.len(), |j: int| if j < k { r1s[j].at() } else { r0s[j].at() })
}

/// The robots up to `k` have moved, the cells are distinct, and the occupied
/// list holds exactly the cells stood on.
pub open spec fn midway_ok(r0s: Seq<Robot>, r1s: Seq<Robot>, occs: Seq<Seq<Point>>, k: int) -> bool {
    &&& distinct_cells(cells_midway(r0s, r1s, k))
    &&& distinct_cells(occs[k])
    &&& forall|p: Point| occs[k].contains(p) <==> cells_midway(r0s, r1s, k).contains(p)
}

proof fn lemma_apart_upto(
    r0s: Seq<Robot>,
    r1s: Seq<Robot>,
    known: Seq<ResourceDiscovery>,
    ms: Seq<TileMap>,
    occs: Seq<Seq<Point>>,
    sents: Seq<Seq<RobotMessage>>,
    ds: Seq<Option<(u32, u32)>>,
    k: int,
)
    requires
        shared_chain(r0s, r1s, known, ms, occs, sents, ds),
        0 <= k <= r0s.len(),
        midway_ok(r0s, r1s, occs, 0),
    ensures
        midway_ok(r0s, r1s, occs, k),
    decreases k,
{
    if k > 0 {
        lemma_apart_upto(r0s, r1s, known, ms, occs, sents, ds, k - 1);
        lemma_apart_step(r0s, r1s, known, ms, occs, sents, ds, k - 1);
    }
}

proof fn lemma_apart_step(
    r0s: Seq<Robot>,
    r1s: Seq<Robot>,
    known: Seq<ResourceDiscovery>,
    ms: Seq<TileMap>,
    occs: Seq<Seq<Point>>,
    sents: Seq<Seq<RobotMessage>>,
    ds: Seq<Option<(u32, u32)>>,
    k: int,
)
    requires
        shared_chain(r0s, r1s, known, ms, occs, sents, ds),
        0 <= k < r0s.len(),
        midway_ok(r0s, r1s, occs, k),
    ensures
        midway_ok(r0s, r1s, occs, k + 1),
{
        let c = cells_midway(r0s, r1s, k);
        let c2 = cells_midway(r0s, r1s, k + 1);
        assert(robot_update_shared(r0s[k], ms[k], known, occs[k], r1s[k], ms[k + 1], occs[k + 1], sents[k], ds[k]));
        crate::conduct::lemma_shared_moves(r0s[k], ms[k], known, occs[k], r1s[k], ms[k + 1], occs[k + 1], sents[k], ds[k]);
        let p = r0s[k].at();
        let q = r1s[k].at();
        assert(c[k] == p);
        assert(c2 =~= c.update(k, q));
        if q == p {
            assert(c2 =~= c);
        } else {
            assert(!occs[k].contains(q));
            assert(!c.contains(q));
            lemma_drop_point_contents(occs[k], p);
            let d = crate::conduct::drop_point(occs[k], p);
            assert(!d.contains(q));
            assert forall|i: int, j: int| 0 <= i < c2.len() && 0 <= j < c2.len() && i != j implies c2[i] != c2[j] by {
                if i == k {
                    assert(c.contains(c[j]));
                } else if j == k {
                    assert(c.contains(c[i]));
                }
            }
            assert forall|x: Point| occs[k + 1].contains(x) <==> c2.contains(x) by {
                assert(occs[k + 1] == d.push(q));
                if occs[k + 1].contains(x) {
                    let i = choose|i: int| 0 <= i < d.len() + 1 && d.push(q)[i] == x;
                    if i < d.len() {
                        assert(d[i] == x);
                        assert(d.contains(x));
                        assert(occs[k].contains(x));
                        assert(c.contains(x) && x != p);
                        let j = choose|j: int| 0 <= j < c.len() && c[j] == x;
                        assert(j != k);
                        assert(c2[j] == x);
                    } else {
                        assert(c2[k] == x);
                    }
                }
                if c2.contains(x) {
                    let j = choose|j: int| 0 <= j < c2.len() && c2[j] == x;
                    if j == k {
                        assert(d.push(q)[d.len() as int] == x);
                    } else {
                        assert(c[j] == x);
                        assert(c.contains(x));
                        assert(x != p);
                        assert(occs[k].contains(x));
                        assert(d.contains(x));
                        let i = choose|i: int| 0 <= i < d.len() && d[i] == x;
                        assert(d.push(q)[i] == x);
                    }
                }
            }
            let o = d.push(q);
            assert(occs[k + 1] == o);
            assert forall|i: int, j: int| 0 <= i < o.len() && 0 <= j < o.len() && i != j implies o[i] != o[j] by {
                if i < d.len() && j < d.len() {
                    assert(o[i] == d[i]);
                    assert(o[j] == d[j]);
                } else if i < d.len() {
                    assert(o[i] == d[i]);
                    assert(d.contains(d[i]));
                } else {
                    assert(o[j] == d[j]);
                    assert(d.contains(d[j]));
                }
            }
        }
}

/// Robots that keep off each other's cells during a tick stand on distinct
/// cells after it when they did before it: no two robots ever share a cell.
pub proof fn lemma_robots_stay_apart(
    r0s: Seq<Robot>,
    m0: TileMap,
    known: Seq<ResourceDiscovery>,
    r1s: Seq<Robot>,
    m1: TileMap,
    mail: Seq<RobotMessage>,
    ds: Seq<Option<(u32, u32)>>,
)
    requires
        robots_move_together(r0s, m0, known, r1s, m1, mail, ds),
        apart(r0s),
    ensures
        apart(r1s),
{
    let (ms, occs, sents) = choose|ms: Seq<TileMap>, occs: Seq<Seq<Point>>, sents: Seq<Seq<RobotMessage>>|
        {
            &&& #[trigger] shared_chain(r0s, r1s, known, ms, occs, sents, ds)
            &&& ms[0] == m0
            &&& ms.last() == m1
            &&& occs[0] == occupancy(r0s)
            &&& mail == concat_all(sents)
        };
    let n = r0s.len() as int;
    lemma_occupancy(r0s);
    assert(cells_midway(r0s, r1s, 0) =~= cells_of(r0s));
    lemma_apart_upto(r0s, r1s, known, ms, occs, sents, ds, n);
    assert(cells_midway(r0s, r1s, n) =~= cells_of(r1s));
}

proof fn lemma_without_on_map(map: TileMap, known: Seq<ResourceDiscovery>, p: Point)
    requires
        all_on_map(map, known),
    ensures
        all_on_map(map, without_position(known, p)),
    decreases known.len(),
{
    if known.len() > 0 {
        let rest = known.drop_last();
        assert(all_on_map(map, rest)) by {
            assert forall|i: int| 0 <= i < rest.len() implies map.inside((#[trigger] rest[i]).position.x as int, rest[i].position.y as int) by {
                assert(rest[i] == known[i]);
            }
        }
        lemma_without_on_map(map, rest, p);
        let a = without_position(rest, p);
        let b = if known.last().position == p { Seq::<ResourceDiscovery>::empty() } else { seq![known.last()] };
        assert(without_position(known, p) == a + b);
        assert forall|i: int| 0 <= i < (a + b).len() implies map.inside((#[trigger] (a + b)[i]).position.x as int, (a + b)[i].position.y as int) by {
            if i < a.len() {
                assert((a + b)[i] == a[i]);
            } else {
                assert((a + b)[i] == b[i - a.len()]);
                assert(known[known.len() - 1] == known.last());
            }
        }
    }
}

proof fn lemma_without_unique(known: Seq<ResourceDiscovery>, p: Point)
    requires
        unique_cells(known),
    ensures
        unique_cells(without_position(known, p)),
        forall|q: Point| knows_position(without_position(known, p), q) ==> knows_position(known, q),
    decreases known.len(),
{
    if known.len() > 0 {
        let rest = known.drop_last();
        assert(unique_cells(rest)) by {
            assert forall|i: int, j: int| 0 <= i < rest.len() && 0 <= j < rest.len() && i != j implies rest[i].position != rest[j].position by {
                assert(rest[i] == known[i]);
                assert(rest[j] == known[j]);
            }
        }
        lemma_without_unique(rest, p);
        let a = without_position(rest, p);
        let b = if known.last().position == p { Seq::<ResourceDiscovery>::empty() } else { seq![known.last()] };
        assert(without_position(known, p) == a + b);
        assert forall|q: Point| knows_position(rest, q) implies knows_position(known, q) by {
            let i = choose|i: int| 0 <= i < rest.len() && (#[trigger] rest[i]).position == q;
            assert(known[i] == rest[i]);
        }
        assert(!knows_position(rest, known.last().position)) by {
            if knows_position(rest, known.last().position) {
                let i = choose|i: int| 0 <= i < rest.len() && (#[trigger] rest[i]).position == known.last().position;
                assert(known[i] == rest[i]);
                assert(known[known.len() - 1] == known.last());
            }
        }
        let ab = a + b;
        assert forall|q: Point| knows_position(ab, q) implies knows_position(known, q) by {
            let i = choose|i: int| 0 <= i < ab.len() && (#[trigger] ab[i]).position == q;
            if i < a.len() {
                assert(ab[i] == a[i]);
                assert(knows_position(a, q));
            } else {
                assert(ab[i] == b[i - a.len()]);
                assert(known[known.len() - 1] == known.last());
            }
        }
        assert forall|i: int, j: int| 0 <= i < ab.len() && 0 <= j < ab.len() && i != j implies ab[i].position != ab[j].position by {
            if i < a.len() && j < a.len() {
                assert(ab[i] == a[i]);
                assert(ab[j] == a[j]);
            } else if i < a.len() {
                assert(ab[i] == a[i]);
                assert(knows_position(a, a[i].position));
            } else if j < a.len() {
                assert(ab[j] == a[j]);
                assert(knows_position(a, a[j].position));
            }
        }
    }
}

proof fn lemma_absorb_unique(known: Seq<ResourceDiscovery>, mail: Seq<RobotMessage>)
    requires
        unique_cells(known),
    ensures
        unique_cells(absorb(known, mail)),
    decreases mail.len(),
{
    if mail.len() > 0 {
        lemma_absorb_unique(known, mail.drop_last());
        let before = absorb(known, mail.drop_last());
        match mail.last() {
            RobotMessage::ResourceFound(d) => crate::knowledge::lemma_remember_unique(before, d),
            RobotMessage::ResourceDepleted(p) => lemma_without_unique(before, p),
            RobotMessage::ObstacleFound(_) => {},
        }
    }
}

/// A copy of the known resources.
fn snapshot(known: &Vec<ResourceDiscovery>) -> (r: Vec<ResourceDiscovery>)
    ensures
        r@ == known@,
{
    let mut r: Vec<ResourceDiscovery> = Vec::new();
    let mut i: usize = 0;
    while i < known.len()
        invariant
            i <= known@.len(),
            r@ == known@.take(i as int),
        decreases known.len() - i,
    {
        r.push(known[i]);
        assert(r@ =~= known@.take(i + 1));
        i += 1;
    }
    assert(known@.take(known@.len() as int) =~= known@);
    r
}

/// The cells the robots stand on, each once.
fn occupied_cells(robots: &Vec<Robot>) -> (r: Vec<Point>)
    ensures
        r@ == occupancy(robots@),
{
    let mut r: Vec<Point> = Vec::new();
    let mut i: usize = 0;
    while i < robots.len()
        invariant
            i <= robots@.len(),
            r@ == occupancy(robots@.take(i as int)),
        decreases robots.len() - i,
    {
        assert(robots@.take(i + 1).drop_last() =~= robots@.take(i as int));
        visit_cell(&mut r, robots[i].position());
        i += 1;
    }
    assert(robots@.take(robots@.len() as int) =~= robots@);
    r
}

/// Drops every entry at `p`.
fn drop_position(known: &mut Vec<ResourceDiscovery>, p: Point)
    ensures
        final(known)@ == without_position(old(known)@, p),
{
    let ghost k0 = known@;
    let mut kept: Vec<ResourceDiscovery> = Vec::new();
    let mut i: usize = 0;
    while i < known.len()
        invariant
            known@ == k0,
            i <= k0.len(),
            kept@ == without_position(k0.take(i as int), p),
        decreases known.len() - i,
    {
        assert(k0.take(i + 1).drop_last() =~= k0.take(i as int));
        let entry = known[i];
        if entry.position != p {
            kept.push(entry);
        }
        assert(kept@ =~= without_position(k0.take(i + 1), p));
        i += 1;
    }
    assert(k0.take(k0.len() as int) =~= k0);
    *known = kept;
}

impl World {
    /// Everything a tick needs: the map is well formed, the collectors have
    /// it within reach and carry countable loads, and the known resources
    /// lie on it.
    pub open spec fn wf(&self) -> bool {
        &&& self.map.wf()
        &&& robots_fit(self.map, self.robots@)
        &&& all_on_map(self.map, self.known_resources@)
    }

    /// A world on a freshly generated map (see `TileMap::new`), with two
    /// scouts and three collectors set down on and around the base, nothing
    /// known yet and nothing collected.
    pub fn new(width: usize, height: usize, obstacles: &Vec<Vec<bool>>) -> (w: World)
        requires
            0 < width,
            0 < height,
            width + height <= usize::MAX,
            obstacles@.len() == height,
            forall|y: int| 0 <= y < height ==> (#[trigger] obstacles@[y])@.len() == width,
        ensures
            w.wf(),
            is_generated(w.map, width, height, rows_of(obstacles@)),
            w.robots@.len() == crate::robot::crew().len(),
            forall|i: int|
                0 <= i < crate::robot::crew().len() ==> crate::robot::fresh_robot(
                    #[trigger] w.robots@[i],
                    spawn_points(w.map.base, width, height)[i],
                    crate::robot::crew()[i],
                ),
            w.known_resources@ == Seq::<ResourceDiscovery>::empty(),
            3 <= width && 3 <= height ==> apart(w.robots@),
            forall|i: int| 0 <= i < w.robots@.len() ==> on_open_ground(w.map, #[trigger] w.robots@[i]),
            w.known_obstacles@ == Seq::<Point>::empty(),
            w.total_energy == 0,
            w.total_crystals == 0,
            w.tick == 0,
    {
        let map = TileMap::new(width, height, obstacles);
        let base = map.base;
        let left = if base.x == 0 { 0 } else { base.x - 1 };
        let right = if base.x + 1 < width { base.x + 1 } else { width - 1 };
        let up = if base.y == 0 { 0 } else { base.y - 1 };
        let down = if base.y + 1 < height { base.y + 1 } else { height - 1 };
        let mut robots: Vec<Robot> = Vec::new();
        robots.push(Robot::new(base.x, base.y, RobotType::Scout));
        robots.push(Robot::new(right, base.y, RobotType::Scout));
        robots.push(Robot::new(left, base.y, RobotType::Collector));
        robots.push(Robot::new(base.x, down, RobotType::Collector));
        robots.push(Robot::new(base.x, up, RobotType::Collector));
        proof {
            let pts = spawn_points(base, width, height);
            assert forall|i: int| 0 <= i < 5 implies on_open_ground(map, #[trigger] robots@[i]) by {
                let p = robots@[i].at();
                assert(map.inside(p.x as int, p.y as int));
                assert(crate::map::near_base(map.base, p.x as int, p.y as int));
                assert(crate::map::generated_tile(
                    rows_of(obstacles@)[p.y as int][p.x as int],
                    crate::map::near_base(map.base, p.x as int, p.y as int),
                    p.x == map.base.x && p.y == map.base.y,
                    map.tile(p.x as int, p.y as int),
                ));
            }
            if 3 <= width && 3 <= height {
                let c = cells_of(robots@);
                assert(c =~= spawn_points(base, width, height));
            }
        }
        World {
            map,
            robots,
            known_resources: Vec::new(),
            known_obstacles: Vec::new(),
            total_energy: 0,
            total_crystals: 0,
            tick: 0,
        }
    }

    /// One round of the simulation. Every robot in turn updates on the map
    /// left by the robots before it and on a snapshot of the known resources
    /// taken at the start, keeping off the cells other robots stand on and
    /// sending its reports to the world's mailbox; the loads delivered are
    /// added to the totals (stopping at `u32::MAX`). The world then reads
    /// the mailbox in order, and drops known resources whose tile has been
    /// emptied.
    pub fn tick(&mut self)
        requires
            old(self).wf(),
        ensures
            final(self).wf(),
            final(self).tick == old(self).tick.wrapping_add(1),
            exists|mail: Seq<RobotMessage>, ds: Seq<Option<(u32, u32)>>|
                {
                    &&& #[trigger] robots_move_together(
                        old(self).robots@,
                        old(self).map,
                        old(self).known_resources@,
                        final(self).robots@,
                        final(self).map,
                        mail,
                        ds,
                    )
                    &&& final(self).known_resources@ == present_only(
                        final(self).map,
                        absorb(old(self).known_resources@, mail),
                    )
                    &&& final(self).known_obstacles@ == absorb_obstacles(old(self).known_obstacles@, mail)
                    &&& old(self).total_energy + handed_sum(ds, true) <= u32::MAX ==> units_in_play(
                        final(self).total_energy,
                        final(self).robots@,
                        final(self).map,
                        true,
                    ) == units_in_play(old(self).total_energy, old(self).robots@, old(self).map, true)
                    &&& old(self).total_crystals + handed_sum(ds, false) <= u32::MAX ==> units_in_play(
                        final(self).total_crystals,
                        final(self).robots@,
                        final(self).map,
                        false,
                    ) == units_in_play(old(self).total_crystals, old(self).robots@, old(self).map, false)
                    &&& forall|p: Point| #[trigger] last_word_depleted(mail, p) ==> !knows_position(final(self).known_resources@, p)
                    &&& forall|p: Point| #[trigger] last_word_found(mail, p) && !(final(self).map.tile(p.x as int, p.y as int) is Empty)
                        ==> knows_position(final(self).known_resources@, p)
                    &&& final(self).total_energy == add_energy(old(self).total_energy, ds)
                    &&& final(self).total_crystals == add_crystals(old(self).total_crystals, ds)
                },
            apart(old(self).robots@) ==> apart(final(self).robots@),
            forall|i: int| 0 <= i < final(self).known_resources@.len() ==> still_there(
                final(self).map,
                #[trigger] final(self).known_resources@[i],
            ),
            unique_cells(old(self).known_resources@) ==> unique_cells(final(self).known_resources@),
            final(self).robots@.len() == old(self).robots@.len(),
            forall|i: int| 0 <= i < old(self).robots@.len() ==> (#[trigger] final(self).robots@[i]).robot_type
                == old(self).robots@[i].robot_type,
            (forall|i: int| 0 <= i < old(self).robots@.len() ==> (#[trigger] old(self).robots@[i]).cargo() <= full_load())
                ==> (forall|i: int| 0 <= i < final(self).robots@.len() ==> (#[trigger] final(self).robots@[i]).cargo()
                <= full_load()),
            final(self).total_energy >= old(self).total_energy,
            final(self).total_crystals >= old(self).total_crystals,
            same_terrain(old(self).map, final(self).map),
            crate::conduct::worn_map(old(self).map, final(self).map),
            (forall|i: int| 0 <= i < old(self).robots@.len() ==> on_open_ground(old(self).map, #[trigger] old(self).robots@[i]))
                ==> (forall|i: int| 0 <= i < final(self).robots@.len() ==> on_open_ground(final(self).map, #[trigger] final(self).robots@[i])),
            forall|i: int| 0 <= i < final(self).robots@.len() ==> (#[trigger] final(self).robots@[i]).at() == old(self).robots@[i].at()
                || on_open_ground(final(self).map, final(self).robots@[i]),
            forall|i: int| 0 <= i < final(self).robots@.len() ==> distinct_cells(old(self).robots@[i].visited@) ==> distinct_cells(
                (#[trigger] final(self).robots@[i]).visited@,
            ),
            (forall|i: int| 0 <= i < old(self).known_obstacles@.len() ==> obstacle_at(old(self).map, #[trigger] old(self).known_obstacles@[i]))
                ==> (forall|i: int| 0 <= i < final(self).known_obstacles@.len() ==> obstacle_at(final(self).map, #[trigger] final(self).known_obstacles@[i])),
            distinct_cells(old(self).known_obstacles@) ==> distinct_cells(final(self).known_obstacles@),
            final(self).known_obstacles@.len() >= old(self).known_obstacles@.len(),
            final(self).known_obstacles@.take(old(self).known_obstacles@.len() as int) == old(self).known_obstacles@,
    {
        self.tick = self.tick.wrapping_add(1);
        let ghost t1 = self.tick;
        let ghost r0s = self.robots@;
        let ghost m0 = self.map;
        let ghost grounded = forall|j: int| 0 <= j < r0s.len() ==> on_open_ground(m0, #[trigger] r0s[j]);
        let ghost k0 = self.known_resources@;
        let ghost o0 = self.known_obstacles@;
        let ghost real0 = forall|j: int| 0 <= j < o0.len() ==> obstacle_at(m0, #[trigger] o0[j]);
        let ghost e0 = self.total_energy;
        let ghost c0 = self.total_crystals;
        let known = snapshot(&self.known_resources);
        let mut occupied = occupied_cells(&self.robots);
        let mut mailbox: Vec<RobotMessage> = Vec::new();
        let ghost mass_e = units_in_play(e0, r0s, m0, true);
        let ghost mass_c = units_in_play(c0, r0s, m0, false);
        let mut waiting: Vec<Robot> = Vec::new();
        std::mem::swap(&mut waiting, &mut self.robots);
        let n = waiting.len();
        proof {
            assert(self.robots@ + r0s.skip(0) =~= r0s);
        }
        let ghost mut ms: Seq<TileMap> = seq![m0];
        let ghost mut occs: Seq<Seq<Point>> = seq![occupied@];
        let ghost mut sents: Seq<Seq<RobotMessage>> = seq![];
        let ghost mut ds: Seq<Option<(u32, u32)>> = seq![];
        let mut i: usize = 0;
        while i < n
            invariant
                n == r0s.len(),
                self.tick == t1,
                self.known_resources@ == k0,
                self.known_obstacles@ == o0,
                known@ == k0,
                i <= n,
                waiting@ == r0s.skip(i as int),
                self.robots@.len() == i,
                shared_chain(r0s.take(i as int), self.robots@, k0, ms, occs, sents, ds),
                ms[0] == m0,
                occs[0] == occupancy(r0s),
                ms.last() == self.map,
                occs.last() == occupied@,
                concat_all(sents) == mailbox@,
                self.map.wf(),
                self.map.width == m0.width,
                self.map.height == m0.height,
                robots_fit(m0, r0s),
                robots_fit(self.map, self.robots@),
                all_on_map(m0, k0),
                reports_on_map(m0, mailbox@),
                obstacles_real(self.map, mailbox@),
                self.total_energy == add_energy(e0, ds),
                self.total_crystals == add_crystals(c0, ds),
                same_terrain(m0, self.map),
                grounded == forall|j: int| 0 <= j < r0s.len() ==> on_open_ground(m0, #[trigger] r0s[j]),
                grounded ==> forall|j: int| 0 <= j < i ==> on_open_ground(m0, #[trigger] self.robots@[j]),
                forall|j: int| 0 <= j < i ==> (#[trigger] self.robots@[j]).at() == r0s[j].at() || on_open_ground(m0, self.robots@[j]),
                crate::conduct::worn_map(m0, self.map),
                forall|j: int| 0 <= j < i ==> distinct_cells(r0s[j].visited@) ==> distinct_cells((#[trigger] self.robots@[j]).visited@),
                mass_e == units_in_play(e0, r0s, m0, true),
                mass_c == units_in_play(c0, r0s, m0, false),
                e0 + handed_sum(ds, true) <= u32::MAX ==> units_in_play(self.total_energy, self.robots@ + r0s.skip(i as int), self.map, true) == mass_e,
                c0 + handed_sum(ds, false) <= u32::MAX ==> units_in_play(self.total_crystals, self.robots@ + r0s.skip(i as int), self.map, false) == mass_c,
            decreases n - i,
        {
            let ghost m_before = self.map;
            let ghost occ_before = occupied@;
            let ghost mb_before = mailbox@;
            let ghost te_before = self.total_energy;
            let ghost tc_before = self.total_crystals;
            let ghost rob_before = self.robots@;
            let mut robot = waiting.remove(0);
            proof {
                assert(robot == r0s[i as int]);
                assert(robots_fit(m0, r0s));
            }
            let delivered = robot.update_shared(&mut self.map, &known, &mut mailbox, &mut occupied);
            match delivered {
                Some((energy, crystals)) => {
                    self.total_energy = self.total_energy.saturating_add(energy);
                    self.total_crystals = self.total_crystals.saturating_add(crystals);
                },
                None => {},
            }
            self.robots.push(robot);
            proof {
                assert(r0s.skip(i as int) =~= seq![r0s[i as int]] + r0s.skip(i + 1));
                assert(self.robots@ == rob_before.push(robot));
                let ghost ds_next = ds.push(delivered);
                assert(ds_next.drop_last() =~= ds);
                crate::robot::lemma_totals_exact(e0, ds);
                crate::robot::lemma_totals_exact(c0, ds);
                if e0 + handed_sum(ds_next, true) <= u32::MAX {
                    crate::conduct::lemma_shared_units(r0s[i as int], m_before, k0, occ_before, robot, self.map, occupied@,
                        mailbox@.skip(mb_before.len() as int), delivered, true);
                    crate::robot::lemma_turn_keeps_units(te_before, self.total_energy, rob_before, r0s[i as int], robot,
                        r0s.skip(i + 1), m_before, self.map, delivered, true);
                }
                if c0 + handed_sum(ds_next, false) <= u32::MAX {
                    crate::conduct::lemma_shared_units(r0s[i as int], m_before, k0, occ_before, robot, self.map, occupied@,
                        mailbox@.skip(mb_before.len() as int), delivered, false);
                    crate::robot::lemma_turn_keeps_units(tc_before, self.total_crystals, rob_before, r0s[i as int], robot,
                        r0s.skip(i + 1), m_before, self.map, delivered, false);
                }
                crate::conduct::lemma_shared_visited(
                    r0s[i as int],
                    m_before,
                    k0,
                    occ_before,
                    robot,
                    self.map,
                    occupied@,
                    mailbox@.skip(mb_before.len() as int),
                    delivered,
                );
                assert forall|j: int| 0 <= j < i + 1 implies distinct_cells(r0s[j].visited@) ==> distinct_cells(
                    (#[trigger] self.robots@[j]).visited@,
                ) by {
                    if j < i {
                        assert(self.robots@.drop_last()[j] == self.robots@[j]);
                    }
                }
                crate::conduct::lemma_shared_wears(
                    r0s[i as int],
                    m_before,
                    k0,
                    occ_before,
                    robot,
                    self.map,
                    occupied@,
                    mailbox@.skip(mb_before.len() as int),
                    delivered,
                );
                crate::conduct::lemma_worn_trans(m0, m_before, self.map);
                crate::conduct::lemma_shared_terrain(
                    r0s[i as int],
                    m_before,
                    k0,
                    occ_before,
                    robot,
                    self.map,
                    occupied@,
                    mailbox@.skip(mb_before.len() as int),
                    delivered,
                );
                assert forall|j: int| 0 <= j < i + 1 implies (#[trigger] self.robots@[j]).at() == r0s[j].at()
                    || on_open_ground(m0, self.robots@[j]) by {
                    if j < i {
                        assert(self.robots@.drop_last()[j] == self.robots@[j]);
                    }
                }
                if grounded {
                    assert(on_open_ground(m0, r0s[i as int]));
                    assert forall|j: int| 0 <= j < i + 1 implies on_open_ground(m0, #[trigger] self.robots@[j]) by {
                        if j < i {
                            assert(self.robots@.drop_last()[j] == self.robots@[j]);
                        }
                    }
                }
                crate::conduct::lemma_shared_keeps_load(
                    r0s[i as int],
                    m_before,
                    k0,
                    occ_before,
                    robot,
                    self.map,
                    occupied@,
                    mailbox@.skip(mb_before.len() as int),
                    delivered,
                );
                let sent = mailbox@.skip(mb_before.len() as int);
                assert(mailbox@ =~= mb_before + sent);
                crate::conduct::lemma_terrain_obstacles(m_before, self.map, mb_before);
                crate::conduct::lemma_terrain_obstacles(m_before, self.map, sent);
                assert forall|q: int| 0 <= q < mailbox@.len() implies (#[trigger] mailbox@[q] matches RobotMessage::ObstacleFound(pp)
                    ==> obstacle_at(self.map, pp)) by {
                    if q < mb_before.len() {
                        assert(mailbox@[q] == mb_before[q]);
                    } else {
                        assert(mailbox@[q] == sent[q - mb_before.len()]);
                    }
                }
                assert forall|q: int| 0 <= q < mailbox@.len() implies (#[trigger] mailbox@[q] matches RobotMessage::ResourceFound(d)
                    ==> m0.inside(d.position.x as int, d.position.y as int)) by {
                    if q < mb_before.len() {
                        assert(mailbox@[q] == mb_before[q]);
                    } else {
                        assert(mailbox@[q] == sent[q - mb_before.len()]);
                    }
                }
                let ms2 = ms.push(self.map);
                let occs2 = occs.push(occupied@);
                let sents2 = sents.push(sent);
                let ds2 = ds.push(delivered);
                assert(ds2.drop_last() =~= ds);
                assert(sents2.drop_last() =~= sents);
                assert forall|j: int| 0 <= j < i + 1 implies #[trigger] robot_update_shared(
                    r0s.take(i + 1)[j],
                    ms2[j],
                    k0,
                    occs2[j],
                    self.robots@[j],
                    ms2[j + 1],
                    occs2[j + 1],
                    sents2[j],
                    ds2[j],
                ) by {
                    if j == i {
                        assert(r0s.take(i + 1)[j] == r0s[i as int]);
                    } else {
                        assert(r0s.take(i as int)[j] == r0s.take(i + 1)[j]);
                        assert(robot_update_shared(
                            r0s.take(i as int)[j],
                            ms[j],
                            k0,
                            occs[j],
                            self.robots@[j],
                            ms[j + 1],
                            occs[j + 1],
                            sents[j],
                            ds[j],
                        ));
                    }
                }
                assert(shared_chain(r0s.take(i + 1), self.robots@, k0, ms2, occs2, sents2, ds2));
                ms = ms2;
                occs = occs2;
                sents = sents2;
                ds = ds2;
                assert forall|j: int| 0 <= j < self.robots@.len() && (#[trigger] self.robots@[j]).robot_type is Collector
                    implies within_reach(self.map, self.robots@[j].at()) && self.robots@[j].cargo() <= u32::MAX by {
                    if j < i {
                        assert(self.robots@.drop_last()[j] == self.robots@[j]);
                        assert(robots_fit(m_before, self.robots@.drop_last()));
                    }
                }
            }
            i += 1;
        }
        proof {
            assert(r0s.take(n as int) =~= r0s);
            assert(robots_move_together(r0s, m0, k0, self.robots@, self.map, mailbox@, ds));
        }
        // Read the mailbox.
        proof {
            if real0 {
                assert forall|j: int| 0 <= j < o0.len() implies obstacle_at(self.map, #[trigger] o0[j]) by {
                    assert(obstacle_at(m0, o0[j]));
                    assert(self.map.walkable_at(o0[j].x as int, o0[j].y as int) == m0.walkable_at(o0[j].x as int, o0[j].y as int));
                }
            }
        }
        let ghost mail = mailbox@;
        let ghost r1s = self.robots@;
        let ghost e1 = self.total_energy;
        let ghost c1 = self.total_crystals;
        let ghost m1 = self.map;
        let mut k: usize = 0;
        while k < mailbox.len()
            invariant
                mailbox@ == mail,
                k <= mail.len(),
                self.tick == t1,
                self.map.wf(),
                self.map.width == m0.width,
                self.map.height == m0.height,
                all_on_map(self.map, self.known_resources@),
                reports_on_map(self.map, mail),
                obstacles_real(self.map, mail),
                real0 == forall|j: int| 0 <= j < o0.len() ==> obstacle_at(m0, #[trigger] o0[j]),
                real0 ==> forall|j: int| 0 <= j < self.known_obstacles@.len() ==> obstacle_at(self.map, #[trigger] self.known_obstacles@[j]),
                distinct_cells(o0) ==> distinct_cells(self.known_obstacles@),
                self.robots@ == r1s,
                self.map == m1,
                same_terrain(m0, self.map),
                grounded ==> forall|q: int| 0 <= q < r0s.len() ==> on_open_ground(m0, #[trigger] r1s[q]),
                crate::conduct::worn_map(m0, m1),
                forall|q: int| 0 <= q < r0s.len() ==> distinct_cells(r0s[q].visited@) ==> distinct_cells((#[trigger] r1s[q]).visited@),
                forall|q: int| 0 <= q < r0s.len() ==> (#[trigger] r1s[q]).at() == r0s[q].at() || on_open_ground(m0, r1s[q]),
                self.total_energy == e1,
                self.total_crystals == c1,
                robots_fit(self.map, self.robots@),
                self.known_resources@ == absorb(k0, mail.take(k as int)),
                self.known_obstacles@ == absorb_obstacles(o0, mail.take(k as int)),
            decreases mail.len() - k,
        {
            assert(mail.take(k + 1).drop_last() =~= mail.take(k as int));
            match mailbox[k] {
                RobotMessage::ResourceFound(discovery) => {
                    proof {
                        assert(mail[k as int] == RobotMessage::ResourceFound(discovery));
                    }
                    Robot::remember_resource(&mut self.known_resources, discovery);
                },
                RobotMessage::ResourceDepleted(point) => {
                    proof {
                        lemma_without_on_map(self.map, self.known_resources@, point);
                    }
                    drop_position(&mut self.known_resources, point);
                },
                RobotMessage::ObstacleFound(point) => {
                    let ghost before = self.known_obstacles@;
                    proof {
                        assert(mail[k as int] == RobotMessage::ObstacleFound(point));
                    }
                    visit_cell(&mut self.known_obstacles, point);
                    proof {
                        lemma_visit_distinct(before, point);
                        if real0 {
                            assert forall|j: int| 0 <= j < self.known_obstacles@.len() implies obstacle_at(self.map, #[trigger] self.known_obstacles@[j]) by {
                                if j < before.len() {
                                    assert(self.known_obstacles@[j] == before[j]);
                                }
                            }
                        }
                    }
                },
            }
            k += 1;
        }
        assert(mail.take(mail.len() as int) =~= mail);
        let ghost k_mid = self.known_resources@;
        let ghost o1 = self.known_obstacles@;
        let listed = self.known_resources.len();
        let mut kept: Vec<ResourceDiscovery> = Vec::new();
        let mut j: usize = 0;
        while j < listed
            invariant
                j <= listed,
                self.tick == t1,
                listed == k_mid.len(),
                self.known_resources@ == k_mid,
                self.map.wf(),
                all_on_map(self.map, k_mid),
                kept@ == present_only(self.map, k_mid.take(j as int)),
                self.known_obstacles@ == o1,
                real0 == forall|q: int| 0 <= q < o0.len() ==> obstacle_at(m0, #[trigger] o0[q]),
                real0 ==> forall|q: int| 0 <= q < o1.len() ==> obstacle_at(self.map, #[trigger] o1[q]),
                distinct_cells(o0) ==> distinct_cells(o1),
                self.robots@ == r1s,
                self.map == m1,
                same_terrain(m0, self.map),
                grounded ==> forall|q: int| 0 <= q < r0s.len() ==> on_open_ground(m0, #[trigger] r1s[q]),
                crate::conduct::worn_map(m0, m1),
                forall|q: int| 0 <= q < r0s.len() ==> distinct_cells(r0s[q].visited@) ==> distinct_cells((#[trigger] r1s[q]).visited@),
                forall|q: int| 0 <= q < r0s.len() ==> (#[trigger] r1s[q]).at() == r0s[q].at() || on_open_ground(m0, r1s[q]),
                self.total_energy == e1,
                self.total_crystals == c1,
                robots_fit(self.map, self.robots@),
            decreases listed - j,
        {
            let resource = self.known_resources[j];
            assert(k_mid.take(j + 1).drop_last() =~= k_mid.take(j as int));
            proof {
                assert(self.map.inside(k_mid[j as int].position.x as int, k_mid[j as int].position.y as int));
            }
            if !self.map.is_empty_at(resource.position.x, resource.position.y) {
                kept.push(resource);
            }
            assert(kept@ =~= present_only(self.map, k_mid.take(j + 1)));
            j += 1;
        }
        assert(k_mid.take(listed as int) =~= k_mid);
        self.known_resources = kept;
        proof {
            crate::robot::lemma_present_on_map(self.map, k_mid);
            assert(robots_move_together(r0s, m0, k0, r1s, m1, mail, ds));
            assert(k_mid == absorb(k0, mail));
            assert(o1 == absorb_obstacles(o0, mail));
            assert(self.known_resources@ == present_only(m1, absorb(k0, mail)));
            assert forall|p: Point| #[trigger] last_word_depleted(mail, p) implies !knows_position(self.known_resources@, p) by {
                lemma_depleted_forgotten(k0, mail, p);
                crate::robot::lemma_present_subset(m1, absorb(k0, mail), p);
            }
            assert forall|p: Point| #[trigger] last_word_found(mail, p) && !(self.map.tile(p.x as int, p.y as int) is Empty)
                implies knows_position(self.known_resources@, p) by {
                lemma_found_known(k0, mail, p);
                crate::robot::lemma_present_keeps(m1, absorb(k0, mail), p);
            }
            lemma_obstacles_grow(o0, mail);
            assert(self.known_obstacles@ == absorb_obstacles(o0, mail));
            assert(self.total_energy == add_energy(e0, ds));
            assert(self.total_crystals == add_crystals(c0, ds));
            assert(self.robots@ == r1s);
            assert(self.map == m1);
            if apart(r0s) {
                lemma_robots_stay_apart(r0s, m0, k0, r1s, m1, mail, ds);
            }
            crate::robot::lemma_totals_grow(e0, ds);
            crate::robot::lemma_totals_grow(c0, ds);
            if unique_cells(k0) {
                lemma_absorb_unique(k0, mail);
                crate::robot::lemma_present_unique(self.map, k_mid);
            }
            assert forall|i: int| 0 <= i < r0s.len() implies (#[trigger] r1s[i]).robot_type == r0s[i].robot_type
                && r1s[i].cargo() <= if r0s[i].cargo() <= full_load() { full_load() } else { r0s[i].cargo() } by {
                assert(robot_update_shared(r0s[i], ms[i], k0, occs[i], r1s[i], ms[i + 1], occs[i + 1], sents[i], ds[i]));
                crate::conduct::lemma_shared_keeps_load(r0s[i], ms[i], k0, occs[i], r1s[i], ms[i + 1], occs[i + 1], sents[i], ds[i]);
            }
        }
    }

    /// The first robot standing on `(x, y)`, if any.
    pub fn robot_at(&self, x: usize, y: usize) -> (r: Option<&Robot>)
        ensures
            r is None <==> forall|i: int| 0 <= i < self.robots@.len() ==> (#[trigger] self.robots@[i]).at() != (Point { x, y }),
            r matches Some(rb) ==> exists|i: int|
                0 <= i < self.robots@.len() && *rb == #[trigger] self.robots@[i] && rb.at() == (Point { x, y })
                    && forall|j: int| 0 <= j < i ==> self.robots@[j].at() != (Point { x, y }),
    {
        let mut i: usize = 0;
        while i < self.robots.len()
            invariant
                i <= self.robots@.len(),
                forall|j: int| 0 <= j < i ==> (#[trigger] self.robots@[j]).at() != (Point { x, y }),
            decreases self.robots.len() - i,
        {
            if self.robots[i].x == x && self.robots[i].y == y {
                return Some(&self.robots[i]);
            }
            i += 1;
        }
        None
    }

    /// The status line: energy and crystals collected, resources and
    /// obstacles known, ticks passed.
    pub fn summary(&self) -> (s: String)
        ensures
            s@ == " Énergie: "@ + crate::text::decimal(self.total_energy as nat) + "  |  Cristaux: "@
                + crate::text::decimal(self.total_crystals as nat) + "  |  Ressources connues: "@
                + crate::text::decimal(self.known_resources@.len()) + "  |  Obstacles connus: "@
                + crate::text::decimal(self.known_obstacles@.len()) + "  |  Tick: "@ + crate::text::decimal(
                self.tick as nat,
            ),
    {
        let mut s = String::from_str(" Énergie: ");
        crate::text::push_decimal(&mut s, self.total_energy as u64);
        s.append("  |  Cristaux: ");
        crate::text::push_decimal(&mut s, self.total_crystals as u64);
        s.append("  |  Ressources connues: ");
        crate::text::push_decimal(&mut s, self.known_resources.len() as u64);
        s.append("  |  Obstacles connus: ");
        crate::text::push_decimal(&mut s, self.known_obstacles.len() as u64);
        s.append("  |  Tick: ");
        crate::text::push_decimal(&mut s, self.tick);
        s
    }
}

} // verus!

//! What robots see and what they report, and how lists of known
//! resources take reports in.
use vstd::prelude::*;

use crate::map::{Tile, TileMap};
use crate::robot::{Point, ResourceDiscovery, ResourceKind, Robot, RobotMessage, manhattan_distance};

verus! {

/// What a robot reports on seeing the cell `(x, y)`: resource tiles and
/// obstacles are reported, nothing else, and nothing off the map.
pub open spec fn cell_report(map: TileMap, x: int, y: int) -> Seq<RobotMessage> {
    if !map.inside(x, y) {
        seq![]
    } else {
        let p = Point { x: x as usize, y: y as usize };
        match map.tile(x, y) {
            Tile::Energy(_) => seq![
                RobotMessage::ResourceFound(ResourceDiscovery { position: p, kind: ResourceKind::Energy }),
            ],
            Tile::Crystal(_) => seq![
                RobotMessage::ResourceFound(ResourceDiscovery { position: p, kind: ResourceKind::Crystal }),
            ],
            Tile::Obstacle => seq![RobotMessage::ObstacleFound(p)],
            _ => seq![],
        }
    }
}

/// The reports on the first `k` cells of the 3 x 3 window centred on `p`,
/// taken row by row from the top left.
pub open spec fn window_prefix(map: TileMap, p: Point, k: nat) -> Seq<RobotMessage>
    decreases k,
{
    if k == 0 {
        seq![]
    } else {
        let i = (k - 1) as nat;
        window_prefix(map, p, i) + cell_report(map, p.x + i % 3 - 1, p.y + i / 3 - 1)
    }
}

/// The reports of one scan from `p`: every cell of the 3 x 3 window around it.
pub open spec fn scan_reports(map: TileMap, p: Point) -> Seq<RobotMessage> {
    window_prefix(map, p, 9)
}

/// Some entry of `known` is at `p`.
pub open spec fn knows_position(known: Seq<ResourceDiscovery>, p: Point) -> bool {
    exists|i: int| 0 <= i < known.len() && (#[trigger] known[i]).position == p
}

/// `known` with `d` appended, unless some entry is already at its position.
pub open spec fn remember(known: Seq<ResourceDiscovery>, d: ResourceDiscovery) -> Seq<ResourceDiscovery> {
    if knows_position(known, d.position) {
        known
    } else {
        known.push(d)
    }
}

/// `known` without its first entry at `p`, if it has one.
pub open spec fn forget(known: Seq<ResourceDiscovery>, p: Point) -> Seq<ResourceDiscovery>
    decreases known.len(),
{
    if known.len() == 0 {
        known
    } else if known[0].position == p {
        known.drop_first()
    } else {
        seq![known[0]] + forget(known.drop_first(), p)
    }
}

/// What a list of known resources becomes when the reports are taken in, in
/// order: a found resource is remembered, a depleted one forgotten, and
/// obstacles leave the list alone.
pub open spec fn learn(known: Seq<ResourceDiscovery>, reports: Seq<RobotMessage>) -> Seq<ResourceDiscovery>
    decreases reports.len(),
{
    if reports.len() == 0 {
        known
    } else {
        let before = learn(known, reports.drop_last());
        match reports.last() {
            RobotMessage::ResourceFound(d) => remember(before, d),
            RobotMessage::ResourceDepleted(p) => forget(before, p),
            RobotMessage::ObstacleFound(_) => before,
        }
    }
}

pub(crate) proof fn lemma_forget_first(known: Seq<ResourceDiscovery>, p: Point, idx: int)
    requires
        0 <= idx < known.len(),
        known[idx].position == p,
        forall|j: int| 0 <= j < idx ==> known[j].position != p,
    ensures
        forget(known, p) == known.remove(idx),
    decreases known.len(),
{
    if idx > 0 {
        lemma_forget_first(known.drop_first(), p, idx - 1);
        assert(forget(known, p) =~= known.remove(idx));
    } else {
        assert(known.drop_first() =~= known.remove(0));
    }
}

pub(crate) proof fn lemma_forget_absent(known: Seq<ResourceDiscovery>, p: Point)
    requires
        !knows_position(known, p),
    ensures
        forget(known, p) == known,
    decreases known.len(),
{
    if known.len() > 0 {
        assert(known[0] == known[0]);
        assert(!knows_position(known.drop_first(), p)) by {
            if knows_position(known.drop_first(), p) {
                let i = choose|i: int| 0 <= i < known.len() - 1 && (#[trigger] known.drop_first()[i]).position == p;
                assert(known[i + 1].position == p);
            }
        }
        lemma_forget_absent(known.drop_first(), p);
        assert(forget(known, p) =~= known);
    }
}

/// The index of the first entry of `known` at `p`, if there is one.
pub(crate) fn find_position(known: &Vec<ResourceDiscovery>, p: Point) -> (r: Option<usize>)
    ensures
        r is None <==> !knows_position(known@, p),
        r matches Some(i) ==> i < known@.len() && known@[i as int].position == p && forall|j: int|
            0 <= j < i ==> known@[j].position != p,
{
    let mut i: usize = 0;
    while i < known.len()
        invariant
            i <= known@.len(),
            forall|j: int| 0 <= j < i ==> known@[j].position != p,
        decreases known.len() - i,
    {
        if known[i].position == p {
            return Some(i);
        }
        i += 1;
    }
    proof {
        assert forall|j: int| 0 <= j < known@.len() implies (#[trigger] known@[j]).position != p by {}
    }
    None
}

/// Takes the reports in: found resources are remembered, depleted ones
/// forgotten.
pub(crate) fn learn_from(known: &mut Vec<ResourceDiscovery>, reports: &Vec<RobotMessage>)
    ensures
        final(known)@ == learn(old(known)@, reports@),
{
    let ghost k0 = known@;
    let mut i: usize = 0;
    while i < reports.len()
        invariant
            i <= reports@.len(),
            known@ == learn(k0, reports@.take(i as int)),
        decreases reports.len() - i,
    {
        assert(reports@.take(i + 1).drop_last() =~= reports@.take(i as int));
        match reports[i] {
            RobotMessage::ResourceFound(d) => {
                Robot::remember_resource(known, d);
            },
            RobotMessage::ResourceDepleted(p) => {
                match find_position(known, p) {
                    Some(idx) => {
                        proof {
                            lemma_forget_first(known@, p, idx as int);
                        }
                        known.remove(idx);
                    },
                    None => {
                        proof {
                            lemma_forget_absent(known@, p);
                        }
                    },
                }
            },
            RobotMessage::ObstacleFound(_) => {},
        }
        i += 1;
    }
    assert(reports@.take(reports@.len() as int) =~= reports@);
}

/// Every listed resource lies on the map.
pub open spec fn all_on_map(map: TileMap, known: Seq<ResourceDiscovery>) -> bool {
    forall|i: int| 0 <= i < known.len() ==> map.inside((#[trigger] known[i]).position.x as int, known[i].position.y as int)
}

/// The tile of a listed resource has not been emptied.
pub open spec fn still_there(map: TileMap, r: ResourceDiscovery) -> bool {
    !(map.tile(r.position.x as int, r.position.y as int) is Empty)
}

/// Entry `i` of `known` is the one a collector at `from` heads for: its tile
/// is not empty, no such entry is nearer, and every earlier such entry is
/// further away.
pub open spec fn is_best_index(map: TileMap, from: Point, known: Seq<ResourceDiscovery>, i: int) -> bool {
    &&& 0 <= i < known.len()
    &&& still_there(map, known[i])
    &&& forall|j: int|
        0 <= j < known.len() && still_there(map, #[trigger] known[j]) ==> manhattan_distance(from, known[i].position)
            <= manhattan_distance(from, known[j].position)
    &&& forall|j: int|
        0 <= j < i && still_there(map, #[trigger] known[j]) ==> manhattan_distance(from, known[i].position)
            < manhattan_distance(from, known[j].position)
}

/// `r` is the position of the entry of `known` that a collector at `from`
/// heads for, or `None` when every listed tile has been emptied.
pub open spec fn best_known_resource(
    map: TileMap,
    from: Point,
    known: Seq<ResourceDiscovery>,
    r: Option<Point>,
) -> bool {
    &&& (r is None <==> forall|j: int| 0 <= j < known.len() ==> !still_there(map, #[trigger] known[j]))
    &&& (r matches Some(p) ==> exists|i: int| #[trigger] is_best_index(map, from, known, i) && known[i].position == p)
}

/// Every resource found in the reports lies on the map.
pub open spec fn reports_on_map(map: TileMap, reports: Seq<RobotMessage>) -> bool {
    forall|i: int|
        0 <= i < reports.len() ==> (#[trigger] reports[i] matches RobotMessage::ResourceFound(d) ==> map.inside(
            d.position.x as int,
            d.position.y as int,
        ))
}

/// The cell `p` lies on the map and holds an obstacle.
pub open spec fn obstacle_at(map: TileMap, p: Point) -> bool {
    map.inside(p.x as int, p.y as int) && map.tile(p.x as int, p.y as int) is Obstacle
}

/// Every obstacle reported is an obstacle on the map.
pub open spec fn obstacles_real(map: TileMap, reports: Seq<RobotMessage>) -> bool {
    forall|i: int|
        0 <= i < reports.len() ==> (#[trigger] reports[i] matches RobotMessage::ObstacleFound(p) ==> obstacle_at(
            map,
            p,
        ))
}

pub(crate) proof fn lemma_window_on_map(map: TileMap, p: Point, k: nat)
    ensures
        reports_on_map(map, window_prefix(map, p, k)),
        obstacles_real(map, window_prefix(map, p, k)),
    decreases k,
{
    if k > 0 {
        let i = (k - 1) as nat;
        lemma_window_on_map(map, p, i);
        let a = window_prefix(map, p, i);
        let b = cell_report(map, p.x + i % 3 - 1, p.y + i / 3 - 1);
        assert forall|j: int| 0 <= j < (a + b).len() implies (#[trigger] (a + b)[j] matches RobotMessage::ResourceFound(d)
            ==> map.inside(d.position.x as int, d.position.y as int)) && ((a + b)[j] matches RobotMessage::ObstacleFound(q)
            ==> obstacle_at(map, q)) by {
            if j < a.len() {
                assert((a + b)[j] == a[j]);
            } else {
                assert((a + b)[j] == b[j - a.len()]);
            }
        }
    }
}

pub(crate) proof fn lemma_forget_on_map(map: TileMap, known: Seq<ResourceDiscovery>, p: Point)
    requires
        all_on_map(map, known),
    ensures
        all_on_map(map, forget(known, p)),
    decreases known.len(),
{
    if known.len() > 0 {
        lemma_forget_on_map(map, known.drop_first(), p);
        if known[0].position != p {
            let f = seq![known[0]] + forget(known.drop_first(), p);
            assert forall|i: int| 0 <= i < f.len() implies map.inside((#[trigger] f[i]).position.x as int, f[i].position.y as int) by {
                if i > 0 {
                    assert(f[i] == forget(known.drop_first(), p)[i - 1]);
                }
            }
        }
    }
}

pub(crate) proof fn lemma_learn_on_map(map: TileMap, known: Seq<ResourceDiscovery>, reports: Seq<RobotMessage>)
    requires
        all_on_map(map, known),
        reports_on_map(map, reports),
    ensures
        all_on_map(map, learn(known, reports)),
    decreases reports.len(),
{
    if reports.len() > 0 {
        let rest = reports.drop_last();
        assert(reports_on_map(map, rest)) by {
            assert forall|i: int| 0 <= i < rest.len() implies (#[trigger] rest[i] matches RobotMessage::ResourceFound(d)
                ==> map.inside(d.position.x as int, d.position.y as int)) by {
                assert(rest[i] == reports[i]);
            }
        }
        lemma_learn_on_map(map, known, rest);
        let before = learn(known, rest);
        match reports.last() {
            RobotMessage::ResourceFound(d) => {
                assert(reports[reports.len() - 1] == reports.last());
            },
            RobotMessage::ResourceDepleted(p) => {
                lemma_forget_on_map(map, before, p);
            },
            RobotMessage::ObstacleFound(_) => {},
        }
    }
}

/// No two entries of `known` are at the same cell.
pub open spec fn unique_cells(known: Seq<ResourceDiscovery>) -> bool {
    forall|i: int, j: int| 0 <= i < known.len() && 0 <= j < known.len() && i != j ==> known[i].position != known[j].position
}

pub(crate) proof fn lemma_remember_unique(known: Seq<ResourceDiscovery>, d: ResourceDiscovery)
    requires
        unique_cells(known),
    ensures
        unique_cells(remember(known, d)),
{
    if !knows_position(known, d.position) {
        let k = known.push(d);
        assert forall|i: int, j: int| 0 <= i < k.len() && 0 <= j < k.len() && i != j implies k[i].position != k[j].position by {
            if i < known.len() && j < known.len() {
            } else if i < known.len() {
                assert(known[i] == k[i]);
            } else {
                assert(known[j] == k[j]);
            }
        }
    }
}

pub(crate) proof fn lemma_forget_unique(known: Seq<ResourceDiscovery>, p: Point)
    requires
        unique_cells(known),
    ensures
        unique_cells(forget(known, p)),
        forall|q: Point| knows_position(forget(known, p), q) ==> knows_position(known, q),
    decreases known.len(),
{
    if known.len() > 0 {
        let t = known.drop_first();
        assert(unique_cells(t)) by {
            assert forall|i: int, j: int| 0 <= i < t.len() && 0 <= j < t.len() && i != j implies t[i].position != t[j].position by {
                assert(t[i] == known[i + 1]);
                assert(t[j] == known[j + 1]);
            }
        }
        assert forall|q: Point| knows_position(t, q) implies knows_position(known, q) by {
            let i = choose|i: int| 0 <= i < t.len() && (#[trigger] t[i]).position == q;
            assert(known[i + 1] == t[i]);
        }
        if known[0].position != p {
            lemma_forget_unique(t, p);
            let ft = forget(t, p);
            let f = seq![known[0]] + ft;
            assert(forget(known, p) == f);
            assert forall|q: Point| knows_position(f, q) implies knows_position(known, q) by {
                let i = choose|i: int| 0 <= i < f.len() && (#[trigger] f[i]).position == q;
                if i > 0 {
                    assert(f[i] == ft[i - 1]);
                    assert(knows_position(ft, q));
                } else {
                    assert(known[0].position == q);
                }
            }
            assert forall|i: int, j: int| 0 <= i < f.len() && 0 <= j < f.len() && i != j implies f[i].position != f[j].position by {
                if i > 0 && j > 0 {
                    assert(f[i] == ft[i - 1]);
                    assert(f[j] == ft[j - 1]);
                } else if i == 0 {
                    assert(f[j] == ft[j - 1]);
                    assert(knows_position(ft, ft[j - 1].position));
                    assert(knows_position(t, f[j].position));
                    let m = choose|m: int| 0 <= m < t.len() && (#[trigger] t[m]).position == f[j].position;
                    assert(known[m + 1] == t[m]);
                } else {
                    assert(f[i] == ft[i - 1]);
                    assert(knows_position(ft, ft[i - 1].position));
                    assert(knows_position(t, f[i].position));
                    let m = choose|m: int| 0 <= m < t.len() && (#[trigger] t[m]).position == f[i].position;
                    assert(known[m + 1] == t[m]);
                }
            }
        }
    }
}

pub(crate) proof fn lemma_learn_unique(known: Seq<ResourceDiscovery>, reports: Seq<RobotMessage>)
    requires
        unique_cells(known),
    ensures
        unique_cells(learn(known, reports)),
    decreases reports.len(),
{
    if reports.len() > 0 {
        lemma_learn_unique(known, reports.drop_last());
        let before = learn(known, reports.drop_last());
        match reports.last() {
            RobotMessage::ResourceFound(d) => lemma_remember_unique(before, d),
            RobotMessage::ResourceDepleted(p) => lemma_forget_unique(before, p),
            RobotMessage::ObstacleFound(_) => {},
        }
    }
}


/// No report in `reports` says a resource ran out.
pub open spec fn no_depletion(reports: Seq<RobotMessage>) -> bool {
    forall|i: int| 0 <= i < reports.len() ==> !(#[trigger] reports[i] is ResourceDepleted)
}

pub(crate) proof fn lemma_window_no_depletion(map: TileMap, p: Point, k: nat)
    ensures
        no_depletion(window_prefix(map, p, k)),
    decreases k,
{
    if k > 0 {
        let i = (k - 1) as nat;
        lemma_window_no_depletion(map, p, i);
        let a = window_prefix(map, p, i);
        let b = cell_report(map, p.x + i % 3 - 1, p.y + i / 3 - 1);
        assert forall|j: int| 0 <= j < (a + b).len() implies !(#[trigger] (a + b)[j] is ResourceDepleted) by {
            if j < a.len() {
                assert((a + b)[j] == a[j]);
            } else {
                assert((a + b)[j] == b[j - a.len()]);
            }
        }
    }
}

/// A report on cell number `j` of the window is among the window's reports.
proof fn lemma_window_holds(map: TileMap, p: Point, k: nat, j: int, m: RobotMessage)
    requires
        0 <= j < k,
        cell_report(map, p.x + j % 3 - 1, p.y + j / 3 - 1) == seq![m],
    ensures
        window_prefix(map, p, k).contains(m),
    decreases k,
{
    let i = (k - 1) as nat;
    let a = window_prefix(map, p, i);
    let b = cell_report(map, p.x + i % 3 - 1, p.y + i / 3 - 1);
    if j < i {
        lemma_window_holds(map, p, i, j, m);
        let t = choose|t: int| 0 <= t < a.len() && a[t] == m;
        assert((a + b)[t] == a[t]);
    } else {
        assert(j == i);
        assert((a + b)[a.len() as int] == m);
    }
}

/// Taking in reports that name no depletion forgets no cell, and knows every
/// cell reported found.
pub(crate) proof fn lemma_learn_found(known: Seq<ResourceDiscovery>, reports: Seq<RobotMessage>, q: Point)
    requires
        no_depletion(reports),
        knows_position(known, q) || exists|d: ResourceDiscovery|
            #[trigger] reports.contains(RobotMessage::ResourceFound(d)) && d.position == q,
    ensures
        knows_position(learn(known, reports), q),
    decreases reports.len(),
{
    if reports.len() > 0 {
        let rest = reports.drop_last();
        assert forall|i: int| 0 <= i < rest.len() implies !(#[trigger] rest[i] is ResourceDepleted) by {
            assert(rest[i] == reports[i]);
        }
        let before = learn(known, rest);
        let here = match reports.last() {
            RobotMessage::ResourceFound(d) => d.position == q,
            _ => false,
        };
        if !here {
            if !knows_position(known, q) {
                let d = choose|d: ResourceDiscovery| #[trigger] reports.contains(RobotMessage::ResourceFound(d)) && d.position == q;
                let t = choose|t: int| 0 <= t < reports.len() && reports[t] == RobotMessage::ResourceFound(d);
                assert(t != reports.len() - 1);
                assert(rest[t] == reports[t]);
                assert(rest.contains(RobotMessage::ResourceFound(d)));
            }
            lemma_learn_found(known, rest, q);
        }
        assert(!(reports[reports.len() - 1] is ResourceDepleted));
        match reports.last() {
            RobotMessage::ResourceFound(d) => {
                if !knows_position(before, d.position) {
                    let r = before.push(d);
                    assert(r[before.len() as int] == d);
                    if knows_position(before, q) {
                        let i = choose|i: int| 0 <= i < before.len() && (#[trigger] before[i]).position == q;
                        assert(r[i] == before[i]);
                    }
                }
            },
            _ => {},
        }
    }
}

/// After taking in a scan from `p`, every resource tile in the 3 x 3 window
/// around `p` is known, whatever was known before.
pub proof fn lemma_scan_learned(known: Seq<ResourceDiscovery>, map: TileMap, p: Point)
    ensures
        forall|c: Point|
            map.inside(c.x as int, c.y as int) && p.x - 1 <= c.x <= p.x + 1 && p.y - 1 <= c.y <= p.y + 1
                && crate::map::is_resource(#[trigger] map.tile(c.x as int, c.y as int)) ==> knows_position(
                learn(known, scan_reports(map, p)),
                c,
            ),
{
    lemma_window_no_depletion(map, p, 9);
    assert forall|c: Point|
        map.inside(c.x as int, c.y as int) && p.x - 1 <= c.x <= p.x + 1 && p.y - 1 <= c.y <= p.y + 1
            && crate::map::is_resource(#[trigger] map.tile(c.x as int, c.y as int)) implies knows_position(
            learn(known, scan_reports(map, p)),
            c,
        ) by {
        let j = (c.y - p.y + 1) * 3 + (c.x - p.x + 1);
        assert(j % 3 == c.x - p.x + 1 && j / 3 == c.y - p.y + 1);
        let kind = if map.tile(c.x as int, c.y as int) is Energy { ResourceKind::Energy } else { ResourceKind::Crystal };
        let d = ResourceDiscovery { position: c, kind };
        assert(cell_report(map, p.x + j % 3 - 1, p.y + j / 3 - 1) == seq![RobotMessage::ResourceFound(d)]);
        lemma_window_holds(map, p, 9, j, RobotMessage::ResourceFound(d));
        lemma_learn_found(known, scan_reports(map, p), c);
    }
}

} // verus!

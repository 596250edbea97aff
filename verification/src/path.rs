//! Walks over the grid, and the facts about them that breadth-first
//! search rests on.
use vstd::prelude::*;

use crate::map::TileMap;
use crate::robot::Point;

verus! {

/// `a` and `b` are side by side: they differ by one step along one axis.
pub open spec fn adjacent(a: Point, b: Point) -> bool {
    ||| (a.x == b.x && (a.y + 1 == b.y || b.y + 1 == a.y))
    ||| (a.y == b.y && (a.x + 1 == b.x || b.x + 1 == a.x))
}

/// A walk may enter `p`: it lies on the map, is not an obstacle, and is not
/// held by another robot, unless it is the destination itself.
pub open spec fn passable(map: TileMap, blocked: Seq<Point>, goal: Point, p: Point) -> bool {
    &&& map.inside(p.x as int, p.y as int)
    &&& map.walkable_at(p.x as int, p.y as int)
    &&& (!blocked.contains(p) || p == goal)
}

/// One move of a walk: from `a` to the neighbouring passable cell `b`.
pub open spec fn link(map: TileMap, blocked: Seq<Point>, goal: Point, a: Point, b: Point) -> bool {
    adjacent(a, b) && passable(map, blocked, goal, b)
}

/// A non-empty sequence of cells, each one move away from the one before.
/// The first cell itself need not be passable.
pub open spec fn is_walk(map: TileMap, blocked: Seq<Point>, goal: Point, w: Seq<Point>) -> bool {
    &&& w.len() >= 1
    &&& forall|i: int, j: int|
        0 <= i && j == i + 1 && j < w.len() ==> #[trigger] link(map, blocked, goal, w[i], w[j])
}

/// A walk from `a` to `b`; it takes `w.len() - 1` moves.
pub open spec fn walk_between(
    map: TileMap,
    blocked: Seq<Point>,
    goal: Point,
    w: Seq<Point>,
    a: Point,
    b: Point,
) -> bool {
    is_walk(map, blocked, goal, w) && w[0] == a && w.last() == b
}

/// Some walk leads from `start` to `goal`.
pub open spec fn reachable(map: TileMap, blocked: Seq<Point>, start: Point, goal: Point) -> bool {
    exists|w: Seq<Point>| #[trigger] walk_between(map, blocked, goal, w, start, goal)
}

/// `step` is the second cell of a walk from `start` to `goal` that no other
/// walk between them beats in length: moving there is a move along a
/// shortest route.
pub open spec fn first_step_of_shortest(
    map: TileMap,
    blocked: Seq<Point>,
    start: Point,
    goal: Point,
    step: Point,
) -> bool {
    exists|w: Seq<Point>|
        {
            &&& #[trigger] walk_between(map, blocked, goal, w, start, goal)
            &&& w.len() >= 2
            &&& w[1] == step
            &&& forall|w2: Seq<Point>|
                #[trigger] walk_between(map, blocked, goal, w2, start, goal) ==> w.len() <= w2.len()
        }
}

/// What one search for the next move towards `goal` answers: nothing when
/// the robot is already there or no walk leads there, and otherwise the first
/// move of a shortest walk, the earliest such move in the order up, right,
/// down, left.
pub open spec fn is_next_step(
    map: TileMap,
    blocked: Seq<Point>,
    start: Point,
    goal: Point,
    r: Option<Point>,
) -> bool {
    &&& (r is Some <==> (start != goal && reachable(map, blocked, start, goal)))
    &&& (r matches Some(s) ==> first_step_of_shortest(map, blocked, start, goal, s))
    &&& (r matches Some(s) ==> earliest_first_move(map, blocked, start, goal, s))
}

/// The place of the move from `a` to its neighbour `b` in the order up,
/// right, down, left.
pub open spec fn move_rank(a: Point, b: Point) -> int {
    if b.x == a.x && b.y + 1 == a.y {
        0
    } else if b.y == a.y && b.x == a.x + 1 {
        1
    } else if b.x == a.x && b.y == a.y + 1 {
        2
    } else {
        3
    }
}

/// No shortest walk from `start` to `goal` begins with a move that comes
/// before the move to `step` in the order up, right, down, left.
pub open spec fn earliest_first_move(map: TileMap, blocked: Seq<Point>, start: Point, goal: Point, step: Point) -> bool {
    forall|w: Seq<Point>|
        #[trigger] walk_between(map, blocked, goal, w, start, goal) && w.len() >= 2 && (forall|w2: Seq<Point>|
            #[trigger] walk_between(map, blocked, goal, w2, start, goal) ==> w.len() <= w2.len()) ==> move_rank(start, step)
            <= move_rank(start, w[1])
}

pub proof fn lemma_walk_drop_last(map: TileMap, blocked: Seq<Point>, goal: Point, w: Seq<Point>)
    requires
        is_walk(map, blocked, goal, w),
        w.len() >= 2,
    ensures
        is_walk(map, blocked, goal, w.drop_last()),
        link(map, blocked, goal, w[w.len() - 2], w[w.len() - 1]),
{
    let v = w.drop_last();
    assert forall|i: int, j: int| 0 <= i && j == i + 1 && j < v.len() implies #[trigger] link(
        map,
        blocked,
        goal,
        v[i],
        v[j],
    ) by {
        assert(link(map, blocked, goal, w[i], w[j]));
    }
    assert(link(map, blocked, goal, w[w.len() - 2], w[w.len() - 1]));
}

pub proof fn lemma_walk_prepend(map: TileMap, blocked: Seq<Point>, goal: Point, p: Point, w: Seq<Point>)
    requires
        is_walk(map, blocked, goal, w),
        link(map, blocked, goal, p, w[0]),
    ensures
        is_walk(map, blocked, goal, seq![p] + w),
        (seq![p] + w)[0] == p,
        (seq![p] + w).last() == w.last(),
        (seq![p] + w).len() == w.len() + 1,
{
    let v = seq![p] + w;
    assert forall|i: int, j: int| 0 <= i && j == i + 1 && j < v.len() implies #[trigger] link(
        map,
        blocked,
        goal,
        v[i],
        v[j],
    ) by {
        if i > 0 {
            assert(v[i] == w[i - 1]);
            assert(v[j] == w[j - 1]);
            assert(link(map, blocked, goal, w[i - 1], w[j - 1]));
        }
    }
}

/// The number of cells of a search grid that are not yet discovered.
pub open spec fn row_unseen(r: Seq<Option<Point>>) -> nat
    decreases r.len(),
{
    if r.len() == 0 {
        0
    } else {
        row_unseen(r.drop_last()) + if r.last() is None { 1nat } else { 0nat }
    }
}

pub open spec fn grid_unseen(g: Seq<Seq<Option<Point>>>) -> nat
    decreases g.len(),
{
    if g.len() == 0 {
        0
    } else {
        grid_unseen(g.drop_last()) + row_unseen(g.last())
    }
}

pub proof fn lemma_row_unseen_update(r: Seq<Option<Point>>, i: int, v: Point)
    requires
        0 <= i < r.len(),
        r[i] is None,
    ensures
        row_unseen(r.update(i, Some(v))) + 1 == row_unseen(r),
    decreases r.len(),
{
    let u = r.update(i, Some(v));
    if i == r.len() - 1 {
        assert(u.drop_last() =~= r.drop_last());
    } else {
        assert(u.drop_last() =~= r.drop_last().update(i, Some(v)));
        lemma_row_unseen_update(r.drop_last(), i, v);
    }
}

pub proof fn lemma_grid_unseen_update(g: Seq<Seq<Option<Point>>>, y: int, x: int, v: Point)
    requires
        0 <= y < g.len(),
        0 <= x < g[y].len(),
        g[y][x] is None,
    ensures
        grid_unseen(g.update(y, g[y].update(x, Some(v)))) + 1 == grid_unseen(g),
    decreases g.len(),
{
    let u = g.update(y, g[y].update(x, Some(v)));
    if y == g.len() - 1 {
        assert(u.drop_last() =~= g.drop_last());
        lemma_row_unseen_update(g[y], x, v);
    } else {
        assert(u.drop_last() =~= g.drop_last().update(y, g[y].update(x, Some(v))));
        lemma_grid_unseen_update(g.drop_last(), y, x, v);
    }
}

/// The state of a breadth-first search: the queue `q` of discovered cells,
/// of which the first `head` have been expanded, and the distance `d` at
/// which each discovered cell was found.
pub open spec fn search_layout(start: Point, q: Seq<Point>, d: Map<Point, nat>) -> bool {
    &&& q.len() >= 1
    &&& q[0] == start
    &&& d.contains_key(start)
    &&& d[start] == 0
    &&& forall|i: int| 0 <= i < q.len() ==> #[trigger] d.contains_key(q[i])
    &&& forall|p: Point| #[trigger] d.contains_key(p) ==> q.contains(p)
}

/// Every expanded cell has all its passable neighbours discovered, no
/// further than one move beyond it.
pub open spec fn expanded_complete(
    map: TileMap,
    blocked: Seq<Point>,
    goal: Point,
    q: Seq<Point>,
    d: Map<Point, nat>,
    head: int,
) -> bool {
    forall|i: int, n: Point|
        0 <= i < head && #[trigger] link(map, blocked, goal, q[i], n) ==> d.contains_key(n) && d[n]
            <= d[q[i]] + 1
}

/// A walk of at most `k` moves from the start ends at a discovered cell no
/// further than its length, provided that every cell discovered at a
/// distance below `k` has been expanded.
pub proof fn lemma_search_reaches(
    map: TileMap,
    blocked: Seq<Point>,
    goal: Point,
    start: Point,
    q: Seq<Point>,
    d: Map<Point, nat>,
    head: int,
    k: nat,
    w: Seq<Point>,
)
    requires
        search_layout(start, q, d),
        0 <= head <= q.len(),
        expanded_complete(map, blocked, goal, q, d, head),
        forall|i: int| 0 <= i < q.len() && d[q[i]] < k ==> i < head,
        is_walk(map, blocked, goal, w),
        w[0] == start,
        w.len() - 1 <= k,
    ensures
        d.contains_key(w.last()),
        d[w.last()] <= w.len() - 1,
    decreases w.len(),
{
    if w.len() > 1 {
        let v = w.drop_last();
        lemma_walk_drop_last(map, blocked, goal, w);
        lemma_search_reaches(map, blocked, goal, start, q, d, head, k, v);
        let u = v.last();
        assert(q.contains(u));
        let idx = choose|idx: int| 0 <= idx < q.len() && q[idx] == u;
        assert(d.contains_key(q[idx]));
        assert(idx < head);
        assert(link(map, blocked, goal, q[idx], w.last()));
    }
}

/// How the grid `cf` of the cells each discovered cell was reached from
/// matches the distances `d`: a cell of the map has an entry exactly when it
/// was discovered, the start (when it lies on the map) was reached from
/// itself, and every other discovered cell lies on the map and was reached
/// in one move from a cell discovered one move closer.
#[verifier::opaque]
pub open spec fn search_links(
    map: TileMap,
    blocked: Seq<Point>,
    goal: Point,
    start: Point,
    cf: Seq<Seq<Option<Point>>>,
    d: Map<Point, nat>,
) -> bool {
    &&& cf.len() == map.height
    &&& forall|y: int| 0 <= y < map.height ==> (#[trigger] cf[y]).len() == map.width
    &&& forall|p: Point|
        map.inside(p.x as int, p.y as int) ==> (cf[p.y as int][p.x as int] is Some <==> #[trigger] d.contains_key(p))
    &&& map.inside(start.x as int, start.y as int) ==> cf[start.y as int][start.x as int] == Some(start)
    &&& forall|p: Point|
        #[trigger] d.contains_key(p) && p != start ==> {
            let u = cf[p.y as int][p.x as int]->0;
            &&& map.inside(p.x as int, p.y as int)
            &&& cf[p.y as int][p.x as int] is Some
            &&& d.contains_key(u)
            &&& link(map, blocked, goal, u, p)
            &&& d[p] == d[u] + 1
        }
}

/// The parts of a breadth-first search state that hold between any two
/// steps of it, over the grid `cf` of the cells each discovered cell was
/// reached from.
pub open spec fn search_core(
    map: TileMap,
    blocked: Seq<Point>,
    goal: Point,
    start: Point,
    cf: Seq<Seq<Option<Point>>>,
    q: Seq<Point>,
    d: Map<Point, nat>,
) -> bool {
    &&& search_layout(start, q, d)
    &&& search_links(map, blocked, goal, start, cf, d)
    &&& forall|i: int, j: int| 0 <= i < q.len() && 0 <= j < q.len() && i != j ==> q[i] != q[j]
    &&& forall|i: int, j: int| 0 <= i <= j < q.len() ==> d[q[i]] <= d[q[j]]
    &&& forall|p: Point, w: Seq<Point>|
        #[trigger] d.contains_key(p) && #[trigger] walk_between(map, blocked, goal, w, start, p) ==> d[p]
            <= w.len() - 1
}

/// Recording that `nb`, found from the discovered cell `cur`, was reached
/// from it keeps the grid in step with the distances.
proof fn lemma_discover_links(
    map: TileMap,
    blocked: Seq<Point>,
    goal: Point,
    start: Point,
    cf: Seq<Seq<Option<Point>>>,
    d: Map<Point, nat>,
    cur: Point,
    nb: Point,
)
    requires
        search_links(map, blocked, goal, start, cf, d),
        d.contains_key(start),
        d.contains_key(cur),
        link(map, blocked, goal, cur, nb),
        !d.contains_key(nb),
    ensures
        cf[nb.y as int][nb.x as int] is None,
        cf.len() == map.height,
        cf[nb.y as int].len() == map.width,
        search_links(
            map,
            blocked,
            goal,
            start,
            cf.update(nb.y as int, cf[nb.y as int].update(nb.x as int, Some(cur))),
            d.insert(nb, d[cur] + 1),
        ),
{
    reveal(search_links);
    let cf2 = cf.update(nb.y as int, cf[nb.y as int].update(nb.x as int, Some(cur)));
    let d2 = d.insert(nb, d[cur] + 1);
    assert(nb != start);
    assert(cf[nb.y as int][nb.x as int] is None);
    assert forall|y: int| 0 <= y < map.height implies (#[trigger] cf2[y]).len() == map.width by {
        assert(cf[y].len() == map.width);
    }
    assert forall|p: Point|
        map.inside(p.x as int, p.y as int) implies (cf2[p.y as int][p.x as int] is Some
            <==> #[trigger] d2.contains_key(p)) by {
        if p.x == nb.x && p.y == nb.y {
            assert(p == nb);
        } else {
            assert(cf2[p.y as int][p.x as int] == cf[p.y as int][p.x as int]);
            assert(d.contains_key(p) == d2.contains_key(p));
        }
    }
    if map.inside(start.x as int, start.y as int) {
        assert(cf2[start.y as int][start.x as int] == cf[start.y as int][start.x as int]);
    }
    assert forall|p: Point|
        #[trigger] d2.contains_key(p) && p != start implies {
            let u = cf2[p.y as int][p.x as int]->0;
            &&& map.inside(p.x as int, p.y as int)
            &&& cf2[p.y as int][p.x as int] is Some
            &&& d2.contains_key(u)
            &&& link(map, blocked, goal, u, p)
            &&& d2[p] == d2[u] + 1
        } by {
        if p != nb {
            assert(d.contains_key(p));
            assert(map.inside(p.x as int, p.y as int));
            assert(cf2[p.y as int][p.x as int] == cf[p.y as int][p.x as int]);
            let u = cf[p.y as int][p.x as int]->0;
            assert(d.contains_key(u));
            assert(u != nb);
        }
    }
}

/// Discovering the undiscovered neighbour `nb` of the cell being expanded,
/// `q[head - 1]`, keeps the search state sound, and leaves one cell fewer
/// undiscovered.
#[verifier::spinoff_prover]
#[verifier::rlimit(60)]
pub proof fn lemma_search_discover(
    map: TileMap,
    blocked: Seq<Point>,
    goal: Point,
    start: Point,
    cf: Seq<Seq<Option<Point>>>,
    q: Seq<Point>,
    d: Map<Point, nat>,
    head: int,
    nb: Point,
)
    requires
        search_core(map, blocked, goal, start, cf, q, d),
        1 <= head <= q.len(),
        expanded_complete(map, blocked, goal, q, d, head - 1),
        d[q.last()] <= d[q[head - 1]] + 1,
        link(map, blocked, goal, q[head - 1], nb),
        !d.contains_key(nb),
    ensures
        ({
            let cur = q[head - 1];
            let cf2 = cf.update(nb.y as int, cf[nb.y as int].update(nb.x as int, Some(cur)));
            let q2 = q.push(nb);
            let d2 = d.insert(nb, d[cur] + 1);
            &&& search_core(map, blocked, goal, start, cf2, q2, d2)
            &&& expanded_complete(map, blocked, goal, q2, d2, head - 1)
            &&& d2[q2.last()] <= d2[cur] + 1
            &&& d2[cur] == d[cur]
            &&& grid_unseen(cf2) + 1 == grid_unseen(cf)
        }),
{
    let cur = q[head - 1];
    let dc = d[cur];
    let cf2 = cf.update(nb.y as int, cf[nb.y as int].update(nb.x as int, Some(cur)));
    let q2 = q.push(nb);
    let d2 = d.insert(nb, dc + 1);
    assert(d.contains_key(q[head - 1]));
    assert(d.contains_key(q[q.len() - 1]));
    assert(nb != start);
    // No walk reaches `nb` in `dc` moves or fewer: it would have been found.
    assert forall|w: Seq<Point>| #[trigger] walk_between(map, blocked, goal, w, start, nb) implies dc + 1
        <= w.len() - 1 by {
        if w.len() - 1 <= dc {
            assert forall|i: int| 0 <= i < q.len() && d[q[i]] < dc implies i < head - 1 by {
                if i >= head - 1 {
                    assert(d[q[head - 1]] <= d[q[i]]);
                }
            }
            lemma_search_reaches(map, blocked, goal, start, q, d, head - 1, dc, w);
        }
    }
    lemma_discover_links(map, blocked, goal, start, cf, d, cur, nb);
    lemma_grid_unseen_update(cf, nb.y as int, nb.x as int, cur);
    assert(search_layout(start, q2, d2)) by {
        assert forall|p: Point| #[trigger] d2.contains_key(p) implies q2.contains(p) by {
            if p == nb {
                assert(q2[q2.len() - 1] == p);
            } else {
                assert(q.contains(p));
                let i = choose|i: int| 0 <= i < q.len() && q[i] == p;
                assert(q2[i] == p);
            }
        }
        assert forall|i: int| 0 <= i < q2.len() implies #[trigger] d2.contains_key(q2[i]) by {
            if i < q.len() {
                assert(d.contains_key(q[i]));
            }
        }
    }
    assert forall|i: int, j: int| 0 <= i < q2.len() && 0 <= j < q2.len() && i != j implies q2[i] != q2[j] by {
        if i < q.len() && j < q.len() {
        } else if i < q.len() {
            assert(d.contains_key(q[i]));
        } else {
            assert(d.contains_key(q[j]));
        }
    }
    assert forall|i: int, j: int| 0 <= i <= j < q2.len() implies d2[q2[i]] <= d2[q2[j]] by {
        if j < q.len() {
            assert(d.contains_key(q[i]));
            assert(d.contains_key(q[j]));
            assert(d[q[i]] <= d[q[j]]);
        } else if i < q.len() {
            assert(d.contains_key(q[i]));
            assert(d[q[i]] <= d[q[q.len() - 1]]);
        }
    }
    assert forall|p: Point, w: Seq<Point>|
        #[trigger] d2.contains_key(p) && #[trigger] walk_between(map, blocked, goal, w, start, p) implies d2[p]
            <= w.len() - 1 by {
        if p != nb {
            assert(d.contains_key(p));
        }
    }
    assert forall|i: int, n: Point|
        0 <= i < head - 1 && #[trigger] link(map, blocked, goal, q2[i], n) implies d2.contains_key(n) && d2[n]
            <= d2[q2[i]] + 1 by {
        assert(q2[i] == q[i]);
        assert(link(map, blocked, goal, q[i], n));
        assert(d.contains_key(q[i]));
    }
}


/// `s` is the first move of a walk of `len` moves from `start` to `p`, and
/// no such walk begins with a move that comes before it in the order up,
/// right, down, left.
pub open spec fn best_first_move(
    map: TileMap,
    blocked: Seq<Point>,
    goal: Point,
    start: Point,
    p: Point,
    len: nat,
    s: Point,
) -> bool {
    &&& exists|w: Seq<Point>|
        #[trigger] walk_between(map, blocked, goal, w, start, p) && w.len() == len + 1 && w.len() >= 2 && w[1] == s
    &&& forall|w: Seq<Point>|
        #[trigger] walk_between(map, blocked, goal, w, start, p) && w.len() == len + 1 && w.len() >= 2 ==> move_rank(
            start,
            s,
        ) <= move_rank(start, w[1])
}

/// The order a breadth-first search keeps: each discovered cell `p` other
/// than the start carries in `br` the first move of the walk that led to it,
/// the best first move of any shortest walk there; a cell reached from the
/// start carries itself and any other cell the mark of the cell it was
/// reached from, which was expanded already; and among cells discovered at
/// one distance the marks come in order along the queue.
#[verifier::opaque]
pub open spec fn search_order(
    map: TileMap,
    blocked: Seq<Point>,
    goal: Point,
    start: Point,
    cf: Seq<Seq<Option<Point>>>,
    q: Seq<Point>,
    d: Map<Point, nat>,
    br: Map<Point, Point>,
    head: int,
) -> bool {
    &&& forall|p: Point|
        #[trigger] d.contains_key(p) && p != start ==> {
            let u = cf[p.y as int][p.x as int]->0;
            &&& br.contains_key(p)
            &&& best_first_move(map, blocked, goal, start, p, d[p], br[p])
            &&& (u == start ==> br[p] == p)
            &&& (u != start ==> br.contains_key(u) && br[p] == br[u])
            &&& exists|i: int| 0 <= i < head && #[trigger] q[i] == u
        }
    &&& forall|i: int, j: int|
        0 <= i <= j < q.len() && q[i] != start && q[j] != start && d[q[i]] == d[q[j]] ==> move_rank(
            start,
            br[#[trigger] q[i]],
        ) <= move_rank(start, br[#[trigger] q[j]])
    &&& head == 0 ==> q.len() == 1
}

pub proof fn lemma_walk_push(map: TileMap, blocked: Seq<Point>, goal: Point, w: Seq<Point>, p: Point)
    requires
        is_walk(map, blocked, goal, w),
        link(map, blocked, goal, w.last(), p),
    ensures
        is_walk(map, blocked, goal, w.push(p)),
{
    let v = w.push(p);
    assert forall|i: int, j: int| 0 <= i && j == i + 1 && j < v.len() implies #[trigger] link(map, blocked, goal, v[i], v[j]) by {
        if j < w.len() {
            assert(v[i] == w[i]);
            assert(v[j] == w[j]);
            assert(link(map, blocked, goal, w[i], w[j]));
        } else {
            assert(v[i] == w.last());
        }
    }
}

/// Expanding one more cell keeps the order.
pub proof fn lemma_order_advance(
    map: TileMap,
    blocked: Seq<Point>,
    goal: Point,
    start: Point,
    cf: Seq<Seq<Option<Point>>>,
    q: Seq<Point>,
    d: Map<Point, nat>,
    br: Map<Point, Point>,
    head: int,
)
    requires
        search_order(map, blocked, goal, start, cf, q, d, br, head),
        0 <= head,
    ensures
        search_order(map, blocked, goal, start, cf, q, d, br, head + 1),
{
    reveal(search_order);
    assert forall|p: Point| #[trigger] d.contains_key(p) && p != start implies
        exists|i: int| 0 <= i < head + 1 && #[trigger] q[i] == cf[p.y as int][p.x as int]->0 by {
        let i = choose|i: int| 0 <= i < head && #[trigger] q[i] == cf[p.y as int][p.x as int]->0;
        assert(0 <= i < head + 1 && q[i] == cf[p.y as int][p.x as int]->0);
    }
}

/// Discovering `nb` from the cell being expanded, `q[head - 1]`, and marking
/// it with the first move that led there keeps the order.
#[verifier::spinoff_prover]
#[verifier::rlimit(80)]
pub proof fn lemma_order_discover(
    map: TileMap,
    blocked: Seq<Point>,
    goal: Point,
    start: Point,
    cf: Seq<Seq<Option<Point>>>,
    q: Seq<Point>,
    d: Map<Point, nat>,
    br: Map<Point, Point>,
    head: int,
    nb: Point,
)
    requires
        search_core(map, blocked, goal, start, cf, q, d),
        search_order(map, blocked, goal, start, cf, q, d, br, head),
        1 <= head <= q.len(),
        expanded_complete(map, blocked, goal, q, d, head - 1),
        d[q.last()] <= d[q[head - 1]] + 1,
        link(map, blocked, goal, q[head - 1], nb),
        !d.contains_key(nb),
        q[head - 1] == start ==> forall|x: Point|
            #[trigger] d.contains_key(x) && x != start ==> move_rank(start, x) < move_rank(start, nb),
    ensures
        ({
            let cur = q[head - 1];
            let cf2 = cf.update(nb.y as int, cf[nb.y as int].update(nb.x as int, Some(cur)));
            let q2 = q.push(nb);
            let d2 = d.insert(nb, d[cur] + 1);
            let br2 = br.insert(nb, if cur == start { nb } else { br[cur] });
            search_order(map, blocked, goal, start, cf2, q2, d2, br2, head)
        }),
{
    reveal(search_order);
    reveal(search_links);
    let cur = q[head - 1];
    let dc = d[cur];
    let cf2 = cf.update(nb.y as int, cf[nb.y as int].update(nb.x as int, Some(cur)));
    let q2 = q.push(nb);
    let d2 = d.insert(nb, dc + 1);
    let mark = if cur == start { nb } else { br[cur] };
    let br2 = br.insert(nb, mark);
    assert(d.contains_key(cur));
    assert(nb != start);
    assert(cf[nb.y as int][nb.x as int] is None);
    assert(cf2[nb.y as int][nb.x as int] == Some(cur));
    // Cells at distance 0 are the start only.
    assert(cur != start ==> dc >= 1);
    // Every cell left unexpanded lies at least as far as the current one.
    assert forall|i: int| 0 <= i < q.len() && d[q[i]] < dc implies i < head - 1 by {
        if i >= head - 1 {
            assert(d[q[head - 1]] <= d[q[i]]);
        }
    }
    // The best first move of `nb`.
    assert(best_first_move(map, blocked, goal, start, nb, (dc + 1) as nat, mark)) by {
        if cur == start {
            let w = seq![start, nb];
            assert(walk_between(map, blocked, goal, w, start, nb)) by {
                assert forall|i: int, j: int| 0 <= i && j == i + 1 && j < w.len() implies #[trigger] link(
                    map, blocked, goal, w[i], w[j]) by {}
            }
            assert(dc == 0);
            assert forall|w: Seq<Point>|
                #[trigger] walk_between(map, blocked, goal, w, start, nb) && w.len() == dc + 2 && w.len() >= 2 implies move_rank(
                    start, mark) <= move_rank(start, w[1]) by {
                assert(w[1] == w.last());
            }
        } else {
            assert(best_first_move(map, blocked, goal, start, cur, dc, br[cur]));
            let wc = choose|wc: Seq<Point>|
                #[trigger] walk_between(map, blocked, goal, wc, start, cur) && wc.len() == dc + 1 && wc.len() >= 2 && wc[1]
                    == br[cur];
            lemma_walk_push(map, blocked, goal, wc, nb);
            let w = wc.push(nb);
            assert(walk_between(map, blocked, goal, w, start, nb) && w.len() == dc + 2 && w[1] == mark);
            assert forall|w: Seq<Point>|
                #[trigger] walk_between(map, blocked, goal, w, start, nb) && w.len() == dc + 2 && w.len() >= 2 implies move_rank(
                    start, mark) <= move_rank(start, w[1]) by {
                let v = w.drop_last();
                lemma_walk_drop_last(map, blocked, goal, w);
                let u = v.last();
                assert(walk_between(map, blocked, goal, v, start, u));
                lemma_search_reaches(map, blocked, goal, start, q, d, head - 1, dc, v);
                assert(q.contains(u));
                let iu = choose|iu: int| 0 <= iu < q.len() && q[iu] == u;
                assert(d.contains_key(q[iu]));
                if iu < head - 1 {
                    assert(link(map, blocked, goal, q[iu], nb));
                    assert(false);
                }
                assert(d[q[head - 1]] <= d[q[iu]]);
                assert(d[u] == dc);
                assert(u != start);
                assert(best_first_move(map, blocked, goal, start, u, d[u], br[u]));
                assert(v.len() == d[u] + 1 && v.len() >= 2);
                assert(v[1] == w[1]);
                assert(move_rank(start, br[u]) <= move_rank(start, v[1]));
                assert(move_rank(start, br[q[head - 1]]) <= move_rank(start, br[q[iu]]));
            }
        }
    }
    assert forall|p: Point| #[trigger] d2.contains_key(p) && p != start implies {
        let u = cf2[p.y as int][p.x as int]->0;
        &&& br2.contains_key(p)
        &&& best_first_move(map, blocked, goal, start, p, d2[p], br2[p])
        &&& (u == start ==> br2[p] == p)
        &&& (u != start ==> br2.contains_key(u) && br2[p] == br2[u])
        &&& exists|i: int| 0 <= i < head && #[trigger] q2[i] == u
    } by {
        if p == nb {
            assert(q2[head - 1] == cur);
            if cur != start {
                assert(br.contains_key(cur));
                assert(cur != nb);
            }
        } else {
            assert(d.contains_key(p));
            assert(map.inside(p.x as int, p.y as int));
            assert(cf2[p.y as int][p.x as int] == cf[p.y as int][p.x as int]);
            let u = cf[p.y as int][p.x as int]->0;
            assert(d.contains_key(u));
            assert(u != nb);
            let i = choose|i: int| 0 <= i < head && #[trigger] q[i] == u;
            assert(q2[i] == q[i]);
        }
    }
    assert forall|i: int, j: int|
        0 <= i <= j < q2.len() && q2[i] != start && q2[j] != start && d2[q2[i]] == d2[q2[j]] implies move_rank(
            start,
            br2[#[trigger] q2[i]],
        ) <= move_rank(start, br2[#[trigger] q2[j]]) by {
        if j < q.len() {
            assert(q2[i] == q[i]);
            assert(q2[j] == q[j]);
            assert(d.contains_key(q[i]));
            assert(d.contains_key(q[j]));
        } else if i < q.len() {
            let x = q[i];
            assert(q2[i] == x);
            assert(d.contains_key(x));
            assert(x != nb);
            assert(d[x] == dc + 1);
            let px = cf[x.y as int][x.x as int]->0;
            let ip = choose|ip: int| 0 <= ip < head && #[trigger] q[ip] == px;
            assert(d.contains_key(px));
            assert(d[px] == dc);
            if px == start {
                assert(dc == 0);
                assert(cur == start);
                assert(br[x] == x);
            } else {
                assert(br[x] == br[px]);
                assert(cur != start);
                if ip < head - 1 {
                    assert(q[ip] != start);
                    assert(move_rank(start, br[q[ip]]) <= move_rank(start, br[q[head - 1]]));
                }
            }
        }
    }
}

} // verus!

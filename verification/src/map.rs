//! The grid of tiles the robots move on.
use vstd::prelude::*;

use crate::robot::Point;

verus! {

/// What occupies one cell of the map. Resource tiles carry how many units
/// are left to collect.
#[derive(Clone, Copy, PartialEq, Eq, Structural, Debug)]
pub enum Tile {
    Empty,
    Obstacle,
    Energy(u32),
    Crystal(u32),
    Base,
}

/// A rectangular grid of `height` rows of `width` tiles, with a base cell.
#[derive(Debug)]
pub struct TileMap {
    pub width: usize,
    pub height: usize,
    pub grid: Vec<Vec<Tile>>,
    pub base: Point,
}

/// The rows of a grid of vectors, as sequences.
pub open spec fn rows_of<T>(grid: Seq<Vec<T>>) -> Seq<Seq<T>> {
    grid.map_values(|row: Vec<T>| row@)
}

/// The tile that a resource tile becomes when one unit is taken from it.
pub open spec fn after_taking(t: Tile) -> Tile {
    match t {
        Tile::Energy(a) => if a == 0 { t } else if a == 1 { Tile::Empty } else { Tile::Energy((a - 1) as u32) },
        Tile::Crystal(a) => if a == 0 { t } else if a == 1 { Tile::Empty } else { Tile::Crystal((a - 1) as u32) },
        _ => t,
    }
}

/// A tile from which a unit can be taken.
pub open spec fn has_unit(t: Tile) -> bool {
    match t {
        Tile::Energy(a) => a > 0,
        Tile::Crystal(a) => a > 0,
        _ => false,
    }
}

/// The tile `t` after `k` units have been taken from it one by one.
pub open spec fn taken_times(t: Tile, k: nat) -> Tile
    decreases k,
{
    if k == 0 {
        t
    } else {
        after_taking(taken_times(t, (k - 1) as nat))
    }
}

/// The units a resource tile holds; none for any other tile.
pub open spec fn units(t: Tile) -> nat {
    match t {
        Tile::Energy(n) => n as nat,
        Tile::Crystal(n) => n as nat,
        _ => 0,
    }
}

/// Taking units one after the other from a resource tile of `n > 0` units: each
/// of the first `n` takes finds a unit, after `k` of them the tile keeps its
/// kind with `n - k` units left, or is empty ground once the last one goes;
/// from then on there is nothing to take and taking changes nothing.
pub proof fn lemma_take_repeatedly(t: Tile, k: nat)
    requires
        is_resource(t),
        0 < units(t),
        k <= units(t),
    ensures
        forall|i: nat| i < k ==> #[trigger] has_unit(taken_times(t, i)),
        k == units(t) ==> taken_times(t, k) == Tile::Empty,
        k < units(t) && t is Energy ==> taken_times(t, k) == Tile::Energy((units(t) - k) as u32),
        k < units(t) && t is Crystal ==> taken_times(t, k) == Tile::Crystal((units(t) - k) as u32),
        k == units(t) ==> !has_unit(taken_times(t, k)) && after_taking(taken_times(t, k)) == taken_times(t, k),
    decreases k,
{
    if k > 0 {
        lemma_take_repeatedly(t, (k - 1) as nat);
        assert forall|i: nat| i < k implies #[trigger] has_unit(taken_times(t, i)) by {
            if i == k - 1 {
                assert(has_unit(taken_times(t, (k - 1) as nat)));
            }
        }
    }
}

/// The units of energy (or of crystal, when `energy` is false) a tile holds.
pub open spec fn kind_units(t: Tile, energy: bool) -> nat {
    match t {
        Tile::Energy(n) => if energy { n as nat } else { 0 },
        Tile::Crystal(n) => if energy { 0 } else { n as nat },
        _ => 0,
    }
}

/// The units of one kind a row of tiles holds.
pub open spec fn row_units(r: Seq<Tile>, energy: bool) -> nat
    decreases r.len(),
{
    if r.len() == 0 {
        0
    } else {
        row_units(r.drop_last(), energy) + kind_units(r.last(), energy)
    }
}

/// The units of one kind the rows of a grid hold.
pub open spec fn grid_units(g: Seq<Seq<Tile>>, energy: bool) -> nat
    decreases g.len(),
{
    if g.len() == 0 {
        0
    } else {
        grid_units(g.drop_last(), energy) + row_units(g.last(), energy)
    }
}

pub(crate) proof fn lemma_row_units_update(r: Seq<Tile>, i: int, t: Tile, energy: bool)
    requires
        0 <= i < r.len(),
    ensures
        row_units(r.update(i, t), energy) + kind_units(r[i], energy) == row_units(r, energy) + kind_units(t, energy),
    decreases r.len(),
{
    let u = r.update(i, t);
    if i == r.len() - 1 {
        assert(u.drop_last() =~= r.drop_last());
    } else {
        assert(u.drop_last() =~= r.drop_last().update(i, t));
        lemma_row_units_update(r.drop_last(), i, t, energy);
    }
}

pub(crate) proof fn lemma_grid_units_update(g: Seq<Seq<Tile>>, y: int, x: int, t: Tile, energy: bool)
    requires
        0 <= y < g.len(),
        0 <= x < g[y].len(),
    ensures
        grid_units(g.update(y, g[y].update(x, t)), energy) + kind_units(g[y][x], energy) == grid_units(g, energy)
            + kind_units(t, energy),
    decreases g.len(),
{
    let u = g.update(y, g[y].update(x, t));
    if y == g.len() - 1 {
        assert(u.drop_last() =~= g.drop_last());
        lemma_row_units_update(g[y], x, t, energy);
    } else {
        assert(u.drop_last() =~= g.drop_last().update(y, g[y].update(x, t)));
        lemma_grid_units_update(g.drop_last(), y, x, t, energy);
    }
}

/// What one call of `take_resource_unit(x, y)` does, from map `m0` to map
/// `m1` with result `r`: the tile at `(x, y)` loses a unit (see
/// `after_taking`), everything else stays, and the result names the kind
/// taken, or is `None` when the tile had no unit to give.
pub open spec fn took_unit(m0: TileMap, m1: TileMap, x: int, y: int, r: Option<&'static str>) -> bool {
    &&& m1.width == m0.width
    &&& m1.height == m0.height
    &&& m1.base == m0.base
    &&& m1.cells() == m0.cells().update(y, m0.cells()[y].update(x, after_taking(m0.tile(x, y))))
    &&& has_unit(m0.tile(x, y)) ==> (r is Some)
    &&& !has_unit(m0.tile(x, y)) ==> (r is None)
    &&& m0.tile(x, y) is Energy && r is Some ==> r->0@ == "energy"@
    &&& m0.tile(x, y) is Crystal && r is Some ==> r->0@ == "crystal"@
}

/// Calling `take_resource_unit(x, y)` again and again on a resource tile of
/// `n > 0` units: the first `n` calls each take a unit and name its kind,
/// after `i` calls the tile is what `i` takes leave of it (`n - i` units of
/// the same kind, or empty ground once `i` reaches `n`), and a call after
/// the `n`-th gives `None` and leaves the map as it was. `ms` are the maps
/// before and after each call and `rs` the calls' results.
pub proof fn lemma_takes_in_a_row(ms: Seq<TileMap>, rs: Seq<Option<&'static str>>, x: int, y: int)
    requires
        ms.len() == rs.len() + 1,
        0 <= y < ms[0].cells().len(),
        0 <= x < ms[0].cells()[y].len(),
        is_resource(ms[0].tile(x, y)),
        0 < units(ms[0].tile(x, y)),
        rs.len() <= units(ms[0].tile(x, y)) + 1,
        forall|i: int| 0 <= i < rs.len() ==> #[trigger] took_unit(ms[i], ms[i + 1], x, y, rs[i]),
    ensures
        forall|i: int|
            0 <= i < rs.len() && i < units(ms[0].tile(x, y)) ==> (#[trigger] rs[i]) is Some
                && (ms[0].tile(x, y) is Energy ==> rs[i]->0@ == "energy"@)
                && (ms[0].tile(x, y) is Crystal ==> rs[i]->0@ == "crystal"@),
        forall|i: int|
            0 <= i < ms.len() && i <= units(ms[0].tile(x, y)) ==> (#[trigger] ms[i]).tile(x, y) == taken_times(
                ms[0].tile(x, y),
                i as nat,
            ),
        rs.len() == units(ms[0].tile(x, y)) + 1 ==> rs.last() is None && ms.last().cells() == ms[rs.len() - 1].cells(),
    decreases rs.len(),
{
    let t0 = ms[0].tile(x, y);
    let n = units(t0);
    if rs.len() > 0 {
        let k = rs.len() - 1;
        let ms2 = ms.drop_last();
        let rs2 = rs.drop_last();
        assert forall|i: int| 0 <= i < rs2.len() implies #[trigger] took_unit(ms2[i], ms2[i + 1], x, y, rs2[i]) by {
            assert(took_unit(ms[i], ms[i + 1], x, y, rs[i]));
        }
        lemma_takes_in_a_row(ms2, rs2, x, y);
        assert(ms2[0] == ms[0]);
        assert(ms2[k] == ms[k]);
        lemma_take_repeatedly(t0, if k <= n { k as nat } else { n });
        lemma_grid_shape_kept(ms, rs, x, y, k);
        assert(took_unit(ms[k], ms[k + 1], x, y, rs[k]));
        let c = ms[k].cells();
        assert(ms[k + 1].cells()[y] == c[y].update(x, after_taking(ms[k].tile(x, y))));
        if k < n {
            assert(ms[k].tile(x, y) == taken_times(t0, k as nat));
            assert(has_unit(taken_times(t0, k as nat)));
            assert(ms[k + 1].tile(x, y) == after_taking(ms[k].tile(x, y)));
            assert(taken_times(t0, (k + 1) as nat) == after_taking(taken_times(t0, k as nat)));
        } else {
            assert(ms[k].tile(x, y) == taken_times(t0, n));
            assert(c[y].update(x, after_taking(ms[k].tile(x, y))) =~= c[y]);
            assert(c.update(y, c[y]) =~= c);
        }
        assert forall|i: int| 0 <= i < rs.len() && i < n implies (#[trigger] rs[i]) is Some
            && (t0 is Energy ==> rs[i]->0@ == "energy"@) && (t0 is Crystal ==> rs[i]->0@ == "crystal"@) by {
            if i < k {
                assert(rs2[i] == rs[i]);
            } else {
                assert(ms[k].tile(x, y) == taken_times(t0, k as nat));
            }
        }
        assert forall|i: int| 0 <= i < ms.len() && i <= n implies (#[trigger] ms[i]).tile(x, y) == taken_times(t0, i as nat) by {
            if i <= k {
                assert(ms2[i] == ms[i]);
            }
        }
    }
}

/// Along a run of takes at `(x, y)`, that cell stays on every map's grid.
proof fn lemma_grid_shape_kept(ms: Seq<TileMap>, rs: Seq<Option<&'static str>>, x: int, y: int, k: int)
    requires
        ms.len() == rs.len() + 1,
        0 <= k < ms.len(),
        0 <= y < ms[0].cells().len(),
        0 <= x < ms[0].cells()[y].len(),
        forall|i: int| 0 <= i < rs.len() ==> #[trigger] took_unit(ms[i], ms[i + 1], x, y, rs[i]),
    ensures
        0 <= y < ms[k].cells().len(),
        0 <= x < ms[k].cells()[y].len(),
    decreases k,
{
    if k > 0 {
        lemma_grid_shape_kept(ms, rs, x, y, k - 1);
        let i = k - 1;
        assert(took_unit(ms[i], ms[i + 1], x, y, rs[i]));
    }
}

/// `(x, y)` lies in the 3 x 3 square centred on the base.
pub open spec fn near_base(base: Point, x: int, y: int) -> bool {
    base.x - 1 <= x <= base.x + 1 && base.y - 1 <= y <= base.y + 1
}

/// A resource tile as the generator lays it: between 50 and 200 units.
pub open spec fn fresh_resource(t: Tile) -> bool {
    match t {
        Tile::Energy(q) => 50 <= q <= 200,
        Tile::Crystal(q) => 50 <= q <= 200,
        _ => false,
    }
}

/// What a freshly generated map holds at a cell: the base on the base cell;
/// an obstacle wherever the terrain says so, except in the square around the
/// base, which is kept clear; elsewhere empty ground or a fresh resource.
pub open spec fn generated_tile(obstacle: bool, near: bool, at_base: bool, t: Tile) -> bool {
    if at_base {
        t is Base
    } else if obstacle && !near {
        t is Obstacle
    } else {
        t is Empty || fresh_resource(t)
    }
}

/// An energy or crystal tile, whatever is left on it.
pub open spec fn is_resource(t: Tile) -> bool {
    t is Energy || t is Crystal
}

/// How many resource tiles a row holds.
pub open spec fn row_resources(r: Seq<Tile>) -> nat
    decreases r.len(),
{
    if r.len() == 0 {
        0
    } else {
        row_resources(r.drop_last()) + if is_resource(r.last()) { 1nat } else { 0nat }
    }
}

/// How many resource tiles a grid holds.
pub open spec fn resource_count(g: Seq<Seq<Tile>>) -> nat
    decreases g.len(),
{
    if g.len() == 0 {
        0
    } else {
        resource_count(g.drop_last()) + row_resources(g.last())
    }
}

proof fn lemma_row_resources_update(r: Seq<Tile>, i: int, t: Tile)
    requires
        0 <= i < r.len(),
        !is_resource(r[i]),
        is_resource(t),
    ensures
        row_resources(r.update(i, t)) == row_resources(r) + 1,
    decreases r.len(),
{
    let u = r.update(i, t);
    if i == r.len() - 1 {
        assert(u.drop_last() =~= r.drop_last());
    } else {
        assert(u.drop_last() =~= r.drop_last().update(i, t));
        lemma_row_resources_update(r.drop_last(), i, t);
    }
}

proof fn lemma_resource_count_update(g: Seq<Seq<Tile>>, y: int, x: int, t: Tile)
    requires
        0 <= y < g.len(),
        0 <= x < g[y].len(),
        !is_resource(g[y][x]),
        is_resource(t),
    ensures
        resource_count(g.update(y, g[y].update(x, t))) == resource_count(g) + 1,
    decreases g.len(),
{
    let u = g.update(y, g[y].update(x, t));
    if y == g.len() - 1 {
        assert(u.drop_last() =~= g.drop_last());
        lemma_row_resources_update(g[y], x, t);
    } else {
        assert(u.drop_last() =~= g.drop_last().update(y, g[y].update(x, t)));
        lemma_resource_count_update(g.drop_last(), y, x, t);
    }
}

proof fn lemma_no_resources(g: Seq<Seq<Tile>>)
    requires
        forall|y: int, x: int| 0 <= y < g.len() && 0 <= x < g[y].len() ==> !is_resource(#[trigger] g[y][x]),
    ensures
        resource_count(g) == 0,
    decreases g.len(),
{
    if g.len() > 0 {
        let rest = g.drop_last();
        assert forall|y: int, x: int| 0 <= y < rest.len() && 0 <= x < rest[y].len() implies !is_resource(#[trigger] rest[y][x]) by {
            assert(rest[y] == g[y]);
        }
        lemma_no_resources(rest);
        lemma_row_empty(g.last());
    }
}

proof fn lemma_row_empty(r: Seq<Tile>)
    requires
        forall|x: int| 0 <= x < r.len() ==> !is_resource(#[trigger] r[x]),
    ensures
        row_resources(r) == 0,
    decreases r.len(),
{
    if r.len() > 0 {
        let rest = r.drop_last();
        assert forall|x: int| 0 <= x < rest.len() implies !is_resource(#[trigger] rest[x]) by {
            assert(rest[x] == r[x]);
        }
        lemma_row_empty(rest);
    }
}

/// The resource tile holding `quantity` units, of energy or of crystal.
pub open spec fn resource_tile(quantity: u32, energy: bool) -> Tile {
    if energy {
        Tile::Energy(quantity)
    } else {
        Tile::Crystal(quantity)
    }
}

/// The rows `g` after a resource is laid at `(x, y)`: the cell takes the
/// resource tile when it is empty ground other than the base cell, and
/// nothing changes otherwise.
pub open spec fn with_resource(g: Seq<Seq<Tile>>, base: Point, x: int, y: int, quantity: u32, energy: bool) -> Seq<Seq<Tile>> {
    if g[y][x] is Empty && !(x == base.x && y == base.y) {
        g.update(y, g[y].update(x, resource_tile(quantity, energy)))
    } else {
        g
    }
}

/// Lays `quantity` units of energy (or of crystal, when `energy` is false)
/// at `(x, y)` if that cell is empty ground and not the base cell.
pub fn place_resource(grid: &mut Vec<Vec<Tile>>, base: Point, x: usize, y: usize, quantity: u32, energy: bool)
    requires
        y < old(grid)@.len(),
        x < old(grid)@[y as int]@.len(),
    ensures
        final(grid)@.len() == old(grid)@.len(),
        rows_of(final(grid)@) == with_resource(rows_of(old(grid)@), base, x as int, y as int, quantity, energy),
{
    let ghost g = rows_of(grid@);
    assert(g[y as int] == grid@[y as int]@);
    if matches!(grid[y][x], Tile::Empty) && !(x == base.x && y == base.y) {
        let tile = if energy {
            Tile::Energy(quantity)
        } else {
            Tile::Crystal(quantity)
        };
        grid[y][x] = tile;
        assert(rows_of(grid@) =~= g.update(y as int, g[y as int].update(x as int, tile)));
    } else {
        assert(rows_of(grid@) =~= g);
    }
}

/// `m` is a map of `height` rows of `width` cells as the generator lays it
/// out over the terrain `obstacles`, with the base in the middle.
pub open spec fn is_generated(m: TileMap, width: usize, height: usize, obstacles: Seq<Seq<bool>>) -> bool {
    &&& m.wf()
    &&& m.width == width
    &&& m.height == height
    &&& m.base == (Point { x: width / 2, y: height / 2 })
    &&& resource_count(m.cells()) <= RESOURCE_ATTEMPTS
    &&& forall|x: int, y: int|
        0 <= x < width && 0 <= y < height ==> generated_tile(
            obstacles[y][x],
            near_base(m.base, x, y),
            x == m.base.x && y == m.base.y,
            #[trigger] m.tile(x, y),
        )
}

/// How many resource tiles the generator tries to place.
pub const RESOURCE_ATTEMPTS: usize = 24;

impl TileMap {
    /// A map of `height` rows of `width` cells, with obstacles where
    /// `obstacles` holds `true` (row by row), the base in the middle with the
    /// cells around it cleared, and resources scattered at random over
    /// empty cells.
    pub fn new(width: usize, height: usize, obstacles: &Vec<Vec<bool>>) -> (m: TileMap)
        requires
            0 < width,
            0 < height,
            width + height <= usize::MAX,
            obstacles@.len() == height,
            forall|y: int| 0 <= y < height ==> (#[trigger] obstacles@[y])@.len() == width,
        ensures
            is_generated(m, width, height, rows_of(obstacles@)),
    {
        let base = Point { x: width / 2, y: height / 2 };
        let mut grid: Vec<Vec<Tile>> = Vec::new();
        let mut y: usize = 0;
        while y < height
            invariant
                y <= height,
                obstacles@.len() == height,
                forall|j: int| 0 <= j < height ==> (#[trigger] obstacles@[j])@.len() == width,
                grid@.len() == y,
                forall|j: int| 0 <= j < y ==> (#[trigger] grid@[j])@.len() == width,
                forall|j: int, i: int|
                    0 <= j < y && 0 <= i < width ==> (#[trigger] grid@[j]@[i]) == if obstacles@[j]@[i] {
                        Tile::Obstacle
                    } else {
                        Tile::Empty
                    },
            decreases height - y,
        {
            let mut row: Vec<Tile> = Vec::new();
            let mut x: usize = 0;
            while x < width
                invariant
                    x <= width,
                    y < height,
                    obstacles@.len() == height,
                    obstacles@[y as int]@.len() == width,
                    row@.len() == x,
                    forall|i: int| 0 <= i < x ==> (#[trigger] row@[i]) == if obstacles@[y as int]@[i] {
                        Tile::Obstacle
                    } else {
                        Tile::Empty
                    },
                decreases width - x,
            {
                if obstacles[y][x] {
                    row.push(Tile::Obstacle);
                } else {
                    row.push(Tile::Empty);
                }
                x += 1;
            }
            grid.push(row);
            y += 1;
        }
        // Keep the 3 x 3 square around the base clear.
        let mut k: usize = 0;
        while k < 9
            invariant
                k <= 9,
                base == (Point { x: width / 2, y: height / 2 }),
                grid@.len() == height,
                forall|j: int| 0 <= j < height ==> (#[trigger] grid@[j])@.len() == width,
                forall|j: int, i: int|
                    0 <= j < height && 0 <= i < width ==> (#[trigger] grid@[j]@[i]) == if near_base(base, i, j)
                        && (j - base.y + 1) * 3 + (i - base.x + 1) < k {
                        Tile::Empty
                    } else if obstacles@[j]@[i] {
                        Tile::Obstacle
                    } else {
                        Tile::Empty
                    },
            decreases 9 - k,
        {
            let dx = k % 3;
            let dy = k / 3;
            if (dx >= 1 || base.x >= 1) && (dy >= 1 || base.y >= 1) {
                let x = if dx >= 1 { base.x + (dx - 1) } else { base.x - 1 };
                let y = if dy >= 1 { base.y + (dy - 1) } else { base.y - 1 };
                if x < width && y < height {
                    grid[y][x] = Tile::Empty;
                }
            }
            k += 1;
        }
        grid[base.y][base.x] = Tile::Base;
        proof {
            let g = rows_of(grid@);
            assert forall|j: int, i: int| 0 <= j < g.len() && 0 <= i < g[j].len() implies !is_resource(#[trigger] g[j][i]) by {
                assert(g[j] == grid@[j]@);
            }
            lemma_no_resources(g);
        }
        let mut attempt: usize = 0;
        while attempt < RESOURCE_ATTEMPTS
            invariant
                0 < width,
                0 < height,
                obstacles@.len() == height,
                forall|j: int| 0 <= j < height ==> (#[trigger] obstacles@[j])@.len() == width,
                base == (Point { x: width / 2, y: height / 2 }),
                grid@.len() == height,
                forall|j: int| 0 <= j < height ==> (#[trigger] grid@[j])@.len() == width,
                forall|j: int, i: int|
                    0 <= j < height && 0 <= i < width ==> generated_tile(
                        obstacles@[j]@[i],
                        near_base(base, i, j),
                        i == base.x && j == base.y,
                        #[trigger] grid@[j]@[i],
                    ),
                attempt <= RESOURCE_ATTEMPTS,
                resource_count(rows_of(grid@)) <= attempt,
            decreases RESOURCE_ATTEMPTS - attempt,
        {
            let rx = crate::random::random_between(0, width);
            let ry = crate::random::random_between(0, height);
            let quantity = crate::random::random_between(50, 201) as u32;
            let energy = crate::random::random_ratio(1, 2);
            let ghost g = rows_of(grid@);
            proof {
                assert(g[ry as int] == grid@[ry as int]@);
                if g[ry as int][rx as int] is Empty && !(rx == base.x && ry == base.y) {
                    lemma_resource_count_update(g, ry as int, rx as int, resource_tile(quantity, energy));
                }
            }
            place_resource(&mut grid, base, rx, ry, quantity, energy);
            proof {
                assert forall|j: int| 0 <= j < height implies (#[trigger] grid@[j])@.len() == width by {
                    assert(grid@[j]@ == rows_of(grid@)[j]);
                    assert(g[j].len() == width);
                }
                assert forall|j: int, i: int|
                    0 <= j < height && 0 <= i < width implies generated_tile(
                        obstacles@[j]@[i],
                        near_base(base, i, j),
                        i == base.x && j == base.y,
                        #[trigger] grid@[j]@[i],
                    ) by {
                    assert(grid@[j]@ == rows_of(grid@)[j]);
                }
            }
            attempt += 1;
        }
        TileMap { width, height, grid, base }
    }


    /// The grid's rows as sequences of tiles.
    pub open spec fn cells(&self) -> Seq<Seq<Tile>> {
        rows_of(self.grid@)
    }

    /// The grid has `height` rows of `width` tiles, and the base lies on it.
    /// (That the two sides add up within `usize` follows from the grid fitting
    /// in memory.)
    pub open spec fn wf(&self) -> bool {
        &&& self.grid@.len() == self.height
        &&& forall|y: int| 0 <= y < self.height ==> (#[trigger] self.grid@[y])@.len() == self.width
        &&& self.base.x < self.width
        &&& self.base.y < self.height
        &&& self.width + self.height <= usize::MAX
    }

    pub open spec fn inside(&self, x: int, y: int) -> bool {
        0 <= x < self.width && 0 <= y < self.height
    }

    pub open spec fn tile(&self, x: int, y: int) -> Tile {
        self.cells()[y][x]
    }

    pub open spec fn walkable_at(&self, x: int, y: int) -> bool {
        !(self.tile(x, y) is Obstacle)
    }

    /// Whether the signed coordinates `(x, y)` lie on the grid.
    pub fn in_bounds(&self, x: isize, y: isize) -> (r: bool)
        ensures
            r == self.inside(x as int, y as int),
    {
        x >= 0 && y >= 0 && (x as usize) < self.width && (y as usize) < self.height
    }

    /// Whether a robot may stand on the cell `(x, y)`: anything but an obstacle.
    pub fn is_walkable(&self, x: usize, y: usize) -> (r: bool)
        requires
            y < self.grid@.len(),
            x < self.grid@[y as int]@.len(),
        ensures
            r == self.walkable_at(x as int, y as int),
    {
        !matches!(self.grid[y][x], Tile::Obstacle)
    }

    /// Whether the cell `(x, y)` is empty ground.
    pub fn is_empty_at(&self, x: usize, y: usize) -> (r: bool)
        requires
            y < self.grid@.len(),
            x < self.grid@[y as int]@.len(),
        ensures
            r == (self.tile(x as int, y as int) is Empty),
    {
        matches!(self.grid[y][x], Tile::Empty)
    }

    /// Whether the cell `(x, y)` holds energy.
    pub fn is_energy_at(&self, x: usize, y: usize) -> (r: bool)
        requires
            y < self.grid@.len(),
            x < self.grid@[y as int]@.len(),
        ensures
            r == (self.tile(x as int, y as int) is Energy),
    {
        matches!(self.grid[y][x], Tile::Energy(_))
    }

    /// Takes one unit from the resource tile at `(x, y)`, emptying the tile
    /// when its last unit goes, and names the kind taken. Any other tile is
    /// left as it is and gives `None`.
    pub fn take_resource_unit(&mut self, x: usize, y: usize) -> (r: Option<&'static str>)
        requires
            y < old(self).grid@.len(),
            x < old(self).grid@[y as int]@.len(),
        ensures
            old(self).wf() ==> final(self).wf(),
            final(self).grid@.len() == old(self).grid@.len(),
            took_unit(*old(self), *final(self), x as int, y as int, r),
    {
        let current = self.grid[y][x];
        let (taken, next): (Option<&'static str>, Tile) = match current {
            Tile::Energy(amount) if amount > 0 => {
                let remaining = amount.saturating_sub(1);
                (Some("energy"), if remaining == 0 { Tile::Empty } else { Tile::Energy(remaining) })
            },
            Tile::Crystal(amount) if amount > 0 => {
                let remaining = amount.saturating_sub(1);
                (Some("crystal"), if remaining == 0 { Tile::Empty } else { Tile::Crystal(remaining) })
            },
            _ => (None, current),
        };
        let ghost before = self.cells();
        self.grid[y][x] = next;
        assert(self.cells() =~= before.update(y as int, before[y as int].update(x as int, next)));
        taken
    }
}

} // verus!

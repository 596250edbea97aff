use robot_rust::map::{place_resource, Tile, TileMap};
use robot_rust::robot::Point;

fn open_map(width: usize, height: usize) -> TileMap {
    TileMap {
        width,
        height,
        grid: vec![vec![Tile::Empty; width]; height],
        base: Point { x: width / 2, y: height / 2 },
    }
}

#[test]
fn in_bounds_accepts_cells_on_the_grid() {
    let map = open_map(5, 3);
    assert!(map.in_bounds(0, 0));
    assert!(map.in_bounds(4, 2));
    assert!(!map.in_bounds(-1, 0));
    assert!(!map.in_bounds(0, -1));
    assert!(!map.in_bounds(5, 0));
    assert!(!map.in_bounds(0, 3));
}

#[test]
fn only_obstacles_block_the_way() {
    let mut map = open_map(4, 4);
    map.grid[1][2] = Tile::Obstacle;
    map.grid[0][0] = Tile::Energy(3);
    map.grid[3][3] = Tile::Crystal(1);
    map.grid[2][2] = Tile::Base;
    assert!(!map.is_walkable(2, 1));
    assert!(map.is_walkable(0, 0));
    assert!(map.is_walkable(3, 3));
    assert!(map.is_walkable(2, 2));
    assert!(map.is_walkable(1, 1));
}

#[test]
fn taking_energy_decrements_the_tile() {
    let mut map = open_map(3, 3);
    map.grid[1][0] = Tile::Energy(3);
    assert_eq!(map.take_resource_unit(0, 1), Some("energy"));
    assert_eq!(map.grid[1][0], Tile::Energy(2));
    assert_eq!(map.take_resource_unit(0, 1), Some("energy"));
    assert_eq!(map.take_resource_unit(0, 1), Some("energy"));
    assert_eq!(map.grid[1][0], Tile::Empty);
    assert_eq!(map.take_resource_unit(0, 1), None);
    assert_eq!(map.grid[1][0], Tile::Empty);
}

#[test]
fn taking_the_last_crystal_empties_the_tile() {
    let mut map = open_map(3, 3);
    map.grid[2][2] = Tile::Crystal(1);
    assert_eq!(map.take_resource_unit(2, 2), Some("crystal"));
    assert_eq!(map.grid[2][2], Tile::Empty);
}

#[test]
fn taking_from_other_tiles_changes_nothing() {
    let mut map = open_map(3, 3);
    map.grid[0][1] = Tile::Obstacle;
    map.grid[0][2] = Tile::Energy(0);
    map.grid[1][1] = Tile::Base;
    assert_eq!(map.take_resource_unit(1, 0), None);
    assert_eq!(map.take_resource_unit(2, 0), None);
    assert_eq!(map.take_resource_unit(1, 1), None);
    assert_eq!(map.take_resource_unit(0, 0), None);
    assert_eq!(map.grid[0][1], Tile::Obstacle);
    assert_eq!(map.grid[0][2], Tile::Energy(0));
    assert_eq!(map.grid[1][1], Tile::Base);
    assert_eq!(map.grid[0][0], Tile::Empty);
}

#[test]
fn emptiness_and_energy_queries() {
    let mut map = open_map(2, 2);
    map.grid[0][1] = Tile::Energy(5);
    map.grid[1][0] = Tile::Crystal(5);
    assert!(map.is_empty_at(0, 0));
    assert!(!map.is_empty_at(1, 0));
    assert!(map.is_energy_at(1, 0));
    assert!(!map.is_energy_at(0, 1));
}

#[test]
fn new_map_follows_the_terrain_and_clears_the_base() {
    let width = 9;
    let height = 7;
    let obstacles = vec![vec![true; width]; height];
    let map = TileMap::new(width, height, &obstacles);
    assert_eq!(map.width, width);
    assert_eq!(map.height, height);
    assert_eq!(map.base, Point { x: 4, y: 3 });
    assert_eq!(map.grid.len(), height);
    for (y, row) in map.grid.iter().enumerate() {
        assert_eq!(row.len(), width);
        for (x, tile) in row.iter().enumerate() {
            let near = (x as isize - 4).abs() <= 1 && (y as isize - 3).abs() <= 1;
            if x == 4 && y == 3 {
                assert_eq!(*tile, Tile::Base);
            } else if near {
                assert!(!matches!(tile, Tile::Obstacle | Tile::Base));
            } else {
                assert_eq!(*tile, Tile::Obstacle);
            }
        }
    }
}

#[test]
fn new_map_scatters_fresh_resources_on_open_ground() {
    let width = 40;
    let height = 30;
    let obstacles = vec![vec![false; width]; height];
    let map = TileMap::new(width, height, &obstacles);
    let mut resources = 0;
    let mut energy = 0;
    for row in map.grid.iter() {
        for tile in row.iter() {
            match tile {
                Tile::Energy(q) => {
                    assert!((50..=200).contains(q));
                    resources += 1;
                    energy += 1;
                }
                Tile::Crystal(q) => {
                    assert!((50..=200).contains(q));
                    resources += 1;
                }
                Tile::Obstacle => panic!("no obstacle was asked for"),
                _ => {}
            }
        }
    }
    assert!(resources >= 1);
    assert!(resources <= 24);
    assert!(energy <= resources);
    assert_eq!(map.grid[15][20], Tile::Base);
}

#[test]
fn new_map_of_one_cell_is_the_base() {
    let map = TileMap::new(1, 1, &vec![vec![true]]);
    assert_eq!(map.base, Point { x: 0, y: 0 });
    assert_eq!(map.grid, vec![vec![Tile::Base]]);
}

#[test]
fn new_maps_hold_both_kinds_of_resource() {
    let mut energy = 0;
    let mut crystal = 0;
    for _ in 0..6 {
        let map = TileMap::new(40, 30, &vec![vec![false; 40]; 30]);
        for row in map.grid.iter() {
            for tile in row.iter() {
                match tile {
                    Tile::Energy(_) => energy += 1,
                    Tile::Crystal(_) => crystal += 1,
                    _ => {}
                }
            }
        }
    }
    assert!(energy > 0);
    assert!(crystal > 0);
}

#[test]
fn place_resource_fills_only_empty_ground_off_the_base() {
    let base = Point { x: 1, y: 1 };
    let mut grid = vec![vec![Tile::Empty; 3]; 3];
    grid[1][1] = Tile::Base;
    grid[0][2] = Tile::Obstacle;
    grid[2][0] = Tile::Crystal(60);

    place_resource(&mut grid, base, 0, 0, 120, true);
    assert_eq!(grid[0][0], Tile::Energy(120));

    place_resource(&mut grid, base, 2, 2, 75, false);
    assert_eq!(grid[2][2], Tile::Crystal(75));

    place_resource(&mut grid, base, 1, 1, 90, true);
    assert_eq!(grid[1][1], Tile::Base);

    place_resource(&mut grid, base, 2, 0, 90, true);
    assert_eq!(grid[0][2], Tile::Obstacle);

    place_resource(&mut grid, base, 0, 2, 200, true);
    assert_eq!(grid[2][0], Tile::Crystal(60));

    place_resource(&mut grid, base, 0, 0, 50, false);
    assert_eq!(grid[0][0], Tile::Energy(120));
}

#[test]
fn place_resource_skips_an_emptied_base_cell() {
    let base = Point { x: 0, y: 0 };
    let mut grid = vec![vec![Tile::Empty; 2]; 1];
    place_resource(&mut grid, base, 0, 0, 100, true);
    assert_eq!(grid[0][0], Tile::Empty);
    place_resource(&mut grid, base, 1, 0, 100, false);
    assert_eq!(grid[0][1], Tile::Crystal(100));
}

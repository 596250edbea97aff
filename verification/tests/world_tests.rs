use robot_rust::map::Tile;
use robot_rust::robot::{Point, ResourceDiscovery, ResourceKind, RobotType};

fn open_terrain(width: usize, height: usize) -> Vec<Vec<bool>> {
    vec![vec![false; width]; height]
}

fn on_open_ground(map: &robot_rust::map::TileMap, p: Point) -> bool {
    p.x < map.width && p.y < map.height && map.grid[p.y][p.x] != Tile::Obstacle
}

#[test]
fn robot_module_world_is_the_message_world() {
    let world = robot_rust::robot::World::new(9, 7, &open_terrain(9, 7));
    let base = Point { x: 4, y: 3 };
    assert_eq!(world.map.base, base);
    let cells: Vec<Point> = world.robots.iter().map(|r| r.position()).collect();
    assert_eq!(
        cells,
        vec![base, Point { x: 5, y: 3 }, Point { x: 3, y: 3 }, Point { x: 4, y: 4 }, Point { x: 4, y: 2 }]
    );
    assert!(world.known_obstacles.is_empty());
    assert_eq!(
        world.summary(),
        " Énergie: 0  |  Cristaux: 0  |  Ressources connues: 0  |  Obstacles connus: 0  |  Tick: 0"
    );
}

#[test]
fn world_tick_adds_deliveries_to_the_totals() {
    let mut world = robot_rust::robot::World::new(7, 7, &open_terrain(7, 7));
    world.robots[0].robot_type = RobotType::Collector;
    world.robots[0].carrying_energy = 4;
    world.robots[0].carrying_crystal = 2;
    world.tick();
    assert_eq!(world.tick, 1);
    assert_eq!(world.total_energy, 4);
    assert_eq!(world.total_crystals, 2);
    assert_eq!(world.robots[0].carrying_energy, 0);
    assert_eq!(world.robots[0].carrying_crystal, 0);
}

#[test]
fn world_totals_stop_at_the_largest_count() {
    let mut world = robot_rust::robot::World::new(7, 7, &open_terrain(7, 7));
    world.total_energy = u32::MAX - 1;
    world.robots[0].robot_type = RobotType::Collector;
    world.robots[0].carrying_energy = 4;
    world.tick();
    assert_eq!(world.total_energy, u32::MAX);
}

#[test]
fn world_keeps_its_invariants_over_many_ticks() {
    let mut terrain = open_terrain(30, 20);
    for y in 0..20 {
        for x in 0..30 {
            terrain[y][x] = (x * 7 + y * 13) % 11 == 0;
        }
    }
    let mut world = robot_rust::robot::World::new(30, 20, &terrain);
    let obstacles_before: Vec<Vec<bool>> =
        world.map.grid.iter().map(|row| row.iter().map(|t| *t == Tile::Obstacle).collect()).collect();
    for step in 1..=300u64 {
        let energy = world.total_energy;
        let crystals = world.total_crystals;
        world.tick();
        assert_eq!(world.tick, step);
        assert!(world.total_energy >= energy);
        assert!(world.total_crystals >= crystals);
        for robot in &world.robots {
            assert!(on_open_ground(&world.map, robot.position()));
            assert!(robot.carrying_energy + robot.carrying_crystal <= 12);
            if robot.robot_type == RobotType::Scout {
                assert_eq!(robot.carrying_energy + robot.carrying_crystal, 0);
            }
        }
        for (i, a) in world.known_resources.iter().enumerate() {
            assert!(!matches!(world.map.grid[a.position.y][a.position.x], Tile::Empty));
            for b in world.known_resources.iter().skip(i + 1) {
                assert_ne!(a.position, b.position);
            }
        }
        let obstacles_now: Vec<Vec<bool>> =
            world.map.grid.iter().map(|row| row.iter().map(|t| *t == Tile::Obstacle).collect()).collect();
        assert_eq!(obstacles_now, obstacles_before);
    }
}

#[test]
fn shared_world_spreads_the_crew_around_the_base() {
    let world = robot_rust::world::World::new(9, 7, &open_terrain(9, 7));
    let cells: Vec<Point> = world.robots.iter().map(|r| r.position()).collect();
    assert_eq!(
        cells,
        vec![
            Point { x: 4, y: 3 },
            Point { x: 5, y: 3 },
            Point { x: 3, y: 3 },
            Point { x: 4, y: 4 },
            Point { x: 4, y: 2 },
        ]
    );
    let types: Vec<RobotType> = world.robots.iter().map(|r| r.robot_type).collect();
    assert_eq!(
        types,
        vec![RobotType::Scout, RobotType::Scout, RobotType::Collector, RobotType::Collector, RobotType::Collector]
    );
    assert!(world.known_obstacles.is_empty());
    assert_eq!(
        world.summary(),
        " Énergie: 0  |  Cristaux: 0  |  Ressources connues: 0  |  Obstacles connus: 0  |  Tick: 0"
    );
}

#[test]
fn shared_world_on_one_cell_keeps_the_crew_on_it() {
    let world = robot_rust::world::World::new(1, 1, &vec![vec![false]]);
    for robot in &world.robots {
        assert_eq!(robot.position(), Point { x: 0, y: 0 });
    }
}

#[test]
fn shared_world_robot_at() {
    let world = robot_rust::world::World::new(9, 7, &open_terrain(9, 7));
    assert_eq!(world.robot_at(3, 3).map(|r| r.robot_type), Some(RobotType::Collector));
    assert!(world.robot_at(0, 0).is_none());
}

#[test]
fn shared_world_learns_from_the_messages() {
    let mut world = robot_rust::world::World::new(5, 5, &open_terrain(5, 5));
    for row in world.map.grid.iter_mut() {
        for tile in row.iter_mut() {
            if *tile != Tile::Base {
                *tile = Tile::Empty;
            }
        }
    }
    world.map.grid[1][3] = Tile::Crystal(9);
    world.map.grid[2][0] = Tile::Obstacle;
    world.tick();
    assert_eq!(world.tick, 1);
    assert!(world
        .known_resources
        .contains(&ResourceDiscovery { position: Point { x: 3, y: 1 }, kind: ResourceKind::Crystal }));
    assert_eq!(world.known_obstacles, vec![Point { x: 0, y: 2 }]);
    assert_eq!(
        world.summary(),
        " Énergie: 0  |  Cristaux: 0  |  Ressources connues: 1  |  Obstacles connus: 1  |  Tick: 1"
    );
}

#[test]
fn shared_world_drops_resources_reported_depleted() {
    let mut world = robot_rust::world::World::new(5, 5, &open_terrain(5, 5));
    for row in world.map.grid.iter_mut() {
        for tile in row.iter_mut() {
            if *tile != Tile::Base {
                *tile = Tile::Empty;
            }
        }
    }
    // A collector stands on a listed resource whose tile is already empty.
    let target = Point { x: 2, y: 1 };
    world.known_resources = vec![ResourceDiscovery { position: target, kind: ResourceKind::Energy }];
    world.robots[4].mode = robot_rust::robot::CollectorMode::ToResource(target);
    world.tick();
    assert!(world.known_resources.is_empty());
    assert_eq!(world.robots[4].mode, robot_rust::robot::CollectorMode::Exploring);
}

#[test]
fn shared_world_never_puts_two_robots_on_one_cell() {
    let mut terrain = open_terrain(25, 15);
    for y in 0..15 {
        for x in 0..25 {
            terrain[y][x] = (x * 5 + y * 3) % 7 == 0;
        }
    }
    let mut world = robot_rust::world::World::new(25, 15, &terrain);
    for step in 1..=400u64 {
        let energy = world.total_energy;
        world.tick();
        assert_eq!(world.tick, step);
        assert!(world.total_energy >= energy);
        for (i, a) in world.robots.iter().enumerate() {
            assert!(on_open_ground(&world.map, a.position()));
            assert!(a.carrying_energy + a.carrying_crystal <= 12);
            for b in world.robots.iter().skip(i + 1) {
                assert_ne!(a.position(), b.position());
            }
        }
        for (i, p) in world.known_obstacles.iter().enumerate() {
            assert_eq!(world.map.grid[p.y][p.x], Tile::Obstacle);
            assert!(!world.known_obstacles[i + 1..].contains(p));
        }
        for (i, a) in world.known_resources.iter().enumerate() {
            assert!(!matches!(world.map.grid[a.position.y][a.position.x], Tile::Empty));
            for b in world.known_resources.iter().skip(i + 1) {
                assert_ne!(a.position, b.position);
            }
        }
    }
}

#[test]
fn worlds_of_one_cell_tick_without_moving() {
    let mut solo = robot_rust::robot::World::new(1, 1, &vec![vec![false]]);
    let mut shared = robot_rust::world::World::new(1, 1, &vec![vec![false]]);
    for _ in 0..5 {
        solo.tick();
        shared.tick();
    }
    assert_eq!(solo.tick, 5);
    assert_eq!(shared.tick, 5);
    for robot in solo.robots.iter().chain(shared.robots.iter()) {
        assert_eq!(robot.position(), Point { x: 0, y: 0 });
    }
    assert_eq!(solo.map.grid, vec![vec![Tile::Base]]);
}

#[test]
fn tick_counter_wraps_around() {
    let mut world = robot_rust::world::World::new(3, 3, &open_terrain(3, 3));
    world.tick = u64::MAX;
    world.tick();
    assert_eq!(world.tick, 0);
}

#[test]
fn shared_world_forgets_a_cell_last_reported_depleted() {
    let mut world = robot_rust::world::World::new(7, 7, &open_terrain(7, 7));
    for row in world.map.grid.iter_mut() {
        for tile in row.iter_mut() {
            if matches!(tile, Tile::Energy(_) | Tile::Crystal(_)) {
                *tile = Tile::Empty;
            }
        }
    }
    world.map.grid[0][0] = Tile::Energy(2);
    world.known_resources.push(ResourceDiscovery { position: Point { x: 0, y: 0 }, kind: ResourceKind::Energy });
    for _ in 0..200 {
        world.tick();
        for r in &world.known_resources {
            assert!(!matches!(world.map.grid[r.position.y][r.position.x], Tile::Empty));
        }
    }
    assert!(world.known_resources.iter().all(|r| r.position != Point { x: 0, y: 0 })
        || world.map.grid[0][0] != Tile::Empty);
}

#[test]
fn shared_world_neither_creates_nor_destroys_units() {
    let mut world = robot_rust::world::World::new(15, 11, &open_terrain(15, 11));
    world.map.grid[5][9] = Tile::Energy(4);
    world.map.grid[3][7] = Tile::Crystal(3);
    let count = |w: &robot_rust::world::World| {
        let mut e = w.total_energy as u64;
        let mut c = w.total_crystals as u64;
        for r in &w.robots {
            e += r.carrying_energy as u64;
            c += r.carrying_crystal as u64;
        }
        for row in &w.map.grid {
            for t in row {
                match t {
                    Tile::Energy(n) => e += *n as u64,
                    Tile::Crystal(n) => c += *n as u64,
                    _ => {}
                }
            }
        }
        (e, c)
    };
    let start = count(&world);
    for _ in 0..200 {
        world.tick();
        assert_eq!(count(&world), start);
    }
}

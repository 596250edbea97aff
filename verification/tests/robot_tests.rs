use robot_rust::map::{Tile, TileMap};
use robot_rust::robot::{
    CollectorMode, Point, ResourceDiscovery, ResourceKind, Robot, RobotMessage, RobotType,
};

fn open_map(width: usize, height: usize, base: Point) -> TileMap {
    TileMap { width, height, grid: vec![vec![Tile::Empty; width]; height], base }
}

fn adjacent(a: Point, b: Point) -> bool {
    (a.x == b.x && (a.y + 1 == b.y || b.y + 1 == a.y)) || (a.y == b.y && (a.x + 1 == b.x || b.x + 1 == a.x))
}

#[test]
fn new_robot_starts_empty_handed_and_exploring() {
    let robot = Robot::new(3, 4, RobotType::Collector);
    assert_eq!(robot.x, 3);
    assert_eq!(robot.y, 4);
    assert_eq!(robot.robot_type, RobotType::Collector);
    assert_eq!(robot.carrying_energy, 0);
    assert_eq!(robot.carrying_crystal, 0);
    assert_eq!(robot.mode, CollectorMode::Exploring);
    assert_eq!(robot.visited, vec![Point { x: 3, y: 4 }]);
    assert_eq!(robot.position(), Point { x: 3, y: 4 });
}

#[test]
fn cargo_total_adds_both_kinds() {
    let mut robot = Robot::new(0, 0, RobotType::Collector);
    robot.carrying_energy = 7;
    robot.carrying_crystal = 5;
    assert_eq!(robot.cargo_total(), 12);
}

#[test]
fn is_at_base_compares_with_the_base_cell() {
    let map = open_map(5, 5, Point { x: 2, y: 2 });
    assert!(Robot::new(2, 2, RobotType::Scout).is_at_base(&map));
    assert!(!Robot::new(2, 1, RobotType::Scout).is_at_base(&map));
}

#[test]
fn collector_at_base_hands_its_load_over() {
    let mut map = open_map(5, 5, Point { x: 2, y: 2 });
    let mut robot = Robot::new(2, 2, RobotType::Collector);
    robot.carrying_energy = 3;
    robot.carrying_crystal = 2;
    robot.mode = CollectorMode::ReturningBase;
    let mut known = Vec::new();
    assert_eq!(robot.update(&mut map, &mut known), Some((3, 2)));
    assert_eq!(robot.carrying_energy, 0);
    assert_eq!(robot.carrying_crystal, 0);
    assert_eq!(robot.mode, CollectorMode::Exploring);
    assert_eq!(robot.position(), Point { x: 2, y: 2 });
}

#[test]
fn full_collector_heads_home_along_a_shortest_walk() {
    let mut map = open_map(7, 7, Point { x: 3, y: 3 });
    let mut robot = Robot::new(0, 3, RobotType::Collector);
    robot.carrying_crystal = 12;
    let mut known = Vec::new();
    assert_eq!(robot.update(&mut map, &mut known), None);
    assert_eq!(robot.mode, CollectorMode::ReturningBase);
    assert_eq!(robot.position(), Point { x: 1, y: 3 });
    assert_eq!(robot.carrying_crystal, 12);
}

#[test]
fn collector_walks_around_a_wall() {
    // Column x = 1 is walled off on the two upper rows; the base is at (2, 1).
    let mut map = open_map(5, 3, Point { x: 2, y: 1 });
    map.grid[0][1] = Tile::Obstacle;
    map.grid[1][1] = Tile::Obstacle;
    let mut robot = Robot::new(0, 0, RobotType::Collector);
    robot.carrying_energy = 12;
    let mut known = Vec::new();
    robot.update(&mut map, &mut known);
    assert_eq!(robot.position(), Point { x: 0, y: 1 });
    robot.update(&mut map, &mut known);
    assert_eq!(robot.position(), Point { x: 0, y: 2 });
    robot.update(&mut map, &mut known);
    assert_eq!(robot.position(), Point { x: 1, y: 2 });
    robot.update(&mut map, &mut known);
    assert_eq!(robot.position(), Point { x: 2, y: 2 });
    robot.update(&mut map, &mut known);
    assert_eq!(robot.position(), Point { x: 2, y: 1 });
    assert_eq!(robot.update(&mut map, &mut known), Some((12, 0)));
}

#[test]
fn collector_gives_up_an_unreachable_resource() {
    let mut map = open_map(5, 3, Point { x: 0, y: 2 });
    for y in 0..3 {
        map.grid[y][2] = Tile::Obstacle;
    }
    map.grid[0][4] = Tile::Energy(5);
    let target = Point { x: 4, y: 0 };
    let mut known = vec![ResourceDiscovery { position: target, kind: ResourceKind::Energy }];
    let mut robot = Robot::new(0, 0, RobotType::Collector);
    robot.mode = CollectorMode::ToResource(target);
    assert_eq!(robot.update(&mut map, &mut known), None);
    assert_eq!(robot.mode, CollectorMode::Exploring);
    assert_eq!(robot.position(), Point { x: 0, y: 0 });
}

#[test]
fn collector_on_its_target_takes_one_unit() {
    let mut map = open_map(3, 3, Point { x: 0, y: 0 });
    map.grid[1][1] = Tile::Energy(2);
    let target = Point { x: 1, y: 1 };
    let mut robot = Robot::new(1, 1, RobotType::Collector);
    robot.mode = CollectorMode::ToResource(target);
    let mut known = Vec::new();
    assert_eq!(robot.update(&mut map, &mut known), None);
    assert_eq!(robot.carrying_energy, 1);
    assert_eq!(robot.carrying_crystal, 0);
    assert_eq!(map.grid[1][1], Tile::Energy(1));
    assert_eq!(known, vec![ResourceDiscovery { position: target, kind: ResourceKind::Energy }]);
    assert_eq!(robot.mode, CollectorMode::ToResource(target));
}

#[test]
fn collector_forgets_a_depleted_target() {
    let mut map = open_map(3, 3, Point { x: 0, y: 0 });
    let target = Point { x: 1, y: 1 };
    let mut robot = Robot::new(1, 1, RobotType::Collector);
    robot.mode = CollectorMode::ToResource(target);
    let mut known = vec![ResourceDiscovery { position: target, kind: ResourceKind::Crystal }];
    assert_eq!(robot.update(&mut map, &mut known), None);
    assert!(known.is_empty());
    assert_eq!(robot.mode, CollectorMode::Exploring);
    assert_eq!(robot.carrying_crystal, 0);
}

#[test]
fn exploring_collector_heads_for_the_nearest_known_resource() {
    let mut map = open_map(9, 9, Point { x: 4, y: 4 });
    map.grid[4][8] = Tile::Energy(5);
    map.grid[6][4] = Tile::Crystal(5);
    let far = ResourceDiscovery { position: Point { x: 8, y: 4 }, kind: ResourceKind::Energy };
    let near = ResourceDiscovery { position: Point { x: 4, y: 6 }, kind: ResourceKind::Crystal };
    let mut known = vec![far, near];
    let mut robot = Robot::new(4, 4, RobotType::Collector);
    assert_eq!(robot.update(&mut map, &mut known), None);
    assert_eq!(robot.mode, CollectorMode::ToResource(Point { x: 4, y: 6 }));
    assert_eq!(robot.position(), Point { x: 4, y: 5 });
    assert_eq!(known, vec![far, near]);
}

#[test]
fn exploring_collector_skips_emptied_resources() {
    let mut map = open_map(9, 9, Point { x: 4, y: 4 });
    map.grid[4][8] = Tile::Energy(5);
    let gone = ResourceDiscovery { position: Point { x: 4, y: 6 }, kind: ResourceKind::Crystal };
    let far = ResourceDiscovery { position: Point { x: 8, y: 4 }, kind: ResourceKind::Energy };
    let mut known = vec![gone, far];
    let mut robot = Robot::new(4, 4, RobotType::Collector);
    robot.update(&mut map, &mut known);
    assert_eq!(robot.mode, CollectorMode::ToResource(Point { x: 8, y: 4 }));
    assert_eq!(robot.position(), Point { x: 5, y: 4 });
}

#[test]
fn exploring_collector_away_from_base_returns_to_it() {
    let mut map = open_map(6, 1, Point { x: 0, y: 0 });
    let mut robot = Robot::new(5, 0, RobotType::Collector);
    let mut known = Vec::new();
    robot.update(&mut map, &mut known);
    assert_eq!(robot.position(), Point { x: 4, y: 0 });
    assert_eq!(robot.mode, CollectorMode::Exploring);
}

#[test]
fn idle_collector_patrols_next_to_the_base() {
    let mut map = open_map(5, 5, Point { x: 2, y: 2 });
    let mut robot = Robot::new(2, 2, RobotType::Collector);
    let mut known = Vec::new();
    robot.update(&mut map, &mut known);
    assert!(adjacent(Point { x: 2, y: 2 }, robot.position()));
    assert!(robot.visited.contains(&robot.position()));
}

#[test]
fn scan_reports_resources_in_reading_order_once() {
    let mut map = open_map(3, 3, Point { x: 1, y: 1 });
    map.grid[0][0] = Tile::Energy(5);
    map.grid[2][2] = Tile::Crystal(7);
    map.grid[0][1] = Tile::Obstacle;
    map.grid[1][0] = Tile::Obstacle;
    map.grid[2][1] = Tile::Obstacle;
    let mut robot = Robot::new(1, 1, RobotType::Scout);
    let mut known = Vec::new();
    assert_eq!(robot.update(&mut map, &mut known), None);
    assert_eq!(
        known,
        vec![
            ResourceDiscovery { position: Point { x: 0, y: 0 }, kind: ResourceKind::Energy },
            ResourceDiscovery { position: Point { x: 2, y: 2 }, kind: ResourceKind::Crystal },
        ]
    );
    // The only open neighbour is (2, 1).
    assert_eq!(robot.position(), Point { x: 2, y: 1 });
    assert_eq!(robot.visited, vec![Point { x: 1, y: 1 }, Point { x: 2, y: 1 }]);
    robot.update(&mut map, &mut known);
    assert_eq!(known.len(), 2);
}

#[test]
fn boxed_in_scout_stays() {
    let mut map = open_map(3, 3, Point { x: 0, y: 0 });
    map.grid[0][1] = Tile::Obstacle;
    map.grid[1][0] = Tile::Obstacle;
    map.grid[1][2] = Tile::Obstacle;
    map.grid[2][1] = Tile::Obstacle;
    let mut robot = Robot::new(1, 1, RobotType::Scout);
    let mut known = Vec::new();
    assert_eq!(robot.update(&mut map, &mut known), None);
    assert_eq!(robot.position(), Point { x: 1, y: 1 });
    assert_eq!(robot.visited, vec![Point { x: 1, y: 1 }]);
}

#[test]
fn scout_prefers_cells_it_has_not_visited() {
    for _ in 0..20 {
        let mut map = open_map(3, 3, Point { x: 0, y: 0 });
        map.grid[0][1] = Tile::Obstacle;
        map.grid[1][0] = Tile::Obstacle;
        map.grid[2][1] = Tile::Obstacle;
        let mut robot = Robot::new(1, 1, RobotType::Scout);
        let mut known = Vec::new();
        robot.update(&mut map, &mut known);
        assert_eq!(robot.position(), Point { x: 2, y: 1 });
        robot.update(&mut map, &mut known);
        let p = robot.position();
        assert!(p == Point { x: 2, y: 0 } || p == Point { x: 2, y: 2 });
        assert_eq!(robot.carrying_energy + robot.carrying_crystal, 0);
    }
}

#[test]
fn shared_update_keeps_off_an_occupied_cell() {
    let mut map = open_map(3, 1, Point { x: 1, y: 0 });
    let mut robot = Robot::new(0, 0, RobotType::Collector);
    robot.carrying_energy = 12;
    let known = Vec::new();
    let mut outbox = Vec::new();
    let mut occupied = vec![Point { x: 0, y: 0 }, Point { x: 1, y: 0 }];
    assert_eq!(robot.update_shared(&mut map, &known, &mut outbox, &mut occupied), None);
    assert_eq!(robot.position(), Point { x: 0, y: 0 });
    assert_eq!(robot.mode, CollectorMode::ReturningBase);
    assert_eq!(occupied, vec![Point { x: 0, y: 0 }, Point { x: 1, y: 0 }]);
    assert!(outbox.is_empty());
}

#[test]
fn shared_update_moves_the_occupied_cell_along() {
    let mut map = open_map(3, 1, Point { x: 2, y: 0 });
    let mut robot = Robot::new(0, 0, RobotType::Collector);
    robot.carrying_energy = 12;
    let known = Vec::new();
    let mut outbox = Vec::new();
    let mut occupied = vec![Point { x: 0, y: 0 }];
    robot.update_shared(&mut map, &known, &mut outbox, &mut occupied);
    assert_eq!(robot.position(), Point { x: 1, y: 0 });
    assert_eq!(occupied, vec![Point { x: 1, y: 0 }]);
}

#[test]
fn shared_update_reports_what_it_sees() {
    let mut map = open_map(3, 3, Point { x: 1, y: 1 });
    map.grid[0][0] = Tile::Obstacle;
    map.grid[2][2] = Tile::Energy(4);
    let mut robot = Robot::new(1, 1, RobotType::Collector);
    let known = Vec::new();
    let mut outbox = vec![RobotMessage::ResourceDepleted(Point { x: 2, y: 0 })];
    let mut occupied = vec![Point { x: 1, y: 1 }];
    robot.update_shared(&mut map, &known, &mut outbox, &mut occupied);
    assert_eq!(outbox[0], RobotMessage::ResourceDepleted(Point { x: 2, y: 0 }));
    assert_eq!(outbox[1], RobotMessage::ObstacleFound(Point { x: 0, y: 0 }));
    assert_eq!(
        outbox[2],
        RobotMessage::ResourceFound(ResourceDiscovery { position: Point { x: 2, y: 2 }, kind: ResourceKind::Energy })
    );
    // The snapshot was empty, so the collector patrols instead of collecting.
    assert_eq!(map.grid[2][2], Tile::Energy(4));
}

#[test]
fn collector_beside_the_map_walks_onto_it_towards_the_base() {
    let mut map = open_map(5, 5, Point { x: 2, y: 2 });
    let mut robot = Robot::new(5, 2, RobotType::Collector);
    robot.carrying_energy = 12;
    let mut known = Vec::new();
    assert_eq!(robot.update(&mut map, &mut known), None);
    assert_eq!(robot.mode, CollectorMode::ReturningBase);
    assert_eq!(robot.position(), Point { x: 4, y: 2 });
}

#[test]
fn scout_beside_the_map_steps_onto_its_only_neighbour() {
    let mut map = open_map(3, 3, Point { x: 1, y: 1 });
    let mut robot = Robot::new(1, 3, RobotType::Scout);
    let mut known = Vec::new();
    assert_eq!(robot.update(&mut map, &mut known), None);
    assert_eq!(robot.position(), Point { x: 1, y: 2 });
}

#[test]
fn scout_far_from_the_map_sees_nothing_and_stays() {
    let mut map = open_map(3, 3, Point { x: 1, y: 1 });
    map.grid[0][0] = Tile::Energy(5);
    let mut robot = Robot::new(10, 10, RobotType::Scout);
    let mut known = Vec::new();
    assert_eq!(robot.update(&mut map, &mut known), None);
    assert_eq!(robot.position(), Point { x: 10, y: 10 });
    assert!(known.is_empty());
}

#[test]
fn collector_takes_the_earliest_of_equally_short_first_moves() {
    // From (0, 0) towards the base (2, 2), right and down are both first
    // moves of shortest walks; right comes before down.
    let mut map = open_map(5, 5, Point { x: 2, y: 2 });
    let mut robot = Robot::new(0, 0, RobotType::Collector);
    robot.carrying_energy = 12;
    let mut known = Vec::new();
    robot.update(&mut map, &mut known);
    assert_eq!(robot.position(), Point { x: 1, y: 0 });

    // From (4, 4), up and left both lead there as fast; up comes first.
    let mut robot = Robot::new(4, 4, RobotType::Collector);
    robot.carrying_crystal = 12;
    robot.update(&mut map, &mut known);
    assert_eq!(robot.position(), Point { x: 4, y: 3 });

    // From (4, 0), down and left tie; down comes first.
    let mut robot = Robot::new(4, 0, RobotType::Collector);
    robot.carrying_crystal = 12;
    robot.update(&mut map, &mut known);
    assert_eq!(robot.position(), Point { x: 4, y: 1 });
}

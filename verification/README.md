# robot_rust

A grid simulation in which scout and collector robots explore a map,
discover energy and crystal deposits, and carry them back to a central base.
The decision logic is written in Verus and proved against its contracts.

## Layout

- `src/map.rs` — tiles, the map, taking resource units, laying a resource
  on empty ground (`place_resource`), generating a map from an obstacle
  layout (the base in the middle, its surroundings cleared, up to 24 fresh
  resources laid at random draws), and counting the units a grid holds.
- `src/path.rs` — walks over the grid and the facts breadth-first search
  rests on; the search itself is `Robot::next_step_towards`, proved to
  return the first move of a shortest walk.
- `src/knowledge.rs` — what a robot's scan reports and how a list of known
  resources takes reports in.
- `src/conduct.rs` — what one step of a scout or a collector does, stated
  relationally (random choices and ties between equally short routes are
  left open), and the facts about steps the worlds build on.
- `src/robot.rs` — the robot types and their executable logic (a robot
  updating on its own, or among others by message); `robot::World` names
  the one world of `src/world.rs`.
- `src/world.rs` — the world, in which robots spawn on distinct cells
  around the base, report by message, keep off
  each other's cells, and never share a cell.
- `src/random.rs` — the two random draws taken from the `rand` crate.
- `src/text.rs` — decimal rendering for the status lines.
- `app/main.rs` — the terminal front end: Perlin-noise terrain, ratatui
  rendering and the simulation thread.

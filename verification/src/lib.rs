//! Navigation core for a floorplan of parallel shelving lanes.
//!
//! - `layout`: the two orientations of a floorplan and the axis swap between them.
//! - `grid`: the occupancy grid and its rasterization from lane spans.
//! - `pathfinding`: routes over cells, snapping to walkable cells, shortest routes.
//! - `astar`: the search itself, with the proof that it finds a shortest route.
//! - `corridors`: which cells of a lane grid a route can join.
//! - `route`: stitching legs into detours and choosing between two detours.
//! - `stepper`: the decisions of one tick of a moving agent.
//! - `sampling`: the acceptance rule for random destinations.
//! - `scores`: the per-cell tables that the search keeps.
//!
//! Nothing here computes with coordinates: callers turn points into cells and
//! measurements into flags, and get cells and decisions back.

pub mod astar;
pub mod corridors;
pub mod grid;
pub mod layout;
pub mod pathfinding;
pub mod route;
pub mod sampling;
pub mod scores;
pub mod stepper;

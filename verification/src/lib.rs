//! Map data as a routable graph: a stream of points and ways becomes a dataset with
//! dense point indices, a graph with a grid for nearest-point lookup, routes by
//! breadth-first and by best-first search, a name index, and the line-strip buffers
//! that a renderer draws under a camera that can be dragged and zoomed.
//!
//! All coordinates are fixed-point integers, so every result is exact: map positions
//! are in the unit of the map data, and render space and the camera count in units of
//! 2^-30.

pub mod astar;
pub mod bfs;
pub mod camera;
pub mod frontier;
pub mod geom;
pub mod graph;
pub mod grid;
pub mod names;
pub mod osm;
pub mod render;
pub mod route;
pub mod tags;
pub mod trace;

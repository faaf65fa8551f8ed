//! Procedural hex-grid maps: axial/cube coordinate math, A* pathfinding over a set of
//! traversable cells, Voronoi region assignment, growing-tree road networks, a connectivity
//! check for road sets, the layout grid with its persistent pre-constraints, and the JSON
//! coordinate-list format used at the boundary.

pub mod hex;
pub mod pathfind;
pub mod tile;
pub mod regions;
pub mod connectivity;
pub mod roads;
pub mod grid;
pub mod wire;

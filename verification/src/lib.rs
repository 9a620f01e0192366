//! Graph algorithms over a weighted adjacency-list graph: traversals, minimum
//! spanning trees, single-source shortest paths and grid pathfinding, built on
//! an indexed binary min-heap.
//!
//! - `distance`: a distance that is finite or infinite.
//! - `edge`, `graph`: edges, edge lists and the graph itself.
//! - `heap`: the indexed binary min-heap.
//! - `paths`: what paths, reachability and path weights are.
//! - `traversal`: breadth-first and depth-first search.
//! - `shortest_path`: Bellman-Ford and Dijkstra.
//! - `mst`, `spanning`: Kruskal and Prim, and why both are lightest.
//! - `terrain`, `astar`: the height map and A* on it.

pub mod distance;
pub mod edge;
pub mod graph;
pub mod heap;
pub mod paths;
pub mod traversal;
pub mod shortest_path;
pub mod mst;
pub mod spanning;
pub mod terrain;
pub mod astar;

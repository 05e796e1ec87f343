//! Tile-grid pathfinding built around an incremental multi-source flood fill:
//! a cost grid is turned into a distance field (cheapest cost to the nearest
//! frontier tile), and agents derive greedy steps by reading that field.
pub mod cancel;
pub mod field;
pub mod laws;
pub mod id_generator;
pub mod math;
pub mod pathfinder;
pub mod render;
pub mod storage;

//! A text-maze shortest-path library.
//!
//! A rectangular character grid is turned into a graph of walkable cells
//! (`builder`), and a best-first search over that graph returns a shortest
//! path from the start cell to the end cell, or reports that none exists
//! (`search`).

pub mod builder;
pub mod coord;
pub mod graph;
pub mod laws;
pub mod search;
pub mod table;

//! A* pathfinding on a bounded rectangular grid with an octile cost model.
//!
//! The grid is a rectangular board of cells that are free, blocked, or marked
//! as the start or end of a search. The solver runs a best-first search over
//! the eight-connected neighbourhood of each cell, using an integer octile
//! distance as the heuristic and unit step costs for the accumulated path
//! cost, and reconstructs the lowest-cost path from a predecessor table.

pub mod gen;
pub mod grid;
pub mod node;
pub mod search;
pub mod solver;

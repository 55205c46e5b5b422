//! Procedural world-map generation: Voronoi-cell sectors with an adjacency
//! graph, breadth-first biome propagation, constrained random placement of
//! cities and resource nodes, and cost-weighted A* road pathfinding with
//! smoothed curves.
//!
//! All geometry is carried in fixed-point coordinates (thousandths of a world
//! unit), so every stage of the pipeline is exact integer arithmetic. The
//! floating-point tessellation backend feeds the pipeline through plain
//! integer data built by the surrounding application.

pub mod biome;
pub mod city;
pub mod counting;
pub mod geom;
pub mod map;
pub mod resource;
pub mod rng;
pub mod road;
pub mod settings;
pub mod world;

use vstd::prelude::*;

verus! {

} // verus!

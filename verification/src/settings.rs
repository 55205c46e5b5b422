//! The configuration record of the world generator. All lengths are in
//! fixed-point thousandths of a world unit.

use vstd::prelude::*;

use crate::geom::{Vec2i, COORD_LIMIT};
use crate::map::{margin_ok, size_ok};

verus! {

/// Tunable parameters of one world generation run.
pub struct MapGenSettings {
    /// Width and height of the map rectangle.
    pub size: Vec2i,
    /// Target number of tessellation sectors.
    pub sector_num: u32,
    /// Number of Lloyd relaxation passes of the tessellation.
    pub lloyd_iters: u32,
    /// Padding around the map rectangle in which sites may fall.
    pub generator_border: i64,
    /// Frequency of the terrain-height noise field, in millionths per
    /// coordinate step; consumed by the noise sampler.
    pub altitude_perlin_scale: i64,
    /// Number of biome seed sectors to draw.
    pub biome_seed_num: u32,
    /// Number of cities to place.
    pub city_num: u32,
    /// Minimum distance between two cities.
    pub city_min_spacing: i64,
    /// Half-open range of initial city populations.
    pub city_start_pop_range: (u32, u32),
    /// Margin near the map boundary where no city may stand.
    pub city_deadzone: i64,
    /// Half-open range of resource nodes drawn per city.
    pub nodes_per_city_range: (u32, u32),
    /// Largest distance from a node to its owning city.
    pub node_city_max_dist: i64,
    /// Smallest distance from a node to any city.
    pub node_city_min_dist: i64,
    /// Minimum distance between two resource nodes.
    pub node_min_spacing: i64,
    /// Margin near the map boundary where no node may stand.
    pub node_deadzone: i64,
    /// Seed of the random stream driving the whole run.
    pub seed: u64,
}

impl MapGenSettings {
    /// A settings record the generator accepts.
    pub open spec fn wf(self) -> bool {
        &&& size_ok(self.size)
        &&& margin_ok(self.generator_border)
        &&& 0 <= self.city_min_spacing <= COORD_LIMIT
        &&& 0 <= self.city_deadzone <= COORD_LIMIT
        &&& self.city_start_pop_range.0 < self.city_start_pop_range.1
        &&& self.nodes_per_city_range.0 < self.nodes_per_city_range.1
        &&& 0 <= self.node_city_max_dist <= COORD_LIMIT
        &&& 0 <= self.node_city_min_dist <= COORD_LIMIT
        &&& 0 <= self.node_min_spacing <= COORD_LIMIT
        &&& 0 <= self.node_deadzone <= COORD_LIMIT
    }

    /// Whether a settings record is acceptable, decided at run time.
    pub fn check(&self) -> (r: bool)
        ensures
            r == self.wf(),
    {
        0 < self.size.x && self.size.x <= COORD_LIMIT / 2 && 0 < self.size.y && self.size.y
            <= COORD_LIMIT / 2 && 0 <= self.generator_border && self.generator_border
            <= COORD_LIMIT / 4 && 0 <= self.city_min_spacing && self.city_min_spacing
            <= COORD_LIMIT && 0 <= self.city_deadzone && self.city_deadzone <= COORD_LIMIT
            && self.city_start_pop_range.0 < self.city_start_pop_range.1
            && self.nodes_per_city_range.0 < self.nodes_per_city_range.1 && 0
            <= self.node_city_max_dist && self.node_city_max_dist <= COORD_LIMIT && 0
            <= self.node_city_min_dist && self.node_city_min_dist <= COORD_LIMIT && 0
            <= self.node_min_spacing && self.node_min_spacing <= COORD_LIMIT && 0
            <= self.node_deadzone && self.node_deadzone <= COORD_LIMIT
    }
}

} // verus!

//! The generation entry point: the staged pipeline from a configuration
//! record and tessellation data to the finished world.

use vstd::prelude::*;

use crate::biome::{enabled_biome, generate_biomes, settleable_biome};
use crate::city::{in_deadzone, name_from_pool, names_distinct, spawn_cities, City};
use crate::geom::{dist_sq, Vec2i};
use crate::map::{
    cells_ok, connected, generate_map, generate_sites, in_padded_rect, sites_after, GenError,
    RawCell, SectorGraph, MIN_SITE_GAP_SQ, SITE_ATTEMPT_BUDGET,
};
use crate::resource::{node_ok, spawn_resource_nodes, ResourceNode};
use crate::rng::{wy_advance, wy_output, RandomStream};
use crate::road::{road_ok, spawn_node_roads, Road};
use crate::settings::MapGenSettings;

verus! {

/// Samples per curve segment of every road.
pub const ROAD_SUBDIVISIONS: usize = 16;

/// The site-planning stage's output: the noise seed for the height field,
/// the accepted sites, and the stream to continue generation with.
pub struct SitePlan {
    /// Seed for the coherent height-noise field.
    pub noise_seed: u64,
    /// The accepted tessellation sites, in acceptance order.
    pub sites: Vec<Vec2i>,
    /// The random stream, advanced past the draws made so far.
    pub rng: RandomStream,
}

/// The finished world of one generation run.
pub struct WorldMap {
    /// The sector graph.
    pub graph: SectorGraph,
    /// All placed cities.
    pub cities: Vec<City>,
    /// All placed resource nodes.
    pub nodes: Vec<ResourceNode>,
    /// One road per reachable (city, resource node) pair.
    pub roads: Vec<Road>,
}

/// A city as it stands in the finished world: every placement constraint
/// of settlement placement, with its node list since filled in.
pub open spec fn settled_city_ok(c: City, g: SectorGraph, settings: MapGenSettings) -> bool {
    &&& c.sector < g.sectors@.len()
    &&& c.position == g.sectors@[c.sector as int].centroid
    &&& !in_deadzone(c.position, settings.size, settings.city_deadzone)
    &&& (g.sectors@[c.sector as int].biome matches Some(b) && settleable_biome(b))
    &&& settings.city_start_pop_range.0 <= c.population < settings.city_start_pop_range.1
}

/// First stage of generation: validate the settings, seed the random
/// stream, draw the seed of the height-noise field, and reject-sample the
/// tessellation sites inside the padded map rectangle. The sites then go
/// to the tessellation backend, whose cells feed [`generate_world`].
pub fn plan_sites(settings: &MapGenSettings) -> (r: Result<SitePlan, GenError>)
    ensures
        match r {
            Ok(plan) => {
                &&& settings.wf()
                &&& plan.noise_seed == wy_output(wy_advance(settings.seed))
                &&& plan.sites@ == sites_after(
                    wy_advance(settings.seed),
                    settings.size,
                    settings.generator_border,
                    settings.sector_num as int,
                    SITE_ATTEMPT_BUDGET as int,
                ).0
                &&& plan.rng.state == sites_after(
                    wy_advance(settings.seed),
                    settings.size,
                    settings.generator_border,
                    settings.sector_num as int,
                    SITE_ATTEMPT_BUDGET as int,
                ).1
                &&& plan.sites@.len() <= settings.sector_num
                &&& forall|i: int|
                    0 <= i < plan.sites@.len() ==> in_padded_rect(
                        #[trigger] plan.sites@[i],
                        settings.size,
                        settings.generator_border,
                    )
                &&& forall|i: int, j: int|
                    0 <= i < plan.sites@.len() && 0 <= j < plan.sites@.len() && i != j ==> dist_sq(
                        #[trigger] plan.sites@[i],
                        #[trigger] plan.sites@[j],
                    ) >= MIN_SITE_GAP_SQ
            },
            Err(e) => e == GenError::DegenerateSize && !settings.wf(),
        },
{
    if !settings.check() {
        return Err(GenError::DegenerateSize);
    }
    let mut rng = RandomStream::new(settings.seed);
    let noise_seed = rng.next_u64();
    let sites = generate_sites(
        &mut rng,
        settings.size,
        settings.generator_border,
        settings.sector_num as usize,
    );
    Ok(SitePlan { noise_seed, sites, rng })
}

/// Remaining stages of generation, fed with the tessellation cells built
/// from the planned sites: build the sector graph, propagate biomes, place
/// cities and resource nodes, and connect them by roads. Each stage
/// consumes the previous stage's finalized structures; the random stream
/// continues from the site-planning stage.
pub fn generate_world(
    settings: &MapGenSettings,
    rng: &mut RandomStream,
    cells: &Vec<RawCell>,
    adjacency: &Vec<Vec<usize>>,
    names: &mut Vec<String>,
) -> (r: Result<WorldMap, GenError>)
    ensures
        match r {
            Ok(w) => {
                &&& settings.wf()
                &&& old(names)@.len() >= settings.city_num
                &&& w.graph.wf()
                &&& w.graph.sectors@.len() == cells@.len()
                &&& forall|i: int|
                    0 <= i < w.graph.sectors@.len() ==> ((#[trigger] w.graph.sectors@[i]).biome
                        matches Some(b) ==> enabled_biome(b))
                &&& (settings.biome_seed_num == 0 ==> forall|i: int|
                    0 <= i < w.graph.sectors@.len() ==> (
                    #[trigger] w.graph.sectors@[i]).biome is None)
                &&& forall|i: int, j: int|
                    #[trigger] crate::map::adjacent(w.graph.sectors@, i, j)
                        && w.graph.sectors@[i].biome is Some ==> w.graph.sectors@[j].biome is Some
                &&& (settings.biome_seed_num >= 1 && cells@.len() >= 1 ==> exists|i: int|
                    0 <= i < w.graph.sectors@.len() && (
                    #[trigger] w.graph.sectors@[i]).biome is Some)
                &&& ((settings.biome_seed_num >= 1 && cells@.len() >= 1 && connected(
                    w.graph.sectors@,
                )) ==> forall|i: int|
                    0 <= i < w.graph.sectors@.len() ==> (
                    #[trigger] w.graph.sectors@[i]).biome is Some)
                &&& w.cities@.len() <= settings.city_num
                &&& (settings.city_num == 0 ==> w.cities@.len() == 0)
                &&& forall|i: int|
                    0 <= i < w.cities@.len() ==> settled_city_ok(
                        #[trigger] w.cities@[i],
                        w.graph,
                        *settings,
                    )
                &&& forall|i: int, j: int|
                    0 <= i < w.cities@.len() && 0 <= j < w.cities@.len() && i != j ==> dist_sq(
                        (#[trigger] w.cities@[i]).position,
                        (#[trigger] w.cities@[j]).position,
                    ) >= settings.city_min_spacing * settings.city_min_spacing
                &&& forall|i: int, j: int|
                    0 <= i < w.cities@.len() && 0 <= j < w.cities@.len() && i != j ==> (
                    #[trigger] w.cities@[i]).sector != (#[trigger] w.cities@[j]).sector
                &&& (names_distinct(old(names)@) ==> names_distinct(
                    w.cities@.map_values(|c: City| c.name),
                ))
                &&& forall|i: int|
                    0 <= i < w.cities@.len() ==> name_from_pool(
                        old(names)@,
                        #[trigger] w.cities@[i],
                    )
                &&& forall|k: int|
                    0 <= k < w.nodes@.len() ==> node_ok(
                        #[trigger] w.nodes@[k],
                        w.graph,
                        w.cities@.map_values(|c: City| c.position),
                        *settings,
                    )
                &&& forall|k1: int, k2: int|
                    0 <= k1 < w.nodes@.len() && 0 <= k2 < w.nodes@.len() && k1 != k2 ==> dist_sq(
                        (#[trigger] w.nodes@[k1]).position,
                        (#[trigger] w.nodes@[k2]).position,
                    ) >= settings.node_min_spacing * settings.node_min_spacing
                &&& forall|i: int, t: int|
                    0 <= i < w.cities@.len() && 0 <= t < (
                    #[trigger] w.cities@[i]).resource_nodes@.len() ==> {
                        let idx = #[trigger] w.cities@[i].resource_nodes@[t];
                        idx < w.nodes@.len() && w.nodes@[idx as int].city == i
                    }
                &&& w.roads@.len() <= w.nodes@.len()
                &&& forall|k: int|
                    0 <= k < w.nodes@.len() ==> (crate::map::reachable(
                        w.graph.sectors@,
                        w.cities@[(#[trigger] w.nodes@[k]).city as int].sector as int,
                        w.nodes@[k].sector as int,
                    ) <==> exists|t: int|
                        0 <= t < w.roads@.len() && (#[trigger] w.roads@[t]).node == k)
                &&& forall|t: int|
                    0 <= t < w.roads@.len() ==> road_ok(
                        #[trigger] w.roads@[t],
                        w.graph,
                        w.cities@,
                        w.nodes@,
                        ROAD_SUBDIVISIONS as int,
                    )
                &&& (connected(w.graph.sectors@) ==> w.roads@.len() == w.nodes@.len())
            },
            Err(e) => {
                ||| (e == GenError::DegenerateSize && !settings.wf())
                ||| (e == GenError::TooFewSites && cells@.len() < 3)
                ||| (e == GenError::DegenerateCell && cells@.len() >= 3 && !cells_ok(
                    cells@,
                    adjacency@,
                    settings.size,
                ))
                ||| (e == GenError::TooFewNames && old(names)@.len() < settings.city_num)
            },
        },
{
    if !settings.check() {
        return Err(GenError::DegenerateSize);
    }
    if names.len() < settings.city_num as usize {
        return Err(GenError::TooFewNames);
    }
    let mut graph = match generate_map(cells, adjacency, settings.size) {
        Ok(g) => g,
        Err(e) => {
            return Err(e);
        },
    };
    let ghost graph0: Seq<crate::map::Sector> = graph.sectors@;
    generate_biomes(&mut graph, rng, settings.biome_seed_num);
    proof {
        crate::map::lemma_same_structure(graph0, graph.sectors@);
    }
    let mut cities = spawn_cities(&graph, rng, settings, names);
    let ghost placed: Seq<City> = cities@;
    let nodes = spawn_resource_nodes(&graph, &mut cities, rng, settings);
    proof {
        if names_distinct(old(names)@) {
            let nm = cities@.map_values(|c: City| c.name);
            let nm0 = placed.map_values(|c: City| c.name);
            assert forall|a: int, b: int|
                0 <= a < nm.len() && 0 <= b < nm.len() && a != b implies (#[trigger] nm[a])@ != (
            #[trigger] nm[b])@ by {
                assert(nm[a]@ == cities@[a].name@);
                assert(nm[b]@ == cities@[b].name@);
                assert(cities@[a].name@ == placed[a].name@);
                assert(cities@[b].name@ == placed[b].name@);
                assert(nm0[a]@ == placed[a].name@);
                assert(nm0[b]@ == placed[b].name@);
            }
        }
        assert(cities@.map_values(|c: City| c.position) =~= placed.map_values(
            |c: City| c.position,
        ));
        assert forall|i: int|
            0 <= i < cities@.len() implies name_from_pool(old(names)@, #[trigger] cities@[i]) by {
            assert(name_from_pool(old(names)@, placed[i]));
            let t = choose|t: int|
                0 <= t < old(names)@.len() && (#[trigger] old(names)@[t])@ == placed[i].name@;
            assert(cities@[i].name@ == placed[i].name@);
        }
    }
    proof {
        assert forall|i: int|
            0 <= i < cities@.len() implies (#[trigger] cities@[i]).sector
            < graph.sectors@.len() by {
            assert(settled_city_ok(cities@[i], graph, *settings));
        }
    }
    let roads = spawn_node_roads(&graph, &cities, &nodes, ROAD_SUBDIVISIONS);
    Ok(WorldMap { graph, cities, nodes, roads })
}

impl WorldMap {
    /// Look up a city by key; an invalid key is a distinct error.
    pub fn city(&self, key: usize) -> (r: Result<&City, GenError>)
        ensures
            match r {
                Ok(c) => key < self.cities@.len() && *c == self.cities@[key as int],
                Err(e) => e == GenError::UnknownSector && key >= self.cities@.len(),
            },
    {
        if key < self.cities.len() {
            Ok(&self.cities[key])
        } else {
            Err(GenError::UnknownSector)
        }
    }

    /// Look up a resource node by key; an invalid key is a distinct error.
    pub fn node(&self, key: usize) -> (r: Result<&ResourceNode, GenError>)
        ensures
            match r {
                Ok(nd) => key < self.nodes@.len() && *nd == self.nodes@[key as int],
                Err(e) => e == GenError::UnknownSector && key >= self.nodes@.len(),
            },
    {
        if key < self.nodes.len() {
            Ok(&self.nodes[key])
        } else {
            Err(GenError::UnknownSector)
        }
    }

    /// Look up the road serving a resource node, if one was built.
    pub fn road_for_node(&self, node_key: usize) -> (r: Result<&Road, GenError>)
        ensures
            match r {
                Ok(rd) => exists|t: int|
                    0 <= t < self.roads@.len() && *rd == (#[trigger] self.roads@[t])
                        && self.roads@[t].node == node_key,
                Err(e) => e == GenError::NoPathFound && forall|t: int|
                    0 <= t < self.roads@.len() ==> (#[trigger] self.roads@[t]).node != node_key,
            },
    {
        let mut t: usize = 0;
        while t < self.roads.len()
            invariant
                0 <= t <= self.roads@.len(),
                forall|k: int| 0 <= k < t ==> (#[trigger] self.roads@[k]).node != node_key,
            decreases self.roads@.len() - t,
        {
            if self.roads[t].node == node_key {
                return Ok(&self.roads[t]);
            }
            t = t + 1;
        }
        Err(GenError::NoPathFound)
    }
}

} // verus!

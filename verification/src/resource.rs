//! Resource-node placement: per-city bounded rejection sampling under
//! deadzone, spacing, distance and biome constraints, with the node type
//! derived from the host sector's biome.

use vstd::prelude::*;

use crate::biome::{biome_node_type, node_type_for_biome, ResourceNodeType};
use crate::city::{city_ok, in_deadzone, City};
use crate::geom::{dist_sq, dist_sq_val, point_ok, Vec2i};
use crate::map::{copy_keys, SectorGraph};
use crate::rng::{wy_advance, wy_draw, RandomStream};
use crate::settings::MapGenSettings;

verus! {

/// Budget of draws per city for node rejection sampling; exhaustion yields
/// fewer nodes, which is not an error.
pub const NODE_ATTEMPT_BUDGET: usize = 1000;

/// A kind of non-global resource a production site yields.
#[derive(Clone, Copy, Debug, PartialEq, Eq, Structural)]
pub enum Resource {
    Wheat,
    Ore,
    Lumber,
}

/// The single resource kind each node type produces.
pub open spec fn node_resource(t: ResourceNodeType) -> Resource {
    match t {
        ResourceNodeType::Farm => Resource::Wheat,
        ResourceNodeType::Mine => Resource::Ore,
        ResourceNodeType::Lumbermill => Resource::Lumber,
    }
}

/// Look up the resource kind a node type produces.
pub fn resource_for_node_type(t: ResourceNodeType) -> (r: Resource)
    ensures
        r == node_resource(t),
{
    match t {
        ResourceNodeType::Farm => Resource::Wheat,
        ResourceNodeType::Mine => Resource::Ore,
        ResourceNodeType::Lumbermill => Resource::Lumber,
    }
}

/// A resource-production site owned by exactly one city.
#[derive(Debug, Clone)]
pub struct ResourceNode {
    /// The kind of production site, derived from the host sector's biome.
    pub node_type: ResourceNodeType,
    /// The resource kind this node produces, derived from its type.
    pub produces: Resource,
    /// Key of the host sector.
    pub sector: usize,
    /// Key of the owning city.
    pub city: usize,
    /// The node position: the host sector's centroid.
    pub position: Vec2i,
}

/// A placed node satisfies its sector, type, deadzone and distance
/// constraints with respect to the city positions `cps`.
pub open spec fn node_ok(
    nd: ResourceNode,
    g: SectorGraph,
    cps: Seq<Vec2i>,
    settings: MapGenSettings,
) -> bool {
    &&& nd.sector < g.sectors@.len()
    &&& nd.position == g.sectors@[nd.sector as int].centroid
    &&& nd.city < cps.len()
    &&& (g.sectors@[nd.sector as int].biome matches Some(b) && biome_node_type(b) == Some(
        nd.node_type,
    ))
    &&& nd.produces == node_resource(nd.node_type)
    &&& !in_deadzone(nd.position, settings.size, settings.node_deadzone)
    &&& forall|j: int|
        0 <= j < cps.len() ==> dist_sq(nd.position, #[trigger] cps[j])
            >= settings.node_city_min_dist * settings.node_city_min_dist
    &&& dist_sq(nd.position, cps[nd.city as int]) <= settings.node_city_max_dist
        * settings.node_city_max_dist
    &&& forall|j: int|
        0 <= j < cps.len() && j != nd.city ==> dist_sq(nd.position, cps[nd.city as int]) < dist_sq(
            nd.position,
            #[trigger] cps[j],
        )
}

/// The node sampler accepts a drawn sector for owner `own` against the
/// nodes accepted so far (each a host sector key and an owner key): its
/// centroid clears the deadzone, keeps the minimum distance to every city
/// and to every earlier node, lies within reach of the owner, is strictly
/// nearer to the owner than to any other city, and its biome yields a
/// node type.
pub open spec fn node_accepted(
    g: SectorGraph,
    settings: MapGenSettings,
    cps: Seq<Vec2i>,
    acc: Seq<(int, int)>,
    own: int,
    idx: int,
) -> bool {
    let pos = g.sectors@[idx].centroid;
    &&& !in_deadzone(pos, settings.size, settings.node_deadzone)
    &&& !(exists|j: int|
        0 <= j < cps.len() && dist_sq(pos, #[trigger] cps[j]) < settings.node_city_min_dist
            * settings.node_city_min_dist)
    &&& !(exists|k: int|
        0 <= k < acc.len() && dist_sq(pos, g.sectors@[(#[trigger] acc[k]).0].centroid)
            < settings.node_min_spacing * settings.node_min_spacing)
    &&& dist_sq(pos, cps[own]) <= settings.node_city_max_dist * settings.node_city_max_dist
    &&& !(exists|j: int|
        0 <= j < cps.len() && j != own && dist_sq(pos, #[trigger] cps[j]) <= dist_sq(pos, cps[own]))
    &&& (g.sectors@[idx].biome matches Some(b) && biome_node_type(b) is Some)
}

/// The accepted nodes and stream state after `k` attempts of one city's
/// round: the round starts from `acc0` accepted nodes and stops once
/// `target` further nodes are accepted for owner `own`.
pub open spec fn city_nodes_after(
    s0: u64,
    g: SectorGraph,
    settings: MapGenSettings,
    cps: Seq<Vec2i>,
    acc0: Seq<(int, int)>,
    own: int,
    target: int,
    k: int,
) -> (Seq<(int, int)>, u64)
    decreases k,
{
    if k <= 0 {
        (acc0, s0)
    } else {
        let prev = city_nodes_after(s0, g, settings, cps, acc0, own, target, k - 1);
        if prev.0.len() - acc0.len() >= target {
            prev
        } else {
            let idx = wy_draw(prev.1, g.sectors@.len() as u64) as int;
            let s1 = wy_advance(prev.1);
            if node_accepted(g, settings, cps, prev.0, own, idx) {
                (prev.0.push((idx, own)), s1)
            } else {
                (prev.0, s1)
            }
        }
    }
}

/// The accepted nodes and stream state after the rounds of the first `ci`
/// cities: each round first draws its target count, then runs its
/// attempts.
pub open spec fn node_rounds(
    s0: u64,
    g: SectorGraph,
    settings: MapGenSettings,
    cps: Seq<Vec2i>,
    ci: int,
) -> (Seq<(int, int)>, u64)
    decreases ci,
{
    if ci <= 0 || g.sectors@.len() == 0 {
        (Seq::<(int, int)>::empty(), s0)
    } else {
        let prev = node_rounds(s0, g, settings, cps, ci - 1);
        let target = settings.nodes_per_city_range.0 + wy_draw(
            prev.1,
            (settings.nodes_per_city_range.1 - settings.nodes_per_city_range.0) as u64,
        );
        let s1 = wy_advance(prev.1);
        city_nodes_after(
            s1,
            g,
            settings,
            cps,
            prev.0,
            ci - 1,
            target as int,
            NODE_ATTEMPT_BUDGET as int,
        )
    }
}

/// The whole node-placement run, over every city.
pub open spec fn nodes_run(
    s0: u64,
    g: SectorGraph,
    settings: MapGenSettings,
    cities: Seq<City>,
) -> (Seq<(int, int)>, u64) {
    node_rounds(s0, g, settings, cities.map_values(|c: City| c.position), cities.len() as int)
}

/// Once a round has accepted its target, further attempts change nothing.
pub proof fn lemma_city_nodes_stable(
    s0: u64,
    g: SectorGraph,
    settings: MapGenSettings,
    cps: Seq<Vec2i>,
    acc0: Seq<(int, int)>,
    own: int,
    target: int,
    k1: int,
    k2: int,
)
    requires
        0 <= k1 <= k2,
        city_nodes_after(s0, g, settings, cps, acc0, own, target, k1).0.len() - acc0.len()
            >= target,
    ensures
        city_nodes_after(s0, g, settings, cps, acc0, own, target, k2) == city_nodes_after(
            s0,
            g,
            settings,
            cps,
            acc0,
            own,
            target,
            k1,
        ),
    decreases k2 - k1,
{
    if k2 > k1 {
        lemma_city_nodes_stable(s0, g, settings, cps, acc0, own, target, k1, k2 - 1);
    }
}

/// Whether `p` comes within the given squared distance of a listed point.
fn point_too_close(points: &Vec<Vec2i>, p: Vec2i, min_sq: i128) -> (r: bool)
    requires
        point_ok(p),
        forall|i: int| 0 <= i < points@.len() ==> point_ok(#[trigger] points@[i]),
    ensures
        r == exists|i: int|
            0 <= i < points@.len() && dist_sq(p, #[trigger] points@[i]) < min_sq,
{
    let mut i: usize = 0;
    while i < points.len()
        invariant
            point_ok(p),
            forall|k: int| 0 <= k < points@.len() ==> point_ok(#[trigger] points@[k]),
            0 <= i <= points@.len(),
            forall|k: int| 0 <= k < i ==> dist_sq(p, #[trigger] points@[k]) >= min_sq,
        decreases points@.len() - i,
    {
        if dist_sq_val(p, points[i]) < min_sq {
            return true;
        }
        i = i + 1;
    }
    false
}

/// Whether some other city position is at least as near to `p` as the
/// owner's position is.
fn other_city_as_near(cps: &Vec<Vec2i>, p: Vec2i, own: usize) -> (r: bool)
    requires
        point_ok(p),
        own < cps@.len(),
        forall|i: int| 0 <= i < cps@.len() ==> point_ok(#[trigger] cps@[i]),
    ensures
        r == exists|j: int|
            0 <= j < cps@.len() && j != own && dist_sq(p, #[trigger] cps@[j]) <= dist_sq(
                p,
                cps@[own as int],
            ),
{
    let own_d = dist_sq_val(p, cps[own]);
    let mut i: usize = 0;
    while i < cps.len()
        invariant
            point_ok(p),
            own < cps@.len(),
            forall|k: int| 0 <= k < cps@.len() ==> point_ok(#[trigger] cps@[k]),
            own_d == dist_sq(p, cps@[own as int]),
            0 <= i <= cps@.len(),
            forall|k: int|
                0 <= k < i && k != own ==> dist_sq(p, #[trigger] cps@[k]) > own_d,
        decreases cps@.len() - i,
    {
        if i != own {
            if dist_sq_val(p, cps[i]) <= own_d {
                return true;
            }
        }
        i = i + 1;
    }
    false
}

/// Place a random number of resource nodes for each city in turn, by
/// bounded rejection sampling: each draw picks a random sector and keeps it
/// only if its centroid clears the boundary deadzone, keeps the minimum
/// distance to every city and every earlier node, lies within reach of the
/// owning city, is strictly nearer to the owning city than to any other,
/// and sits in a biome that yields a node type. Each kept node is appended
/// to its owning city's node list. The placed nodes and the final stream
/// state are exactly those of the spec-level run of the sampler over the
/// wyrand draws, so the outcome is a function of the inputs alone.
pub fn spawn_resource_nodes(
    g: &SectorGraph,
    cities: &mut Vec<City>,
    rng: &mut RandomStream,
    settings: &MapGenSettings,
) -> (r: Vec<ResourceNode>)
    requires
        g.wf(),
        settings.wf(),
        forall|i: int|
            0 <= i < old(cities)@.len() ==> city_ok(#[trigger] old(cities)@[i], *g, *settings),
    ensures
        final(cities)@.len() == old(cities)@.len(),
        forall|i: int|
            0 <= i < old(cities)@.len() ==> {
                let c = #[trigger] final(cities)@[i];
                &&& c.name@ == old(cities)@[i].name@
                &&& c.sector == old(cities)@[i].sector
                &&& c.position == old(cities)@[i].position
                &&& c.population == old(cities)@[i].population
            },
        forall|k: int|
            0 <= k < r@.len() ==> node_ok(
                #[trigger] r@[k],
                *g,
                old(cities)@.map_values(|c: City| c.position),
                *settings,
            ),
        forall|k1: int, k2: int|
            0 <= k1 < r@.len() && 0 <= k2 < r@.len() && k1 != k2 ==> dist_sq(
                (#[trigger] r@[k1]).position,
                (#[trigger] r@[k2]).position,
            ) >= settings.node_min_spacing * settings.node_min_spacing,
        forall|i: int, t: int|
            0 <= i < final(cities)@.len() && 0 <= t < (
            #[trigger] final(cities)@[i]).resource_nodes@.len() ==> {
                let idx = #[trigger] final(cities)@[i].resource_nodes@[t];
                idx < r@.len() && r@[idx as int].city == i
            },
        forall|i: int|
            0 <= i < final(cities)@.len() ==> (#[trigger] final(cities)@[i]).resource_nodes@.len()
                < settings.nodes_per_city_range.1,
        forall|i: int, t1: int, t2: int|
            0 <= i < final(cities)@.len() && 0 <= t1 < t2 < (
            #[trigger] final(cities)@[i]).resource_nodes@.len() ==> (
            #[trigger] final(cities)@[i].resource_nodes@[t1]) < (
            #[trigger] final(cities)@[i].resource_nodes@[t2]),
        forall|k: int|
            0 <= k < r@.len() ==> exists|t: int|
                0 <= t < final(cities)@[(#[trigger] r@[k]).city as int].resource_nodes@.len()
                    && final(cities)@[r@[k].city as int].resource_nodes@[t] == k,
        r@.len() == nodes_run(old(rng).state, *g, *settings, old(cities)@).0.len(),
        forall|k: int|
            0 <= k < r@.len() ==> {
                let pick = nodes_run(old(rng).state, *g, *settings, old(cities)@).0[k];
                &&& ((#[trigger] r@[k]).sector as int) == pick.0
                &&& ((r@[k]).city as int) == pick.1
            },
        final(rng).state == nodes_run(old(rng).state, *g, *settings, old(cities)@).1,
{
    let n = g.len();
    let mut nodes: Vec<ResourceNode> = Vec::new();
    if n == 0 {
        proof {
            assert(nodes_run(old(rng).state, *g, *settings, old(cities)@) == (
                Seq::<(int, int)>::empty(),
                old(rng).state,
            ));
        }
        return nodes;
    }
    let ghost cities0: Seq<City> = cities@;
    // Snapshot of the city positions, shared by every distance test.
    let mut cps: Vec<Vec2i> = Vec::new();
    let mut i: usize = 0;
    while i < cities.len()
        invariant
            g.wf(),
            settings.wf(),
            cities@ == cities0,
            forall|k: int| 0 <= k < cities0.len() ==> city_ok(#[trigger] cities0[k], *g, *settings),
            0 <= i <= cities0.len(),
            cps@ == cities0.map_values(|c: City| c.position).subrange(0, i as int),
        decreases cities0.len() - i,
    {
        cps.push(cities[i].position);
        proof {
            assert(cps@ =~= cities0.map_values(|c: City| c.position).subrange(0, i + 1));
        }
        i = i + 1;
    }
    proof {
        assert(cps@ =~= cities0.map_values(|c: City| c.position));
        assert forall|k: int| 0 <= k < cps@.len() implies point_ok(#[trigger] cps@[k]) by {
            assert(city_ok(cities0[k], *g, *settings));
            assert(crate::map::wf_sector(
                g.sectors@[cities0[k].sector as int],
                cities0[k].sector as int,
                g.sectors@.len() as int,
            ));
        }
    }
    proof {
        assert(0 <= (settings.node_city_min_dist as int) * (settings.node_city_min_dist as int)
            <= 0x4000_0000_0000_0000 && 0 <= (settings.node_city_max_dist as int)
            * (settings.node_city_max_dist as int) <= 0x4000_0000_0000_0000 && 0 <= (
        settings.node_min_spacing as int) * (settings.node_min_spacing as int)
            <= 0x4000_0000_0000_0000) by (nonlinear_arith)
            requires
                0 <= settings.node_city_min_dist <= 0x8000_0000,
                0 <= settings.node_city_max_dist <= 0x8000_0000,
                0 <= settings.node_min_spacing <= 0x8000_0000,
        ;
    }
    let city_min_sq: i128 = (settings.node_city_min_dist as i128) * (settings.node_city_min_dist
        as i128);
    let city_max_sq: i128 = (settings.node_city_max_dist as i128) * (settings.node_city_max_dist
        as i128);
    let node_min_sq: i128 = (settings.node_min_spacing as i128) * (settings.node_min_spacing
        as i128);
    let mut ci: usize = 0;
    while ci < cities.len()
        invariant
            g.wf(),
            settings.wf(),
            n == g.sectors@.len(),
            n >= 1,
            cities@.len() == cities0.len(),
            cps@ == cities0.map_values(|c: City| c.position),
            forall|k: int| 0 <= k < cities0.len() ==> city_ok(#[trigger] cities0[k], *g, *settings),
            forall|k: int| 0 <= k < cps@.len() ==> point_ok(#[trigger] cps@[k]),
            city_min_sq == settings.node_city_min_dist * settings.node_city_min_dist,
            city_max_sq == settings.node_city_max_dist * settings.node_city_max_dist,
            node_min_sq == settings.node_min_spacing * settings.node_min_spacing,
            cities0 == old(cities)@,
            0 <= ci <= cities@.len(),
            nodes@.len() == node_rounds(old(rng).state, *g, *settings, cps@, ci as int).0.len(),
            forall|k: int|
                0 <= k < nodes@.len() ==> {
                    let pick = node_rounds(old(rng).state, *g, *settings, cps@, ci as int).0[k];
                    &&& ((#[trigger] nodes@[k]).sector as int) == pick.0
                    &&& ((nodes@[k]).city as int) == pick.1
                },
            rng.state == node_rounds(old(rng).state, *g, *settings, cps@, ci as int).1,
            forall|i2: int|
                0 <= i2 < cities0.len() ==> {
                    let c = #[trigger] cities@[i2];
                    &&& c.name@ == cities0[i2].name@
                    &&& c.sector == cities0[i2].sector
                    &&& c.position == cities0[i2].position
                    &&& c.population == cities0[i2].population
                },
            forall|k: int| 0 <= k < nodes@.len() ==> node_ok(#[trigger] nodes@[k], *g, cps@, *settings),
            forall|k1: int, k2: int|
                0 <= k1 < nodes@.len() && 0 <= k2 < nodes@.len() && k1 != k2 ==> dist_sq(
                    (#[trigger] nodes@[k1]).position,
                    (#[trigger] nodes@[k2]).position,
                ) >= node_min_sq,
            forall|i2: int, t: int|
                0 <= i2 < cities@.len() && 0 <= t < (
                #[trigger] cities@[i2]).resource_nodes@.len() ==> {
                    let idx = #[trigger] cities@[i2].resource_nodes@[t];
                    idx < nodes@.len() && nodes@[idx as int].city == i2
                },
            forall|i2: int|
                0 <= i2 < ci ==> (#[trigger] cities@[i2]).resource_nodes@.len()
                    < settings.nodes_per_city_range.1,
            forall|i2: int|
                ci <= i2 < cities@.len() ==> (#[trigger] cities@[i2]).resource_nodes@.len() == 0,
            forall|i2: int, t1: int, t2: int|
                0 <= i2 < cities@.len() && 0 <= t1 < t2 < (
                #[trigger] cities@[i2]).resource_nodes@.len() ==> (
                #[trigger] cities@[i2].resource_nodes@[t1]) < (
                #[trigger] cities@[i2].resource_nodes@[t2]),
            forall|k: int|
                0 <= k < nodes@.len() ==> exists|t: int|
                    0 <= t < cities@[(#[trigger] nodes@[k]).city as int].resource_nodes@.len()
                        && cities@[nodes@[k].city as int].resource_nodes@[t] == k,
        decreases cities@.len() - ci,
    {
        let ghost round_pre: (Seq<(int, int)>, u64) = node_rounds(
            old(rng).state,
            *g,
            *settings,
            cps@,
            ci as int,
        );
        let nodes_target = rng.next_in_range_u32(
            settings.nodes_per_city_range.0,
            settings.nodes_per_city_range.1,
        );
        let ghost s_round: u64 = rng.state;
        let mut nodes_to_gen = nodes_target;
        let own_pos = cps[ci];
        let mut attempt: usize = 0;
        proof {
            assert(s_round == wy_advance(round_pre.1));
            assert(nodes_target as int == settings.nodes_per_city_range.0 + wy_draw(
                round_pre.1,
                (settings.nodes_per_city_range.1 - settings.nodes_per_city_range.0) as u64,
            ));
        }
        while attempt < NODE_ATTEMPT_BUDGET && nodes_to_gen > 0
            invariant
                g.wf(),
                settings.wf(),
                n == g.sectors@.len(),
                n >= 1,
                ci < cities@.len(),
                cities@.len() == cities0.len(),
                cps@ == cities0.map_values(|c: City| c.position),
                forall|k: int|
                    0 <= k < cities0.len() ==> city_ok(#[trigger] cities0[k], *g, *settings),
                forall|k: int| 0 <= k < cps@.len() ==> point_ok(#[trigger] cps@[k]),
                own_pos == cps@[ci as int],
                city_min_sq == settings.node_city_min_dist * settings.node_city_min_dist,
                city_max_sq == settings.node_city_max_dist * settings.node_city_max_dist,
                node_min_sq == settings.node_min_spacing * settings.node_min_spacing,
                forall|i2: int|
                    0 <= i2 < cities0.len() ==> {
                        let c = #[trigger] cities@[i2];
                        &&& c.name@ == cities0[i2].name@
                        &&& c.sector == cities0[i2].sector
                        &&& c.position == cities0[i2].position
                        &&& c.population == cities0[i2].population
                    },
                forall|k: int|
                    0 <= k < nodes@.len() ==> node_ok(#[trigger] nodes@[k], *g, cps@, *settings),
                forall|k1: int, k2: int|
                    0 <= k1 < nodes@.len() && 0 <= k2 < nodes@.len() && k1 != k2 ==> dist_sq(
                        (#[trigger] nodes@[k1]).position,
                        (#[trigger] nodes@[k2]).position,
                    ) >= node_min_sq,
                forall|i2: int, t: int|
                    0 <= i2 < cities@.len() && 0 <= t < (
                    #[trigger] cities@[i2]).resource_nodes@.len() ==> {
                        let idx = #[trigger] cities@[i2].resource_nodes@[t];
                        idx < nodes@.len() && nodes@[idx as int].city == i2
                    },
                nodes_target < settings.nodes_per_city_range.1,
                nodes_to_gen <= nodes_target,
                cities@[ci as int].resource_nodes@.len() + nodes_to_gen == nodes_target,
                cities0 == old(cities)@,
                0 <= attempt <= NODE_ATTEMPT_BUDGET,
                round_pre == node_rounds(old(rng).state, *g, *settings, cps@, ci as int),
                s_round == wy_advance(round_pre.1),
                nodes_target as int == settings.nodes_per_city_range.0 + wy_draw(
                    round_pre.1,
                    (settings.nodes_per_city_range.1 - settings.nodes_per_city_range.0) as u64,
                ),
                nodes@.len() == city_nodes_after(
                    s_round,
                    *g,
                    *settings,
                    cps@,
                    round_pre.0,
                    ci as int,
                    nodes_target as int,
                    attempt as int,
                ).0.len(),
                nodes@.len() == round_pre.0.len() + (nodes_target - nodes_to_gen),
                forall|k: int|
                    0 <= k < nodes@.len() ==> {
                        let pick = city_nodes_after(
                            s_round,
                            *g,
                            *settings,
                            cps@,
                            round_pre.0,
                            ci as int,
                            nodes_target as int,
                            attempt as int,
                        ).0[k];
                        &&& ((#[trigger] nodes@[k]).sector as int) == pick.0
                        &&& ((nodes@[k]).city as int) == pick.1
                    },
                rng.state == city_nodes_after(
                    s_round,
                    *g,
                    *settings,
                    cps@,
                    round_pre.0,
                    ci as int,
                    nodes_target as int,
                    attempt as int,
                ).1,
                forall|i2: int|
                    0 <= i2 < ci ==> (#[trigger] cities@[i2]).resource_nodes@.len()
                        < settings.nodes_per_city_range.1,
                forall|i2: int|
                    ci < i2 < cities@.len() ==> (#[trigger] cities@[i2]).resource_nodes@.len()
                        == 0,
                forall|i2: int, t1: int, t2: int|
                    0 <= i2 < cities@.len() && 0 <= t1 < t2 < (
                    #[trigger] cities@[i2]).resource_nodes@.len() ==> (
                    #[trigger] cities@[i2].resource_nodes@[t1]) < (
                    #[trigger] cities@[i2].resource_nodes@[t2]),
                forall|k: int|
                    0 <= k < nodes@.len() ==> exists|t: int|
                        0 <= t < cities@[(#[trigger] nodes@[k]).city as int].resource_nodes@.len()
                            && cities@[nodes@[k].city as int].resource_nodes@[t] == k,
            decreases NODE_ATTEMPT_BUDGET - attempt,
        {
            let ghost inner_pre: (Seq<(int, int)>, u64) = city_nodes_after(
                s_round,
                *g,
                *settings,
                cps@,
                round_pre.0,
                ci as int,
                nodes_target as int,
                attempt as int,
            );
            attempt = attempt + 1;
            let ghost inner_now: (Seq<(int, int)>, u64) = city_nodes_after(
                s_round,
                *g,
                *settings,
                cps@,
                round_pre.0,
                ci as int,
                nodes_target as int,
                attempt as int,
            );
            let idx = rng.next_index(n);
            let sector = &g.sectors[idx];
            let node_pos = sector.centroid;
            proof {
                assert(crate::map::wf_sector(g.sectors@[idx as int], idx as int, n as int));
                assert(inner_pre.0.len() - round_pre.0.len() < nodes_target);
                assert(idx as int == wy_draw(inner_pre.1, n as u64) as int);
            }
            let dz = settings.node_deadzone;
            if node_pos.x <= dz || node_pos.x >= settings.size.x - dz || node_pos.y <= dz
                || node_pos.y >= settings.size.y - dz {
                proof {
                    assert(in_deadzone(node_pos, settings.size, settings.node_deadzone));
                    assert(inner_now == (inner_pre.0, wy_advance(inner_pre.1)));
                }
                continue ;
            }
            if point_too_close(&cps, node_pos, city_min_sq) {
                proof {
                    assert(!node_accepted(*g, *settings, cps@, inner_pre.0, ci as int, idx as int));
                    assert(inner_now == (inner_pre.0, wy_advance(inner_pre.1)));
                }
                continue ;
            }
            let node_positions_check = {
                let mut found = false;
                let mut k: usize = 0;
                while k < nodes.len()
                    invariant
                        point_ok(node_pos),
                        forall|k2: int|
                            0 <= k2 < nodes@.len() ==> point_ok(
                                (#[trigger] nodes@[k2]).position,
                            ),
                        0 <= k <= nodes@.len(),
                        found == exists|k2: int|
                            0 <= k2 < k && dist_sq(node_pos, (#[trigger] nodes@[k2]).position)
                                < node_min_sq,
                    decreases nodes@.len() - k,
                {
                    if !found {
                        if dist_sq_val(node_pos, nodes[k].position) < node_min_sq {
                            found = true;
                        }
                    }
                    k = k + 1;
                }
                found
            };
            if node_positions_check {
                proof {
                    let k2 = choose|k2: int|
                        0 <= k2 < nodes@.len() && dist_sq(
                            node_pos,
                            (#[trigger] nodes@[k2]).position,
                        ) < node_min_sq;
                    assert(node_ok(nodes@[k2], *g, cps@, *settings));
                    assert(nodes@[k2].position == g.sectors@[inner_pre.0[k2].0].centroid);
                    assert(!node_accepted(*g, *settings, cps@, inner_pre.0, ci as int, idx as int));
                    assert(inner_now == (inner_pre.0, wy_advance(inner_pre.1)));
                }
                continue ;
            }
            if dist_sq_val(node_pos, own_pos) > city_max_sq {
                proof {
                    assert(!node_accepted(*g, *settings, cps@, inner_pre.0, ci as int, idx as int));
                    assert(inner_now == (inner_pre.0, wy_advance(inner_pre.1)));
                }
                continue ;
            }
            if other_city_as_near(&cps, node_pos, ci) {
                proof {
                    assert(!node_accepted(*g, *settings, cps@, inner_pre.0, ci as int, idx as int));
                    assert(inner_now == (inner_pre.0, wy_advance(inner_pre.1)));
                }
                continue ;
            }
            let node_type = match sector.biome {
                Some(b) => node_type_for_biome(b),
                None => None,
            };
            let nt = match node_type {
                Some(t) => t,
                None => {
                    proof {
                        assert(!node_accepted(
                            *g,
                            *settings,
                            cps@,
                            inner_pre.0,
                            ci as int,
                            idx as int,
                        ));
                        assert(inner_now == (inner_pre.0, wy_advance(inner_pre.1)));
                    }
                    continue ;
                },
            };
            proof {
                assert(node_accepted(*g, *settings, cps@, inner_pre.0, ci as int, idx as int)) by {
                    assert forall|k2: int|
                        0 <= k2 < inner_pre.0.len() implies dist_sq(
                        node_pos,
                        g.sectors@[(#[trigger] inner_pre.0[k2]).0].centroid,
                    ) >= settings.node_min_spacing * settings.node_min_spacing by {
                        assert(node_ok(nodes@[k2], *g, cps@, *settings));
                        assert(nodes@[k2].position == g.sectors@[inner_pre.0[k2].0].centroid);
                        assert(dist_sq(node_pos, nodes@[k2].position) >= node_min_sq);
                    }
                }
                assert(inner_now == (inner_pre.0.push((idx as int, ci as int)), wy_advance(
                    inner_pre.1,
                )));
            }
            let ghost nodes_pre: Seq<ResourceNode> = nodes@;
            let produces = resource_for_node_type(nt);
            let node = ResourceNode {
                node_type: nt,
                produces,
                sector: idx,
                city: ci,
                position: node_pos,
            };
            let node_index = nodes.len();
            nodes.push(node);
            let host_city = &cities[ci];
            let mut new_list = copy_keys(&host_city.resource_nodes);
            new_list.push(node_index);
            let updated = City {
                name: host_city.name.clone(),
                sector: host_city.sector,
                position: host_city.position,
                population: host_city.population,
                resource_nodes: new_list,
            };
            let ghost cities_pre: Seq<City> = cities@;
            cities.set(ci, updated);
            nodes_to_gen = nodes_to_gen - 1;
            proof {
                assert forall|k2: int|
                    0 <= k2 < nodes@.len() implies {
                    let pick = inner_now.0[k2];
                    &&& ((#[trigger] nodes@[k2]).sector as int) == pick.0
                    &&& ((nodes@[k2]).city as int) == pick.1
                } by {
                    if k2 < nodes_pre.len() {
                        assert(nodes@[k2] == nodes_pre[k2]);
                        assert(inner_now.0[k2] == inner_pre.0[k2]);
                    } else {
                        assert(inner_now.0[k2] == (idx as int, ci as int));
                    }
                }
                crate::geom::lemma_dist_sq_symmetric_all(
                    nodes_pre.map_values(|nd: ResourceNode| nd.position),
                    node_pos,
                );
                assert forall|k1: int, k2: int|
                    0 <= k1 < nodes@.len() && 0 <= k2 < nodes@.len() && k1 != k2 implies dist_sq(
                    (#[trigger] nodes@[k1]).position,
                    (#[trigger] nodes@[k2]).position,
                ) >= node_min_sq by {
                    if k1 < nodes_pre.len() && k2 < nodes_pre.len() {
                    } else if k2 == nodes_pre.len() {
                        assert(dist_sq(node_pos, nodes_pre[k1].position) >= node_min_sq);
                        assert(nodes_pre.map_values(|nd: ResourceNode| nd.position)[k1]
                            == nodes_pre[k1].position);
                        crate::geom::lemma_dist_sq_symmetric(nodes_pre[k1].position, node_pos);
                    } else {
                        assert(dist_sq(node_pos, nodes_pre[k2].position) >= node_min_sq);
                    }
                }
                assert forall|i2: int, t: int|
                    0 <= i2 < cities@.len() && 0 <= t < (
                #[trigger] cities@[i2]).resource_nodes@.len() implies {
                    let idx2 = #[trigger] cities@[i2].resource_nodes@[t];
                    idx2 < nodes@.len() && nodes@[idx2 as int].city == i2
                } by {
                    if i2 == ci {
                        if t < cities_pre[i2].resource_nodes@.len() {
                            assert(cities@[i2].resource_nodes@[t] == cities_pre[
                                i2
                            ].resource_nodes@[t]);
                            assert(nodes@[cities_pre[i2].resource_nodes@[t] as int] == nodes_pre[
                                cities_pre[i2].resource_nodes@[t] as int
                            ]);
                        } else {
                            assert(cities@[i2].resource_nodes@[t] == node_index);
                        }
                    } else {
                        assert(cities@[i2] == cities_pre[i2]);
                        assert(nodes@[cities_pre[i2].resource_nodes@[t] as int] == nodes_pre[
                            cities_pre[i2].resource_nodes@[t] as int
                        ]);
                    }
                }
                assert(cities@[ci as int].resource_nodes@ =~= cities_pre[
                    ci as int
                ].resource_nodes@.push(node_index));
                assert forall|i2: int, t1: int, t2: int|
                    0 <= i2 < cities@.len() && 0 <= t1 < t2 < (
                #[trigger] cities@[i2]).resource_nodes@.len() implies (
                #[trigger] cities@[i2].resource_nodes@[t1]) < (
                #[trigger] cities@[i2].resource_nodes@[t2]) by {
                    if i2 == ci {
                        let pre_list = cities_pre[i2].resource_nodes@;
                        assert(cities@[i2].resource_nodes@[t1] == pre_list[t1]);
                        if t2 < pre_list.len() {
                            assert(cities@[i2].resource_nodes@[t2] == pre_list[t2]);
                        } else {
                            assert(cities@[i2].resource_nodes@[t2] == node_index);
                            assert((pre_list[t1] as int) < nodes_pre.len());
                        }
                    } else {
                        assert(cities@[i2] == cities_pre[i2]);
                    }
                }
                assert forall|k: int|
                    0 <= k < nodes@.len() implies exists|t: int|
                    0 <= t < cities@[(#[trigger] nodes@[k]).city as int].resource_nodes@.len()
                        && cities@[nodes@[k].city as int].resource_nodes@[t] == k by {
                    if k < nodes_pre.len() {
                        assert(nodes@[k] == nodes_pre[k]);
                        let ow = nodes_pre[k].city as int;
                        let t = choose|t: int|
                            0 <= t < cities_pre[ow].resource_nodes@.len() && cities_pre[
                                ow
                            ].resource_nodes@[t] == k;
                        if ow == ci {
                            assert(cities@[ow].resource_nodes@[t] == k);
                        } else {
                            assert(cities@[ow] == cities_pre[ow]);
                            assert(cities@[ow].resource_nodes@[t] == k);
                        }
                    } else {
                        assert(nodes@[k].city == ci);
                        assert(cities@[ci as int].resource_nodes@[cities_pre[
                            ci as int
                        ].resource_nodes@.len() as int] == node_index);
                    }
                }
            }
        }
        proof {
            if attempt < NODE_ATTEMPT_BUDGET {
                lemma_city_nodes_stable(
                    s_round,
                    *g,
                    *settings,
                    cps@,
                    round_pre.0,
                    ci as int,
                    nodes_target as int,
                    attempt as int,
                    NODE_ATTEMPT_BUDGET as int,
                );
            }
            assert(node_rounds(old(rng).state, *g, *settings, cps@, ci as int + 1)
                == city_nodes_after(
                s_round,
                *g,
                *settings,
                cps@,
                round_pre.0,
                ci as int,
                nodes_target as int,
                NODE_ATTEMPT_BUDGET as int,
            ));
        }
        ci = ci + 1;
    }
    proof {
        assert(cps@ =~= old(cities)@.map_values(|c: City| c.position));
        assert(node_rounds(old(rng).state, *g, *settings, cps@, cities@.len() as int)
            == nodes_run(old(rng).state, *g, *settings, old(cities)@));
    }
    nodes
}

} // verus!

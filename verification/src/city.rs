//! Settlement placement: bounded rejection sampling of host sectors under
//! deadzone, spacing, and biome constraints, with unique names drawn from a
//! pool without replacement.

use vstd::prelude::*;

use crate::biome::settleable_biome;
use crate::geom::{dist_sq, dist_sq_val, point_ok, Vec2i};
use crate::map::SectorGraph;
use crate::rng::{wy_advance, wy_draw, RandomStream};
use crate::settings::MapGenSettings;

verus! {

/// Budget of draws for city rejection sampling; exhaustion yields fewer
/// cities, which is not an error.
pub const CITY_ATTEMPT_BUDGET: usize = 1000;

/// A settlement anchored to one sector.
#[derive(Debug, Clone)]
pub struct City {
    /// The unique name drawn from the name pool.
    pub name: String,
    /// Key of the host sector.
    pub sector: usize,
    /// The city position: the host sector's centroid.
    pub position: Vec2i,
    /// Initial population.
    pub population: u32,
    /// Keys of the resource nodes owned by this city, in placement order.
    pub resource_nodes: Vec<usize>,
}

/// The point violates the boundary deadzone of width `dz`: a placement is
/// accepted only strictly inside the deadzone-trimmed rectangle.
pub open spec fn in_deadzone(p: Vec2i, size: Vec2i, dz: i64) -> bool {
    p.x <= dz || p.x >= size.x - dz || p.y <= dz || p.y >= size.y - dz
}

/// Every name of the sequence differs from every other.
pub open spec fn names_distinct(s: Seq<String>) -> bool {
    forall|a: int, b: int| 0 <= a < s.len() && 0 <= b < s.len() && a != b ==> (#[trigger] s[a])@
        != (#[trigger] s[b])@
}

/// The city's name is one of the pool's names.
pub open spec fn name_from_pool(pool: Seq<String>, c: City) -> bool {
    exists|t: int| 0 <= t < pool.len() && (#[trigger] pool[t])@ == c.name@
}

/// A placed city satisfies its sector, position, biome, deadzone and
/// population constraints.
pub open spec fn city_ok(c: City, g: SectorGraph, settings: MapGenSettings) -> bool {
    &&& c.sector < g.sectors@.len()
    &&& c.position == g.sectors@[c.sector as int].centroid
    &&& !in_deadzone(c.position, settings.size, settings.city_deadzone)
    &&& (g.sectors@[c.sector as int].biome matches Some(b) && settleable_biome(b))
    &&& settings.city_start_pop_range.0 <= c.population < settings.city_start_pop_range.1
    &&& c.resource_nodes@.len() == 0
}

/// The settlement sampler accepts a drawn sector against the settlements
/// accepted so far (each a host sector key, a name view, and a
/// population): its centroid clears the deadzone, keeps the minimum
/// spacing to every earlier position, its sector is unused, and its biome
/// is settleable.
pub open spec fn city_accepted(
    g: SectorGraph,
    settings: MapGenSettings,
    acc: Seq<(int, Seq<char>, u32)>,
    idx: int,
) -> bool {
    let pos = g.sectors@[idx].centroid;
    &&& !in_deadzone(pos, settings.size, settings.city_deadzone)
    &&& !(exists|i: int|
        0 <= i < acc.len() && dist_sq(g.sectors@[(#[trigger] acc[i]).0].centroid, pos)
            < settings.city_min_spacing * settings.city_min_spacing)
    &&& !(exists|i: int| 0 <= i < acc.len() && (#[trigger] acc[i]).0 == idx)
    &&& (g.sectors@[idx].biome matches Some(b) && settleable_biome(b))
}

/// The accepted settlements, remaining name pool, and stream state after
/// `k` sampling attempts from state `s0`: each attempt draws one sector
/// and, when it is accepted, one name index and one population; sampling
/// stops once `city_num` settlements are accepted.
pub open spec fn cities_after(
    s0: u64,
    g: SectorGraph,
    settings: MapGenSettings,
    names0: Seq<String>,
    k: int,
) -> (Seq<(int, Seq<char>, u32)>, Seq<String>, u64)
    decreases k,
{
    if k <= 0 {
        (Seq::<(int, Seq<char>, u32)>::empty(), names0, s0)
    } else {
        let prev = cities_after(s0, g, settings, names0, k - 1);
        if prev.0.len() >= settings.city_num || g.sectors@.len() == 0 {
            prev
        } else {
            let idx = wy_draw(prev.2, g.sectors@.len() as u64) as int;
            let s1 = wy_advance(prev.2);
            if !city_accepted(g, settings, prev.0, idx) {
                (prev.0, prev.1, s1)
            } else {
                let kn = wy_draw(s1, prev.1.len() as u64) as int;
                let s2 = wy_advance(s1);
                let name = prev.1[kn];
                let names2 = prev.1.update(kn, prev.1.last()).drop_last();
                let pop = (settings.city_start_pop_range.0 + wy_draw(
                    s2,
                    (settings.city_start_pop_range.1 - settings.city_start_pop_range.0) as u64,
                )) as u32;
                let s3 = wy_advance(s2);
                (prev.0.push((idx, name@, pop)), names2, s3)
            }
        }
    }
}

/// The whole settlement-sampling run: every attempt of the budget.
pub open spec fn cities_run(s0: u64, g: SectorGraph, settings: MapGenSettings, names0: Seq<String>) -> (
    Seq<(int, Seq<char>, u32)>,
    Seq<String>,
    u64,
) {
    cities_after(s0, g, settings, names0, CITY_ATTEMPT_BUDGET as int)
}

/// On an empty sector graph the sampler never draws.
pub proof fn lemma_cities_after_empty(
    s0: u64,
    g: SectorGraph,
    settings: MapGenSettings,
    names0: Seq<String>,
    k: int,
)
    requires
        g.sectors@.len() == 0,
        0 <= k,
    ensures
        cities_after(s0, g, settings, names0, k) == (
            Seq::<(int, Seq<char>, u32)>::empty(),
            names0,
            s0,
        ),
    decreases k,
{
    if k > 0 {
        lemma_cities_after_empty(s0, g, settings, names0, k - 1);
    }
}

/// Once the sampler has accepted `city_num` settlements, further attempts
/// change nothing.
pub proof fn lemma_cities_after_stable(
    s0: u64,
    g: SectorGraph,
    settings: MapGenSettings,
    names0: Seq<String>,
    k1: int,
    k2: int,
)
    requires
        0 <= k1 <= k2,
        cities_after(s0, g, settings, names0, k1).0.len() >= settings.city_num,
    ensures
        cities_after(s0, g, settings, names0, k2) == cities_after(s0, g, settings, names0, k1),
    decreases k2 - k1,
{
    if k2 > k1 {
        lemma_cities_after_stable(s0, g, settings, names0, k1, k2 - 1);
    }
}

/// Whether `p` comes within the given squared distance of a placed city.
fn city_too_close(cities: &Vec<City>, p: Vec2i, min_sq: i128) -> (r: bool)
    requires
        point_ok(p),
        forall|i: int| 0 <= i < cities@.len() ==> point_ok((#[trigger] cities@[i]).position),
    ensures
        r == exists|i: int|
            0 <= i < cities@.len() && dist_sq((#[trigger] cities@[i]).position, p) < min_sq,
{
    let mut i: usize = 0;
    while i < cities.len()
        invariant
            point_ok(p),
            forall|k: int| 0 <= k < cities@.len() ==> point_ok((#[trigger] cities@[k]).position),
            0 <= i <= cities@.len(),
            forall|k: int|
                0 <= k < i ==> dist_sq((#[trigger] cities@[k]).position, p) >= min_sq,
        decreases cities@.len() - i,
    {
        if dist_sq_val(cities[i].position, p) < min_sq {
            return true;
        }
        i = i + 1;
    }
    false
}

/// Whether a placed city already occupies the sector.
fn sector_taken(cities: &Vec<City>, idx: usize) -> (r: bool)
    ensures
        r == exists|i: int| 0 <= i < cities@.len() && (#[trigger] cities@[i]).sector == idx,
{
    let mut i: usize = 0;
    while i < cities.len()
        invariant
            0 <= i <= cities@.len(),
            forall|k: int| 0 <= k < i ==> (#[trigger] cities@[k]).sector != idx,
        decreases cities@.len() - i,
    {
        if cities[i].sector == idx {
            return true;
        }
        i = i + 1;
    }
    false
}

/// Place up to `city_num` cities by bounded rejection sampling: each draw
/// picks a random sector and keeps it only if its centroid clears the
/// boundary deadzone, keeps the minimum spacing to every earlier city, sits
/// in a settleable biome, and occupies a sector no earlier city uses. Each
/// placed city consumes one name from the pool, drawn at a random index
/// without replacement. The placed cities, the remaining pool, and the
/// final stream state are exactly those of the spec-level run of the
/// sampler over the wyrand draws, so the outcome is a function of the
/// inputs alone.
pub fn spawn_cities(
    g: &SectorGraph,
    rng: &mut RandomStream,
    settings: &MapGenSettings,
    names: &mut Vec<String>,
) -> (r: Vec<City>)
    requires
        g.wf(),
        settings.wf(),
        old(names)@.len() >= settings.city_num,
    ensures
        r@.len() <= settings.city_num,
        settings.city_num == 0 ==> r@.len() == 0,
        final(names)@.len() + r@.len() == old(names)@.len(),
        forall|i: int| 0 <= i < r@.len() ==> city_ok(#[trigger] r@[i], *g, *settings),
        forall|i: int, j: int|
            0 <= i < r@.len() && 0 <= j < r@.len() && i != j ==> dist_sq(
                (#[trigger] r@[i]).position,
                (#[trigger] r@[j]).position,
            ) >= settings.city_min_spacing * settings.city_min_spacing,
        forall|i: int, j: int|
            0 <= i < r@.len() && 0 <= j < r@.len() && i != j ==> (#[trigger] r@[i]).sector != (
            #[trigger] r@[j]).sector,
        names_distinct(old(names)@) ==> (names_distinct(r@.map_values(|c: City| c.name))
            && names_distinct(final(names)@)),
        names_distinct(old(names)@) ==> forall|i: int, a: int|
            0 <= i < r@.len() && 0 <= a < final(names)@.len() ==> (#[trigger] r@[i]).name@ != (
            #[trigger] final(names)@[a])@,
        forall|i: int| 0 <= i < r@.len() ==> name_from_pool(old(names)@, #[trigger] r@[i]),
        r@.len() == cities_run(old(rng).state, *g, *settings, old(names)@).0.len(),
        forall|i: int|
            0 <= i < r@.len() ==> {
                let pick = cities_run(old(rng).state, *g, *settings, old(names)@).0[i];
                &&& ((#[trigger] r@[i]).sector as int) == pick.0
                &&& r@[i].name@ == pick.1
                &&& r@[i].population == pick.2
            },
        final(names)@ == cities_run(old(rng).state, *g, *settings, old(names)@).1,
        final(rng).state == cities_run(old(rng).state, *g, *settings, old(names)@).2,
{
    let n = g.len();
    let mut cities: Vec<City> = Vec::new();
    if n == 0 {
        proof {
            lemma_cities_after_empty(
                old(rng).state,
                *g,
                *settings,
                old(names)@,
                CITY_ATTEMPT_BUDGET as int,
            );
        }
        return cities;
    }
    let ghost pool0: Seq<String> = names@;
    let ghost pd: bool = names_distinct(pool0);
    proof {
        assert(0 <= (settings.city_min_spacing as int) * (settings.city_min_spacing as int)
            <= 0x4000_0000_0000_0000) by (nonlinear_arith)
            requires
                0 <= settings.city_min_spacing <= 0x8000_0000,
        ;
    }
    let min_sq: i128 = (settings.city_min_spacing as i128) * (settings.city_min_spacing as i128);
    let mut attempt: usize = 0;
    while attempt < CITY_ATTEMPT_BUDGET && (cities.len() as u32) < settings.city_num
        invariant
            g.wf(),
            settings.wf(),
            n == g.sectors@.len(),
            n >= 1,
            min_sq == settings.city_min_spacing * settings.city_min_spacing,
            pool0 == old(names)@,
            0 <= attempt <= CITY_ATTEMPT_BUDGET,
            cities@.len() == cities_after(
                old(rng).state,
                *g,
                *settings,
                pool0,
                attempt as int,
            ).0.len(),
            forall|i: int|
                0 <= i < cities@.len() ==> {
                    let pick = cities_after(
                        old(rng).state,
                        *g,
                        *settings,
                        pool0,
                        attempt as int,
                    ).0[i];
                    &&& ((#[trigger] cities@[i]).sector as int) == pick.0
                    &&& cities@[i].name@ == pick.1
                    &&& cities@[i].population == pick.2
                },
            names@ == cities_after(old(rng).state, *g, *settings, pool0, attempt as int).1,
            rng.state == cities_after(old(rng).state, *g, *settings, pool0, attempt as int).2,
            cities@.len() <= settings.city_num,
            pool0.len() >= settings.city_num,
            pd == names_distinct(pool0),
            names@.len() + cities@.len() == pool0.len(),
            forall|i: int| 0 <= i < cities@.len() ==> city_ok(#[trigger] cities@[i], *g, *settings),
            forall|i: int, j: int|
                0 <= i < cities@.len() && 0 <= j < cities@.len() && i != j ==> dist_sq(
                    (#[trigger] cities@[i]).position,
                    (#[trigger] cities@[j]).position,
                ) >= min_sq,
            forall|i: int, j: int|
                0 <= i < cities@.len() && 0 <= j < cities@.len() && i != j ==> (
                #[trigger] cities@[i]).sector != (#[trigger] cities@[j]).sector,
            pd ==> names_distinct(names@),
            pd ==> names_distinct(cities@.map_values(|c: City| c.name)),
            pd ==> forall|i: int, a: int|
                0 <= i < cities@.len() && 0 <= a < names@.len() ==> (#[trigger] cities@[i]).name@
                    != (#[trigger] names@[a])@,
            forall|a: int|
                0 <= a < names@.len() ==> exists|t: int|
                    0 <= t < pool0.len() && (#[trigger] pool0[t])@ == (#[trigger] names@[a])@,
            forall|i: int|
                0 <= i < cities@.len() ==> name_from_pool(pool0, #[trigger] cities@[i]),
        decreases CITY_ATTEMPT_BUDGET - attempt,
    {
        let ghost run_pre: (Seq<(int, Seq<char>, u32)>, Seq<String>, u64) = cities_after(
            old(rng).state,
            *g,
            *settings,
            pool0,
            attempt as int,
        );
        attempt = attempt + 1;
        let ghost run_now: (Seq<(int, Seq<char>, u32)>, Seq<String>, u64) = cities_after(
            old(rng).state,
            *g,
            *settings,
            pool0,
            attempt as int,
        );
        let idx = rng.next_index(n);
        let sector = &g.sectors[idx];
        let city_pos = sector.centroid;
        proof {
            assert(crate::map::wf_sector(g.sectors@[idx as int], idx as int, n as int));
            assert(run_pre.0.len() < settings.city_num);
            assert(idx as int == wy_draw(run_pre.2, n as u64) as int);
        }
        let dz = settings.city_deadzone;
        if city_pos.x <= dz || city_pos.x >= settings.size.x - dz || city_pos.y <= dz
            || city_pos.y >= settings.size.y - dz {
            proof {
                assert(in_deadzone(city_pos, settings.size, settings.city_deadzone));
                assert(run_now == (run_pre.0, run_pre.1, wy_advance(run_pre.2)));
            }
            continue ;
        }
        if city_too_close(&cities, city_pos, min_sq) {
            proof {
                let i = choose|i: int|
                    0 <= i < cities@.len() && dist_sq((#[trigger] cities@[i]).position, city_pos)
                        < min_sq;
                assert(cities@[i].position == g.sectors@[run_pre.0[i].0].centroid);
                assert(!city_accepted(*g, *settings, run_pre.0, idx as int));
                assert(run_now == (run_pre.0, run_pre.1, wy_advance(run_pre.2)));
            }
            continue ;
        }
        if sector_taken(&cities, idx) {
            proof {
                let i = choose|i: int|
                    0 <= i < cities@.len() && (#[trigger] cities@[i]).sector == idx;
                assert(run_pre.0[i].0 == idx as int);
                assert(!city_accepted(*g, *settings, run_pre.0, idx as int));
                assert(run_now == (run_pre.0, run_pre.1, wy_advance(run_pre.2)));
            }
            continue ;
        }
        let settleable = match sector.biome {
            Some(crate::biome::Biome::Plains) => true,
            Some(crate::biome::Biome::Desert) => true,
            _ => false,
        };
        if !settleable {
            proof {
                assert(run_now == (run_pre.0, run_pre.1, wy_advance(run_pre.2)));
            }
            continue ;
        }
        proof {
            assert(city_accepted(*g, *settings, run_pre.0, idx as int)) by {
                assert forall|i: int|
                    0 <= i < run_pre.0.len() implies dist_sq(
                    g.sectors@[(#[trigger] run_pre.0[i]).0].centroid,
                    city_pos,
                ) >= settings.city_min_spacing * settings.city_min_spacing by {
                    assert(cities@[i].position == g.sectors@[run_pre.0[i].0].centroid);
                    assert(dist_sq(cities@[i].position, city_pos) >= min_sq);
                }
                assert forall|i: int|
                    0 <= i < run_pre.0.len() implies (#[trigger] run_pre.0[i]).0 != idx as int by {
                    assert((cities@[i].sector as int) == run_pre.0[i].0);
                    assert(cities@[i].sector != idx);
                }
            }
        }
        let name_idx = rng.next_index(names.len());
        let ghost names_pre: Seq<String> = names@;
        let name = names.swap_remove(name_idx);
        let ghost name_view: Seq<char> = name@;
        let population = rng.next_in_range_u32(
            settings.city_start_pop_range.0,
            settings.city_start_pop_range.1,
        );
        let ghost cities_pre: Seq<City> = cities@;
        let city = City {
            name,
            sector: idx,
            position: city_pos,
            population,
            resource_nodes: Vec::new(),
        };
        cities.push(city);
        proof {
            // The accepted settlement matches the spec-level run's step.
            let ghost s1: u64 = wy_advance(run_pre.2);
            let ghost s2: u64 = wy_advance(s1);
            assert(names_pre == run_pre.1);
            assert(name_idx as int == wy_draw(s1, names_pre.len() as u64) as int);
            assert(name_view == names_pre[name_idx as int]@);
            assert(names@ =~= names_pre.update(name_idx as int, names_pre.last()).drop_last());
            assert(names@ =~= run_now.1);
            assert(population as int == settings.city_start_pop_range.0 + wy_draw(
                s2,
                (settings.city_start_pop_range.1 - settings.city_start_pop_range.0) as u64,
            ));
            assert(run_now.0 =~= run_pre.0.push((idx as int, name_view, population)));
            assert(rng.state == run_now.2);
            assert forall|i: int|
                0 <= i < cities@.len() implies {
                let pick = run_now.0[i];
                &&& ((#[trigger] cities@[i]).sector as int) == pick.0
                &&& cities@[i].name@ == pick.1
                &&& cities@[i].population == pick.2
            } by {
                if i < cities_pre.len() {
                    assert(run_now.0[i] == run_pre.0[i]);
                    assert(cities@[i] == cities_pre[i]);
                } else {
                    assert(run_now.0[i] == (idx as int, name_view, population));
                    assert(cities@[i].name@ == name_view);
                }
            }
            crate::geom::lemma_dist_sq_symmetric_all(
                cities_pre.map_values(|c: City| c.position),
                city_pos,
            );
            assert forall|i: int, j: int|
                0 <= i < cities@.len() && 0 <= j < cities@.len() && i != j implies dist_sq(
                (#[trigger] cities@[i]).position,
                (#[trigger] cities@[j]).position,
            ) >= min_sq by {
                if i < cities_pre.len() && j < cities_pre.len() {
                } else if j == cities_pre.len() {
                    assert(cities@[j].position == city_pos);
                    assert(dist_sq(cities_pre[i].position, city_pos) >= min_sq);
                } else {
                    assert(cities@[i].position == city_pos);
                    assert(dist_sq(cities_pre[j].position, city_pos) >= min_sq);
                    assert(cities_pre.map_values(|c: City| c.position)[j] == cities_pre[j].position);
                    crate::geom::lemma_dist_sq_symmetric(cities_pre[j].position, city_pos);
                }
            }
            if pd {
                assert forall|a: int, b: int|
                    0 <= a < names@.len() && 0 <= b < names@.len() && a != b implies (
                #[trigger] names@[a])@ != (#[trigger] names@[b])@ by {
                    let sa = if a == name_idx {
                        names_pre.len() - 1
                    } else {
                        a
                    };
                    let sb = if b == name_idx {
                        names_pre.len() - 1
                    } else {
                        b
                    };
                    assert(names@[a]@ == names_pre[sa]@);
                    assert(names@[b]@ == names_pre[sb]@);
                }
                assert forall|i: int, a: int|
                    0 <= i < cities@.len() && 0 <= a < names@.len() implies (
                #[trigger] cities@[i]).name@ != (#[trigger] names@[a])@ by {
                    let sa = if a == name_idx {
                        names_pre.len() - 1
                    } else {
                        a
                    };
                    assert(names@[a]@ == names_pre[sa]@);
                    if i < cities_pre.len() {
                    } else {
                        assert(cities@[i].name@ == names_pre[name_idx as int]@);
                        assert(sa != name_idx);
                    }
                }
                let nm = cities@.map_values(|c: City| c.name);
                assert forall|i: int, j: int|
                    0 <= i < nm.len() && 0 <= j < nm.len() && i != j implies (#[trigger] nm[i])@
                    != (#[trigger] nm[j])@ by {
                    assert(nm[i]@ == cities@[i].name@);
                    assert(nm[j]@ == cities@[j].name@);
                    if i < cities_pre.len() && j < cities_pre.len() {
                        let pm = cities_pre.map_values(|c: City| c.name);
                        assert(pm[i]@ == cities_pre[i].name@);
                        assert(pm[j]@ == cities_pre[j].name@);
                    } else if j == cities_pre.len() {
                        assert(cities@[j].name@ == names_pre[name_idx as int]@);
                        assert(cities@[i].name@ != names_pre[name_idx as int]@);
                    } else {
                        assert(cities@[i].name@ == names_pre[name_idx as int]@);
                        assert(cities@[j].name@ != names_pre[name_idx as int]@);
                    }
                }
            }
            assert forall|a: int|
                0 <= a < names@.len() implies exists|t: int|
                0 <= t < pool0.len() && (#[trigger] pool0[t])@ == (#[trigger] names@[a])@ by {
                let sa = if a == name_idx {
                    names_pre.len() - 1
                } else {
                    a
                };
                assert(names@[a]@ == names_pre[sa]@);
            }
        }
    }
    proof {
        assert(pool0 =~= old(names)@);
        if attempt < CITY_ATTEMPT_BUDGET {
            lemma_cities_after_stable(
                old(rng).state,
                *g,
                *settings,
                pool0,
                attempt as int,
                CITY_ATTEMPT_BUDGET as int,
            );
        }
    }
    cities
}

} // verus!

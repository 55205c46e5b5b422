//! Biome types, the biome-to-resource rule, and breadth-first biome
//! propagation over the sector graph.

use vstd::prelude::*;

use crate::counting::{lemma_none_count_bounds, lemma_none_count_fill, none_count};
use crate::map::{
    adjacent, connected, copy_keys, copy_vec, eq_but_biome, is_path,
    lemma_closed_set_covers_path, lemma_same_structure, reachable, Sector, SectorGraph,
};
use crate::rng::RandomStream;

verus! {

/// A categorical terrain type assigned to each sector.
#[derive(Clone, Copy, Debug, PartialEq, Eq, Structural)]
pub enum Biome {
    Plains,
    Forest,
    Desert,
    Mountains,
    Water,
}

/// A kind of resource-production site.
#[derive(Clone, Copy, Debug, PartialEq, Eq, Structural)]
pub enum ResourceNodeType {
    Farm,
    Mine,
    Lumbermill,
}

/// The single derivation rule from a host sector's biome to the type of
/// resource node it can carry; `None` marks biomes that host no node.
pub open spec fn biome_node_type(b: Biome) -> Option<ResourceNodeType> {
    match b {
        Biome::Plains => Some(ResourceNodeType::Farm),
        Biome::Forest => Some(ResourceNodeType::Lumbermill),
        Biome::Mountains => Some(ResourceNodeType::Mine),
        Biome::Desert => None,
        Biome::Water => None,
    }
}

/// A biome in which a settlement may be founded.
pub open spec fn settleable_biome(b: Biome) -> bool {
    b == Biome::Plains || b == Biome::Desert
}

/// A biome that seed selection may draw: the enabled set.
pub open spec fn enabled_biome(b: Biome) -> bool {
    b == Biome::Plains || b == Biome::Forest || b == Biome::Desert
}

/// Budget of draws for picking distinct biome seed sectors.
pub const BIOME_SEED_ATTEMPTS: usize = 1000;

/// One pending assignment of the breadth-first flood fill.
#[derive(Clone, Copy, Debug, PartialEq, Eq, Structural)]
pub struct BiomeSeed {
    /// The biome this entry spreads.
    pub biome: Biome,
    /// The sector the biome is to be written to.
    pub sector: usize,
}

/// The biome fields of a sector sequence.
pub open spec fn biomes_of(s: Seq<Sector>) -> Seq<Option<Biome>> {
    s.map_values(|sec: Sector| sec.biome)
}

/// Whether some queue entry at position `t` or later targets sector `j`.
pub open spec fn pending_for(seeds: Seq<BiomeSeed>, head: int, j: usize) -> bool {
    exists|t: int| head <= t < seeds.len() && (#[trigger] seeds[t]).sector == j
}

/// Whether an entry of the seed list already targets sector `idx`.
fn seed_exists(seeds: &Vec<BiomeSeed>, idx: usize) -> (r: bool)
    ensures
        r == exists|t: int| 0 <= t < seeds@.len() && (#[trigger] seeds@[t]).sector == idx,
{
    let mut i: usize = 0;
    while i < seeds.len()
        invariant
            0 <= i <= seeds@.len(),
            forall|t: int| 0 <= t < i ==> (#[trigger] seeds@[t]).sector != idx,
        decreases seeds@.len() - i,
    {
        if seeds[i].sector == idx {
            return true;
        }
        i = i + 1;
    }
    false
}

/// Map one random draw below three to an enabled biome.
fn biome_from_draw(d: u64) -> (r: Biome)
    requires
        d < 3,
    ensures
        enabled_biome(r),
{
    if d == 0 {
        Biome::Plains
    } else if d == 1 {
        Biome::Forest
    } else {
        Biome::Desert
    }
}

/// Look up the resource-node type a biome yields.
pub fn node_type_for_biome(b: Biome) -> (r: Option<ResourceNodeType>)
    ensures
        r == biome_node_type(b),
{
    match b {
        Biome::Plains => Some(ResourceNodeType::Farm),
        Biome::Forest => Some(ResourceNodeType::Lumbermill),
        Biome::Mountains => Some(ResourceNodeType::Mine),
        Biome::Desert => None,
        Biome::Water => None,
    }
}

/// Seed up to `seed_count` distinct sectors with a uniformly random enabled
/// biome each, then flood the biomes outward breadth-first until the queue
/// empties; the chosen seeds are returned. The first writer of a sector
/// wins, so region boundaries follow queue order. Afterwards every seed
/// sector carries its own seed's biome, the assigned region is closed
/// under adjacency, and on a connected graph with at least one seed every
/// sector is covered.
#[verifier::rlimit(40)]
#[verifier::spinoff_prover]
pub fn generate_biomes(g: &mut SectorGraph, rng: &mut RandomStream, seed_count: u32) -> (seeds:
    Vec<BiomeSeed>)
    requires
        old(g).wf(),
        forall|i: int|
            0 <= i < old(g).sectors@.len() ==> (#[trigger] old(g).sectors@[i]).biome is None,
    ensures
        seeds@.len() <= seed_count,
        seed_count >= 1 && old(g).sectors@.len() >= 1 ==> seeds@.len() >= 1,
        forall|t: int|
            0 <= t < seeds@.len() ==> (#[trigger] seeds@[t]).sector < final(g).sectors@.len()
                && enabled_biome(seeds@[t].biome),
        forall|t1: int, t2: int|
            0 <= t1 < seeds@.len() && 0 <= t2 < seeds@.len() && t1 != t2 ==> (
            #[trigger] seeds@[t1]).sector != (#[trigger] seeds@[t2]).sector,
        forall|t: int|
            0 <= t < seeds@.len() ==> final(g).sectors@[(#[trigger] seeds@[t]).sector as int].biome
                == Some(seeds@[t].biome),
        final(g).wf(),
        final(g).sectors@.len() == old(g).sectors@.len(),
        forall|i: int|
            0 <= i < old(g).sectors@.len() ==> eq_but_biome(
                #[trigger] final(g).sectors@[i],
                old(g).sectors@[i],
            ),
        seed_count == 0 ==> forall|i: int|
            0 <= i < final(g).sectors@.len() ==> (#[trigger] final(g).sectors@[i]).biome is None,
        forall|i: int|
            0 <= i < final(g).sectors@.len() ==> ((#[trigger] final(g).sectors@[i]).biome matches
            Some(b) ==> enabled_biome(b)),
        seed_count >= 1 && old(g).sectors@.len() >= 1 ==> exists|i: int|
            0 <= i < final(g).sectors@.len() && (#[trigger] final(g).sectors@[i]).biome is Some,
        forall|i: int, j: int|
            #[trigger] adjacent(final(g).sectors@, i, j) && final(g).sectors@[i].biome is Some
                ==> final(g).sectors@[j].biome is Some,
        (seed_count >= 1 && old(g).sectors@.len() >= 1 && connected(old(g).sectors@))
            ==> forall|i: int|
            0 <= i < final(g).sectors@.len() ==> (#[trigger] final(g).sectors@[i]).biome is Some,
{
    let n = g.sectors.len();
    if n == 0 {
        return Vec::new();
    }
    let ghost orig: Seq<Sector> = g.sectors@;
    let mut seeds: Vec<BiomeSeed> = Vec::new();
    let mut attempt: usize = 0;
    while attempt < BIOME_SEED_ATTEMPTS && seeds.len() < seed_count as usize
        invariant
            n == g.sectors@.len(),
            n >= 1,
            g.sectors@ == orig,
            seeds@.len() <= seed_count,
            forall|t: int|
                0 <= t < seeds@.len() ==> (#[trigger] seeds@[t]).sector < n && enabled_biome(
                    seeds@[t].biome,
                ),
            forall|t1: int, t2: int|
                0 <= t1 < seeds@.len() && 0 <= t2 < seeds@.len() && t1 != t2 ==> (
                #[trigger] seeds@[t1]).sector != (#[trigger] seeds@[t2]).sector,
            (seed_count >= 1 && attempt >= 1) ==> seeds@.len() >= 1,
        decreases BIOME_SEED_ATTEMPTS - attempt,
    {
        attempt = attempt + 1;
        let idx = rng.next_index(n);
        if !seed_exists(&seeds, idx) {
            let d = rng.next_below(3);
            let b = biome_from_draw(d);
            let ghost seeds_pre: Seq<BiomeSeed> = seeds@;
            seeds.push(BiomeSeed { biome: b, sector: idx });
            proof {
                assert forall|t1: int, t2: int|
                    0 <= t1 < seeds@.len() && 0 <= t2 < seeds@.len() && t1 != t2 implies (
                #[trigger] seeds@[t1]).sector != (#[trigger] seeds@[t2]).sector by {
                    if t1 < seeds_pre.len() && t2 < seeds_pre.len() {
                    } else if t2 == seeds_pre.len() {
                        assert(seeds@[t2].sector == idx);
                        assert(seeds_pre[t1].sector != idx);
                    } else {
                        assert(seeds@[t1].sector == idx);
                        assert(seeds_pre[t2].sector != idx);
                    }
                }
            }
        }
    }
    let seed_list = copy_vec(&seeds);
    let ghost seeds0: Seq<BiomeSeed> = seed_list@;
    let ghost n0: int = seeds0.len() as int;
    let mut head: usize = 0;
    while head < seeds.len()
        invariant
            n == g.sectors@.len(),
            n >= 1,
            orig.len() == n,
            seeds@.len() >= n0,
            n0 == 0 ==> seeds@.len() == 0,
            n0 == 0 ==> g.sectors@ == orig,
            old(g).wf(),
            orig == old(g).sectors@,
            forall|i: int| 0 <= i < n ==> (#[trigger] orig[i]).biome is None,
            forall|i: int|
                0 <= i < n ==> eq_but_biome(#[trigger] g.sectors@[i], orig[i]),
            0 <= head <= seeds@.len(),
            seed_list@ == seeds0,
            seeds0.len() == n0,
            seed_count >= 1 ==> n0 >= 1,
            forall|t: int| 0 <= t < n0 ==> #[trigger] seeds@[t] == seeds0[t],
            forall|t1: int, t2: int|
                0 <= t1 < n0 && 0 <= t2 < n0 && t1 != t2 ==> (#[trigger] seeds0[t1]).sector != (
                #[trigger] seeds0[t2]).sector,
            forall|t: int|
                0 <= t < seeds@.len() ==> (#[trigger] seeds@[t]).sector < n && enabled_biome(
                    seeds@[t].biome,
                ),
            forall|i: int|
                0 <= i < n ==> ((#[trigger] g.sectors@[i]).biome matches Some(b)
                    ==> enabled_biome(b)),
            forall|t: int|
                0 <= t < head ==> g.sectors@[(#[trigger] seeds@[t]).sector as int].biome is Some,
            forall|t: int|
                0 <= t < head && t < n0 ==> g.sectors@[(#[trigger] seeds0[t]).sector as int].biome
                    == Some(seeds0[t].biome),
            head <= n0 ==> forall|i: int|
                0 <= i < n && (#[trigger] g.sectors@[i]).biome is Some ==> exists|t: int|
                    0 <= t < head && (#[trigger] seeds0[t]).sector == i,
            forall|a: int, k: int|
                0 <= a < n && (#[trigger] g.sectors@[a]).biome is Some && 0 <= k < g.sectors@[
                    a
                ].neighbors@.len() ==> {
                    let j = #[trigger] g.sectors@[a].neighbors@[k];
                    g.sectors@[j as int].biome is Some || pending_for(seeds@, head as int, j)
                },
        decreases none_count(biomes_of(g.sectors@)), seeds@.len() - head,
    {
        let entry_biome = seeds[head].biome;
        let idx = seeds[head].sector;
        let ghost pre: Seq<Sector> = g.sectors@;
        let ghost pre_seeds: Seq<BiomeSeed> = seeds@;
        let ghost head0: int = head as int;
        let already = match g.sectors[idx].biome {
            Some(_) => true,
            None => false,
        };
        if !already {
            let old_sector = &g.sectors[idx];
            let updated = Sector {
                site: old_sector.site,
                border: copy_vec(&old_sector.border),
                centroid: old_sector.centroid,
                height: old_sector.height,
                biome: Some(entry_biome),
                cost: old_sector.cost,
                neighbors: copy_keys(&old_sector.neighbors),
            };
            g.sectors.set(idx, updated);
            proof {
                assert(biomes_of(g.sectors@) =~= biomes_of(pre).update(
                    idx as int,
                    Some(entry_biome),
                ));
                assert(biomes_of(pre)[idx as int] is None);
                lemma_none_count_fill(biomes_of(pre), idx as int, entry_biome);
                lemma_none_count_bounds(biomes_of(g.sectors@));
                assert forall|i: int|
                    0 <= i < n implies (#[trigger] g.sectors@[i]).neighbors@
                    == pre[i].neighbors@ by {}
                assert forall|i: int|
                    0 <= i < n && i != idx implies (#[trigger] g.sectors@[i]).biome
                    == pre[i].biome by {}
                assert(g.sectors@[idx as int].biome == Some(entry_biome));
            }
            let nbs = copy_keys(&g.sectors[idx].neighbors);
            let ghost assigned: Seq<Sector> = g.sectors@;
            let mut k: usize = 0;
            while k < nbs.len()
                invariant
                    n == g.sectors@.len(),
                    g.sectors@ == assigned,
                    idx < n,
                    head < pre_seeds.len(),
                    head0 == head as int,
                    old(g).wf(),
                    orig == old(g).sectors@,
                    orig.len() == n,
                    seeds0.len() == n0,
                    forall|i: int|
                        0 <= i < n ==> eq_but_biome(#[trigger] g.sectors@[i], orig[i]),
                    nbs@ == g.sectors@[idx as int].neighbors@,
                    0 <= k <= nbs@.len(),
                    pre_seeds.is_prefix_of(seeds@),
                    seeds@.len() >= pre_seeds.len(),
                    enabled_biome(entry_biome),
                    g.sectors@[idx as int].biome == Some(entry_biome),
                    forall|t: int|
                        0 <= t < pre_seeds.len() ==> #[trigger] seeds@[t] == pre_seeds[t],
                    forall|t: int|
                        0 <= t < k ==> exists|u: int|
                            pre_seeds.len() <= u < seeds@.len() && (#[trigger] seeds@[u]).sector
                                == #[trigger] nbs@[t],
                    forall|t: int|
                        0 <= t < seeds@.len() ==> (#[trigger] seeds@[t]).sector < n
                            && enabled_biome(seeds@[t].biome),
                decreases nbs@.len() - k,
            {
                let j = nbs[k];
                proof {
                    assert(g.sectors@[idx as int].neighbors@[k as int] == j);
                    assert(eq_but_biome(g.sectors@[idx as int], orig[idx as int]));
                    assert(orig[idx as int].neighbors@[k as int] == j);
                    assert(crate::map::wf_sector(orig[idx as int], idx as int, n as int));
                    assert(j < n);
                }
                let ghost before: Seq<BiomeSeed> = seeds@;
                seeds.push(BiomeSeed { biome: entry_biome, sector: j });
                proof {
                    assert(seeds@[seeds@.len() - 1].sector == j);
                    assert forall|t: int|
                        0 <= t < k + 1 implies exists|u: int|
                        pre_seeds.len() <= u < seeds@.len() && (#[trigger] seeds@[u]).sector
                            == #[trigger] nbs@[t] by {
                        if t < k {
                            let u = choose|u: int|
                                pre_seeds.len() <= u < before.len() && (#[trigger] before[u]).sector
                                    == nbs@[t];
                            assert(seeds@[u] == before[u]);
                        } else {
                            assert(seeds@[seeds@.len() - 1].sector == nbs@[t]);
                        }
                    }
                }
                k = k + 1;
            }
        }
        head = head + 1;
        proof {
            assert forall|t: int|
                0 <= t < head implies g.sectors@[(#[trigger] seeds@[t]).sector as int].biome
                is Some by {
                if t < head - 1 {
                    assert(pre_seeds[t] == seeds@[t]);
                    assert(pre[seeds@[t].sector as int].biome is Some);
                    if seeds@[t].sector == idx {
                    } else {
                        assert(g.sectors@[seeds@[t].sector as int].biome == pre[seeds@[t].sector
                            as int].biome);
                    }
                } else {
                    assert(seeds@[t] == pre_seeds[head - 1]);
                    assert(seeds@[t].sector == idx);
                }
            }
            // Seed sectors keep their own seed's biome; while the seeds are
            // still being processed, only seed sectors carry a biome at all.
            assert forall|t: int|
                0 <= t < head && t < n0 implies g.sectors@[(
            #[trigger] seeds0[t]).sector as int].biome == Some(seeds0[t].biome) by {
                assert(pre_seeds[t] == seeds0[t]);
                assert(seeds0[t].sector < n);
                if t < head - 1 {
                    assert(pre[seeds0[t].sector as int].biome == Some(seeds0[t].biome));
                    if !already {
                        assert(pre[idx as int].biome is None);
                        assert(seeds0[t].sector != idx);
                        assert(g.sectors@[seeds0[t].sector as int].biome == pre[seeds0[t].sector
                            as int].biome);
                    } else {
                        assert(g.sectors@[seeds0[t].sector as int].biome == pre[seeds0[t].sector
                            as int].biome);
                    }
                } else {
                    assert(seeds0[t].sector == idx);
                    if already {
                        assert(pre[idx as int].biome is Some);
                        assert(head - 1 < n0);
                        let tt = choose|tt: int|
                            0 <= tt < head - 1 && (#[trigger] seeds0[tt]).sector == idx;
                        assert(0 <= tt < n0 && tt != t);
                        assert(seeds0[tt].sector == seeds0[t].sector);
                        assert(false);
                    } else {
                        assert(g.sectors@[idx as int].biome == Some(entry_biome));
                        assert(entry_biome == seeds0[t].biome);
                    }
                }
            }
            if head <= n0 {
                assert forall|i: int|
                    0 <= i < n && (#[trigger] g.sectors@[i]).biome is Some implies exists|t: int|
                    0 <= t < head && (#[trigger] seeds0[t]).sector == i by {
                    if !already && i == idx {
                        assert(seeds0[head - 1].sector == idx);
                    } else {
                        assert(pre[i].biome is Some);
                        let t = choose|t: int|
                            0 <= t < head - 1 && (#[trigger] seeds0[t]).sector == i;
                        assert(seeds0[t].sector == i);
                    }
                }
            }
            assert forall|a: int, k2: int|
                0 <= a < n && (#[trigger] g.sectors@[a]).biome is Some && 0 <= k2 < g.sectors@[
                    a
                ].neighbors@.len() implies {
                let j = #[trigger] g.sectors@[a].neighbors@[k2];
                g.sectors@[j as int].biome is Some || pending_for(seeds@, head as int, j)
            } by {
                let j = g.sectors@[a].neighbors@[k2];
                if a == idx && !already {
                    assert(exists|u: int|
                        pre_seeds.len() <= u < seeds@.len() && (#[trigger] seeds@[u]).sector == j);
                    let u = choose|u: int|
                        pre_seeds.len() <= u < seeds@.len() && (#[trigger] seeds@[u]).sector == j;
                    assert(head <= u);
                    assert(pending_for(seeds@, head as int, j));
                } else {
                    assert(pre[a].biome is Some);
                    assert(pre[a].neighbors@ == g.sectors@[a].neighbors@);
                    assert(pre[j as int].biome is Some || pending_for(
                        pre_seeds,
                        head as int - 1,
                        j,
                    ));
                    if pre[j as int].biome is Some {
                        assert(g.sectors@[j as int].biome is Some);
                    } else {
                        let t = choose|t: int|
                            head - 1 <= t < pre_seeds.len() && (#[trigger] pre_seeds[t]).sector
                                == j;
                        if t >= head {
                            assert(seeds@[t].sector == j);
                            assert(pending_for(seeds@, head as int, j));
                        } else {
                            assert(pre_seeds[head - 1].sector == idx);
                            assert(j == idx);
                            assert(g.sectors@[j as int].biome is Some);
                        }
                    }
                }
            }
        }
    }
    proof {
        assert forall|i: int|
            0 <= i < n implies (#[trigger] g.sectors@[i]).neighbors@ == orig[i].neighbors@ by {}
        lemma_same_structure(orig, g.sectors@);
        assert forall|i: int, j: int| #[trigger]
            adjacent(g.sectors@, i, j) && g.sectors@[i].biome is Some implies g.sectors@[
            j
        ].biome is Some by {
            let k = choose|k: int|
                0 <= k < g.sectors@[i].neighbors@.len() && #[trigger] g.sectors@[i].neighbors@[k]
                    == j;
            assert(g.sectors@[i].neighbors@[k] == j);
            assert(!pending_for(seeds@, head as int, j as usize)) by {
                assert(head == seeds@.len());
            }
        }
        assert forall|i: int, j: int| #[trigger]
            adjacent(g.sectors@, i, j) implies adjacent(g.sectors@, j, i) by {
            assert(adjacent(orig, i, j));
            assert(adjacent(orig, j, i));
        }
        assert(g.wf()) by {
            assert forall|i: int|
                0 <= i < g.sectors@.len() implies crate::map::wf_sector(
                #[trigger] g.sectors@[i],
                i,
                g.sectors@.len() as int,
            ) by {
                assert(crate::map::wf_sector(orig[i], i, orig.len() as int));
            }
        }
        if seed_count >= 1 && n >= 1 {
            assert(n0 >= 1);
            assert(seeds@.len() >= 1);
            assert(head == seeds@.len());
            assert(g.sectors@[(seeds@[0]).sector as int].biome is Some);
            assert(((seeds@[0]).sector as int) < n);
        }
        if seed_count >= 1 && n >= 1 && connected(orig) {
            let s = g.sectors@;
            let m = Set::new(|i: int| 0 <= i < n && s[i].biome is Some);
            let w = seeds@[0].sector as int;
            assert(m.contains(w));
            assert forall|i2: int, j2: int|
                m.contains(i2) && #[trigger] adjacent(s, i2, j2) implies m.contains(j2) by {
                let k = choose|k: int|
                    0 <= k < s[i2].neighbors@.len() && #[trigger] s[i2].neighbors@[k] == j2;
                assert(crate::map::wf_sector(orig[i2], i2, n as int));
                assert(orig[i2].neighbors@[k] < n);
                assert(s[j2].biome is Some);
            }
            assert forall|b: int| 0 <= b < n implies (#[trigger] s[b]).biome is Some by {
                assert(reachable(orig, w, b));
                assert(reachable(s, w, b));
                let p = choose|p: Seq<int>| is_path(s, p, w, b);
                lemma_closed_set_covers_path(s, m, p, w, b);
            }
        }
    }
    seed_list
}

} // verus!